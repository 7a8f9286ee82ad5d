//! BbCode: the instructions a tokenizer emits and the modes it reads in.
use vstd::prelude::*;

pub mod laws;
pub mod model;
pub mod tokenizer;

verus! {

/// The mode the tokenizer is reading in.
#[derive(Clone, Copy, Debug, PartialEq, Eq, Structural)]
pub enum ReadMode {
    Text,
    Escape,
    Tag,
    TagClose,
    TagPrimaryArg,
    Linebreak,
}

impl Default for ReadMode {
    fn default() -> (m: Self)
        ensures
            m == ReadMode::Text,
    {
        ReadMode::Text
    }
}

/// One unit of tokenized BbCode.
#[derive(Clone, Debug, PartialEq, Eq)]
pub enum Instruction {
    /// No instruction (nothing is being built).
    Null,
    /// Plain text, HTML-sanitized; only the character that broke a closing tag
    /// (as in `[/<`) is kept raw.
    Text(String),
    /// An opening tag with its name and an optional primary argument (`[url=...]`).
    Tag(String, Option<String>),
    /// A closing tag with its name.
    TagClose(String),
    /// A line break.
    Linebreak,
}

impl Default for Instruction {
    fn default() -> (i: Self)
        ensures
            i@ == Token::Null,
    {
        Instruction::Null
    }
}

/// The mathematical value of an [`Instruction`]: its strings taken as sequences of chars.
pub enum Token {
    Null,
    Text(Seq<char>),
    Tag(Seq<char>, Option<Seq<char>>),
    TagClose(Seq<char>),
    Linebreak,
}

/// The view of an optional string.
pub open spec fn opt_view(o: Option<String>) -> Option<Seq<char>> {
    match o {
        Some(s) => Some(s@),
        None => None,
    }
}

impl View for Instruction {
    type V = Token;

    open spec fn view(&self) -> Token {
        match self {
            Instruction::Null => Token::Null,
            Instruction::Text(t) => Token::Text(t@),
            Instruction::Tag(t, a) => Token::Tag(t@, opt_view(*a)),
            Instruction::TagClose(t) => Token::TagClose(t@),
            Instruction::Linebreak => Token::Linebreak,
        }
    }
}

} // verus!
