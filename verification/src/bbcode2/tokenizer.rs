use vstd::prelude::*;

use super::model::{
    commit, entity, initial, is_sanitized, lemma_commit_valid, lemma_step_valid, reset_to_text, run,
    runs_ok, set_current, step, step_escape, step_linebreak, step_ok, step_tag, step_tag_arg,
    step_tag_close, step_text, tokenized, valid, with_close_name, with_tag_arg, with_tag_name,
    with_text, TokenizerView, Kind, kind_of, kind_step, lemma_kind_step, is_ascii_alpha,
    is_break_space,
};
use super::{Instruction, ReadMode, Token};

verus! {

/// `String::push`: the string afterwards holds its former chars followed by `c`.
#[verifier::external_body]
fn push_char(s: &mut String, c: char)
    ensures
        final(s)@ == old(s)@.push(c),
{
    s.push(c)
}

/// A string of one char.
fn string_of_char(c: char) -> (s: String)
    ensures
        s@ == seq![c],
{
    let mut s = String::new();
    push_char(&mut s, c);
    s
}

/// The text `cur` extended by `piece`, or a new text holding `piece`.
fn extend_text(cur: Instruction, piece: String) -> (r: Instruction)
    ensures
        r@ == with_text(cur@, piece@),
{
    match cur {
        Instruction::Text(mut contents) => {
            contents.append(piece.as_str());
            Instruction::Text(contents)
        },
        _ => Instruction::Text(piece),
    }
}

/// The tag `cur` with `piece` added to its name, or a new tag named `piece`.
fn extend_tag_name(cur: Instruction, piece: String) -> (r: Instruction)
    ensures
        r@ == with_tag_name(cur@, piece@),
{
    match cur {
        Instruction::Tag(mut contents, arg) => {
            contents.append(piece.as_str());
            Instruction::Tag(contents, arg)
        },
        _ => Instruction::Tag(piece, None),
    }
}

/// The tag `cur` with `piece` added to its primary argument.
fn extend_tag_arg(cur: Instruction, piece: String) -> (r: Instruction)
    ensures
        r@ == with_tag_arg(cur@, piece@),
{
    match cur {
        Instruction::Tag(contents, Some(mut primarg)) => {
            primarg.append(piece.as_str());
            Instruction::Tag(contents, Some(primarg))
        },
        Instruction::Tag(contents, None) => Instruction::Tag(contents, Some(piece)),
        // Not a tag: reading an argument here is undefined (see `step_ok`).
        other => other,
    }
}

/// The closing tag `cur` with `c` added to its name, or a new closing tag named `c`.
fn extend_close_name(cur: Instruction, c: char) -> (r: Instruction)
    ensures
        r@ == with_close_name(cur@, c),
{
    match cur {
        Instruction::TagClose(mut contents) => {
            push_char(&mut contents, c);
            Instruction::TagClose(contents)
        },
        _ => Instruction::TagClose(string_of_char(c)),
    }
}

/// The kind of an instruction.
fn kind_of_instruction(i: &Instruction) -> (k: Kind)
    ensures
        k == kind_of(i@),
{
    match i {
        Instruction::Null => Kind::Null,
        Instruction::Text(_) => Kind::Text,
        Instruction::Tag(_, _) => Kind::Tag,
        Instruction::TagClose(_) => Kind::TagClose,
        Instruction::Linebreak => Kind::Linebreak,
    }
}

/// The mode and kind after reading `c` in text mode.
fn next_text_kind(k: Kind, c: char) -> (r: (ReadMode, Kind))
    ensures
        r == super::model::text_kind_step(k, c),
{
    if c == '\\' {
        (ReadMode::Escape, k)
    } else if c == '[' {
        (ReadMode::Tag, Kind::Null)
    } else if c == '\r' {
        (ReadMode::Text, k)
    } else if c == '\n' {
        (ReadMode::Linebreak, Kind::Null)
    } else {
        (ReadMode::Text, Kind::Text)
    }
}

/// The mode and kind after reading `c` in mode `m` with an instruction of kind `k`.
fn next_kind(m: ReadMode, k: Kind, c: char) -> (r: (ReadMode, Kind))
    ensures
        r == kind_step(m, k, c),
{
    match m {
        ReadMode::Text => next_text_kind(k, c),
        ReadMode::Escape => {
            let sanitized = c == '>' || c == '<' || c == '&' || c == '"' || c == '\'' || c
                == '\\';
            if sanitized && k == Kind::Tag {
                (ReadMode::Text, Kind::Tag)
            } else {
                (ReadMode::Text, Kind::Text)
            }
        },
        ReadMode::Tag => {
            if c == ']' {
                (ReadMode::Text, Kind::Null)
            } else if c == '/' {
                if k == Kind::Tag {
                    (ReadMode::Text, Kind::Text)
                } else {
                    (ReadMode::TagClose, Kind::TagClose)
                }
            } else if c == '=' {
                (ReadMode::TagPrimaryArg, k)
            } else {
                (ReadMode::Tag, Kind::Tag)
            }
        },
        ReadMode::TagClose => {
            if c == ']' {
                (ReadMode::Text, Kind::Null)
            } else if ('a' <= c && c <= 'z') || ('A' <= c && c <= 'Z') {
                (ReadMode::TagClose, Kind::TagClose)
            } else {
                (ReadMode::Text, Kind::Text)
            }
        },
        ReadMode::TagPrimaryArg => {
            if c == ']' {
                (ReadMode::Text, Kind::Null)
            } else {
                (ReadMode::TagPrimaryArg, k)
            }
        },
        ReadMode::Linebreak => {
            if c == '\t' || c == '\r' || c == ' ' {
                (ReadMode::Linebreak, k)
            } else {
                next_text_kind(Kind::Null, c)
            }
        },
    }
}

/// The instructions' values.
pub open spec fn tokens(v: Seq<Instruction>) -> Seq<Token> {
    v.map_values(|i: Instruction| i@)
}

/// Struct for BbCode tokenization.
pub struct Tokenizer {
    mode: ReadMode,
    current_instruction: Instruction,
    instructions: Vec<Instruction>,
}

impl View for Tokenizer {
    type V = TokenizerView;

    closed spec fn view(&self) -> TokenizerView {
        TokenizerView {
            mode: self.mode,
            current: self.current_instruction@,
            out: tokens(self.instructions@),
        }
    }
}

impl Default for Tokenizer {
    fn default() -> (t: Self)
        ensures
            t@ == initial(),
            t.wf(),
    {
        let t = Tokenizer {
            mode: ReadMode::Text,
            current_instruction: Instruction::Null,
            instructions: Vec::new(),
        };
        assert(tokens(t.instructions@) =~= Seq::<Token>::empty());
        t
    }
}

impl Tokenizer {
    /// The tokenizer is in a state that reading can reach.
    pub open spec fn wf(&self) -> bool {
        valid(self@)
    }

    /// Creates a new Tokenizer
    pub fn new() -> (t: Self)
        ensures
            t@ == initial(),
            t.wf(),
    {
        Self::default()
    }

    /// Whether `tokenize` can read `bbcode` from this state: false exactly where an
    /// argument would have no tag before it (`[=` followed by anything but `]`).
    /// Nothing is read or changed.
    pub fn can_read(&self, bbcode: &str) -> (b: bool)
        ensures
            b == runs_ok(self@, bbcode@),
    {
        let ghost s0 = self@;
        let mut mode = self.mode;
        let mut kind = kind_of_instruction(&self.current_instruction);
        for character in it: bbcode.chars()
            invariant
                s0 == self@,
                it.seq() == bbcode@,
                mode == run(s0, bbcode@.take(it.index() as int)).mode,
                kind == kind_of(run(s0, bbcode@.take(it.index() as int)).current),
                forall|k: int|
                    0 <= k < it.index() ==> #[trigger] step_ok(
                        run(s0, bbcode@.take(k)),
                        bbcode@[k],
                    ),
        {
            let ghost i = it.index() as int;
            proof {
                lemma_kind_step(run(s0, bbcode@.take(i)), character);
                assert(bbcode@.take(i + 1).drop_last() =~= bbcode@.take(i));
            }
            if mode == ReadMode::TagPrimaryArg && character != ']' && kind != Kind::Tag {
                assert(0 <= i < bbcode@.len());
                assert(!step_ok(run(s0, bbcode@.take(i)), bbcode@[i]));
                assert(!runs_ok(s0, bbcode@));
                return false;
            }
            let (m, k) = next_kind(mode, kind, character);
            mode = m;
            kind = k;
        }
        true
    }

    /// Reads and tokenizes BbCode into individual Instructions.
    ///
    /// The instructions of earlier calls stay in front; what this call reads is
    /// appended, and nothing is left half-built. The tokenizer stops, and such input is
    /// excluded here, where an argument has no tag before it: `[` followed by `=` and
    /// then anything but `]` (see `step_ok`).
    pub fn tokenize(&mut self, bbcode: &str) -> (res: &Vec<Instruction>)
        requires
            old(self).wf(),
            runs_ok(old(self)@, bbcode@),
        ensures
            final(self).wf(),
            final(self)@ == tokenized(old(self)@, bbcode@),
            tokens(res@) == final(self)@.out,
            old(self)@.out.is_prefix_of(final(self)@.out),
            final(self)@.current == Token::Null,
            forall|i: int| 0 <= i < res@.len() ==> !(#[trigger] res@[i]@ is Null),
    {
        let ghost s0 = self@;
        for character in it: bbcode.chars()
            invariant
                valid(s0),
                runs_ok(s0, bbcode@),
                it.seq() == bbcode@,
                self@ == run(s0, bbcode@.take(it.index() as int)),
                valid(self@),
                s0.out.is_prefix_of(self@.out),
        {
            let ghost i = it.index() as int;
            proof {
                assert(step_ok(run(s0, bbcode@.take(i)), bbcode@[i]));
                lemma_step_valid(self@, character);
                assert(bbcode@.take(i + 1).drop_last() =~= bbcode@.take(i));
            }
            self.parse(character);
        }
        proof {
            assert(bbcode@.take(bbcode@.len() as int) =~= bbcode@);
            lemma_commit_valid(self@);
        }
        self.commit_instruction();
        assert forall|i: int| 0 <= i < self.instructions@.len() implies !(
        #[trigger] self.instructions@[i]@ is Null) by {
            assert(tokens(self.instructions@)[i] == self.instructions@[i]@);
        }
        &self.instructions
    }

    /// Takes `current_instruction` out, leaving `Null` in its place.
    fn take_current(&mut self) -> (cur: Instruction)
        ensures
            cur@ == old(self)@.current,
            final(self)@ == set_current(old(self)@, Token::Null),
    {
        let mut cur = Instruction::Null;
        std::mem::swap(&mut cur, &mut self.current_instruction);
        cur
    }

    /// Adds `current_instruction` to `instructions` and resets `current_instruction`.
    /// Committing again changes nothing, and nothing is pushed when nothing is built.
    fn commit_instruction(&mut self)
        ensures
            final(self)@ == commit(old(self)@),
            final(self)@.current == Token::Null,
            old(self)@.current is Null ==> final(self)@ == old(self)@,
    {
        match self.current_instruction {
            Instruction::Null => {},
            _ => {
                let cur = self.take_current();
                self.instructions.push(cur);
                assert(tokens(self.instructions@) =~= old(self)@.out.push(old(self)@.current));
            },
        }
    }

    /// Inserts an instruction directly into `instructions` and resets `current_instruction`.
    fn insert_instruction(&mut self, instruction: Instruction)
        ensures
            final(self)@ == (TokenizerView {
                mode: old(self)@.mode,
                current: Token::Null,
                out: old(self)@.out.push(instruction@),
            }),
    {
        let ghost i = instruction@;
        self.instructions.push(instruction);
        self.current_instruction = Instruction::Null;
        assert(tokens(self.instructions@) =~= old(self)@.out.push(i));
    }

    fn parse(&mut self, character: char)
        requires
            valid(old(self)@),
            step_ok(old(self)@, character),
        ensures
            final(self)@ == step(old(self)@, character),
    {
        match self.mode {
            ReadMode::Text => {
                self.parse_text(character);
            },
            ReadMode::Escape => {
                self.parse_escape(character);
            },
            ReadMode::Tag => {
                self.parse_tag(character);
            },
            ReadMode::TagClose => {
                self.parse_tag_close(character);
            },
            ReadMode::TagPrimaryArg => {
                self.parse_tag_primary_arg(character);
            },
            ReadMode::Linebreak => {
                self.parse_linebreak(character);
            },
        }
    }

    /// Interprets char as plain text input, expecting new instructions.
    fn parse_text(&mut self, character: char)
        ensures
            final(self)@ == step_text(old(self)@, character),
    {
        match character {
            '\\' => self.mode = ReadMode::Escape,
            '[' => {
                self.commit_instruction();
                self.mode = ReadMode::Tag;
            },
            '\r' => {},
            '\n' => {
                self.commit_instruction();
                self.mode = ReadMode::Linebreak;
            },
            '>' | '<' | '&' | '"' | '\'' => {
                let san_char = self.sanitize(character);
                let cur = self.take_current();
                self.current_instruction = extend_text(cur, san_char);
            },
            _ => {
                let piece = string_of_char(character);
                let cur = self.take_current();
                self.current_instruction = extend_text(cur, piece);
            },
        }
    }

    /// Parses new lines and discards whitespace until next instruction.
    fn parse_linebreak(&mut self, character: char)
        ensures
            final(self)@ == step_linebreak(old(self)@, character),
    {
        match character {
            // Consume tabs.
            '\t' => {},
            // Consume carriage returns.
            // New lines may be \n or \n\r but they are never \r.
            '\r' => {},
            // Consume whitespace.
            ' ' => {},
            // Unexpected character; finish breaking and return to text parser
            _ => {
                self.insert_instruction(Instruction::Linebreak);
                self.mode = ReadMode::Text;
                self.parse_text(character);
            },
        }
    }

    /// Reads the char after `\`. An escaped special character replaces the text being
    /// built by its entity (`a\<b` reads as `&lt;b`); other chars are added as text.
    fn parse_escape(&mut self, character: char)
        ensures
            final(self)@ == step_escape(old(self)@, character),
    {
        self.mode = ReadMode::Text;
        match character {
            '>' | '<' | '&' | '"' | '\'' | '\\' => {
                let san_char = self.sanitize(character);
                let cur = self.take_current();
                self.current_instruction =
                    match cur {
                        Instruction::Tag(mut contents, arg) => {
                            contents.append(san_char.as_str());
                            Instruction::Tag(contents, arg)
                        },
                        _ => Instruction::Text(san_char),
                    };
            },
            _ => {
                let piece = string_of_char(character);
                let cur = self.take_current();
                self.current_instruction = extend_text(cur, piece);
            },
        }
    }

    fn parse_tag(&mut self, character: char)
        ensures
            final(self)@ == step_tag(old(self)@, character),
    {
        match character {
            ']' => {
                self.commit_instruction();
                self.mode = ReadMode::Text;
            },
            '/' => match self.current_instruction {
                // If we've already started our tag, reset to to text.
                Instruction::Tag(_, _) => self.reset_parse_to_text(character),
                // If we've just opened, we can proceed to a closing tag.
                _ => {
                    self.mode = ReadMode::TagClose;
                    self.current_instruction = Instruction::TagClose(String::new());
                },
            },
            '=' => {
                self.mode = ReadMode::TagPrimaryArg;
            },
            '>' | '<' | '&' | '"' | '\'' | '\\' => {
                let san_char = self.sanitize(character);
                let cur = self.take_current();
                self.current_instruction = extend_tag_name(cur, san_char);
            },
            _ => {
                let piece = string_of_char(character);
                let cur = self.take_current();
                self.current_instruction = extend_tag_name(cur, piece);
            },
        }
    }

    fn parse_tag_close(&mut self, character: char)
        requires
            valid(old(self)@),
            old(self)@.mode == ReadMode::TagClose,
        ensures
            final(self)@ == step_tag_close(old(self)@, character),
    {
        match character {
            // close tag
            ']' => {
                self.commit_instruction();
                self.mode = ReadMode::Text;
            },
            _ => {
                // if a-Z, commit as tag name
                if ('a' <= character && character <= 'z') || ('A' <= character && character
                    <= 'Z') {
                    let cur = self.take_current();
                    self.current_instruction = extend_close_name(cur, character);
                }
                // otherwise, we have a broken closing tag
                 else {
                    self.reset_parse_to_text(character);
                }
            },
        }
    }

    fn parse_tag_primary_arg(&mut self, character: char)
        requires
            step_ok(old(self)@, character),
        ensures
            final(self)@ == step_tag_arg(old(self)@, character),
    {
        match character {
            ']' => {
                self.commit_instruction();
                self.mode = ReadMode::Text;
            },
            '>' | '<' | '&' | '"' | '\'' | '\\' => {
                let san_char = self.sanitize(character);
                let cur = self.take_current();
                self.current_instruction = extend_tag_arg(cur, san_char);
            },
            _ => {
                let piece = string_of_char(character);
                let cur = self.take_current();
                self.current_instruction = extend_tag_arg(cur, piece);
            },
        }
    }

    /// Aborts the current ReadMode to Text and converts current instruction to Text.
    /// Supplied char is what choked the parser; it is kept as it is, unsanitized.
    fn reset_parse_to_text(&mut self, character: char)
        ensures
            final(self)@ == reset_to_text(old(self)@, character),
    {
        proof {
            reveal_strlit("[");
            reveal_strlit("=");
            reveal_strlit("[/");
            assert("["@ =~= seq!['[']);
            assert("="@ =~= seq!['=']);
            assert("[/"@ =~= seq!['[', '/']);
        }
        // Recover existing input.
        let cur = self.take_current();
        let mut text: String = match cur {
            Instruction::Text(content) => content,
            Instruction::Tag(tag, arg) => {
                let mut s = String::new();
                s.append("[");
                s.append(tag.as_str());
                match arg {
                    Some(arg) => {
                        s.append("=");
                        s.append(arg.as_str());
                    },
                    None => {},
                }
                s
            },
            Instruction::TagClose(tag) => {
                let mut s = String::new();
                s.append("[/");
                s.append(tag.as_str());
                s
            },
            // No tag or text being built: nothing to recover.
            _ => String::new(),
        };
        push_char(&mut text, character);

        self.mode = ReadMode::Text;
        self.current_instruction = Instruction::Text(text);
    }

    /// Sanitizes a char for HTML. A backslash becomes `&#x2F;`.
    fn sanitize(&mut self, character: char) -> (s: String)
        requires
            is_sanitized(character),
        ensures
            s@ == entity(character),
            *final(self) == *old(self),
    {
        let entity_str: &str = match character {
            '<' => "&lt;",
            '>' => "&gt;",
            '&' => "&amp;",
            '"' => "&quot;",
            '\'' => "&#x27;",
            _ => "&#x2F;",
        };
        proof {
            reveal_strlit("&lt;");
            reveal_strlit("&gt;");
            reveal_strlit("&amp;");
            reveal_strlit("&quot;");
            reveal_strlit("&#x27;");
            reveal_strlit("&#x2F;");
        }
        entity_str.to_string()
    }
}

} // verus!
