//! The tokenizer as a state machine over mathematical values.
use vstd::prelude::*;

use super::{ReadMode, Token};

verus! {

/// The mathematical state of a tokenizer: its mode, the instruction it is
/// building, and the instructions it has emitted so far.
pub struct TokenizerView {
    pub mode: ReadMode,
    pub current: Token,
    pub out: Seq<Token>,
}

/// The state of a fresh tokenizer.
pub open spec fn initial() -> TokenizerView {
    TokenizerView { mode: ReadMode::Text, current: Token::Null, out: Seq::empty() }
}

/// Characters that HTML gives a meaning to.
pub open spec fn is_html_special(c: char) -> bool {
    c == '>' || c == '<' || c == '&' || c == '"' || c == '\''
}

/// Characters that the tokenizer replaces by an HTML entity where it sanitizes.
pub open spec fn is_sanitized(c: char) -> bool {
    is_html_special(c) || c == '\\'
}

/// The entity that replaces a sanitized character.
pub open spec fn entity(c: char) -> Seq<char> {
    if c == '<' {
        seq!['&', 'l', 't', ';']
    } else if c == '>' {
        seq!['&', 'g', 't', ';']
    } else if c == '&' {
        seq!['&', 'a', 'm', 'p', ';']
    } else if c == '"' {
        seq!['&', 'q', 'u', 'o', 't', ';']
    } else if c == '\'' {
        seq!['&', '#', 'x', '2', '7', ';']
    } else if c == '\\' {
        seq!['&', '#', 'x', '2', 'F', ';']
    } else {
        seq![c]
    }
}

/// What a character contributes where the tokenizer sanitizes: its entity, or itself.
pub open spec fn escaped(c: char) -> Seq<char> {
    if is_sanitized(c) {
        entity(c)
    } else {
        seq![c]
    }
}

/// ASCII letters `a-z` and `A-Z`.
pub open spec fn is_ascii_alpha(c: char) -> bool {
    ('a' <= c && c <= 'z') || ('A' <= c && c <= 'Z')
}

/// Whitespace that is discarded after a line break.
pub open spec fn is_break_space(c: char) -> bool {
    c == '\t' || c == '\r' || c == ' '
}

/// Extends the text being built, or starts a new text.
pub open spec fn with_text(cur: Token, piece: Seq<char>) -> Token {
    match cur {
        Token::Text(t) => Token::Text(t + piece),
        _ => Token::Text(piece),
    }
}

/// Extends the name of the tag being built, or starts a new tag.
pub open spec fn with_tag_name(cur: Token, piece: Seq<char>) -> Token {
    match cur {
        Token::Tag(t, a) => Token::Tag(t + piece, a),
        _ => Token::Tag(piece, None),
    }
}

/// Extends the primary argument of the tag being built, or starts it.
pub open spec fn with_tag_arg(cur: Token, piece: Seq<char>) -> Token {
    match cur {
        Token::Tag(t, Some(a)) => Token::Tag(t, Some(a + piece)),
        Token::Tag(t, None) => Token::Tag(t, Some(piece)),
        _ => cur,
    }
}

/// Extends the name of the closing tag being built, or starts a new one.
pub open spec fn with_close_name(cur: Token, c: char) -> Token {
    match cur {
        Token::TagClose(t) => Token::TagClose(t.push(c)),
        _ => Token::TagClose(seq![c]),
    }
}

/// Moves the instruction being built, if any, to the output.
pub open spec fn commit(s: TokenizerView) -> TokenizerView {
    match s.current {
        Token::Null => s,
        _ => TokenizerView { mode: s.mode, current: Token::Null, out: s.out.push(s.current) },
    }
}

pub open spec fn set_mode(s: TokenizerView, m: ReadMode) -> TokenizerView {
    TokenizerView { mode: m, ..s }
}

pub open spec fn set_current(s: TokenizerView, t: Token) -> TokenizerView {
    TokenizerView { current: t, ..s }
}

/// The text that a broken tag is read back as; with no tag or text being built
/// (a closing tag whose start an earlier call committed), nothing is recovered.
pub open spec fn recovered_text(cur: Token) -> Seq<char> {
    match cur {
        Token::Text(t) => t,
        Token::Tag(t, Some(a)) => seq!['['] + t + seq!['='] + a,
        Token::Tag(t, None) => seq!['['] + t,
        Token::TagClose(t) => seq!['[', '/'] + t,
        _ => Seq::empty(),
    }
}

/// A broken tag, with the character that broke it, becomes text.
pub open spec fn reset_to_text(s: TokenizerView, c: char) -> TokenizerView {
    TokenizerView {
        mode: ReadMode::Text,
        current: Token::Text(recovered_text(s.current).push(c)),
        out: s.out,
    }
}

pub open spec fn step_text(s: TokenizerView, c: char) -> TokenizerView {
    if c == '\\' {
        set_mode(s, ReadMode::Escape)
    } else if c == '[' {
        set_mode(commit(s), ReadMode::Tag)
    } else if c == '\r' {
        s
    } else if c == '\n' {
        set_mode(commit(s), ReadMode::Linebreak)
    } else {
        set_current(s, with_text(s.current, escaped(c)))
    }
}

pub open spec fn step_linebreak(s: TokenizerView, c: char) -> TokenizerView {
    if is_break_space(c) {
        s
    } else {
        step_text(
            TokenizerView { mode: ReadMode::Text, current: Token::Null, out: s.out.push(Token::Linebreak) },
            c,
        )
    }
}

pub open spec fn step_escape(s: TokenizerView, c: char) -> TokenizerView {
    let t = set_mode(s, ReadMode::Text);
    if is_sanitized(c) {
        set_current(
            t,
            match s.current {
                Token::Tag(n, a) => Token::Tag(n + entity(c), a),
                _ => Token::Text(entity(c)),
            },
        )
    } else {
        set_current(t, with_text(s.current, seq![c]))
    }
}

pub open spec fn step_tag(s: TokenizerView, c: char) -> TokenizerView {
    if c == ']' {
        set_mode(commit(s), ReadMode::Text)
    } else if c == '/' {
        if s.current is Tag {
            reset_to_text(s, c)
        } else {
            TokenizerView { mode: ReadMode::TagClose, current: Token::TagClose(Seq::empty()), out: s.out }
        }
    } else if c == '=' {
        set_mode(s, ReadMode::TagPrimaryArg)
    } else {
        set_current(s, with_tag_name(s.current, escaped(c)))
    }
}

pub open spec fn step_tag_close(s: TokenizerView, c: char) -> TokenizerView {
    if c == ']' {
        set_mode(commit(s), ReadMode::Text)
    } else if is_ascii_alpha(c) {
        set_current(s, with_close_name(s.current, c))
    } else {
        reset_to_text(s, c)
    }
}

pub open spec fn step_tag_arg(s: TokenizerView, c: char) -> TokenizerView {
    if c == ']' {
        set_mode(commit(s), ReadMode::Text)
    } else {
        set_current(s, with_tag_arg(s.current, escaped(c)))
    }
}

/// Reading one character.
pub open spec fn step(s: TokenizerView, c: char) -> TokenizerView {
    match s.mode {
        ReadMode::Text => step_text(s, c),
        ReadMode::Escape => step_escape(s, c),
        ReadMode::Tag => step_tag(s, c),
        ReadMode::TagClose => step_tag_close(s, c),
        ReadMode::TagPrimaryArg => step_tag_arg(s, c),
        ReadMode::Linebreak => step_linebreak(s, c),
    }
}

/// Reading a character is defined: only an argument with no tag before it
/// (`[=` followed by anything but `]`) stops the tokenizer.
pub open spec fn step_ok(s: TokenizerView, c: char) -> bool {
    !(s.mode == ReadMode::TagPrimaryArg && c != ']' && !(s.current is Tag))
}

/// Reading a sequence of characters, one after another.
pub open spec fn run(s: TokenizerView, input: Seq<char>) -> TokenizerView
    decreases input.len(),
{
    if input.len() == 0 {
        s
    } else {
        step(run(s, input.drop_last()), input.last())
    }
}

/// Every character of `input` can be read from `s` on.
pub open spec fn runs_ok(s: TokenizerView, input: Seq<char>) -> bool {
    forall|k: int| 0 <= k < input.len() ==> #[trigger] step_ok(run(s, input.take(k)), input[k])
}

/// Tokenizing reads the input, then commits what was being built.
pub open spec fn tokenized(s: TokenizerView, input: Seq<char>) -> TokenizerView {
    commit(run(s, input))
}

/// The states that the tokenizer can be in.
pub open spec fn valid(s: TokenizerView) -> bool {
    &&& forall|i: int| 0 <= i < s.out.len() ==> !(#[trigger] s.out[i] is Null)
    &&& match s.mode {
        ReadMode::Text | ReadMode::Escape => s.current is Null || s.current is Text,
        ReadMode::Linebreak => s.current is Null,
        ReadMode::Tag | ReadMode::TagPrimaryArg => s.current is Null || s.current is Tag,
        ReadMode::TagClose => s.current is Null || s.current is TagClose,
    }
}

pub proof fn lemma_step_valid(s: TokenizerView, c: char)
    requires
        valid(s),
        step_ok(s, c),
    ensures
        valid(step(s, c)),
        s.out.is_prefix_of(step(s, c).out),
{
    let r = step(s, c);
    assert(s.out.is_prefix_of(s.out.push(s.current)));
    assert(s.out.is_prefix_of(s.out.push(Token::Linebreak)));
    assert(s.out.push(Token::Linebreak).is_prefix_of(s.out.push(Token::Linebreak).push(s.current)));
    assert forall|i: int| 0 <= i < r.out.len() implies !(#[trigger] r.out[i] is Null) by {
        if i < s.out.len() {
            assert(r.out[i] == s.out[i]);
        }
    }
}

pub proof fn lemma_commit_valid(s: TokenizerView)
    requires
        valid(s),
    ensures
        valid(commit(s)),
        commit(s).current is Null,
        s.out.is_prefix_of(commit(s).out),
{
    assert(s.out.is_prefix_of(s.out.push(s.current)));
    let r = commit(s);
    assert forall|i: int| 0 <= i < r.out.len() implies !(#[trigger] r.out[i] is Null) by {
        if i < s.out.len() {
            assert(r.out[i] == s.out[i]);
        }
    }
}

/// Which kind of instruction is being built.
#[derive(Clone, Copy, Debug, PartialEq, Eq, Structural)]
pub enum Kind {
    Null,
    Text,
    Tag,
    TagClose,
    Linebreak,
}

pub open spec fn kind_of(t: Token) -> Kind {
    match t {
        Token::Null => Kind::Null,
        Token::Text(_) => Kind::Text,
        Token::Tag(_, _) => Kind::Tag,
        Token::TagClose(_) => Kind::TagClose,
        Token::Linebreak => Kind::Linebreak,
    }
}

/// The mode, and the kind of instruction being built, after reading `c` in mode `m`
/// with an instruction of kind `k` being built. Nothing else decides them.
pub open spec fn kind_step(m: ReadMode, k: Kind, c: char) -> (ReadMode, Kind) {
    match m {
        ReadMode::Text => text_kind_step(k, c),
        ReadMode::Escape => (
            ReadMode::Text,
            if is_sanitized(c) && k == Kind::Tag {
                Kind::Tag
            } else {
                Kind::Text
            },
        ),
        ReadMode::Tag => if c == ']' {
            (ReadMode::Text, Kind::Null)
        } else if c == '/' {
            if k == Kind::Tag {
                (ReadMode::Text, Kind::Text)
            } else {
                (ReadMode::TagClose, Kind::TagClose)
            }
        } else if c == '=' {
            (ReadMode::TagPrimaryArg, k)
        } else {
            (ReadMode::Tag, Kind::Tag)
        },
        ReadMode::TagClose => if c == ']' {
            (ReadMode::Text, Kind::Null)
        } else if is_ascii_alpha(c) {
            (ReadMode::TagClose, Kind::TagClose)
        } else {
            (ReadMode::Text, Kind::Text)
        },
        ReadMode::TagPrimaryArg => if c == ']' {
            (ReadMode::Text, Kind::Null)
        } else {
            (ReadMode::TagPrimaryArg, k)
        },
        ReadMode::Linebreak => if is_break_space(c) {
            (ReadMode::Linebreak, k)
        } else {
            text_kind_step(Kind::Null, c)
        },
    }
}

pub open spec fn text_kind_step(k: Kind, c: char) -> (ReadMode, Kind) {
    if c == '\\' {
        (ReadMode::Escape, k)
    } else if c == '[' {
        (ReadMode::Tag, Kind::Null)
    } else if c == '\r' {
        (ReadMode::Text, k)
    } else if c == '\n' {
        (ReadMode::Linebreak, Kind::Null)
    } else {
        (ReadMode::Text, Kind::Text)
    }
}

pub proof fn lemma_kind_step(s: TokenizerView, c: char)
    ensures
        kind_step(s.mode, kind_of(s.current), c) == (step(s, c).mode, kind_of(step(s, c).current)),
        step_ok(s, c) == !(s.mode == ReadMode::TagPrimaryArg && c != ']' && kind_of(s.current)
            != Kind::Tag),
{
}

} // verus!
