//! What holds of tokenizing, for all inputs.
use vstd::prelude::*;

use super::model::{
    commit, entity, escaped, initial, is_sanitized, run, runs_ok,
    set_current, step, step_ok, tokenized, with_tag_name, with_text, TokenizerView,
};
use super::{ReadMode, Token};

verus! {

/// A character that text mode reads as text: no escape, tag, or line break.
pub open spec fn is_text_char(c: char) -> bool {
    c != '\\' && c != '[' && c != '\n' && c != '\r'
}

/// ASCII letters: `a` to `z` and `A` to `Z`.
pub open spec fn is_letter(c: char) -> bool {
    ('a' <= c && c <= 'z') || ('A' <= c && c <= 'Z')
}

/// The whitespace that is discarded after a line break: tab, carriage return, space.
pub open spec fn is_line_space(c: char) -> bool {
    c == '\t' || c == '\r' || c == ' '
}

/// The characters that an escape turns into an entity.
pub open spec fn is_escapable(c: char) -> bool {
    c == '>' || c == '<' || c == '&' || c == '"' || c == '\'' || c == '\\'
}

/// A character that may stand in a tag's name.
pub open spec fn is_tag_name_char(c: char) -> bool {
    c != ']' && c != '/' && c != '='
}

/// The sanitized form of a string: each character by its entity where it has one.
pub open spec fn sanitized_text(s: Seq<char>) -> Seq<char>
    decreases s.len(),
{
    if s.len() == 0 {
        Seq::empty()
    } else {
        sanitized_text(s.drop_last()) + escaped(s.last())
    }
}

/// The characters that must never reach HTML raw.
pub open spec fn is_html_delimiter(c: char) -> bool {
    c == '<' || c == '>' || c == '"' || c == '\''
}

pub open spec fn html_safe(t: Seq<char>) -> bool {
    forall|i: int| 0 <= i < t.len() ==> !is_html_delimiter(#[trigger] t[i])
}

pub open spec fn token_safe(t: Token) -> bool {
    match t {
        Token::Text(x) => html_safe(x),
        Token::Tag(n, a) => html_safe(n) && (a matches Some(x) ==> html_safe(x)),
        Token::TagClose(n) => html_safe(n),
        _ => true,
    }
}

/// Nothing in the state holds a raw HTML delimiter.
pub open spec fn state_safe(s: TokenizerView) -> bool {
    &&& token_safe(s.current)
    &&& forall|i: int| 0 <= i < s.out.len() ==> token_safe(#[trigger] s.out[i])
}

/// Reading `input` from `s` on, a closing tag is at some point broken by an HTML delimiter
/// (as in `[/<`), which is then read back as text.
pub open spec fn breaks_close_with_delimiter(s: TokenizerView, input: Seq<char>) -> bool {
    exists|k: int|
        0 <= k < input.len() && run(s, input.take(k)).mode == ReadMode::TagClose
            && #[trigger] is_html_delimiter(input[k])
}

proof fn lemma_run_concat(s: TokenizerView, a: Seq<char>, b: Seq<char>)
    ensures
        run(s, a + b) == run(run(s, a), b),
    decreases b.len(),
{
    if b.len() == 0 {
        assert(a + b =~= a);
    } else {
        lemma_run_concat(s, a, b.drop_last());
        assert((a + b).drop_last() =~= a + b.drop_last());
        assert((a + b).last() == b.last());
    }
}

proof fn lemma_run_single(s: TokenizerView, c: char)
    ensures
        run(s, seq![c]) == step(s, c),
{
    assert(seq![c].drop_last() =~= Seq::<char>::empty());
    assert(seq![c].last() == c);
    assert(run(s, Seq::<char>::empty()) == s);
}

proof fn lemma_escaped_safe(c: char)
    ensures
        html_safe(escaped(c)),
{
}

proof fn lemma_concat_safe(a: Seq<char>, b: Seq<char>)
    requires
        html_safe(a),
        html_safe(b),
    ensures
        html_safe(a + b),
{
    assert forall|i: int| 0 <= i < (a + b).len() implies !is_html_delimiter(#[trigger] (a + b)[i]) by {
        if i < a.len() {
            assert((a + b)[i] == a[i]);
        } else {
            assert((a + b)[i] == b[i - a.len()]);
        }
    }
}

proof fn lemma_step_safe(s: TokenizerView, c: char)
    requires
        state_safe(s),
        !(s.mode == ReadMode::TagClose && is_html_delimiter(c)),
    ensures
        state_safe(step(s, c)),
{
    let r = step(s, c);
    lemma_escaped_safe(c);
    let p = escaped(c);
    let single = seq![c];
    let plain = !is_html_delimiter(c);
    if plain {
        assert(html_safe(single));
    }
    if is_sanitized(c) {
        assert(p == entity(c));
    }
    match s.current {
        Token::Text(x) => {
            lemma_concat_safe(x, p);
            if plain {
                lemma_concat_safe(x, single);
                assert(x.push(c) =~= x + single);
            }
        },
        Token::Tag(n, a) => {
            lemma_concat_safe(n, p);
            lemma_concat_safe(seq!['['], n);
            match a {
                Some(x) => {
                    lemma_concat_safe(x, p);
                    lemma_concat_safe(seq!['['] + n, seq!['=']);
                    lemma_concat_safe(seq!['['] + n + seq!['='], x);
                    if plain {
                        lemma_concat_safe(seq!['['] + n + seq!['='] + x, single);
                        assert((seq!['['] + n + seq!['='] + x).push(c) =~= seq!['['] + n + seq![
                            '=',
                        ] + x + single);
                    }
                },
                None => {
                    if plain {
                        lemma_concat_safe(seq!['['] + n, single);
                        assert((seq!['['] + n).push(c) =~= seq!['['] + n + single);
                    }
                },
            }
        },
        Token::TagClose(n) => {
            lemma_concat_safe(seq!['[', '/'], n);
            if plain {
                lemma_concat_safe(seq!['[', '/'] + n, single);
                assert((seq!['[', '/'] + n).push(c) =~= seq!['[', '/'] + n + single);
                assert(n.push(c) =~= n + single);
                lemma_concat_safe(n, single);
            }
        },
        _ => {
            assert(Seq::<char>::empty().push(c) =~= single);
        },
    }
    assert forall|i: int| 0 <= i < r.out.len() implies token_safe(#[trigger] r.out[i]) by {
        if i < s.out.len() {
            assert(r.out[i] == s.out[i]);
        }
    }
}

proof fn lemma_run_safe(s: TokenizerView, input: Seq<char>)
    requires
        state_safe(s),
        !breaks_close_with_delimiter(s, input),
    ensures
        state_safe(run(s, input)),
    decreases input.len(),
{
    if input.len() > 0 {
        let pre = input.drop_last();
        assert forall|k: int| 0 <= k < pre.len() && run(s, pre.take(k)).mode == ReadMode::TagClose
            implies !#[trigger] is_html_delimiter(pre[k]) by {
            assert(pre.take(k) =~= input.take(k));
            assert(pre[k] == input[k]);
        }
        lemma_run_safe(s, pre);
        assert(pre =~= input.take(pre.len() as int));
        let k = pre.len() as int;
        assert(run(s, input.take(k)).mode == ReadMode::TagClose ==> !is_html_delimiter(input[k]));
        lemma_step_safe(run(s, pre), input.last());
    }
}

/// Sanitization: tokenizing never lets a raw `<`, `>`, `"` or `'` into an instruction,
/// unless a closing tag is broken off by one of them (as in `[/<`), which is read back
/// as text together with that character.
pub proof fn law_sanitized_output(s: TokenizerView, input: Seq<char>)
    requires
        state_safe(s),
        !breaks_close_with_delimiter(s, input),
    ensures
        state_safe(tokenized(s, input)),
{
    lemma_run_safe(s, input);
    let r = run(s, input);
    let c = commit(r);
    assert forall|i: int| 0 <= i < c.out.len() implies token_safe(#[trigger] c.out[i]) by {
        if i < r.out.len() {
            assert(c.out[i] == r.out[i]);
        }
    }
}

/// A fresh tokenizer holds no raw HTML delimiter.
pub proof fn law_initial_safe()
    ensures
        state_safe(initial()),
{
}

proof fn lemma_run_text(s: TokenizerView, input: Seq<char>)
    requires
        s.mode == ReadMode::Text,
        forall|i: int| 0 <= i < input.len() ==> is_text_char(#[trigger] input[i]),
    ensures
        run(s, input) == (if input.len() == 0 {
            s
        } else {
            set_current(s, with_text(s.current, sanitized_text(input)))
        }),
    decreases input.len(),
{
    if input.len() > 0 {
        let pre = input.drop_last();
        assert forall|i: int| 0 <= i < pre.len() implies is_text_char(#[trigger] pre[i]) by {
            assert(pre[i] == input[i]);
        }
        lemma_run_text(s, pre);
        assert(is_text_char(input[input.len() - 1]));
        if pre.len() == 0 {
            assert(sanitized_text(pre) =~= Seq::<char>::empty());
            assert(sanitized_text(input) =~= escaped(input.last()));
        } else {
            match s.current {
                Token::Text(t) => {
                    assert(t + sanitized_text(pre) + escaped(input.last()) =~= t + (sanitized_text(
                        pre,
                    ) + escaped(input.last())));
                },
                _ => {},
            }
        }
    }
}

/// Markup-free text passes through: a fresh tokenizer turns text with no `\`, `[`,
/// line break or carriage return into one text instruction holding it sanitized
/// (into nothing if it is empty).
pub proof fn law_plain_text(input: Seq<char>)
    requires
        forall|i: int| 0 <= i < input.len() ==> is_text_char(#[trigger] input[i]),
    ensures
        tokenized(initial(), input).out == (if input.len() == 0 {
            Seq::<Token>::empty()
        } else {
            seq![Token::Text(sanitized_text(input))]
        }),
{
    lemma_run_text(initial(), input);
}

proof fn lemma_run_spaces(s: TokenizerView, input: Seq<char>)
    requires
        s.mode == ReadMode::Linebreak,
        forall|i: int| 0 <= i < input.len() ==> is_line_space(#[trigger] input[i]),
    ensures
        run(s, input) == s,
    decreases input.len(),
{
    if input.len() > 0 {
        let pre = input.drop_last();
        assert forall|i: int| 0 <= i < pre.len() implies is_line_space(#[trigger] pre[i]) by {
            assert(pre[i] == input[i]);
        }
        lemma_run_spaces(s, pre);
        assert(is_line_space(input[input.len() - 1]));
    }
}

/// After a line break, tabs, spaces and carriage returns are discarded: reading them
/// changes nothing.
pub proof fn law_whitespace_after_linebreak(s: TokenizerView, input: Seq<char>)
    requires
        s.mode == ReadMode::Linebreak,
        forall|i: int| 0 <= i < input.len() ==> is_line_space(#[trigger] input[i]),
    ensures
        run(s, input) == s,
{
    lemma_run_spaces(s, input);
}

/// Carriage returns in text are discarded.
pub proof fn law_carriage_return_in_text(s: TokenizerView)
    requires
        s.mode == ReadMode::Text,
    ensures
        step(s, '\r') == s,
{
}

/// A line break is emitted once, when the next line starts: from text, `\n`, any
/// discarded whitespace and then a text character `c` commit what was being built,
/// emit one line break, and start a text with `c`.
pub proof fn law_linebreak(s: TokenizerView, spaces: Seq<char>, c: char)
    requires
        s.mode == ReadMode::Text,
        forall|i: int| 0 <= i < spaces.len() ==> is_line_space(#[trigger] spaces[i]),
        is_text_char(c),
        !is_line_space(c),
    ensures
        run(s, seq!['\n'] + spaces + seq![c]) == (TokenizerView {
            mode: ReadMode::Text,
            current: Token::Text(escaped(c)),
            out: commit(s).out.push(Token::Linebreak),
        }),
{
    lemma_run_concat(s, seq!['\n'] + spaces, seq![c]);
    lemma_run_concat(s, seq!['\n'], spaces);
    lemma_run_single(s, '\n');
    lemma_run_spaces(step(s, '\n'), spaces);
    lemma_run_single(step(s, '\n'), c);
}

proof fn lemma_run_tag_name(s: TokenizerView, name: Seq<char>)
    requires
        s.mode == ReadMode::Tag,
        forall|i: int| 0 <= i < name.len() ==> is_tag_name_char(#[trigger] name[i]),
    ensures
        run(s, name) == (if name.len() == 0 {
            s
        } else {
            set_current(s, with_tag_name(s.current, sanitized_text(name)))
        }),
    decreases name.len(),
{
    if name.len() > 0 {
        let pre = name.drop_last();
        assert forall|i: int| 0 <= i < pre.len() implies is_tag_name_char(#[trigger] pre[i]) by {
            assert(pre[i] == name[i]);
        }
        lemma_run_tag_name(s, pre);
        assert(is_tag_name_char(name[name.len() - 1]));
        if pre.len() == 0 {
            assert(sanitized_text(pre) =~= Seq::<char>::empty());
            assert(sanitized_text(name) =~= escaped(name.last()));
        } else {
            match s.current {
                Token::Tag(t, a) => {
                    assert(t + sanitized_text(pre) + escaped(name.last()) =~= t + (sanitized_text(
                        pre,
                    ) + escaped(name.last())));
                },
                _ => {},
            }
        }
    }
}

proof fn lemma_run_tag_arg(s: TokenizerView, t: Seq<char>, arg: Seq<char>)
    requires
        s.mode == ReadMode::TagPrimaryArg,
        s.current == Token::Tag(t, None),
        arg.len() > 0,
        forall|i: int| 0 <= i < arg.len() ==> #[trigger] arg[i] != ']',
    ensures
        run(s, arg) == set_current(s, Token::Tag(t, Some(sanitized_text(arg)))),
    decreases arg.len(),
{
    let pre = arg.drop_last();
    assert(arg[arg.len() - 1] != ']');
    if pre.len() == 0 {
        assert(sanitized_text(pre) =~= Seq::<char>::empty());
        assert(sanitized_text(arg) =~= escaped(arg.last()));
        assert(run(s, pre) == s);
    } else {
        assert forall|i: int| 0 <= i < pre.len() implies #[trigger] pre[i] != ']' by {
            assert(pre[i] == arg[i]);
        }
        lemma_run_tag_arg(s, t, pre);
    }
}

proof fn lemma_run_close_name(s: TokenizerView, t: Seq<char>, name: Seq<char>)
    requires
        s.mode == ReadMode::TagClose,
        s.current == Token::TagClose(t),
        forall|i: int| 0 <= i < name.len() ==> is_letter(#[trigger] name[i]),
    ensures
        run(s, name) == set_current(s, Token::TagClose(t + name)),
    decreases name.len(),
{
    if name.len() == 0 {
        assert(t + name =~= t);
    } else {
        let pre = name.drop_last();
        assert forall|i: int| 0 <= i < pre.len() implies is_letter(#[trigger] pre[i]) by {
            assert(pre[i] == name[i]);
        }
        lemma_run_close_name(s, t, pre);
        assert(is_letter(name[name.len() - 1]));
        assert((t + pre).push(name.last()) =~= t + name);
    }
}

/// An opening tag: from text, `[name]` commits what was being built and emits the tag,
/// its name sanitized and with no argument.
pub proof fn law_open_tag(s: TokenizerView, name: Seq<char>)
    requires
        s.mode == ReadMode::Text,
        name.len() > 0,
        forall|i: int| 0 <= i < name.len() ==> is_tag_name_char(#[trigger] name[i]),
    ensures
        run(s, seq!['['] + name + seq![']']) == (TokenizerView {
            mode: ReadMode::Text,
            current: Token::Null,
            out: commit(s).out.push(Token::Tag(sanitized_text(name), None)),
        }),
{
    lemma_run_concat(s, seq!['['] + name, seq![']']);
    lemma_run_concat(s, seq!['['], name);
    lemma_run_single(s, '[');
    lemma_run_tag_name(step(s, '['), name);
    lemma_run_single(run(s, seq!['['] + name), ']');
}

/// An opening tag with a primary argument: from text, `[name=arg]` commits what was
/// being built and emits the tag, its name and argument sanitized.
pub proof fn law_tag_with_arg(s: TokenizerView, name: Seq<char>, arg: Seq<char>)
    requires
        s.mode == ReadMode::Text,
        name.len() > 0,
        forall|i: int| 0 <= i < name.len() ==> is_tag_name_char(#[trigger] name[i]),
        arg.len() > 0,
        forall|i: int| 0 <= i < arg.len() ==> #[trigger] arg[i] != ']',
    ensures
        run(s, seq!['['] + name + seq!['='] + arg + seq![']']) == (TokenizerView {
            mode: ReadMode::Text,
            current: Token::Null,
            out: commit(s).out.push(
                Token::Tag(sanitized_text(name), Some(sanitized_text(arg))),
            ),
        }),
{
    let a = seq!['['] + name;
    lemma_run_concat(s, a + seq!['='] + arg, seq![']']);
    lemma_run_concat(s, a + seq!['='], arg);
    lemma_run_concat(s, a, seq!['=']);
    lemma_run_concat(s, seq!['['], name);
    lemma_run_single(s, '[');
    lemma_run_tag_name(step(s, '['), name);
    lemma_run_single(run(s, a), '=');
    lemma_run_tag_arg(run(s, a + seq!['=']), sanitized_text(name), arg);
    lemma_run_single(run(s, a + seq!['='] + arg), ']');
}

/// A closing tag: from text, `[/name]` with a name of ASCII letters commits what was
/// being built and emits the closing tag.
pub proof fn law_close_tag(s: TokenizerView, name: Seq<char>)
    requires
        s.mode == ReadMode::Text,
        forall|i: int| 0 <= i < name.len() ==> is_letter(#[trigger] name[i]),
    ensures
        run(s, seq!['[', '/'] + name + seq![']']) == (TokenizerView {
            mode: ReadMode::Text,
            current: Token::Null,
            out: commit(s).out.push(Token::TagClose(name)),
        }),
{
    let open = seq!['[', '/'];
    lemma_run_concat(s, open + name, seq![']']);
    lemma_run_concat(s, open, name);
    lemma_run_concat(s, seq!['['], seq!['/']);
    assert(seq!['['] + seq!['/'] =~= open);
    lemma_run_single(s, '[');
    lemma_run_single(step(s, '['), '/');
    lemma_run_close_name(run(s, open), Seq::empty(), name);
    assert(Seq::<char>::empty() + name =~= name);
    lemma_run_single(run(s, open + name), ']');
}

/// A broken opening tag is read back as text: from text, `[name/` leaves what was built
/// before committed and goes on with the text `[`, the sanitized name, and `/`.
pub proof fn law_broken_open_tag(s: TokenizerView, name: Seq<char>)
    requires
        s.mode == ReadMode::Text,
        name.len() > 0,
        forall|i: int| 0 <= i < name.len() ==> is_tag_name_char(#[trigger] name[i]),
    ensures
        run(s, seq!['['] + name + seq!['/']) == (TokenizerView {
            mode: ReadMode::Text,
            current: Token::Text(seq!['['] + sanitized_text(name) + seq!['/']),
            out: commit(s).out,
        }),
{
    lemma_run_concat(s, seq!['['] + name, seq!['/']);
    lemma_run_concat(s, seq!['['], name);
    lemma_run_single(s, '[');
    lemma_run_tag_name(step(s, '['), name);
    lemma_run_single(run(s, seq!['['] + name), '/');
    assert((seq!['['] + sanitized_text(name)).push('/') =~= seq!['['] + sanitized_text(name)
        + seq!['/']);
}

/// A broken closing tag is read back as text: from text, `[/name` followed by a character
/// `c` that is neither a letter nor `]` goes on with the text `[/`, the name, and `c`.
pub proof fn law_broken_close_tag(s: TokenizerView, name: Seq<char>, c: char)
    requires
        s.mode == ReadMode::Text,
        forall|i: int| 0 <= i < name.len() ==> is_letter(#[trigger] name[i]),
        c != ']',
        !is_letter(c),
    ensures
        run(s, seq!['[', '/'] + name + seq![c]) == (TokenizerView {
            mode: ReadMode::Text,
            current: Token::Text(seq!['[', '/'] + name + seq![c]),
            out: commit(s).out,
        }),
{
    let open = seq!['[', '/'];
    lemma_run_concat(s, open + name, seq![c]);
    lemma_run_concat(s, open, name);
    lemma_run_concat(s, seq!['['], seq!['/']);
    assert(seq!['['] + seq!['/'] =~= open);
    lemma_run_single(s, '[');
    lemma_run_single(step(s, '['), '/');
    lemma_run_close_name(run(s, open), Seq::empty(), name);
    assert(Seq::<char>::empty() + name =~= name);
    lemma_run_single(run(s, open + name), c);
    assert((open + name).push(c) =~= open + name + seq![c]);
}

/// The input holds `[=` followed by a character other than `]`.
pub open spec fn has_argument_without_tag(input: Seq<char>) -> bool {
    exists|i: int|
        0 <= i && i + 2 < input.len() && #[trigger] input[i] == '[' && input[i + 1] == '='
            && input[i + 2] != ']'
}

/// What a fresh tokenizer's state after `k` characters of `input` can be.
spec fn fresh_state(s: TokenizerView, input: Seq<char>, k: int) -> bool {
    &&& s.mode == ReadMode::TagClose ==> s.current is TagClose
    &&& s.mode == ReadMode::Tag && s.current is Null ==> k >= 1 && input[k - 1] == '['
    &&& s.mode == ReadMode::TagPrimaryArg && !(s.current is Tag) ==> k >= 2 && input[k - 1]
        == '=' && input[k - 2] == '['
    &&& s.mode == ReadMode::Text || s.mode == ReadMode::Escape ==> s.current is Null
        || s.current is Text
    &&& s.mode == ReadMode::Linebreak ==> s.current is Null
    &&& s.mode == ReadMode::Tag ==> s.current is Null || s.current is Tag
}

proof fn lemma_fresh_prefix(input: Seq<char>, k: int)
    requires
        !has_argument_without_tag(input),
        0 <= k <= input.len(),
    ensures
        fresh_state(run(initial(), input.take(k)), input, k),
    decreases k,
{
    if k == 0 {
        assert(input.take(0) =~= Seq::<char>::empty());
    } else {
        lemma_fresh_prefix(input, k - 1);
        assert(input.take(k).drop_last() =~= input.take(k - 1));
        assert(input.take(k).last() == input[k - 1]);
        let s = run(initial(), input.take(k - 1));
        let c = input[k - 1];
        if s.mode == ReadMode::TagPrimaryArg && !(s.current is Tag) && c != ']' {
            assert(input[k - 3] == '[');
        }
    }
}

/// A fresh tokenizer reads every input with no `[=` followed by a character other
/// than `]`.
pub proof fn law_fresh_input_reads(input: Seq<char>)
    requires
        !has_argument_without_tag(input),
    ensures
        runs_ok(initial(), input),
{
    assert forall|k: int| 0 <= k < input.len() implies #[trigger] step_ok(
        run(initial(), input.take(k)),
        input[k],
    ) by {
        lemma_fresh_prefix(input, k);
        let s = run(initial(), input.take(k));
        if s.mode == ReadMode::TagPrimaryArg && !(s.current is Tag) && input[k] != ']' {
            assert(input[k - 2] == '[');
        }
    }
}

/// Committing twice is committing once, and with nothing being built committing
/// changes nothing (no `Null` is ever emitted).
pub proof fn law_commit_idempotent(s: TokenizerView)
    ensures
        commit(commit(s)) == commit(s),
        s.current is Null ==> commit(s) == s,
{
}

proof fn lemma_step_grows(s: TokenizerView, c: char)
    ensures
        s.out.is_prefix_of(step(s, c).out),
{
    assert(s.out.is_prefix_of(s.out.push(s.current)));
    assert(s.out.is_prefix_of(s.out.push(Token::Linebreak)));
}

proof fn lemma_run_grows(s: TokenizerView, input: Seq<char>)
    ensures
        s.out.is_prefix_of(run(s, input).out),
    decreases input.len(),
{
    if input.len() > 0 {
        lemma_run_grows(s, input.drop_last());
        lemma_step_grows(run(s, input.drop_last()), input.last());
    }
}

/// Output only grows: from any state, tokenizing keeps every instruction already
/// emitted, unchanged and in front, and only appends.
pub proof fn law_output_only_grows(s: TokenizerView, input: Seq<char>)
    ensures
        s.out.is_prefix_of(tokenized(s, input).out),
{
    lemma_run_grows(s, input);
    let r = run(s, input);
    assert(r.out.is_prefix_of(r.out.push(r.current)));
}

/// A tag name: not empty, and no `]`, `=` or `/` in it.
pub open spec fn is_tag_name(t: Seq<char>) -> bool {
    t.len() > 0 && forall|i: int| 0 <= i < t.len() ==> is_tag_name_char(#[trigger] t[i])
}

/// A primary argument: not empty, and no `]` in it.
pub open spec fn is_tag_arg(t: Seq<char>) -> bool {
    t.len() > 0 && forall|i: int| 0 <= i < t.len() ==> #[trigger] t[i] != ']'
}

/// A closing tag's name: ASCII letters only.
pub open spec fn is_close_name(t: Seq<char>) -> bool {
    forall|i: int| 0 <= i < t.len() ==> is_letter(#[trigger] t[i])
}

/// The shape of an emitted instruction: never `Null`; texts not empty; tag names and
/// arguments as above; closing names of letters.
pub open spec fn token_shaped(t: Token) -> bool {
    match t {
        Token::Null => false,
        Token::Text(x) => x.len() > 0,
        Token::Tag(n, a) => is_tag_name(n) && (a matches Some(x) ==> is_tag_arg(x)),
        Token::TagClose(n) => is_close_name(n),
        Token::Linebreak => true,
    }
}

/// Every emitted instruction, and the one being built if any, is shaped.
pub open spec fn state_shaped(s: TokenizerView) -> bool {
    &&& s.current is Null || token_shaped(s.current)
    &&& forall|i: int| 0 <= i < s.out.len() ==> token_shaped(#[trigger] s.out[i])
}

proof fn lemma_entity_chars(c: char)
    requires
        is_sanitized(c),
    ensures
        is_tag_name(entity(c)),
        is_tag_arg(entity(c)),
        html_safe(entity(c)),
        entity(c)[0] == '&',
        entity(c).len() >= 4,
        forall|i: int|
            0 < i < entity(c).len() ==> #[trigger] entity(c)[i] != '&' && !is_sanitized(
                entity(c)[i],
            ) && is_text_char(entity(c)[i]),
{
    let e = entity(c);
    assert(forall|i: int|
        0 <= i < e.len() ==> {
            let x = #[trigger] e[i];
            is_tag_name_char(x) && x != ']' && !is_html_delimiter(x) && (i > 0 ==> x != '&'
                && !is_sanitized(x) && is_text_char(x))
        }) by {
        if c == '<' {
            assert(e =~= seq!['&', 'l', 't', ';']);
        } else if c == '>' {
            assert(e =~= seq!['&', 'g', 't', ';']);
        } else if c == '&' {
            assert(e =~= seq!['&', 'a', 'm', 'p', ';']);
        } else if c == '"' {
            assert(e =~= seq!['&', 'q', 'u', 'o', 't', ';']);
        } else if c == '\'' {
            assert(e =~= seq!['&', '#', 'x', '2', '7', ';']);
        } else {
            assert(e =~= seq!['&', '#', 'x', '2', 'F', ';']);
        }
    }
}

proof fn lemma_piece_shape(c: char)
    ensures
        escaped(c).len() > 0,
        is_tag_name_char(c) ==> is_tag_name(escaped(c)),
        c != ']' ==> is_tag_arg(escaped(c)),
{
    if is_sanitized(c) {
        lemma_entity_chars(c);
    }
}

proof fn lemma_name_concat(a: Seq<char>, b: Seq<char>)
    requires
        is_tag_name(a),
        is_tag_name(b),
    ensures
        is_tag_name(a + b),
{
    assert forall|i: int| 0 <= i < (a + b).len() implies is_tag_name_char(#[trigger] (a + b)[i]) by {
        if i < a.len() {
            assert((a + b)[i] == a[i]);
        } else {
            assert((a + b)[i] == b[i - a.len()]);
        }
    }
}

proof fn lemma_arg_concat(a: Seq<char>, b: Seq<char>)
    requires
        is_tag_arg(a),
        is_tag_arg(b),
    ensures
        is_tag_arg(a + b),
{
    assert forall|i: int| 0 <= i < (a + b).len() implies #[trigger] (a + b)[i] != ']' by {
        if i < a.len() {
            assert((a + b)[i] == a[i]);
        } else {
            assert((a + b)[i] == b[i - a.len()]);
        }
    }
}

proof fn lemma_step_shaped(s: TokenizerView, c: char)
    requires
        state_shaped(s),
    ensures
        state_shaped(step(s, c)),
{
    let r = step(s, c);
    lemma_piece_shape(c);
    let p = escaped(c);
    match s.current {
        Token::Tag(n, a) => {
            if is_tag_name_char(c) {
                lemma_name_concat(n, p);
            }
            if is_sanitized(c) {
                lemma_entity_chars(c);
                lemma_name_concat(n, entity(c));
            }
            match a {
                Some(x) => {
                    if c != ']' {
                        lemma_arg_concat(x, p);
                    }
                },
                None => {},
            }
        },
        Token::TagClose(n) => {
            assert forall|i: int| 0 <= i < n.push(c).len() && is_letter(c) implies is_letter(
                #[trigger] n.push(c)[i],
            ) by {
                if i < n.len() {
                    assert(n.push(c)[i] == n[i]);
                }
            }
        },
        _ => {},
    }
    if is_sanitized(c) {
        lemma_entity_chars(c);
    }
    assert forall|i: int| 0 <= i < r.out.len() implies token_shaped(#[trigger] r.out[i]) by {
        if i < s.out.len() {
            assert(r.out[i] == s.out[i]);
        }
    }
}

proof fn lemma_run_shaped(s: TokenizerView, input: Seq<char>)
    requires
        state_shaped(s),
    ensures
        state_shaped(run(s, input)),
    decreases input.len(),
{
    if input.len() > 0 {
        lemma_run_shaped(s, input.drop_last());
        lemma_step_shaped(run(s, input.drop_last()), input.last());
    }
}

/// The shape of the output: from a shaped state (a fresh tokenizer is one), tokenizing
/// emits no `Null`, only non-empty texts, tags with a non-empty name free of `]`, `=`
/// and `/` and an argument, if any, non-empty and free of `]`, closing tags named by
/// ASCII letters, and line breaks.
pub proof fn law_output_shape(s: TokenizerView, input: Seq<char>)
    requires
        state_shaped(s),
    ensures
        state_shaped(tokenized(s, input)),
        forall|i: int|
            0 <= i < tokenized(s, input).out.len() ==> token_shaped(
                #[trigger] tokenized(s, input).out[i],
            ),
{
    lemma_run_shaped(s, input);
    let r = run(s, input);
    let c = commit(r);
    assert forall|i: int| 0 <= i < c.out.len() implies token_shaped(#[trigger] c.out[i]) by {
        if i < r.out.len() {
            assert(c.out[i] == r.out[i]);
        }
    }
}

/// A fresh tokenizer is shaped.
pub proof fn law_initial_shaped()
    ensures
        state_shaped(initial()),
{
}

/// `t` holds the entity `e` from index `i` on.
pub open spec fn begins_with_at(t: Seq<char>, i: int, e: Seq<char>) -> bool {
    0 <= i && i + e.len() <= t.len() && t.subrange(i, i + e.len()) == e
}

/// `t` holds, from index `i` on, one of the entities that sanitizing writes.
pub open spec fn begins_entity(t: Seq<char>, i: int) -> bool {
    ||| begins_with_at(t, i, entity('<'))
    ||| begins_with_at(t, i, entity('>'))
    ||| begins_with_at(t, i, entity('&'))
    ||| begins_with_at(t, i, entity('"'))
    ||| begins_with_at(t, i, entity('\''))
    ||| begins_with_at(t, i, entity('\\'))
}

/// Every `&` in `t` begins an entity.
pub open spec fn ampersands_begin_entities(t: Seq<char>) -> bool {
    forall|i: int| 0 <= i < t.len() && #[trigger] t[i] == '&' ==> begins_entity(t, i)
}

pub open spec fn token_ampersands_ok(t: Token) -> bool {
    match t {
        Token::Text(x) => ampersands_begin_entities(x),
        Token::Tag(n, a) => ampersands_begin_entities(n) && (a matches Some(x)
            ==> ampersands_begin_entities(x)),
        Token::TagClose(n) => ampersands_begin_entities(n),
        _ => true,
    }
}

/// In the state, every `&` begins an entity.
pub open spec fn state_ampersands_ok(s: TokenizerView) -> bool {
    &&& token_ampersands_ok(s.current)
    &&& forall|i: int| 0 <= i < s.out.len() ==> token_ampersands_ok(#[trigger] s.out[i])
}

/// Reading `input` from `s` on, a closing tag is at some point broken by an `&` that
/// does not begin an entity in the input (as in `[/&x`); it is read back raw as text.
pub open spec fn breaks_close_with_bare_ampersand(s: TokenizerView, input: Seq<char>) -> bool {
    exists|k: int|
        0 <= k < input.len() && run(s, input.take(k)).mode == ReadMode::TagClose && #[trigger] input[k]
            == '&' && !begins_entity(input, k)
}

/// The char whose entity begins at index `i` of `t`.
pub open spec fn entity_char_at(t: Seq<char>, i: int) -> char {
    if begins_with_at(t, i, entity('<')) {
        '<'
    } else if begins_with_at(t, i, entity('>')) {
        '>'
    } else if begins_with_at(t, i, entity('&')) {
        '&'
    } else if begins_with_at(t, i, entity('"')) {
        '"'
    } else if begins_with_at(t, i, entity('\'')) {
        '\''
    } else {
        '\\'
    }
}

/// The text `x` ends with the first `j - k` chars of the entity that begins at index `k`
/// of the input, and every `&` before them begins an entity.
spec fn pending_entity(x: Seq<char>, input: Seq<char>, k: int, j: int) -> bool {
    let n = j - k;
    &&& 0 <= k < j
    &&& begins_entity(input, k)
    &&& n < entity(entity_char_at(input, k)).len()
    &&& n <= x.len()
    &&& ampersands_begin_entities(x.subrange(0, x.len() - n))
    &&& x.subrange(x.len() - n, x.len() as int) == input.subrange(k, j)
}

/// After `j` chars of `input`: every emitted `&` begins an entity, and so does every `&`
/// being built, except one that began an entity of the input which is not yet complete.
spec fn amp_state_at(r: TokenizerView, input: Seq<char>, j: int) -> bool {
    &&& forall|i: int| 0 <= i < r.out.len() ==> token_ampersands_ok(#[trigger] r.out[i])
    &&& token_ampersands_ok(r.current) || match r.current {
        Token::Text(x) => r.mode == ReadMode::Text && exists|k: int| pending_entity(x, input, k, j),
        _ => false,
    }
}

proof fn lemma_begins_left(a: Seq<char>, b: Seq<char>, i: int, e: Seq<char>)
    requires
        begins_with_at(a, i, e),
    ensures
        begins_with_at(a + b, i, e),
{
    assert((a + b).subrange(i, i + e.len()) =~= a.subrange(i, i + e.len()));
}

proof fn lemma_begins_right(a: Seq<char>, b: Seq<char>, j: int, e: Seq<char>)
    requires
        begins_with_at(b, j, e),
    ensures
        begins_with_at(a + b, a.len() + j, e),
{
    assert((a + b).subrange(a.len() + j, a.len() + j + e.len()) =~= b.subrange(j, j + e.len()));
}

proof fn lemma_entity_left(a: Seq<char>, b: Seq<char>, i: int)
    requires
        begins_entity(a, i),
    ensures
        begins_entity(a + b, i),
{
    if begins_with_at(a, i, entity('<')) {
        lemma_begins_left(a, b, i, entity('<'));
    } else if begins_with_at(a, i, entity('>')) {
        lemma_begins_left(a, b, i, entity('>'));
    } else if begins_with_at(a, i, entity('&')) {
        lemma_begins_left(a, b, i, entity('&'));
    } else if begins_with_at(a, i, entity('"')) {
        lemma_begins_left(a, b, i, entity('"'));
    } else if begins_with_at(a, i, entity('\'')) {
        lemma_begins_left(a, b, i, entity('\''));
    } else {
        lemma_begins_left(a, b, i, entity('\\'));
    }
}

proof fn lemma_entity_right(a: Seq<char>, b: Seq<char>, j: int)
    requires
        begins_entity(b, j),
    ensures
        begins_entity(a + b, a.len() + j),
{
    if begins_with_at(b, j, entity('<')) {
        lemma_begins_right(a, b, j, entity('<'));
    } else if begins_with_at(b, j, entity('>')) {
        lemma_begins_right(a, b, j, entity('>'));
    } else if begins_with_at(b, j, entity('&')) {
        lemma_begins_right(a, b, j, entity('&'));
    } else if begins_with_at(b, j, entity('"')) {
        lemma_begins_right(a, b, j, entity('"'));
    } else if begins_with_at(b, j, entity('\'')) {
        lemma_begins_right(a, b, j, entity('\''));
    } else {
        lemma_begins_right(a, b, j, entity('\\'));
    }
}

proof fn lemma_amp_concat(a: Seq<char>, b: Seq<char>)
    requires
        ampersands_begin_entities(a),
        ampersands_begin_entities(b),
    ensures
        ampersands_begin_entities(a + b),
{
    assert forall|i: int| 0 <= i < (a + b).len() && #[trigger] (a + b)[i] == '&' implies begins_entity(
        a + b,
        i,
    ) by {
        if i < a.len() {
            assert((a + b)[i] == a[i]);
            lemma_entity_left(a, b, i);
        } else {
            assert((a + b)[i] == b[i - a.len()]);
            lemma_entity_right(a, b, i - a.len());
        }
    }
}

proof fn lemma_amp_single(c: char)
    requires
        c != '&',
    ensures
        ampersands_begin_entities(seq![c]),
{
}

proof fn lemma_amp_piece(c: char)
    ensures
        ampersands_begin_entities(escaped(c)),
        is_sanitized(c) ==> ampersands_begin_entities(entity(c)),
{
    if is_sanitized(c) {
        lemma_entity_chars(c);
        let e = entity(c);
        assert(e.subrange(0, e.len() as int) =~= e);
        assert(begins_with_at(e, 0, e));
        assert(begins_entity(e, 0));
    }
}

proof fn lemma_step_amp(s: TokenizerView, c: char)
    requires
        state_ampersands_ok(s),
        !(s.mode == ReadMode::TagClose && c == '&'),
    ensures
        state_ampersands_ok(step(s, c)),
{
    let r = step(s, c);
    lemma_amp_piece(c);
    let p = escaped(c);
    let single = seq![c];
    let plain = c != '&';
    if plain {
        lemma_amp_single(c);
    }
    let e = entity(c);
    match s.current {
        Token::Text(x) => {
            lemma_amp_concat(x, p);
            if plain {
                lemma_amp_concat(x, single);
                assert(x.push(c) =~= x + single);
            }
        },
        Token::Tag(n, a) => {
            lemma_amp_concat(n, p);
            if is_sanitized(c) {
                lemma_amp_concat(n, e);
            }
            lemma_amp_concat(seq!['['], n);
            match a {
                Some(x) => {
                    lemma_amp_concat(x, p);
                    lemma_amp_concat(seq!['['] + n, seq!['=']);
                    lemma_amp_concat(seq!['['] + n + seq!['='], x);
                    if plain {
                        lemma_amp_concat(seq!['['] + n + seq!['='] + x, single);
                        assert((seq!['['] + n + seq!['='] + x).push(c) =~= seq!['['] + n + seq![
                            '=',
                        ] + x + single);
                    }
                },
                None => {
                    if plain {
                        lemma_amp_concat(seq!['['] + n, single);
                        assert((seq!['['] + n).push(c) =~= seq!['['] + n + single);
                    }
                },
            }
        },
        Token::TagClose(n) => {
            lemma_amp_concat(seq!['[', '/'], n);
            if plain {
                lemma_amp_concat(seq!['[', '/'] + n, single);
                assert((seq!['[', '/'] + n).push(c) =~= seq!['[', '/'] + n + single);
                assert(n.push(c) =~= n + single);
                lemma_amp_concat(n, single);
            }
        },
        _ => {
            assert(Seq::<char>::empty().push(c) =~= single);
        },
    }
    assert forall|i: int| 0 <= i < r.out.len() implies token_ampersands_ok(#[trigger] r.out[i]) by {
        if i < s.out.len() {
            assert(r.out[i] == s.out[i]);
        }
    }
}

proof fn lemma_recovered_amp(t: Token)
    requires
        token_ampersands_ok(t),
    ensures
        ampersands_begin_entities(crate::bbcode2::model::recovered_text(t)),
{
    match t {
        Token::Tag(n, a) => {
            lemma_amp_concat(seq!['['], n);
            match a {
                Some(x) => {
                    lemma_amp_concat(seq!['['] + n, seq!['=']);
                    lemma_amp_concat(seq!['['] + n + seq!['='], x);
                },
                None => {},
            }
        },
        Token::TagClose(n) => {
            lemma_amp_concat(seq!['[', '/'], n);
        },
        _ => {},
    }
}

proof fn lemma_amp_break(r: TokenizerView, input: Seq<char>, i: int)
    requires
        state_ampersands_ok(r),
        r.mode == ReadMode::TagClose,
        0 <= i < input.len(),
        input[i] == '&',
        begins_entity(input, i),
    ensures
        amp_state_at(step(r, '&'), input, i + 1),
{
    let r2 = step(r, '&');
    lemma_entity_chars(entity_char_at(input, i));
    let rec = crate::bbcode2::model::recovered_text(r.current);
    lemma_recovered_amp(r.current);
    let x2 = rec.push('&');
    assert(r2.current == Token::Text(x2));
    assert(r2.mode == ReadMode::Text);
    assert(r2.out == r.out);
    assert(x2.subrange(0, x2.len() - 1) =~= rec);
    assert(input.subrange(i, i + 1) =~= seq!['&']);
    assert(x2.subrange(x2.len() - 1, x2.len() as int) =~= seq!['&']);
    assert(pending_entity(x2, input, i, i + 1));
}

proof fn lemma_amp_continue(r: TokenizerView, input: Seq<char>, i: int, x: Seq<char>, k: int)
    requires
        forall|q: int| 0 <= q < r.out.len() ==> token_ampersands_ok(#[trigger] r.out[q]),
        r.mode == ReadMode::Text,
        r.current == Token::Text(x),
        pending_entity(x, input, k, i),
        i < input.len(),
    ensures
        amp_state_at(step(r, input[i]), input, i + 1),
{
    let c = input[i];
    let n = i - k;
    let ec = entity_char_at(input, k);
    let e = entity(ec);
    lemma_entity_chars(ec);
    assert(input.subrange(k, k + e.len())[n] == input[i]);
    assert(c == e[n]);
    let r2 = step(r, c);
    let x2 = x.push(c);
    assert(escaped(c) == seq![c]);
    assert(r2.current == Token::Text(x + seq![c]));
    assert(x + seq![c] =~= x2);
    assert(r2.out == r.out);
    assert(r2.mode == ReadMode::Text);
    let y = x.subrange(0, x.len() - n);
    assert(x2.subrange(0, x2.len() - (n + 1)) =~= y);
    assert(x2.subrange(x2.len() - (n + 1), x2.len() as int) =~= input.subrange(k, i + 1));
    if n + 1 < e.len() {
        assert(pending_entity(x2, input, k, i + 1));
    } else {
        assert(input.subrange(k, i + 1) =~= e);
        assert(x2 =~= y + e);
        lemma_amp_piece(ec);
        lemma_amp_concat(y, e);
    }
}

proof fn lemma_amp_prefix(s: TokenizerView, input: Seq<char>, j: int)
    requires
        state_ampersands_ok(s),
        !breaks_close_with_bare_ampersand(s, input),
        0 <= j <= input.len(),
    ensures
        amp_state_at(run(s, input.take(j)), input, j),
    decreases j,
{
    if j == 0 {
        assert(input.take(0) =~= Seq::<char>::empty());
    } else {
        let i = j - 1;
        lemma_amp_prefix(s, input, i);
        let r = run(s, input.take(i));
        let c = input[i];
        assert(input.take(j).drop_last() =~= input.take(i));
        assert(input.take(j).last() == c);
        assert(run(s, input.take(j)) == step(r, c));
        if token_ampersands_ok(r.current) {
            if r.mode == ReadMode::TagClose && c == '&' {
                assert(begins_entity(input, i));
                lemma_amp_break(r, input, i);
            } else {
                lemma_step_amp(r, c);
            }
        } else {
            let x = r.current->Text_0;
            let k = choose|k: int| pending_entity(x, input, k, i);
            lemma_amp_continue(r, input, i, x, k);
        }
    }
}

proof fn lemma_run_amp(s: TokenizerView, input: Seq<char>)
    requires
        state_ampersands_ok(s),
        !breaks_close_with_bare_ampersand(s, input),
    ensures
        state_ampersands_ok(run(s, input)),
{
    lemma_amp_prefix(s, input, input.len() as int);
    assert(input.take(input.len() as int) =~= input);
    let r = run(s, input);
    if !token_ampersands_ok(r.current) {
        let x = r.current->Text_0;
        let k = choose|k: int| pending_entity(x, input, k, input.len() as int);
        lemma_entity_chars(entity_char_at(input, k));
    }
}

/// Sanitization of `&`: in what tokenizing emits, every `&` begins one of the entities
/// that sanitizing writes, unless a closing tag is broken off by an `&` that does not
/// begin an entity in the input (as in `[/&x`), which is then read back raw as text.
pub proof fn law_ampersands_begin_entities(s: TokenizerView, input: Seq<char>)
    requires
        state_ampersands_ok(s),
        !breaks_close_with_bare_ampersand(s, input),
    ensures
        state_ampersands_ok(tokenized(s, input)),
{
    lemma_run_amp(s, input);
    let r = run(s, input);
    let c = commit(r);
    assert forall|i: int| 0 <= i < c.out.len() implies token_ampersands_ok(#[trigger] c.out[i]) by {
        if i < r.out.len() {
            assert(c.out[i] == r.out[i]);
        }
    }
}

/// A fresh tokenizer holds no `&`.
pub proof fn law_initial_ampersands_ok()
    ensures
        state_ampersands_ok(initial()),
{
}

/// Committing pushes what is being built, whenever it is not `Null`, onto the output
/// as it stands, and then builds nothing; with nothing being built it changes nothing.
pub proof fn law_commit_pushes(s: TokenizerView)
    ensures
        !(s.current is Null) ==> commit(s) == (TokenizerView {
            mode: s.mode,
            current: Token::Null,
            out: s.out.push(s.current),
        }),
        s.current is Null ==> commit(s) == s,
{
}

/// Tokenizing ends by emitting what is still being built, if anything: the output is
/// what reading gave, followed by the pending instruction when it is not `Null`.
pub proof fn law_tokenize_emits_pending(s: TokenizerView, input: Seq<char>)
    ensures
        tokenized(s, input).out == (if run(s, input).current is Null {
            run(s, input).out
        } else {
            run(s, input).out.push(run(s, input).current)
        }),
        tokenized(s, input).current == Token::Null,
        tokenized(s, input).mode == run(s, input).mode,
{
}

/// A tag starts by emitting the text before it: from text mode with text `t` being built,
/// `[` pushes `Text(t)` onto the output, whatever it holds, and starts an empty tag.
pub proof fn law_text_committed_at_tag(s: TokenizerView, t: Seq<char>)
    requires
        s.mode == ReadMode::Text,
        s.current == Token::Text(t),
    ensures
        run(s, seq!['[']) == (TokenizerView {
            mode: ReadMode::Tag,
            current: Token::Null,
            out: s.out.push(Token::Text(t)),
        }),
{
    lemma_run_single(s, '[');
}

/// Escapes: from text mode, `\` followed by a character that is not sanitized adds that
/// character, as it is, to the text being built (or starts a text with it), keeping the
/// output; `\` followed by a sanitized character replaces the text being built by that
/// character's entity.
pub proof fn law_escape(s: TokenizerView, c: char)
    requires
        s.mode == ReadMode::Text,
        s.current is Null || s.current is Text,
    ensures
        !is_escapable(c) ==> (s.current matches Token::Text(t) ==> run(s, seq!['\\', c]) == (
        TokenizerView { mode: ReadMode::Text, current: Token::Text(t.push(c)), out: s.out })),
        !is_escapable(c) && s.current is Null ==> run(s, seq!['\\', c]) == (TokenizerView {
            mode: ReadMode::Text,
            current: Token::Text(seq![c]),
            out: s.out,
        }),
        is_escapable(c) ==> run(s, seq!['\\', c]) == (TokenizerView {
            mode: ReadMode::Text,
            current: Token::Text(entity(c)),
            out: s.out,
        }),
{
    lemma_run_concat(s, seq!['\\'], seq![c]);
    assert(seq!['\\'] + seq![c] =~= seq!['\\', c]);
    lemma_run_single(s, '\\');
    lemma_run_single(step(s, '\\'), c);
    match s.current {
        Token::Text(t) => {
            assert(t + seq![c] =~= t.push(c));
        },
        _ => {},
    }
}

/// A line break is emitted when the next line starts, whatever its first character:
/// in line-break mode, any character other than a tab, carriage return or space pushes
/// exactly one `Linebreak` onto the output, and is then read as in text mode with nothing
/// being built.
pub proof fn law_linebreak_emitted(s: TokenizerView, c: char)
    requires
        s.mode == ReadMode::Linebreak,
        !is_line_space(c),
    ensures
        step(s, c).out == s.out.push(Token::Linebreak),
        step(s, c) == step(
            TokenizerView { mode: ReadMode::Text, current: Token::Null, out: s.out.push(Token::Linebreak) },
            c,
        ),
{
}

/// Text characters: from text mode with text `t` being built, a character that is no
/// escape, tag or line break is added to `t`, as its entity if HTML gives it a meaning
/// (`<` `>` `&` `"` `'`) and as it is otherwise; the mode and the output stay.
pub proof fn law_text_char(s: TokenizerView, t: Seq<char>, c: char)
    requires
        s.mode == ReadMode::Text,
        s.current == Token::Text(t),
        is_text_char(c),
    ensures
        step(s, c).mode == ReadMode::Text,
        step(s, c).out == s.out,
        c == '<' ==> step(s, c).current == Token::Text(t + seq!['&', 'l', 't', ';']),
        c == '>' ==> step(s, c).current == Token::Text(t + seq!['&', 'g', 't', ';']),
        c == '&' ==> step(s, c).current == Token::Text(t + seq!['&', 'a', 'm', 'p', ';']),
        c == '"' ==> step(s, c).current == Token::Text(t + seq!['&', 'q', 'u', 'o', 't', ';']),
        c == '\'' ==> step(s, c).current == Token::Text(t + seq!['&', '#', 'x', '2', '7', ';']),
        c != '<' && c != '>' && c != '&' && c != '"' && c != '\'' ==> step(s, c).current
            == Token::Text(t.push(c)),
{
    assert(t + seq![c] =~= t.push(c));
}

/// An escaped backslash is the entity `&#x2F;`: from text mode, `\\` replaces the text
/// being built by it.
pub proof fn law_escaped_backslash(s: TokenizerView)
    requires
        s.mode == ReadMode::Text,
        s.current is Null || s.current is Text,
    ensures
        run(s, seq!['\\', '\\']) == (TokenizerView {
            mode: ReadMode::Text,
            current: Token::Text(seq!['&', '#', 'x', '2', 'F', ';']),
            out: s.out,
        }),
{
    law_escape(s, '\\');
}

} // verus!
