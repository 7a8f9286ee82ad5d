use bbcode::bbcode2::tokenizer::Tokenizer;
use bbcode::bbcode2::Instruction;

fn text(s: &str) -> Instruction {
    Instruction::Text(s.to_string())
}

fn tag(name: &str, arg: Option<&str>) -> Instruction {
    Instruction::Tag(name.to_string(), arg.map(|a| a.to_string()))
}

fn close(name: &str) -> Instruction {
    Instruction::TagClose(name.to_string())
}

#[test]
fn linebreak() {
    let mut t = Tokenizer::new();
    let instructions = t.tokenize("a\n\rb\n\r\r\r\rc\r");

    assert_eq!(instructions.len(), 5);

    match &instructions[0] {
        Instruction::Text(text) => assert_eq!("a", text),
        _ => assert!(false, "1st instruction was not text."),
    }
    assert!(
        instructions[1] == Instruction::Linebreak,
        "2nd instruction not linebreak."
    );
    match &instructions[4] {
        Instruction::Text(text) => assert_eq!("c", text),
        _ => assert!(false, "5th instruction was not text."),
    }
}

#[test]
fn sanitize() {
    let mut t = Tokenizer::new();
    let instructions = t.tokenize("<strong>HTML</strong>");

    assert_eq!(instructions.len(), 1);

    match &instructions[0] {
        Instruction::Text(text) => assert_eq!("&lt;strong&gt;HTML&lt;/strong&gt;", text),
        _ => assert!(false, "Instruction was not text."),
    }
}

#[test]
fn tag_and_close() {
    let mut t = Tokenizer::new();
    let instructions = t.tokenize("[b]Bold[/b]");

    assert_eq!(instructions.len(), 3);

    match &instructions[0] {
        Instruction::Tag(tag, arg) => {
            assert_eq!("b", tag);
            assert_eq!(&None, arg);
        }
        _ => assert!(false, "1st instruction was not a tag."),
    }
    match &instructions[1] {
        Instruction::Text(text) => assert_eq!("Bold", text),
        _ => assert!(false, "2nd instruction was not text."),
    }
    match &instructions[2] {
        Instruction::TagClose(tag) => {
            assert_eq!("b", tag);
        }
        _ => assert!(false, "3rd instruction was not a closing tag."),
    }
}

#[test]
fn tag_close_terminates() {
    let mut t = Tokenizer::new();
    let instructions = t.tokenize("[b]Bold[//b]");

    assert_eq!(instructions.len(), 3);

    match &instructions[2] {
        Instruction::Text(text) => {
            assert_eq!("[//b]", text);
        }
        _ => assert!(false, "3rd instruction was not text."),
    }
}

#[test]
fn tag_open_terminates() {
    let mut t = Tokenizer::new();
    let instructions = t.tokenize("[b]Bold[b/b]");

    assert_eq!(instructions.len(), 3);

    match &instructions[2] {
        Instruction::Text(text) => {
            assert_eq!("[b/b]", text);
        }
        _ => assert!(false, "3rd instruction was not text."),
    }
}

#[test]
fn tag_with_arg() {
    let mut t = Tokenizer::new();
    let instructions = t.tokenize("[url=https://zombo.com]ZOMBO[/url]");

    assert_eq!(instructions.len(), 3);

    match &instructions[0] {
        Instruction::Tag(tag, arg) => {
            assert_eq!("url", tag);
            assert_eq!(&Some("https://zombo.com".to_string()), arg);
        }
        _ => assert!(false, "1st instruction was not a tag."),
    }
    match &instructions[1] {
        Instruction::Text(text) => assert_eq!("ZOMBO", text),
        _ => assert!(false, "2nd instruction was not text."),
    }
    match &instructions[2] {
        Instruction::TagClose(tag) => {
            assert_eq!("url", tag);
        }
        _ => assert!(false, "3rd instruction was not a closing tag."),
    }
}

#[test]
fn plain_text_passes_through() {
    let mut t = Tokenizer::new();
    assert_eq!(t.tokenize("hello world"), &vec![text("hello world")]);
}

#[test]
fn empty_input_gives_nothing() {
    let mut t = Tokenizer::new();
    assert!(t.tokenize("").is_empty());
}

#[test]
fn default_is_fresh() {
    let mut t = Tokenizer::default();
    assert_eq!(t.tokenize("x"), &vec![text("x")]);
}

#[test]
fn every_entity() {
    let mut t = Tokenizer::new();
    assert_eq!(
        t.tokenize("a&b'c\"d<e>f"),
        &vec![text("a&amp;b&#x27;c&quot;d&lt;e&gt;f")]
    );
}

#[test]
fn quotes_in_argument_are_sanitized() {
    let mut t = Tokenizer::new();
    assert_eq!(
        t.tokenize("[url=\"x\"]"),
        &vec![tag("url", Some("&quot;x&quot;"))]
    );
}

#[test]
fn backslash_in_tag_name_is_sanitized() {
    let mut t = Tokenizer::new();
    assert_eq!(t.tokenize("[a\\b]"), &vec![tag("a&#x2F;b", None)]);
}

#[test]
fn whitespace_after_linebreak_is_discarded() {
    let mut t = Tokenizer::new();
    assert_eq!(
        t.tokenize("a\n \t\r b"),
        &vec![text("a"), Instruction::Linebreak, text("b")]
    );
}

#[test]
fn carriage_return_in_text_is_discarded() {
    let mut t = Tokenizer::new();
    assert_eq!(t.tokenize("a\rb"), &vec![text("ab")]);
}

#[test]
fn trailing_linebreak_is_dropped() {
    let mut t = Tokenizer::new();
    assert_eq!(t.tokenize("a\n"), &vec![text("a")]);
}

#[test]
fn two_linebreaks_give_two_instructions() {
    let mut t = Tokenizer::new();
    assert_eq!(
        t.tokenize("a\n\nb"),
        &vec![text("a"), Instruction::Linebreak, Instruction::Linebreak, text("b")]
    );
}

#[test]
fn unterminated_tag_is_committed() {
    let mut t = Tokenizer::new();
    assert_eq!(t.tokenize("[b"), &vec![tag("b", None)]);
}

#[test]
fn empty_closing_tag() {
    let mut t = Tokenizer::new();
    assert_eq!(t.tokenize("[/]"), &vec![close("")]);
}

#[test]
fn empty_argument_gives_no_argument() {
    let mut t = Tokenizer::new();
    assert_eq!(t.tokenize("[url=]"), &vec![tag("url", None)]);
}

#[test]
fn argument_keeps_slashes_and_equals() {
    let mut t = Tokenizer::new();
    assert_eq!(t.tokenize("[a=b=c/d]"), &vec![tag("a", Some("b=c/d"))]);
}

#[test]
fn escaped_bracket_is_text() {
    let mut t = Tokenizer::new();
    assert_eq!(t.tokenize("\\[b]"), &vec![text("[b]")]);
}

#[test]
fn escaped_backslash_is_sanitized() {
    let mut t = Tokenizer::new();
    assert_eq!(t.tokenize("\\\\"), &vec![text("&#x2F;")]);
}

#[test]
fn escaped_special_restarts_the_text() {
    let mut t = Tokenizer::new();
    assert_eq!(t.tokenize("ab\\<c"), &vec![text("&lt;c")]);
}

#[test]
fn broken_close_tag_with_delimiter_keeps_it_raw() {
    let mut t = Tokenizer::new();
    assert_eq!(t.tokenize("[/b<"), &vec![text("[/b<")]);
}

#[test]
fn broken_tag_with_argument_is_recovered() {
    let mut t = Tokenizer::new();
    assert_eq!(t.tokenize("[a=b"), &vec![tag("a", Some("b"))]);
    let mut u = Tokenizer::new();
    assert_eq!(u.tokenize("[ab/"), &vec![text("[ab/")]);
}

#[test]
fn tokenizing_again_appends() {
    let mut t = Tokenizer::new();
    t.tokenize("a");
    assert_eq!(t.tokenize("[b]c"), &vec![text("a"), tag("b", None), text("c")]);
}

#[test]
fn text_before_tag_is_committed() {
    let mut t = Tokenizer::new();
    assert_eq!(
        t.tokenize("x [i]y[/i] z"),
        &vec![text("x "), tag("i", None), text("y"), close("i"), text(" z")]
    );
}

#[test]
fn argument_without_tag_closed_at_once_gives_nothing() {
    let mut t = Tokenizer::new();
    assert_eq!(t.tokenize("[=]x"), &vec![text("x")]);
}

#[test]
fn defaults() {
    assert_eq!(Instruction::default(), Instruction::Null);
    assert_eq!(bbcode::bbcode2::ReadMode::default(), bbcode::bbcode2::ReadMode::Text);
}

#[test]
fn closing_tag_committed_by_earlier_call_then_broken() {
    let mut t = Tokenizer::new();
    assert_eq!(t.tokenize("[/"), &vec![close("")]);
    assert_eq!(t.tokenize("1"), &vec![close(""), text("1")]);
}

#[test]
fn broken_close_tag_with_ampersand_keeps_it_raw() {
    let mut t = Tokenizer::new();
    assert_eq!(t.tokenize("[/&"), &vec![text("[/&")]);
}

#[test]
fn ampersands_become_entities() {
    let mut t = Tokenizer::new();
    assert_eq!(
        t.tokenize("&[a&=&]&"),
        &vec![text("&amp;"), tag("a&amp;", Some("&amp;")), text("&amp;")]
    );
}

#[test]
fn tokenizing_nothing_again_changes_nothing() {
    let mut t = Tokenizer::new();
    t.tokenize("a[b");
    assert_eq!(t.tokenize(""), &vec![text("a"), tag("b", None)]);
    assert_eq!(t.tokenize(""), &vec![text("a"), tag("b", None)]);
}

#[test]
fn close_tag_broken_by_an_entity_keeps_it() {
    let mut t = Tokenizer::new();
    assert_eq!(t.tokenize("[/&lt;"), &vec![text("[/&lt;")]);
}

#[test]
fn can_read_refuses_only_an_argument_without_tag() {
    let t = Tokenizer::new();
    assert!(!t.can_read("[=x"));
    assert!(!t.can_read("a [=]b[=c"));
    assert!(t.can_read("[=]x"));
    assert!(t.can_read("[b=x]"));
    assert!(t.can_read("\\[=x"));
    assert!(t.can_read(""));
}

#[test]
fn can_read_follows_the_state_of_earlier_calls() {
    let mut t = Tokenizer::new();
    t.tokenize("[b=");
    assert!(!t.can_read("y"));
    assert!(t.can_read("]y"));
    let mut u = Tokenizer::new();
    u.tokenize("[/");
    assert!(u.can_read("1"));
}
