use html_lite::compile::{compile, sections, CompiledSpan};
use html_lite::grammar::{tokenize, tokenize_lenient};
use html_lite::scope::ScopeStack;
use html_lite::word::{CompileError, Word};

fn s(x: &str) -> String {
    x.to_string()
}

fn open(name: &str, attrs: &[(&str, &str)]) -> Word {
    Word::TagOpen(s(name), attrs.iter().map(|(k, v)| (s(k), s(v))).collect())
}

fn close(name: &str) -> Word {
    Word::TagClose(s(name))
}

fn text(t: &str) -> Word {
    Word::Text(s(t))
}

fn attr<'a>(span: &'a CompiledSpan, name: &str) -> Option<&'a str> {
    span.attributes
        .iter()
        .find(|(k, _)| k == name)
        .map(|(_, v)| v.as_str())
}

fn tags(span: &CompiledSpan) -> Vec<&str> {
    span.tags.iter().map(|t| t.as_str()).collect()
}

#[test]
fn innermost_attribute_wins() {
    let words = vec![
        open("a", &[("x", "1")]),
        open("b", &[("x", "2")]),
        text("t"),
        close("b"),
        close("a"),
    ];
    let spans = compile(&words).unwrap();
    assert_eq!(spans.len(), 1);
    assert_eq!(spans[0].text, "t");
    assert_eq!(attr(&spans[0], "x"), Some("2"));
    assert_eq!(spans[0].attributes.len(), 1);
    assert_eq!(tags(&spans[0]), vec!["a", "b"]);
}

#[test]
fn attributes_do_not_leak_across_siblings() {
    let words = vec![
        open("a", &[("x", "1")]),
        text("t1"),
        open("b", &[("x", "2")]),
        text("t2"),
        close("b"),
        text("t3"),
        close("a"),
    ];
    let spans = compile(&words).unwrap();
    assert_eq!(spans.len(), 3);
    assert_eq!(spans[0].text, "t1");
    assert_eq!(attr(&spans[0], "x"), Some("1"));
    assert_eq!(spans[1].text, "t2");
    assert_eq!(attr(&spans[1], "x"), Some("2"));
    assert_eq!(spans[2].text, "t3");
    assert_eq!(attr(&spans[2], "x"), Some("1"));
}

#[test]
fn sibling_attribute_is_removed_on_close() {
    let words = vec![
        open("a", &[]),
        open("b", &[("y", "2")]),
        text("in"),
        close("b"),
        text("out"),
        close("a"),
    ];
    let spans = compile(&words).unwrap();
    assert_eq!(attr(&spans[0], "y"), Some("2"));
    assert_eq!(attr(&spans[1], "y"), None);
    assert!(spans[1].attributes.is_empty());
}

#[test]
fn attribute_scoping_from_text() {
    let spans = sections(r#"<a x={"1"}> {"t1"} <b x={"2"}> {"t2"} </b> {"t3"} </a>"#).unwrap();
    assert_eq!(spans.len(), 3);
    assert_eq!(attr(&spans[0], "x"), Some("\"1\""));
    assert_eq!(attr(&spans[1], "x"), Some("\"2\""));
    assert_eq!(attr(&spans[2], "x"), Some("\"1\""));
}

#[test]
fn mismatched_close_fails() {
    let words = vec![open("a", &[]), text("t"), close("b")];
    assert_eq!(compile(&words).err(), Some(CompileError::MismatchedTag));
    assert_eq!(
        sections(r#"<a> {"t"} </b>"#).err(),
        Some(CompileError::MismatchedTag)
    );
}

#[test]
fn unstarted_close_fails() {
    let words = vec![close("a")];
    assert_eq!(compile(&words).err(), Some(CompileError::UnstartedTag));
    assert_eq!(sections("</a>").err(), Some(CompileError::UnstartedTag));
}

#[test]
fn unclosed_tag_fails() {
    let words = vec![open("a", &[]), text("t")];
    assert_eq!(compile(&words).err(), Some(CompileError::UnclosedTag));
    assert_eq!(sections(r#"<a> {"t"}"#).err(), Some(CompileError::UnclosedTag));
}

#[test]
fn empty_input_compiles_to_nothing() {
    let words: Vec<Word> = Vec::new();
    assert_eq!(compile(&words).unwrap().len(), 0);
    assert_eq!(sections("").unwrap().len(), 0);
    assert_eq!(sections("  \n\t ").unwrap().len(), 0);
}

#[test]
fn well_nested_stream_keeps_enclosing_tags() {
    let words = vec![
        text("w0"),
        open("a", &[]),
        text("w1"),
        open("b", &[]),
        text("w2"),
        open("a", &[]),
        text("w3"),
        close("a"),
        close("b"),
        text("w4"),
        close("a"),
        text("w5"),
    ];
    let spans = compile(&words).unwrap();
    assert_eq!(spans.len(), 6);
    let expected: Vec<Vec<&str>> = vec![
        vec![],
        vec!["a"],
        vec!["a", "b"],
        vec!["a", "b", "a"],
        vec!["a"],
        vec![],
    ];
    for (k, span) in spans.iter().enumerate() {
        assert_eq!(span.text, format!("w{}", k));
        assert_eq!(tags(span), expected[k]);
    }
}

#[test]
fn failure_yields_no_spans() {
    let words = vec![text("kept?"), open("a", &[]), text("t"), close("b"), text("after")];
    assert!(compile(&words).is_err());
}

#[test]
fn duplicate_attribute_in_one_tag_keeps_last() {
    let words = vec![open("a", &[("x", "1"), ("x", "3")]), text("t"), close("a")];
    let spans = compile(&words).unwrap();
    assert_eq!(attr(&spans[0], "x"), Some("3"));
    assert_eq!(spans[0].attributes.len(), 1);
}

#[test]
fn tokenize_reads_all_three_word_kinds() {
    let words = tokenize(r#"<b color={Color::RED} size={ {12} }> {"hi there"} </b>"#).unwrap();
    assert_eq!(words.len(), 3);
    match &words[0] {
        Word::TagOpen(name, attrs) => {
            assert_eq!(name, "b");
            assert_eq!(attrs.len(), 2);
            assert_eq!(attrs[0], (s("color"), s("Color::RED")));
            assert_eq!(attrs[1], (s("size"), s(" {12} ")));
        }
        _ => panic!("expected an opening tag"),
    }
    match &words[1] {
        Word::Text(t) => assert_eq!(t, "hi there"),
        _ => panic!("expected a text"),
    }
    match &words[2] {
        Word::TagClose(name) => assert_eq!(name, "b"),
        _ => panic!("expected a closing tag"),
    }
}

#[test]
fn tokenize_allows_space_inside_tokens() {
    let words = tokenize("< a  x = {1} >{ \"t\" }< / a >").unwrap();
    assert_eq!(words.len(), 3);
    match &words[0] {
        Word::TagOpen(name, attrs) => {
            assert_eq!(name, "a");
            assert_eq!(attrs[0], (s("x"), s("1")));
        }
        _ => panic!("expected an opening tag"),
    }
}

#[test]
fn malformed_words_are_grammar_errors() {
    assert_eq!(tokenize(r#"{"t""#).err(), Some(CompileError::Grammar));
    assert_eq!(tokenize(r#"{"t"#).err(), Some(CompileError::Grammar));
    assert_eq!(tokenize("{t}").err(), Some(CompileError::Grammar));
    assert_eq!(tokenize("<a x>").err(), Some(CompileError::Grammar));
    assert_eq!(tokenize("<a x=1>").err(), Some(CompileError::Grammar));
    assert_eq!(tokenize("<a x={1>").err(), Some(CompileError::Grammar));
    assert_eq!(tokenize("<a").err(), Some(CompileError::Grammar));
    assert_eq!(tokenize("</a").err(), Some(CompileError::Grammar));
    assert_eq!(tokenize("<1>").err(), Some(CompileError::Grammar));
}

#[test]
fn unrecognised_trailing_input_is_unterminated() {
    assert_eq!(tokenize("hello").err(), Some(CompileError::UnterminatedInput));
    assert_eq!(
        tokenize(r#"{"a"} trailing"#).err(),
        Some(CompileError::UnterminatedInput)
    );
    assert_eq!(
        sections(r#"<a> {"a"} </a> ;"#).err(),
        Some(CompileError::UnterminatedInput)
    );
}

#[test]
fn grammar_error_comes_before_scope_error() {
    assert_eq!(sections(r#"</a> {"t"#).err(), Some(CompileError::Grammar));
}

#[test]
fn text_keeps_braces_and_angles_verbatim() {
    let spans = sections(r#"{"a <b> {c}"}"#).unwrap();
    assert_eq!(spans[0].text, "a <b> {c}");
}

#[test]
fn scope_stack_push_pop_and_snapshots() {
    let mut stack = ScopeStack::new();
    assert_eq!(stack.depth(), 0);
    assert_eq!(stack.pop(&s("a")), Err(CompileError::UnstartedTag));
    stack.push(s("a"), vec![(s("x"), s("1")), (s("y"), s("1"))]);
    stack.push(s("b"), vec![(s("x"), s("2"))]);
    assert_eq!(stack.depth(), 2);
    assert_eq!(stack.snapshot_tags(), vec![s("a"), s("b")]);
    let mut attrs = stack.snapshot_attributes();
    attrs.sort();
    assert_eq!(attrs, vec![(s("x"), s("2")), (s("y"), s("1"))]);
    assert_eq!(stack.pop(&s("a")), Err(CompileError::MismatchedTag));
    assert_eq!(stack.depth(), 2);
    assert_eq!(stack.pop(&s("b")), Ok(()));
    let mut attrs = stack.snapshot_attributes();
    attrs.sort();
    assert_eq!(attrs, vec![(s("x"), s("1")), (s("y"), s("1"))]);
    assert_eq!(stack.pop(&s("a")), Ok(()));
    assert_eq!(stack.depth(), 0);
    assert!(stack.snapshot_tags().is_empty());
}

#[test]
fn lenient_reading_stops_at_trailing_input() {
    let words = tokenize_lenient(r#"<a> {"t"} </a> trailing {"u"}"#).unwrap();
    assert_eq!(words.len(), 3);
    assert!(matches!(&words[2], Word::TagClose(n) if n == "a"));
    assert_eq!(
        tokenize_lenient(r#"{"t"} <a"#).err(),
        Some(CompileError::Grammar)
    );
    assert_eq!(tokenize_lenient("just text").unwrap().len(), 0);
}
