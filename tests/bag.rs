use bevy::ecs::lifecycle::Add;
use bevy::ecs::observer::{Observer, On};
use html_lite::compile::sections;
use html_lite::section::{Attribute, Section, Sections};

fn handler() -> Observer {
    Observer::new(|_event: On<Add>| {})
}

fn string_of(a: Option<&Attribute>) -> Option<&str> {
    match a {
        Some(Attribute::String(v)) => Some(v.as_str()),
        _ => None,
    }
}

#[test]
fn observer_is_taken_once() {
    let mut section = Section::new("click me").with_attribute("click", Attribute::Observer(handler()));
    assert!(matches!(section.get_attribute("click"), Some(Attribute::Observer(_))));
    assert!(section.take_observer("click").is_some());
    assert!(section.take_observer("click").is_none());
    assert!(section.get_attribute("click").is_none());
}

#[test]
fn untyped_take_is_once_too() {
    let mut section = Section::new("t").with_attribute("color", Attribute::String("red".to_string()));
    match section.take_attribute("color") {
        Some(Attribute::String(v)) => assert_eq!(v, "red"),
        _ => panic!("expected the string value"),
    }
    assert!(section.take_attribute("color").is_none());
    assert!(section.get_attribute("color").is_none());
}

#[test]
fn kind_mismatch_is_a_miss_and_leaves_the_bag() {
    let mut section = Section::new("t")
        .with_attribute("over", Attribute::Observer(handler()))
        .with_attribute("color", Attribute::String("blue".to_string()));
    assert!(section.get_string("over").is_none());
    assert!(section.take_string("over").is_none());
    assert!(matches!(section.get_attribute("over"), Some(Attribute::Observer(_))));
    assert!(section.take_observer("color").is_none());
    assert_eq!(section.get_string("color").map(|v| v.as_str()), Some("blue"));
    assert_eq!(section.take_string("color"), Some("blue".to_string()));
    assert!(section.get_string("color").is_none());
    assert!(section.take_observer("over").is_some());
}

#[test]
fn missing_name_is_a_miss() {
    let mut section = Section::new("t");
    assert!(section.get_attribute("nothing").is_none());
    assert!(section.take_attribute("nothing").is_none());
    assert!(section.take_observer("nothing").is_none());
    assert!(section.get_string("nothing").is_none());
}

#[test]
fn setting_again_overwrites() {
    let mut section = Section::new("t").with_attribute("x", Attribute::String("1".to_string()));
    section.set_attribute("x", Attribute::String("2".to_string()));
    assert_eq!(string_of(section.get_attribute("x")), Some("2"));
    section.take_attribute("x");
    assert!(section.get_attribute("x").is_none());
}

#[test]
fn tags_and_text_are_kept() {
    let section = Section::new("hello").with_tag("b").with_tag("i");
    assert_eq!(section.text(), "hello");
    assert!(section.has_tag("b"));
    assert!(section.has_tag("i"));
    assert!(!section.has_tag("u"));
    assert_eq!(section.tags(), &vec!["b".to_string(), "i".to_string()]);
}

#[test]
fn compiled_span_becomes_section() {
    let spans = sections(r#"<b color={"red"}> <i> {"bold italic"} </i> </b>"#).unwrap();
    let section = Section::from_span(&spans[0]);
    assert_eq!(section.text(), "bold italic");
    assert!(section.has_tag("b"));
    assert!(section.has_tag("i"));
    assert_eq!(string_of(section.get_attribute("color")), Some("\"red\""));
    assert!(section.get_attribute("size").is_none());
}

#[test]
fn sections_hold_spans_in_order() {
    let list = Sections::new(vec![Section::new("one"), Section::new("two")]);
    assert_eq!(list.len(), 2);
    let texts: Vec<&str> = list.iter().iter().map(|s| s.text()).collect();
    assert_eq!(texts, vec!["one", "two"]);
    let single = Sections::new_single(Section::new("only"));
    assert_eq!(single.len(), 1);
    assert_eq!(single.iter()[0].text(), "only");
}

#[test]
fn sections_can_be_changed_in_place() {
    let mut list = Sections::new_single(Section::new("t").with_attribute("out", Attribute::Observer(handler())));
    for section in list.iter_mut().iter_mut() {
        assert!(section.take_observer("out").is_some());
    }
    assert!(list.iter()[0].get_attribute("out").is_none());
}
