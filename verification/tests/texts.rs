use neutralize::messy::EmptyValueError;
use neutralize::{Color, Error, MultipleSlotNames, SlotName, Value};

fn name(text: &str) -> SlotName {
    SlotName(text.to_string())
}

fn names(texts: Vec<&str>) -> MultipleSlotNames {
    MultipleSlotNames(texts.into_iter().map(name).collect())
}

#[test]
fn a_name_is_shown_between_quotes() {
    assert_eq!(name("base00").to_string(), "\"base00\"");
    assert_eq!(name("").to_string(), "\"\"");
}

#[test]
fn names_are_shown_between_brackets() {
    assert_eq!(names(vec![]).to_string(), "[]");
    assert_eq!(names(vec!["a"]).to_string(), "[\"a\"]");
    assert_eq!(names(vec!["a", "b", "c"]).to_string(), "[\"a\", \"b\", \"c\"]");
}

#[test]
fn an_empty_value_names_its_key() {
    let error = EmptyValueError { key: "fg".to_string() };
    assert_eq!(
        error.to_string(),
        "key 'fg' had an empty value, which can neither link to another slot nor specify a color"
    );
}

#[test]
fn a_loop_names_those_involved() {
    let error = neutralize::resolve::Error::InfiniteLoop { involved: names(vec!["b", "a"]) };
    assert_eq!(
        error.to_string(),
        "Noticed a neverending loop of slot links, involved are [\"b\", \"a\"]"
    );
}

#[test]
fn a_dangling_link_names_both_ends() {
    let error = neutralize::resolve::Error::LinkToNonexistent {
        from: names(vec!["a", "d"]),
        to: name("ghost"),
    };
    assert_eq!(error.to_string(), "[\"a\", \"d\"] link to \"ghost\", which doesn't exist");
}

#[test]
fn a_link_to_itself_names_the_slot() {
    let error = neutralize::resolve::Error::LinkToItself { subject: name("x") };
    assert_eq!(error.to_string(), "Impossible to resolve \"x\", which links to itself");
}

#[test]
fn a_failure_to_read_is_reported_on_one_line() {
    let error = Error::SerdeYamlError("missing field `name`".to_string());
    assert_eq!(error.to_string(), "Could not de/serialize scheme YAML: missing field `name`\n");
}

#[test]
fn a_failure_to_link_is_reported_line_by_line() {
    let error = Error::from(vec![
        EmptyValueError { key: "a".to_string() },
        EmptyValueError { key: "b".to_string() },
    ]);
    assert_eq!(
        error.to_string(),
        "Could not meaningfully structure scheme:\n\
         \tkey 'a' had an empty value, which can neither link to another slot nor specify a color\n\
         \tkey 'b' had an empty value, which can neither link to another slot nor specify a color\n"
    );
}

#[test]
fn a_failure_to_resolve_is_reported_line_by_line() {
    let error = Error::from(vec![
        neutralize::resolve::Error::InfiniteLoop { involved: names(vec!["b", "a"]) },
        neutralize::resolve::Error::LinkToItself { subject: name("x") },
    ]);
    assert_eq!(
        error.to_string(),
        "Could not resolve scheme:\n\
         \tNoticed a neverending loop of slot links, involved are [\"b\", \"a\"]\n\
         \tImpossible to resolve \"x\", which links to itself\n"
    );
}

#[test]
fn a_failure_without_findings_is_only_its_headline() {
    let error = Error::LinkError(vec![]);
    assert_eq!(error.to_string(), "Could not meaningfully structure scheme:\n");
}

#[test]
fn names_and_colours_turn_into_values() {
    assert!(matches!(Value::from(name("a")), Value::LinkedTo(target) if target.0 == "a"));
    assert!(matches!(Value::from(Color("#fff".to_string())), Value::Contains(color)
        if color.0 == "#fff"));
    assert_eq!(MultipleSlotNames::from(vec![name("a"), name("b")]), names(vec!["a", "b"]));
}

#[test]
fn copies_are_equal_to_what_they_copy() {
    assert_eq!(name("a").clone(), name("a"));
    assert_eq!(Color("#fff".to_string()).clone(), Color("#fff".to_string()));
    assert_eq!(names(vec!["a", "b"]).clone(), names(vec!["a", "b"]));
    assert!(name("a") < name("b"));
}
