use neutralize::messy::{classify_entry, EmptyValueError};
use neutralize::ordered::OrderedMap;
use neutralize::{collect_or_errors, resolve_scheme, Error, LinkedScheme, MessyScheme, Value};

fn section(pairs: Vec<(&str, &str)>) -> OrderedMap<String> {
    let mut map = OrderedMap::new();
    for (key, value) in pairs {
        map.insert(key.to_string(), value.to_string());
    }
    map
}

fn messy(
    variables: Vec<(&str, &str)>,
    overrides: Vec<(&str, &str)>,
    palette: Vec<(&str, &str)>,
) -> MessyScheme {
    MessyScheme {
        name: "Test".to_string(),
        author: "Somebody".to_string(),
        description: None,
        variables: section(variables),
        overrides: section(overrides),
        palette: section(palette),
    }
}

fn shown(value: &Value) -> String {
    match value {
        Value::Contains(color) => format!("color {}", color.0),
        Value::LinkedTo(name) => format!("link {}", name.0),
    }
}

fn slots(scheme: LinkedScheme) -> Vec<(String, String)> {
    scheme.slots.into_entries().into_iter().map(|(name, value)| (name, shown(&value))).collect()
}

fn expected(pairs: Vec<(&str, &str)>) -> Vec<(String, String)> {
    pairs.into_iter().map(|(name, value)| (name.to_string(), value.to_string())).collect()
}

fn keys(errors: &[EmptyValueError]) -> Vec<String> {
    errors.iter().map(|error| error.key.clone()).collect()
}

#[test]
fn a_value_that_begins_with_a_hash_is_a_colour() {
    let item = classify_entry("base00".to_string(), "#1d2021".to_string()).unwrap();
    assert_eq!(item.0 .0, "base00");
    assert!(matches!(item.1, Value::Contains(color) if color.0 == "#1d2021"));
}

#[test]
fn a_lone_hash_is_a_colour() {
    let item = classify_entry("odd".to_string(), "#".to_string()).unwrap();
    assert!(matches!(item.1, Value::Contains(color) if color.0 == "#"));
}

#[test]
fn any_other_value_is_a_link() {
    let item = classify_entry("background".to_string(), "base00".to_string()).unwrap();
    assert_eq!(item.0 .0, "background");
    assert!(matches!(item.1, Value::LinkedTo(name) if name.0 == "base00"));
}

#[test]
fn a_hash_further_on_makes_no_colour() {
    let item = classify_entry("a".to_string(), "b#ffffff".to_string()).unwrap();
    assert!(matches!(item.1, Value::LinkedTo(name) if name.0 == "b#ffffff"));
}

#[test]
fn an_empty_value_is_an_error() {
    let error = classify_entry("nothing".to_string(), String::new()).unwrap_err();
    assert_eq!(error.key, "nothing");
}

#[test]
fn the_sections_are_merged_in_order() {
    let linked = LinkedScheme::try_from(messy(
        vec![("fg", "base05"), ("bg", "base00")],
        vec![("cursor", "fg")],
        vec![("base00", "#000000"), ("base05", "#ffffff")],
    ))
    .unwrap();
    assert_eq!(linked.meta.name, "Test");
    assert_eq!(linked.meta.author, "Somebody");
    assert_eq!(linked.meta.description, None);
    assert_eq!(
        slots(linked),
        expected(vec![
            ("fg", "link base05"),
            ("bg", "link base00"),
            ("cursor", "link fg"),
            ("base00", "color #000000"),
            ("base05", "color #ffffff"),
        ])
    );
}

#[test]
fn a_later_section_wins_and_the_key_keeps_its_place() {
    let linked = LinkedScheme::try_from(messy(
        vec![("fg", "base05"), ("bg", "base00")],
        vec![("fg", "#123456")],
        vec![("bg", "fg"), ("base05", "#ffffff")],
    ))
    .unwrap();
    assert_eq!(
        slots(linked),
        expected(vec![("fg", "color #123456"), ("bg", "link fg"), ("base05", "color #ffffff")])
    );
}

#[test]
fn one_empty_value_fails_the_whole_scheme() {
    let errors = LinkedScheme::try_from(messy(
        vec![("fg", "base05"), ("bg", "")],
        vec![],
        vec![("base05", "#ffffff")],
    ))
    .unwrap_err();
    assert_eq!(keys(&errors), vec!["bg".to_string()]);
}

#[test]
fn every_empty_value_is_reported() {
    let errors = LinkedScheme::try_from(messy(
        vec![("a", ""), ("fg", "base05")],
        vec![("b", ""), ("fg", "")],
        vec![("base05", "#ffffff"), ("c", "")],
    ))
    .unwrap_err();
    assert_eq!(
        keys(&errors),
        vec!["a".to_string(), "b".to_string(), "fg".to_string(), "c".to_string()]
    );
}

#[test]
fn an_empty_value_fails_even_where_a_later_section_fills_it() {
    let errors = LinkedScheme::try_from(messy(
        vec![("fg", "")],
        vec![("fg", "#ffffff")],
        vec![],
    ))
    .unwrap_err();
    assert_eq!(keys(&errors), vec!["fg".to_string()]);
}

#[test]
fn a_scheme_without_values_links_to_an_empty_scheme() {
    let linked = LinkedScheme::try_from(messy(vec![], vec![], vec![])).unwrap();
    assert!(linked.slots.is_empty());
}

#[test]
fn successes_are_collected_in_order() {
    let items: Vec<Result<u32, String>> = vec![Ok(3), Ok(1), Ok(2)];
    assert_eq!(collect_or_errors(items), Ok(vec![3, 1, 2]));
}

#[test]
fn failures_are_collected_in_order_and_successes_dropped() {
    let items: Vec<Result<u32, String>> =
        vec![Ok(3), Err("first".to_string()), Ok(2), Err("second".to_string())];
    assert_eq!(collect_or_errors(items), Err(vec!["first".to_string(), "second".to_string()]));
}

#[test]
fn nothing_collects_to_nothing() {
    let items: Vec<Result<u32, String>> = vec![];
    assert_eq!(collect_or_errors(items), Ok(vec![]));
}

#[test]
fn a_raw_scheme_is_linked_and_resolved() {
    let resolved = resolve_scheme(messy(
        vec![("fg", "base05"), ("bg", "base00")],
        vec![("cursor", "fg")],
        vec![("base00", "#000000"), ("base05", "#ffffff")],
    ))
    .unwrap();
    let got: Vec<(String, String)> =
        resolved.slots.into_entries().into_iter().map(|(name, color)| (name, color.0)).collect();
    assert_eq!(
        got,
        expected(vec![
            ("fg", "#ffffff"),
            ("bg", "#000000"),
            ("cursor", "#ffffff"),
            ("base00", "#000000"),
            ("base05", "#ffffff"),
        ])
    );
}

#[test]
fn a_raw_scheme_with_an_empty_value_fails_at_linking() {
    let error = resolve_scheme(messy(vec![("fg", "")], vec![], vec![("bg", "ghost")])).unwrap_err();
    match error {
        Error::LinkError(errors) => assert_eq!(keys(&errors), vec!["fg".to_string()]),
        other => panic!("unexpected error: {:?}", other),
    }
}

#[test]
fn a_raw_scheme_with_a_dangling_link_fails_at_resolving() {
    let error = resolve_scheme(messy(vec![("fg", "ghost")], vec![], vec![])).unwrap_err();
    match error {
        Error::ResolveError(errors) => {
            assert_eq!(errors.len(), 1);
            assert!(matches!(&errors[0], neutralize::resolve::Error::LinkToNonexistent { from, to }
                if from.0.len() == 1 && from.0[0].0 == "fg" && to.0 == "ghost"));
        },
        other => panic!("unexpected error: {:?}", other),
    }
}
