use neutralize::ordered::OrderedMap;
use neutralize::resolve::Error;
use neutralize::{Color, LinkedScheme, Metadata, ResolvedScheme, SlotName, Value};

fn meta() -> Metadata {
    Metadata {
        name: "Test".to_string(),
        author: "Somebody".to_string(),
        description: Some("A scheme for tests".to_string()),
    }
}

fn color(text: &str) -> Value {
    Value::Contains(Color(text.to_string()))
}

fn link(text: &str) -> Value {
    Value::LinkedTo(SlotName(text.to_string()))
}

fn scheme(slots: Vec<(&str, Value)>) -> LinkedScheme {
    let mut map = OrderedMap::new();
    for (name, value) in slots {
        map.insert(name.to_string(), value);
    }
    LinkedScheme { meta: meta(), slots: map }
}

fn resolved(slots: Vec<(&str, Value)>) -> Vec<(String, String)> {
    let scheme = ResolvedScheme::try_from(scheme(slots)).expect("the scheme resolves");
    scheme.slots.into_entries().into_iter().map(|(name, color)| (name, color.0)).collect()
}

fn errors(slots: Vec<(&str, Value)>) -> Vec<Error> {
    ResolvedScheme::try_from(scheme(slots)).expect_err("the scheme does not resolve")
}

fn pairs(expected: Vec<(&str, &str)>) -> Vec<(String, String)> {
    expected.into_iter().map(|(name, color)| (name.to_string(), color.to_string())).collect()
}

fn names(error_names: &neutralize::MultipleSlotNames) -> Vec<String> {
    error_names.0.iter().map(|name| name.0.clone()).collect()
}

#[test]
fn colours_only_come_back_unchanged() {
    let got = resolved(vec![("a", color("#111111")), ("b", color("#222222")), ("c", color("#111111"))]);
    assert_eq!(got, pairs(vec![("a", "#111111"), ("b", "#222222"), ("c", "#111111")]));
}

#[test]
fn an_empty_scheme_resolves_to_an_empty_scheme() {
    let got = resolved(vec![]);
    assert_eq!(got, pairs(vec![]));
}

#[test]
fn metadata_is_carried_through() {
    let scheme = ResolvedScheme::try_from(scheme(vec![("a", color("#111111"))])).unwrap();
    assert_eq!(scheme.meta.name, "Test");
    assert_eq!(scheme.meta.author, "Somebody");
    assert_eq!(scheme.meta.description, Some("A scheme for tests".to_string()));
}

#[test]
fn a_chain_resolves_front_to_back() {
    let got = resolved(vec![("a", link("b")), ("b", link("c")), ("c", color("#abcdef"))]);
    assert_eq!(got, pairs(vec![("a", "#abcdef"), ("b", "#abcdef"), ("c", "#abcdef")]));
}

#[test]
fn a_chain_resolves_back_to_front() {
    let got = resolved(vec![("c", color("#abcdef")), ("b", link("c")), ("a", link("b"))]);
    assert_eq!(got, pairs(vec![("c", "#abcdef"), ("b", "#abcdef"), ("a", "#abcdef")]));
}

#[test]
fn a_chain_resolves_in_every_order() {
    let orders: Vec<[usize; 3]> =
        vec![[0, 1, 2], [0, 2, 1], [1, 0, 2], [1, 2, 0], [2, 0, 1], [2, 1, 0]];
    for order in orders {
        let slots = vec![("a", link("b")), ("b", link("c")), ("c", color("#abcdef"))];
        let mut shuffled = Vec::new();
        for at in order {
            shuffled.push(slots[at].clone());
        }
        let mut got = resolved(shuffled);
        got.sort();
        assert_eq!(got, pairs(vec![("a", "#abcdef"), ("b", "#abcdef"), ("c", "#abcdef")]));
    }
}

#[test]
fn a_long_chain_with_forward_links_resolves() {
    let got = resolved(vec![
        ("a", link("b")),
        ("c", link("d")),
        ("b", link("c")),
        ("e", color("#0000ff")),
        ("d", link("e")),
    ]);
    assert_eq!(
        got,
        pairs(vec![
            ("a", "#0000ff"),
            ("c", "#0000ff"),
            ("b", "#0000ff"),
            ("e", "#0000ff"),
            ("d", "#0000ff"),
        ])
    );
}

#[test]
fn the_result_keeps_the_order_of_the_scheme() {
    let got = resolved(vec![("z", link("m")), ("y", color("#000000")), ("m", color("#ffffff"))]);
    assert_eq!(got, pairs(vec![("z", "#ffffff"), ("y", "#000000"), ("m", "#ffffff")]));
}

#[test]
fn a_link_to_itself_is_reported_once() {
    let got = errors(vec![("x", link("x"))]);
    assert_eq!(got.len(), 1);
    match &got[0] {
        Error::LinkToItself { subject } => assert_eq!(subject.0, "x"),
        other => panic!("unexpected error: {:?}", other),
    }
}

#[test]
fn a_link_to_itself_among_colours_is_the_only_error() {
    let got = errors(vec![("a", color("#111111")), ("x", link("x")), ("b", link("a"))]);
    assert_eq!(got.len(), 1);
    assert!(matches!(&got[0], Error::LinkToItself { subject } if subject.0 == "x"));
}

#[test]
fn a_slot_that_waited_before_a_link_to_itself_leads_the_complaint() {
    let got = errors(vec![("a", link("x")), ("x", link("x"))]);
    assert_eq!(got.len(), 1);
    match &got[0] {
        Error::LinkToNonexistent { from, to } => {
            assert_eq!(names(from), vec!["a".to_string(), "x".to_string()]);
            assert_eq!(to.0, "x");
        },
        other => panic!("unexpected error: {:?}", other),
    }
}

#[test]
fn a_dangling_link_is_reported() {
    let got = errors(vec![("a", link("ghost"))]);
    assert_eq!(got.len(), 1);
    match &got[0] {
        Error::LinkToNonexistent { from, to } => {
            assert_eq!(names(from), vec!["a".to_string()]);
            assert_eq!(to.0, "ghost");
        },
        other => panic!("unexpected error: {:?}", other),
    }
}

#[test]
fn all_that_end_at_a_missing_slot_are_named_oldest_first() {
    let got = errors(vec![("a", link("b")), ("c", color("#123456")), ("b", link("ghost")), ("d", link("a"))]);
    assert_eq!(got.len(), 1);
    match &got[0] {
        Error::LinkToNonexistent { from, to } => {
            assert_eq!(names(from), vec!["a".to_string(), "b".to_string(), "d".to_string()]);
            assert_eq!(to.0, "ghost");
        },
        other => panic!("unexpected error: {:?}", other),
    }
}

#[test]
fn a_cycle_of_two_is_reported_once() {
    let got = errors(vec![("a", link("b")), ("b", link("a"))]);
    assert_eq!(got.len(), 1);
    match &got[0] {
        Error::InfiniteLoop { involved } => {
            let mut involved = names(involved);
            assert_eq!(involved, vec!["b".to_string(), "a".to_string()]);
            involved.sort();
            assert_eq!(involved, vec!["a".to_string(), "b".to_string()]);
        },
        other => panic!("unexpected error: {:?}", other),
    }
}

#[test]
fn a_cycle_of_three_names_the_slot_that_closed_it_and_its_target() {
    let got = errors(vec![("a", link("b")), ("b", link("c")), ("c", link("a"))]);
    assert_eq!(got.len(), 1);
    match &got[0] {
        Error::InfiniteLoop { involved } => {
            assert_eq!(names(involved), vec!["c".to_string(), "a".to_string()]);
        },
        other => panic!("unexpected error: {:?}", other),
    }
}

#[test]
fn two_cycles_are_reported_one_by_one() {
    let got = errors(vec![
        ("a", link("b")),
        ("c", link("d")),
        ("b", link("a")),
        ("d", link("c")),
    ]);
    assert_eq!(got.len(), 2);
    assert!(matches!(&got[0], Error::InfiniteLoop { involved }
        if names(involved) == vec!["b".to_string(), "a".to_string()]));
    assert!(matches!(&got[1], Error::InfiniteLoop { involved }
        if names(involved) == vec!["d".to_string(), "c".to_string()]));
}

#[test]
fn a_slot_that_links_into_a_cycle_adds_no_error() {
    let got = errors(vec![("a", link("b")), ("b", link("a")), ("c", link("a"))]);
    assert_eq!(got.len(), 1);
    assert!(matches!(&got[0], Error::InfiniteLoop { involved }
        if names(involved) == vec!["b".to_string(), "a".to_string()]));
}

#[test]
fn a_slot_that_waits_for_a_cycle_to_close_is_not_taken_for_its_target() {
    let got = errors(vec![("c", link("b")), ("a", link("b")), ("b", link("a"))]);
    assert_eq!(got.len(), 1);
    assert!(matches!(&got[0], Error::InfiniteLoop { involved }
        if names(involved) == vec!["b".to_string(), "a".to_string()]));
}

#[test]
fn independent_failures_are_all_reported() {
    let got = errors(vec![
        ("a", link("b")),
        ("b", link("a")),
        ("x", link("x")),
        ("d", link("ghost")),
        ("ok", color("#00ff00")),
    ]);
    assert_eq!(got.len(), 3);
    assert!(matches!(&got[0], Error::InfiniteLoop { involved }
        if names(involved) == vec!["b".to_string(), "a".to_string()]));
    assert!(matches!(&got[1], Error::LinkToItself { subject } if subject.0 == "x"));
    assert!(matches!(&got[2], Error::LinkToNonexistent { from, to }
        if names(from) == vec!["d".to_string()] && to.0 == "ghost"));
}

#[test]
fn links_fan_out_from_one_colour_in_every_order() {
    let slots = vec![("a", link("b")), ("c", link("b")), ("d", link("b")), ("b", color("#ffffff"))];
    let mut order: Vec<usize> = vec![0, 1, 2, 3];
    let mut seen = 0;
    // every order of four slots, by repeated next-permutation
    loop {
        let mut shuffled = Vec::new();
        for at in order.iter() {
            shuffled.push(slots[*at].clone());
        }
        let mut got = resolved(shuffled);
        got.sort();
        assert_eq!(
            got,
            pairs(vec![("a", "#ffffff"), ("b", "#ffffff"), ("c", "#ffffff"), ("d", "#ffffff")])
        );
        seen += 1;
        let mut i = order.len() - 1;
        while i > 0 && order[i - 1] >= order[i] {
            i -= 1;
        }
        if i == 0 {
            break;
        }
        let mut j = order.len() - 1;
        while order[j] <= order[i - 1] {
            j -= 1;
        }
        order.swap(i - 1, j);
        order[i..].reverse();
    }
    assert_eq!(seen, 24);
}

#[test]
fn a_link_to_a_settled_slot_is_settled_at_once() {
    let got = resolved(vec![("b", color("#ffffff")), ("a", link("b")), ("c", link("a"))]);
    assert_eq!(got, pairs(vec![("b", "#ffffff"), ("a", "#ffffff"), ("c", "#ffffff")]));
}

#[test]
fn a_scheme_without_links_is_projected() {
    let slots = vec![("base00", color("#000000")), ("base01", color("#010101"))];
    let outcome = ResolvedScheme::try_from(scheme(slots));
    assert!(outcome.is_ok());
    let got: Vec<(String, String)> = outcome
        .unwrap()
        .slots
        .into_entries()
        .into_iter()
        .map(|(name, color)| (name, color.0))
        .collect();
    assert_eq!(got, pairs(vec![("base00", "#000000"), ("base01", "#010101")]));
}
