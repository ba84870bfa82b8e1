use neutralize::ordered::OrderedMap;

fn filled(pairs: Vec<(&str, u32)>) -> OrderedMap<u32> {
    let mut map = OrderedMap::new();
    for (key, value) in pairs {
        map.insert(key.to_string(), value);
    }
    map
}

fn listed(map: &OrderedMap<u32>) -> Vec<(String, u32)> {
    let mut pairs = Vec::new();
    let mut position = 0;
    while let Some((name, value)) = map.get_index(position) {
        pairs.push((name.clone(), *value));
        position += 1;
    }
    pairs
}

fn expected(pairs: Vec<(&str, u32)>) -> Vec<(String, u32)> {
    pairs.into_iter().map(|(name, value)| (name.to_string(), value)).collect()
}

#[test]
fn a_new_map_is_empty() {
    let map: OrderedMap<u32> = OrderedMap::new();
    assert!(map.is_empty());
    assert_eq!(map.len(), 0);
    assert_eq!(map.get("a"), None);
    assert!(map.get_index(0).is_none());
}

#[test]
fn pairs_stay_in_the_order_of_insertion() {
    let map = filled(vec![("c", 3), ("a", 1), ("b", 2)]);
    assert_eq!(map.len(), 3);
    assert!(!map.is_empty());
    assert_eq!(listed(&map), expected(vec![("c", 3), ("a", 1), ("b", 2)]));
    assert!(map.get_index(3).is_none());
}

#[test]
fn a_value_is_found_under_its_name() {
    let map = filled(vec![("c", 3), ("a", 1), ("b", 2)]);
    assert_eq!(map.get("a"), Some(&1));
    assert_eq!(map.get("b"), Some(&2));
    assert_eq!(map.get("c"), Some(&3));
    assert_eq!(map.get("d"), None);
    assert_eq!(map.get(""), None);
}

#[test]
fn a_second_value_under_a_name_takes_the_place_of_the_first() {
    let mut map = filled(vec![("c", 3), ("a", 1), ("b", 2)]);
    assert_eq!(map.insert("a".to_string(), 10), Some(1));
    assert_eq!(map.insert("d".to_string(), 4), None);
    assert_eq!(map.len(), 4);
    assert_eq!(listed(&map), expected(vec![("c", 3), ("a", 10), ("b", 2), ("d", 4)]));
    assert_eq!(map.get("a"), Some(&10));
}

#[test]
fn the_last_pair_takes_the_place_of_a_removed_one() {
    let mut map = filled(vec![("a", 1), ("b", 2), ("c", 3), ("d", 4)]);
    assert_eq!(map.swap_remove("b"), Some(2));
    assert_eq!(listed(&map), expected(vec![("a", 1), ("d", 4), ("c", 3)]));
    assert_eq!(map.get("b"), None);
    assert_eq!(map.get("d"), Some(&4));
}

#[test]
fn removing_the_last_pair_moves_nothing() {
    let mut map = filled(vec![("a", 1), ("b", 2), ("c", 3)]);
    assert_eq!(map.swap_remove("c"), Some(3));
    assert_eq!(listed(&map), expected(vec![("a", 1), ("b", 2)]));
}

#[test]
fn removing_an_absent_name_changes_nothing() {
    let mut map = filled(vec![("a", 1), ("b", 2)]);
    assert_eq!(map.swap_remove("z"), None);
    assert_eq!(listed(&map), expected(vec![("a", 1), ("b", 2)]));
}

#[test]
fn a_removed_name_can_come_back_at_the_end() {
    let mut map = filled(vec![("a", 1), ("b", 2), ("c", 3)]);
    assert_eq!(map.swap_remove("a"), Some(1));
    assert_eq!(map.insert("a".to_string(), 7), None);
    assert_eq!(listed(&map), expected(vec![("c", 3), ("b", 2), ("a", 7)]));
    assert_eq!(map.swap_remove("c"), Some(3));
    assert_eq!(map.swap_remove("a"), Some(7));
    assert_eq!(map.swap_remove("b"), Some(2));
    assert!(map.is_empty());
}

#[test]
fn the_pairs_are_handed_over_in_order() {
    let mut map = filled(vec![("a", 1), ("b", 2), ("c", 3), ("d", 4)]);
    map.insert("b".to_string(), 20);
    map.swap_remove("a");
    assert_eq!(map.into_entries(), expected(vec![("d", 4), ("b", 20), ("c", 3)]));
}

#[test]
fn a_copy_holds_the_same_pairs() {
    let map = filled(vec![("c", 3), ("a", 1), ("b", 2)]);
    let copy = map.clone();
    assert_eq!(listed(&copy), listed(&map));
}
