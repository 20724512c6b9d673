use unicase_collections::key::Key;
use unicase_collections::unicase_index_set::UniCaseIndexSet;

fn key(s: &str) -> Key {
    Key::new(s.to_string())
}

#[test]
fn unicase_index_set_new() {
    let map = UniCaseIndexSet::new();
    assert_eq!(map.len(), 0);
}

#[test]
fn unicase_index_set_clear() {
    let mut map = UniCaseIndexSet::new();
    assert_eq!(map.len(), 0);
    map.insert("A");
    assert_eq!(map.len(), 1);
    assert!(!map.is_empty());

    map.clear();
    assert_eq!(map.len(), 0);
    assert!(map.is_empty());
}

#[test]
fn unicase_index_set_contains_str() {
    let mut map = UniCaseIndexSet::new();
    map.insert("A");
    assert!(map.contains("A"));
    assert!(map.contains("a"));
    assert!(!map.contains("B"));
    assert!(!map.contains("Å"));
}

#[test]
fn unicase_index_set_contains_string() {
    let mut map = UniCaseIndexSet::new();
    map.insert("A");
    assert!(map.contains("A".to_string()));
    assert!(map.contains("a".to_string()));
    assert!(!map.contains("B".to_string()));
    assert!(!map.contains("Å".to_string()));
}

#[test]
fn unicase_index_set_get_str() {
    let mut map = UniCaseIndexSet::new();
    map.insert("A");
    assert_eq!(map.get("A"), Some(key("A")));
    assert_eq!(map.get("a"), Some(key("a")));
    assert!(map.get("B").is_none());
    assert!(map.get("Å").is_none());
}

#[test]
fn unicase_index_set_get_string() {
    let mut map = UniCaseIndexSet::new();
    map.insert("A");
    assert_eq!(map.get("A".to_string()).unwrap(), key("a"));
}

#[test]
fn unicase_index_set_get_unicase() {
    let mut map = UniCaseIndexSet::new();
    map.insert("A");
    let uc = key("a");
    assert_eq!(map.get(uc).unwrap(), key("A"));
}

#[test]
fn unicase_index_set_get_key_value() {
    let mut map = UniCaseIndexSet::new();
    map.insert("A");
    let result = map.get("a");
    assert_eq!(result, Some(key("a")));
}

#[test]
fn unicase_index_set_insert_str() {
    let mut map = UniCaseIndexSet::new();
    let result = map.insert("A");
    assert_eq!(result, true);
    let result = map.insert("B");
    assert_eq!(result, true);
    let result = map.insert("A");
    assert_eq!(result, false);

    assert_eq!(map.len(), 2);
}

#[test]
fn unicase_index_set_insert_string() {
    let mut map = UniCaseIndexSet::new();
    map.insert("A".to_string());
    map.insert("B".to_string());
    assert_eq!(map.len(), 2);
}

#[test]
fn unicase_index_set_is_empty() {
    let mut map = UniCaseIndexSet::new();
    assert!(map.is_empty());
    map.insert("A");
    assert!(!map.is_empty());
}

#[test]
fn unicase_index_set_iter() {
    let mut map = UniCaseIndexSet::new();
    map.insert("A".to_string());
    map.insert("B".to_string());

    let mut elems: Vec<_> = map.iter().iter().map(|v| v.clone()).collect();
    elems.sort_by(|a, b| a.compare(b));
    assert_eq!(elems, vec![key("a"), key("b")]);
}

#[test]
fn unicase_index_set_keys() {
    let mut map = UniCaseIndexSet::new();
    map.insert("A".to_string());
    map.insert("B".to_string());

    let all = map.iter();
    let mut keys: Vec<_> = all.iter().collect();
    keys.sort_by(|a, b| a.compare(b));
    assert_eq!(keys, vec![&key("A"), &key("B")]);
}

#[test]
fn unicase_index_set_len() {
    let mut map = UniCaseIndexSet::new();
    assert_eq!(map.len(), 0);
    map.insert("A".to_string());
    assert_eq!(map.len(), 1);
    map.insert("B".to_string());
    assert_eq!(map.len(), 2);
    map.clear();
    assert_eq!(map.len(), 0);
}

#[test]
fn unicase_index_set_remove() {
    let mut map = UniCaseIndexSet::new();
    map.insert("A".to_string());
    map.insert("B".to_string());
    assert_eq!(map.remove("b"), true);
    assert_eq!(map.remove("b"), false);
}

#[test]
fn unicase_index_set_remove_entry() {
    let mut map = UniCaseIndexSet::new();
    map.insert("A".to_string());
    map.insert("B".to_string());
    assert_eq!(map.remove("b"), true);
    assert_eq!(map.remove("b"), false);
}

#[test]
fn unicase_index_set_partial_eq() {
    let mut map1 = UniCaseIndexSet::new();
    map1.insert("A".to_string());
    map1.insert("B".to_string());
    map1.insert("C".to_string());

    let mut map2 = UniCaseIndexSet::new();
    map2.insert("C".to_string());
    map2.insert("B".to_string());
    map2.insert("A".to_string());

    assert_eq!(map1, map2);
}

#[test]
fn unicase_index_set_extend() {
    let mut map = UniCaseIndexSet::new();
    map.insert("A".to_string());

    let v = vec!["A", "B", "C"];

    map.extend(v);

    assert_eq!(map.len(), 3);
    assert_eq!(map.get("a"), Some(key("a")));
}

#[test]
fn unicase_index_set_into_iterator_impls() {
    let mut map = UniCaseIndexSet::new();
    map.insert("A");
    map.insert("B");

    for _ in &map {}
    for _ in map {}
}

#[test]
fn unicase_index_set_from_iterator() {
    let v = vec!["A", "B", "C"];

    let _map: UniCaseIndexSet = UniCaseIndexSet::from_iter(v);
}

fn texts(set: &UniCaseIndexSet) -> Vec<String> {
    set.iter().into_iter().map(|k| k.into_string()).collect()
}

#[test]
fn index_set_reinsert_moves_to_end() {
    let mut set = UniCaseIndexSet::new();
    set.insert("A");
    set.insert("B");
    set.insert("C");
    assert!(set.remove("B"));
    assert!(set.insert("B"));
    assert_eq!(texts(&set), vec!["A", "C", "B"]);
}

#[test]
fn index_set_keeps_insertion_order_and_first_casing() {
    let set = UniCaseIndexSet::from_iter(vec!["zeta", "Alpha", "ALPHA", "mu"]);
    assert_eq!(texts(&set), vec!["zeta", "Alpha", "mu"]);
}

#[test]
fn index_set_get_returns_stored_text() {
    let mut set = UniCaseIndexSet::new();
    set.insert("Accept-Encoding");
    assert_eq!(set.get("ACCEPT-ENCODING").unwrap().as_str(), "Accept-Encoding");
}

#[test]
fn index_set_retain_keeps_order() {
    let mut set = UniCaseIndexSet::from_iter(vec!["d", "b", "c", "a"]);
    set.retain(|k| k.as_str() != "b");
    assert_eq!(texts(&set), vec!["d", "c", "a"]);
}

#[test]
fn index_set_remove_middle_keeps_order() {
    let mut set = UniCaseIndexSet::from_iter(vec!["a", "b", "c", "d"]);
    assert!(set.remove("B"));
    assert_eq!(texts(&set), vec!["a", "c", "d"]);
}

#[test]
fn index_set_unequal_sets() {
    let a = UniCaseIndexSet::from_iter(vec!["a", "b"]);
    let b = UniCaseIndexSet::from_iter(vec!["A", "C"]);
    assert!(a != b);
}
