use unicase_collections::key::Key;
use unicase_collections::unicase_btree_set::UniCaseBTreeSet;

fn key(s: &str) -> Key {
    Key::new(s.to_string())
}

#[test]
fn unicase_btree_set_new() {
    let map = UniCaseBTreeSet::new();
    assert_eq!(map.len(), 0);
}

#[test]
fn unicase_btree_set_clear() {
    let mut map = UniCaseBTreeSet::new();
    assert_eq!(map.len(), 0);
    map.insert("A");
    assert_eq!(map.len(), 1);
    assert!(!map.is_empty());

    map.clear();
    assert_eq!(map.len(), 0);
    assert!(map.is_empty());
}

#[test]
fn unicase_btree_set_contains_str() {
    let mut map = UniCaseBTreeSet::new();
    map.insert("A");
    assert!(map.contains("A"));
    assert!(map.contains("a"));
    assert!(!map.contains("B"));
    assert!(!map.contains("Å"));
}

#[test]
fn unicase_btree_set_contains_string() {
    let mut map = UniCaseBTreeSet::new();
    map.insert("A");
    assert!(map.contains("A".to_string()));
    assert!(map.contains("a".to_string()));
    assert!(!map.contains("B".to_string()));
    assert!(!map.contains("Å".to_string()));
}

#[test]
fn unicase_btree_set_get_str() {
    let mut map = UniCaseBTreeSet::new();
    map.insert("A");
    assert_eq!(map.get("A"), Some(&key("A")));
    assert_eq!(map.get("a"), Some(&key("a")));
    assert!(map.get("B").is_none());
    assert!(map.get("Å").is_none());
}

#[test]
fn unicase_btree_set_get_string() {
    let mut map = UniCaseBTreeSet::new();
    map.insert("A");
    assert_eq!(map.get("A".to_string()).unwrap(), &key("a"));
}

#[test]
fn unicase_btree_set_get_unicase() {
    let mut map = UniCaseBTreeSet::new();
    map.insert("A");
    let uc = key("a");
    assert_eq!(map.get(uc).unwrap(), &key("A"));
}

#[test]
fn unicase_btree_set_get_key_value() {
    let mut map = UniCaseBTreeSet::new();
    map.insert("A");
    let result = map.get("a");
    assert_eq!(result, Some(&key("a")));
}

#[test]
fn unicase_btree_set_insert_str() {
    let mut map = UniCaseBTreeSet::new();
    let result = map.insert("A");
    assert_eq!(result, true);
    let result = map.insert("B");
    assert_eq!(result, true);
    let result = map.insert("A");
    assert_eq!(result, false);

    assert_eq!(map.len(), 2);
}

#[test]
fn unicase_btree_set_insert_string() {
    let mut map = UniCaseBTreeSet::new();
    map.insert("A".to_string());
    map.insert("B".to_string());
    assert_eq!(map.len(), 2);
}

#[test]
fn unicase_btree_set_is_empty() {
    let mut map = UniCaseBTreeSet::new();
    assert!(map.is_empty());
    map.insert("A");
    assert!(!map.is_empty());
}

#[test]
fn unicase_btree_set_iter() {
    let mut map = UniCaseBTreeSet::new();
    map.insert("A".to_string());
    map.insert("B".to_string());

    let mut elems: Vec<_> = map.iter().map(|v| v.clone()).collect();
    elems.sort_by(|a, b| a.compare(b));
    assert_eq!(elems, vec![key("a"), key("b")]);
}

#[test]
fn unicase_btree_set_keys() {
    let mut map = UniCaseBTreeSet::new();
    map.insert("A".to_string());
    map.insert("B".to_string());

    let mut keys: Vec<_> = map.iter().collect();
    keys.sort_by(|a, b| a.compare(b));
    assert_eq!(keys, vec![&key("A"), &key("B")]);
}

#[test]
fn unicase_btree_set_len() {
    let mut map = UniCaseBTreeSet::new();
    assert_eq!(map.len(), 0);
    map.insert("A".to_string());
    assert_eq!(map.len(), 1);
    map.insert("B".to_string());
    assert_eq!(map.len(), 2);
    map.clear();
    assert_eq!(map.len(), 0);
}

#[test]
fn unicase_btree_set_remove() {
    let mut map = UniCaseBTreeSet::new();
    map.insert("A".to_string());
    map.insert("B".to_string());
    assert_eq!(map.remove("b"), true);
    assert_eq!(map.remove("b"), false);
}

#[test]
fn unicase_btree_set_remove_entry() {
    let mut map = UniCaseBTreeSet::new();
    map.insert("A".to_string());
    map.insert("B".to_string());
    assert_eq!(map.remove("b"), true);
    assert_eq!(map.remove("b"), false);
}

#[test]
fn unicase_btree_set_partial_eq() {
    let mut map1 = UniCaseBTreeSet::new();
    map1.insert("A".to_string());
    map1.insert("B".to_string());
    map1.insert("C".to_string());

    let mut map2 = UniCaseBTreeSet::new();
    map2.insert("C".to_string());
    map2.insert("B".to_string());
    map2.insert("A".to_string());

    assert!(map1 == map2);
}

#[test]
fn unicase_btree_set_extend() {
    let mut map = UniCaseBTreeSet::new();
    map.insert("A".to_string());

    let v = vec!["A", "B", "C"];

    map.extend(v);

    assert_eq!(map.len(), 3);
    assert_eq!(map.get("a"), Some(&key("a")));
}

#[test]
fn unicase_btree_set_into_iterator_impls() {
    let mut map = UniCaseBTreeSet::new();
    map.insert("A");
    map.insert("B");

    for _ in &map {}
    for _ in map {}
}

#[test]
fn unicase_btree_set_from_iterator() {
    let v = vec!["A", "B", "C"];

    let _map: UniCaseBTreeSet = UniCaseBTreeSet::from_iter(v);
}

#[test]
fn btree_set_iterates_in_folded_order() {
    let mut set = UniCaseBTreeSet::new();
    set.insert("delta");
    set.insert("Bravo");
    set.insert("alpha");
    set.insert("Charlie");
    set.insert("ALPHA");
    let texts: Vec<&str> = set.iter().map(|k| k.as_str()).collect();
    assert_eq!(texts, vec!["alpha", "Bravo", "Charlie", "delta"]);
}

#[test]
fn btree_set_keeps_first_casing() {
    let mut set = UniCaseBTreeSet::new();
    assert!(set.insert("Accept-Encoding"));
    assert!(!set.insert("ACCEPT-ENCODING"));
    assert_eq!(set.get("accept-encoding").unwrap().as_str(), "Accept-Encoding");
    assert_eq!(set.len(), 1);
}

#[test]
fn btree_set_unicode_folding() {
    let mut set = UniCaseBTreeSet::new();
    set.insert("Straße");
    assert!(set.contains("STRASSE"));
    assert!(set.contains("straße"));
    set.insert("Ωmega");
    assert!(set.contains("ωMEGA"));
    assert_eq!(set.len(), 2);
}

#[test]
fn btree_set_retain_keeps_order() {
    let mut set = UniCaseBTreeSet::from_iter(vec!["b", "A", "c", "D"]);
    set.retain(|k| k.as_str() != "c");
    let texts: Vec<&str> = set.iter().map(|k| k.as_str()).collect();
    assert_eq!(texts, vec!["A", "b", "D"]);
}

#[test]
fn btree_set_remove_absent_changes_nothing() {
    let mut set = UniCaseBTreeSet::from_iter(vec!["x", "Y"]);
    assert!(!set.remove("z"));
    assert_eq!(set.len(), 2);
    assert!(set.remove("y"));
    assert!(!set.remove("y"));
    assert_eq!(set.len(), 1);
}

#[test]
fn btree_set_empty_key() {
    let mut set = UniCaseBTreeSet::new();
    assert!(set.insert(""));
    assert!(set.contains(String::new()));
    assert!(!set.insert(""));
    assert_eq!(set.iter().next().unwrap().as_str(), "");
}

#[test]
fn btree_set_unequal_sets() {
    let a = UniCaseBTreeSet::from_iter(vec!["a", "b"]);
    let b = UniCaseBTreeSet::from_iter(vec!["A", "C"]);
    let c = UniCaseBTreeSet::from_iter(vec!["A"]);
    assert!(a != b);
    assert!(a != c);
}
