use unicase_collections::key::Key;
use unicase_collections::unicase_btree_map::UniCaseBTreeMap;

fn key_texts(map: &UniCaseBTreeMap<u32>) -> Vec<&str> {
    map.keys().map(|k| k.as_str()).collect()
}

#[test]
fn btree_map_header_lookup() {
    let mut map = UniCaseBTreeMap::new();
    map.insert("Accept-Encoding", "gzip");
    assert_eq!(map.get("accept-encoding"), Some(&"gzip"));
    assert_eq!(map.get("ACCEPT-ENCODING"), Some(&"gzip"));
    assert_eq!(map.len(), 1);
}

#[test]
fn btree_map_iterates_in_folded_order() {
    let mut map = UniCaseBTreeMap::new();
    map.insert("delta", 4u32);
    map.insert("Bravo", 2);
    map.insert("alpha", 1);
    map.insert("Charlie", 3);
    assert_eq!(key_texts(&map), vec!["alpha", "Bravo", "Charlie", "delta"]);
    let values: Vec<u32> = map.values().cloned().collect();
    assert_eq!(values, vec![1, 2, 3, 4]);
    let pairs: Vec<(String, u32)> =
        map.iter().into_iter().map(|(k, v)| (k.as_str().to_string(), *v)).collect();
    assert_eq!(pairs[0], ("alpha".to_string(), 1));
    assert_eq!(pairs[3], ("delta".to_string(), 4));
}

#[test]
fn btree_map_update_keeps_first_text() {
    let mut map = UniCaseBTreeMap::new();
    assert_eq!(map.insert("A", 1u32), None);
    assert_eq!(map.insert("a", 2u32), Some(1));
    let (k, v) = map.get_key_value("A").unwrap();
    assert_eq!(k.as_str(), "A");
    assert_eq!(*v, 2);
    assert_eq!(map.len(), 1);
}

#[test]
fn btree_map_remove_twice() {
    let mut map = UniCaseBTreeMap::new();
    map.insert("x", 7u32);
    map.insert("y", 8u32);
    assert_eq!(map.remove("z"), None);
    assert_eq!(map.len(), 2);
    assert_eq!(map.remove("X"), Some(7));
    assert_eq!(map.remove("X"), None);
    let (k, v) = map.remove_entry("Y").unwrap();
    assert_eq!(k, Key::new("y".to_string()));
    assert_eq!(v, 8);
    assert!(map.is_empty());
}

#[test]
fn btree_map_get_mut_and_contains() {
    let mut map = UniCaseBTreeMap::new();
    map.insert("Key", 1u32);
    *map.get_mut("KEY").unwrap() += 5;
    assert_eq!(map.get("key"), Some(&6));
    assert!(map.contains_key("kEY".to_string()));
    assert!(!map.contains_key("Å"));
    assert!(map.get_mut("other").is_none());
    map.clear();
    assert!(map.is_empty());
}

#[test]
fn btree_map_retain_and_equality() {
    let mut a = UniCaseBTreeMap::from_iter(vec![("A", 1u32), ("B", 2), ("C", 3)]);
    let b = UniCaseBTreeMap::from_iter(vec![("c", 3u32), ("b", 2), ("a", 1)]);
    assert!(a == b);
    a.retain(|_, v| *v != 2);
    assert_eq!(key_texts(&a), vec!["A", "C"]);
    assert!(a != b);
}

#[test]
fn btree_map_extend_last_value_wins() {
    let mut map = UniCaseBTreeMap::new();
    map.insert("A", 1u32);
    map.extend(vec![("a", 2u32), ("B", 3), ("b", 4)]);
    assert_eq!(map.len(), 2);
    assert_eq!(map.get("A"), Some(&2));
    assert_eq!(map.get("B"), Some(&4));
    assert_eq!(key_texts(&map), vec!["A", "B"]);
}

#[test]
fn btree_map_numeric_keys() {
    let mut map = UniCaseBTreeMap::new();
    let mut i: u32 = 0;
    while i < 100 {
        map.insert(i.to_string(), i);
        i += 1;
    }
    assert_eq!(map.len(), 100);
    assert_eq!(map.get("42"), Some(&42));
    assert_eq!(map.get("dffd"), None);
    assert_eq!(map.get(&Key::new("7".to_string())), Some(&7));
}
