use unicase_collections::key::Key;
use unicase_collections::unicase_index_map::UniCaseIndexMap;

fn key(s: &str) -> Key {
    Key::new(s.to_string())
}

#[test]
fn unicase_index_map_new() {
    let map = UniCaseIndexMap::<u8>::new();
    assert_eq!(map.len(), 0);
}

#[test]
fn unicase_index_map_clear() {
    let mut map = UniCaseIndexMap::<u8>::new();
    assert_eq!(map.len(), 0);
    map.insert("A", 1);
    assert_eq!(map.len(), 1);
    assert!(!map.is_empty());

    map.clear();
    assert_eq!(map.len(), 0);
    assert!(map.is_empty());
}

#[test]
fn contains_key_str() {
    let mut map = UniCaseIndexMap::<u8>::new();
    map.insert("A", 1);
    assert!(map.contains_key("A"));
    assert!(map.contains_key("a"));
    assert!(!map.contains_key("B"));
    assert!(!map.contains_key("Å"));
}

#[test]
fn contains_key_string() {
    let mut map = UniCaseIndexMap::<u8>::new();
    map.insert("A", 1);
    assert!(map.contains_key("A".to_string()));
    assert!(map.contains_key("a".to_string()));
    assert!(!map.contains_key("B".to_string()));
    assert!(!map.contains_key("Å".to_string()));
}

#[test]
fn entry() {
    let mut map = UniCaseIndexMap::<u8>::new();
    map.insert("A", 1);
    let entry = map.entry("A");
    assert_eq!(entry.key(), &key("A"));
}

#[test]
fn unicase_index_map_get_str() {
    let mut map = UniCaseIndexMap::<u8>::new();
    map.insert("A", 1);
    assert_eq!(map.get("A").unwrap(), &1);
    assert_eq!(map.get("a").unwrap(), &1);
    assert!(map.get("B").is_none());
    assert!(map.get("Å").is_none());
}

#[test]
fn unicase_index_map_get_string() {
    let mut map = UniCaseIndexMap::<u8>::new();
    map.insert("A", 1);
    assert_eq!(map.get("A".to_string()).unwrap(), &1);
}

#[test]
fn unicase_index_map_get_unicase() {
    let mut map = UniCaseIndexMap::<u8>::new();
    map.insert("A", 1);
    let uc = key("a");
    assert_eq!(map.get(uc).unwrap(), &1);
}

#[test]
fn unicase_index_map_get_key_value() {
    let mut map = UniCaseIndexMap::<u8>::new();
    map.insert("A", 1);
    let result = map.get_key_value("a").unwrap();
    assert_eq!(result.0, key("a"));
    assert_eq!(result.1, &1);
}

#[test]
fn get_mut() {
    let mut map = UniCaseIndexMap::<u8>::new();
    map.insert("A", 1);
    assert_eq!(map.get_mut("a"), Some(&mut 1));
    assert!(map.get_mut("C").is_none());
}

#[test]
fn unicase_index_map_insert_str() {
    let mut map = UniCaseIndexMap::<u8>::new();
    let result = map.insert("A", 1);
    assert!(result.is_none());
    let result = map.insert("B", 2);
    assert!(result.is_none());
    let result = map.insert("A", 20);
    assert_eq!(result, Some(1));

    assert_eq!(map.len(), 2);
}

#[test]
fn unicase_index_map_insert_string() {
    let mut map = UniCaseIndexMap::<u8>::new();
    map.insert("A".to_string(), 1);
    map.insert("B".to_string(), 2);
    assert_eq!(map.len(), 2);
}

#[test]
fn unicase_index_map_is_empty() {
    let mut map = UniCaseIndexMap::<u8>::new();
    assert!(map.is_empty());
    map.insert("A", 1);
    assert!(!map.is_empty());
}

#[test]
fn unicase_index_map_iter() {
    let mut map = UniCaseIndexMap::<u8>::new();
    map.insert("A".to_string(), 1);
    map.insert("B".to_string(), 2);

    let mut elems: Vec<_> = map.iter().into_iter().map(|(_, v)| v.clone()).collect();
    elems.sort();
    assert_eq!(elems, vec![1, 2]);
}

#[test]
fn iter_mut() {
    let mut map = UniCaseIndexMap::<u8>::new();
    map.insert("A".to_string(), 1);
    map.insert("B".to_string(), 2);

    let (_, values) = map.iter_mut();
    for v in values.iter_mut() {
        *v += 10;
    }

    let mut elems: Vec<_> = map.iter().into_iter().map(|(_, v)| v.clone()).collect();
    elems.sort();
    assert_eq!(elems, vec![11, 12]);
}

#[test]
fn unicase_index_map_keys() {
    let mut map = UniCaseIndexMap::<u8>::new();
    map.insert("A".to_string(), 1);
    map.insert("B".to_string(), 2);

    let all = map.keys();
    let mut keys: Vec<_> = all.iter().collect();
    keys.sort_by(|a, b| a.compare(b));
    assert_eq!(keys, vec![&key("A"), &key("B")]);
}

#[test]
fn unicase_index_map_len() {
    let mut map = UniCaseIndexMap::<u8>::new();
    assert_eq!(map.len(), 0);
    map.insert("A".to_string(), 1);
    assert_eq!(map.len(), 1);
    map.insert("B".to_string(), 2);
    assert_eq!(map.len(), 2);
    map.clear();
    assert_eq!(map.len(), 0);
}

#[test]
fn unicase_index_map_remove() {
    let mut map = UniCaseIndexMap::<u8>::new();
    map.insert("A".to_string(), 1);
    map.insert("B".to_string(), 2);
    assert_eq!(map.remove("b"), Some(2));
    assert_eq!(map.remove("b"), None);
}

#[test]
fn unicase_index_map_remove_entry() {
    let mut map = UniCaseIndexMap::<u8>::new();
    map.insert("A".to_string(), 1);
    map.insert("B".to_string(), 2);
    assert_eq!(map.remove("b"), Some(2));
    assert_eq!(map.remove("b"), None);
}

#[test]
fn retain() {
    let mut map = UniCaseIndexMap::<u8>::new();
    map.insert("A".to_string(), 1);
    map.insert("B".to_string(), 2);
    map.insert("C".to_string(), 1);

    map.retain(|_, v| v == &1);

    assert_eq!(map.len(), 2);
    assert_eq!(map.get("A"), Some(&1));
    assert_eq!(map.get("B"), None);
    assert_eq!(map.get("C"), Some(&1));
}

#[test]
fn values() {
    let mut map = UniCaseIndexMap::<u8>::new();
    map.insert("A".to_string(), 1);
    map.insert("B".to_string(), 2);
    map.insert("C".to_string(), 1);

    let mut values: Vec<_> = map.values().cloned().collect();
    values.sort();
    assert_eq!(values, vec![1, 1, 2]);
}

#[test]
fn values_mut() {
    let mut map = UniCaseIndexMap::<u8>::new();
    map.insert("A".to_string(), 1);
    map.insert("B".to_string(), 2);
    map.insert("C".to_string(), 1);

    for v in map.values_mut() {
        *v += 10;
    }

    let mut values: Vec<_> = map.values().cloned().collect();
    values.sort();
    assert_eq!(values, vec![11, 11, 12]);
}

#[test]
fn unicase_index_map_partial_eq() {
    let mut map1 = UniCaseIndexMap::<u8>::new();
    map1.insert("A".to_string(), 1);
    map1.insert("B".to_string(), 2);
    map1.insert("C".to_string(), 3);

    let mut map2 = UniCaseIndexMap::<u8>::new();
    map2.insert("C".to_string(), 3);
    map2.insert("B".to_string(), 2);
    map2.insert("A".to_string(), 1);

    assert_eq!(map1, map2);
}

#[test]
fn unicase_index_map_extend() {
    let mut map = UniCaseIndexMap::<u8>::new();
    map.insert("A".to_string(), 1);

    let v = vec![("A", 2), ("B", 3), ("C", 4)];

    map.extend(v);

    assert_eq!(map.len(), 3);
    assert_eq!(map.get("a"), Some(&2));
}

#[test]
fn index() {
    let mut map = UniCaseIndexMap::<u8>::new();
    map.insert("A", 1);
    map.insert("B", 2);

    assert_eq!(*map.index("a"), 1);
    assert_eq!(*map.index("b"), 2);
}

#[test]
fn unicase_index_map_into_iterator_impls() {
    let mut map = UniCaseIndexMap::<u8>::new();
    map.insert("A", 1);
    map.insert("B", 2);

    for _ in map.iter() {}
    for _ in map.values_mut() {}
    for _ in map.keys() {}
}

#[test]
fn unicase_index_map_from_iterator() {
    let v = vec![("A", 2), ("B", 3), ("C", 4)];

    let _map: UniCaseIndexMap<u8> = UniCaseIndexMap::from_iter(v);
}

fn key_texts(map: &UniCaseIndexMap<u32>) -> Vec<String> {
    map.keys().into_iter().map(|k| k.into_string()).collect()
}

#[test]
fn header_lookup_in_any_casing() {
    let mut map = UniCaseIndexMap::new();
    map.insert("Accept-Encoding", "gzip");
    assert_eq!(map.get("accept-encoding"), Some(&"gzip"));
    assert_eq!(map.get("ACCEPT-ENCODING"), Some(&"gzip"));
    assert_eq!(map.len(), 1);
}

#[test]
fn update_keeps_first_key_text() {
    let mut map = UniCaseIndexMap::new();
    assert_eq!(map.insert("A", 1u32), None);
    assert_eq!(map.insert("a", 2u32), Some(1));
    let (k, v) = map.get_key_value("A").unwrap();
    assert_eq!(k.as_str(), "A");
    assert_eq!(*v, 2);
    assert_eq!(map.len(), 1);
}

#[test]
fn remove_absent_then_twice() {
    let mut map = UniCaseIndexMap::new();
    map.insert("x", 7u32);
    assert_eq!(map.remove("y"), None);
    assert_eq!(key_texts(&map), vec!["x"]);
    assert_eq!(map.remove("X"), Some(7));
    assert_eq!(map.remove("X"), None);
    assert!(map.is_empty());
}

#[test]
fn reinsert_moves_to_end() {
    let mut map = UniCaseIndexMap::new();
    map.insert("A", 1u32);
    map.insert("B", 2u32);
    map.insert("C", 3u32);
    assert_eq!(map.remove("B"), Some(2));
    map.insert("B", 4u32);
    assert_eq!(key_texts(&map), vec!["A", "C", "B"]);
}

#[test]
fn remove_keeps_order_of_the_rest() {
    let mut map = UniCaseIndexMap::from_iter(vec![("a", 1u32), ("b", 2), ("c", 3), ("d", 4)]);
    let (k, v) = map.remove_entry("B").unwrap();
    assert_eq!(k.as_str(), "b");
    assert_eq!(v, 2);
    assert_eq!(key_texts(&map), vec!["a", "c", "d"]);
}

#[test]
fn equal_regardless_of_order_and_casing() {
    let a = UniCaseIndexMap::from_iter(vec![("A", 1u32), ("B", 2), ("C", 3)]);
    let b = UniCaseIndexMap::from_iter(vec![("c", 3u32), ("b", 2), ("a", 1)]);
    assert_eq!(a, b);
    let c = UniCaseIndexMap::from_iter(vec![("c", 3u32), ("b", 2), ("a", 9)]);
    assert_ne!(a, c);
    let d = UniCaseIndexMap::from_iter(vec![("c", 3u32), ("b", 2)]);
    assert_ne!(a, d);
}

#[test]
fn bulk_build_last_value_wins() {
    let map = UniCaseIndexMap::from_iter(vec![("Key", 1u32), ("other", 2), ("KEY", 3), ("key", 4)]);
    assert_eq!(map.len(), 2);
    assert_eq!(map.get("kEy"), Some(&4));
    assert_eq!(key_texts(&map), vec!["Key", "other"]);
}

#[test]
fn entry_or_insert_occupied_and_vacant() {
    let mut map = UniCaseIndexMap::new();
    map.insert("One", 1u32);
    let e = map.entry("ONE");
    assert_eq!(e.key().as_str(), "One");
    *map.or_insert(e, 0) += 10;
    assert_eq!(map.get("one"), Some(&11));
    let e = map.entry("Two");
    assert_eq!(e.key().as_str(), "Two");
    let v = map.or_insert(e, 5);
    *v += 1;
    assert_eq!(map.get("TWO"), Some(&6));
    assert_eq!(key_texts(&map), vec!["One", "Two"]);
}

#[test]
fn unicode_keys_fold() {
    let mut map = UniCaseIndexMap::new();
    map.insert("ΣΊΣΥΦΟΣ", 1u32);
    assert_eq!(map.get("σίσυφοσ"), Some(&1));
    map.insert("Maße", 2u32);
    assert_eq!(map.get("MASSE"), Some(&2));
    assert!(!map.contains_key("Mase"));
}
