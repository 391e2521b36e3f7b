use glyphon::RecentlyUsedMap;

#[test]
fn insert() {
    let mut rus = RecentlyUsedMap::new();
    rus.insert("a", ());
    rus.insert("b", ());
    rus.insert("c", ());
    assert_eq!(rus.pop(), Some(("a", ())));
    assert_eq!(rus.pop(), Some(("b", ())));
    assert_eq!(rus.pop(), Some(("c", ())));
    assert_eq!(rus.pop(), None);
}

#[test]
fn reinsert() {
    let mut rus = RecentlyUsedMap::new();
    rus.insert("a", ());
    rus.insert("b", ());
    rus.insert("c", ());
    rus.insert("a", ());
    assert_eq!(rus.pop(), Some(("b", ())));
    assert_eq!(rus.pop(), Some(("c", ())));
    assert_eq!(rus.pop(), Some(("a", ())));
    assert_eq!(rus.pop(), None);
}

#[test]
fn remove() {
    let mut rus = RecentlyUsedMap::new();
    rus.insert("a", ());
    rus.insert("b", ());
    rus.remove(&"a");
    rus.remove(&"c");
    assert_eq!(rus.pop(), Some(("b", ())));
    assert_eq!(rus.pop(), None);
}

#[test]
fn reuses_free_nodes() {
    let mut rus = RecentlyUsedMap::new();
    rus.insert("a", ());
    rus.insert("b", ());
    rus.insert("c", ());
    rus.remove(&"b");
    rus.remove(&"c");
    rus.remove(&"a");
    rus.insert("d", ());
    rus.insert("e", ());
    rus.insert("f", ());
    assert_eq!(rus.num_nodes(), 3);
}

#[test]
fn get_and_contains_key_see_values() {
    let mut rus = RecentlyUsedMap::new();
    rus.insert(1u32, "one");
    rus.insert(2u32, "two");
    assert_eq!(rus.get(&1), Some(&"one"));
    assert_eq!(rus.get(&3), None);
    assert!(rus.contains_key(&2));
    assert!(!rus.contains_key(&3));
    rus.insert(1u32, "uno");
    assert_eq!(rus.get(&1), Some(&"uno"));
    assert_eq!(rus.remove(&1), Some("uno"));
    assert!(!rus.contains_key(&1));
    assert_eq!(rus.pop(), Some((2, "two")));
}

#[test]
fn with_capacity_starts_empty() {
    let mut rus: RecentlyUsedMap<u64, u64> = RecentlyUsedMap::with_capacity(16);
    assert_eq!(rus.num_nodes(), 0);
    assert_eq!(rus.pop(), None);
}
