use ostp::ids::Ids;

#[test]
fn numbers_keep_their_order() {
    let mut t: Ids<&str> = Ids::new();
    assert_eq!(t.insert(7, "a"), None);
    assert_eq!(t.insert(3, "b"), None);
    assert_eq!(t.insert(9, "c"), None);
    assert_eq!(t.insert(3, "d"), Some("b"));
    assert_eq!((0..t.len()).map(|i| (t.key_at(i), *t.value_at(i))).collect::<Vec<_>>(), vec![(7, "a"), (3, "d"), (9, "c")]);
    *t.get_mut(9).unwrap() = "e";
    assert_eq!(t.remove(7), Some("a"));
    assert_eq!(t.remove(7), None);
    assert!(!t.contains_key(7) && t.get(7).is_none() && t.get_mut(7).is_none());
    assert_eq!((0..t.len()).map(|i| (t.key_at(i), *t.value_at(i))).collect::<Vec<_>>(), vec![(3, "d"), (9, "e")]);
}
