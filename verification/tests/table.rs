use sluice::table::Table;

#[test]
fn what_was_put_is_found() {
    let mut t: Table<u64, u8> = Table::new();
    assert!(t.get(&1).is_none());
    t.insert(1, 10);
    t.insert(2, 20);
    t.insert(1, 11);
    assert_eq!(t.get(&1), Some(&11));
    assert_eq!(t.get(&2), Some(&20));
    assert_eq!(t.len(), 2);
    t.remove(&1);
    assert!(!t.contains(&1));
    assert_eq!(t.get(&2), Some(&20));
}

#[test]
fn an_entry_starts_at_its_default() {
    let mut t: Table<String, u64> = Table::new();
    *t.entry("a".to_string(), 5) += 1;
    *t.entry("a".to_string(), 5) += 1;
    assert_eq!(t.get_text("a"), Some(&7));
    assert!(t.get_text("b").is_none());
}
