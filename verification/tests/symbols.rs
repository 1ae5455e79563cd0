use proclang::symbols::SymbolMap;

#[test]
fn a_read_gives_back_the_latest_write() {
    let mut m = SymbolMap::new();
    assert_eq!(m.get("a"), None);
    assert_eq!(m.insert("a", 1), None);
    assert_eq!(m.insert("b", 2), None);
    assert_eq!(m.get("a"), Some(1));
    assert_eq!(m.insert("a", 3), Some(1));
    assert_eq!(m.get("a"), Some(3));
    assert_eq!(m.get("b"), Some(2));
    assert_eq!(m.get("c"), None);
}
