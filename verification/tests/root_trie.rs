use trie::Trie;

#[test]
fn lib_test_insert() {
    let mut trie = Trie::new();
    trie.insert("hello");
    trie.insert("world");

    assert!(trie.contains("hello"));
    assert!(trie.contains("world"));
}

#[test]
fn lib_test_remove() {
    let mut trie = Trie::new();
    trie.insert("hello");
    trie.insert("world");
    trie.remove("hello");

    assert!(!trie.contains("hello"));
    assert!(trie.contains("world"));
}

#[test]
fn lib_test_contains_prefix() {
    let mut trie = Trie::new();
    trie.insert("hello");
    trie.insert("world");

    assert!(trie.contains_prefix("he"));
    assert!(trie.contains_prefix("wor"));
    assert!(trie.contains_prefix("h"));
    assert!(trie.contains_prefix("w"));
}
