use trie::trie::Trie;

#[test]
fn trie_test_insert() {
    let mut trie = Trie::new();
    trie.insert("hello");
    trie.insert("world");

    assert!(trie.contains("hello"));
    assert!(trie.contains("world"));
}

#[test]
fn trie_test_remove() {
    let mut trie = Trie::new();
    trie.insert("hello");
    trie.insert("world");
    trie.remove("hello");

    assert!(!trie.contains("hello"));
    assert!(trie.contains("world"));
}

#[test]
fn trie_test_contains_prefix() {
    let mut trie = Trie::new();
    trie.insert("hello");
    trie.insert("world");

    assert!(trie.contains_prefix("he"));
    assert!(trie.contains_prefix("wor"));
    assert!(trie.contains_prefix("h"));
    assert!(trie.contains_prefix("w"));
}

#[test]
fn test_suggest() {
    let mut trie = Trie::new();
    trie.insert("hello");
    trie.insert("world");
    trie.insert("worldwide");
    trie.insert("worldwide web");
    trie.insert("worldwide web browser");
    trie.insert("worldwide web browser extension");

    assert_eq!(
        trie.suggest("world"),
        vec![
            "world",
            "worldwide",
            "worldwide web",
            "worldwide web browser",
            "worldwide web browser extension"
        ]
    );
    assert_eq!(
        trie.suggest("worldwide"),
        vec![
            "worldwide",
            "worldwide web",
            "worldwide web browser",
            "worldwide web browser extension"
        ]
    );
    assert_eq!(
        trie.suggest("worldwide web"),
        vec![
            "worldwide web",
            "worldwide web browser",
            "worldwide web browser extension"
        ]
    );
    assert_eq!(
        trie.suggest("worldwide web browser"),
        vec!["worldwide web browser", "worldwide web browser extension"]
    );
    assert_eq!(
        trie.suggest("worldwide web browser extension"),
        vec!["worldwide web browser extension"]
    );
}

#[test]
fn suggest_in_listed_order_whatever_the_insertion_order() {
    let mut trie = Trie::new();
    trie.insert("worldwide web browser extension");
    trie.insert("worldwide web");
    trie.insert("world");
    trie.insert("worldwide web browser");
    trie.insert("worldwide");

    assert_eq!(
        trie.suggest("world"),
        vec![
            "world",
            "worldwide",
            "worldwide web",
            "worldwide web browser",
            "worldwide web browser extension"
        ]
    );
}

#[test]
fn remove_leaves_the_path_of_the_other_key() {
    let mut trie = Trie::new();
    trie.insert("hello");
    trie.insert("world");
    trie.remove("hello");

    assert!(!trie.contains("hello"));
    assert!(trie.contains("world"));
    assert!(trie.contains_prefix("wor"));
}

#[test]
fn remove_keeps_the_path_of_the_removed_key() {
    let mut trie = Trie::new();
    trie.insert("hello");
    trie.insert("world");
    trie.remove("hello");

    assert!(trie.contains_prefix("hel"));
    assert!(trie.contains_prefix("hello"));
    assert!(!trie.contains_prefix("help"));
    assert_eq!(trie.suggest("hel"), Vec::<String>::new());
}

#[test]
fn empty_set_is_empty_until_a_key_branches() {
    let mut trie = Trie::new();
    assert!(trie.is_empty());
    assert!(trie.contains_prefix(""));
    assert!(!trie.contains(""));

    trie.insert("a");
    assert!(!trie.is_empty());

    trie.remove("a");
    assert!(!trie.contains("a"));
    assert!(!trie.is_empty());
    assert!(trie.contains_prefix("a"));
}

#[test]
fn empty_key_is_stored_at_the_root() {
    let mut trie = Trie::new();
    trie.insert("");
    assert!(trie.contains(""));
    assert!(trie.is_empty());
    assert_eq!(trie.suggest(""), vec![""]);

    trie.insert("a");
    assert_eq!(trie.suggest(""), vec!["", "a"]);

    trie.remove("");
    assert!(!trie.contains(""));
    assert_eq!(trie.suggest(""), vec!["a"]);
}

#[test]
fn clear_drops_branches_and_keeps_the_empty_key() {
    let mut trie = Trie::new();
    trie.insert("");
    trie.insert("hello");
    trie.insert("world");
    assert!(!trie.is_empty());

    trie.clear();

    assert!(trie.is_empty());
    assert!(trie.contains(""));
    assert!(!trie.contains("hello"));
    assert!(!trie.contains("world"));
    assert!(!trie.contains_prefix("h"));
    assert!(trie.contains_prefix(""));
    assert_eq!(trie.suggest(""), vec![""]);

    trie.insert("hi");
    assert!(trie.contains("hi"));
    assert!(!trie.contains_prefix("he"));
}

#[test]
fn insert_twice_stores_once() {
    let mut trie = Trie::new();
    trie.insert("abc");
    trie.insert("abc");
    assert_eq!(trie.suggest(""), vec!["abc"]);
    assert_eq!(trie.suggest("abc"), vec!["abc"]);
    assert_eq!(trie.suggest("abcd"), Vec::<String>::new());
}
