use trie::trie_map::{TrieMap, TrieMapNode};

#[test]
fn test_create() {
    let trie: TrieMap<()> = TrieMap::new();
    assert_eq!(trie.root().value, None);
    assert_eq!(trie.root().children.len(), 0);
}

#[test]
fn trie_map_test_insert() {
    let mut trie = TrieMap::new();
    trie.insert("hello", 1);
    trie.insert("world", 2);
    trie.insert("world", 3);
    assert_eq!(trie.get("hello"), Some(&1));
    assert_eq!(trie.get("world"), Some(&3));
}

#[test]
fn trie_map_test_remove() {
    let mut trie = TrieMap::new();
    trie.insert("hello", 1);
    trie.insert("world", 2);
    trie.remove("hello");
    assert_eq!(trie.get("hello"), None);
    assert_eq!(trie.get("world"), Some(&2));
}

#[test]
fn test_contains_key() {
    let mut trie = TrieMap::new();
    trie.insert("hello", 1);
    trie.insert("world", 2);
    assert!(trie.contains_key("hello"));
    assert!(trie.contains_key("world"));
    assert!(!trie.contains_key("foo"));
}

#[test]
fn trie_map_test_contains_prefix() {
    let mut trie = TrieMap::new();
    trie.insert("hello", 1);
    trie.insert("world", 2);
    assert!(trie.contains_prefix("he"));
    assert!(trie.contains_prefix("wo"));
    assert!(trie.contains_prefix("hello"));
    assert!(trie.contains_prefix("world"));
    assert!(!trie.contains_prefix("foo"));
}

#[test]
fn test_empty() {
    let trie = TrieMap::<i32>::new();
    assert!(!trie.contains_key("hello"));
    assert!(!trie.contains_prefix("he"));
}

#[test]
fn new_node_has_no_value_and_no_children() {
    let node: TrieMapNode<u8> = TrieMapNode::new();
    assert_eq!(node.value, None);
    assert_eq!(node.labels.len(), 0);
    assert_eq!(node.children.len(), 0);
}

#[test]
fn insert_then_get_gives_the_value() {
    let mut trie = TrieMap::new();
    trie.insert("key", 7);
    assert_eq!(trie.get("key"), Some(&7));
    assert!(trie.contains_key("key"));
    trie.insert("", 9);
    assert_eq!(trie.get(""), Some(&9));
    assert!(trie.contains_key(""));
}

#[test]
fn remove_then_get_gives_nothing() {
    let mut trie = TrieMap::new();
    trie.insert("key", 7);
    trie.remove("key");
    assert_eq!(trie.get("key"), None);
    assert!(!trie.contains_key("key"));

    trie.remove("absent");
    assert_eq!(trie.get("absent"), None);
    assert!(!trie.contains_key("absent"));
    trie.remove("ke");
    trie.remove("keys");
    assert_eq!(trie.get("key"), None);
    assert!(trie.contains_prefix("key"));
    assert!(!trie.contains_prefix("keys"));
}

#[test]
fn last_insert_wins() {
    let mut trie = TrieMap::new();
    trie.insert("k", "first");
    trie.insert("k", "second");
    assert_eq!(trie.get("k"), Some(&"second"));
    assert_eq!(trie.suggest(""), vec!["k"]);
}

#[test]
fn interior_node_is_a_prefix_but_no_key() {
    let mut trie = TrieMap::new();
    trie.insert("hello", 1);
    assert_eq!(trie.get("hell"), None);
    assert!(!trie.contains_key("hell"));
    assert!(trie.contains_prefix("hell"));
    assert_eq!(trie.get("hello!"), None);
    assert!(!trie.contains_prefix("hello!"));
}

#[test]
fn every_prefix_of_a_key_resolves() {
    let mut trie = TrieMap::new();
    trie.insert("héllo", 1);
    assert!(trie.contains_key("héllo"));
    assert!(trie.contains_prefix(""));
    assert!(trie.contains_prefix("h"));
    assert!(trie.contains_prefix("hé"));
    assert!(trie.contains_prefix("hél"));
    assert!(trie.contains_prefix("héll"));
    assert!(trie.contains_prefix("héllo"));
    assert!(!trie.contains_prefix("he"));
}

#[test]
fn suggest_lists_each_key_with_the_prefix_once_in_order() {
    let mut trie = TrieMap::new();
    trie.insert("car", 1);
    trie.insert("cat", 2);
    trie.insert("ca", 3);
    trie.insert("dog", 4);
    trie.insert("cart", 5);
    trie.insert("cab", 6);
    trie.insert("cat", 7);

    assert_eq!(trie.suggest("ca"), vec!["ca", "cab", "car", "cart", "cat"]);
    assert_eq!(trie.suggest("car"), vec!["car", "cart"]);
    assert_eq!(trie.suggest(""), vec!["ca", "cab", "car", "cart", "cat", "dog"]);
    assert_eq!(trie.suggest("d"), vec!["dog"]);
}

#[test]
fn suggest_is_empty_where_no_key_has_the_prefix() {
    let mut trie = TrieMap::new();
    assert_eq!(trie.suggest(""), Vec::<String>::new());
    trie.insert("car", 1);
    assert_eq!(trie.suggest("x"), Vec::<String>::new());
    assert_eq!(trie.suggest("cars"), Vec::<String>::new());
    trie.remove("car");
    assert_eq!(trie.suggest("c"), Vec::<String>::new());
    assert_eq!(trie.suggest(""), Vec::<String>::new());
}

#[test]
fn suggest_orders_by_character_not_by_byte_length() {
    let mut trie = TrieMap::new();
    trie.insert("z", 1);
    trie.insert("é", 2);
    trie.insert("a", 3);
    trie.insert("€", 4);
    trie.insert("B", 5);
    assert_eq!(trie.suggest(""), vec!["B", "a", "z", "é", "€"]);
}

#[test]
fn suggest_extends_the_prefix_by_the_characters_below() {
    let mut trie = TrieMap::new();
    trie.insert("ab", 1);
    let found = trie.suggest("a");
    assert_eq!(found, vec!["ab"]);
    assert_ne!(found, vec!["a"]);
}

#[test]
fn map_is_empty_by_branches_not_by_values() {
    let mut trie = TrieMap::new();
    assert!(trie.is_empty());
    trie.insert("", 0);
    assert!(trie.is_empty());
    assert_eq!(trie.root().value, Some(0));
    trie.insert("x", 1);
    assert!(!trie.is_empty());
    assert_eq!(trie.root().children.len(), 1);
    trie.remove("x");
    assert!(!trie.is_empty());
    trie.clear_branches();
    assert!(trie.is_empty());
    assert_eq!(trie.get(""), Some(&0));
    assert_eq!(trie.get("x"), None);
    assert!(!trie.contains_prefix("x"));
}

#[test]
fn children_are_kept_in_ascending_order() {
    let mut trie = TrieMap::new();
    trie.insert("m", 1);
    trie.insert("c", 2);
    trie.insert("x", 3);
    trie.insert("a", 4);
    trie.insert("p", 5);
    assert_eq!(trie.root().labels, vec!['a', 'c', 'm', 'p', 'x']);
    assert_eq!(trie.root().children.len(), 5);
    assert_eq!(trie.root().children[2].value, Some(1));
}

#[test]
fn long_key_is_stored_and_listed() {
    let long: String = std::iter::repeat('a').take(2000).collect();
    let mut trie = TrieMap::new();
    trie.insert(&long, 1);
    trie.insert("ab", 2);
    assert_eq!(trie.get(&long), Some(&1));
    assert!(trie.contains_prefix(&long[..1999]));
    assert!(!trie.contains_key(&long[..1999]));
    assert_eq!(trie.suggest("a"), vec![long.clone(), "ab".to_string()]);
    trie.remove(&long);
    assert_eq!(trie.get(&long), None);
    assert_eq!(trie.suggest(""), vec!["ab"]);
}

#[test]
fn suggest_visits_siblings_and_their_subtrees_in_order() {
    let mut trie = TrieMap::new();
    for key in ["b", "ba", "bb", "a", "ab", "aa", "aab", "c", "", "abc", "aaa"] {
        trie.insert(key, key.len());
    }
    assert_eq!(
        trie.suggest(""),
        vec!["", "a", "aa", "aaa", "aab", "ab", "abc", "b", "ba", "bb", "c"]
    );
    assert_eq!(trie.suggest("a"), vec!["a", "aa", "aaa", "aab", "ab", "abc"]);
    assert_eq!(trie.suggest("aa"), vec!["aa", "aaa", "aab"]);
    assert_eq!(trie.get("aab"), Some(&3));
}
