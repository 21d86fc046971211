use char_trie::Trie;

fn value_of(t: &Trie, key: &str) -> Option<Option<i32>> {
    t.find(&key.to_string()).map(|node| node.value)
}

#[test]
fn new_trie_is_empty() {
    let t = Trie::new();
    assert_eq!(t.length(), 0);
    assert_eq!(value_of(&t, ""), Some(None));
    assert_eq!(value_of(&t, "a"), None);
    assert!(t.iter().is_empty());
}

#[test]
fn concrete_scenario() {
    let mut t = Trie::new();
    t.add_string("B".to_string(), 1);
    t.add_string("Bar".to_string(), 2);
    assert_eq!(t.length(), 2);
    assert_eq!(value_of(&t, "B"), Some(Some(1)));
    assert_eq!(value_of(&t, "Ba"), Some(None));
    assert_eq!(value_of(&t, "Bar"), Some(Some(2)));
    assert_eq!(value_of(&t, "Baz"), None);
    assert_eq!(t.delete(&"B".to_string()), Some(1));
    assert_eq!(t.length(), 1);
}

#[test]
fn round_trip() {
    let mut t = Trie::new();
    t.add_string("hello".to_string(), 42);
    assert_eq!(value_of(&t, "hello"), Some(Some(42)));
    t.add_string("help".to_string(), -7);
    assert_eq!(value_of(&t, "help"), Some(Some(-7)));
    assert_eq!(value_of(&t, "hello"), Some(Some(42)));
    assert_eq!(value_of(&t, "hel"), Some(None));
    assert_eq!(value_of(&t, "helpful"), None);
}

#[test]
fn overwrite_keeps_last_value_and_count() {
    let mut t = Trie::new();
    t.add_string("key".to_string(), 1);
    assert_eq!(t.length(), 1);
    t.add_string("key".to_string(), 2);
    assert_eq!(value_of(&t, "key"), Some(Some(2)));
    assert_eq!(t.length(), 1);
}

#[test]
fn delete_then_find_keeps_path() {
    let mut t = Trie::new();
    t.add_string("abc".to_string(), 5);
    t.add_string("ab".to_string(), 6);
    assert_eq!(t.length(), 2);
    assert_eq!(t.delete(&"abc".to_string()), Some(5));
    assert_eq!(value_of(&t, "abc"), Some(None));
    assert_eq!(value_of(&t, "ab"), Some(Some(6)));
    assert_eq!(t.length(), 1);
    assert_eq!(t.delete(&"abc".to_string()), None);
    assert_eq!(t.length(), 1);
}

#[test]
fn delete_missing_changes_nothing() {
    let mut t = Trie::new();
    t.add_string("abc".to_string(), 5);
    assert_eq!(t.delete(&"xyz".to_string()), None);
    assert_eq!(t.delete(&"ab".to_string()), None);
    assert_eq!(t.delete(&"abcd".to_string()), None);
    assert_eq!(t.length(), 1);
    assert_eq!(value_of(&t, "abc"), Some(Some(5)));
    assert_eq!(value_of(&t, "xyz"), None);
}

#[test]
fn empty_key() {
    let mut t = Trie::new();
    t.add_string(String::new(), 9);
    assert_eq!(value_of(&t, ""), Some(Some(9)));
    assert_eq!(t.length(), 1);
    t.add_string("a".to_string(), 1);
    assert_eq!(t.length(), 2);
    assert_eq!(t.delete(&String::new()), Some(9));
    assert_eq!(value_of(&t, ""), Some(None));
    assert_eq!(t.length(), 1);
    assert_eq!(t.delete(&String::new()), None);
}

#[test]
fn count_follows_last_operation_per_key() {
    let mut t = Trie::new();
    t.add_string("a".to_string(), 1);
    t.add_string("b".to_string(), 2);
    t.add_string("ab".to_string(), 3);
    t.delete(&"a".to_string());
    t.add_string("b".to_string(), 4);
    t.delete(&"c".to_string());
    t.add_string("a".to_string(), 5);
    t.delete(&"ab".to_string());
    // last operations: a -> add, b -> add, ab -> delete, c -> delete
    assert_eq!(t.length(), 2);
    assert_eq!(value_of(&t, "a"), Some(Some(5)));
    assert_eq!(value_of(&t, "b"), Some(Some(4)));
    assert_eq!(value_of(&t, "ab"), Some(None));
}

#[test]
fn iter_lists_edges_in_pre_order() {
    let mut t = Trie::new();
    t.add_string("B".to_string(), 1);
    t.add_string("Bar".to_string(), 2);
    assert_eq!(t.iter(), vec![('B', Some(1)), ('a', None), ('r', Some(2))]);
}

#[test]
fn iter_visits_each_subtree_before_the_next_sibling() {
    let mut t = Trie::new();
    t.add_string("ab".to_string(), 1);
    t.add_string("b".to_string(), 2);
    t.add_string("ac".to_string(), 3);
    t.add_string(String::new(), 4);
    assert_eq!(
        t.iter(),
        vec![('a', None), ('b', Some(1)), ('c', Some(3)), ('b', Some(2))]
    );
    t.delete(&"ab".to_string());
    assert_eq!(
        t.iter(),
        vec![('a', None), ('b', None), ('c', Some(3)), ('b', Some(2))]
    );
}

#[test]
fn keys_are_split_by_code_point() {
    let mut t = Trie::new();
    t.add_string("héllo".to_string(), 1);
    t.add_string("日本".to_string(), 2);
    assert_eq!(value_of(&t, "hé"), Some(None));
    assert_eq!(value_of(&t, "héllo"), Some(Some(1)));
    assert_eq!(value_of(&t, "日"), Some(None));
    assert_eq!(value_of(&t, "日本"), Some(Some(2)));
    assert_eq!(t.iter().len(), 7);
    assert_eq!(t.length(), 2);
}

#[test]
fn extreme_values_are_stored_as_given() {
    let mut t = Trie::new();
    t.add_string("min".to_string(), i32::MIN);
    t.add_string("max".to_string(), i32::MAX);
    assert_eq!(value_of(&t, "min"), Some(Some(i32::MIN)));
    assert_eq!(value_of(&t, "max"), Some(Some(i32::MAX)));
    assert_eq!(t.delete(&"min".to_string()), Some(i32::MIN));
}

#[test]
fn found_node_exposes_children() {
    let mut t = Trie::new();
    t.add_string("ab".to_string(), 1);
    t.add_string("ac".to_string(), 2);
    let node = t.find(&"a".to_string()).unwrap();
    assert_eq!(node.value, None);
    let symbols: Vec<char> = node.children.iter().map(|e| e.0).collect();
    assert_eq!(symbols, vec!['b', 'c']);
}

#[test]
fn edges_of_a_found_node_can_be_followed() {
    let mut t = Trie::new();
    t.add_string("ab".to_string(), 1);
    t.add_string("ac".to_string(), 2);
    let node = t.find(&"a".to_string()).unwrap();
    let mut reached: Vec<(char, Option<i32>)> = Vec::new();
    for (symbol, index) in node.children.iter() {
        let child = t.node(*index).unwrap();
        reached.push((*symbol, child.value));
    }
    assert_eq!(reached, vec![('b', Some(1)), ('c', Some(2))]);
    assert!(t.node(3).is_some());
    assert!(t.node(4).is_none());
    assert_eq!(t.node(0).unwrap().value, None);
}

#[test]
fn delete_on_a_missing_path_leaves_the_listing_alone() {
    let mut t = Trie::new();
    t.add_string("ab".to_string(), 1);
    let before = t.iter();
    assert_eq!(t.delete(&"abc".to_string()), None);
    assert_eq!(t.delete(&"x".to_string()), None);
    assert_eq!(t.iter(), before);
}
