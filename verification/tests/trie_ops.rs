use prefix_trie::{check_key, Trie};

#[test]
fn test_insert_and_search() {
    let mut trie = Trie::new();
    assert_eq!(trie.search("hello"), None);

    trie.insert("hello", 1);
    assert_eq!(trie.search("hello"), Some(1));
    assert_eq!(trie.search("hell"), None);
    assert_eq!(trie.search("helloo"), None);

    trie.insert("hell", 2);
    assert_eq!(trie.search("hell"), Some(2));
    assert_eq!(trie.search("helloo"), None);

    trie.insert("HELLO", 3);
    assert_eq!(trie.search("HELLO"), Some(3));
    assert_eq!(trie.search("hello"), Some(1));
    assert_eq!(trie.search("hell"), Some(2));

    trie.insert("Hi", 4);
    assert_eq!(trie.search("Hi"), Some(4));
    assert_eq!(trie.search("H"), None);
    assert_eq!(trie.search("h"), None);
    assert_eq!(trie.search("hi"), None);
}

#[test]
fn test_delete() {
    let mut trie = Trie::new();

    trie.insert("hello", 1);
    trie.insert("hell", 2);
    trie.insert("hi", 3);

    assert_eq!(trie.search("hello"), Some(1));
    assert_eq!(trie.search("hell"), Some(2));
    assert_eq!(trie.search("hi"), Some(3));

    assert!(trie.delete("hello"));
    assert_eq!(trie.search("hello"), None);
    assert_eq!(trie.search("hell"), Some(2));
    assert_eq!(trie.search("hi"), Some(3));

    assert!(trie.delete("hell"));
    assert_eq!(trie.search("hell"), None);
    assert_eq!(trie.search("hi"), Some(3));

    assert!(!trie.delete("hello"));
    assert_eq!(trie.search("hi"), Some(3));

    assert!(trie.delete("hi"));
    assert_eq!(trie.search("hi"), None);
}

#[test]
#[should_panic(expected = "Unsupported character: 33")]
fn test_unsupported_character() {
    let mut trie = Trie::new();
    match check_key("hello!") {
        Ok(()) => trie.insert("hello!", 1),
        Err(fault) => panic!("Unsupported character: {}", fault.byte),
    }
}

#[test]
fn new_trie_finds_nothing() {
    let trie = Trie::new();
    assert_eq!(trie.search(""), None);
    assert_eq!(trie.search("a"), None);
    assert_eq!(trie.search("Z"), None);
    assert_eq!(trie.search("hello"), None);
}

#[test]
fn never_inserted_key_is_absent() {
    let mut trie = Trie::new();
    trie.insert("car", 1);
    trie.insert("cart", 2);
    trie.insert("dog", 3);
    assert!(trie.delete("cart"));
    assert_eq!(trie.search("ca"), None);
    assert_eq!(trie.search("carts"), None);
    assert_eq!(trie.search("do"), None);
    assert_eq!(trie.search("cat"), None);
    assert_eq!(trie.search(""), None);
}

#[test]
fn search_finds_inserted_id_in_either_order() {
    let mut short_first = Trie::new();
    short_first.insert("hell", 2);
    short_first.insert("hello", 1);
    let mut long_first = Trie::new();
    long_first.insert("hello", 1);
    long_first.insert("hell", 2);
    for trie in [&short_first, &long_first] {
        assert_eq!(trie.search("hell"), Some(2));
        assert_eq!(trie.search("hello"), Some(1));
        assert_eq!(trie.search("hel"), None);
    }
}

#[test]
fn insert_overwrites_id() {
    let mut trie = Trie::new();
    trie.insert("key", 10);
    assert_eq!(trie.search("key"), Some(10));
    trie.insert("key", -20);
    assert_eq!(trie.search("key"), Some(-20));
    trie.insert("key", i32::MAX);
    assert_eq!(trie.search("key"), Some(i32::MAX));
    assert!(trie.delete("key"));
    assert!(!trie.delete("key"));
}

#[test]
fn empty_key_is_stored_at_the_root() {
    let mut trie = Trie::new();
    assert!(!trie.delete(""));
    trie.insert("", 7);
    trie.insert("a", 8);
    assert_eq!(trie.search(""), Some(7));
    assert_eq!(trie.search("a"), Some(8));
    assert!(trie.delete(""));
    assert_eq!(trie.search(""), None);
    assert_eq!(trie.search("a"), Some(8));
    assert!(!trie.delete(""));
}

#[test]
fn delete_tells_whether_key_was_stored() {
    let mut trie = Trie::new();
    trie.insert("abc", 1);
    assert!(!trie.delete("ab"));
    assert!(!trie.delete("abcd"));
    assert!(!trie.delete("ABC"));
    assert!(trie.delete("abc"));
    assert_eq!(trie.search("abc"), None);
    assert!(!trie.delete("abc"));
}

#[test]
fn delete_of_prefix_keeps_longer_key() {
    let mut trie = Trie::new();
    trie.insert("hell", 2);
    trie.insert("hello", 1);
    assert!(trie.delete("hell"));
    assert_eq!(trie.search("hell"), None);
    assert_eq!(trie.search("hello"), Some(1));
}

#[test]
fn delete_of_longer_key_keeps_prefix() {
    let mut trie = Trie::new();
    trie.insert("hell", 2);
    trie.insert("hello", 1);
    assert!(trie.delete("hello"));
    assert_eq!(trie.search("hello"), None);
    assert_eq!(trie.search("hell"), Some(2));
}

#[test]
fn delete_of_absent_key_changes_nothing() {
    let mut trie = Trie::new();
    trie.insert("hell", 2);
    trie.insert("hi", 3);
    assert!(!trie.delete("hello"));
    assert!(!trie.delete("he"));
    assert!(!trie.delete("h"));
    assert!(!trie.delete("hix"));
    assert!(!trie.delete("hello"));
    assert_eq!(trie.search("hell"), Some(2));
    assert_eq!(trie.search("hi"), Some(3));
    assert_eq!(trie.search("hello"), None);
}

#[test]
fn insert_and_delete_rounds_leave_an_empty_trie() {
    let keys = ["hello", "hell", "hi", "HELLO", "", "h", "zebra", "Zebra"];
    let mut trie = Trie::new();
    for round in 0..5 {
        for (at, key) in keys.iter().enumerate() {
            assert_eq!(trie.search(key), None);
            trie.insert(key, round * 100 + at as i32);
        }
        for (at, key) in keys.iter().enumerate() {
            assert_eq!(trie.search(key), Some(round * 100 + at as i32));
        }
        for key in keys.iter().rev() {
            assert!(trie.delete(key));
            assert_eq!(trie.search(key), None);
        }
        for key in keys.iter() {
            assert!(!trie.delete(key));
            assert_eq!(trie.search(key), None);
        }
    }
}

#[test]
fn keys_are_case_sensitive() {
    let mut trie = Trie::new();
    trie.insert("hello", 1);
    trie.insert("HELLO", 2);
    trie.insert("Hello", 3);
    assert_eq!(trie.search("hello"), Some(1));
    assert_eq!(trie.search("HELLO"), Some(2));
    assert_eq!(trie.search("Hello"), Some(3));
    assert_eq!(trie.search("hELLO"), None);
    assert!(trie.delete("HELLO"));
    assert_eq!(trie.search("hello"), Some(1));
    assert_eq!(trie.search("HELLO"), None);
    assert_eq!(trie.search("Hello"), Some(3));
}

#[test]
fn scenario_with_three_keys() {
    let mut trie = Trie::new();
    trie.insert("hello", 1);
    trie.insert("hell", 2);
    trie.insert("hi", 3);
    assert_eq!(trie.search("hello"), Some(1));
    assert_eq!(trie.search("hell"), Some(2));
    assert_eq!(trie.search("hi"), Some(3));
    assert!(trie.delete("hello"));
    assert_eq!(trie.search("hello"), None);
    assert_eq!(trie.search("hell"), Some(2));
    assert_eq!(trie.search("hi"), Some(3));
    assert!(!trie.delete("hello"));
    assert!(trie.delete("hi"));
    assert_eq!(trie.search("hi"), None);
}

#[test]
fn every_symbol_has_its_own_branch() {
    let alphabet = "abcdefghijklmnopqrstuvwxyzABCDEFGHIJKLMNOPQRSTUVWXYZ";
    let mut trie = Trie::new();
    for at in 0..alphabet.len() {
        trie.insert(&alphabet[at..at + 1], at as i32);
    }
    for at in 0..alphabet.len() {
        assert_eq!(trie.search(&alphabet[at..at + 1]), Some(at as i32));
    }
    trie.insert(alphabet, 1000);
    assert_eq!(trie.search(alphabet), Some(1000));
    assert_eq!(trie.search(&alphabet[..51]), None);
    for at in 0..alphabet.len() {
        assert!(trie.delete(&alphabet[at..at + 1]));
    }
    assert_eq!(trie.search(alphabet), Some(1000));
    assert_eq!(trie.search("a"), None);
}
