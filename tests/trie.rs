use the_algorithms_rust::trie::Trie;

fn key(s: &str) -> Vec<char> {
    s.chars().collect()
}

#[test]
fn stored_keys_are_found() {
    let mut t: Trie<u32> = Trie::new();
    t.insert(&key("car"), 1);
    t.insert(&key("cat"), 2);
    t.insert(&key("dog"), 3);
    assert_eq!(t.get(&key("car")), Some(&1));
    assert_eq!(t.get(&key("cat")), Some(&2));
    assert_eq!(t.get(&key("dog")), Some(&3));
}

#[test]
fn prefixes_and_extensions_are_absent() {
    let mut t: Trie<u32> = Trie::new();
    t.insert(&key("cars"), 1);
    assert_eq!(t.get(&key("car")), None);
    assert_eq!(t.get(&key("carsx")), None);
    assert_eq!(t.get(&key("")), None);
    assert_eq!(t.get(&key("bus")), None);
}

#[test]
fn insert_overwrites_the_value() {
    let mut t: Trie<u32> = Trie::new();
    t.insert(&key("ab"), 1);
    t.insert(&key("ab"), 5);
    assert_eq!(t.get(&key("ab")), Some(&5));
}

#[test]
fn empty_key_lives_at_the_root() {
    let mut t: Trie<bool> = Trie::new();
    t.insert(&[], true);
    assert_eq!(t.get(&[]), Some(&true));
    assert_eq!(t.get(&key("a")), None);
}

#[test]
fn shared_prefixes_keep_each_key() {
    let mut t: Trie<usize> = Trie::new();
    let words = ["a", "ab", "abc", "abd", "b", "\u{e9}"];
    for (i, w) in words.iter().enumerate() {
        t.insert(&key(w), i);
    }
    for (i, w) in words.iter().enumerate() {
        assert_eq!(t.get(&key(w)), Some(&i));
    }
    assert_eq!(t.get(&key("abe")), None);
}
