//! Membership behaviour of `add` and `search`.

use trie_filter::trie::Trie;

#[test]
fn digits_word_exact_membership() {
    let mut trie = Trie::new();
    trie.add("123");

    assert!(!trie.search("1"));
    assert!(!trie.search("2"));
    assert!(!trie.search("3"));
    assert!(!trie.search("12"));
    assert!(trie.search("123"));
    assert!(!trie.search("1234"));
}

#[test]
fn adding_a_prefix_makes_only_it_a_member() {
    let mut trie = Trie::new();
    trie.add("123");
    trie.add("12");

    assert!(!trie.search("1"));
    assert!(trie.search("12"));
    assert!(trie.search("123"));
    assert!(!trie.search("1234"));
}

#[test]
fn multibyte_words_exact_membership() {
    let mut trie = Trie::new();
    trie.add("中国人");
    trie.add("中国");

    assert!(!trie.search("中"));
    assert!(trie.search("中国"));
    assert!(trie.search("中国人"));
    assert!(!trie.search("中国人是"));
}

#[test]
fn every_added_word_is_found() {
    let mut trie = Trie::new();
    let words = ["a", "abc", "bcd", "xyzzy", "讨厌"];
    for w in words {
        trie.add(w);
    }
    for w in words {
        assert!(trie.search(w));
    }
}

#[test]
fn empty_trie_finds_nothing() {
    let trie = Trie::new();
    assert!(!trie.search(""));
    assert!(!trie.search("a"));
    assert!(!trie.search("abc"));
}

#[test]
fn empty_word_can_be_a_member() {
    let mut trie = Trie::new();
    assert!(!trie.search(""));
    trie.add("");
    assert!(trie.search(""));
    assert!(!trie.search("a"));
}

#[test]
fn adding_twice_changes_no_membership() {
    let mut trie_once = Trie::new();
    trie_once.add("abc");
    let mut trie_twice = Trie::new();
    trie_twice.add("abc");
    trie_twice.add("abc");

    for q in ["", "a", "ab", "abc", "abcd", "b"] {
        assert_eq!(trie_once.search(q), trie_twice.search(q));
    }
    assert!(trie_twice.search("abc"));
}

#[test]
fn sibling_words_do_not_interfere() {
    let mut trie = Trie::new();
    trie.add("cat");
    trie.add("car");
    trie.add("dog");

    assert!(trie.search("cat"));
    assert!(trie.search("car"));
    assert!(trie.search("dog"));
    assert!(!trie.search("ca"));
    assert!(!trie.search("cart"));
    assert!(!trie.search("do"));
}
