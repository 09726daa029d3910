//! Behaviour of the scanning/replacement pass.

use trie_filter::trie::Trie;

#[test]
fn multibyte_scan_replaces_only_complete_words() {
    let mut trie = Trie::new();
    trie.add("王八羔子");
    trie.add("王八蛋");
    trie.add("大坏蛋");
    trie.add("大猪蹄子");
    trie.add("讨厌");

    let filtered = trie.filter("哈哈大王八子大猪蹄子哦", "***");
    assert_eq!(filtered, "哈哈大王八子***哦");
}

#[test]
fn first_word_ending_wins_over_longer_match() {
    let mut trie = Trie::new();
    trie.add("ab");
    trie.add("abc");

    assert_eq!(trie.filter("abc", "X"), "Xc");
}

#[test]
fn clean_text_is_returned_unchanged() {
    let mut trie = Trie::new();
    trie.add("ab");

    assert_eq!(trie.filter("xyz", "*"), "xyz");
    assert_eq!(trie.filter("ba", "*"), "ba");
}

#[test]
fn trailing_open_candidate_is_kept_verbatim() {
    let mut trie = Trie::new();
    trie.add("ab");

    assert_eq!(trie.filter("xa", "*"), "xa");
    assert_eq!(trie.filter("a", "*"), "a");
}

#[test]
fn failed_candidate_restarts_one_character_later() {
    let mut trie = Trie::new();
    trie.add("aab");

    assert_eq!(trie.filter("aaab", "*"), "a*");
}

#[test]
fn every_disjoint_match_is_replaced_once() {
    let mut trie = Trie::new();
    trie.add("b");

    assert_eq!(trie.filter("abab", "*"), "a*a*");
}

#[test]
fn overlapping_words_consume_the_first_match() {
    let mut trie = Trie::new();
    trie.add("abc");
    trie.add("bcd");

    assert_eq!(trie.filter("abcd", "X"), "Xd");
}

#[test]
fn replacement_may_be_longer_or_empty() {
    let mut trie = Trie::new();
    trie.add("ab");

    assert_eq!(trie.filter("zab", "<censored>"), "z<censored>");
    assert_eq!(trie.filter("zab", ""), "z");
}

#[test]
fn empty_text_filters_to_empty() {
    let mut trie = Trie::new();
    trie.add("ab");
    assert_eq!(trie.filter("", "*"), "");
}

#[test]
fn empty_dictionary_keeps_everything() {
    let trie = Trie::new();
    assert_eq!(trie.filter("abc", "*"), "abc");
}

#[test]
fn empty_word_in_dictionary_never_matches() {
    let mut trie = Trie::new();
    trie.add("");
    assert_eq!(trie.filter("ab", "*"), "ab");
}

#[test]
fn adding_twice_changes_no_filter_result() {
    let mut trie_once = Trie::new();
    trie_once.add("ab");
    let mut trie_twice = Trie::new();
    trie_twice.add("ab");
    trie_twice.add("ab");

    for text in ["abab", "xyz", "a", "xab"] {
        assert_eq!(trie_once.filter(text, "*"), trie_twice.filter(text, "*"));
    }
}

#[test]
fn match_directly_after_match() {
    let mut trie = Trie::new();
    trie.add("ab");
    trie.add("cd");

    assert_eq!(trie.filter("abcd", "*"), "**");
    assert_eq!(trie.filter("abxcd", "*"), "*x*");
}
