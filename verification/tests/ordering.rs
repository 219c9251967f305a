use std::cmp::Ordering;
use url_normalizer::key_order::{lex_order, Placement};
use url_normalizer::scheme::{downgraded_scheme, same_text};
use url_normalizer::{cmp_string, comes_before, sort_pairs, QueryPair};

fn cmp(a: &str, b: &str) -> Ordering {
    cmp_string(&a.to_string(), &b.to_string())
}

fn pair(key: &str, value: &str) -> QueryPair {
    QueryPair { key: key.to_string(), value: value.to_string() }
}

#[test]
fn a_shorter_key_comes_first_whatever_its_letters() {
    assert_eq!(cmp("z", "aa"), Ordering::Less);
    assert_eq!(cmp("aa", "z"), Ordering::Greater);
    assert_eq!(cmp("", "a"), Ordering::Less);
    assert_eq!(cmp("zzz", "aaaa"), Ordering::Less);
}

#[test]
fn keys_of_equal_length_compare_byte_by_byte() {
    assert_eq!(cmp("ab", "ac"), Ordering::Less);
    assert_eq!(cmp("ba", "ab"), Ordering::Greater);
    assert_eq!(cmp("q[]", "q[5"), Ordering::Greater);
    assert_eq!(cmp("A", "a"), Ordering::Less);
}

#[test]
fn equal_keys_compare_equal() {
    assert_eq!(cmp("", ""), Ordering::Equal);
    assert_eq!(cmp("key", "key"), Ordering::Equal);
    assert_eq!(cmp("é", "é"), Ordering::Equal);
}

#[test]
fn length_is_counted_in_bytes() {
    // "é" takes two bytes, so it is as long as "zz" and longer than "z".
    assert_eq!(cmp("z", "é"), Ordering::Less);
    assert_eq!(cmp("zz", "é"), Ordering::Less);
    assert_eq!(cmp("é", "zzz"), Ordering::Less);
}

#[test]
fn cmp_string_agrees_with_length_then_bytes() {
    let keys = ["", "a", "b", "aa", "ab", "ba", "é", "z", "q[]", "q[5]", "A", "~", "ÿ"];
    for a in keys {
        for b in keys {
            let expected = a.len().cmp(&b.len()).then(a.as_bytes().cmp(b.as_bytes()));
            assert_eq!(cmp(a, b), expected);
            assert_eq!(comes_before(&a.to_string(), &b.to_string()), expected == Ordering::Less);
        }
    }
}

#[test]
fn byte_strings_are_placed_lexicographically() {
    assert_eq!(lex_order(b"abc", b"abd"), Placement::Before);
    assert_eq!(lex_order(b"abc", b"abc"), Placement::Same);
    assert_eq!(lex_order(b"abd", b"abc"), Placement::After);
    assert_eq!(lex_order(b"ab", b"abc"), Placement::Before);
    assert_eq!(lex_order(b"abc", b"ab"), Placement::After);
    assert_eq!(lex_order(b"", b""), Placement::Same);
    assert_eq!(lex_order(b"", b"\0"), Placement::Before);
    assert_eq!(lex_order(b"\xff", b"a"), Placement::After);
}

#[test]
fn texts_are_the_same_only_when_every_byte_is() {
    assert!(same_text("https", "https"));
    assert!(!same_text("https", "http"));
    assert!(!same_text("http", "https"));
    assert!(!same_text("Https", "https"));
    assert!(same_text("", ""));
}

#[test]
fn the_mapping_has_four_rows() {
    assert_eq!(downgraded_scheme("https"), Some("http"));
    assert_eq!(downgraded_scheme("shttp"), Some("http"));
    assert_eq!(downgraded_scheme("sftp"), Some("ftp"));
    assert_eq!(downgraded_scheme("wss"), Some("ws"));
    for other in ["http", "ftp", "ws", "file", "mailto", "", "HTTPS", "httpss", "ssh"] {
        assert_eq!(downgraded_scheme(other), None);
    }
}

#[test]
fn sorting_nothing_gives_nothing() {
    assert_eq!(sort_pairs(vec![]), vec![]);
}

#[test]
fn sorting_one_pair_gives_that_pair() {
    assert_eq!(sort_pairs(vec![pair("k", "v")]), vec![pair("k", "v")]);
}

#[test]
fn pairs_are_sorted_by_key_alone() {
    let sorted = sort_pairs(vec![pair("c", "1"), pair("q[]", "99"), pair("q[5]", "44"), pair("b", "2"), pair("a", "3")]);
    assert_eq!(
        sorted,
        vec![pair("a", "3"), pair("b", "2"), pair("c", "1"), pair("q[]", "99"), pair("q[5]", "44")]
    );
}

#[test]
fn pairs_of_equal_key_keep_their_order() {
    let sorted = sort_pairs(vec![pair("b", "1"), pair("a", "2"), pair("b", "0"), pair("a", "1"), pair("b", "1")]);
    assert_eq!(
        sorted,
        vec![pair("a", "2"), pair("a", "1"), pair("b", "1"), pair("b", "0"), pair("b", "1")]
    );
}

#[test]
fn sorting_a_sorted_query_changes_nothing() {
    let once = sort_pairs(vec![pair("zz", "1"), pair("a", "2"), pair("zz", "0"), pair("ab", "1")]);
    let twice = sort_pairs(once.clone());
    assert_eq!(once, twice);
}
