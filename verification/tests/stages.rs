use url::Url;
use url_normalizer::{
    can_rewrite_query, checked_normalize, checked_normalize_query, normalize, normalize_hash,
    normalize_query, normalize_scheme, NormalizationError,
};

const SAMPLE: &str = "https://example.com?c=1&q[]=99&q[5]=44&b=2&a=3#hash";

fn pairs_of(url: &Url) -> Vec<(String, String)> {
    url.query_pairs().into_owned().collect()
}

fn pair(key: &str, value: &str) -> (String, String) {
    (key.to_string(), value.to_string())
}

#[test]
fn test_normalize_query() {
    let url = Url::parse("https://example.com?c=1&q[]=99&q[5]=44&b=2&a=3#hash").unwrap();
    let url = normalize_query(url);
    assert_eq!(
        url.as_str(),
        "https://example.com/?a=3&b=2&c=1&q%5B%5D=99&q%5B5%5D=44#hash"
    );
}

#[test]
fn test_remove_hash() {
    let url = Url::parse("https://example.com?c=1&q[]=99&q[5]=44&b=2&a=3#hash").unwrap();
    let url = normalize_hash(url);
    assert_eq!(url.as_str(), "https://example.com/?c=1&q[]=99&q[5]=44&b=2&a=3");
}

#[test]
fn test_normalize_scheme() {
    let url = Url::parse("https://example.com?c=1&q[]=99&q[5]=44&b=2&a=3#hash").unwrap();
    let url = normalize_scheme(url).unwrap();
    assert_eq!(url.as_str(), "http://example.com/?c=1&q[]=99&q[5]=44&b=2&a=3#hash");
}

fn process_normalize_scheme(secure_scheme: &str, scheme: &str) {
    let url = Url::parse(&format!("{}://example.com/", secure_scheme)).unwrap();
    let url = normalize_scheme(url).unwrap();
    assert_eq!(url.as_str(), &format!("{}://example.com/", scheme));
}

#[test]
fn test_normalize_scheme_https() {
    process_normalize_scheme("https", "http");
}

#[test]
fn test_normalize_scheme_wss() {
    process_normalize_scheme("wss", "ws");
}

#[test]
fn test_normalize_scheme_sftp() {
    process_normalize_scheme("sftp", "ftp");
}

#[test]
fn scheme_shttp_becomes_http() {
    process_normalize_scheme("shttp", "http");
}

#[test]
fn scheme_outside_the_mapping_is_left_alone() {
    let url = Url::parse("ftp://example.com/").unwrap();
    let url = normalize_scheme(url).unwrap();
    assert_eq!(url.as_str(), "ftp://example.com/");
}

#[test]
fn unmapped_schemes_never_fail() {
    for text in [
        "http://example.com/a?b=c#d",
        "ws://example.com/",
        "mailto:someone@example.com",
        "data:text/plain,hello",
        "file:///tmp/x",
        "gopher://example.com/",
        "httpss://example.com/",
    ] {
        let url = Url::parse(text).unwrap();
        let same = normalize_scheme(url.clone());
        assert_eq!(same, Ok(url));
    }
}

#[test]
fn scheme_is_rejected_where_the_url_has_no_host() {
    let url = Url::parse("shttp:opaque").unwrap();
    assert!(!url.has_host());
    assert_eq!(normalize_scheme(url), Err(NormalizationError::SchemeRejected));

    let url = Url::parse("sftp:/only/a/path").unwrap();
    assert!(!url.has_host());
    assert_eq!(normalize_scheme(url), Err(NormalizationError::SchemeRejected));
}

#[test]
fn scheme_change_keeps_what_follows_the_scheme() {
    let url = Url::parse("wss://user:pw@example.com:8443/a/b?x=1&y=2#frag").unwrap();
    let url = normalize_scheme(url).unwrap();
    assert_eq!(url.as_str(), "ws://user:pw@example.com:8443/a/b?x=1&y=2#frag");
    assert_eq!(url.scheme(), "ws");
    assert_eq!(url.fragment(), Some("frag"));
    assert_eq!(pairs_of(&url), vec![pair("x", "1"), pair("y", "2")]);
}

#[test]
fn hash_removal_is_idempotent() {
    for text in [SAMPLE, "https://example.com/", "mailto:a@example.com#x", "http://h/p?q#"] {
        let once = normalize_hash(Url::parse(text).unwrap());
        let twice = normalize_hash(once.clone());
        assert_eq!(once, twice);
        assert_eq!(once.fragment(), None);
    }
}

#[test]
fn hash_removal_leaves_a_url_without_fragment_as_it_is() {
    let url = Url::parse("https://example.com/a%20b?x=1&x=0").unwrap();
    assert_eq!(normalize_hash(url.clone()), url);
}

#[test]
fn hash_removal_keeps_scheme_and_query() {
    let url = normalize_hash(Url::parse("wss://example.com/p?b=2&a=1#top").unwrap());
    assert_eq!(url.as_str(), "wss://example.com/p?b=2&a=1");
    assert_eq!(url.scheme(), "wss");
    assert_eq!(pairs_of(&url), vec![pair("b", "2"), pair("a", "1")]);
}

#[test]
fn shorter_keys_come_before_longer_ones() {
    let url = normalize_query(Url::parse("http://example.com/?aa=1&z=2").unwrap());
    assert_eq!(url.as_str(), "http://example.com/?z=2&aa=1");
}

#[test]
fn keys_of_equal_length_are_ordered_by_their_bytes() {
    let url = normalize_query(Url::parse("http://example.com/?ab=1&aa=2&B=3&a=4").unwrap());
    assert_eq!(pairs_of(&url), vec![pair("B", "3"), pair("a", "4"), pair("aa", "2"), pair("ab", "1")]);
}

#[test]
fn values_play_no_role_and_equal_keys_keep_their_order() {
    let url = normalize_query(Url::parse("http://example.com/?k=9&a=z&k=1&a=a&k=5").unwrap());
    assert_eq!(url.as_str(), "http://example.com/?a=z&a=a&k=9&k=1&k=5");
}

#[test]
fn query_sorting_keeps_every_pair() {
    let text = "http://example.com/?b=1&a=1&b=1&c=&=x&b=2&a=1";
    let before = pairs_of(&Url::parse(text).unwrap());
    let after = pairs_of(&normalize_query(Url::parse(text).unwrap()));
    let mut left = before.clone();
    let mut right = after.clone();
    left.sort();
    right.sort();
    assert_eq!(left, right);
    assert_eq!(after.len(), 7);
}

#[test]
fn sorted_query_obeys_the_ordering_law() {
    let url = normalize_query(
        Url::parse("http://example.com/?zz=1&b=2&aaa=3&a=4&zz=5&ab=6&%C3%A9=7").unwrap(),
    );
    let pairs = pairs_of(&url);
    for i in 0..pairs.len() {
        for j in 0..pairs.len() {
            let (a, b) = (&pairs[i].0, &pairs[j].0);
            if a != b {
                let first = a.len() < b.len() || (a.len() == b.len() && a < b);
                assert_eq!(i < j, first);
            }
        }
    }
}

#[test]
fn empty_query_stays_empty() {
    let url = normalize_query(Url::parse("https://example.com").unwrap());
    assert_eq!(pairs_of(&url), vec![]);
    assert_eq!(url.as_str(), "https://example.com/?");

    let url = normalize_query(Url::parse("https://example.com/?#f").unwrap());
    assert_eq!(pairs_of(&url), vec![]);
    assert_eq!(url.as_str(), "https://example.com/?#f");
}

#[test]
fn keys_and_values_that_need_escaping_come_back_the_same() {
    let mut url = Url::parse("https://example.com/path").unwrap();
    url.query_pairs_mut()
        .append_pair("zz top", "a&b=c")
        .append_pair("é", "100%")
        .append_pair("", "")
        .append_pair("a+b", "#?/");
    let before = pairs_of(&url);
    let after = pairs_of(&normalize_query(url));
    assert_eq!(
        after,
        vec![pair("", ""), pair("é", "100%"), pair("a+b", "#?/"), pair("zz top", "a&b=c")]
    );
    assert_eq!(after.len(), before.len());
}

#[test]
fn query_sorting_keeps_the_rest_of_the_url() {
    let url = normalize_query(Url::parse("sftp://u@example.com:2222/a/b?b=1&a=2#f").unwrap());
    assert_eq!(url.as_str(), "sftp://u@example.com:2222/a/b?a=2&b=1#f");
    assert_eq!(url.scheme(), "sftp");
    assert_eq!(url.fragment(), Some("f"));
    assert!(url.has_host());
}

#[test]
fn query_sorting_settles() {
    let once = normalize_query(Url::parse(SAMPLE).unwrap());
    let twice = normalize_query(once.clone());
    assert_eq!(once, twice);
}

#[test]
fn pipeline_applies_the_three_stages() {
    let url = normalize(Url::parse(SAMPLE).unwrap()).unwrap();
    assert_eq!(url.as_str(), "http://example.com/?a=3&b=2&c=1&q%5B%5D=99&q%5B5%5D=44");
}

#[test]
fn pipeline_is_the_stages_in_turn() {
    for text in [SAMPLE, "wss://example.com/chat?room=1&id=2#x", "ftp://example.com/?b&a"] {
        let whole = normalize(Url::parse(text).unwrap());
        let staged = normalize_scheme(normalize_hash(normalize_query(Url::parse(text).unwrap())));
        assert_eq!(whole, staged);
    }
}

#[test]
fn pipeline_makes_equivalent_urls_equal() {
    let a = normalize(Url::parse("https://example.com/p?x=1&y=2#top").unwrap()).unwrap();
    let b = normalize(Url::parse("http://example.com/p?y=2&x=1#bottom").unwrap()).unwrap();
    assert_eq!(a, b);
}

#[test]
fn pipeline_passes_the_rejection_on() {
    let url = Url::parse("sftp:opaque?b=1&a=2#f").unwrap();
    assert_eq!(normalize(url), Err(NormalizationError::SchemeRejected));
}

#[test]
fn ordinary_urls_have_room_for_their_query() {
    let url = Url::parse(SAMPLE).unwrap();
    assert!(can_rewrite_query(&url));
    assert!(can_rewrite_query(&Url::parse("mailto:a@example.com").unwrap()));
}

#[test]
fn checked_stages_agree_with_the_plain_ones() {
    let url = Url::parse(SAMPLE).unwrap();
    assert_eq!(checked_normalize_query(url.clone()), Some(normalize_query(url.clone())));
    assert_eq!(checked_normalize(url.clone()), Some(normalize(url)));
    let rejected = Url::parse("shttp:x").unwrap();
    assert_eq!(checked_normalize(rejected), Some(Err(NormalizationError::SchemeRejected)));
}
