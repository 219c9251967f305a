//! The parsed URL as this library sees it.
//!
//! Parsing, serialising and percent-encoding belong to the `url` crate. A
//! [`Url`] is carried through as that crate made it. What the stages read and
//! change is named here: the scheme, what stands between scheme and query,
//! the pairs of the query, the fragment, whether there is a host, and the
//! text as a whole.
//!
//! Nothing in this file is proved. Each function makes one call into the
//! `url` crate and states what that crate's source shows of the call.

use crate::key_order::key_bytes;
use crate::pairs::{pair_views, QueryPair};
use url::Url;
use vstd::prelude::*;

verus! {

#[verifier::external_type_specification]
#[verifier::external_body]
pub struct ExUrl(url::Url);

/// The scheme of a URL, without the `:` that ends it (`Url::scheme`).
pub uninterp spec fn url_scheme(url: Url) -> Seq<char>;

/// What a URL's text holds between its scheme and its query: the `:`, the
/// authority and the path.
pub uninterp spec fn url_address(url: Url) -> Seq<char>;

/// The pairs of a URL's query, percent-decoded, in the order in which the
/// query holds them (`Url::query_pairs`); empty where the URL has no query.
pub uninterp spec fn url_query(url: Url) -> Seq<(Seq<char>, Seq<char>)>;

/// The fragment of a URL, without the `#` that starts it (`Url::fragment`).
pub uninterp spec fn url_fragment(url: Url) -> Option<Seq<char>>;

/// Whether a URL has a host (`Url::has_host`).
pub uninterp spec fn url_has_host(url: Url) -> bool;

/// The text of a URL (`Url::as_str`).
pub uninterp spec fn url_text(url: Url) -> Seq<char>;

/// The length of a URL's text in bytes.
pub open spec fn url_len(url: Url) -> nat {
    key_bytes(url_text(url)).len()
}

/// The most by which appending a pair to a query lengthens the URL's text:
/// each byte of key and value may take three bytes once percent-encoded, and
/// `?`, `&` and `=` may be written around them.
pub open spec fn pair_growth(key: Seq<char>, value: Seq<char>) -> nat {
    3 * key_bytes(key).len() + 3 * key_bytes(value).len() + 3
}

/// What a fragment takes at the end of a URL's text: a `#` and the fragment,
/// or nothing where there is none.
pub open spec fn fragment_text(fragment: Option<Seq<char>>) -> Seq<char> {
    match fragment {
        Some(f) => seq!['#'] + f,
        None => Seq::empty(),
    }
}

/// A scheme made of the letters `a` to `z` alone, and of at least one.
pub open spec fn is_plain_scheme(scheme: Seq<char>) -> bool {
    &&& scheme.len() > 0
    &&& forall|i: int| 0 <= i < scheme.len() ==> 'a' <= #[trigger] scheme[i] <= 'z'
}

/// The schemes that the `url` crate calls special: a URL without a host
/// cannot take one of them.
pub open spec fn is_special_scheme(scheme: Seq<char>) -> bool {
    ||| scheme == "http"@
    ||| scheme == "https"@
    ||| scheme == "ws"@
    ||| scheme == "wss"@
    ||| scheme == "ftp"@
    ||| scheme == "gopher"@
    ||| scheme == "file"@
}

/// `Url::as_str`: the text of the URL.
#[verifier::external_body]
pub(crate) fn text_of(url: &Url) -> (text: &str)
    ensures
        text@ == url_text(*url),
{
    url.as_str()
}

/// `Url::scheme`: the scheme of the URL.
#[verifier::external_body]
pub(crate) fn scheme_of(url: &Url) -> (scheme: &str)
    ensures
        scheme@ == url_scheme(*url),
{
    url.scheme()
}

/// `Url::query_pairs`, each pair taken as owned strings: the pairs of the
/// query in their order.
#[verifier::external_body]
pub(crate) fn query_pairs(url: &Url) -> (pairs: Vec<QueryPair>)
    ensures
        pair_views(pairs@) == url_query(*url),
{
    url.query_pairs().into_owned().map(|(key, value)| QueryPair { key, value }).collect()
}

/// `Url::query_pairs_mut` and `Serializer::clear`: the query is left present
/// and empty, everything else as it was.
///
/// The `url` crate keeps 32-bit offsets into the text and panics beyond
/// them. Where the URL had no query a `?` is written, so the text must have
/// room for one more byte.
#[verifier::external_body]
pub(crate) fn clear_query(url: &mut Url)
    requires
        url_len(*old(url)) < u32::MAX,
    ensures
        url_query(*final(url)) == Seq::<(Seq<char>, Seq<char>)>::empty(),
        url_scheme(*final(url)) == url_scheme(*old(url)),
        url_address(*final(url)) == url_address(*old(url)),
        url_fragment(*final(url)) == url_fragment(*old(url)),
        url_has_host(*final(url)) == url_has_host(*old(url)),
        url_len(*final(url)) <= url_len(*old(url)) + 1,
{
    url.query_pairs_mut().clear();
}

/// `Url::query_pairs_mut` and `Serializer::append_pair`: the pair is written
/// behind the query in `application/x-www-form-urlencoded` syntax, from which
/// `Url::query_pairs` reads the same key and value back; everything else
/// stays as it was.
///
/// The text grows by the encoded key and value and at most three separators,
/// and must stay within the 32-bit offsets of the `url` crate.
#[verifier::external_body]
pub(crate) fn append_pair(url: &mut Url, key: &str, value: &str)
    requires
        url_len(*old(url)) + pair_growth(key@, value@) <= u32::MAX,
    ensures
        url_query(*final(url)) == url_query(*old(url)).push((key@, value@)),
        url_scheme(*final(url)) == url_scheme(*old(url)),
        url_address(*final(url)) == url_address(*old(url)),
        url_fragment(*final(url)) == url_fragment(*old(url)),
        url_has_host(*final(url)) == url_has_host(*old(url)),
        url_len(*final(url)) <= url_len(*old(url)) + pair_growth(key@, value@),
{
    url.query_pairs_mut().append_pair(key, value);
}

/// `Url::set_fragment` with `None`: the text is cut where the fragment
/// began, so that the old text is the new one followed by the fragment. A
/// URL without a fragment is left as it is.
#[verifier::external_body]
pub(crate) fn remove_fragment(url: &mut Url)
    ensures
        url_fragment(*final(url)) is None,
        url_text(*old(url)) == url_text(*final(url)) + fragment_text(url_fragment(*old(url))),
        url_scheme(*final(url)) == url_scheme(*old(url)),
        url_address(*final(url)) == url_address(*old(url)),
        url_query(*final(url)) == url_query(*old(url)),
        url_has_host(*final(url)) == url_has_host(*old(url)),
        url_len(*final(url)) <= url_len(*old(url)),
        url_fragment(*old(url)) is None ==> *final(url) == *old(url),
{
    url.set_fragment(None);
}

/// `Url::set_scheme`, for a scheme of lower-case letters that is no longer
/// than the present one (so that no offset into the text grows).
///
/// The `url` crate refuses to give a special scheme to a URL without a host,
/// and then leaves the URL untouched. Otherwise it writes the new scheme in
/// place of the old one and keeps the text that follows, so that the text
/// does not grow.
#[verifier::external_body]
pub(crate) fn set_scheme(url: &mut Url, scheme: &str) -> (outcome: Result<(), ()>)
    requires
        is_plain_scheme(scheme@),
        scheme@.len() <= url_scheme(*old(url)).len(),
    ensures
        outcome is Ok <==> url_has_host(*old(url)) || !is_special_scheme(scheme@),
        outcome is Ok ==> url_scheme(*final(url)) == scheme@,
        outcome is Ok ==> url_text(*final(url)) == scheme@ + url_text(*old(url)).skip(
            url_scheme(*old(url)).len() as int,
        ),
        outcome is Ok ==> url_len(*final(url)) <= url_len(*old(url)),
        outcome is Ok ==> url_address(*final(url)) == url_address(*old(url)),
        outcome is Ok ==> url_query(*final(url)) == url_query(*old(url)),
        outcome is Ok ==> url_fragment(*final(url)) == url_fragment(*old(url)),
        outcome is Ok ==> url_has_host(*final(url)) == url_has_host(*old(url)),
        outcome is Err ==> *final(url) == *old(url),
{
    url.set_scheme(scheme)
}

} // verus!
