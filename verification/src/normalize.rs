//! The three stages and the pipeline that applies them in turn: the query is
//! put into canonical order, the fragment is removed, the scheme is
//! downgraded.

use crate::limits::{
    can_rewrite_query, lemma_query_growth_monotone, lemma_query_growth_same_pairs,
    lemma_query_growth_step, query_growth, rewrite_fits,
};
use crate::pairs::{
    is_canonical_order_of, lemma_canonical_order_keeps_pairs, lemma_canonical_order_unique,
    lemma_sorted_obeys_ordering_law, obeys_ordering_law, pair_views, sort_pairs,
};
use crate::parsed_url::{
    append_pair, clear_query, fragment_text, query_pairs, remove_fragment, scheme_of, set_scheme,
    url_address, url_fragment, url_has_host, url_len, url_query, url_scheme, url_text,
};
use crate::scheme::{
    downgraded, downgraded_scheme, lemma_downgraded_is_settled, lemma_plain_scheme_shape,
    plain_scheme,
};
use url::Url;
use vstd::prelude::*;

verus! {

/// Why a URL could not be normalized.
#[derive(Clone, Copy, Debug, PartialEq, Eq, Structural)]
pub enum NormalizationError {
    /// The URL cannot take the plain scheme that the mapping gives it.
    SchemeRejected,
}

/// `sorted` is `url` with its query in canonical order and nothing else
/// changed.
pub open spec fn query_normalized(url: Url, sorted: Url) -> bool {
    &&& is_canonical_order_of(url_query(sorted), url_query(url))
    &&& url_scheme(sorted) == url_scheme(url)
    &&& url_address(sorted) == url_address(url)
    &&& url_fragment(sorted) == url_fragment(url)
    &&& url_has_host(sorted) == url_has_host(url)
}

/// `stripped` is `url` without its fragment and with nothing else changed:
/// its text is that of `url` up to the `#`. It is `url` itself where `url`
/// has no fragment.
pub open spec fn hash_normalized(url: Url, stripped: Url) -> bool {
    &&& url_fragment(stripped) is None
    &&& url_text(url) == url_text(stripped) + fragment_text(url_fragment(url))
    &&& url_scheme(stripped) == url_scheme(url)
    &&& url_address(stripped) == url_address(url)
    &&& url_query(stripped) == url_query(url)
    &&& url_has_host(stripped) == url_has_host(url)
    &&& url_fragment(url) is None ==> stripped == url
}

/// The outcome of the scheme stage on `url`.
///
/// A URL whose scheme is not in the mapping comes back as it is. One whose
/// scheme is in the mapping comes back with the plain scheme and nothing else
/// changed (its text is the plain scheme followed by what followed the old
/// one), unless it has no host: then it is rejected.
pub open spec fn scheme_normalized(url: Url, outcome: Result<Url, NormalizationError>) -> bool {
    match plain_scheme(url_scheme(url)) {
        None => outcome == Ok::<Url, NormalizationError>(url),
        Some(plain) => if url_has_host(url) {
            &&& outcome matches Ok(changed)
            &&& url_scheme(changed) == plain
            &&& url_text(changed) == plain + url_text(url).skip(url_scheme(url).len() as int)
            &&& url_len(changed) <= url_len(url)
            &&& url_address(changed) == url_address(url)
            &&& url_query(changed) == url_query(url)
            &&& url_fragment(changed) == url_fragment(url)
            &&& url_has_host(changed)
        } else {
            outcome == Err::<Url, NormalizationError>(NormalizationError::SchemeRejected)
        },
    }
}

/// The outcome of the whole pipeline on `url`.
///
/// A URL without a host whose scheme is in the mapping is rejected. Any
/// other comes back with the downgraded scheme, its query in canonical order,
/// no fragment, and authority and path as they were.
pub open spec fn normalized(url: Url, outcome: Result<Url, NormalizationError>) -> bool {
    if plain_scheme(url_scheme(url)) is Some && !url_has_host(url) {
        outcome == Err::<Url, NormalizationError>(NormalizationError::SchemeRejected)
    } else {
        &&& outcome matches Ok(canonical)
        &&& url_scheme(canonical) == downgraded(url_scheme(url))
        &&& url_address(canonical) == url_address(url)
        &&& is_canonical_order_of(url_query(canonical), url_query(url))
        &&& url_fragment(canonical) is None
        &&& url_has_host(canonical) == url_has_host(url)
    }
}

/// Puts the query of a URL into canonical order: pairs with shorter keys
/// first, keys of equal length byte by byte, pairs of equal key in the order
/// in which they stood.
///
/// The text of the URL must have room for the query written anew.
pub fn normalize_query(url: Url) -> (sorted: Url)
    requires
        rewrite_fits(url),
    ensures
        query_normalized(url, sorted),
        url_query(sorted).to_multiset() == url_query(url).to_multiset(),
        obeys_ordering_law(url_query(sorted)),
        url_len(sorted) <= url_len(url) + 1 + query_growth(url_query(url)),
{
    let ghost given = url_query(url);
    let mut rewritten = url;
    let pairs = sort_pairs(query_pairs(&rewritten));
    let ghost canonical = pair_views(pairs@);
    proof {
        lemma_canonical_order_keeps_pairs(canonical, given);
        lemma_sorted_obeys_ordering_law(canonical);
        lemma_query_growth_same_pairs(canonical, given);
    }
    clear_query(&mut rewritten);
    let mut i: usize = 0;
    while i < pairs.len()
        invariant
            i <= pairs.len(),
            canonical == pair_views(pairs@),
            url_query(rewritten) == canonical.take(i as int),
            url_scheme(rewritten) == url_scheme(url),
            url_address(rewritten) == url_address(url),
            url_fragment(rewritten) == url_fragment(url),
            url_has_host(rewritten) == url_has_host(url),
            url_len(rewritten) <= url_len(url) + 1 + query_growth(canonical.take(i as int)),
            url_len(url) + 1 + query_growth(canonical) <= u32::MAX,
        decreases pairs.len() - i,
    {
        proof {
            lemma_query_growth_step(canonical, i as int);
            lemma_query_growth_monotone(canonical, i + 1);
            assert(canonical[i as int] == pairs@[i as int]@);
            assert(canonical.take(i + 1) =~= canonical.take(i as int).push(canonical[i as int]));
        }
        append_pair(&mut rewritten, pairs[i].key.as_str(), pairs[i].value.as_str());
        i = i + 1;
    }
    proof {
        assert(canonical.take(i as int) =~= canonical);
    }
    rewritten
}

/// Puts the query of a URL into canonical order where its text has room for
/// the query written anew; a URL that has none is not touched and `None` is
/// returned.
pub fn checked_normalize_query(url: Url) -> (sorted: Option<Url>)
    ensures
        sorted is Some <==> rewrite_fits(url),
        sorted matches Some(s) ==> query_normalized(url, s),
{
    if can_rewrite_query(&url) {
        Some(normalize_query(url))
    } else {
        None
    }
}

/// Removes the fragment of a URL.
pub fn normalize_hash(url: Url) -> (stripped: Url)
    ensures
        hash_normalized(url, stripped),
        url_len(stripped) <= url_len(url),
{
    let mut stripped = url;
    remove_fragment(&mut stripped);
    stripped
}

/// Replaces a secure or aliased scheme by its plain counterpart.
///
/// Fails with [`NormalizationError::SchemeRejected`] where the URL cannot
/// take the plain scheme, which is where it has no host.
pub fn normalize_scheme(url: Url) -> (outcome: Result<Url, NormalizationError>)
    ensures
        scheme_normalized(url, outcome),
{
    let mut changed = url;
    match downgraded_scheme(scheme_of(&changed)) {
        None => Ok(changed),
        Some(plain) => {
            proof {
                lemma_plain_scheme_shape(url_scheme(url));
            }
            match set_scheme(&mut changed, plain) {
                Ok(_) => Ok(changed),
                Err(_) => Err(NormalizationError::SchemeRejected),
            }
        },
    }
}

/// Normalizes a URL: query order, then fragment, then scheme.
///
/// The text of the URL must have room for the query written anew.
pub fn normalize(url: Url) -> (outcome: Result<Url, NormalizationError>)
    requires
        rewrite_fits(url),
    ensures
        normalized(url, outcome),
{
    let sorted = normalize_query(url);
    let stripped = normalize_hash(sorted);
    let outcome = normalize_scheme(stripped);
    proof {
        lemma_stages_compose(url, sorted, stripped, outcome);
    }
    outcome
}

/// Normalizes a URL where its text has room for the query written anew; a
/// URL that has none is not touched and `None` is returned.
pub fn checked_normalize(url: Url) -> (outcome: Option<Result<Url, NormalizationError>>)
    ensures
        outcome is Some <==> rewrite_fits(url),
        outcome matches Some(o) ==> normalized(url, o),
{
    if can_rewrite_query(&url) {
        Some(normalize(url))
    } else {
        None
    }
}

/// The pipeline is its three stages applied in turn.
pub proof fn lemma_stages_compose(
    url: Url,
    sorted: Url,
    stripped: Url,
    outcome: Result<Url, NormalizationError>,
)
    requires
        query_normalized(url, sorted),
        hash_normalized(sorted, stripped),
        scheme_normalized(stripped, outcome),
    ensures
        normalized(url, outcome),
{
}

/// Removing the fragment twice gives what removing it once gives.
pub proof fn lemma_normalize_hash_idempotent(url: Url, once: Url, twice: Url)
    requires
        hash_normalized(url, once),
        hash_normalized(once, twice),
    ensures
        twice == once,
{
}

/// Downgrading the scheme twice gives what downgrading it once gives.
pub proof fn lemma_normalize_scheme_idempotent(
    url: Url,
    once: Url,
    twice: Result<Url, NormalizationError>,
)
    requires
        scheme_normalized(url, Ok(once)),
        scheme_normalized(once, twice),
    ensures
        twice == Ok::<Url, NormalizationError>(once),
{
    lemma_downgraded_is_settled(url_scheme(url));
}

/// Sorting the query settles it: two URLs that both are `url` with its query
/// in canonical order hold the same query.
pub proof fn lemma_normalize_query_settles(url: Url, first: Url, second: Url)
    requires
        query_normalized(url, first),
        query_normalized(url, second),
    ensures
        url_query(first) == url_query(second),
{
    lemma_canonical_order_unique(url_query(first), url_query(second), url_query(url));
}

/// The query stage keeps the pairs of the query, each as often as it
/// occurred.
pub proof fn lemma_normalize_query_keeps_pairs(url: Url, sorted: Url)
    requires
        query_normalized(url, sorted),
    ensures
        url_query(sorted).to_multiset() == url_query(url).to_multiset(),
        url_query(sorted).len() == url_query(url).len(),
{
    lemma_canonical_order_keeps_pairs(url_query(sorted), url_query(url));
}

/// In the query that the query stage leaves, of two pairs with different
/// keys the one with the shorter key comes first, or, at equal length, the
/// one whose key is lexicographically smaller.
pub proof fn lemma_normalize_query_orders(url: Url, sorted: Url)
    requires
        query_normalized(url, sorted),
    ensures
        obeys_ordering_law(url_query(sorted)),
{
    lemma_sorted_obeys_ordering_law(url_query(sorted));
}

/// A URL whose scheme is not in the mapping passes the scheme stage
/// unchanged, and the stage does not fail on it.
pub proof fn lemma_unmapped_scheme_passes(url: Url, outcome: Result<Url, NormalizationError>)
    requires
        scheme_normalized(url, outcome),
        plain_scheme(url_scheme(url)) is None,
    ensures
        outcome == Ok::<Url, NormalizationError>(url),
{
}

} // verus!
