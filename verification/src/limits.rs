//! Room in a URL's text.
//!
//! The `url` crate addresses the text of a URL with 32-bit offsets. Writing a
//! query anew may lengthen the text, since a byte that stood unescaped may
//! come back percent-encoded. The bound below is what keeps every step of the
//! rewriting within those offsets.

use crate::pairs::pair_views;
use crate::parsed_url::{pair_growth, query_pairs, text_of, url_len, url_query};
use url::Url;
use vstd::prelude::*;

verus! {

/// The most by which writing all pairs of a query lengthens a URL's text.
pub open spec fn query_growth(q: Seq<(Seq<char>, Seq<char>)>) -> nat
    decreases q.len(),
{
    if q.len() == 0 {
        0
    } else {
        query_growth(q.drop_last()) + pair_growth(q.last().0, q.last().1)
    }
}

/// The text of `url` has room for its query written anew: for a `?` and for
/// every pair at its longest.
pub open spec fn rewrite_fits(url: Url) -> bool {
    url_len(url) + 1 + query_growth(url_query(url)) <= u32::MAX
}

/// One more pair adds its own growth.
pub proof fn lemma_query_growth_step(q: Seq<(Seq<char>, Seq<char>)>, i: int)
    requires
        0 <= i < q.len(),
    ensures
        query_growth(q.take(i + 1)) == query_growth(q.take(i)) + pair_growth(q[i].0, q[i].1),
{
    assert(q.take(i + 1).drop_last() =~= q.take(i));
}

/// The first pairs of a query grow the text no more than all of them.
pub proof fn lemma_query_growth_monotone(q: Seq<(Seq<char>, Seq<char>)>, i: int)
    requires
        0 <= i <= q.len(),
    ensures
        query_growth(q.take(i)) <= query_growth(q),
    decreases q.len() - i,
{
    if i == q.len() {
        assert(q.take(i) =~= q);
    } else {
        lemma_query_growth_step(q, i);
        lemma_query_growth_monotone(q, i + 1);
    }
}

/// A query grows the text by what one of its pairs adds and what the others
/// add.
pub proof fn lemma_query_growth_remove(q: Seq<(Seq<char>, Seq<char>)>, at: int)
    requires
        0 <= at < q.len(),
    ensures
        query_growth(q) == query_growth(q.remove(at)) + pair_growth(q[at].0, q[at].1),
    decreases q.len(),
{
    if at == q.len() - 1 {
        assert(q.remove(at) =~= q.drop_last());
    } else {
        lemma_query_growth_remove(q.drop_last(), at);
        assert(q.remove(at).drop_last() =~= q.drop_last().remove(at));
        assert(q.remove(at).last() == q.last());
    }
}

/// The growth does not depend on the order of the pairs.
pub proof fn lemma_query_growth_same_pairs(
    a: Seq<(Seq<char>, Seq<char>)>,
    b: Seq<(Seq<char>, Seq<char>)>,
)
    requires
        a.to_multiset() == b.to_multiset(),
    ensures
        query_growth(a) == query_growth(b),
    decreases a.len(),
{
    vstd::seq_lib::to_multiset_len(a);
    vstd::seq_lib::to_multiset_len(b);
    if a.len() > 0 {
        let last = a.last();
        let rest = a.drop_last();
        assert(a.remove(a.len() - 1) =~= rest);
        vstd::seq_lib::to_multiset_remove(a, a.len() - 1);
        assert(a.contains(last)) by {
            assert(a[a.len() - 1] == last);
        }
        vstd::seq_lib::to_multiset_contains(a, last);
        vstd::seq_lib::to_multiset_contains(b, last);
        let at = choose|at: int| 0 <= at < b.len() && b[at] == last;
        vstd::seq_lib::to_multiset_remove(b, at);
        lemma_query_growth_same_pairs(rest, b.remove(at));
        lemma_query_growth_remove(b, at);
    }
}

/// Whether the text of `url` has room for its query written anew.
pub fn can_rewrite_query(url: &Url) -> (fits: bool)
    ensures
        fits == rewrite_fits(*url),
{
    let len = text_of(url).as_bytes().len();
    if len >= u32::MAX as usize {
        return false;
    }
    let pairs = query_pairs(url);
    let ghost q = pair_views(pairs@);
    let mut room: u64 = (u32::MAX as u64) - (len as u64) - 1;
    let mut i: usize = 0;
    while i < pairs.len()
        invariant
            i <= pairs.len(),
            q == pair_views(pairs@),
            q == url_query(*url),
            len == url_len(*url),
            room + len + 1 + query_growth(q.take(i as int)) == u32::MAX,
        decreases pairs.len() - i,
    {
        let key_len = pairs[i].key.as_str().as_bytes().len();
        let value_len = pairs[i].value.as_str().as_bytes().len();
        proof {
            lemma_query_growth_step(q, i as int);
            lemma_query_growth_monotone(q, i + 1);
            assert(q[i as int] == pairs@[i as int]@);
        }
        let need: u128 = 3 * (key_len as u128) + 3 * (value_len as u128) + 3;
        if need > room as u128 {
            return false;
        }
        room = room - (need as u64);
        i = i + 1;
    }
    proof {
        assert(q.take(i as int) =~= q);
    }
    true
}

} // verus!
