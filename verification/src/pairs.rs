//! Query pairs and their canonical order.
//!
//! A query is a sequence of (key, value) pairs; pairs with the same key are
//! distinct entries. Its canonical order arranges the pairs by key alone, in
//! the order of [`precedes`], and keeps pairs of equal key in the order in
//! which they were given.

use crate::key_order::{
    comes_before, lemma_not_after_transitive, lemma_precedes_asymmetric,
    lemma_precedes_irreflexive, lemma_precedes_total, precedes,
};
use vstd::prelude::*;

verus! {

/// One entry of a query.
#[derive(Clone, Debug, PartialEq, Eq)]
pub struct QueryPair {
    pub key: String,
    pub value: String,
}

impl View for QueryPair {
    type V = (Seq<char>, Seq<char>);

    open spec fn view(&self) -> (Seq<char>, Seq<char>) {
        (self.key@, self.value@)
    }
}

/// The pairs of a query as (key, value) character sequences.
pub open spec fn pair_views(pairs: Seq<QueryPair>) -> Seq<(Seq<char>, Seq<char>)> {
    pairs.map_values(|p: QueryPair| p@)
}

/// No pair is followed by one whose key stands before its own.
pub open spec fn sorted_by_key(q: Seq<(Seq<char>, Seq<char>)>) -> bool {
    forall|i: int, j: int| 0 <= i < j < q.len() ==> !precedes(#[trigger] q[j].0, #[trigger] q[i].0)
}

/// The pairs of `q` whose key is `key`, in the order in which `q` holds them.
pub open spec fn with_key(q: Seq<(Seq<char>, Seq<char>)>, key: Seq<char>) -> Seq<
    (Seq<char>, Seq<char>),
>
    decreases q.len(),
{
    if q.len() == 0 {
        Seq::empty()
    } else if q.last().0 == key {
        with_key(q.drop_last(), key).push(q.last())
    } else {
        with_key(q.drop_last(), key)
    }
}

/// `sorted` is the canonical order of `given`: it is sorted by key, and for
/// every key it holds the same pairs as `given`, in the same order.
pub open spec fn is_canonical_order_of(
    sorted: Seq<(Seq<char>, Seq<char>)>,
    given: Seq<(Seq<char>, Seq<char>)>,
) -> bool {
    &&& sorted_by_key(sorted)
    &&& forall|key: Seq<char>| #[trigger] with_key(sorted, key) == with_key(given, key)
}

/// Of two pairs with different keys, the one whose key stands first comes
/// first, and only that one.
pub open spec fn obeys_ordering_law(q: Seq<(Seq<char>, Seq<char>)>) -> bool {
    forall|i: int, j: int|
        0 <= i < q.len() && 0 <= j < q.len() && #[trigger] q[i].0 != #[trigger] q[j].0 ==> (i < j
            <==> precedes(q[i].0, q[j].0))
}

/// The pairs with a given key, taken from two queries set one after the
/// other, are those of the first followed by those of the second.
pub proof fn lemma_with_key_concat(
    a: Seq<(Seq<char>, Seq<char>)>,
    b: Seq<(Seq<char>, Seq<char>)>,
    key: Seq<char>,
)
    ensures
        with_key(a + b, key) == with_key(a, key) + with_key(b, key),
    decreases b.len(),
{
    if b.len() == 0 {
        assert(a + b =~= a);
        assert(with_key(a, key) + with_key(b, key) =~= with_key(a, key));
    } else {
        assert((a + b).drop_last() =~= a + b.drop_last());
        assert((a + b).last() == b.last());
        lemma_with_key_concat(a, b.drop_last(), key);
        if b.last().0 == key {
            assert(with_key(a, key) + with_key(b.drop_last(), key).push(b.last()) =~= (with_key(
                a,
                key,
            ) + with_key(b.drop_last(), key)).push(b.last()));
        }
    }
}

/// A query of one pair holds that pair under its own key and nothing under
/// any other.
pub proof fn lemma_with_key_single(pair: (Seq<char>, Seq<char>), key: Seq<char>)
    ensures
        with_key(seq![pair], key) == if pair.0 == key {
            seq![pair]
        } else {
            Seq::empty()
        },
{
    let single = seq![pair];
    assert(single.last() == pair);
    assert(single.drop_last() =~= Seq::<(Seq<char>, Seq<char>)>::empty());
    assert(with_key(single.drop_last(), key) =~= Seq::<(Seq<char>, Seq<char>)>::empty());
    if pair.0 == key {
        assert(with_key(single, key) =~= seq![pair]);
    }
}

/// Every pair that `with_key` selects has the key asked for and occurs in
/// the query.
pub proof fn lemma_with_key_members(q: Seq<(Seq<char>, Seq<char>)>, key: Seq<char>)
    ensures
        with_key(q, key).len() <= q.len(),
        forall|i: int|
            0 <= i < with_key(q, key).len() ==> (#[trigger] with_key(q, key)[i]).0 == key
                && q.contains(with_key(q, key)[i]),
        (forall|i: int| 0 <= i < q.len() ==> (#[trigger] q[i]).0 != key) ==> with_key(q, key).len()
            == 0,
        forall|i: int| 0 <= i < q.len() && (#[trigger] q[i]).0 == key ==> with_key(q, key).len() > 0,
    decreases q.len(),
{
    if q.len() > 0 {
        let front = q.drop_last();
        lemma_with_key_members(front, key);
        assert forall|i: int| 0 <= i < with_key(q, key).len() implies (#[trigger] with_key(
            q,
            key,
        )[i]).0 == key && q.contains(with_key(q, key)[i]) by {
            if i < with_key(front, key).len() {
                let p = with_key(front, key)[i];
                assert(front.contains(p));
                let at = choose|at: int| 0 <= at < front.len() && front[at] == p;
                assert(q[at] == p);
            } else {
                assert(q[q.len() - 1] == q.last());
            }
        }
        if forall|i: int| 0 <= i < q.len() ==> (#[trigger] q[i]).0 != key {
            assert forall|i: int| 0 <= i < front.len() implies (#[trigger] front[i]).0 != key by {
                assert(front[i] == q[i]);
            }
            assert(q[q.len() - 1].0 != key);
        }
        assert forall|i: int| 0 <= i < q.len() && (#[trigger] q[i]).0 == key implies with_key(
            q,
            key,
        ).len() > 0 by {
            if i < front.len() {
                assert(front[i] == q[i]);
            }
        }
    }
}

/// A pair occurs in a query as often as among the pairs of its own key.
pub proof fn lemma_count_by_key(q: Seq<(Seq<char>, Seq<char>)>, pair: (Seq<char>, Seq<char>))
    ensures
        q.to_multiset().count(pair) == with_key(q, pair.0).to_multiset().count(pair),
    decreases q.len(),
{
    broadcast use vstd::multiset::group_multiset_axioms;

    if q.len() == 0 {
        assert(with_key(q, pair.0) =~= q);
    } else {
        let front = q.drop_last();
        let last = q.last();
        assert(q =~= front.push(last));
        lemma_count_by_key(front, pair);
        vstd::seq_lib::to_multiset_build(front, last);
        assert(q.to_multiset().count(pair) == front.to_multiset().count(pair) + if last == pair {
            1int
        } else {
            0int
        });
        if last.0 == pair.0 {
            vstd::seq_lib::to_multiset_build(with_key(front, pair.0), last);
        }
    }
}

/// Two queries that hold, for every key, the same pairs in the same order
/// hold the same pairs, each as often as the other.
pub proof fn lemma_same_by_key_same_pairs(
    a: Seq<(Seq<char>, Seq<char>)>,
    b: Seq<(Seq<char>, Seq<char>)>,
)
    requires
        forall|key: Seq<char>| #[trigger] with_key(a, key) == with_key(b, key),
    ensures
        a.to_multiset() == b.to_multiset(),
        a.len() == b.len(),
{
    assert forall|pair: (Seq<char>, Seq<char>)|
        a.to_multiset().count(pair) == b.to_multiset().count(pair) by {
        lemma_count_by_key(a, pair);
        lemma_count_by_key(b, pair);
        assert(with_key(a, pair.0) == with_key(b, pair.0));
    }
    assert(a.to_multiset() =~= b.to_multiset());
    vstd::seq_lib::to_multiset_len(a);
    vstd::seq_lib::to_multiset_len(b);
}

/// The canonical order of a query holds the pairs of the query, each as
/// often as the query does: sorting neither adds nor drops nor merges a pair.
pub proof fn lemma_canonical_order_keeps_pairs(
    sorted: Seq<(Seq<char>, Seq<char>)>,
    given: Seq<(Seq<char>, Seq<char>)>,
)
    requires
        is_canonical_order_of(sorted, given),
    ensures
        sorted.to_multiset() == given.to_multiset(),
        sorted.len() == given.len(),
{
    lemma_same_by_key_same_pairs(sorted, given);
}

/// In a query sorted by key, of any two pairs with different keys the one
/// whose key is shorter, or as long and lexicographically smaller, comes
/// first, and no other does.
pub proof fn lemma_sorted_obeys_ordering_law(q: Seq<(Seq<char>, Seq<char>)>)
    requires
        sorted_by_key(q),
    ensures
        obeys_ordering_law(q),
{
    assert forall|i: int, j: int|
        0 <= i < q.len() && 0 <= j < q.len() && #[trigger] q[i].0 != #[trigger] q[j].0 implies (i
        < j <==> precedes(q[i].0, q[j].0)) by {
        lemma_precedes_total(q[i].0, q[j].0);
        if precedes(q[i].0, q[j].0) {
            lemma_precedes_asymmetric(q[i].0, q[j].0);
        }
    }
}

/// The pairs with a given key, read from the front: the first pair if it
/// has the key, then those of the rest.
pub proof fn lemma_with_key_front(q: Seq<(Seq<char>, Seq<char>)>, key: Seq<char>)
    requires
        q.len() > 0,
    ensures
        with_key(q, key) == if q[0].0 == key {
            seq![q[0]] + with_key(q.drop_first(), key)
        } else {
            with_key(q.drop_first(), key)
        },
{
    assert(q =~= seq![q[0]] + q.drop_first());
    lemma_with_key_concat(seq![q[0]], q.drop_first(), key);
    lemma_with_key_single(q[0], key);
    if q[0].0 != key {
        assert(Seq::<(Seq<char>, Seq<char>)>::empty() + with_key(q.drop_first(), key) =~= with_key(
            q.drop_first(),
            key,
        ));
    }
}

/// In a sorted query no key stands before the key of the first pair.
proof fn lemma_first_key_least(q: Seq<(Seq<char>, Seq<char>)>, key: Seq<char>)
    requires
        sorted_by_key(q),
        with_key(q, key).len() > 0,
    ensures
        q.len() > 0,
        !precedes(key, q[0].0),
{
    lemma_with_key_members(q, key);
    let found = with_key(q, key)[0];
    assert(q.contains(found));
    let at = choose|at: int| 0 <= at < q.len() && q[at] == found;
    if at == 0 {
        lemma_precedes_irreflexive(key);
    } else {
        assert(!precedes(q[at].0, q[0].0));
    }
}

/// Two sorted queries that hold, for every key, the same pairs in the same
/// order are the same query: sortedness by key and the order among equal
/// keys leave no choice.
pub proof fn lemma_sorted_same_by_key_equal(
    a: Seq<(Seq<char>, Seq<char>)>,
    b: Seq<(Seq<char>, Seq<char>)>,
)
    requires
        sorted_by_key(a),
        sorted_by_key(b),
        forall|key: Seq<char>| #[trigger] with_key(a, key) == with_key(b, key),
    ensures
        a == b,
    decreases a.len(),
{
    lemma_same_by_key_same_pairs(a, b);
    if a.len() == 0 {
        assert(a =~= b);
    } else {
        let ka = a[0].0;
        let kb = b[0].0;
        lemma_with_key_members(a, ka);
        lemma_with_key_members(b, kb);
        assert(with_key(b, ka) == with_key(a, ka));
        assert(with_key(a, kb) == with_key(b, kb));
        lemma_first_key_least(b, ka);
        lemma_first_key_least(a, kb);
        if ka != kb {
            lemma_precedes_total(ka, kb);
        }
        lemma_with_key_front(a, ka);
        lemma_with_key_front(b, ka);
        assert(a[0] == with_key(a, ka)[0]);
        assert(b[0] == with_key(b, ka)[0]);
        let ra = a.drop_first();
        let rb = b.drop_first();
        assert forall|key: Seq<char>| #[trigger] with_key(ra, key) == with_key(rb, key) by {
            lemma_with_key_front(a, key);
            lemma_with_key_front(b, key);
            assert(with_key(a, key) == with_key(b, key));
            if ka == key {
                let x = seq![a[0]];
                assert(with_key(ra, key) =~= (x + with_key(ra, key)).skip(1));
                assert(with_key(rb, key) =~= (x + with_key(rb, key)).skip(1));
            }
        }
        assert(sorted_by_key(ra)) by {
            assert forall|i: int, j: int| 0 <= i < j < ra.len() implies !precedes(
                #[trigger] ra[j].0,
                #[trigger] ra[i].0,
            ) by {
                assert(ra[i] == a[i + 1] && ra[j] == a[j + 1]);
            }
        }
        assert(sorted_by_key(rb)) by {
            assert forall|i: int, j: int| 0 <= i < j < rb.len() implies !precedes(
                #[trigger] rb[j].0,
                #[trigger] rb[i].0,
            ) by {
                assert(rb[i] == b[i + 1] && rb[j] == b[j + 1]);
            }
        }
        lemma_sorted_same_by_key_equal(ra, rb);
        assert(a =~= seq![a[0]] + ra);
        assert(b =~= seq![b[0]] + rb);
    }
}

/// A query has one canonical order and no other.
pub proof fn lemma_canonical_order_unique(
    first: Seq<(Seq<char>, Seq<char>)>,
    second: Seq<(Seq<char>, Seq<char>)>,
    given: Seq<(Seq<char>, Seq<char>)>,
)
    requires
        is_canonical_order_of(first, given),
        is_canonical_order_of(second, given),
    ensures
        first == second,
{
    assert forall|key: Seq<char>| #[trigger] with_key(first, key) == with_key(second, key) by {
        assert(with_key(first, key) == with_key(given, key));
        assert(with_key(second, key) == with_key(given, key));
    }
    lemma_sorted_same_by_key_equal(first, second);
}

/// Placing a pair behind every pair whose key stands before its own, and
/// ahead of all others, keeps a sorted query sorted; among the pairs of its
/// own key the new pair comes first, and the pairs of other keys stay as they
/// were.
pub proof fn lemma_place(sorted: Seq<(Seq<char>, Seq<char>)>, at: int, pair: (Seq<char>, Seq<char>))
    requires
        sorted_by_key(sorted),
        0 <= at <= sorted.len(),
        forall|i: int| 0 <= i < at ==> precedes((#[trigger] sorted[i]).0, pair.0),
        forall|i: int| at <= i < sorted.len() ==> !precedes((#[trigger] sorted[i]).0, pair.0),
    ensures
        sorted_by_key(sorted.insert(at, pair)),
        with_key(sorted.insert(at, pair), pair.0) == seq![pair] + with_key(sorted, pair.0),
        forall|key: Seq<char>|
            key != pair.0 ==> #[trigger] with_key(sorted.insert(at, pair), key) == with_key(
                sorted,
                key,
            ),
{
    let placed = sorted.insert(at, pair);
    let head = sorted.take(at);
    let tail = sorted.skip(at);
    assert(placed =~= head + seq![pair] + tail);
    assert(sorted =~= head + tail);
    assert forall|i: int, j: int| 0 <= i < j < placed.len() implies !precedes(
        #[trigger] placed[j].0,
        #[trigger] placed[i].0,
    ) by {
        if j < at {
            assert(placed[i] == sorted[i] && placed[j] == sorted[j]);
        } else if j == at {
            assert(placed[i] == sorted[i]);
            lemma_precedes_asymmetric(sorted[i].0, pair.0);
        } else if i < at {
            assert(placed[i] == sorted[i] && placed[j] == sorted[j - 1]);
        } else if i == at {
            assert(placed[j] == sorted[j - 1]);
        } else {
            assert(placed[i] == sorted[i - 1] && placed[j] == sorted[j - 1]);
        }
    }
    assert forall|key: Seq<char>| #[trigger]
        with_key(placed, key) == with_key(head, key) + with_key(seq![pair], key) + with_key(
            tail,
            key,
        ) && with_key(sorted, key) == with_key(head, key) + with_key(tail, key) by {
        lemma_with_key_concat(head + seq![pair], tail, key);
        lemma_with_key_concat(head, seq![pair], key);
        lemma_with_key_concat(head, tail, key);
    }
    assert(with_key(head, pair.0).len() == 0) by {
        assert forall|i: int| 0 <= i < head.len() implies (#[trigger] head[i]).0 != pair.0 by {
            assert(head[i] == sorted[i]);
            lemma_precedes_irreflexive(pair.0);
        }
        lemma_with_key_members(head, pair.0);
    }
    lemma_with_key_single(pair, pair.0);
    assert(with_key(placed, pair.0) =~= seq![pair] + with_key(sorted, pair.0));
    assert forall|key: Seq<char>| key != pair.0 implies #[trigger] with_key(placed, key)
        == with_key(sorted, key) by {
        lemma_with_key_single(pair, key);
        assert(with_key(placed, key) =~= with_key(sorted, key));
    }
}

/// The first place in a sorted query at which a pair with the given key can
/// stand ahead of every pair that does not come before it.
pub fn insertion_point(sorted: &Vec<QueryPair>, key: &String) -> (at: usize)
    requires
        sorted_by_key(pair_views(sorted@)),
    ensures
        at <= sorted.len(),
        forall|i: int| 0 <= i < at ==> precedes((#[trigger] pair_views(sorted@)[i]).0, key@),
        forall|i: int|
            at <= i < sorted.len() ==> !precedes((#[trigger] pair_views(sorted@)[i]).0, key@),
{
    let ghost q = pair_views(sorted@);
    let mut at: usize = 0;
    while at < sorted.len() && comes_before(&sorted[at].key, key)
        invariant
            at <= sorted.len(),
            q == pair_views(sorted@),
            forall|i: int| 0 <= i < at ==> precedes((#[trigger] q[i]).0, key@),
        decreases sorted.len() - at,
    {
        at = at + 1;
    }
    proof {
        assert forall|i: int| at <= i < sorted.len() implies !precedes((#[trigger] q[i]).0, key@) by {
            if i > at {
                lemma_not_after_transitive(key@, q[at as int].0, q[i].0);
            }
        }
    }
    at
}

/// Arranges the pairs of a query in canonical order.
///
/// The result is sorted by key; it holds the same pairs as the input, and
/// pairs of equal key stay in the order in which they were given.
pub fn sort_pairs(pairs: Vec<QueryPair>) -> (sorted: Vec<QueryPair>)
    ensures
        is_canonical_order_of(pair_views(sorted@), pair_views(pairs@)),
        pair_views(sorted@).to_multiset() == pair_views(pairs@).to_multiset(),
        obeys_ordering_law(pair_views(sorted@)),
        sorted.len() == pairs.len(),
{
    let ghost given = pair_views(pairs@);
    let mut rest = pairs;
    let mut sorted: Vec<QueryPair> = Vec::new();
    proof {
        assert forall|key: Seq<char>| with_key(pair_views(rest@), key) + with_key(
            pair_views(sorted@),
            key,
        ) == #[trigger] with_key(given, key) by {
            assert(with_key(pair_views(rest@), key) + with_key(pair_views(sorted@), key)
                =~= with_key(given, key));
        }
    }
    while rest.len() > 0
        invariant
            sorted_by_key(pair_views(sorted@)),
            forall|key: Seq<char>|
                with_key(pair_views(rest@), key) + with_key(pair_views(sorted@), key)
                    == #[trigger] with_key(given, key),
        decreases rest.len(),
    {
        let ghost before = pair_views(rest@);
        let ghost done = pair_views(sorted@);
        let pair = rest.pop().unwrap();
        let at = insertion_point(&sorted, &pair.key);
        proof {
            lemma_place(done, at as int, pair@);
        }
        sorted.insert(at, pair);
        proof {
            let placed = pair_views(sorted@);
            assert(placed =~= done.insert(at as int, pair@));
            assert(pair_views(rest@) =~= before.drop_last());
            assert(before.last() == pair@);
            assert forall|key: Seq<char>| with_key(pair_views(rest@), key) + with_key(placed, key)
                == #[trigger] with_key(given, key) by {
                assert(with_key(before, key) + with_key(done, key) == with_key(given, key));
                if key == pair@.0 {
                    assert(with_key(before.drop_last(), key) + (seq![pair@] + with_key(done, key))
                        =~= with_key(before.drop_last(), key).push(pair@) + with_key(done, key));
                } else {
                    assert(with_key(placed, key) == with_key(done, key));
                }
            }
        }
    }
    proof {
        assert forall|key: Seq<char>| #[trigger]
            with_key(pair_views(sorted@), key) == with_key(given, key) by {
            assert(with_key(pair_views(rest@), key) + with_key(pair_views(sorted@), key)
                == with_key(given, key));
            assert(with_key(pair_views(rest@), key) + with_key(pair_views(sorted@), key)
                =~= with_key(pair_views(sorted@), key));
        }
        lemma_canonical_order_keeps_pairs(pair_views(sorted@), given);
        lemma_sorted_obeys_ordering_law(pair_views(sorted@));
    }
    sorted
}

} // verus!
