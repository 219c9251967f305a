//! The order in which query keys are arranged: shorter keys first, keys of
//! equal length byte by byte.

use std::cmp::Ordering;
use vstd::prelude::*;
use vstd::utf8::*;

verus! {

/// The bytes by which a key is measured and compared: its UTF-8 encoding.
pub open spec fn key_bytes(key: Seq<char>) -> Seq<u8> {
    encode_utf8(key)
}

/// `a` and `b` hold the same bytes at every position below `n`.
pub open spec fn agree_below(a: Seq<u8>, b: Seq<u8>, n: int) -> bool {
    &&& 0 <= n <= a.len()
    &&& n <= b.len()
    &&& forall|j: int| 0 <= j < n ==> a[j] == b[j]
}

/// Strict lexicographic order on byte strings: at the first position where
/// the two differ `a` holds the smaller byte, or `a` ends there and `b` goes on.
pub open spec fn lex_before(a: Seq<u8>, b: Seq<u8>) -> bool {
    exists|n: int|
        #[trigger] agree_below(a, b, n) && n < b.len() && (n == a.len() || a[n] < b[n])
}

/// The canonical order of keys: `a` stands before `b` when it is shorter, or
/// when both have the same length and `a` is lexicographically smaller.
pub open spec fn precedes(a: Seq<char>, b: Seq<char>) -> bool {
    let x = key_bytes(a);
    let y = key_bytes(b);
    x.len() < y.len() || (x.len() == y.len() && lex_before(x, y))
}

/// How one byte string stands to another.
#[derive(Clone, Copy, Debug, PartialEq, Eq, Structural)]
pub enum Placement {
    Before,
    Same,
    After,
}

/// The position `n` up to which two byte strings agree, and at which they
/// part, settles how they compare.
pub proof fn lemma_parting_point(a: Seq<u8>, b: Seq<u8>, n: int)
    requires
        agree_below(a, b, n),
        n == a.len() || n == b.len() || a[n] != b[n],
    ensures
        lex_before(a, b) <==> n < b.len() && (n == a.len() || a[n] < b[n]),
        lex_before(b, a) <==> n < a.len() && (n == b.len() || b[n] < a[n]),
        a == b <==> n == a.len() && n == b.len(),
{
    assert(agree_below(b, a, n));
    if lex_before(a, b) {
        let m = choose|m: int|
            #[trigger] agree_below(a, b, m) && m < b.len() && (m == a.len() || a[m] < b[m]);
        assert(m == n);
    }
    if lex_before(b, a) {
        let m = choose|m: int|
            #[trigger] agree_below(b, a, m) && m < a.len() && (m == b.len() || b[m] < a[m]);
        assert(m == n);
    }
    if n == a.len() && n == b.len() {
        assert(a =~= b);
    }
}

/// Compares two byte strings lexicographically.
pub fn lex_order(x: &[u8], y: &[u8]) -> (r: Placement)
    ensures
        r == Placement::Before <==> lex_before(x@, y@),
        r == Placement::Same <==> x@ == y@,
        r == Placement::After <==> lex_before(y@, x@),
{
    let mut n: usize = 0;
    while n < x.len() && n < y.len() && x[n] == y[n]
        invariant
            agree_below(x@, y@, n as int),
        decreases x.len() - n,
    {
        n = n + 1;
    }
    proof {
        lemma_parting_point(x@, y@, n as int);
    }
    if n == x.len() {
        if n == y.len() {
            Placement::Same
        } else {
            Placement::Before
        }
    } else if n == y.len() {
        Placement::After
    } else if x[n] < y[n] {
        Placement::Before
    } else {
        Placement::After
    }
}

/// Keys with the same bytes are the same key.
pub proof fn lemma_key_bytes_injective(a: Seq<char>, b: Seq<char>)
    requires
        key_bytes(a) == key_bytes(b),
    ensures
        a == b,
{
    encode_utf8_decode_utf8(a);
    encode_utf8_decode_utf8(b);
}

/// No byte string stands before itself.
pub proof fn lemma_lex_irreflexive(a: Seq<u8>)
    ensures
        !lex_before(a, a),
{
    assert(agree_below(a, a, a.len() as int));
    lemma_parting_point(a, a, a.len() as int);
}

/// The first position at or after `from` where `a` and `b` part.
pub open spec fn parting_point(a: Seq<u8>, b: Seq<u8>, from: int) -> int
    decreases a.len() - from,
{
    if 0 <= from < a.len() && from < b.len() && a[from] == b[from] {
        parting_point(a, b, from + 1)
    } else {
        from
    }
}

/// Two byte strings that agree below `from` agree up to their parting point,
/// and there one of them ends or they differ.
pub proof fn lemma_parting_point_exists(a: Seq<u8>, b: Seq<u8>, from: int)
    requires
        agree_below(a, b, from),
    ensures
        agree_below(a, b, parting_point(a, b, from)),
        ({
            let n = parting_point(a, b, from);
            n == a.len() || n == b.len() || a[n] != b[n]
        }),
    decreases a.len() - from,
{
    if from < a.len() && from < b.len() && a[from] == b[from] {
        assert(agree_below(a, b, from + 1));
        lemma_parting_point_exists(a, b, from + 1);
    }
}

/// Of two byte strings at most one stands before the other.
pub proof fn lemma_lex_asymmetric(a: Seq<u8>, b: Seq<u8>)
    requires
        lex_before(a, b),
    ensures
        !lex_before(b, a),
{
    let n = choose|n: int|
        #[trigger] agree_below(a, b, n) && n < b.len() && (n == a.len() || a[n] < b[n]);
    lemma_parting_point(a, b, n);
}

/// The lexicographic order is transitive.
pub proof fn lemma_lex_transitive(a: Seq<u8>, b: Seq<u8>, c: Seq<u8>)
    requires
        lex_before(a, b),
        lex_before(b, c),
    ensures
        lex_before(a, c),
{
    let m = choose|n: int|
        #[trigger] agree_below(a, b, n) && n < b.len() && (n == a.len() || a[n] < b[n]);
    let k = choose|n: int|
        #[trigger] agree_below(b, c, n) && n < c.len() && (n == b.len() || b[n] < c[n]);
    let n = if m <= k {
        m
    } else {
        k
    };
    assert(agree_below(a, c, n));
}

/// Of two different byte strings one stands before the other.
pub proof fn lemma_lex_total(a: Seq<u8>, b: Seq<u8>)
    requires
        a != b,
    ensures
        lex_before(a, b) || lex_before(b, a),
{
    assert(agree_below(a, b, 0));
    lemma_parting_point_exists(a, b, 0);
    lemma_parting_point(a, b, parting_point(a, b, 0));
}

/// No key stands before itself.
pub proof fn lemma_precedes_irreflexive(a: Seq<char>)
    ensures
        !precedes(a, a),
{
    lemma_lex_irreflexive(key_bytes(a));
}

/// Of two keys at most one stands before the other.
pub proof fn lemma_precedes_asymmetric(a: Seq<char>, b: Seq<char>)
    requires
        precedes(a, b),
    ensures
        !precedes(b, a),
{
    if key_bytes(a).len() == key_bytes(b).len() {
        lemma_lex_asymmetric(key_bytes(a), key_bytes(b));
    }
}

/// The canonical order of keys is transitive.
pub proof fn lemma_precedes_transitive(a: Seq<char>, b: Seq<char>, c: Seq<char>)
    requires
        precedes(a, b),
        precedes(b, c),
    ensures
        precedes(a, c),
{
    let x = key_bytes(a);
    let y = key_bytes(b);
    let z = key_bytes(c);
    if x.len() == y.len() && y.len() == z.len() {
        lemma_lex_transitive(x, y, z);
    }
}

/// Of two different keys one stands before the other: the canonical order
/// is total.
pub proof fn lemma_precedes_total(a: Seq<char>, b: Seq<char>)
    requires
        a != b,
    ensures
        precedes(a, b) || precedes(b, a),
{
    let x = key_bytes(a);
    let y = key_bytes(b);
    if x == y {
        lemma_key_bytes_injective(a, b);
    } else if x.len() == y.len() {
        lemma_lex_total(x, y);
    }
}

/// A key that does not stand before another is not overtaken by anything
/// that stands before that other: `!precedes` is transitive too.
pub proof fn lemma_not_after_transitive(a: Seq<char>, b: Seq<char>, c: Seq<char>)
    requires
        !precedes(b, a),
        !precedes(c, b),
    ensures
        !precedes(c, a),
{
    if precedes(c, a) {
        if a == b {
        } else {
            lemma_precedes_total(a, b);
            lemma_precedes_transitive(c, a, b);
        }
    }
}

/// Compares two keys in the canonical order: first by their length in bytes,
/// then, at equal length, byte by byte.
pub fn cmp_string(a: &String, b: &String) -> (r: Ordering)
    ensures
        r == Ordering::Less <==> precedes(a@, b@),
        r == Ordering::Equal <==> a@ == b@,
        r == Ordering::Greater <==> precedes(b@, a@),
{
    let x = a.as_str().as_bytes();
    let y = b.as_str().as_bytes();
    if x.len() < y.len() {
        Ordering::Less
    } else if y.len() < x.len() {
        Ordering::Greater
    } else {
        match lex_order(x, y) {
            Placement::Before => {
                proof {
                    lemma_lex_irreflexive(x@);
                }
                Ordering::Less
            },
            Placement::Same => {
                proof {
                    lemma_key_bytes_injective(a@, b@);
                    lemma_lex_irreflexive(x@);
                }
                Ordering::Equal
            },
            Placement::After => {
                proof {
                    lemma_lex_irreflexive(x@);
                }
                Ordering::Greater
            },
        }
    }
}

/// Whether key `a` stands before key `b` in the canonical order.
pub fn comes_before(a: &String, b: &String) -> (r: bool)
    ensures
        r == precedes(a@, b@),
{
    match cmp_string(a, b) {
        Ordering::Less => true,
        Ordering::Equal => false,
        Ordering::Greater => false,
    }
}

} // verus!
