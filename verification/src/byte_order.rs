//! The order of transactions.
//!
//! A transaction is an opaque byte string. Batches list their transactions in
//! lexicographic byte order, which is what makes a batch canonical: every node
//! that agrees on the set of transactions agrees on their sequence.

use vstd::prelude::*;

verus! {

/// `a` and `b` hold the same bytes at every position below `n`.
pub open spec fn agree_below(a: Seq<u8>, b: Seq<u8>, n: int) -> bool {
    &&& 0 <= n <= a.len()
    &&& n <= b.len()
    &&& forall|i: int| 0 <= i < n ==> a[i] == b[i]
}

/// `a` sorts before `b`, decided at position `n`: the two agree below `n`, and
/// there either `a` ends while `b` goes on, or `a` holds the smaller byte.
pub open spec fn precedes_at(a: Seq<u8>, b: Seq<u8>, n: int) -> bool {
    &&& agree_below(a, b, n)
    &&& n < b.len()
    &&& (n == a.len() || a[n] < b[n])
}

/// The strict lexicographic order on byte strings.
pub open spec fn precedes(a: Seq<u8>, b: Seq<u8>) -> bool {
    exists|n: int| precedes_at(a, b, n)
}

/// No byte string sorts before itself.
pub proof fn lemma_precedes_irreflexive(a: Seq<u8>)
    ensures
        !precedes(a, a),
{
    assert forall|n: int| !precedes_at(a, a, n) by {}
}

/// The order is transitive.
pub proof fn lemma_precedes_transitive(a: Seq<u8>, b: Seq<u8>, c: Seq<u8>)
    requires
        precedes(a, b),
        precedes(b, c),
    ensures
        precedes(a, c),
{
    let n = choose|n: int| precedes_at(a, b, n);
    let m = choose|m: int| precedes_at(b, c, m);
    let k = if n <= m { n } else { m };
    assert(agree_below(a, c, k));
    assert(precedes_at(a, c, k));
}

/// Two byte strings that agree below `n` are equal or ordered one way or the
/// other.
proof fn lemma_decided_from(a: Seq<u8>, b: Seq<u8>, n: int)
    requires
        agree_below(a, b, n),
    ensures
        a == b || precedes(a, b) || precedes(b, a),
    decreases a.len() - n,
{
    if n == a.len() && n == b.len() {
        assert(a =~= b);
    } else if n == a.len() {
        assert(precedes_at(a, b, n));
    } else if n == b.len() {
        assert(agree_below(b, a, n));
        assert(precedes_at(b, a, n));
    } else if a[n] < b[n] {
        assert(precedes_at(a, b, n));
    } else if b[n] < a[n] {
        assert(agree_below(b, a, n));
        assert(precedes_at(b, a, n));
    } else {
        lemma_decided_from(a, b, n + 1);
    }
}

/// The order is total: two different byte strings are ordered one way or the
/// other.
pub proof fn lemma_precedes_total(a: Seq<u8>, b: Seq<u8>)
    ensures
        a == b || precedes(a, b) || precedes(b, a),
{
    lemma_decided_from(a, b, 0);
}

/// Where two byte strings first differ at `n`, that position alone decides
/// their order.
proof fn lemma_decided_at(a: Seq<u8>, b: Seq<u8>, n: int)
    requires
        agree_below(a, b, n),
        n == a.len() || n == b.len() || a[n] != b[n],
    ensures
        precedes(a, b) <==> n < b.len() && (n == a.len() || a[n] < b[n]),
{
    if n < b.len() && (n == a.len() || a[n] < b[n]) {
        assert(precedes_at(a, b, n));
    } else {
        assert forall|k: int| !precedes_at(a, b, k) by {
            if precedes_at(a, b, k) {
                if k < n {
                    assert(a[k] == b[k]);
                } else if k > n {
                    assert(n < a.len() && n < b.len());
                    assert(a[n] == b[n]);
                }
            }
        }
    }
}

/// Tells whether `a` sorts strictly before `b`.
pub fn is_before(a: &Vec<u8>, b: &Vec<u8>) -> (r: bool)
    ensures
        r == precedes(a@, b@),
{
    let mut i: usize = 0;
    while i < a.len() && i < b.len()
        invariant
            agree_below(a@, b@, i as int),
        decreases a.len() - i,
    {
        if a[i] != b[i] {
            proof {
                lemma_decided_at(a@, b@, i as int);
            }
            return a[i] < b[i];
        }
        i += 1;
    }
    proof {
        lemma_decided_at(a@, b@, i as int);
    }
    i < b.len()
}

/// Tells whether `a` and `b` are the same byte string.
pub fn is_same(a: &Vec<u8>, b: &Vec<u8>) -> (r: bool)
    ensures
        r == (a@ == b@),
{
    if a.len() != b.len() {
        return false;
    }
    let mut i: usize = 0;
    while i < a.len()
        invariant
            a.len() == b.len(),
            agree_below(a@, b@, i as int),
        decreases a.len() - i,
    {
        if a[i] != b[i] {
            return false;
        }
        i += 1;
    }
    assert(a@ =~= b@);
    true
}

} // verus!
