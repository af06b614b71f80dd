//! Ordered sets of transactions.
//!
//! A [`TransactionSet`] keeps its transactions in strictly increasing
//! lexicographic order, so it holds none twice and lists them in one
//! canonical sequence.

use crate::byte_order::is_before;
use crate::byte_order::is_same;
use crate::byte_order::lemma_precedes_irreflexive;
use crate::byte_order::lemma_precedes_total;
use crate::byte_order::lemma_precedes_transitive;
use crate::byte_order::precedes;
use vstd::prelude::*;

verus! {

/// The byte strings that a list of transactions holds, in the list's order.
pub open spec fn byte_strings(txs: Seq<Vec<u8>>) -> Seq<Seq<u8>> {
    txs.map_values(|tx: Vec<u8>| tx@)
}

/// Every element sorts strictly before all that follow it.
pub open spec fn strictly_increasing(s: Seq<Seq<u8>>) -> bool {
    forall|i: int, j: int| #![trigger s[i], s[j]] 0 <= i < j < s.len() ==> precedes(s[i], s[j])
}

/// The tail of a strictly increasing sequence holds what the sequence holds,
/// but for its first element.
proof fn lemma_tail_contains(s: Seq<Seq<u8>>, t: Seq<u8>)
    requires
        strictly_increasing(s),
        s.len() > 0,
    ensures
        s.drop_first().contains(t) <==> (s.contains(t) && t != s[0]),
{
    let tail = s.drop_first();
    if tail.contains(t) {
        let k: int = choose|k: int| 0 <= k < tail.len() && tail[k] == t;
        assert(s[k + 1] == t);
        assert(precedes(s[0], s[k + 1]));
        lemma_precedes_irreflexive(t);
    }
    if s.contains(t) && t != s[0] {
        let k: int = choose|k: int| 0 <= k < s.len() && s[k] == t;
        assert(tail[k - 1] == t);
    }
}

/// The tail of a strictly increasing sequence is strictly increasing.
proof fn lemma_tail_increasing(s: Seq<Seq<u8>>)
    requires
        strictly_increasing(s),
        s.len() > 0,
    ensures
        strictly_increasing(s.drop_first()),
{
    let tail = s.drop_first();
    assert forall|i: int, j: int| 0 <= i < j < tail.len() implies precedes(
        #[trigger] tail[i],
        #[trigger] tail[j],
    ) by {
        assert(tail[i] == s[i + 1]);
        assert(tail[j] == s[j + 1]);
    }
}

/// A set of transactions has exactly one strictly increasing sequence: two
/// such sequences with the same elements are the same sequence.
pub proof fn lemma_increasing_canonical(a: Seq<Seq<u8>>, b: Seq<Seq<u8>>)
    requires
        strictly_increasing(a),
        strictly_increasing(b),
        a.to_set() == b.to_set(),
    ensures
        a == b,
    decreases a.len(),
{
    if a.len() == 0 {
        if b.len() > 0 {
            assert(b.contains(b[0]));
            assert(a.to_set().contains(b[0]));
        }
        assert(a =~= b);
    } else {
        assert(a.contains(a[0]));
        assert(b.to_set().contains(a[0]));
        let j: int = choose|j: int| 0 <= j < b.len() && b[j] == a[0];
        assert(b.contains(b[0]));
        assert(a.to_set().contains(b[0]));
        let i: int = choose|i: int| 0 <= i < a.len() && a[i] == b[0];
        if j > 0 {
            assert(precedes(b[0], b[j]));
            if i > 0 {
                assert(precedes(a[0], a[i]));
                lemma_precedes_transitive(a[0], b[0], a[0]);
            }
            lemma_precedes_irreflexive(a[0]);
        }
        assert(a[0] == b[0]);
        let a1 = a.drop_first();
        let b1 = b.drop_first();
        lemma_tail_increasing(a);
        lemma_tail_increasing(b);
        assert forall|t: Seq<u8>| a1.to_set().contains(t) <==> b1.to_set().contains(t) by {
            lemma_tail_contains(a, t);
            lemma_tail_contains(b, t);
            assert(a.to_set().contains(t) == a.contains(t));
            assert(b.to_set().contains(t) == b.contains(t));
            assert(a1.to_set().contains(t) == a1.contains(t));
            assert(b1.to_set().contains(t) == b1.contains(t));
        }
        assert(a1.to_set() =~= b1.to_set());
        lemma_increasing_canonical(a1, b1);
        assert(a =~= b) by {
            assert forall|k: int| 0 <= k < a.len() implies a[k] == b[k] by {
                if k > 0 {
                    assert(a1[k - 1] == a[k]);
                    assert(b1[k - 1] == b[k]);
                }
            }
            assert(a.len() == a1.len() + 1);
            assert(b.len() == b1.len() + 1);
        }
    }
}

/// The one strictly increasing sequence of the transactions `txs`.
pub open spec fn canonical(txs: Set<Seq<u8>>) -> Seq<Seq<u8>> {
    choose|s: Seq<Seq<u8>>| strictly_increasing(s) && s.to_set() == txs
}

/// A strictly increasing sequence is the canonical sequence of its elements.
pub proof fn lemma_canonical(s: Seq<Seq<u8>>)
    requires
        strictly_increasing(s),
    ensures
        canonical(s.to_set()) == s,
{
    lemma_increasing_canonical(canonical(s.to_set()), s);
}

/// A set of transactions, kept in lexicographic order.
///
/// Its view is the sequence of its transactions as byte strings.
#[derive(Clone, Debug, PartialEq, Eq)]
pub struct TransactionSet {
    items: Vec<Vec<u8>>,
}

impl View for TransactionSet {
    type V = Seq<Seq<u8>>;

    closed spec fn view(&self) -> Seq<Seq<u8>> {
        byte_strings(self.items@)
    }
}

impl TransactionSet {
    /// The invariant of the type: the transactions are strictly increasing.
    pub open spec fn wf(&self) -> bool {
        strictly_increasing(self@)
    }

    /// The empty set.
    pub fn new() -> (s: Self)
        ensures
            s.wf(),
            s@ == Seq::<Seq<u8>>::empty(),
    {
        let s = TransactionSet { items: Vec::new() };
        assert(s@ =~= Seq::<Seq<u8>>::empty());
        s
    }

    /// The number of transactions in the set.
    pub fn len(&self) -> (n: usize)
        ensures
            n == self@.len(),
    {
        self.items.len()
    }

    /// Tells whether the set holds no transaction.
    pub fn is_empty(&self) -> (r: bool)
        ensures
            r == (self@.len() == 0),
    {
        self.items.len() == 0
    }

    /// The transactions of the set, in increasing order.
    pub fn as_vec(&self) -> (v: &Vec<Vec<u8>>)
        ensures
            byte_strings(v@) == self@,
    {
        &self.items
    }

    /// The number of transactions of the set that sort before `tx`.
    fn rank(&self, tx: &Vec<u8>) -> (i: usize)
        requires
            self.wf(),
        ensures
            i <= self@.len(),
            forall|j: int| 0 <= j < i ==> precedes(#[trigger] self@[j], tx@),
            forall|j: int| i <= j < self@.len() ==> !precedes(#[trigger] self@[j], tx@),
    {
        let mut lo: usize = 0;
        let mut hi: usize = self.items.len();
        while lo < hi
            invariant
                self.wf(),
                lo <= hi <= self.items.len(),
                forall|j: int| 0 <= j < lo ==> precedes(#[trigger] self@[j], tx@),
                forall|j: int| hi <= j < self@.len() ==> !precedes(#[trigger] self@[j], tx@),
            decreases hi - lo,
        {
            let mid: usize = lo + (hi - lo) / 2;
            if is_before(&self.items[mid], tx) {
                proof {
                    assert forall|j: int| 0 <= j < mid + 1 implies precedes(
                        #[trigger] self@[j],
                        tx@,
                    ) by {
                        if j < mid {
                            assert(precedes(self@[j], self@[mid as int]));
                            lemma_precedes_transitive(self@[j], self@[mid as int], tx@);
                        }
                    }
                }
                lo = mid + 1;
            } else {
                proof {
                    assert forall|j: int| mid <= j < self@.len() implies !precedes(
                        #[trigger] self@[j],
                        tx@,
                    ) by {
                        if j > mid && precedes(self@[j], tx@) {
                            assert(precedes(self@[mid as int], self@[j]));
                            lemma_precedes_transitive(self@[mid as int], self@[j], tx@);
                        }
                    }
                }
                hi = mid;
            }
        }
        lo
    }

    /// Where `tx` is not at position `i`, its rank, it is nowhere in the set.
    proof fn lemma_absent(&self, tx: Seq<u8>, i: int)
        requires
            self.wf(),
            0 <= i <= self@.len(),
            forall|j: int| 0 <= j < i ==> precedes(#[trigger] self@[j], tx),
            forall|j: int| i <= j < self@.len() ==> !precedes(#[trigger] self@[j], tx),
            i < self@.len() ==> self@[i] != tx,
        ensures
            !self@.contains(tx),
    {
        assert forall|j: int| 0 <= j < self@.len() implies self@[j] != tx by {
            if self@[j] == tx {
                if j < i {
                    lemma_precedes_irreflexive(tx);
                } else if j > i {
                    assert(precedes(self@[i], self@[j]));
                }
            }
        }
    }

    /// Tells whether `tx` is in the set.
    pub fn contains(&self, tx: &Vec<u8>) -> (r: bool)
        requires
            self.wf(),
        ensures
            r == self@.contains(tx@),
    {
        let i: usize = self.rank(tx);
        if i < self.items.len() && is_same(&self.items[i], tx) {
            assert(self@[i as int] == tx@);
            true
        } else {
            proof {
                self.lemma_absent(tx@, i as int);
            }
            false
        }
    }

    /// Adds `tx` to the set, and tells whether it was new.
    pub fn insert(&mut self, tx: Vec<u8>) -> (fresh: bool)
        requires
            old(self).wf(),
        ensures
            final(self).wf(),
            fresh == !old(self)@.contains(tx@),
            final(self)@.to_set() == old(self)@.to_set().insert(tx@),
            !fresh ==> final(self)@ == old(self)@,
            fresh ==> final(self)@.len() == old(self)@.len() + 1,
    {
        let i: usize = self.rank(&tx);
        if i < self.items.len() && is_same(&self.items[i], &tx) {
            proof {
                assert(self@[i as int] == tx@);
                assert(self@.to_set().insert(tx@) =~= self@.to_set());
            }
            return false;
        }
        let ghost before = self@;
        let ghost added = tx@;
        proof {
            self.lemma_absent(added, i as int);
        }
        self.items.insert(i, tx);
        proof {
            assert(self@ =~= before.insert(i as int, added));
            assert forall|p: int, q: int| 0 <= p < q < self@.len() implies precedes(
                #[trigger] self@[p],
                #[trigger] self@[q],
            ) by {
                if q < i {
                    assert(precedes(before[p], before[q]));
                } else if q == i {
                    assert(precedes(before[p], added));
                } else if p < i {
                    assert(precedes(before[p], before[q - 1]));
                } else if p == i {
                    assert(before.contains(before[q - 1]));
                    lemma_precedes_total(added, before[q - 1]);
                } else {
                    assert(precedes(before[p - 1], before[q - 1]));
                }
            }
            assert forall|t: Seq<u8>| self@.contains(t) <==> (before.contains(t) || t == added) by {
                if self@.contains(t) {
                    let k: int = choose|k: int| 0 <= k < self@.len() && self@[k] == t;
                    if k < i {
                        assert(before[k] == t);
                    } else if k > i {
                        assert(before[k - 1] == t);
                    }
                }
                if before.contains(t) {
                    let k: int = choose|k: int| 0 <= k < before.len() && before[k] == t;
                    if k < i {
                        assert(self@[k] == t);
                    } else {
                        assert(self@[k + 1] == t);
                    }
                }
                if t == added {
                    assert(self@[i as int] == t);
                }
            }
            assert(self@.to_set() =~= before.to_set().insert(added));
        }
        true
    }

    /// Adds every transaction of `txs` to the set.
    pub fn insert_all(&mut self, txs: Vec<Vec<u8>>)
        requires
            old(self).wf(),
        ensures
            final(self).wf(),
            final(self)@.to_set() == old(self)@.to_set().union(byte_strings(txs@).to_set()),
    {
        let ghost all = byte_strings(txs@);
        let mut rest = txs;
        while rest.len() > 0
            invariant
                self.wf(),
                rest@.len() <= all.len(),
                byte_strings(rest@) == all.take(rest@.len() as int),
                self@.to_set() == old(self)@.to_set().union(
                    all.skip(rest@.len() as int).to_set(),
                ),
            decreases rest.len(),
        {
            let ghost n: int = rest@.len() as int;
            let ghost last = byte_strings(rest@)[n - 1];
            assert(last == all.take(n)[n - 1]);
            let tx = rest.pop().unwrap();
            assert(tx@ == all[n - 1]);
            self.insert(tx);
            proof {
                assert(byte_strings(rest@) =~= all.take(n - 1));
                let done = all.skip(n);
                let more = all.skip(n - 1);
                assert forall|t: Seq<u8>| more.contains(t) <==> (done.contains(t) || t == all[n - 1]) by {
                    if more.contains(t) {
                        let k: int = choose|k: int| 0 <= k < more.len() && more[k] == t;
                        if k > 0 {
                            assert(done[k - 1] == t);
                        }
                    }
                    if done.contains(t) {
                        let k: int = choose|k: int| 0 <= k < done.len() && done[k] == t;
                        assert(more[k + 1] == t);
                    }
                    if t == all[n - 1] {
                        assert(more[0] == t);
                    }
                }
                assert(self@.to_set() =~= old(self)@.to_set().union(more.to_set()));
            }
        }
        proof {
            assert(all.skip(0) =~= all);
        }
    }
}

} // verus!
