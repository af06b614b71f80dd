//! Batches: what an epoch delivers.

use crate::transaction_set::byte_strings;
use crate::transaction_set::lemma_increasing_canonical;
use crate::transaction_set::strictly_increasing;
use crate::transaction_set::TransactionSet;
use vstd::prelude::*;

verus! {

/// The proposals of several nodes, each as the list of its byte strings.
pub open spec fn proposal_lists(proposals: Seq<Vec<Vec<u8>>>) -> Seq<Seq<Seq<u8>>> {
    proposals.map_values(|p: Vec<Vec<u8>>| byte_strings(p@))
}

/// The transactions that at least one of the proposals holds.
pub open spec fn proposed(proposals: Seq<Seq<Seq<u8>>>) -> Set<Seq<u8>> {
    Set::new(|tx: Seq<u8>| exists|i: int| 0 <= i < proposals.len() && #[trigger] proposals[i].contains(tx))
}

/// A batch of transactions that the algorithm has output: the transactions
/// decided in one epoch, in their canonical order.
#[derive(Clone, Debug, PartialEq, Eq)]
pub struct Batch {
    pub epoch: u64,
    pub transactions: TransactionSet,
}

/// What a [`Batch`] holds: its epoch, and its transactions as a sequence of
/// byte strings.
pub struct BatchView {
    pub epoch: u64,
    pub transactions: Seq<Seq<u8>>,
}

impl View for Batch {
    type V = BatchView;

    open spec fn view(&self) -> BatchView {
        BatchView { epoch: self.epoch, transactions: self.transactions@ }
    }
}

impl BatchView {
    /// The transactions are in strictly increasing order.
    pub open spec fn wf(self) -> bool {
        strictly_increasing(self.transactions)
    }

    /// This is the batch of `epoch` that holds exactly the transactions `txs`.
    pub open spec fn is_batch_of(self, epoch: u64, txs: Set<Seq<u8>>) -> bool {
        &&& self.wf()
        &&& self.epoch == epoch
        &&& self.transactions.to_set() == txs
    }
}

impl Batch {
    /// The invariant of the type: that of its set of transactions.
    pub open spec fn wf(&self) -> bool {
        self@.wf()
    }

    /// Makes the batch of `epoch` out of the proposals that were agreed on: it
    /// holds every transaction of every proposal, once.
    pub fn assemble(epoch: u64, proposals: Vec<Vec<Vec<u8>>>) -> (batch: Batch)
        ensures
            batch@.is_batch_of(epoch, proposed(proposal_lists(proposals@))),
    {
        let ghost all = proposal_lists(proposals@);
        let mut transactions = TransactionSet::new();
        let mut rest = proposals;
        while rest.len() > 0
            invariant
                transactions.wf(),
                rest@.len() <= all.len(),
                proposal_lists(rest@) == all.take(rest@.len() as int),
                transactions@.to_set() == proposed(all.skip(rest@.len() as int)),
            decreases rest.len(),
        {
            let ghost n: int = rest@.len() as int;
            let ghost last = proposal_lists(rest@)[n - 1];
            assert(last == all.take(n)[n - 1]);
            let proposal = rest.pop().unwrap();
            assert(byte_strings(proposal@) == all[n - 1]);
            transactions.insert_all(proposal);
            proof {
                assert(proposal_lists(rest@) =~= all.take(n - 1));
                let done = all.skip(n);
                let more = all.skip(n - 1);
                assert forall|tx: Seq<u8>| proposed(more).contains(tx) <==> (proposed(done).contains(tx)
                    || all[n - 1].contains(tx)) by {
                    if proposed(more).contains(tx) {
                        let k: int = choose|k: int| 0 <= k < more.len() && #[trigger] more[k].contains(tx);
                        if k > 0 {
                            assert(done[k - 1].contains(tx));
                        }
                    }
                    if proposed(done).contains(tx) {
                        let k: int = choose|k: int| 0 <= k < done.len() && #[trigger] done[k].contains(tx);
                        assert(more[k + 1].contains(tx));
                    }
                    if all[n - 1].contains(tx) {
                        assert(more[0].contains(tx));
                    }
                }
                assert(transactions@.to_set() =~= proposed(more));
            }
        }
        proof {
            assert(all.skip(0) =~= all);
        }
        Batch { epoch, transactions }
    }
}

/// Agreement on a batch follows from agreement on its transactions: two
/// batches of one epoch that hold the same set of transactions are the same
/// batch, sequence and all.
pub proof fn lemma_batch_agreement(a: BatchView, b: BatchView, epoch: u64, txs: Set<Seq<u8>>)
    requires
        a.is_batch_of(epoch, txs),
        b.is_batch_of(epoch, txs),
    ensures
        a == b,
{
    lemma_increasing_canonical(a.transactions, b.transactions);
}

} // verus!
