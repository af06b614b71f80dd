//! The buffer of pending transactions, and the sampling of proposals from it.

use crate::batch::BatchView;
use crate::transaction_set::byte_strings;
use crate::transaction_set::TransactionSet;
use vstd::prelude::*;
use vstd::seq_lib::to_multiset_contains;
use vstd::slice::slice_subrange;

verus! {

/// The number of transactions that a node proposes: its share of a batch of
/// `batch_size` among `num_nodes` nodes, and at least one.
pub open spec fn amount_of(batch_size: usize, num_nodes: int) -> int {
    if batch_size as int / num_nodes >= 1 {
        batch_size as int / num_nodes
    } else {
        1
    }
}

/// The length of the sampling window: the head of the buffer, `batch_size`
/// transactions at most.
pub open spec fn window_of(batch_size: usize, buffered: int) -> int {
    if batch_size <= buffered {
        batch_size as int
    } else {
        buffered
    }
}

/// `sample` is a choice of `amount` elements of `window`, or of all of them
/// where there are fewer, none of them taken twice.
pub open spec fn is_sample(sample: Seq<Seq<u8>>, window: Seq<Seq<u8>>, amount: int) -> bool {
    &&& sample.len() == if amount <= window.len() {
        amount
    } else {
        window.len() as int
    }
    &&& sample.to_multiset().subset_of(window.to_multiset())
}

/// `sample` is a proposal that a node with the buffer `buffer` may make.
pub open spec fn is_proposal(
    sample: Seq<Seq<u8>>,
    buffer: Seq<Seq<u8>>,
    batch_size: usize,
    num_nodes: int,
) -> bool {
    is_sample(
        sample,
        buffer.take(window_of(batch_size, buffer.len() as int)),
        amount_of(batch_size, num_nodes),
    )
}

/// The transactions of `buffer` that are not among `delivered`, in their
/// order.
pub open spec fn without(buffer: Seq<Seq<u8>>, delivered: Seq<Seq<u8>>) -> Seq<Seq<u8>> {
    buffer.filter(absent_from(delivered))
}

/// The test that a transaction is not among `delivered`.
pub open spec fn absent_from(delivered: Seq<Seq<u8>>) -> spec_fn(Seq<u8>) -> bool {
    |tx: Seq<u8>| !delivered.contains(tx)
}

/// What is left of `buffer` once each batch of `batches`, in turn, has had its
/// transactions removed from it.
pub open spec fn undelivered(buffer: Seq<Seq<u8>>, batches: Seq<BatchView>) -> Seq<Seq<u8>>
    decreases batches.len(),
{
    if batches.len() == 0 {
        buffer
    } else {
        without(undelivered(buffer, batches.drop_last()), batches.last().transactions)
    }
}

/// A proposal holds only transactions of the buffer: what has left the buffer
/// is not proposed again.
pub proof fn lemma_proposal_from_buffer(
    sample: Seq<Seq<u8>>,
    buffer: Seq<Seq<u8>>,
    batch_size: usize,
    num_nodes: int,
    tx: Seq<u8>,
)
    requires
        is_proposal(sample, buffer, batch_size, num_nodes),
        sample.contains(tx),
    ensures
        buffer.contains(tx),
{
    let window = buffer.take(window_of(batch_size, buffer.len() as int));
    to_multiset_contains(sample, tx);
    to_multiset_contains(window, tx);
    assert(sample.to_multiset().count(tx) <= window.to_multiset().count(tx));
    let i: int = choose|i: int| 0 <= i < window.len() && window[i] == tx;
    assert(buffer[i] == tx);
}

/// One more batch removes its transactions from what the earlier ones left.
pub proof fn lemma_undelivered_push(buffer: Seq<Seq<u8>>, batches: Seq<BatchView>, batch: BatchView)
    ensures
        undelivered(buffer, batches.push(batch)) == without(
            undelivered(buffer, batches),
            batch.transactions,
        ),
{
    assert(batches.push(batch).drop_last() =~= batches);
}

/// Removing transactions from a buffer adds none to it.
pub proof fn lemma_without_subset(buffer: Seq<Seq<u8>>, delivered: Seq<Seq<u8>>, tx: Seq<u8>)
    ensures
        without(buffer, delivered).contains(tx) <==> buffer.contains(tx) && !delivered.contains(tx),
{
    let kept = without(buffer, delivered);
    if kept.contains(tx) {
        let i: int = choose|i: int| 0 <= i < kept.len() && kept[i] == tx;
        buffer.lemma_filter_pred(absent_from(delivered), i);
        buffer.lemma_filter_contains_rev(absent_from(delivered), tx);
    }
    if buffer.contains(tx) && !delivered.contains(tx) {
        let i: int = choose|i: int| 0 <= i < buffer.len() && buffer[i] == tx;
        buffer.lemma_filter_contains(absent_from(delivered), i);
    }
}

/// Buffer pruning: no transaction of a delivered batch is left in the buffer,
/// and the buffer holds exactly those of its earlier transactions that no
/// delivered batch holds.
pub proof fn lemma_undelivered_contains(buffer: Seq<Seq<u8>>, batches: Seq<BatchView>, tx: Seq<u8>)
    ensures
        undelivered(buffer, batches).contains(tx) <==> buffer.contains(tx) && forall|k: int|
            0 <= k < batches.len() ==> !(#[trigger] batches[k]).transactions.contains(tx),
    decreases batches.len(),
{
    if batches.len() > 0 {
        let earlier = batches.drop_last();
        lemma_undelivered_contains(buffer, earlier, tx);
        lemma_without_subset(undelivered(buffer, earlier), batches.last().transactions, tx);
        assert forall|k: int| 0 <= k < earlier.len() implies (#[trigger] earlier[k]) == batches[k] by {}
        if undelivered(buffer, batches).contains(tx) {
            assert forall|k: int| 0 <= k < batches.len() implies !(#[trigger] batches[k]).transactions.contains(
                tx,
            ) by {
                if k < earlier.len() {
                    assert(earlier[k] == batches[k]);
                }
            }
        }
        if buffer.contains(tx) && forall|k: int|
            0 <= k < batches.len() ==> !(#[trigger] batches[k]).transactions.contains(tx) {
            assert forall|k: int| 0 <= k < earlier.len() implies !(#[trigger] earlier[k]).transactions.contains(
                tx,
            ) by {
                assert(earlier[k] == batches[k]);
            }
            assert(!batches[batches.len() - 1].transactions.contains(tx));
        }
    }
}

/// Computes the number of transactions to propose.
pub fn proposal_amount(batch_size: usize, num_nodes: usize) -> (amount: usize)
    requires
        num_nodes > 0,
    ensures
        amount == amount_of(batch_size, num_nodes as int),
{
    let share: usize = batch_size / num_nodes;
    if share >= 1 {
        share
    } else {
        1
    }
}

/// Computes the length of the sampling window.
pub fn window_len(batch_size: usize, buffered: usize) -> (len: usize)
    ensures
        len == window_of(batch_size, buffered as int),
{
    if batch_size <= buffered {
        batch_size
    } else {
        buffered
    }
}

/// Draws `amount` transactions at random from `window` with
/// `rand::seq::sample_iter`, seeded by `rand::thread_rng`, and copies them.
/// Whatever the generator yields, the result holds `amount` elements of the
/// window and takes none of them twice. `amount` is at most the length of the
/// window, so that the space that the call reserves is bounded by the window.
/// The call panics where the operating system has no entropy to seed the
/// generator with.
#[verifier::external_body]
fn sample_iter(window: &[Vec<u8>], amount: usize) -> (sample: Vec<Vec<u8>>)
    requires
        amount <= window@.len(),
    ensures
        sample@.len() == amount,
        byte_strings(sample@).to_multiset().subset_of(byte_strings(window@).to_multiset()),
{
    let mut rng = rand::thread_rng();
    let choice = match rand::seq::sample_iter(&mut rng, window, amount) {
        Ok(choice) => choice,
        Err(choice) => choice,
    };
    choice.into_iter().cloned().collect()
}

/// Chooses at random the transactions that a node proposes: its share of a
/// batch, drawn from the head of the buffer, or the whole head where it is
/// shorter than the share.
pub fn sample(buffer: &Vec<Vec<u8>>, batch_size: usize, num_nodes: usize) -> (sample: Vec<
    Vec<u8>,
>)
    requires
        num_nodes > 0,
    ensures
        is_proposal(byte_strings(sample@), byte_strings(buffer@), batch_size, num_nodes as int),
{
    let amount: usize = proposal_amount(batch_size, num_nodes);
    let len: usize = window_len(batch_size, buffer.len());
    let window = slice_subrange(buffer.as_slice(), 0, len);
    assert(byte_strings(window@) =~= byte_strings(buffer@).take(len as int));
    if amount <= len {
        sample_iter(window, amount)
    } else {
        sample_iter(window, len)
    }
}

/// Appends `txs` to the buffer.
pub fn append(buffer: &mut Vec<Vec<u8>>, txs: Vec<Vec<u8>>)
    ensures
        byte_strings(final(buffer)@) == byte_strings(old(buffer)@) + byte_strings(txs@),
{
    let ghost added = byte_strings(txs@);
    let mut txs = txs;
    buffer.append(&mut txs);
    assert(byte_strings(buffer@) =~= byte_strings(old(buffer)@) + added);
}

/// Removes from the buffer every transaction that is in `delivered`, and
/// keeps the others in their order.
pub fn retain_not_in(buffer: &mut Vec<Vec<u8>>, delivered: &TransactionSet)
    requires
        delivered.wf(),
    ensures
        byte_strings(final(buffer)@) == without(byte_strings(old(buffer)@), delivered@),
{
    let ghost before = byte_strings(buffer@);
    let mut kept: Vec<Vec<u8>> = Vec::new();
    let n: usize = buffer.len();
    let mut i: usize = 0;
    assert(before.take(0) =~= Seq::<Seq<u8>>::empty());
    assert(byte_strings(kept@) =~= Seq::<Seq<u8>>::empty());
    while i < n
        invariant
            delivered.wf(),
            i <= n,
            buffer@.len() == n,
            before.len() == n,
            forall|j: int| i <= j < n ==> (#[trigger] buffer@[j])@ == before[j],
            byte_strings(kept@) == without(before.take(i as int), delivered@),
        decreases n - i,
    {
        let mut tx: Vec<u8> = Vec::new();
        std::mem::swap(&mut buffer[i], &mut tx);
        assert(tx@ == before[i as int]);
        let ghost had = byte_strings(kept@);
        proof {
            assert(before.take(i + 1) =~= before.take(i as int).push(before[i as int]));
            before.take(i as int).lemma_filter_push(before[i as int], absent_from(delivered@));
        }
        if !delivered.contains(&tx) {
            kept.push(tx);
            assert(byte_strings(kept@) =~= had.push(before[i as int]));
        }
        i += 1;
    }
    assert(before.take(n as int) =~= before);
    *buffer = kept;
}

} // verus!
