//! The epoch engine.
//!
//! A [`HoneyBadger`] buffers the transactions that its node is given, proposes
//! a random share of them in every epoch, routes the messages of the common
//! subset instances, and turns each instance's output into a [`Batch`]. It
//! never performs I/O: callers hand it messages and transactions, and poll it
//! for the messages to send and for the batches that were decided.

use crate::batch::Batch;
use crate::batch::BatchView;
use crate::buffer::append;
use crate::buffer::is_proposal;
use crate::buffer::lemma_undelivered_contains;
use crate::buffer::lemma_undelivered_push;
use crate::buffer::retain_not_in;
use crate::buffer::sample;
use crate::buffer::undelivered;
use crate::buffer::without;
use crate::codec::bincode_serialized;
use crate::codec::decodable;
use crate::codec::decode_all;
use crate::codec::decoded_transactions;
use crate::codec::serialize;
use crate::common_subset::CommonSubset;
use crate::error::Error;
use crate::messaging::all_in_epoch;
use crate::messaging::Message;
use crate::messaging::TargetedMessage;
use crate::transaction_set::byte_strings;
use crate::transaction_set::canonical;
use crate::transaction_set::lemma_canonical;
use std::collections::BTreeMap;
use std::collections::HashSet;
use std::collections::VecDeque;
use vstd::prelude::*;

verus! {

broadcast use vstd::std_specs::btree::group_btree_axioms;

/// The batches of a queue as contracts see them.
pub open spec fn batch_views(batches: Seq<Batch>) -> Seq<BatchView> {
    batches.map_values(|batch: Batch| batch@)
}

/// How a step of the engine ends.
pub enum Outcome<E> {
    /// Without error.
    Done,
    /// With the error `E` of a common subset instance.
    CommonSubset(E),
    /// With an error of the encoding.
    Bincode,
}

/// The result `r` of an operation reports the outcome `outcome`.
pub open spec fn reports<T, E>(r: Result<T, Error<E>>, outcome: Outcome<E>) -> bool {
    match outcome {
        Outcome::Done => r is Ok,
        Outcome::CommonSubset(err) => r matches Err(Error::CommonSubset(reported)) && reported
            == err,
        Outcome::Bincode => r matches Err(Error::Bincode(_)),
    }
}

/// The state of an engine as contracts see it.
#[verifier::ext_equal]
pub struct EngineState<A: CommonSubset> {
    /// The transactions that no delivered batch holds yet.
    pub buffer: Seq<Seq<u8>>,
    /// The earliest epoch that has not been decided yet.
    pub epoch: u64,
    /// The common subset instances that are alive, by epoch.
    pub common_subsets: Map<u64, A>,
    /// This node's id.
    pub id: u64,
    /// The ids of all participants.
    pub all_ids: Set<u64>,
    /// The target number of transactions in a batch.
    pub batch_size: usize,
    /// The messages that wait to be sent, oldest first.
    pub messages: Seq<TargetedMessage<Message<A::Message>>>,
    /// The batches that wait to be handed out, oldest first.
    pub output: Seq<BatchView>,
}

impl<A: CommonSubset> EngineState<A> {
    /// The epoch of the batch that `next_output` hands out next.
    pub open spec fn next_output_epoch(self) -> int {
        self.epoch - self.output.len()
    }

    /// No instance of an epoch below `bound` has terminated: what has
    /// terminated there was removed.
    pub open spec fn collected_below(self, bound: u64) -> bool {
        forall|e: u64|
            #[trigger] self.common_subsets.contains_key(e) && e < bound
                ==> !self.common_subsets[e].is_terminated()
    }

    /// What holds of the state at every moment: this node is a participant,
    /// and the waiting batches are those of the epochs just before the current
    /// one, one each and in order.
    pub open spec fn consistent(self) -> bool {
        &&& self.all_ids.finite()
        &&& self.all_ids.contains(self.id)
        &&& self.output.len() <= self.epoch
        &&& forall|k: int|
            0 <= k < self.output.len() ==> (#[trigger] self.output[k]).epoch
                == self.next_output_epoch() + k
        &&& forall|k: int| 0 <= k < self.output.len() ==> (#[trigger] self.output[k]).wf()
    }

    /// The transaction `tx` is in a batch that waits to be handed out.
    pub open spec fn waiting(self, tx: Seq<u8>) -> bool {
        exists|k: int| 0 <= k < self.output.len() && (#[trigger] self.output[k]).transactions.contains(tx)
    }

    /// The buffer holds no transaction of a batch that waits to be handed out.
    /// This holds from the start, for as long as no transaction is put into
    /// the buffer while a batch that holds it waits.
    pub open spec fn pruned(self) -> bool {
        forall|tx: Seq<u8>| #[trigger] self.buffer.contains(tx) ==> !self.waiting(tx)
    }

    /// The output that the instance of `e` hands out next: none in the last
    /// epoch that the counter can hold, and none where `e` has no instance.
    pub open spec fn ready(self, e: u64) -> Option<BTreeMap<u64, Vec<u8>>> {
        if e < u64::MAX && self.common_subsets.contains_key(e) {
            self.common_subsets[e].next_output_of()
        } else {
            None
        }
    }

    /// Since `pre`, the batch of epoch `e` was queued at its place behind
    /// those that waited, and it holds exactly the transactions of the
    /// proposals of `output`, all of which can be decoded.
    pub open spec fn delivered_output(
        self,
        pre: Self,
        e: u64,
        output: Option<BTreeMap<u64, Vec<u8>>>,
    ) -> bool {
        &&& output is Some
        &&& decodable(output->Some_0@)
        &&& pre.epoch <= e
        &&& pre.output.len() + (e - pre.epoch) < self.output.len()
        &&& self.output[pre.output.len() + (e - pre.epoch)].is_batch_of(
            e,
            decoded_transactions(output->Some_0@),
        )
    }

    /// The state of an engine that has done nothing yet.
    pub open spec fn initial(
        id: u64,
        all_ids: Set<u64>,
        batch_size: usize,
        buffer: Seq<Seq<u8>>,
    ) -> Self {
        EngineState {
            buffer,
            epoch: 0,
            common_subsets: Map::empty(),
            id,
            all_ids,
            batch_size,
            messages: Seq::empty(),
            output: Seq::empty(),
        }
    }

    /// This state with `instance` as the instance of `e`.
    pub open spec fn with_instance(self, e: u64, instance: A) -> Self {
        EngineState { common_subsets: self.common_subsets.insert(e, instance), ..self }
    }

    /// This state with the messages `msgs` of the instance of `e` queued behind
    /// those that wait, each wrapped for `e`, in their order.
    pub open spec fn with_messages(self, e: u64, msgs: Seq<TargetedMessage<A::Message>>) -> Self {
        EngineState { messages: self.messages + all_in_epoch(e, msgs), ..self }
    }

    /// This state once the instance of the current epoch was asked for its
    /// output.
    pub open spec fn polled(self) -> Self {
        if self.common_subsets.contains_key(self.epoch) {
            self.with_instance(self.epoch, self.common_subsets[self.epoch].after_output())
        } else {
            self
        }
    }

    /// This state once the output `output` of the current epoch was delivered:
    /// the batch of its transactions is queued, they have left the buffer,
    /// and the next epoch has begun.
    pub open spec fn with_batch(self, output: Map<u64, Vec<u8>>) -> Self {
        let transactions = canonical(decoded_transactions(output));
        EngineState {
            buffer: without(self.buffer, transactions),
            epoch: (self.epoch + 1) as u64,
            output: self.output.push(BatchView { epoch: self.epoch, transactions }),
            ..self
        }
    }

    /// This state once every output that is ready was delivered, and how that
    /// ends. Epoch by epoch, the current instance is asked for its output;
    /// an output that can be decoded is delivered, and the next epoch is
    /// looked at. This ends without error at the first epoch that has no
    /// instance or no output, or is the last that the counter can hold; and
    /// with an error at an output that cannot be decoded.
    pub open spec fn after_outputs(self) -> (Self, Outcome<A::Error>)
        decreases u64::MAX - self.epoch,
    {
        if self.epoch >= u64::MAX {
            (self, Outcome::Done)
        } else {
            match self.ready(self.epoch) {
                None => (self.polled(), Outcome::Done),
                Some(output) => if decodable(output@) {
                    self.polled().with_batch(output@).after_outputs()
                } else {
                    (self.polled(), Outcome::Bincode)
                },
            }
        }
    }

    /// The instance that a message or a proposal of epoch `e` goes to: the one
    /// that is alive, or else a new one, if it can be made.
    pub open spec fn instance_for(self, e: u64) -> Result<A, A::Error> {
        if self.common_subsets.contains_key(e) {
            Ok(self.common_subsets[e])
        } else {
            A::created(self.id, self.all_ids)
        }
    }

    /// `sample` is a choice of transactions that this node may propose.
    pub open spec fn may_propose(self, sample: Seq<Seq<u8>>) -> bool {
        is_proposal(sample, self.buffer, self.batch_size, self.all_ids.len() as int)
    }

    /// This state once the encoded proposal `proposal` was made in the current
    /// epoch, and how that ends. The proposal is input to the instance of the
    /// epoch, and the messages that the instance then hands out are queued.
    /// Where no instance can be made, nothing changes; where the instance
    /// refuses the proposal, nothing is queued.
    pub open spec fn proposed(self, proposal: Seq<u8>) -> (Self, Outcome<A::Error>) {
        match self.instance_for(self.epoch) {
            Err(err) => (self, Outcome::CommonSubset(err)),
            Ok(cs) => match cs.input_result(proposal) {
                Err(err) => (
                    self.with_instance(self.epoch, cs.after_input(proposal)),
                    Outcome::CommonSubset(err),
                ),
                Ok(_) => (
                    self.with_instance(
                        self.epoch,
                        cs.after_input(proposal).after_drain(),
                    ).with_messages(self.epoch, cs.after_input(proposal).outgoing()),
                    Outcome::Done,
                ),
            },
        }
    }

    /// This state follows `pre` by the proposal of `sample`, with the result
    /// `r`: the encoding of the sample was proposed, or, where the sample
    /// cannot be encoded, nothing has changed.
    pub open spec fn follows_proposal(
        self,
        pre: Self,
        sample: Seq<Seq<u8>>,
        r: Result<(), Error<A::Error>>,
    ) -> bool {
        match bincode_serialized(sample) {
            None => self == pre && reports(r, Outcome::Bincode),
            Some(proposal) => self == pre.proposed(proposal).0 && reports(
                r,
                pre.proposed(proposal).1,
            ),
        }
    }

    /// This state follows `pre` by the delivery of every output that was
    /// ready, and by a proposal in the epoch reached where that is a new one,
    /// with the result `r`.
    pub open spec fn follows_outputs(self, pre: Self, r: Result<(), Error<A::Error>>) -> bool {
        let reached = pre.after_outputs().0;
        match pre.after_outputs().1 {
            Outcome::Done => if reached.epoch > pre.epoch {
                exists|sample: Seq<Seq<u8>>| #[trigger]
                    reached.may_propose(sample) && self.follows_proposal(reached, sample, r)
            } else {
                self == reached && r is Ok
            },
            _ => self == reached && reports(r, Outcome::Bincode),
        }
    }

    /// The message `message` of epoch `e` from `sender_id` is not obsolete,
    /// has an instance to go to, and is accepted by it.
    pub open spec fn accepts(self, sender_id: u64, e: u64, message: A::Message) -> bool {
        &&& e >= self.epoch
        &&& self.instance_for(e) matches Ok(cs) && cs.message_result(sender_id, message) is Ok
    }

    /// This state once the message `message` of epoch `e` from `sender_id`
    /// was handed to its instance, and what the instance then hands out was
    /// queued.
    pub open spec fn handed(self, sender_id: u64, e: u64, message: A::Message) -> Self
        recommends
            self.accepts(sender_id, e, message),
    {
        let cs = self.instance_for(e)->Ok_0;
        self.with_instance(e, cs.after_message(sender_id, message).after_drain()).with_messages(
            e,
            cs.after_message(sender_id, message).outgoing(),
        )
    }

    /// This state without the instances of the epochs from `from` up to the
    /// current one that have terminated.
    pub open spec fn collected(self, from: u64) -> Self {
        EngineState {
            common_subsets: self.common_subsets.remove_keys(
                Set::new(
                    |e: u64|
                        from <= e < self.epoch && self.common_subsets.contains_key(e)
                            && self.common_subsets[e].is_terminated(),
                ),
            ),
            ..self
        }
    }

    /// This state follows `pre` by the handling of the message `message` of
    /// epoch `e` that `sender_id` sent, with the result `r`.
    ///
    /// A message of an epoch that has been decided changes nothing. Any other
    /// is handed to the instance of its epoch, and the messages that the
    /// instance then hands out are queued. Where the message is one of the
    /// current epoch, the outputs that are ready are then delivered, a
    /// proposal is made in the epoch reached if it is a new one, and at last
    /// the instances that have terminated in the epochs passed are removed.
    /// Where no instance can be made, nothing changes; where the instance
    /// refuses the message, nothing else happens.
    pub open spec fn follows_message(
        self,
        pre: Self,
        sender_id: u64,
        e: u64,
        message: A::Message,
        r: Result<(), Error<A::Error>>,
    ) -> bool {
        if e < pre.epoch {
            self == pre && r is Ok
        } else {
            match pre.instance_for(e) {
                Err(err) => self == pre && reports(r, Outcome::CommonSubset(err)),
                Ok(cs) => match cs.message_result(sender_id, message) {
                    Err(err) => self == pre.with_instance(e, cs.after_message(sender_id, message))
                        && reports(r, Outcome::CommonSubset(err)),
                    Ok(_) => {
                        let handed = pre.with_instance(
                            e,
                            cs.after_message(sender_id, message).after_drain(),
                        ).with_messages(e, cs.after_message(sender_id, message).outgoing());
                        if e != pre.epoch {
                            self == handed && r is Ok
                        } else {
                            exists|late: Self| #[trigger]
                                late.follows_outputs(handed, r) && self == late.collected(e)
                        }
                    },
                },
            }
        }
    }

    /// The invariant of the engine, which holds whenever a caller sees it.
    pub open spec fn wf(self) -> bool {
        &&& self.consistent()
        &&& self.collected_below(self.epoch)
    }

    /// The node, the participants and the batch size are those of `pre`.
    pub open spec fn same_config(self, pre: Self) -> bool {
        &&& self.id == pre.id
        &&& self.all_ids == pre.all_ids
        &&& self.batch_size == pre.batch_size
    }

    /// The instances are those of the same epochs as in `pre`.
    pub open spec fn same_epochs(self, pre: Self) -> bool {
        forall|e: u64|
            #![trigger self.common_subsets.contains_key(e)]
            #![trigger pre.common_subsets.contains_key(e)]
            self.common_subsets.contains_key(e) == pre.common_subsets.contains_key(e)
    }

    /// The messages that were queued since `pre` all belong to `first` or to
    /// `second`; those of `pre` are still there, in front of them.
    pub open spec fn queued_since(self, pre: Self, first: u64, second: u64) -> bool {
        &&& pre.messages.is_prefix_of(self.messages)
        &&& forall|k: int|
            pre.messages.len() <= k < self.messages.len() ==> {
                ||| (#[trigger] self.messages[k]).message.epoch_of() == first
                ||| self.messages[k].message.epoch_of() == second
            }
    }

    /// This state differs from `pre` at most in the instance of `epoch`, which
    /// may be new, and in messages of `epoch` that were queued.
    pub open spec fn instance_step(self, pre: Self, epoch: u64) -> bool {
        &&& self.same_config(pre)
        &&& self.buffer == pre.buffer
        &&& self.epoch == pre.epoch
        &&& self.output == pre.output
        &&& self.queued_since(pre, epoch, epoch)
        &&& forall|e: u64|
            #![trigger self.common_subsets.contains_key(e)]
            #![trigger pre.common_subsets.contains_key(e)]
            e != epoch ==> self.common_subsets.contains_key(e) == pre.common_subsets.contains_key(e)
        &&& forall|e: u64|
            e != epoch && #[trigger] pre.common_subsets.contains_key(e) ==> self.common_subsets[e]
                == pre.common_subsets[e]
        &&& pre.common_subsets.contains_key(epoch) ==> self.common_subsets.contains_key(epoch)
    }

    /// This state follows `pre` by the delivery of the batch that holds
    /// exactly `txs`: the batch is queued, its transactions have left the
    /// buffer, and the next epoch has begun.
    pub open spec fn delivered_from(self, pre: Self, txs: Set<Seq<u8>>) -> bool {
        &&& self.same_config(pre)
        &&& self.epoch == pre.epoch + 1
        &&& self.output.len() == pre.output.len() + 1
        &&& self.output.drop_last() == pre.output
        &&& self.output.last().is_batch_of(pre.epoch, txs)
        &&& self.buffer == without(pre.buffer, self.output.last().transactions)
        &&& self.common_subsets == pre.common_subsets
        &&& self.messages == pre.messages
    }

    /// This state follows `pre` by the removal of the instances from `from`
    /// up to the current epoch that have terminated.
    pub open spec fn collected_from(self, pre: Self, from: u64) -> bool {
        &&& self.same_config(pre)
        &&& self.buffer == pre.buffer
        &&& self.epoch == pre.epoch
        &&& self.output == pre.output
        &&& self.messages == pre.messages
        &&& forall|e: u64|
            #![trigger self.common_subsets.contains_key(e)]
            #![trigger pre.common_subsets.contains_key(e)]
            self.common_subsets.contains_key(e) <==> {
                &&& pre.common_subsets.contains_key(e)
                &&& !(from <= e < pre.epoch && pre.common_subsets[e].is_terminated())
            }
        &&& forall|e: u64| #[trigger]
            self.common_subsets.contains_key(e) ==> self.common_subsets[e] == pre.common_subsets[e]
    }

    /// This state follows `pre` by the handling of a message of `epoch`.
    ///
    /// The epoch has not gone back, and has moved on only where the message
    /// was one of the current epoch. One batch was queued for each epoch that
    /// was passed, behind those that waited, and the buffer has lost the
    /// transactions of these batches and no others. Messages were queued only
    /// for `epoch` and for the epoch reached. The instances of earlier epochs
    /// are untouched; an instance exists only where one existed, for `epoch`,
    /// or for the epoch reached; and an instance is gone only where its epoch
    /// was passed.
    pub open spec fn progressed_from(self, pre: Self, epoch: u64) -> bool {
        &&& self.same_config(pre)
        &&& self.epoch >= pre.epoch
        &&& epoch != pre.epoch ==> self.epoch == pre.epoch
        &&& pre.output.is_prefix_of(self.output)
        &&& self.output.len() - pre.output.len() == self.epoch - pre.epoch
        &&& self.buffer == undelivered(pre.buffer, self.output.skip(pre.output.len() as int))
        &&& self.queued_since(pre, epoch, self.epoch)
        &&& forall|e: u64|
            #![trigger self.common_subsets.contains_key(e)]
            #![trigger pre.common_subsets.contains_key(e)]
            e < pre.epoch ==> self.common_subsets.contains_key(e) == pre.common_subsets.contains_key(e)
        &&& forall|e: u64|
            e < pre.epoch && #[trigger] pre.common_subsets.contains_key(e) ==> self.common_subsets[e]
                == pre.common_subsets[e]
        &&& forall|e: u64| #[trigger]
            self.common_subsets.contains_key(e) ==> {
                ||| pre.common_subsets.contains_key(e)
                ||| e == epoch
                ||| e == self.epoch
            }
        &&& forall|e: u64|
            #[trigger] pre.common_subsets.contains_key(e) && !(pre.epoch <= e < self.epoch)
                ==> self.common_subsets.contains_key(e)
    }
}

/// An instance of the Honey Badger Byzantine fault tolerant consensus
/// algorithm, which runs the common subset algorithm `A` once per epoch.
pub struct HoneyBadger<A: CommonSubset> {
    /// The transactions that have not yet been included in any output batch.
    buffer: Vec<Vec<u8>>,
    /// The earliest epoch from which we have not yet received output.
    epoch: u64,
    /// The common subset instances that decide which nodes' transactions to
    /// include, by epoch.
    common_subsets: BTreeMap<u64, A>,
    /// This node's id.
    id: u64,
    /// The ids of all participants, this node among them.
    all_uids: HashSet<u64>,
    /// The target number of transactions to be included in each batch.
    batch_size: usize,
    /// The messages that need to be sent to other nodes.
    messages: VecDeque<TargetedMessage<Message<A::Message>>>,
    /// The outputs from completed epochs.
    output: VecDeque<Batch>,
}

impl<A: CommonSubset> View for HoneyBadger<A> {
    type V = EngineState<A>;

    closed spec fn view(&self) -> EngineState<A> {
        EngineState {
            buffer: byte_strings(self.buffer@),
            epoch: self.epoch,
            common_subsets: self.common_subsets@,
            id: self.id,
            all_ids: self.all_uids@,
            batch_size: self.batch_size,
            messages: self.messages@,
            output: batch_views(self.output@),
        }
    }
}

/// Collects the ids of `ids` into a set.
fn id_set(ids: &Vec<u64>) -> (set: HashSet<u64>)
    ensures
        set@ == ids@.to_set(),
        set@.finite(),
{
    let mut set: HashSet<u64> = HashSet::new();
    let mut i: usize = 0;
    while i < ids.len()
        invariant
            i <= ids.len(),
            set@.finite(),
            forall|id: u64| set@.contains(id) <==> exists|j: int| 0 <= j < i && ids@[j] == id,
        decreases ids.len() - i,
    {
        set.insert(ids[i]);
        i += 1;
    }
    set
}

impl<A: CommonSubset> HoneyBadger<A> {
    /// The invariant of the engine. [`new`](Self::new) establishes it and
    /// every operation keeps it.
    pub open spec fn wf(&self) -> bool {
        self@.wf()
    }

    /// The result `r` of [`new`](Self::new) is that of the proposal of
    /// `sample` in the state `initial`: the engine, where there is one, is in
    /// the state that the proposal leaves, and an error is the one that the
    /// proposal ends with.
    pub open spec fn started(
        r: Result<Self, Error<A::Error>>,
        initial: EngineState<A>,
        sample: Seq<Seq<u8>>,
    ) -> bool {
        match bincode_serialized(sample) {
            None => reports(r, Outcome::Bincode),
            Some(proposal) => {
                &&& reports(r, initial.proposed(proposal).1)
                &&& r matches Ok(hb) ==> hb@ == initial.proposed(proposal).0
            },
        }
    }

    /// Returns a new Honey Badger instance with the given parameters, starting
    /// at epoch `0`, which has already proposed for that epoch.
    ///
    /// Fails with `OwnIdMissing` exactly where `id` is not among `all_uids`.
    /// Otherwise a sample of the buffer is encoded and proposed in epoch `0`,
    /// and the outcome is that of this proposal: see
    /// [`EngineState::proposed`].
    pub fn new(id: u64, all_uids: Vec<u64>, batch_size: usize, txs: Vec<Vec<u8>>) -> (r: Result<
        Self,
        Error<A::Error>,
    >)
        ensures
            r matches Err(Error::OwnIdMissing) <==> !all_uids@.contains(id),
            !(r matches Err(Error::UnknownSender)),
            r matches Ok(hb) ==> {
                &&& hb.wf()
                &&& hb@.epoch == 0
                &&& hb@.id == id
                &&& hb@.all_ids == all_uids@.to_set()
                &&& hb@.batch_size == batch_size
                &&& hb@.buffer == byte_strings(txs@)
                &&& hb@.output.len() == 0
                &&& hb@.pruned()
                &&& hb@.common_subsets.dom() == set![0u64]
                &&& forall|k: int|
                    0 <= k < hb@.messages.len() ==> (#[trigger] hb@.messages[k]).message.epoch_of()
                        == 0
            },
            all_uids@.contains(id) ==> exists|sample: Seq<Seq<u8>>| #[trigger]
                EngineState::<A>::initial(
                    id,
                    all_uids@.to_set(),
                    batch_size,
                    byte_strings(txs@),
                ).may_propose(sample) && Self::started(
                    r,
                    EngineState::initial(id, all_uids@.to_set(), batch_size, byte_strings(txs@)),
                    sample,
                ),
    {
        let all_ids = id_set(&all_uids);
        if !all_ids.contains(&id) {
            return Err(Error::OwnIdMissing);
        }
        let mut honey_badger = HoneyBadger {
            buffer: txs,
            epoch: 0,
            common_subsets: BTreeMap::new(),
            id,
            all_uids: all_ids,
            batch_size,
            messages: VecDeque::new(),
            output: VecDeque::new(),
        };
        let ghost initial = honey_badger@;
        assert(initial =~= EngineState::initial(
            id,
            all_uids@.to_set(),
            batch_size,
            byte_strings(txs@),
        ));
        let proposed = honey_badger.propose();
        let ghost sample = choose|sample: Seq<Seq<u8>>| #[trigger]
            initial.may_propose(sample) && honey_badger@.follows_proposal(initial, sample, proposed);
        assert(initial.may_propose(sample));
        match proposed {
            Ok(()) => Ok(honey_badger),
            Err(err) => Err(err),
        }
    }

    /// Adds one transaction to the buffer.
    pub fn input(&mut self, tx: Vec<u8>) -> (r: Result<(), Error<A::Error>>)
        requires
            old(self).wf(),
        ensures
            r is Ok,
            final(self).wf(),
            final(self)@ == (EngineState {
                buffer: old(self)@.buffer.push(tx@),
                ..old(self)@
            }),
    {
        self.buffer.push(tx);
        assert(byte_strings(self.buffer@) =~= byte_strings(old(self).buffer@).push(tx@));
        Ok(())
    }

    /// Adds transactions to the buffer, behind those that it holds.
    pub fn add_transactions(&mut self, txs: Vec<Vec<u8>>) -> (r: Result<(), Error<A::Error>>)
        requires
            old(self).wf(),
        ensures
            r is Ok,
            final(self).wf(),
            final(self)@ == (EngineState {
                buffer: old(self)@.buffer + byte_strings(txs@),
                ..old(self)@
            }),
    {
        append(&mut self.buffer, txs);
        Ok(())
    }

    /// Handles a message that `sender_id` sent.
    ///
    /// A message from a node that is not a participant is refused with
    /// `UnknownSender`, and changes nothing. A message of an epoch that has
    /// been decided is dropped: the call succeeds and changes nothing. Any
    /// other message goes to the instance of its epoch, which is made if there
    /// is none; what the instance wants sent is queued; where the message is
    /// one of the current epoch, the outputs that are ready are delivered; and
    /// the instances that have terminated in the epochs passed are removed.
    ///
    /// Errors of the common subset and of the encoding are handed on. The
    /// engine's invariant holds after an error too. The epoch counter never
    /// wraps: in the last epoch that it can hold, nothing is delivered any
    /// more.
    ///
    /// [`EngineState::follows_message`] says step by step what is handed to
    /// the instances and what is done with what they return.
    pub fn handle_message(&mut self, sender_id: &u64, message: Message<A::Message>) -> (r: Result<
        (),
        Error<A::Error>,
    >)
        requires
            old(self).wf(),
        ensures
            final(self).wf(),
            final(self)@.progressed_from(old(self)@, message.epoch_of()),
            r matches Err(Error::UnknownSender) <==> !old(self)@.all_ids.contains(*sender_id),
            !(r matches Err(Error::OwnIdMissing)),
            !old(self)@.all_ids.contains(*sender_id) ==> *final(self) == *old(self),
            old(self)@.all_ids.contains(*sender_id) && message.epoch_of() < old(self)@.epoch ==> r is Ok
                && final(self)@ == old(self)@,
            old(self)@.all_ids.contains(*sender_id) ==> final(self)@.follows_message(
                old(self)@,
                *sender_id,
                message.epoch_of(),
                message.content(),
                r,
            ),
            r is Ok && message.epoch_of() >= final(self)@.epoch
                ==> final(self)@.common_subsets.contains_key(message.epoch_of()),
            r is Ok && final(self)@.epoch > old(self)@.epoch
                ==> final(self)@.common_subsets.contains_key(final(self)@.epoch),
            forall|e: u64|
                old(self)@.epoch < e < final(self)@.epoch ==> final(self)@.delivered_output(
                    old(self)@,
                    e,
                    #[trigger] old(self)@.ready(e),
                ),
            final(self)@.epoch > old(self)@.epoch ==> (old(self)@.ready(final(self)@.epoch) matches Some(
                output,
            ) ==> !decodable(output@) && r matches Err(Error::Bincode(_))),
            old(self)@.all_ids.contains(*sender_id) && old(self)@.accepts(
                *sender_id,
                message.epoch_of(),
                message.content(),
            ) ==> forall|e: u64|
                old(self)@.epoch <= e < final(self)@.epoch ==> final(self)@.delivered_output(
                    old(self)@,
                    e,
                    #[trigger] old(self)@.handed(
                        *sender_id,
                        message.epoch_of(),
                        message.content(),
                    ).ready(e),
                ),
    {
        if !self.all_uids.contains(sender_id) {
            proof {
                self@.lemma_progress_none();
            }
            return Err(Error::UnknownSender);
        }
        match message {
            Message::CommonSubset(epoch, cs_msg) => self.handle_common_subset_message(
                sender_id,
                epoch,
                cs_msg,
            ),
        }
    }

    /// Takes the next message that needs to be sent, if there is one.
    pub fn next_message(&mut self) -> (r: Option<TargetedMessage<Message<A::Message>>>)
        requires
            old(self).wf(),
        ensures
            final(self).wf(),
            match r {
                Some(msg) => {
                    &&& old(self)@.messages.len() > 0
                    &&& msg == old(self)@.messages[0]
                    &&& final(self)@ == (EngineState {
                        messages: old(self)@.messages.drop_first(),
                        ..old(self)@
                    })
                },
                None => old(self)@.messages.len() == 0 && final(self)@ == old(self)@,
            },
    {
        self.messages.pop_front()
    }

    /// Takes the next batch that was decided, if there is one. Batches come
    /// out in the order of their epochs, none left out.
    pub fn next_output(&mut self) -> (r: Option<Batch>)
        requires
            old(self).wf(),
        ensures
            final(self).wf(),
            match r {
                Some(batch) => {
                    &&& old(self)@.output.len() > 0
                    &&& batch@ == old(self)@.output[0]
                    &&& batch.wf()
                    &&& batch.epoch == old(self)@.next_output_epoch()
                    &&& final(self)@.next_output_epoch() == old(self)@.next_output_epoch() + 1
                    &&& old(self)@.pruned() ==> final(self)@.pruned() && forall|tx: Seq<u8>|
                        #[trigger] batch@.transactions.contains(tx) ==> !final(self)@.buffer.contains(tx)
                    &&& final(self)@ == (EngineState {
                        output: old(self)@.output.drop_first(),
                        ..old(self)@
                    })
                },
                None => old(self)@.output.len() == 0 && final(self)@ == old(self)@,
            },
    {
        let r = self.output.pop_front();
        proof {
            if r is Some {
                assert(batch_views(self.output@) =~= batch_views(old(self).output@).drop_first());
            }
        }
        r
    }

    /// Tells whether the algorithm has terminated, which it never has.
    pub fn terminated(&self) -> (r: bool)
        ensures
            !r,
    {
        false
    }

    /// This node's id.
    pub fn our_id(&self) -> (id: &u64)
        ensures
            *id == self@.id,
    {
        &self.id
    }

    /// The earliest epoch that has not been decided yet.
    pub fn epoch(&self) -> (epoch: u64)
        ensures
            epoch == self@.epoch,
    {
        self.epoch
    }

    /// The transactions that wait to be included in a batch, oldest first.
    pub fn buffer(&self) -> (buffer: &Vec<Vec<u8>>)
        ensures
            byte_strings(buffer@) == self@.buffer,
    {
        &self.buffer
    }

    /// Tells whether a common subset instance for `epoch` is alive.
    pub fn has_instance(&self, epoch: u64) -> (r: bool)
        ensures
            r == self@.common_subsets.contains_key(epoch),
    {
        self.common_subsets.contains_key(&epoch)
    }

    /// Proposes a new batch in the current epoch: hands a random share of the
    /// buffer to the epoch's instance, and queues what the instance wants
    /// sent.
    fn propose(&mut self) -> (r: Result<(), Error<A::Error>>)
        requires
            old(self)@.consistent(),
        ensures
            final(self)@.instance_step(old(self)@, old(self)@.epoch),
            r is Ok ==> final(self)@.common_subsets.contains_key(old(self)@.epoch),
            r matches Err(err) ==> err is CommonSubset || err is Bincode,
            exists|sample: Seq<Seq<u8>>| #[trigger]
                old(self)@.may_propose(sample) && final(self)@.follows_proposal(
                    old(self)@,
                    sample,
                    r,
                ),
    {
        let ghost pre = self@;
        let chosen = self.choose_transactions();
        let ghost sample = choose|sample: Seq<Seq<u8>>|
            {
                &&& #[trigger] is_proposal(
                    sample,
                    pre.buffer,
                    pre.batch_size,
                    pre.all_ids.len() as int,
                )
                &&& bincode_serialized(sample) == match chosen {
                    Ok(bytes) => Some(bytes@),
                    Err(_) => None::<Seq<u8>>,
                }
            };
        assert(pre.may_propose(sample));
        let proposal = match chosen {
            Ok(proposal) => proposal,
            Err(err) => {
                return Err(err);
            },
        };
        let ghost encoded = proposal@;
        let epoch: u64 = self.epoch;
        let mut cs = match self.common_subsets.remove(&epoch) {
            Some(cs) => cs,
            None => match A::new(self.id, &self.all_uids) {
                Ok(cs) => cs,
                Err(err) => {
                    assert(self@ =~= pre);
                    return Err(Error::CommonSubset(err));
                },
            },
        };
        let ghost first = cs;
        assert(pre.instance_for(epoch) == Ok::<A, A::Error>(first));
        match cs.input(proposal) {
            Ok(()) => {},
            Err(err) => {
                self.common_subsets.insert(epoch, cs);
                assert(self@ =~= pre.with_instance(epoch, first.after_input(encoded)));
                return Err(Error::CommonSubset(err));
            },
        }
        let msgs = cs.message_iter();
        self.common_subsets.insert(epoch, cs);
        self.queue(epoch, msgs);
        assert(self@ =~= pre.with_instance(
            epoch,
            first.after_input(encoded).after_drain(),
        ).with_messages(epoch, first.after_input(encoded).outgoing()));
        Ok(())
    }

    /// Returns a random choice of `batch_size / all_uids.len()` buffered
    /// transactions, at least one where there is one, encoded as a proposal.
    fn choose_transactions(&self) -> (r: Result<Vec<u8>, Error<A::Error>>)
        requires
            self@.consistent(),
        ensures
            exists|sample: Seq<Seq<u8>>|
                {
                    &&& #[trigger] is_proposal(
                        sample,
                        self@.buffer,
                        self@.batch_size,
                        self@.all_ids.len() as int,
                    )
                    &&& bincode_serialized(sample) == match r {
                        Ok(bytes) => Some(bytes@),
                        Err(_) => None::<Seq<u8>>,
                    }
                },
            r matches Err(err) ==> err is Bincode,
    {
        let sample = sample(&self.buffer, self.batch_size, self.all_uids.len());
        assert(is_proposal(
            byte_strings(sample@),
            self@.buffer,
            self@.batch_size,
            self@.all_ids.len() as int,
        ));
        match serialize(&sample) {
            Ok(bytes) => Ok(bytes),
            Err(err) => Err(Error::from(err)),
        }
    }

    /// Queues the messages `msgs` of the instance of `epoch`, in their order.
    fn queue(&mut self, epoch: u64, msgs: Vec<TargetedMessage<A::Message>>)
        ensures
            final(self)@ == (EngineState {
                messages: old(self)@.messages + all_in_epoch(epoch, msgs@),
                ..old(self)@
            }),
    {
        let ghost all = msgs@;
        for msg in it: msgs
            invariant
                it.seq() == all,
                self@ == (EngineState {
                    messages: old(self)@.messages + all_in_epoch(epoch, all.take(it.index())),
                    ..old(self)@
                }),
        {
            self.messages.push_back(msg.into_epoch(epoch));
            assert(self.messages@ =~= old(self)@.messages + all_in_epoch(
                epoch,
                all.take(it.index() + 1),
            ));
        }
        assert(all.take(all.len() as int) =~= all);
    }

    /// Handles a message for the common subset algorithm.
    ///
    /// A message of an epoch that has been decided is dropped. Any other goes
    /// to the instance of its epoch, which is made if there is none and stays
    /// alive unless its epoch is passed in this call. Behind the message's own
    /// epoch, the epoch moves on through every epoch whose instance has an
    /// output that can be decoded, and queues the batch of that output; it
    /// stops at the first epoch without one. Where it has moved on and the
    /// call succeeds, the instance of the epoch reached holds this node's
    /// proposal.
    fn handle_common_subset_message(
        &mut self,
        sender_id: &u64,
        epoch: u64,
        message: A::Message,
    ) -> (r: Result<(), Error<A::Error>>)
        requires
            old(self).wf(),
        ensures
            final(self).wf(),
            final(self)@.progressed_from(old(self)@, epoch),
            r matches Err(err) ==> err is CommonSubset || err is Bincode,
            epoch < old(self)@.epoch ==> r is Ok && final(self)@ == old(self)@,
            r is Ok && epoch >= final(self)@.epoch ==> final(self)@.common_subsets.contains_key(epoch),
            r is Ok && final(self)@.epoch > old(self)@.epoch
                ==> final(self)@.common_subsets.contains_key(final(self)@.epoch),
            forall|e: u64|
                old(self)@.epoch < e < final(self)@.epoch ==> final(self)@.delivered_output(
                    old(self)@,
                    e,
                    #[trigger] old(self)@.ready(e),
                ),
            final(self)@.epoch > old(self)@.epoch ==> (old(self)@.ready(final(self)@.epoch) matches Some(
                output,
            ) ==> !decodable(output@) && r matches Err(Error::Bincode(_))),
            final(self)@.epoch == old(self)@.epoch ==> final(self)@.queued_since(
                old(self)@,
                epoch,
                epoch,
            ),
            final(self)@.follows_message(old(self)@, *sender_id, epoch, message, r),
            old(self)@.accepts(*sender_id, epoch, message) ==> forall|e: u64|
                old(self)@.epoch <= e < final(self)@.epoch ==> final(self)@.delivered_output(
                    old(self)@,
                    e,
                    #[trigger] old(self)@.handed(*sender_id, epoch, message).ready(e),
                ),
    {
        let ghost pre = self@;
        if epoch < self.epoch {
            // The epoch has been decided: the message is obsolete.
            self.remove_terminated(epoch);
            proof {
                assert(self@.common_subsets =~= pre.common_subsets);
                pre.lemma_progress_none();
            }
            return Ok(());
        }
        // Take the instance for `epoch`, or create it.
        let mut cs = match self.common_subsets.remove(&epoch) {
            Some(cs) => cs,
            None => match A::new(self.id, &self.all_uids) {
                Ok(cs) => cs,
                Err(err) => {
                    proof {
                        assert(self@ =~= pre);
                        pre.lemma_progress_none();
                    }
                    return Err(Error::CommonSubset(err));
                },
            },
        };
        let ghost first = cs;
        assert(pre.instance_for(epoch) == Ok::<A, A::Error>(first));
        // Handle the message and put the outgoing messages into the queue.
        match cs.handle_message(sender_id, message) {
            Ok(()) => {},
            Err(err) => {
                self.common_subsets.insert(epoch, cs);
                proof {
                    self@.lemma_progress_instance(pre, epoch);
                    assert(self@ =~= pre.with_instance(
                        epoch,
                        first.after_message(*sender_id, message),
                    ));
                }
                return Err(Error::CommonSubset(err));
            },
        }
        let msgs = cs.message_iter();
        self.common_subsets.insert(epoch, cs);
        self.queue(epoch, msgs);
        proof {
            self@.lemma_progress_instance(pre, epoch);
            assert(self@ =~= pre.with_instance(
                epoch,
                first.after_message(*sender_id, message).after_drain(),
            ).with_messages(epoch, first.after_message(*sender_id, message).outgoing()));
        }
        // If this is the current epoch, the message could cause a new output.
        let ghost mid = self@;
        let r = if epoch == self.epoch {
            self.process_output()
        } else {
            proof {
                mid.lemma_progress_none();
            }
            Ok(())
        };
        proof {
            self@.lemma_progress_twice(mid, pre, epoch);
        }
        let ghost late = self@;
        self.remove_terminated(epoch);
        proof {
            self@.lemma_progress_collected(late, pre, epoch);
            assert forall|e: u64| pre.epoch < e < late.epoch implies self@.delivered_output(
                pre,
                e,
                #[trigger] pre.ready(e),
            ) by {
                assert(late.delivered_output(mid, e, mid.ready(e)));
                assert(mid.ready(e) == pre.ready(e));
            }
            if epoch == pre.epoch {
                assert(late.follows_outputs(mid, r) && self@ == late.collected(epoch));
            } else {
                assert(self@ =~= mid);
            }
            assert(mid == pre.handed(*sender_id, epoch, message));
            assert forall|e: u64| pre.epoch <= e < late.epoch implies self@.delivered_output(
                pre,
                e,
                #[trigger] mid.ready(e),
            ) by {
                assert(late.delivered_output(mid, e, mid.ready(e)));
            }
        }
        r
    }

    /// Checks whether the current epoch has output, and if it does, delivers
    /// it, advances the epoch, goes on with the next epoch in the same way,
    /// and at last proposes a new batch in the epoch that it has reached.
    ///
    /// The epoch counter never wraps: in the last epoch that it can hold,
    /// nothing is delivered any more.
    ///
    /// The epoch moves on through every epoch whose instance has an output
    /// that can be decoded, and queues the batch of that output. It stops at
    /// the first epoch whose instance has no output, which is no error, or
    /// has one that cannot be decoded, which is one. No instance is removed,
    /// and one is made at most for the epoch reached.
    fn process_output(&mut self) -> (r: Result<(), Error<A::Error>>)
        requires
            old(self).wf(),
        ensures
            final(self)@.consistent(),
            final(self)@.collected_below(old(self)@.epoch),
            final(self)@.progressed_from(old(self)@, old(self)@.epoch),
            r matches Err(err) ==> err is CommonSubset || err is Bincode,
            !old(self)@.common_subsets.contains_key(old(self)@.epoch) || old(self)@.epoch == u64::MAX
                ==> r is Ok && final(self)@ == old(self)@,
            forall|e: u64|
                old(self)@.epoch <= e < final(self)@.epoch ==> final(self)@.delivered_output(
                    old(self)@,
                    e,
                    #[trigger] old(self)@.ready(e),
                ),
            old(self)@.ready(final(self)@.epoch) matches Some(output) ==> !decodable(output@)
                && r matches Err(Error::Bincode(_)),
            old(self)@.ready(final(self)@.epoch) is None && final(self)@.epoch == old(self)@.epoch
                ==> r is Ok,
            forall|e: u64| #[trigger]
                old(self)@.common_subsets.contains_key(e) ==> final(self)@.common_subsets.contains_key(
                    e,
                ),
            forall|e: u64| #[trigger]
                final(self)@.common_subsets.contains_key(e) ==> {
                    ||| old(self)@.common_subsets.contains_key(e)
                    ||| e == final(self)@.epoch && final(self)@.epoch > old(self)@.epoch
                },
            final(self)@.epoch == old(self)@.epoch ==> final(self)@.messages == old(self)@.messages,
            r is Ok && final(self)@.epoch > old(self)@.epoch
                ==> final(self)@.common_subsets.contains_key(final(self)@.epoch),
            final(self)@.follows_outputs(old(self)@, r),
    {
        let ghost pre = self@;
        let old_epoch: u64 = self.epoch;
        proof {
            pre.lemma_progress_none();
        }
        while self.epoch < u64::MAX
            invariant_except_break
                forall|e: u64|
                    self.epoch <= e && #[trigger] pre.common_subsets.contains_key(e)
                        ==> self@.common_subsets[e] == pre.common_subsets[e],
                self@.after_outputs() == pre.after_outputs(),
            invariant
                self@.consistent(),
                self@.collected_below(pre.epoch),
                self@.progressed_from(pre, pre.epoch),
                self@.messages == pre.messages,
                self@.same_epochs(pre),
                old_epoch == pre.epoch,
                pre == old(self)@,
                !pre.common_subsets.contains_key(pre.epoch) || pre.epoch == u64::MAX ==> self@ == pre,
                forall|e: u64|
                    pre.epoch <= e < self.epoch ==> self@.delivered_output(
                        pre,
                        e,
                        #[trigger] pre.ready(e),
                    ),
            ensures
                pre.ready(self.epoch) is None,
                pre.after_outputs() == (self@, Outcome::<A::Error>::Done),
            decreases u64::MAX - self.epoch,
        {
            let ghost before = self@;
            let output = self.take_current_output();
            let ghost taken = self@;
            proof {
                taken.lemma_progress_taken(before, pre);
            }
            if output.is_none() {
                break ;
            }
            let ser_batches = output.unwrap();
            match self.deliver(&ser_batches) {
                Ok(()) => {},
                Err(err) => {
                    return Err(err);
                },
            }
            proof {
                self@.lemma_progress_delivered(taken, pre, decoded_transactions(ser_batches@));
            }
        }
        // If we have moved to a new epoch, propose a new batch of transactions.
        if self.epoch > old_epoch {
            let ghost reached = self@;
            let r = self.propose();
            proof {
                self@.lemma_progress_proposed(reached, pre);
            }
            r
        } else {
            Ok(())
        }
    }

    /// Delivers the output `ser_batches` of the current epoch's instance:
    /// decodes the proposals, queues the batch of their transactions, removes
    /// these from the buffer, and begins the next epoch. Where a proposal
    /// cannot be decoded, nothing changes.
    fn deliver(&mut self, ser_batches: &BTreeMap<u64, Vec<u8>>) -> (r: Result<(), Error<A::Error>>)
        requires
            old(self)@.consistent(),
            old(self)@.epoch < u64::MAX,
        ensures
            r is Ok <==> decodable(ser_batches@),
            r matches Err(err) ==> err is Bincode && final(self)@ == old(self)@,
            r is Ok ==> final(self)@.delivered_from(old(self)@, decoded_transactions(ser_batches@)),
            r is Ok ==> final(self)@ == old(self)@.with_batch(ser_batches@),
            final(self)@.consistent(),
    {
        // Decode the output.
        let proposals = match decode_all(ser_batches) {
            Ok(proposals) => proposals,
            Err(err) => {
                return Err(Error::from(err));
            },
        };
        let batch = Batch::assemble(self.epoch, proposals);
        // Remove the output transactions from our buffer.
        retain_not_in(&mut self.buffer, &batch.transactions);
        // Queue the output and advance the epoch.
        let ghost queued = batch@;
        self.output.push_back(batch);
        self.epoch = self.epoch + 1;
        proof {
            let before = old(self)@.output;
            let after = self@.output;
            assert(after =~= before.push(queued));
            assert(after.drop_last() =~= before);
            lemma_canonical(queued.transactions);
            assert(self@ =~= old(self)@.with_batch(ser_batches@));
        }
        Ok(())
    }

    /// Takes the output of the current epoch's instance, if it has one. Where
    /// the current epoch has no instance, there is no output and nothing
    /// changes; otherwise the output is the one that the instance hands out
    /// next, and nothing but the instance changes.
    fn take_current_output(&mut self) -> (output: Option<BTreeMap<u64, Vec<u8>>>)
        ensures
            final(self)@.instance_step(old(self)@, old(self)@.epoch),
            final(self)@.messages == old(self)@.messages,
            final(self)@.common_subsets.contains_key(old(self)@.epoch)
                == old(self)@.common_subsets.contains_key(old(self)@.epoch),
            !old(self)@.common_subsets.contains_key(old(self)@.epoch) ==> final(self)@ == old(self)@,
            output == if old(self)@.common_subsets.contains_key(old(self)@.epoch) {
                old(self)@.common_subsets[old(self)@.epoch].next_output_of()
            } else {
                None
            },
            final(self)@ == old(self)@.polled(),
    {
        let epoch: u64 = self.epoch;
        match self.common_subsets.remove(&epoch) {
            None => {
                assert(self@.common_subsets =~= old(self)@.common_subsets);
                None
            },
            Some(cs) => {
                let mut cs = cs;
                let output = cs.next_output();
                self.common_subsets.insert(epoch, cs);
                assert(self@ =~= old(self)@.polled());
                output
            },
        }
    }

    /// Removes the instances of the epochs from `from_epoch` up to the current
    /// one that have terminated.
    fn remove_terminated(&mut self, from_epoch: u64)
        requires
            old(self)@.consistent(),
            from_epoch <= old(self)@.epoch ==> old(self)@.collected_below(from_epoch),
            from_epoch > old(self)@.epoch ==> old(self)@.collected_below(old(self)@.epoch),
        ensures
            final(self).wf(),
            final(self)@.collected_from(old(self)@, from_epoch),
            final(self)@ == old(self)@.collected(from_epoch),
    {
        let ghost pre = self@;
        if from_epoch >= self.epoch {
            assert(self@ =~= pre.collected(from_epoch));
            return ;
        }
        let mut epoch: u64 = from_epoch;
        while epoch < self.epoch
            invariant
                from_epoch <= epoch <= self.epoch,
                self@.consistent(),
                self@.collected_below(epoch),
                self@.same_config(pre),
                self@.buffer == pre.buffer,
                self@.epoch == pre.epoch,
                self@.output == pre.output,
                self@.messages == pre.messages,
                forall|e: u64|
                    #![trigger self@.common_subsets.contains_key(e)]
                    #![trigger pre.common_subsets.contains_key(e)]
                    self@.common_subsets.contains_key(e) <==> {
                        &&& pre.common_subsets.contains_key(e)
                        &&& !(from_epoch <= e < epoch && pre.common_subsets[e].is_terminated())
                    },
                forall|e: u64| #[trigger]
                    self@.common_subsets.contains_key(e) ==> self@.common_subsets[e]
                        == pre.common_subsets[e],
            decreases self.epoch - epoch,
        {
            let done: bool = match self.common_subsets.get(&epoch) {
                Some(cs) => cs.terminated(),
                None => false,
            };
            let ghost had = self@.common_subsets;
            if done {
                self.common_subsets.remove(&epoch);
            }
            proof {
                let now = self@.common_subsets;
                assert forall|e: u64| #[trigger] now.contains_key(e) implies now[e] == had[e] by {}
            }
            epoch = epoch + 1;
        }
        assert(self@ =~= pre.collected(from_epoch));
    }
}

impl<A: CommonSubset> EngineState<A> {
    /// Agreement: two engines that deliver the same output in the same epoch
    /// queue the same batch, whatever their ids, their buffers and the
    /// proposals that they made.
    pub proof fn lemma_delivery_agrees(self, other: Self, output: Map<u64, Vec<u8>>)
        requires
            self.epoch == other.epoch,
        ensures
            self.with_batch(output).output.last() == other.with_batch(output).output.last(),
    {
    }

    /// Output linearity: the waiting batches are those of consecutive epochs,
    /// in increasing order, and the first is the one that `next_output` hands
    /// out next.
    pub proof fn lemma_outputs_in_order(self, i: int, j: int)
        requires
            self.wf(),
            0 <= i < j < self.output.len(),
        ensures
            self.output[i].epoch == self.next_output_epoch() + i,
            self.output[j].epoch == self.output[i].epoch + (j - i),
            self.output[i].epoch < self.output[j].epoch < self.epoch,
    {
    }

    /// Epoch monotonicity: handling a message hands out no batch and leaves
    /// none out, so that the epoch of the next batch to hand out stays what it
    /// was, whatever number of epochs went by.
    pub proof fn lemma_progress_keeps_order(self, pre: Self, epoch: u64)
        requires
            self.progressed_from(pre, epoch),
        ensures
            self.next_output_epoch() == pre.next_output_epoch(),
            self.epoch >= pre.epoch,
    {
    }

    /// Buffer pruning: once a message has been handled, the buffer holds no
    /// transaction of a batch that was delivered meanwhile, and has lost no
    /// other.
    pub proof fn lemma_progress_prunes(self, pre: Self, epoch: u64, tx: Seq<u8>)
        requires
            self.progressed_from(pre, epoch),
        ensures
            self.buffer.contains(tx) <==> pre.buffer.contains(tx) && forall|k: int|
                pre.output.len() <= k < self.output.len() ==> !(#[trigger] self.output[k]).transactions.contains(
                    tx,
                ),
    {
        let n: int = pre.output.len() as int;
        let delivered = self.output.skip(n);
        lemma_undelivered_contains(pre.buffer, delivered, tx);
        assert forall|k: int| n <= k < self.output.len() implies self.output[k] == delivered[k - n] by {}
    }

    /// Buffer pruning goes on: where the buffer held no transaction of a
    /// waiting batch before a message was handled, it holds none afterwards.
    pub proof fn lemma_progress_keeps_pruned(self, pre: Self, epoch: u64)
        requires
            self.progressed_from(pre, epoch),
            pre.pruned(),
        ensures
            self.pruned(),
    {
        let n: int = pre.output.len() as int;
        assert forall|tx: Seq<u8>| #[trigger] self.buffer.contains(tx) implies !self.waiting(tx) by {
            self.lemma_progress_prunes(pre, epoch, tx);
            if self.waiting(tx) {
                let k: int = choose|k: int|
                    0 <= k < self.output.len() && (#[trigger] self.output[k]).transactions.contains(tx);
                if k < n {
                    assert(pre.output[k] == self.output.subrange(0, n)[k]);
                }
            }
        }
    }

    /// Buffer pruning and new transactions: putting transactions into the
    /// buffer of which none is in a waiting batch leaves the buffer without a
    /// transaction of a waiting batch.
    pub proof fn lemma_input_keeps_pruned(self, txs: Seq<Seq<u8>>)
        requires
            self.pruned(),
            forall|i: int| 0 <= i < txs.len() ==> !self.waiting(#[trigger] txs[i]),
        ensures
            (EngineState { buffer: self.buffer + txs, ..self }).pruned(),
    {
        let after = EngineState { buffer: self.buffer + txs, ..self };
        assert forall|tx: Seq<u8>| #[trigger] after.buffer.contains(tx) implies !after.waiting(tx) by {
            let i: int = choose|i: int| 0 <= i < after.buffer.len() && after.buffer[i] == tx;
            if i < self.buffer.len() {
                assert(self.buffer.contains(tx));
            }
        }
    }

    /// Garbage collection: of an epoch that has been decided, no instance is
    /// alive that has terminated.
    pub proof fn lemma_terminated_removed(self, e: u64)
        requires
            self.wf(),
            e < self.epoch,
            self.common_subsets.contains_key(e),
        ensures
            !self.common_subsets[e].is_terminated(),
    {
    }

    /// A state follows itself: nothing has happened.
    pub proof fn lemma_progress_none(self)
        ensures
            forall|epoch: u64| #[trigger] self.progressed_from(self, epoch),
    {
    }

    /// A step of the instance of `epoch`, which is not a past epoch, is
    /// progress by a message of `epoch`.
    proof fn lemma_progress_instance(self, pre: Self, epoch: u64)
        requires
            self.instance_step(pre, epoch),
            epoch >= pre.epoch,
        ensures
            self.progressed_from(pre, epoch),
            pre.consistent() ==> self.consistent(),
            pre.collected_below(pre.epoch) ==> self.collected_below(self.epoch),
    {
    }

    /// Progress of the current epoch after a step of a message of `epoch` is
    /// progress by that message.
    proof fn lemma_progress_twice(self, mid: Self, pre: Self, epoch: u64)
        requires
            mid.progressed_from(pre, epoch),
            mid.epoch == pre.epoch,
            mid.output == pre.output,
            mid.buffer == pre.buffer,
            self.progressed_from(mid, mid.epoch),
            epoch != mid.epoch ==> self == mid,
        ensures
            self.progressed_from(pre, epoch),
    {
        assert forall|k: int| pre.messages.len() <= k < self.messages.len() implies {
            ||| (#[trigger] self.messages[k]).message.epoch_of() == epoch
            ||| self.messages[k].message.epoch_of() == self.epoch
        } by {
            if k < mid.messages.len() {
                assert(mid.messages[k] == self.messages.subrange(0, mid.messages.len() as int)[k]);
            }
        }
    }

    /// Progress followed by the removal of terminated instances is progress.
    proof fn lemma_progress_collected(self, late: Self, pre: Self, epoch: u64)
        requires
            late.progressed_from(pre, epoch),
            self.collected_from(late, epoch),
            epoch >= pre.epoch,
        ensures
            self.progressed_from(pre, epoch),
    {
    }

    /// Progress followed by a step of the current epoch's instance that queues
    /// nothing is progress.
    proof fn lemma_progress_taken(self, before: Self, pre: Self)
        requires
            before.progressed_from(pre, pre.epoch),
            before.messages == pre.messages,
            before.same_epochs(pre),
            self.instance_step(before, before.epoch),
            self.messages == before.messages,
            self.common_subsets.contains_key(before.epoch) == before.common_subsets.contains_key(
                before.epoch,
            ),
        ensures
            self.progressed_from(pre, pre.epoch),
            self.messages == pre.messages,
            self.same_epochs(pre),
            before.consistent() ==> self.consistent(),
            before.collected_below(pre.epoch) ==> self.collected_below(pre.epoch),
    {
    }

    /// Progress followed by the delivery of a batch is progress.
    proof fn lemma_progress_delivered(self, taken: Self, pre: Self, txs: Set<Seq<u8>>)
        requires
            taken.progressed_from(pre, pre.epoch),
            taken.messages == pre.messages,
            taken.same_epochs(pre),
            self.delivered_from(taken, txs),
        ensures
            self.progressed_from(pre, pre.epoch),
            self.messages == pre.messages,
            self.same_epochs(pre),
            taken.collected_below(pre.epoch) ==> self.collected_below(pre.epoch),
    {
        let n: int = pre.output.len() as int;
        let earlier = taken.output.skip(n);
        assert(self.output.skip(n) =~= earlier.push(self.output.last()));
        lemma_undelivered_push(pre.buffer, earlier, self.output.last());
    }

    /// Progress followed by a proposal in the epoch reached is progress.
    proof fn lemma_progress_proposed(self, reached: Self, pre: Self)
        requires
            reached.progressed_from(pre, pre.epoch),
            reached.messages == pre.messages,
            self.instance_step(reached, reached.epoch),
        ensures
            self.progressed_from(pre, pre.epoch),
            reached.consistent() ==> self.consistent(),
            reached.collected_below(pre.epoch) ==> self.collected_below(pre.epoch),
    {
    }
}

} // verus!
