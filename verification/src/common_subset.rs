//! The interface of the common subset algorithm.
//!
//! Honey Badger runs one instance of an asynchronous common subset algorithm
//! per epoch. The algorithm itself is not part of this crate: the engine works
//! with any implementation of [`CommonSubset`].

use crate::messaging::TargetedMessage;
use std::collections::BTreeMap;
use std::collections::HashSet;
use vstd::prelude::*;

verus! {

/// One instance of an asynchronous common subset algorithm.
///
/// Each node inputs one proposal; the instance exchanges messages with the
/// instances of the other nodes and outputs, at every correct node, the same
/// map from proposers to their proposals.
///
/// The engine relies on this only: that what a method returns, and the state
/// in which it leaves the instance, depend on the instance's state and on the
/// method's arguments alone. The spec functions of the trait name these
/// results and states, so that the engine can say what it hands to an
/// instance and what it does with what comes back. Nothing is assumed of what
/// the results are: whatever they are, the engine keeps its invariant. An
/// implementation defines each name as what the method in question would
/// return or leave behind.
pub trait CommonSubset: Sized {
    /// The messages that the instances exchange.
    type Message;

    /// The errors that an instance reports.
    type Error;

    /// What [`new`](Self::new) returns for the node `our_id` among `all_ids`.
    spec fn created(our_id: u64, all_ids: Set<u64>) -> Result<Self, Self::Error>;

    /// What [`input`](Self::input) returns for `proposal` in this state.
    spec fn input_result(&self, proposal: Seq<u8>) -> Result<(), Self::Error>;

    /// The state in which [`input`](Self::input) of `proposal` leaves the
    /// instance.
    spec fn after_input(&self, proposal: Seq<u8>) -> Self;

    /// What [`handle_message`](Self::handle_message) returns in this state.
    spec fn message_result(&self, sender_id: u64, message: Self::Message) -> Result<
        (),
        Self::Error,
    >;

    /// The state in which [`handle_message`](Self::handle_message) leaves the
    /// instance.
    spec fn after_message(&self, sender_id: u64, message: Self::Message) -> Self;

    /// The messages that [`message_iter`](Self::message_iter) hands out in
    /// this state, in their order.
    spec fn outgoing(&self) -> Seq<TargetedMessage<Self::Message>>;

    /// The state in which [`message_iter`](Self::message_iter) leaves the
    /// instance.
    spec fn after_drain(&self) -> Self;

    /// The output that [`next_output`](Self::next_output) hands out in this
    /// state, if any.
    spec fn next_output_of(&self) -> Option<BTreeMap<u64, Vec<u8>>>;

    /// The state in which [`next_output`](Self::next_output) leaves the
    /// instance.
    spec fn after_output(&self) -> Self;

    /// Whether this instance has terminated.
    spec fn is_terminated(&self) -> bool;

    /// A new instance for the node `our_id` among the nodes `all_ids`.
    fn new(our_id: u64, all_ids: &HashSet<u64>) -> (r: Result<Self, Self::Error>)
        ensures
            r == Self::created(our_id, all_ids@),
    ;

    /// Hands this node's proposal to the instance.
    fn input(&mut self, proposal: Vec<u8>) -> (r: Result<(), Self::Error>)
        ensures
            r == old(self).input_result(proposal@),
            *final(self) == old(self).after_input(proposal@),
    ;

    /// Hands the instance a message that `sender_id` sent.
    fn handle_message(&mut self, sender_id: &u64, message: Self::Message) -> (r: Result<
        (),
        Self::Error,
    >)
        ensures
            r == old(self).message_result(*sender_id, message),
            *final(self) == old(self).after_message(*sender_id, message),
    ;

    /// Takes the messages that the instance wants sent, in its order.
    fn message_iter(&mut self) -> (msgs: Vec<TargetedMessage<Self::Message>>)
        ensures
            msgs@ == old(self).outgoing(),
            *final(self) == old(self).after_drain(),
    ;

    /// Takes the instance's output, if it has one: the agreed proposals, by
    /// proposer.
    fn next_output(&mut self) -> (output: Option<BTreeMap<u64, Vec<u8>>>)
        ensures
            output == old(self).next_output_of(),
            *final(self) == old(self).after_output(),
    ;

    /// Tells whether the instance has terminated.
    fn terminated(&self) -> (r: bool)
        ensures
            r == self.is_terminated(),
    ;
}

} // verus!
