//! Messages and their addressees.

use vstd::prelude::*;

verus! {

/// To whom a message goes.
#[derive(Clone, Debug, PartialEq, Eq)]
pub enum Target {
    /// To every other node.
    All,
    /// To the node with the given id.
    Node(u64),
}

/// A message together with its addressee.
#[derive(Clone, Debug, PartialEq, Eq)]
pub struct TargetedMessage<M> {
    pub target: Target,
    pub message: M,
}

/// A message sent to or received from another node's Honey Badger instance.
#[derive(Clone, Debug, PartialEq, Eq)]
pub enum Message<M> {
    /// A message of the common subset algorithm in the given epoch.
    CommonSubset(u64, M),
}

impl<M> Message<M> {
    /// The epoch that the message belongs to.
    pub open spec fn epoch_of(self) -> u64 {
        match self {
            Message::CommonSubset(epoch, _) => epoch,
        }
    }

    /// The message of the common subset algorithm that it carries.
    pub open spec fn content(self) -> M {
        match self {
            Message::CommonSubset(_, content) => content,
        }
    }
}

/// The common-subset message `msg` of `epoch` as a Honey Badger message, with
/// its addressee unchanged.
pub open spec fn in_epoch<M>(epoch: u64, msg: TargetedMessage<M>) -> TargetedMessage<Message<M>> {
    TargetedMessage { target: msg.target, message: Message::CommonSubset(epoch, msg.message) }
}

/// The common-subset messages `msgs` of `epoch` as Honey Badger messages, in
/// their order.
pub open spec fn all_in_epoch<M>(epoch: u64, msgs: Seq<TargetedMessage<M>>) -> Seq<
    TargetedMessage<Message<M>>,
> {
    msgs.map_values(|msg: TargetedMessage<M>| in_epoch(epoch, msg))
}

impl<M> TargetedMessage<M> {
    /// Wraps a common-subset message of `epoch` as a Honey Badger message.
    pub fn into_epoch(self, epoch: u64) -> (wrapped: TargetedMessage<Message<M>>)
        ensures
            wrapped == in_epoch(epoch, self),
    {
        TargetedMessage { target: self.target, message: Message::CommonSubset(epoch, self.message) }
    }
}

} // verus!
