//! Errors of the engine.

use vstd::prelude::*;

verus! {

/// A Honey Badger error. `E` is the error type of the common subset
/// algorithm.
#[derive(Debug)]
pub enum Error<E> {
    /// The node's own id is not among the ids of the participants.
    OwnIdMissing,
    /// A message came from a node that is not a participant.
    UnknownSender,
    /// A common subset instance reported an error.
    CommonSubset(E),
    /// A proposal could not be encoded or decoded.
    Bincode(Box<bincode::ErrorKind>),
}

impl<E> From<Box<bincode::ErrorKind>> for Error<E> {
    fn from(err: Box<bincode::ErrorKind>) -> (r: Error<E>) {
        Error::Bincode(err)
    }
}

impl<E> vstd::std_specs::convert::FromSpecImpl<Box<bincode::ErrorKind>> for Error<E> {
    open spec fn obeys_from_spec() -> bool {
        true
    }

    open spec fn from_spec(err: Box<bincode::ErrorKind>) -> Error<E> {
        Error::Bincode(err)
    }
}

} // verus!
