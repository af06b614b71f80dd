//! Honey Badger: the epoch engine of an asynchronous Byzantine fault tolerant
//! atomic broadcast.
//!
//! Every participant feeds transactions into its engine; the engine drives one
//! common-subset instance per epoch and turns each instance's output into a
//! [`Batch`] that all correct participants deliver identically.
//!
//! - [`honey_badger`]: the engine, [`HoneyBadger`], and the laws of its state.
//! - [`common_subset`]: the interface of the common subset algorithm.
//! - [`messaging`]: messages and their addressees.
//! - [`buffer`]: the buffer of pending transactions and the sampling of
//!   proposals.
//! - [`codec`]: the encoding of proposals.
//! - [`batch`]: batches and their assembly.
//! - [`transaction_set`], [`byte_order`]: ordered sets of transactions.
//! - [`error`]: the errors of the engine.

pub mod byte_order;
pub mod transaction_set;
pub mod batch;
pub mod codec;
pub mod buffer;
pub mod common_subset;
pub mod error;
pub mod messaging;
pub mod honey_badger;

pub use crate::batch::Batch;
pub use crate::common_subset::CommonSubset;
pub use crate::error::Error;
pub use crate::honey_badger::HoneyBadger;
pub use crate::messaging::Message;
pub use crate::messaging::Target;
pub use crate::messaging::TargetedMessage;
pub use crate::transaction_set::TransactionSet;
