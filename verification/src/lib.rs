//! An asynchronous Byzantine fault tolerant consensus engine of the hashgraph
//! family, with an authenticated key-value state machine on top.
pub mod author;
pub mod authors;
pub mod bytes;
pub mod chain;
pub mod checkpoint;
pub mod codec;
pub mod crypto;
pub mod dag;
pub mod dump;
pub mod election;
pub mod error;
pub mod event;
pub mod finality;
pub mod graph;
pub mod hash;
pub mod hashgraph;
pub mod order;
pub mod queue;
pub mod state;
pub mod state_machine;
pub mod sync;
pub mod transaction;
pub mod tree;
pub mod vote;

pub use crate::author::Author;
pub use crate::checkpoint::SignedCheckpoint;
pub use crate::error::Error;
pub use crate::event::RawEvent;
pub use crate::hashgraph::HashGraph;
pub use crate::transaction::{Key, Transaction, Value};
pub use crate::tree::Tree;
