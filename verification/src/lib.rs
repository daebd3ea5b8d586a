//! A sequence CRDT: a replicated list of blocks addressed by `(replica, clock)`,
//! with deterministic integration of concurrent inserts, tombstone deletes and
//! an update format for exchanging state between replicas.
//!
//! [`model`] holds the mathematical model of a replica's state; [`store`] the
//! linked list of blocks that implements it; [`update`] the diffs that
//! replicas exchange and [`wire`] their bytes; [`laws`] what holds across
//! operations.

pub mod block;
pub mod delete_set;
pub mod document;
pub mod laws;
pub mod model;
pub mod store;
pub mod update;
pub mod wire;

pub use block::{Block, Item};
pub use delete_set::DeleteSet;
pub use document::{BlockId, ClientId, Clock, ClockVector, Document};
pub use store::{BlockWithClientId, Store};
pub use update::{ApplyError, Content, Update, UpdateBlock, ValidationError};
pub use wire::{decode, encode, MalformedEncoding};
