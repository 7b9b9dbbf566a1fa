//! Storage core of a small block-and-transaction ledger service.
//!
//! Blocks and transactions are kept in files whose layout is described in
//! [`blockfile`]; keys are mapped to file names and offsets by two ordered
//! key-value stores ([`btree::BTree`], backed by `sled`).  The modules
//! [`block`] and [`transaction`] hold the decisions that the service takes
//! for each request; the network and file plumbing live outside this crate.
use vstd::prelude::*;

pub mod error;
pub mod codec;
pub mod text;
pub mod btree;
pub mod blockfile;
pub mod transaction;
pub mod block;

