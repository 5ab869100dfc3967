//! An in-memory key/value and stream store with a tagged wire codec and
//! master-to-replica write propagation, verified with Verus.
//!
//! - `resp`: wire values, their encoding and a decoder over byte buffers, with the
//!   round trip proved.
//! - `stream` and `store`: streams under strictly increasing ids, and the keyed
//!   store with expiry times given by the caller's clock.
//! - `server`: what each command does, MULTI/EXEC batches, and the
//!   replica-inbound step.
//! - `replication`: the master offset, per-replica send queues and
//!   acknowledgements, and the decisions of WAIT.
//! - `rdb`, `arg_parse`, `handshake`, `subscription`, `decimal`: the snapshot
//!   loader, flag lookup, the replica's handshake, blocking-read subscriptions and
//!   decimal text.

pub mod decimal;
pub mod resp;
pub mod stream;
pub mod store;
pub mod replication;
pub mod subscription;
pub mod arg_parse;
pub mod server;
pub mod rdb;
pub mod handshake;
