//! Verified core of a sharded gateway fleet: the operator's partitioner and
//! reconcile decisions, the worker's shard-set bookkeeping, and the byte-exact
//! coordination message formats the two sides exchange over the bus.

pub mod bus;
pub mod codec;
pub mod config;
pub mod manager;
pub mod partition;
pub mod reconcile;
pub mod runner;
pub mod text;
pub mod timefmt;
