//! Building blocks for nodes of a simulated distributed system, and the
//! services built from them.
//!
//! - `message` and `node`: the envelope, reply correlation, the handshake,
//!   the events a node reacts to and the interface a service implements.
//! - `value_set` and `str_map`: the collections the stores keep.
//! - `merge`: why gossip converges, for any merge that commutes and absorbs
//!   repeats, and for full-state gossip under a join.
//! - `broadcast`, `counter` and `log` (with `log_key`): the three replicated
//!   stores; `convergence` shows that broadcast gossip converges over any
//!   connected topology.
//! - `echo`, `unique` and `txn`: the smaller services.

pub mod message;
pub mod node;
pub mod value_set;
pub mod str_map;
pub mod merge;
pub mod broadcast;
pub mod convergence;
pub mod counter;
pub mod log_key;
pub mod log;
pub mod echo;
pub mod unique;
pub mod txn;
