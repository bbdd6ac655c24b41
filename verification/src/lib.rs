//! Progress tracking for an in-process streaming dataflow.
//!
//! Data travels through a graph of operators in batches, each labelled with a
//! partially ordered timestamp. An operator that must wait for all data of a
//! timestamp needs to know when nothing at or before that timestamp can still
//! arrive. This crate holds what that takes:
//!
//! - `timestamp`: partial orders, timestamps and the summaries that transform them;
//! - `frontier`: antichains, sets of mutually incomparable elements;
//! - `keyed`: sequences of key/value pairs read as finite maps;
//! - `count_map`: the delta ledger, signed counts merged by addition and pruned at zero;
//! - `ports`: the capabilities to deliver data and to subscribe to it;
//! - `scope`: what a scheduler asks of an operator;
//! - `input_queue`: per-timestamp buffers with their progress ledgers;
//! - `queue`: the queue operator, which releases buffered data once it is safe;
//! - `protocol`: what holds of every sequence of calls made to a queue;
//! - `filter`: the stateless filter operator.
//!
//! Every executable function is verified against its contract; the contracts
//! speak of maps and sequences, not of how the data is stored.

pub mod count_map;
pub mod filter;
pub mod frontier;
pub mod input_queue;
pub mod keyed;
pub mod ports;
pub mod protocol;
pub mod queue;
pub mod scope;
pub mod timestamp;
