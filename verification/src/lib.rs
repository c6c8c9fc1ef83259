//! A keyed-list reconciliation engine: given the previously mounted
//! sequence of children identified by stable keys and a new sequence of
//! keyed items, it computes and applies the minimal set of structural
//! operations — remove, move, insert — that brings the host tree in line
//! with the new order, while keeping every surviving child's index binding
//! correct. Around the core sit the callback wrappers and the
//! property-tracing helpers of the surrounding system.

pub mod callback;
pub mod diff;
pub mod host_tree;
pub mod key_seq;
pub mod laws;
pub mod reconcile;
pub mod state;
pub mod trace;
pub mod unpack;
