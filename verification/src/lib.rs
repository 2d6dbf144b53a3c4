//! Channel layer for a client-server realtime networking stack.
//!
//! The library sits between a raw datagram transport and application logic.
//! It reassembles messages that were split into fragments, and it buffers
//! out-of-order messages so that an ordered-reliable channel delivers them
//! in contiguous identifier order, across identifier wrap-around.

pub mod fragment_receiver;
pub mod interpolation_history;
pub mod kv;
pub mod message;
pub mod ordered_reliable;
pub mod payload;
pub mod wrapping_id;
