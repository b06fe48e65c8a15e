//! Backward fee/expiry propagation for multi-hop payment paths.
//!
//! Given an ordered collection of forwarding hops grouped into payment
//! paths, this library computes, hop by hop, the forwarding amount and
//! absolute time-lock expiry that deliver a fixed final amount to the
//! recipient, and encodes the auxiliary multi-part-payment record that
//! the final hop of each path carries when the payment is split.

pub mod types;
pub mod fee;
pub mod tlv;
pub mod propagate;
pub mod group;
pub mod order;
pub mod pipeline;
