//! A peer node's causal delivery engine for a gossip-style broadcast network.
//!
//! Every node stamps its messages with a scalar logical clock and delivers
//! buffered messages in the total order given by `(timestamp, sender)`.
//! Incoming timestamps are validated against per-sender watermarks so that a
//! replayed, back-dated, or far-future clock is rejected before it can disturb
//! the agreed order.

pub mod buffer;
pub mod clock;
pub mod guard;
pub mod latest;
pub mod order;
pub mod safety;
pub mod state;
pub mod words;

pub use clock::ClockState;
pub use guard::AdmitError;
pub use order::{Candidate, LClock, Message};
pub use state::State;
