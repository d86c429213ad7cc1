//! The protocol: messages, latency metrics and the node state machine.

pub mod messages;
pub mod metrics;
pub mod node;
