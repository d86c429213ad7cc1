//! Failure detection and membership for a cluster of peers that talk over
//! datagrams: the membership table, the probe tracker, the send queue, the
//! periodic maintenance pass and the latency metrics, as a state machine
//! that is driven with explicit clock readings.

pub mod protocol;
