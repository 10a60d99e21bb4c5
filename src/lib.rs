//! Message vocabulary and peer transport logic for a replicated key-value
//! store driven by a leader-based log-replication protocol.

pub mod codec;
pub mod messages;
pub mod transport;
pub mod wire;
