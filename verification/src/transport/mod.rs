//! The transport's decisions: send and retry semantics, inbound
//! connection steps, outbound dials, reconnect backoff, connection
//! admission and teardown, and certificate pinning.
pub mod send;
pub mod reconnect;
pub mod registry;
pub mod tls;
pub mod epochs;
pub mod connection;
pub mod dial;
pub mod teardown;

pub use tls::PairRequest;
