//! The inbound request broker: one application handler holds the lease,
//! inbound requests wait as pending entries keyed per remote peer, and
//! terminal outcomes are cached so that retries are answered, never
//! executed twice.
pub mod cache;
pub mod broker;
