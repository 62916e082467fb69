//! The durable peer directory: enrolled peers and their configured
//! locators, live discovery candidates, and the observation bookkeeping
//! that decides where each peer may be dialed.
pub mod types;
pub mod listing;
pub mod expiry;
pub mod plans;
pub mod directory;
pub mod state;
pub mod locators;
pub mod store;
