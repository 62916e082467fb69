//! Peer identity, trust and transport bookkeeping for agent-to-agent
//! messaging: peer tokens, the enrolled-peer directory, the legacy peer
//! table, the inbound request broker and the transport's retry and
//! reconnect decisions.
pub mod text;
pub mod keyed;
pub mod codec;
pub mod identity;
pub mod reply;
pub mod net;
pub mod ipv6;
pub mod peer_token;
pub mod peer_directory;
pub mod peer_table;
pub mod request_broker;
pub mod transport;
