//! Core of an authoritative-plus-forwarding DNS server.
//!
//! The library holds the verified heart of the server: the wire codec that
//! parses inbound queries and emits bit-exact response packets, the record
//! and zone logic, the resolution state machine, and the TTL answer cache.
//! Socket I/O, environment configuration and process supervision live in the
//! surrounding application, which feeds this library plain values.

pub mod cache;
pub mod config;
pub mod db;
pub mod dns;
pub mod errors;
pub mod utils;
pub mod wire;

pub use cache::DnsCache;
pub use config::ServerConfig;
pub use errors::DnsError;
