//! Server configuration as plain values.
//!
//! The configuration is read from the environment by the surrounding
//! application and handed to the library fully materialised; it is immutable
//! for the lifetime of the server and shared read-only across handlers.

use vstd::prelude::*;

verus! {

/// Default TTL in seconds for cached records and synthesised authority
/// records.
pub const DEFAULT_TTL: u64 = 600;

/// Default maximum size in bytes of a UDP datagram buffer.
pub const MAX_PACKET_SIZE: usize = 4096;

/// Immutable server configuration.
///
/// Addresses are kept in their textual form; the application parses them
/// into socket addresses at the transport edge.
pub struct ServerConfig {
    /// Address the transports bind to, as `host:port` text.
    pub bind_addr: String,
    /// Path of the record store.
    pub db_path: String,
    /// Default TTL in seconds for cache entries.
    pub cache_ttl: u64,
    /// Whether IPv6 transport is enabled.
    pub enable_ipv6: bool,
    /// Maximum UDP datagram size accepted.
    pub max_packet_size: usize,
    /// Whether this server answers authoritatively for its zones.
    pub authoritative: bool,
    /// NS names used when the store yields no zone of its own.
    pub ns_records: Vec<String>,
    /// Domain used to seed an empty store and as the fallback zone name.
    pub default_domain: String,
    /// Address used to seed an empty store; empty disables seeding.
    pub default_ip: String,
    /// Upstream resolver endpoints, as `host:port` text, tried in order.
    pub forwarders: Vec<String>,
    /// Preconfigured DS record texts.
    pub ds_records: Vec<String>,
    /// Preconfigured DNSKEY record texts.
    pub dnskey_records: Vec<String>,
}

} // verus!
