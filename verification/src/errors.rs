//! Error taxonomy of the DNS core.

use vstd::prelude::*;

verus! {

/// Errors that the verified core can report to its callers.
///
/// I/O and backend failures never surface here: the transports handle their
/// own socket errors, and a store failure is observed as an empty record
/// list by design, so the resolver degrades to NXDOMAIN or forwarding.
#[derive(Debug)]
pub enum DnsError {
    /// The DNS message is malformed or a record kind is unsupported.
    Protocol(String),
    /// A configured or stored record text cannot be understood.
    Config(String),
    /// An integer field inside a record text does not parse.
    Parse(String),
    /// A base64-encoded field inside a record text does not decode.
    Base64(String),
}

} // verus!
