//! Record store adapter and zone logic.
//!
//! The store is a tabular backend keyed by (domain, record type, value).
//! Reads go through trusted wrappers around the backend driver and survive
//! any backend failure by yielding an empty list, so a transient store
//! fault degrades to NXDOMAIN or forwarding rather than a server error.
//! The zone logic built on top — which domains are zones, and which zone is
//! the closest parent of a queried name — is verified.

use vstd::prelude::*;
use vstd::string::*;
use vstd::utf8::*;

use crate::config::ServerConfig;
use crate::wire::DOT;

verus! {

/// A zone this server is authoritative for: a name carrying NS records and
/// possibly an SOA record.
pub struct ZoneInfo {
    /// The domain name of the zone.
    pub name: String,
    /// The NS record values of the zone.
    pub ns_records: Vec<String>,
    /// The SOA record value of the zone, when the store holds one.
    pub soa_record: Option<String>,
}

/// Relies on rusqlite (`Connection::open`, `prepare`, `query_map`): the
/// rows of the record table whose domain equals `domain`, each as
/// (value, ttl, record type). Any backend failure yields the empty list.
#[verifier::external_body]
pub fn lookup_records(db_path: &str, domain: &str) -> (r: Vec<(String, u64, String)>) {
    let conn = match rusqlite::Connection::open(db_path) { Ok(c) => c, Err(_) => return Vec::new() };
    let mut stmt = match conn.prepare("SELECT value, ttl, record_type FROM dns_records WHERE domain = ?") { Ok(s) => s, Err(_) => return Vec::new() };
    let rows = stmt.query_map([domain], |row| Ok((
        row.get(0).unwrap_or_default(),
        u64::try_from(row.get::<_, i64>(1).unwrap_or_default()).unwrap_or(0),
        row.get(2).unwrap_or_default(),
    )));
    match rows { Ok(rows) => rows.filter_map(Result::ok).collect(), Err(_) => Vec::new() }
}

/// Relies on rusqlite (`Connection::open`, `prepare`, `query_map`): the
/// distinct domains that carry an NS record, in row order. Any backend
/// failure yields the empty list.
#[verifier::external_body]
fn db_ns_domains(db_path: &str) -> (r: Vec<String>) {
    let conn = match rusqlite::Connection::open(db_path) { Ok(c) => c, Err(_) => return Vec::new() };
    let mut stmt = match conn.prepare("SELECT DISTINCT domain FROM dns_records WHERE record_type = 'NS'") { Ok(s) => s, Err(_) => return Vec::new() };
    let rows = stmt.query_map([], |row| row.get::<_, String>(0));
    match rows { Ok(rows) => rows.filter_map(Result::ok).collect(), Err(_) => Vec::new() }
}

/// Relies on rusqlite (`Connection::open`, `prepare`, `query_map`): the NS
/// record values of `domain`, in row order; empty on any backend failure.
#[verifier::external_body]
fn db_ns_values(db_path: &str, domain: &str) -> (r: Vec<String>) {
    let conn = match rusqlite::Connection::open(db_path) { Ok(c) => c, Err(_) => return Vec::new() };
    let mut stmt = match conn.prepare("SELECT value FROM dns_records WHERE domain = ? AND record_type = 'NS'") { Ok(s) => s, Err(_) => return Vec::new() };
    let rows = stmt.query_map([domain], |row| row.get::<_, String>(0));
    match rows { Ok(rows) => rows.filter_map(Result::ok).collect(), Err(_) => Vec::new() }
}

/// Relies on rusqlite (`Connection::open`, `query_row`): the first SOA
/// record value of `domain`, or `None` when there is none or the backend
/// fails.
#[verifier::external_body]
fn db_soa_value(db_path: &str, domain: &str) -> (r: Option<String>) {
    let conn = match rusqlite::Connection::open(db_path) { Ok(c) => c, Err(_) => return None };
    conn.query_row(
        "SELECT value FROM dns_records WHERE domain = ? AND record_type = 'SOA' LIMIT 1",
        [domain],
        |row| row.get::<_, String>(0),
    ).ok()
}

/// SOA text of the zone synthesised from the configuration: the first
/// configured NS name (or a placeholder when none is configured), the
/// hostmaster of the default domain, and the fixed administrative fields.
pub open spec fn spec_fallback_soa(config: ServerConfig) -> Seq<char> {
    (if config.ns_records@.len() > 0 {
        config.ns_records@[0]@
    } else {
        "ns1.example.com."@
    }) + " hostmaster."@ + config.default_domain@ + " 1 10800 3600 604800 86400"@
}

/// Copy a list of strings.
#[verifier::loop_isolation(false)]
fn clone_strings(v: &Vec<String>) -> (r: Vec<String>)
    ensures
        r@ == v@,
{
    let n = v.len();
    let mut r: Vec<String> = Vec::new();
    assert(r@ =~= v@.subrange(0, 0));
    let mut i: usize = 0;
    while i < n
        invariant
            i <= n,
            r@ == v@.subrange(0, i as int),
        decreases n - i,
    {
        r.push(v[i].clone());
        assert(r@ =~= v@.subrange(0, i + 1));
        i += 1;
    }
    assert(r@ =~= v@);
    r
}

/// The zone synthesised from the configuration when the store yields no
/// zone of its own: named after the default domain, carrying the
/// configured NS names and an SOA built from them.
pub fn fallback_zone(config: &ServerConfig) -> (z: ZoneInfo)
    ensures
        z.name@ == config.default_domain@,
        z.ns_records@ == config.ns_records@,
        z.soa_record matches Some(s) && s@ == spec_fallback_soa(*config),
{
    let mut soa = if config.ns_records.len() > 0 {
        config.ns_records[0].clone()
    } else {
        String::from_str("ns1.example.com.")
    };
    soa.append(" hostmaster.");
    soa.append(config.default_domain.as_str());
    soa.append(" 1 10800 3600 604800 86400");
    ZoneInfo {
        name: config.default_domain.clone(),
        ns_records: clone_strings(&config.ns_records),
        soa_record: Some(soa),
    }
}

/// The zones of the store: every distinct domain carrying an NS record,
/// with its NS values and first SOA value. When the store yields no zone,
/// the configured [`fallback_zone`] takes their place, so at least one
/// zone is always returned, and an empty result ends as exactly that zone.
#[verifier::loop_isolation(false)]
pub fn get_authoritative_zones(db_path: &str, config: &ServerConfig) -> (r: Vec<ZoneInfo>)
    ensures
        r@.len() >= 1,
{
    let domains = db_ns_domains(db_path);
    let mut zones: Vec<ZoneInfo> = Vec::new();
    let n = domains.len();
    let mut i: usize = 0;
    while i < n
        invariant
            zones@.len() == i,
            i <= n,
        decreases n - i,
    {
        let name = domains[i].clone();
        let ns_records = db_ns_values(db_path, name.as_str());
        let soa_record = db_soa_value(db_path, name.as_str());
        zones.push(ZoneInfo { name, ns_records, soa_record });
        i += 1;
    }
    if zones.len() == 0 {
        zones.push(fallback_zone(config));
    }
    zones
}

/// The records that seed an empty store, as
/// (domain, record type, value, ttl) rows: an A record for the domain and
/// its `www`, `api`, `mail`, `ns1` and `ns2` hosts, an MX to the mail
/// host, an SPF TXT record, the two NS records that make the domain a
/// zone, and an SOA.
pub open spec fn spec_seed_records(d: Seq<char>, ip: Seq<char>) -> Seq<
    (Seq<char>, Seq<char>, Seq<char>, u64),
> {
    seq![
        (d, "A"@, ip, 3600u64),
        ("www."@ + d, "A"@, ip, 3600u64),
        ("api."@ + d, "A"@, ip, 3600u64),
        ("mail."@ + d, "A"@, ip, 3600u64),
        ("ns1."@ + d, "A"@, ip, 3600u64),
        ("ns2."@ + d, "A"@, ip, 3600u64),
        (d, "MX"@, "10 mail."@ + d, 3600u64),
        (d, "TXT"@, "\"v=spf1 a mx ~all\""@, 3600u64),
        (d, "NS"@, "ns1."@ + d, 3600u64),
        (d, "NS"@, "ns2."@ + d, 3600u64),
        (d, "SOA"@, "ns1."@ + d + " hostmaster."@ + d + " 1 10800 3600 604800 86400"@, 3600u64),
    ]
}

/// Prefix a host label to the domain.
fn host_of(prefix: &str, domain: &str) -> (r: String)
    ensures
        r@ == prefix@ + domain@,
{
    let mut r = String::from_str(prefix);
    r.append(domain);
    r
}

/// The rows that seed an empty store for the default domain.
pub fn seed_records(default_domain: &str, default_ip: &str) -> (r: Vec<
    (String, String, String, u64),
>)
    ensures
        r@.len() == spec_seed_records(default_domain@, default_ip@).len(),
        forall|i: int|
            0 <= i < r@.len() ==> {
                let row = #[trigger] r@[i];
                let s = spec_seed_records(default_domain@, default_ip@)[i];
                row.0@ == s.0 && row.1@ == s.1 && row.2@ == s.2 && row.3 == s.3
            },
{
    let mut r: Vec<(String, String, String, u64)> = Vec::new();
    r.push((String::from_str(default_domain), String::from_str("A"), String::from_str(default_ip), 3600));
    r.push((host_of("www.", default_domain), String::from_str("A"), String::from_str(default_ip), 3600));
    r.push((host_of("api.", default_domain), String::from_str("A"), String::from_str(default_ip), 3600));
    r.push((host_of("mail.", default_domain), String::from_str("A"), String::from_str(default_ip), 3600));
    r.push((host_of("ns1.", default_domain), String::from_str("A"), String::from_str(default_ip), 3600));
    r.push((host_of("ns2.", default_domain), String::from_str("A"), String::from_str(default_ip), 3600));
    r.push(
        (String::from_str(default_domain), String::from_str("MX"), host_of(
            "10 mail.",
            default_domain,
        ), 3600),
    );
    r.push(
        (String::from_str(default_domain), String::from_str("TXT"), String::from_str(
            "\"v=spf1 a mx ~all\"",
        ), 3600),
    );
    r.push(
        (String::from_str(default_domain), String::from_str("NS"), host_of(
            "ns1.",
            default_domain,
        ), 3600),
    );
    r.push(
        (String::from_str(default_domain), String::from_str("NS"), host_of(
            "ns2.",
            default_domain,
        ), 3600),
    );
    let mut soa = host_of("ns1.", default_domain);
    soa.append(" hostmaster.");
    soa.append(default_domain);
    soa.append(" 1 10800 3600 604800 86400");
    r.push((String::from_str(default_domain), String::from_str("SOA"), soa, 3600));
    r
}

/// First zone index whose name has the byte form `cand`, searching from
/// `k` on.
pub open spec fn zone_exact_from(zones: Seq<ZoneInfo>, cand: Seq<u8>, k: int) -> Option<int>
    decreases zones.len() - k,
{
    if k < 0 || k >= zones.len() {
        None
    } else if encode_utf8(zones[k].name@) == cand {
        Some(k)
    } else {
        zone_exact_from(zones, cand, k + 1)
    }
}

/// Position of the first dot at or after `pos`, or the length.
pub open spec fn next_dot(s: Seq<u8>, pos: int) -> int
    decreases s.len() - pos,
{
    if pos < 0 || pos >= s.len() {
        s.len() as int
    } else if s[pos] == DOT {
        pos
    } else {
        next_dot(s, pos + 1)
    }
}

pub proof fn lemma_next_dot_bounds(s: Seq<u8>, pos: int)
    requires
        0 <= pos <= s.len(),
    ensures
        pos <= next_dot(s, pos) <= s.len(),
    decreases s.len() - pos,
{
    if pos < s.len() {
        lemma_next_dot_bounds(s, pos + 1);
    }
}

/// First zone matching a suffix of `d` that starts at `pos` or at a later
/// label boundary: the candidates are `d` itself and every suffix that
/// begins right after a dot, tried in order.
pub open spec fn zone_candidate_match(d: Seq<u8>, zones: Seq<ZoneInfo>, pos: int) -> Option<int>
    decreases d.len() - pos,
    when 0 <= pos <= d.len()
    via zone_candidate_match_decreases
{
    match zone_exact_from(zones, d.subrange(pos, d.len() as int), 0) {
        Some(i) => Some(i),
        None => {
            let p = next_dot(d, pos);
            if p >= d.len() {
                None
            } else {
                zone_candidate_match(d, zones, p + 1)
            }
        },
    }
}

#[via_fn]
proof fn zone_candidate_match_decreases(d: Seq<u8>, zones: Seq<ZoneInfo>, pos: int) {
    lemma_next_dot_bounds(d, pos);
}

/// Whether `d` ends in a dot followed by the byte form of the zone's name.
pub open spec fn is_dot_suffix(d: Seq<u8>, name: Seq<u8>) -> bool {
    d.len() > name.len() && d.subrange(d.len() - name.len() - 1, d.len() as int) == seq![DOT]
        + name
}

/// First zone index, from `k` on, whose name follows a dot at the end of
/// `d`.
pub open spec fn zone_suffix_from(d: Seq<u8>, zones: Seq<ZoneInfo>, k: int) -> Option<int>
    decreases zones.len() - k,
{
    if k < 0 || k >= zones.len() {
        None
    } else if is_dot_suffix(d, encode_utf8(zones[k].name@)) {
        Some(k)
    } else {
        zone_suffix_from(d, zones, k + 1)
    }
}

/// The zone covering `d`: the first zone equal to a label-boundary suffix
/// of `d`, else the first zone that a dot separates from the end of `d`,
/// else none.
pub open spec fn spec_closest_zone(d: Seq<u8>, zones: Seq<ZoneInfo>) -> Option<int> {
    match zone_candidate_match(d, zones, 0) {
        Some(i) => Some(i),
        None => zone_suffix_from(d, zones, 0),
    }
}

/// Find the closest parent zone of `domain`: the zone whose name is the
/// longest suffix of it.
#[verifier::loop_isolation(false)]
pub fn find_closest_parent_zone<'a>(domain: &str, zones: &'a [ZoneInfo]) -> (r: Option<
    &'a ZoneInfo,
>)
    ensures
        match spec_closest_zone(domain.spec_bytes(), zones@) {
            None => r is None,
            Some(i) => r matches Some(z) && 0 <= i < zones@.len() && *z == zones@[i],
        },
{
    let d = domain.as_bytes();
    let nz = zones.len();
    let mut pos: usize = 0;
    loop
        invariant
            0 <= pos <= d@.len(),
            zone_candidate_match(d@, zones@, 0) == zone_candidate_match(d@, zones@, pos as int),
        decreases d@.len() - pos,
    {
        // try the candidate suffix that starts at `pos`
        let ghost cand = d@.subrange(pos as int, d@.len() as int);
        let mut k: usize = 0;
        while k < nz
            invariant
                0 <= k <= nz,
                zone_exact_from(zones@, cand, 0) == zone_exact_from(zones@, cand, k as int),
            decreases nz - k,
        {
            if crate::wire::bytes_eq(zones[k].name.as_str().as_bytes(), &d[pos..d.len()]) {
                return Some(&zones[k]);
            }
            k += 1;
        }
        // advance to the suffix after the next dot
        let mut j = pos;
        while j < d.len() && d[j] != DOT
            invariant
                pos <= j <= d@.len(),
                next_dot(d@, pos as int) == next_dot(d@, j as int),
            decreases d@.len() - j,
        {
            j += 1;
        }
        if j >= d.len() {
            break;
        }
        pos = j + 1;
    }
    // no candidate matched exactly; look for a zone name that a dot
    // separates from the end of the domain
    let mut k: usize = 0;
    while k < nz
        invariant
            0 <= k <= nz,
            zone_suffix_from(d@, zones@, 0) == zone_suffix_from(d@, zones@, k as int),
        decreases nz - k,
    {
        let name = zones[k].name.as_str().as_bytes();
        if d.len() > name.len() {
            let cut = d.len() - name.len();
            if d[cut - 1] == DOT && crate::wire::bytes_eq(&d[cut..d.len()], name) {
                proof {
                    assert(d@.subrange(d@.len() - name@.len() - 1, d@.len() as int) =~= seq![DOT]
                        + name@);
                }
                return Some(&zones[k]);
            }
            proof {
                if is_dot_suffix(d@, name@) {
                    assert(d@.subrange(d@.len() - name@.len() - 1, d@.len() as int)[0] == DOT);
                    assert(d@.subrange(cut as int, d@.len() as int) =~= d@.subrange(
                        d@.len() - name@.len() - 1,
                        d@.len() as int,
                    ).subrange(1, name@.len() as int + 1));
                    assert(d@.subrange(cut as int, d@.len() as int) =~= name@);
                }
            }
        }
        k += 1;
    }
    None
}

} // verus!
