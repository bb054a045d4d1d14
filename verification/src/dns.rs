//! Response builders and the resolution state machine.
//!
//! Every response the server emits locally is assembled here, byte for
//! byte: a 12-byte header that echoes the request's transaction id and
//! QDCOUNT, the request's question section copied unchanged, answer and
//! authority records whose owner name is the compression pointer `c0 0c`
//! to the question name, and — whenever the request carried an OPT
//! record — one OPT record echoing the requester's payload size and DO
//! bit. Each builder's contract gives the full byte sequence of the
//! response it emits.
//!
//! Header-flag policy for locally generated responses: QR is set, OPCODE
//! is zero, AA is set iff the server is configured authoritative (and, for
//! NXDOMAIN, a covering zone exists), TC is clear, RD is copied from the
//! request, RA is set, and RCODE is 0 for positive answers, 3 for
//! NXDOMAIN, 4 for unsupported OPCODEs.

use vstd::prelude::*;
use vstd::string::*;
use vstd::utf8::*;

use crate::cache::{entry_live, DnsCache};
use crate::config::{ServerConfig, DEFAULT_TTL};
use crate::db::{find_closest_parent_zone, get_authoritative_zones, lookup_records, ZoneInfo};
use crate::errors::DnsError;
use crate::utils::{
    encode_name_bytes, spec_do_bit, spec_edns_payload, spec_encode_name, spec_has_opt,
    extract_edns_payload_size, extract_do_bit, has_opt_record, MAX_MSG_LEN,
};
use crate::wire::{
    parse_u16, parse_u32, parse_u8, push_u16_be, push_u32_be, spec_parse_uint, spec_split_ws,
    spec_u16_be, spec_u32_be, split_ws, trim_byte, trim_byte_spec, DOT,
};

verus! {

/// Position of the first zero octet at or after `pos`.
pub open spec fn first_zero(q: Seq<u8>, pos: int) -> Option<int>
    decreases q.len() - pos,
{
    if pos < 0 || pos >= q.len() {
        None
    } else if q[pos] == 0 {
        Some(pos)
    } else {
        first_zero(q, pos + 1)
    }
}

/// A packet the response builders accept without panicking: the header is
/// complete, and when a zero octet ends the question name, four octets of
/// QTYPE and QCLASS follow it.
pub open spec fn question_ok(q: Seq<u8>) -> bool {
    q.len() >= 12 && match first_zero(q, 12) {
        Some(z) => z + 5 <= q.len(),
        None => true,
    }
}

/// The question section that the builders copy into a response: from the
/// end of the header through QCLASS, delimited by the first zero octet.
pub open spec fn spec_question(q: Seq<u8>) -> Seq<u8> {
    match first_zero(q, 12) {
        Some(z) => q.subrange(12, z + 5),
        None => seq![],
    }
}

/// First flag octet of a locally generated positive answer: QR set, OPCODE
/// zero, AA iff authoritative, TC clear, RD copied from the request.
pub open spec fn spec_flags1(q: Seq<u8>, authoritative: bool) -> u8 {
    if authoritative {
        (0x80 | (q[2] & 0x01)) | 0x04
    } else {
        0x80 | (q[2] & 0x01)
    }
}

/// The 12-byte response header: the request's transaction id, the two flag
/// octets, the request's QDCOUNT, and the three section counts.
pub open spec fn spec_header(
    q: Seq<u8>,
    flags1: u8,
    flags2: u8,
    an: u16,
    ns: u16,
    ar: u16,
) -> Seq<u8> {
    q.subrange(0, 2) + seq![flags1, flags2] + q.subrange(4, 6) + spec_u16_be(an) + spec_u16_be(ns)
        + spec_u16_be(ar)
}

/// A resource record owned by the question name: the compression pointer
/// `c0 0c`, the record type, class IN, the TTL, and the length-prefixed
/// RDATA. The RDLENGTH field is the RDATA length truncated to 16 bits.
pub open spec fn spec_rr(rtype: u16, ttl32: u32, rdata: Seq<u8>) -> Seq<u8> {
    seq![0xC0u8, 0x0Cu8] + spec_u16_be(rtype) + seq![0x00u8, 0x01u8] + spec_u32_be(ttl32)
        + spec_u16_be((rdata.len() % 0x10000) as u16) + rdata
}

/// The OPT record appended to a response when the request carried one:
/// root owner name, type 41, the requester's payload size as the class
/// (4096 when the request's OPT was too short to carry one), zero extended
/// RCODE and version, the DO bit copied through, and empty RDATA.
pub open spec fn spec_opt_tail(q: Seq<u8>) -> Seq<u8> {
    if spec_has_opt(q) {
        let payload = match spec_edns_payload(q) {
            Some(p) => p,
            None => 4096,
        };
        seq![0x00u8, 0x00u8, 0x29u8] + spec_u16_be(payload) + seq![0x00u8, 0x00u8] + (if spec_do_bit(
            q,
        ) {
            seq![0x80u8, 0x00u8]
        } else {
            seq![0x00u8, 0x00u8]
        }) + seq![0x00u8, 0x00u8]
    } else {
        seq![]
    }
}

/// The authority records of an authoritative positive answer: one NS
/// record per configured NS name, owned by the question name.
pub open spec fn spec_ns_authority(ns: Seq<String>, ttl32: u32) -> Seq<u8>
    decreases ns.len(),
{
    if ns.len() == 0 {
        seq![]
    } else {
        spec_rr(2, ttl32, spec_encode_name(encode_utf8(ns[0]@))) + spec_ns_authority(
            ns.drop_first(),
            ttl32,
        )
    }
}

/// Number of authority records of a positive answer: the configured NS
/// names when the server is authoritative, truncated to 16 bits, else
/// none.
pub open spec fn spec_authority_count(config: ServerConfig, authoritative: bool) -> u16 {
    if authoritative {
        (config.ns_records@.len() % 0x10000) as u16
    } else {
        0
    }
}

/// ARCOUNT of a response: one iff the request carried an OPT record.
pub open spec fn spec_ar_count(q: Seq<u8>) -> u16 {
    if spec_has_opt(q) {
        1
    } else {
        0
    }
}

/// Append a byte slice.
#[verifier::loop_isolation(false)]
fn append_bytes(out: &mut Vec<u8>, s: &[u8])
    ensures
        final(out)@ == old(out)@ + s@,
{
    let n = s.len();
    let mut i: usize = 0;
    while i < n
        invariant
            i <= n,
            out@ == old(out)@ + s@.subrange(0, i as int),
        decreases n - i,
    {
        out.push(s[i]);
        assert(out@ =~= old(out)@ + s@.subrange(0, i + 1));
        i += 1;
    }
    assert(out@ =~= old(out)@ + s@);
}

/// Locate the zero octet that ends the question name.
#[verifier::loop_isolation(false)]
fn find_zero(query: &[u8]) -> (r: Option<usize>)
    requires
        query@.len() >= 12,
    ensures
        r is None <==> first_zero(query@, 12) is None,
        r matches Some(z) ==> first_zero(query@, 12) == Some(z as int) && 12 <= z
            < query@.len(),
{
    let mut pos: usize = 12;
    loop
        invariant
            12 <= pos <= query@.len(),
            first_zero(query@, 12) == first_zero(query@, pos as int),
        decreases query@.len() - pos,
    {
        if pos >= query.len() {
            return None;
        }
        if query[pos] == 0 {
            return Some(pos);
        }
        pos += 1;
    }
}

/// Append the response header.
fn append_header(
    resp: &mut Vec<u8>,
    query: &[u8],
    flags1: u8,
    flags2: u8,
    an: u16,
    ns: u16,
    ar: u16,
)
    requires
        query@.len() >= 12,
    ensures
        final(resp)@ == old(resp)@ + spec_header(query@, flags1, flags2, an, ns, ar),
{
    let ghost base = resp@;
    append_bytes(resp, &query[0..2]);
    resp.push(flags1);
    resp.push(flags2);
    append_bytes(resp, &query[4..6]);
    push_u16_be(resp, an);
    push_u16_be(resp, ns);
    push_u16_be(resp, ar);
    assert(resp@ =~= base + spec_header(query@, flags1, flags2, an, ns, ar));
}

/// Append the request's question section.
fn append_question(resp: &mut Vec<u8>, query: &[u8], z: usize)
    requires
        first_zero(query@, 12) == Some(z as int),
        12 <= z,
        z + 5 <= query@.len(),
    ensures
        final(resp)@ == old(resp)@ + spec_question(query@),
{
    let ql = query.len();
    assert(z + 5 <= ql);
    append_bytes(resp, &query[12..z + 5]);
}

/// Append the OPT echo when the request asked for one.
fn append_opt_echo(resp: &mut Vec<u8>, query: &[u8])
    requires
        query@.len() <= MAX_MSG_LEN,
    ensures
        final(resp)@ == old(resp)@ + spec_opt_tail(query@),
{
    let ghost base = resp@;
    if has_opt_record(query) {
        let payload: u16 = match extract_edns_payload_size(query) {
            Some(p) => p,
            None => 4096,
        };
        let do_bit = extract_do_bit(query);
        resp.push(0x00);  // root owner name
        resp.push(0x00);  // type OPT, high octet
        resp.push(0x29);  // type OPT, low octet
        push_u16_be(resp, payload);
        resp.push(0x00);  // extended RCODE
        resp.push(0x00);  // EDNS version
        if do_bit {
            resp.push(0x80);
            resp.push(0x00);
        } else {
            resp.push(0x00);
            resp.push(0x00);
        }
        resp.push(0x00);  // RDLENGTH, high octet
        resp.push(0x00);  // RDLENGTH, low octet
        assert(resp@ =~= base + spec_opt_tail(query@));
    } else {
        assert(resp@ =~= base + spec_opt_tail(query@));
    }
}

/// Append a resource record owned by the question name.
fn append_rr(resp: &mut Vec<u8>, rtype: u16, ttl32: u32, rdata: &Vec<u8>)
    ensures
        final(resp)@ == old(resp)@ + spec_rr(rtype, ttl32, rdata@),
{
    let ghost base = resp@;
    resp.push(0xC0);
    resp.push(0x0C);
    push_u16_be(resp, rtype);
    resp.push(0x00);
    resp.push(0x01);
    push_u32_be(resp, ttl32);
    let n: usize = rdata.len();
    let rdlen: u16 = #[verifier::truncate] (n as u16);
    assert(rdlen == (n % 0x10000) as u16) by (bit_vector)
        requires
            rdlen == #[verifier::truncate] (n as u16),
    ;
    assert(rdlen == (rdata@.len() % 0x10000) as u16);
    push_u16_be(resp, rdlen);
    append_bytes(resp, rdata.as_slice());
    assert(resp@ =~= base + spec_rr(rtype, ttl32, rdata@));
}

/// Append one NS authority record per configured NS name.
#[verifier::loop_isolation(false)]
fn append_ns_authority(resp: &mut Vec<u8>, ns_records: &Vec<String>, ttl32: u32)
    ensures
        final(resp)@ == old(resp)@ + spec_ns_authority(ns_records@, ttl32),
{
    let ghost whole = ns_records@;
    let n = ns_records.len();
    let mut i: usize = 0;
    proof {
        assert(whole.subrange(0, n as int) =~= whole);
        assert(resp@ + spec_ns_authority(whole, ttl32) =~= old(resp)@ + spec_ns_authority(
            whole,
            ttl32,
        ));
    }
    while i < n
        invariant
            i <= n,
            resp@ + spec_ns_authority(whole.subrange(i as int, n as int), ttl32) == old(resp)@
                + spec_ns_authority(whole, ttl32),
        decreases n - i,
    {
        let ghost rem = whole.subrange(i as int, n as int);
        let enc = encode_name_bytes(ns_records[i].as_str().as_bytes());
        append_rr(resp, 2, ttl32, &enc);
        proof {
            assert(rem.drop_first() =~= whole.subrange(i + 1, n as int));
            assert(rem[0] == whole[i as int]);
            assert(spec_ns_authority(rem, ttl32) == spec_rr(
                2,
                ttl32,
                spec_encode_name(encode_utf8(whole[i as int]@)),
            ) + spec_ns_authority(rem.drop_first(), ttl32));
            assert((resp@ + spec_ns_authority(whole.subrange(i + 1, n as int), ttl32)) =~= (old(
                resp,
            )@ + spec_ns_authority(whole, ttl32)));
        }
        i += 1;
    }
    assert(spec_ns_authority(whole.subrange(n as int, n as int), ttl32) =~= Seq::<u8>::empty());
    assert(resp@ =~= resp@ + Seq::<u8>::empty());
}

/// TTL field value: the stored 64-bit TTL truncated to 32 bits.
pub open spec fn spec_ttl32(ttl: u64) -> u32 {
    (ttl % 0x1_0000_0000) as u32
}

fn ttl_to_u32(ttl: u64) -> (r: u32)
    ensures
        r == spec_ttl32(ttl),
{
    let r: u32 = #[verifier::truncate] (ttl as u32);
    assert(r == (ttl % 0x1_0000_0000) as u32) by (bit_vector)
        requires
            r == #[verifier::truncate] (ttl as u32),
    ;
    r
}

fn trunc_u16(n: usize) -> (r: u16)
    ensures
        r == (n % 0x10000) as u16,
{
    let r: u16 = #[verifier::truncate] (n as u16);
    assert(r == (n % 0x10000) as u16) by (bit_vector)
        requires
            r == #[verifier::truncate] (n as u16),
    ;
    r
}

/// First flag octet of a locally generated answer, computed from the
/// request.
fn flags1_of(query: &[u8], authoritative: bool) -> (r: u8)
    requires
        query@.len() >= 12,
    ensures
        r == spec_flags1(query@, authoritative),
{
    if authoritative {
        (0x80 | (query[2] & 0x01)) | 0x04
    } else {
        0x80 | (query[2] & 0x01)
    }
}

/// The octets of the dot-separated chunks of `s` that parse as a byte.
/// Chunks that do not parse are passed over, as the lenient dotted-quad
/// reading of the stored address text demands; the result counts as an
/// IPv4 address only when exactly four chunks parsed.
pub open spec fn ipv4_octets_from(s: Seq<u8>, pos: int) -> Seq<u8>
    decreases s.len() - pos,
    when 0 <= pos <= s.len()
    via ipv4_octets_from_decreases
{
    let p = crate::db::next_dot(s, pos);
    let here = match spec_parse_uint(s.subrange(pos, p)) {
        Some(v) => if v <= 255 {
            seq![v as u8]
        } else {
            seq![]
        },
        None => seq![],
    };
    if p >= s.len() {
        here
    } else {
        here + ipv4_octets_from(s, p + 1)
    }
}

#[via_fn]
proof fn ipv4_octets_from_decreases(s: Seq<u8>, pos: int) {
    crate::db::lemma_next_dot_bounds(s, pos);
}

/// Parse a dotted-quad address text leniently: each dot-separated chunk
/// that parses as a byte contributes an octet.
#[verifier::loop_isolation(false)]
fn ipv4_octets(ip: &[u8]) -> (r: Vec<u8>)
    ensures
        r@ == ipv4_octets_from(ip@, 0),
{
    let n = ip.len();
    let mut r: Vec<u8> = Vec::new();
    let mut pos: usize = 0;
    proof {
        assert(r@ + ipv4_octets_from(ip@, 0) =~= ipv4_octets_from(ip@, 0));
    }
    loop
        invariant
            0 <= pos <= n,
            ipv4_octets_from(ip@, 0) == r@ + ipv4_octets_from(ip@, pos as int),
        decreases n - pos,
    {
        let mut j = pos;
        while j < n && ip[j] != DOT
            invariant
                pos <= j <= n,
                crate::db::next_dot(ip@, pos as int) == crate::db::next_dot(ip@, j as int),
            decreases n - j,
        {
            j += 1;
        }
        assert(crate::db::next_dot(ip@, pos as int) == j);
        let ghost here = ipv4_octets_from(ip@, pos as int);
        match parse_u8(&ip[pos..j]) {
            Some(v) => {
                r.push(v);
            },
            None => {},
        }
        proof {
            if j < n {
                assert(ipv4_octets_from(ip@, 0) =~= r@ + ipv4_octets_from(ip@, j + 1));
            } else {
                assert(ipv4_octets_from(ip@, 0) =~= r@);
            }
        }
        if j >= n {
            break;
        }
        pos = j + 1;
    }
    r
}

/// Build a positive A answer carrying the given address text.
///
/// Succeeds exactly when the question holds its terminating zero octet and
/// the address text yields exactly four octets; the response is the
/// header, the question echo, one A record, the configured NS authority
/// records when the server is authoritative, and the OPT echo.
pub fn build_dns_response(query: &[u8], ip: &str, ttl: u64, config: &ServerConfig) -> (r: Result<
    Vec<u8>,
    DnsError,
>)
    requires
        query@.len() <= MAX_MSG_LEN,
        question_ok(query@),
    ensures
        r is Ok <==> (first_zero(query@, 12) is Some && ipv4_octets_from(ip.spec_bytes(), 0).len()
            == 4),
        r matches Ok(resp) ==> resp@ == spec_header(
            query@,
            spec_flags1(query@, config.authoritative),
            0x80,
            1,
            spec_authority_count(*config, config.authoritative),
            spec_ar_count(query@),
        ) + spec_question(query@) + spec_rr(1, spec_ttl32(ttl), ipv4_octets_from(ip.spec_bytes(), 0))
            + (if config.authoritative {
            spec_ns_authority(config.ns_records@, spec_ttl32(ttl))
        } else {
            seq![]
        }) + spec_opt_tail(query@),
        r matches Err(e) ==> e is Protocol,
{
    let z = match find_zero(query) {
        Some(z) => z,
        None => {
            return Err(DnsError::Protocol(String::from_str("invalid question format")));
        },
    };
    let octets = ipv4_octets(ip.as_bytes());
    if octets.len() != 4 {
        return Err(DnsError::Protocol(String::from_str("invalid address text")));
    }
    let t32 = ttl_to_u32(ttl);
    let f1 = flags1_of(query, config.authoritative);
    let nscount: u16 = if config.authoritative {
        trunc_u16(config.ns_records.len())
    } else {
        0
    };
    let arcount: u16 = if has_opt_record(query) {
        1
    } else {
        0
    };
    let mut resp: Vec<u8> = Vec::new();
    append_header(&mut resp, query, f1, 0x80, 1, nscount, arcount);
    append_question(&mut resp, query, z);
    append_rr(&mut resp, 1, t32, &octets);
    if config.authoritative {
        append_ns_authority(&mut resp, &config.ns_records, t32);
    } else {
        proof {
            assert(resp@ + Seq::<u8>::empty() =~= resp@);
        }
    }
    append_opt_echo(&mut resp, query);
    proof {
        assert(resp@ =~= spec_header(
            query@,
            spec_flags1(query@, config.authoritative),
            0x80,
            1,
            spec_authority_count(*config, config.authoritative),
            spec_ar_count(query@),
        ) + spec_question(query@) + spec_rr(1, spec_ttl32(ttl), ipv4_octets_from(ip.spec_bytes(), 0))
            + (if config.authoritative {
            spec_ns_authority(config.ns_records@, spec_ttl32(ttl))
        } else {
            seq![]
        }) + spec_opt_tail(query@));
    }
    Ok(resp)
}

/// A decimal field as an 8-bit value, when it parses and fits.
pub open spec fn spec_parse_u8_opt(s: Seq<u8>) -> Option<u8> {
    match spec_parse_uint(s) {
        Some(v) => if v <= 0xFF {
            Some(v as u8)
        } else {
            None
        },
        None => None,
    }
}

/// A decimal field as a 16-bit value, when it parses and fits.
pub open spec fn spec_parse_u16_opt(s: Seq<u8>) -> Option<u16> {
    match spec_parse_uint(s) {
        Some(v) => if v <= 0xFFFF {
            Some(v as u16)
        } else {
            None
        },
        None => None,
    }
}

/// A decimal field as a 32-bit value, when it parses and fits.
pub open spec fn spec_parse_u32_opt(s: Seq<u8>) -> Option<u32> {
    match spec_parse_uint(s) {
        Some(v) => if v <= 0xFFFF_FFFF {
            Some(v as u32)
        } else {
            None
        },
        None => None,
    }
}

/// A 32-bit field of a record text, falling back to its default when the
/// text does not parse.
pub open spec fn spec_u32_field(parts: Seq<Seq<u8>>, i: int, default: u32) -> u32 {
    match spec_parse_u32_opt(parts[i]) {
        Some(v) => v,
        None => default,
    }
}

/// RDATA of an SOA answer: the encoded MNAME and RNAME, then SERIAL,
/// REFRESH, RETRY, EXPIRE and MINIMUM as 32-bit fields with the defaults
/// 1, 10800, 3600, 604800 and 86400 for fields that fail to parse.
pub open spec fn spec_soa_rdata(soa: Seq<u8>) -> Seq<u8> {
    let parts = spec_split_ws(soa);
    spec_encode_name(parts[0]) + spec_encode_name(parts[1]) + spec_u32_be(
        spec_u32_field(parts, 2, 1),
    ) + spec_u32_be(spec_u32_field(parts, 3, 10800)) + spec_u32_be(spec_u32_field(parts, 4, 3600))
        + spec_u32_be(spec_u32_field(parts, 5, 604800)) + spec_u32_be(
        spec_u32_field(parts, 6, 86400),
    )
}

/// Parse a 32-bit record field with a default.
fn u32_field(part: &Vec<u8>, default: u32) -> (r: u32)
    ensures
        r == (match spec_parse_u32_opt(part@) {
            Some(v) => v,
            None => default,
        }),
{
    match parse_u32(part.as_slice()) {
        Some(v) => v,
        None => default,
    }
}

/// The whitespace-separated fields of a record text.
fn record_parts(value: &str) -> (r: Vec<Vec<u8>>)
    ensures
        r.deep_view() == spec_split_ws(value.spec_bytes()),
        r@.len() == spec_split_ws(value.spec_bytes()).len(),
        forall|i: int|
            0 <= i < r@.len() ==> #[trigger] r@[i]@ == spec_split_ws(value.spec_bytes())[i],
{
    let parts = split_ws(value.as_bytes());
    proof {
        let dv = parts.deep_view();
        assert(forall|i: int| 0 <= i < parts@.len() ==> #[trigger] parts@[i]@ == dv[i]);
    }
    parts
}

/// Build a positive SOA answer from the stored SOA text.
///
/// Succeeds exactly when the question holds its terminating zero octet and
/// the SOA text has at least seven whitespace-separated fields.
#[allow(unused_variables)]
pub fn build_soa_response(
    query: &[u8],
    soa_value: &str,
    ttl: u64,
    domain: String,
    config: &ServerConfig,
) -> (r: Result<Vec<u8>, DnsError>)
    requires
        query@.len() <= MAX_MSG_LEN,
        question_ok(query@),
    ensures
        r is Ok <==> (first_zero(query@, 12) is Some && spec_split_ws(soa_value.spec_bytes()).len()
            >= 7),
        r matches Ok(resp) ==> resp@ == spec_header(
            query@,
            spec_flags1(query@, config.authoritative),
            0x80,
            1,
            spec_authority_count(*config, config.authoritative),
            spec_ar_count(query@),
        ) + spec_question(query@) + spec_rr(6, spec_ttl32(ttl), spec_soa_rdata(
            soa_value.spec_bytes(),
        )) + (if config.authoritative {
            spec_ns_authority(config.ns_records@, spec_ttl32(ttl))
        } else {
            seq![]
        }) + spec_opt_tail(query@),
        r matches Err(e) ==> if first_zero(query@, 12) is None {
            e is Protocol
        } else {
            e is Config
        },
{
    let z = match find_zero(query) {
        Some(z) => z,
        None => {
            return Err(DnsError::Protocol(String::from_str("invalid question format")));
        },
    };
    let parts = record_parts(soa_value);
    if parts.len() < 7 {
        return Err(DnsError::Config(String::from_str("invalid SOA record text")));
    }
    let mut rdata = encode_name_bytes(parts[0].as_slice());
    let rname = encode_name_bytes(parts[1].as_slice());
    append_bytes(&mut rdata, rname.as_slice());
    push_u32_be(&mut rdata, u32_field(&parts[2], 1));
    push_u32_be(&mut rdata, u32_field(&parts[3], 10800));
    push_u32_be(&mut rdata, u32_field(&parts[4], 3600));
    push_u32_be(&mut rdata, u32_field(&parts[5], 604800));
    push_u32_be(&mut rdata, u32_field(&parts[6], 86400));
    assert(rdata@ =~= spec_soa_rdata(soa_value.spec_bytes()));
    let t32 = ttl_to_u32(ttl);
    let f1 = flags1_of(query, config.authoritative);
    let nscount: u16 = if config.authoritative {
        trunc_u16(config.ns_records.len())
    } else {
        0
    };
    let arcount: u16 = if has_opt_record(query) {
        1
    } else {
        0
    };
    let mut resp: Vec<u8> = Vec::new();
    append_header(&mut resp, query, f1, 0x80, 1, nscount, arcount);
    append_question(&mut resp, query, z);
    append_rr(&mut resp, 6, t32, &rdata);
    if config.authoritative {
        append_ns_authority(&mut resp, &config.ns_records, t32);
    } else {
        proof {
            assert(resp@ + Seq::<u8>::empty() =~= resp@);
        }
    }
    append_opt_echo(&mut resp, query);
    Ok(resp)
}

/// Answer records of an NS response: one NS record per stored NS row,
/// owned by the question name, each with its own TTL.
pub open spec fn spec_ns_rrs(records: Seq<(String, u64, String)>) -> Seq<u8>
    decreases records.len(),
{
    if records.len() == 0 {
        seq![]
    } else {
        (if records[0].2@ == "NS"@ {
            spec_rr(2, spec_ttl32(records[0].1), spec_encode_name(encode_utf8(records[0].0@)))
        } else {
            seq![]
        }) + spec_ns_rrs(records.drop_first())
    }
}

/// Number of NS rows among the stored records.
pub open spec fn spec_ns_rr_count(records: Seq<(String, u64, String)>) -> int
    decreases records.len(),
{
    if records.len() == 0 {
        0
    } else {
        (if records[0].2@ == "NS"@ {
            1int
        } else {
            0int
        }) + spec_ns_rr_count(records.drop_first())
    }
}

/// Build a positive NS answer holding every stored NS record of the name.
///
/// Succeeds exactly when the question holds its terminating zero octet;
/// ANCOUNT is the number of NS rows.
#[verifier::loop_isolation(false)]
#[allow(unused_variables)]
pub fn build_ns_response(
    query: &[u8],
    records: &[(String, u64, String)],
    ttl: u64,
    domain: String,
    config: &ServerConfig,
) -> (r: Result<Vec<u8>, DnsError>)
    requires
        query@.len() <= MAX_MSG_LEN,
        question_ok(query@),
    ensures
        r is Ok <==> first_zero(query@, 12) is Some,
        r matches Ok(resp) ==> resp@ == spec_header(
            query@,
            spec_flags1(query@, config.authoritative),
            0x80,
            (spec_ns_rr_count(records@) % 0x10000) as u16,
            0,
            spec_ar_count(query@),
        ) + spec_question(query@) + spec_ns_rrs(records@) + spec_opt_tail(query@),
        r matches Err(e) ==> e is Protocol,
{
    let z = match find_zero(query) {
        Some(z) => z,
        None => {
            return Err(DnsError::Protocol(String::from_str("invalid question format")));
        },
    };
    let n = records.len();
    // count the NS rows
    let mut count: usize = 0;
    let mut i: usize = 0;
    proof {
        assert(records@.subrange(0, n as int) =~= records@);
    }
    while i < n
        invariant
            i <= n,
            count <= i,
            spec_ns_rr_count(records@) == count + spec_ns_rr_count(
                records@.subrange(i as int, n as int),
            ),
        decreases n - i,
    {
        proof {
            let rem = records@.subrange(i as int, n as int);
            assert(rem.drop_first() =~= records@.subrange(i + 1, n as int));
            assert(rem[0] == records@[i as int]);
        }
        if crate::utils::str_eq(records[i].2.as_str(), "NS") {
            count += 1;
        }
        i += 1;
    }
    proof {
        assert(records@.subrange(0, n as int) =~= records@);
        assert(spec_ns_rr_count(records@.subrange(n as int, n as int)) == 0);
    }
    let f1 = flags1_of(query, config.authoritative);
    let arcount: u16 = if has_opt_record(query) {
        1
    } else {
        0
    };
    let mut resp: Vec<u8> = Vec::new();
    append_header(&mut resp, query, f1, 0x80, trunc_u16(count), 0, arcount);
    append_question(&mut resp, query, z);
    // append one record per NS row
    let ghost base = resp@;
    let mut i: usize = 0;
    while i < n
        invariant
            i <= n,
            base + spec_ns_rrs(records@) == resp@ + spec_ns_rrs(
                records@.subrange(i as int, n as int),
            ),
        decreases n - i,
    {
        proof {
            let rem = records@.subrange(i as int, n as int);
            assert(rem.drop_first() =~= records@.subrange(i + 1, n as int));
            assert(rem[0] == records@[i as int]);
        }
        if crate::utils::str_eq(records[i].2.as_str(), "NS") {
            let enc = encode_name_bytes(records[i].0.as_str().as_bytes());
            let t32 = ttl_to_u32(records[i].1);
            append_rr(&mut resp, 2, t32, &enc);
        }
        proof {
            assert((resp@ + spec_ns_rrs(records@.subrange(i + 1, n as int))) =~= (base
                + spec_ns_rrs(records@)));
        }
        i += 1;
    }
    proof {
        assert(records@.subrange(0, n as int) =~= records@);
        assert(spec_ns_rrs(records@.subrange(n as int, n as int)) =~= Seq::<u8>::empty());
        assert(resp@ =~= base + spec_ns_rrs(records@));
    }
    append_opt_echo(&mut resp, query);
    Ok(resp)
}

/// RDATA of an MX answer: a 16-bit preference, defaulting to 10 when its
/// field fails to parse, then the encoded exchange name.
pub open spec fn spec_mx_rdata(value: Seq<u8>) -> Seq<u8> {
    let parts = spec_split_ws(value);
    spec_u16_be(
        match spec_parse_u16_opt(parts[0]) {
            Some(v) => v,
            None => 10,
        },
    ) + spec_encode_name(parts[1])
}

/// RDATA of a TXT answer: one character string holding the stored text
/// with surrounding double quotes trimmed, its length octet truncated to
/// eight bits.
pub open spec fn spec_txt_rdata(value: Seq<u8>) -> Seq<u8> {
    let txt = trim_byte_spec(value, 0x22);
    seq![(txt.len() % 0x100) as u8] + txt
}

/// Build a positive MX, TXT, CNAME or PTR answer from the stored value.
///
/// Succeeds exactly when the question holds its terminating zero octet,
/// the query type is one of those four, and — for MX — the value has at
/// least two whitespace-separated fields.
#[allow(unused_variables)]
pub fn build_generic_record_response(
    query: &[u8],
    value: &str,
    ttl: u64,
    domain: String,
    query_type: u16,
    config: &ServerConfig,
) -> (r: Result<Vec<u8>, DnsError>)
    requires
        query@.len() <= MAX_MSG_LEN,
        question_ok(query@),
    ensures
        r is Ok <==> (first_zero(query@, 12) is Some && (query_type == 5 || query_type == 12
            || query_type == 16 || (query_type == 15 && spec_split_ws(
            value.spec_bytes(),
        ).len() >= 2))),
        r matches Ok(resp) ==> resp@ == spec_header(
            query@,
            spec_flags1(query@, config.authoritative),
            0x80,
            1,
            spec_authority_count(*config, config.authoritative),
            spec_ar_count(query@),
        ) + spec_question(query@) + spec_rr(
            query_type,
            spec_ttl32(ttl),
            if query_type == 15 {
                spec_mx_rdata(value.spec_bytes())
            } else if query_type == 16 {
                spec_txt_rdata(value.spec_bytes())
            } else {
                spec_encode_name(value.spec_bytes())
            },
        ) + (if config.authoritative {
            spec_ns_authority(config.ns_records@, spec_ttl32(ttl))
        } else {
            seq![]
        }) + spec_opt_tail(query@),
{
    let z = match find_zero(query) {
        Some(z) => z,
        None => {
            return Err(DnsError::Protocol(String::from_str("invalid question format")));
        },
    };
    let rdata: Vec<u8> = if query_type == 15 {
        let parts = record_parts(value);
        if parts.len() < 2 {
            return Err(DnsError::Config(String::from_str("invalid MX record text")));
        }
        let pref: u16 = match parse_u16(parts[0].as_slice()) {
            Some(v) => v,
            None => 10,
        };
        let mut rdata: Vec<u8> = Vec::new();
        push_u16_be(&mut rdata, pref);
        let enc = encode_name_bytes(parts[1].as_slice());
        append_bytes(&mut rdata, enc.as_slice());
        assert(rdata@ =~= spec_mx_rdata(value.spec_bytes()));
        rdata
    } else if query_type == 16 {
        let txt = trim_byte(value.as_bytes(), 0x22);
        let mut rdata: Vec<u8> = Vec::new();
        let n: usize = txt.len();
        let len8: u8 = #[verifier::truncate] (n as u8);
        assert(len8 == (n % 0x100) as u8) by (bit_vector)
            requires
                len8 == #[verifier::truncate] (n as u8),
        ;
        rdata.push(len8);
        append_bytes(&mut rdata, txt.as_slice());
        assert(rdata@ =~= spec_txt_rdata(value.spec_bytes()));
        rdata
    } else if query_type == 5 || query_type == 12 {
        encode_name_bytes(value.as_bytes())
    } else {
        return Err(DnsError::Protocol(String::from_str("unsupported record type")));
    };
    let t32 = ttl_to_u32(ttl);
    let f1 = flags1_of(query, config.authoritative);
    let nscount: u16 = if config.authoritative {
        trunc_u16(config.ns_records.len())
    } else {
        0
    };
    let arcount: u16 = if has_opt_record(query) {
        1
    } else {
        0
    };
    let mut resp: Vec<u8> = Vec::new();
    append_header(&mut resp, query, f1, 0x80, 1, nscount, arcount);
    append_question(&mut resp, query, z);
    append_rr(&mut resp, query_type, t32, &rdata);
    if config.authoritative {
        append_ns_authority(&mut resp, &config.ns_records, t32);
    } else {
        proof {
            assert(resp@ + Seq::<u8>::empty() =~= resp@);
        }
    }
    append_opt_echo(&mut resp, query);
    Ok(resp)
}

/// Hexadecimal digit.
pub open spec fn is_hex_digit(b: u8) -> bool {
    (0x30 <= b <= 0x39) || (0x41 <= b <= 0x46) || (0x61 <= b <= 0x66)
}

/// Value of a hexadecimal digit.
pub open spec fn hex_val(b: u8) -> int {
    if 0x30 <= b <= 0x39 {
        b - 0x30
    } else if 0x41 <= b <= 0x46 {
        b - 0x41 + 10
    } else {
        b - 0x61 + 10
    }
}

/// Hexadecimal decoding: pairs of hex digits to bytes; `None` on an odd
/// length or a byte that is no hex digit.
pub open spec fn spec_hex_decode(s: Seq<u8>) -> Option<Seq<u8>>
    decreases s.len(),
{
    if s.len() == 0 {
        Some(seq![])
    } else if s.len() == 1 {
        None
    } else if is_hex_digit(s[0]) && is_hex_digit(s[1]) {
        match spec_hex_decode(s.subrange(2, s.len() as int)) {
            Some(rest) => Some(seq![(hex_val(s[0]) * 16 + hex_val(s[1])) as u8] + rest),
            None => None,
        }
    } else {
        None
    }
}

/// An odd-length input never decodes.
proof fn lemma_hex_odd(s: Seq<u8>)
    requires
        s.len() % 2 == 1,
    ensures
        spec_hex_decode(s) is None,
    decreases s.len(),
{
    if s.len() > 1 && is_hex_digit(s[0]) && is_hex_digit(s[1]) {
        lemma_hex_odd(s.subrange(2, s.len() as int));
    }
}

/// Hexadecimal digit test.
fn is_hex_digit_exec(b: u8) -> (r: bool)
    ensures
        r == is_hex_digit(b),
{
    (0x30 <= b && b <= 0x39) || (0x41 <= b && b <= 0x46) || (0x61 <= b && b <= 0x66)
}

/// Value of a hexadecimal digit.
fn hex_val_exec(b: u8) -> (r: u8)
    requires
        is_hex_digit(b),
    ensures
        r as int == hex_val(b),
        r <= 15,
{
    if b <= 0x39 {
        b - 0x30
    } else if b <= 0x46 {
        b - 0x41 + 10
    } else {
        b - 0x61 + 10
    }
}

/// Decode pairs of hexadecimal digits, upper or lower case, into bytes;
/// `None` on an odd-length input or a byte that is no hexadecimal digit.
#[verifier::loop_isolation(false)]
fn hex_decode(s: &[u8]) -> (r: Option<Vec<u8>>)
    ensures
        r matches Some(v) ==> spec_hex_decode(s@) == Some(v@),
        r is None <==> spec_hex_decode(s@) is None,
{
    let n = s.len();
    if n % 2 != 0 {
        proof {
            lemma_hex_odd(s@);
        }
        return None;
    }
    let mut out: Vec<u8> = Vec::new();
    let mut i: usize = 0;
    proof {
        assert(s@.subrange(0, n as int) =~= s@);
    }
    while i < n
        invariant
            i <= n,
            i % 2 == 0,
            n % 2 == 0,
            spec_hex_decode(s@) == (match spec_hex_decode(s@.subrange(i as int, n as int)) {
                Some(rest) => Some(out@ + rest),
                None => None::<Seq<u8>>,
            }),
        decreases n - i,
    {
        let ghost rem = s@.subrange(i as int, n as int);
        proof {
            assert(rem[0] == s@[i as int]);
            assert(rem[1] == s@[i + 1]);
        }
        if !is_hex_digit_exec(s[i]) || !is_hex_digit_exec(s[i + 1]) {
            proof {
                assert(spec_hex_decode(rem) is None);
            }
            return None;
        }
        let byte: u8 = hex_val_exec(s[i]) * 16 + hex_val_exec(s[i + 1]);
        let ghost out_pre = out@;
        out.push(byte);
        proof {
            assert(rem.subrange(2, rem.len() as int) =~= s@.subrange(i + 2, n as int));
            match spec_hex_decode(s@.subrange(i + 2, n as int)) {
                Some(rest2) => {
                    assert(spec_hex_decode(rem) == Some(seq![byte] + rest2));
                    assert(out_pre + (seq![byte] + rest2) =~= out@ + rest2);
                },
                None => {
                    assert(spec_hex_decode(rem) is None);
                },
            }
        }
        i += 2;
    }
    proof {
        assert(s@.subrange(n as int, n as int) =~= Seq::<u8>::empty());
        assert(out@ + Seq::<u8>::empty() =~= out@);
    }
    Some(out)
}

/// What base64's standard-alphabet decoding yields on an input, or `None`
/// where it fails. The outcome is a function of the input alone.
pub uninterp spec fn base64_decoded(s: Seq<u8>) -> Option<Seq<u8>>;

/// Relies on base64's `STANDARD` engine (`Engine::decode`): the outcome
/// depends on the input alone; the message text of a failure is carried
/// through.
#[verifier::external_body]
fn base64_decode(s: &[u8]) -> (r: Result<Vec<u8>, String>)
    ensures
        r matches Ok(v) ==> base64_decoded(s@) == Some(v@),
        r is Err <==> base64_decoded(s@) is None,
{
    match base64::Engine::decode(&base64::engine::general_purpose::STANDARD, s) {
        Ok(v) => Ok(v),
        Err(e) => Err(format!("{e}")),
    }
}

/// The record fields from `i` on, concatenated without separators, as the
/// original text had them before a signature or key was split across
/// fields.
pub open spec fn spec_join_parts(parts: Seq<Seq<u8>>, i: int) -> Seq<u8>
    decreases parts.len() - i,
{
    if i < 0 || i >= parts.len() {
        seq![]
    } else {
        parts[i] + spec_join_parts(parts, i + 1)
    }
}

/// Concatenate the record fields from `from` on.
#[verifier::loop_isolation(false)]
fn join_parts(parts: &Vec<Vec<u8>>, from: usize) -> (r: Vec<u8>)
    ensures
        r@ == spec_join_parts(parts.deep_view(), from as int),
{
    let ghost dv = parts.deep_view();
    proof {
        assert(forall|i: int| 0 <= i < parts@.len() ==> #[trigger] parts@[i]@ == dv[i]);
    }
    let n = parts.len();
    let mut r: Vec<u8> = Vec::new();
    let mut i = from;
    if from >= n {
        return r;
    }
    while i < n
        invariant
            from <= i <= n,
            spec_join_parts(dv, from as int) == r@ + spec_join_parts(dv, i as int),
        decreases n - i,
    {
        append_bytes(&mut r, parts[i].as_slice());
        proof {
            assert((r@ + spec_join_parts(dv, i + 1)) =~= spec_join_parts(dv, from as int));
        }
        i += 1;
    }
    assert(r@ =~= r@ + spec_join_parts(dv, n as int));
    r
}

/// RDATA of a DS answer from the configured DS text, whose fourth through
/// seventh fields are the key tag, algorithm, digest type and hex digest:
/// `None` when a field is missing or fails to parse or decode.
pub open spec fn spec_ds_rdata(ds: Seq<u8>) -> Option<Seq<u8>> {
    let parts = spec_split_ws(ds);
    if parts.len() < 7 {
        None
    } else {
        match (spec_parse_u16_opt(parts[3]), spec_parse_u8_opt(parts[4]), spec_parse_u8_opt(
            parts[5],
        ), spec_hex_decode(parts[6])) {
            (Some(kt), Some(alg), Some(dt), Some(digest)) => Some(
                spec_u16_be(kt) + seq![alg, dt] + digest,
            ),
            _ => None,
        }
    }
}

/// Build a positive DS answer from the configured DS record text.
///
/// Succeeds exactly when the question holds its terminating zero octet and
/// the DS text yields RDATA.
pub fn build_ds_response(query: &[u8], ds_record: &str, ttl: u64, config: &ServerConfig) -> (r:
    Result<Vec<u8>, DnsError>)
    requires
        query@.len() <= MAX_MSG_LEN,
        question_ok(query@),
    ensures
        r is Ok <==> (first_zero(query@, 12) is Some && spec_ds_rdata(ds_record.spec_bytes())
            is Some),
        r matches Ok(resp) ==> resp@ == spec_header(
            query@,
            spec_flags1(query@, config.authoritative),
            0x80,
            1,
            0,
            spec_ar_count(query@),
        ) + spec_question(query@) + spec_rr(
            43,
            spec_ttl32(ttl),
            spec_ds_rdata(ds_record.spec_bytes())->Some_0,
        ) + spec_opt_tail(query@),
        r matches Err(e) ==> if first_zero(query@, 12) is None {
            e is Protocol
        } else {
            e is Config
        },
{
    let z = match find_zero(query) {
        Some(z) => z,
        None => {
            return Err(DnsError::Protocol(String::from_str("invalid question format")));
        },
    };
    let parts = record_parts(ds_record);
    if parts.len() < 7 {
        return Err(DnsError::Config(String::from_str("invalid DS record text")));
    }
    let key_tag = match parse_u16(parts[3].as_slice()) {
        Some(v) => v,
        None => {
            return Err(DnsError::Config(String::from_str("invalid DS key tag")));
        },
    };
    let algorithm = match parse_u8(parts[4].as_slice()) {
        Some(v) => v,
        None => {
            return Err(DnsError::Config(String::from_str("invalid DS algorithm")));
        },
    };
    let digest_type = match parse_u8(parts[5].as_slice()) {
        Some(v) => v,
        None => {
            return Err(DnsError::Config(String::from_str("invalid DS digest type")));
        },
    };
    let digest = match hex_decode(parts[6].as_slice()) {
        Some(v) => v,
        None => {
            return Err(DnsError::Config(String::from_str("invalid DS digest")));
        },
    };
    let mut rdata: Vec<u8> = Vec::new();
    push_u16_be(&mut rdata, key_tag);
    rdata.push(algorithm);
    rdata.push(digest_type);
    append_bytes(&mut rdata, digest.as_slice());
    assert(rdata@ =~= spec_ds_rdata(ds_record.spec_bytes())->Some_0);
    let t32 = ttl_to_u32(ttl);
    let f1 = flags1_of(query, config.authoritative);
    let arcount: u16 = if has_opt_record(query) {
        1
    } else {
        0
    };
    let mut resp: Vec<u8> = Vec::new();
    append_header(&mut resp, query, f1, 0x80, 1, 0, arcount);
    append_question(&mut resp, query, z);
    append_rr(&mut resp, 43, t32, &rdata);
    append_opt_echo(&mut resp, query);
    Ok(resp)
}

/// RDATA of a DNSKEY answer from the configured DNSKEY text, whose fourth
/// through sixth fields are the flags, protocol and algorithm and whose
/// remaining fields hold the base64 public key: `None` when a field is
/// missing or fails to parse or decode.
pub open spec fn spec_dnskey_rdata(text: Seq<u8>) -> Option<Seq<u8>> {
    let parts = spec_split_ws(text);
    if parts.len() < 7 {
        None
    } else {
        match (spec_parse_u16_opt(parts[3]), spec_parse_u8_opt(parts[4]), spec_parse_u8_opt(
            parts[5],
        ), base64_decoded(spec_join_parts(parts, 6))) {
            (Some(flags), Some(proto), Some(alg), Some(key)) => Some(
                spec_u16_be(flags) + seq![proto, alg] + key,
            ),
            _ => None,
        }
    }
}

/// Build a positive DNSKEY answer from the configured DNSKEY record text.
///
/// Succeeds exactly when the question holds its terminating zero octet and
/// the DNSKEY text yields RDATA.
pub fn build_dnskey_response(query: &[u8], dnskey_record: &str, ttl: u64, config: &ServerConfig) -> (r:
    Result<Vec<u8>, DnsError>)
    requires
        query@.len() <= MAX_MSG_LEN,
        question_ok(query@),
    ensures
        r is Ok <==> (first_zero(query@, 12) is Some && spec_dnskey_rdata(
            dnskey_record.spec_bytes(),
        ) is Some),
        r matches Ok(resp) ==> resp@ == spec_header(
            query@,
            spec_flags1(query@, config.authoritative),
            0x80,
            1,
            0,
            spec_ar_count(query@),
        ) + spec_question(query@) + spec_rr(
            48,
            spec_ttl32(ttl),
            spec_dnskey_rdata(dnskey_record.spec_bytes())->Some_0,
        ) + spec_opt_tail(query@),
        r matches Err(e) ==> if first_zero(query@, 12) is None {
            e is Protocol
        } else {
            e is Config || e is Base64
        },
{
    let z = match find_zero(query) {
        Some(z) => z,
        None => {
            return Err(DnsError::Protocol(String::from_str("invalid question format")));
        },
    };
    let parts = record_parts(dnskey_record);
    if parts.len() < 7 {
        return Err(DnsError::Config(String::from_str("invalid DNSKEY record text")));
    }
    let flags = match parse_u16(parts[3].as_slice()) {
        Some(v) => v,
        None => {
            return Err(DnsError::Config(String::from_str("invalid DNSKEY flags")));
        },
    };
    let protocol = match parse_u8(parts[4].as_slice()) {
        Some(v) => v,
        None => {
            return Err(DnsError::Config(String::from_str("invalid DNSKEY protocol")));
        },
    };
    let algorithm = match parse_u8(parts[5].as_slice()) {
        Some(v) => v,
        None => {
            return Err(DnsError::Config(String::from_str("invalid DNSKEY algorithm")));
        },
    };
    let joined = join_parts(&parts, 6);
    proof {
        let dv = parts.deep_view();
        assert(dv =~~= spec_split_ws(dnskey_record.spec_bytes()));
    }
    let key_data = match base64_decode(joined.as_slice()) {
        Ok(v) => v,
        Err(msg) => {
            return Err(DnsError::Base64(msg));
        },
    };
    let mut rdata: Vec<u8> = Vec::new();
    push_u16_be(&mut rdata, flags);
    rdata.push(protocol);
    rdata.push(algorithm);
    append_bytes(&mut rdata, key_data.as_slice());
    assert(rdata@ =~= spec_dnskey_rdata(dnskey_record.spec_bytes())->Some_0);
    let t32 = ttl_to_u32(ttl);
    let f1 = flags1_of(query, config.authoritative);
    let arcount: u16 = if has_opt_record(query) {
        1
    } else {
        0
    };
    let mut resp: Vec<u8> = Vec::new();
    append_header(&mut resp, query, f1, 0x80, 1, 0, arcount);
    append_question(&mut resp, query, z);
    append_rr(&mut resp, 48, t32, &rdata);
    append_opt_echo(&mut resp, query);
    Ok(resp)
}

/// Wire type covered by an RRSIG text, from the record-type mnemonic in
/// its fifth field.
pub open spec fn spec_type_covered(s: Seq<u8>) -> Option<u16> {
    if s == "DNSKEY".spec_bytes() {
        Some(48u16)
    } else if s == "DS".spec_bytes() {
        Some(43u16)
    } else if s == "A".spec_bytes() {
        Some(1u16)
    } else if s == "NS".spec_bytes() {
        Some(2u16)
    } else if s == "SOA".spec_bytes() {
        Some(6u16)
    } else {
        None
    }
}

/// RDATA of an RRSIG record from its zone-file text: type covered,
/// algorithm, label count, original TTL, expiration and inception times as
/// epoch seconds, key tag, encoded signer name, and the base64 signature
/// joined across the remaining fields. `None` when a field is missing or
/// fails to parse or decode.
pub open spec fn spec_rrsig_rdata(text: Seq<u8>) -> Option<Seq<u8>> {
    let parts = spec_split_ws(text);
    if parts.len() < 13 {
        None
    } else {
        match (spec_type_covered(parts[4]), spec_parse_u8_opt(parts[5]), spec_parse_u8_opt(
            parts[6],
        ), spec_parse_u32_opt(parts[7])) {
            (Some(tc), Some(alg), Some(labels), Some(orig_ttl)) => match (crate::utils::sig_epoch_of(
                parts[8],
            ), crate::utils::sig_epoch_of(parts[9]), spec_parse_u16_opt(parts[10]), base64_decoded(
                spec_join_parts(parts, 12),
            )) {
                (Some(exp), Some(inc), Some(key_tag), Some(signature)) => Some(
                    spec_u16_be(tc) + seq![alg, labels] + spec_u32_be(orig_ttl) + spec_u32_be(exp)
                        + spec_u32_be(inc) + spec_u16_be(key_tag) + spec_encode_name(parts[11])
                        + signature,
                ),
                _ => None,
            },
            _ => None,
        }
    }
}

/// Encode a complete RRSIG resource record, owned by the question name,
/// from its zone-file text.
pub fn encode_rrsig_rr(rrsig_record: &str, ttl: u64) -> (r: Result<Vec<u8>, DnsError>)
    ensures
        r is Ok <==> spec_rrsig_rdata(rrsig_record.spec_bytes()) is Some,
        r matches Ok(rr) ==> rr@ == spec_rr(
            46,
            spec_ttl32(ttl),
            spec_rrsig_rdata(rrsig_record.spec_bytes())->Some_0,
        ),
        r matches Err(e) ==> e is Config || e is Parse || e is Base64,
{
    let parts = record_parts(rrsig_record);
    if parts.len() < 13 {
        return Err(DnsError::Config(String::from_str("invalid RRSIG record text")));
    }
    let type_covered: u16 = if crate::wire::bytes_eq(parts[4].as_slice(), "DNSKEY".as_bytes()) {
        48
    } else if crate::wire::bytes_eq(parts[4].as_slice(), "DS".as_bytes()) {
        43
    } else if crate::wire::bytes_eq(parts[4].as_slice(), "A".as_bytes()) {
        1
    } else if crate::wire::bytes_eq(parts[4].as_slice(), "NS".as_bytes()) {
        2
    } else if crate::wire::bytes_eq(parts[4].as_slice(), "SOA".as_bytes()) {
        6
    } else {
        return Err(DnsError::Config(String::from_str("unsupported type covered")));
    };
    let algorithm = match parse_u8(parts[5].as_slice()) {
        Some(v) => v,
        None => {
            return Err(DnsError::Parse(String::from_str("invalid RRSIG algorithm")));
        },
    };
    let labels = match parse_u8(parts[6].as_slice()) {
        Some(v) => v,
        None => {
            return Err(DnsError::Parse(String::from_str("invalid RRSIG label count")));
        },
    };
    let orig_ttl = match parse_u32(parts[7].as_slice()) {
        Some(v) => v,
        None => {
            return Err(DnsError::Parse(String::from_str("invalid RRSIG original TTL")));
        },
    };
    let sig_exp = match crate::utils::sig_time_of_bytes(parts[8].as_slice()) {
        Some(v) => v,
        None => {
            return Err(DnsError::Config(String::from_str("invalid signature expiration")));
        },
    };
    let sig_inc = match crate::utils::sig_time_of_bytes(parts[9].as_slice()) {
        Some(v) => v,
        None => {
            return Err(DnsError::Config(String::from_str("invalid signature inception")));
        },
    };
    let key_tag = match parse_u16(parts[10].as_slice()) {
        Some(v) => v,
        None => {
            return Err(DnsError::Parse(String::from_str("invalid RRSIG key tag")));
        },
    };
    let signer_wire = encode_name_bytes(parts[11].as_slice());
    let joined = join_parts(&parts, 12);
    proof {
        assert(parts.deep_view() =~~= spec_split_ws(rrsig_record.spec_bytes()));
    }
    let signature = match base64_decode(joined.as_slice()) {
        Ok(v) => v,
        Err(msg) => {
            return Err(DnsError::Base64(msg));
        },
    };
    let mut rdata: Vec<u8> = Vec::new();
    push_u16_be(&mut rdata, type_covered);
    rdata.push(algorithm);
    rdata.push(labels);
    push_u32_be(&mut rdata, orig_ttl);
    push_u32_be(&mut rdata, sig_exp);
    push_u32_be(&mut rdata, sig_inc);
    push_u16_be(&mut rdata, key_tag);
    append_bytes(&mut rdata, signer_wire.as_slice());
    append_bytes(&mut rdata, signature.as_slice());
    assert(rdata@ =~= spec_rrsig_rdata(rrsig_record.spec_bytes())->Some_0);
    let t32 = ttl_to_u32(ttl);
    let mut rr: Vec<u8> = Vec::new();
    append_rr(&mut rr, 46, t32, &rdata);
    assert(rr@ =~= spec_rr(46, spec_ttl32(ttl), rdata@));
    Ok(rr)
}

/// A resource record with an explicit owner name.
pub open spec fn spec_named_rr(owner: Seq<u8>, rtype: u16, ttl32: u32, rdata: Seq<u8>) -> Seq<u8> {
    owner + spec_u16_be(rtype) + seq![0x00u8, 0x01u8] + spec_u32_be(ttl32) + spec_u16_be(
        (rdata.len() % 0x10000) as u16,
    ) + rdata
}

/// Append a resource record with an explicit owner name.
fn append_named_rr(resp: &mut Vec<u8>, owner: &Vec<u8>, rtype: u16, ttl32: u32, rdata: &Vec<u8>)
    ensures
        final(resp)@ == old(resp)@ + spec_named_rr(owner@, rtype, ttl32, rdata@),
{
    let ghost base = resp@;
    append_bytes(resp, owner.as_slice());
    push_u16_be(resp, rtype);
    resp.push(0x00);
    resp.push(0x01);
    push_u32_be(resp, ttl32);
    let n: usize = rdata.len();
    let rdlen: u16 = #[verifier::truncate] (n as u16);
    assert(rdlen == (n % 0x10000) as u16) by (bit_vector)
        requires
            rdlen == #[verifier::truncate] (n as u16),
    ;
    push_u16_be(resp, rdlen);
    append_bytes(resp, rdata.as_slice());
    assert(resp@ =~= base + spec_named_rr(owner@, rtype, ttl32, rdata@));
}

/// Whether a stored SOA text is complete enough to emit: at least seven
/// whitespace-separated fields.
pub open spec fn spec_soa_text_ok(soa: Option<String>) -> bool {
    match soa {
        Some(s) => spec_split_ws(encode_utf8(s@)).len() >= 7,
        None => false,
    }
}

/// NS authority records of an NXDOMAIN response, owned by the zone name.
pub open spec fn spec_zone_ns_rrs(zname: Seq<u8>, ns: Seq<String>) -> Seq<u8>
    decreases ns.len(),
{
    if ns.len() == 0 {
        seq![]
    } else {
        spec_named_rr(zname, 2, spec_ttl32(DEFAULT_TTL), spec_encode_name(encode_utf8(ns[0]@)))
            + spec_zone_ns_rrs(zname, ns.drop_first())
    }
}

/// Authority section of an NXDOMAIN response for a covering zone: the
/// zone's SOA record — when its text is complete — then its NS records,
/// all owned by the zone's name and carrying the default TTL.
pub open spec fn spec_zone_authority(zone: ZoneInfo) -> Seq<u8> {
    let zname = spec_encode_name(encode_utf8(zone.name@));
    (if spec_soa_text_ok(zone.soa_record) {
        spec_named_rr(
            zname,
            6,
            spec_ttl32(DEFAULT_TTL),
            spec_soa_rdata(encode_utf8(zone.soa_record->Some_0@)),
        )
    } else {
        seq![]
    }) + spec_zone_ns_rrs(zname, zone.ns_records@)
}

/// NSCOUNT of an NXDOMAIN response: the SOA record (0 or 1) plus the NS
/// records of the covering zone, truncated to 16 bits.
pub open spec fn spec_nx_ns_count(zone: Option<ZoneInfo>) -> u16 {
    match zone {
        None => 0,
        Some(z) => (((if spec_soa_text_ok(z.soa_record) {
            1int
        } else {
            0int
        }) + z.ns_records@.len()) % 0x10000) as u16,
    }
}

/// Build an NXDOMAIN response. The AA bit is set iff the server is
/// authoritative and a covering zone exists; the zone's SOA and NS records
/// fill the authority section.
///
/// Succeeds exactly when the question holds its terminating zero octet.
#[verifier::loop_isolation(false)]
#[verifier::rlimit(100)]
pub fn build_nxdomain_response(query: &[u8], authoritative: bool, zone: Option<&ZoneInfo>) -> (r:
    Option<Vec<u8>>)
    requires
        query@.len() <= MAX_MSG_LEN,
        question_ok(query@),
    ensures
        r is Some <==> first_zero(query@, 12) is Some,
        r matches Some(resp) ==> resp@ == spec_header(
            query@,
            spec_flags1(query@, authoritative && zone is Some),
            0x83,
            0,
            spec_nx_ns_count(match zone {
                Some(z) => Some(*z),
                None => None,
            }),
            spec_ar_count(query@),
        ) + spec_question(query@) + (match zone {
            Some(z) => spec_zone_authority(*z),
            None => seq![],
        }) + spec_opt_tail(query@),
{
    let z = match find_zero(query) {
        Some(z) => z,
        None => {
            return None;
        },
    };
    let f1 = flags1_of(
        query,
        authoritative && match zone {
            Some(_) => true,
            None => false,
        },
    );
    let arcount: u16 = if has_opt_record(query) {
        1
    } else {
        0
    };
    // the authority section and its record count
    let mut authority: Vec<u8> = Vec::new();
    let mut nscount: u16 = 0;
    match zone {
        None => {},
        Some(zinfo) => {
            let zname = encode_name_bytes(zinfo.name.as_str().as_bytes());
            let soa_rr: bool = match &zinfo.soa_record {
                Some(soa) => {
                    let parts = record_parts(soa.as_str());
                    if parts.len() >= 7 {
                        let mut rdata = encode_name_bytes(parts[0].as_slice());
                        let rname = encode_name_bytes(parts[1].as_slice());
                        append_bytes(&mut rdata, rname.as_slice());
                        push_u32_be(&mut rdata, u32_field(&parts[2], 1));
                        push_u32_be(&mut rdata, u32_field(&parts[3], 10800));
                        push_u32_be(&mut rdata, u32_field(&parts[4], 3600));
                        push_u32_be(&mut rdata, u32_field(&parts[5], 604800));
                        push_u32_be(&mut rdata, u32_field(&parts[6], 86400));
                        assert(rdata@ =~= spec_soa_rdata(encode_utf8(soa@)));
                        let t600 = ttl_to_u32(DEFAULT_TTL);
                        append_named_rr(&mut authority, &zname, 6, t600, &rdata);
                        true
                    } else {
                        false
                    }
                },
                None => false,
            };
            proof {
                if soa_rr {
                    assert(authority@ =~= (if spec_soa_text_ok(zinfo.soa_record) {
                        spec_named_rr(
                            spec_encode_name(encode_utf8(zinfo.name@)),
                            6,
                            spec_ttl32(DEFAULT_TTL),
                            spec_soa_rdata(encode_utf8(zinfo.soa_record->Some_0@)),
                        )
                    } else {
                        seq![]
                    }));
                } else {
                    assert(authority@ =~= Seq::<u8>::empty());
                }
            }
            // the zone's NS records
            let ghost soa_part = authority@;
            let ghost zn = spec_encode_name(encode_utf8(zinfo.name@));
            let nns = zinfo.ns_records.len();
            let t600 = ttl_to_u32(DEFAULT_TTL);
            let mut i: usize = 0;
            proof {
                assert(zinfo.ns_records@.subrange(0, nns as int) =~= zinfo.ns_records@);
            }
            while i < nns
                invariant
                    i <= nns,
                    soa_part + spec_zone_ns_rrs(zn, zinfo.ns_records@) == authority@
                        + spec_zone_ns_rrs(
                        zn,
                        zinfo.ns_records@.subrange(i as int, nns as int),
                    ),
                decreases nns - i,
            {
                proof {
                    let rem = zinfo.ns_records@.subrange(i as int, nns as int);
                    assert(rem.drop_first() =~= zinfo.ns_records@.subrange(i + 1, nns as int));
                    assert(rem[0] == zinfo.ns_records@[i as int]);
                }
                let enc = encode_name_bytes(zinfo.ns_records[i].as_str().as_bytes());
                append_named_rr(&mut authority, &zname, 2, t600, &enc);
                proof {
                    assert((authority@ + spec_zone_ns_rrs(
                        zn,
                        zinfo.ns_records@.subrange(i + 1, nns as int),
                    )) =~= (soa_part + spec_zone_ns_rrs(zn, zinfo.ns_records@)));
                }
                i += 1;
            }
            proof {
                assert(spec_zone_ns_rrs(zn, zinfo.ns_records@.subrange(nns as int, nns as int))
                    =~= Seq::<u8>::empty());
                assert(authority@ =~= spec_zone_authority(*zinfo));
            }
            let soa_add: u32 = if soa_rr {
                1
            } else {
                0
            };
            let total32: u32 = trunc_u16(nns) as u32 + soa_add;
            nscount = (total32 % 0x10000) as u16;
            proof {
                vstd::arithmetic::div_mod::lemma_add_mod_noop(nns as int, soa_add as int, 0x10000);
            }
        },
    }
    let mut resp: Vec<u8> = Vec::new();
    append_header(&mut resp, query, f1, 0x83, 0, nscount, arcount);
    append_question(&mut resp, query, z);
    append_bytes(&mut resp, authority.as_slice());
    append_opt_echo(&mut resp, query);
    proof {
        match zone {
            Some(zinfo) => {
                assert(resp@ =~= spec_header(
                    query@,
                    spec_flags1(query@, authoritative && zone is Some),
                    0x83,
                    0,
                    spec_nx_ns_count(Some(*zinfo)),
                    spec_ar_count(query@),
                ) + spec_question(query@) + spec_zone_authority(*zinfo) + spec_opt_tail(query@));
            },
            None => {
                assert(resp@ =~= spec_header(
                    query@,
                    spec_flags1(query@, authoritative && zone is Some),
                    0x83,
                    0,
                    0,
                    spec_ar_count(query@),
                ) + spec_question(query@) + Seq::<u8>::empty() + spec_opt_tail(query@));
            },
        }
    }
    Some(resp)
}

/// First flag octet of a NOTIMP response: QR set, the request's OPCODE and
/// RD copied through, AA per the server's authority.
pub open spec fn spec_notimp_flags1(q: Seq<u8>, authoritative: bool) -> u8 {
    if authoritative {
        (0x80 | (q[2] & 0x78) | (q[2] & 0x01)) | 0x04
    } else {
        0x80 | (q[2] & 0x78) | (q[2] & 0x01)
    }
}

/// Build a NOTIMP response for a request whose OPCODE is unsupported: the
/// RCODE is 4, the OPCODE and RD are echoed, and the question is copied
/// through.
///
/// Succeeds exactly when the question name walk stays inside the packet
/// and four octets of QTYPE and QCLASS follow it.
#[verifier::loop_isolation(false)]
pub fn build_not_implemented_response(query: &[u8], authoritative: bool) -> (r: Option<Vec<u8>>)
    requires
        query@.len() <= MAX_MSG_LEN,
    ensures
        r is Some <==> (query@.len() >= 12 && (crate::utils::name_end(query@, 12) matches Some(p)
            && p + 4 <= query@.len())),
        r matches Some(resp) ==> resp@ == spec_header(
            query@,
            spec_notimp_flags1(query@, authoritative),
            0x84,
            0,
            0,
            spec_ar_count(query@),
        ) + query@.subrange(12, crate::utils::name_end(query@, 12)->Some_0 + 4) + spec_opt_tail(
            query@,
        ),
{
    if query.len() < 12 {
        return None;
    }
    let mut pos: usize = 12;
    loop
        invariant
            12 <= pos <= query@.len(),
            crate::utils::name_end(query@, 12) == crate::utils::name_end(query@, pos as int),
        decreases query@.len() - pos,
    {
        if pos >= query.len() {
            return None;
        }
        let l = query[pos] as usize;
        if l == 0 {
            pos += 1;
            break;
        }
        if l + 1 >= query.len() - pos {
            return None;
        }
        pos += l + 1;
    }
    assert(crate::utils::name_end(query@, 12) == Some(pos as int));
    if pos > query.len() - 4 {
        return None;
    }
    let f1: u8 = if authoritative {
        (0x80 | (query[2] & 0x78) | (query[2] & 0x01)) | 0x04
    } else {
        0x80 | (query[2] & 0x78) | (query[2] & 0x01)
    };
    let arcount: u16 = if has_opt_record(query) {
        1
    } else {
        0
    };
    let mut resp: Vec<u8> = Vec::new();
    append_header(&mut resp, query, f1, 0x84, 0, 0, arcount);
    append_bytes(&mut resp, &query[12..pos + 4]);
    append_opt_echo(&mut resp, query);
    Some(resp)
}

/// What the resolver promises of every response it emits locally: the
/// transaction id is echoed, QR is set, RD is copied from the request, AA
/// is set only on an authoritative server, the question section is copied
/// byte-identically, the RCODE is 0 or 3, and the response carries exactly
/// one OPT record — echoing the requester's payload size and DO bit —
/// exactly when the request carried one.
pub open spec fn resolver_response_ok(q: Seq<u8>, r: Seq<u8>, authoritative: bool) -> bool {
    &&& r.len() >= 12
    &&& r[0] == q[0] && r[1] == q[1]
    &&& r[2] & 0x80 == 0x80
    &&& r[2] & 0x01 == q[2] & 0x01
    &&& (r[2] & 0x04 == 0x04 ==> authoritative)
    &&& (r[3] & 0x0F == 0 || r[3] & 0x0F == 3)
    &&& (match first_zero(q, 12) {
        Some(z) => r.len() >= z + 5 && r.subrange(12, z + 5) == q.subrange(12, z + 5),
        None => true,
    })
    &&& r[10] == 0 && r[11] == (if spec_has_opt(q) {
        1u8
    } else {
        0u8
    })
    &&& (spec_has_opt(q) ==> r.len() >= 23 && r.subrange(r.len() - 11, r.len() as int)
        == spec_opt_tail(q))
}

/// The flag octet of a locally generated answer carries the AA bit iff
/// the server answers authoritatively, always carries QR, and copies RD
/// from the request.
pub proof fn lemma_flags1_spec(q: Seq<u8>, aa: bool)
    requires
        q.len() >= 3,
    ensures
        (spec_flags1(q, aa) & 0x04 == 0x04) <==> aa,
        spec_flags1(q, aa) & 0x80 == 0x80,
        spec_flags1(q, aa) & 0x01 == q[2] & 0x01,
{
    lemma_flags1_bits(q[2], aa);
}

/// The flag octets of any built response are the ones its header was
/// given: with [`lemma_rcode_values`], a positive answer (flag octet
/// `0x80`) carries RCODE 0, an NXDOMAIN (`0x83`) carries RCODE 3, and a
/// NOTIMP (`0x84`) carries RCODE 4.
pub proof fn lemma_response_flag_octets(
    q: Seq<u8>,
    f1: u8,
    f2: u8,
    an: u16,
    ns: u16,
    ar: u16,
    rest: Seq<u8>,
)
    requires
        q.len() >= 12,
    ensures
        (spec_header(q, f1, f2, an, ns, ar) + rest)[2] == f1,
        (spec_header(q, f1, f2, an, ns, ar) + rest)[3] == f2,
{
    lemma_header_bytes(q, f1, f2, an, ns, ar);
    let h = spec_header(q, f1, f2, an, ns, ar);
    assert((h + rest)[2] == h[2]);
    assert((h + rest)[3] == h[3]);
}

/// RCODE nibbles of the three flag octets the builders emit: 0 for a
/// positive answer, 3 for NXDOMAIN, 4 for NOTIMP.
pub proof fn lemma_rcode_values()
    ensures
        0x80u8 & 0x0F == 0,
        0x83u8 & 0x0F == 3,
        0x84u8 & 0x0F == 4,
{
    assert(0x80u8 & 0x0F == 0 && 0x83u8 & 0x0F == 3 && 0x84u8 & 0x0F == 4) by (bit_vector);
}

/// Bit structure of the first flag octet of a locally generated answer.
proof fn lemma_flags1_bits(x: u8, aa: bool)
    ensures
        ({
            let f = if aa {
                (0x80 | (x & 0x01)) | 0x04
            } else {
                0x80 | (x & 0x01)
            };
            f & 0x80 == 0x80 && f & 0x01 == x & 0x01 && ((f & 0x04 == 0x04) <==> aa)
        }),
{
    if aa {
        let f = (0x80 | (x & 0x01)) | 0x04;
        assert(f & 0x80 == 0x80 && f & 0x01 == x & 0x01 && f & 0x04 == 0x04) by (bit_vector)
            requires
                f == (0x80 | (x & 0x01)) | 0x04,
        ;
    } else {
        let f = 0x80 | (x & 0x01);
        assert(f & 0x80 == 0x80 && f & 0x01 == x & 0x01 && f & 0x04 == 0) by (bit_vector)
            requires
                f == 0x80 | (x & 0x01),
        ;
    }
}

/// The twelve octets of a response header, named one by one.
proof fn lemma_header_bytes(q: Seq<u8>, f1: u8, f2: u8, an: u16, ns: u16, ar: u16)
    requires
        q.len() >= 12,
    ensures
        ({
            let h = spec_header(q, f1, f2, an, ns, ar);
            h =~= seq![
                q[0],
                q[1],
                f1,
                f2,
                q[4],
                q[5],
                (an / 256) as u8,
                (an % 256) as u8,
                (ns / 256) as u8,
                (ns % 256) as u8,
                (ar / 256) as u8,
                (ar % 256) as u8,
            ]
        }),
{
}

/// A response assembled as header, question echo, answer or authority
/// records, and OPT echo meets the resolver's umbrella contract.
proof fn lemma_resolver_shape(
    q: Seq<u8>,
    r: Seq<u8>,
    aa: bool,
    authoritative: bool,
    f2: u8,
    an: u16,
    ns: u16,
    middle: Seq<u8>,
)
    requires
        question_ok(q),
        aa ==> authoritative,
        f2 == 0x80 || f2 == 0x83,
        r == spec_header(q, spec_flags1(q, aa), f2, an, ns, spec_ar_count(q)) + spec_question(q)
            + middle + spec_opt_tail(q),
    ensures
        resolver_response_ok(q, r, authoritative),
{
    let f1 = spec_flags1(q, aa);
    let h = spec_header(q, f1, f2, an, ns, spec_ar_count(q));
    let qs = spec_question(q);
    let o = spec_opt_tail(q);
    lemma_header_bytes(q, f1, f2, an, ns, spec_ar_count(q));
    assert(h.len() == 12);
    assert(r.len() == 12 + qs.len() + middle.len() + o.len());
    assert forall|i: int| 0 <= i < 12 implies r[i] == h[i] by {
        assert(((h + qs) + middle) + o == r);
    }
    lemma_flags1_bits(q[2], aa);
    assert(f2 & 0x0F == 0 || f2 & 0x0F == 3) by (bit_vector)
        requires
            f2 == 0x80 || f2 == 0x83,
    ;
    match first_zero(q, 12) {
        Some(z) => {
            assert(12 <= z && z + 5 <= q.len()) by {
                lemma_first_zero_bounds(q, 12);
            }
            assert(qs.len() == z + 5 - 12);
            assert forall|j: int| 0 <= j < qs.len() implies r[12 + j] == qs[j] by {}
            assert(r.subrange(12, z + 5) =~= q.subrange(12, z + 5));
        },
        None => {},
    }
    if spec_has_opt(q) {
        assert(o.len() == 11);
        assert forall|j: int| 0 <= j < 11 implies r[r.len() - 11 + j] == o[j] by {}
        assert(r.subrange(r.len() - 11, r.len() as int) =~= o);
    }
}

/// A zero octet found from `pos` lies between `pos` and the end.
pub proof fn lemma_first_zero_bounds(q: Seq<u8>, pos: int)
    requires
        0 <= pos,
    ensures
        first_zero(q, pos) matches Some(z) ==> pos <= z < q.len(),
    decreases q.len() - pos,
{
    if pos < q.len() && q[pos] != 0 {
        lemma_first_zero_bounds(q, pos + 1);
    }
}

/// The query type the resolver dispatches on: the QTYPE of the question,
/// or type A when it cannot be read.
pub open spec fn spec_qtype_of(q: Seq<u8>) -> u16 {
    match crate::utils::spec_extract_query_type(q) {
        Some(t) => t,
        None => 1,
    }
}

/// What the resolver decided: a finished response, or the instruction to
/// forward the raw query upstream and relay the first answer.
pub enum Resolution {
    /// A complete response packet to send back.
    Answer(Vec<u8>),
    /// No local answer exists; hand the query to the forwarders.
    Forward,
}

/// Whether a query may be handed to the response builders: its header is
/// complete and its question section, when its name terminator exists, is
/// complete too.
pub fn question_ok_check(query: &[u8]) -> (r: bool)
    ensures
        r == question_ok(query@),
{
    if query.len() < 12 {
        return false;
    }
    match find_zero(query) {
        None => true,
        Some(z) => z <= query.len() - 5,
    }
}

/// Copy a forwarded response, clearing its AA bit: an upstream answer is
/// relayed verbatim except that this server claims no authority for it.
#[verifier::loop_isolation(false)]
pub fn clear_aa_bit(resp: &[u8]) -> (r: Vec<u8>)
    ensures
        resp@.len() >= 3 ==> r@ == resp@.update(2, resp@[2] & 0xFB),
        resp@.len() < 3 ==> r@ == resp@,
{
    let n = resp.len();
    let mut out: Vec<u8> = Vec::new();
    let mut i: usize = 0;
    while i < n
        invariant
            i <= n,
            out@.len() == i,
            forall|j: int|
                0 <= j < i ==> out@[j] == (if j == 2 && n >= 3 {
                    resp@[2] & 0xFB
                } else {
                    resp@[j]
                }),
        decreases n - i,
    {
        if i == 2 {
            out.push(resp[2] & 0xFB);
        } else {
            out.push(resp[i]);
        }
        i += 1;
    }
    proof {
        if n >= 3 {
            assert(out@ =~= resp@.update(2, resp@[2] & 0xFB));
        } else {
            assert(out@ =~= resp@);
        }
    }
    out
}

/// Full byte form of a positive A answer for address text `ip` and TTL
/// `ttl`, as [`build_dns_response`] emits it.
pub open spec fn spec_a_response(q: Seq<u8>, config: ServerConfig, ip: Seq<char>, ttl: u64) -> Seq<
    u8,
> {
    spec_header(
        q,
        spec_flags1(q, config.authoritative),
        0x80,
        1,
        spec_authority_count(config, config.authoritative),
        spec_ar_count(q),
    ) + spec_question(q) + spec_rr(1, spec_ttl32(ttl), ipv4_octets_from(encode_utf8(ip), 0)) + (
    if config.authoritative {
        spec_ns_authority(config.ns_records@, spec_ttl32(ttl))
    } else {
        seq![]
    }) + spec_opt_tail(q)
}

/// Full byte form of a positive SOA answer for the stored SOA text.
pub open spec fn spec_soa_response(q: Seq<u8>, config: ServerConfig, soa: Seq<char>, ttl: u64) -> Seq<
    u8,
> {
    spec_header(
        q,
        spec_flags1(q, config.authoritative),
        0x80,
        1,
        spec_authority_count(config, config.authoritative),
        spec_ar_count(q),
    ) + spec_question(q) + spec_rr(6, spec_ttl32(ttl), spec_soa_rdata(encode_utf8(soa))) + (
    if config.authoritative {
        spec_ns_authority(config.ns_records@, spec_ttl32(ttl))
    } else {
        seq![]
    }) + spec_opt_tail(q)
}

/// Full byte form of a positive MX, TXT, CNAME or PTR answer.
pub open spec fn spec_generic_response(
    q: Seq<u8>,
    config: ServerConfig,
    value: Seq<char>,
    ttl: u64,
    qt: u16,
) -> Seq<u8> {
    spec_header(
        q,
        spec_flags1(q, config.authoritative),
        0x80,
        1,
        spec_authority_count(config, config.authoritative),
        spec_ar_count(q),
    ) + spec_question(q) + spec_rr(
        qt,
        spec_ttl32(ttl),
        if qt == 15 {
            spec_mx_rdata(encode_utf8(value))
        } else if qt == 16 {
            spec_txt_rdata(encode_utf8(value))
        } else {
            spec_encode_name(encode_utf8(value))
        },
    ) + (if config.authoritative {
        spec_ns_authority(config.ns_records@, spec_ttl32(ttl))
    } else {
        seq![]
    }) + spec_opt_tail(q)
}

/// Full byte form of an NS answer holding every stored NS row.
pub open spec fn spec_ns_store_response(
    q: Seq<u8>,
    config: ServerConfig,
    records: Seq<(String, u64, String)>,
) -> Seq<u8> {
    spec_header(
        q,
        spec_flags1(q, config.authoritative),
        0x80,
        (spec_ns_rr_count(records) % 0x10000) as u16,
        0,
        spec_ar_count(q),
    ) + spec_question(q) + spec_ns_rrs(records) + spec_opt_tail(q)
}

/// Full byte form of a DNSKEY answer from the configured record text.
pub open spec fn spec_dnskey_response(q: Seq<u8>, config: ServerConfig, rec: Seq<char>) -> Seq<u8> {
    spec_header(q, spec_flags1(q, config.authoritative), 0x80, 1, 0, spec_ar_count(q))
        + spec_question(q) + spec_rr(
        48,
        spec_ttl32(3600),
        spec_dnskey_rdata(encode_utf8(rec))->Some_0,
    ) + spec_opt_tail(q)
}

/// Full byte form of a DS answer from the configured record text.
pub open spec fn spec_ds_response(q: Seq<u8>, config: ServerConfig, rec: Seq<char>) -> Seq<u8> {
    spec_header(q, spec_flags1(q, config.authoritative), 0x80, 1, 0, spec_ar_count(q))
        + spec_question(q) + spec_rr(43, spec_ttl32(3600), spec_ds_rdata(encode_utf8(rec))->Some_0)
        + spec_opt_tail(q)
}

/// The stored record type the resolver asks for, by query type; the empty
/// text for query types the store does not serve.
pub open spec fn spec_requested_type(qt: u16) -> Seq<char> {
    if qt == 1 {
        "A"@
    } else if qt == 2 {
        "NS"@
    } else if qt == 5 {
        "CNAME"@
    } else if qt == 6 {
        "SOA"@
    } else if qt == 12 {
        "PTR"@
    } else if qt == 15 {
        "MX"@
    } else if qt == 16 {
        "TXT"@
    } else if qt == 28 {
        "AAAA"@
    } else {
        ""@
    }
}

fn requested_type_of(query_type: u16) -> (r: &'static str)
    ensures
        r@ == spec_requested_type(query_type),
{
    if query_type == 1 {
        "A"
    } else if query_type == 2 {
        "NS"
    } else if query_type == 5 {
        "CNAME"
    } else if query_type == 6 {
        "SOA"
    } else if query_type == 12 {
        "PTR"
    } else if query_type == 15 {
        "MX"
    } else if query_type == 16 {
        "TXT"
    } else if query_type == 28 {
        "AAAA"
    } else {
        ""
    }
}

/// Index of the first record of the given type, searching from `k` on.
pub open spec fn spec_first_of_type(
    records: Seq<(String, u64, String)>,
    rt: Seq<char>,
    k: int,
) -> Option<int>
    decreases records.len() - k,
{
    if k < 0 || k >= records.len() {
        None
    } else if records[k].2@ == rt {
        Some(k)
    } else {
        spec_first_of_type(records, rt, k + 1)
    }
}

/// Answer a query from the records the store returned for the domain.
///
/// The dispatch follows the resolver's state machine exactly: the first
/// record whose type matches the query type chooses the builder — SOA, NS
/// (all NS rows), MX/TXT/CNAME/PTR, or the cache-installing A path for
/// address queries; failing an exact match, an address query falls back to
/// the first stored A record, which is likewise installed in the cache and
/// answered from. `None` means no stored record applies and the caller
/// proceeds to NXDOMAIN or forwarding.
#[verifier::loop_isolation(false)]
#[verifier::rlimit(100)]
pub fn resolve_stored_records(
    query: &[u8],
    domain: &str,
    query_type: u16,
    records: &[(String, u64, String)],
    cache: &mut DnsCache,
    config: &ServerConfig,
    now: u64,
) -> (r: Option<Result<Vec<u8>, DnsError>>)
    requires
        query@.len() <= MAX_MSG_LEN,
        question_ok(query@),
        old(cache).wf(),
    ensures
        final(cache).wf(),
        final(cache).ns_records == old(cache).ns_records,
        r matches Some(Ok(resp)) ==> resolver_response_ok(query@, resp@, config.authoritative),
        ({
            let rt = spec_requested_type(query_type);
            let m = spec_first_of_type(records@, rt, 0);
            let fa = spec_first_of_type(records@, "A"@, 0);
            &&& (r is None <==> (m is None && !((query_type == 1 || query_type == 28)
                && fa is Some)))
            &&& (r is None ==> *final(cache) == *old(cache))
            &&& (m matches Some(i) ==> ({
                let value = records@[i].0@;
                let ttl = records@[i].1;
                &&& r is Some
                &&& (query_type == 6 ==> *final(cache) == *old(cache) && (r matches Some(rr)
                    ==> ((rr is Ok) <==> (first_zero(query@, 12) is Some && spec_split_ws(
                    encode_utf8(value),
                ).len() >= 7)) && (rr matches Ok(resp) ==> resp@ == spec_soa_response(
                    query@,
                    *config,
                    value,
                    ttl,
                ))))
                &&& (query_type == 2 ==> *final(cache) == *old(cache) && (r matches Some(rr)
                    ==> ((rr is Ok) <==> first_zero(query@, 12) is Some) && (rr matches Ok(resp)
                    ==> resp@ == spec_ns_store_response(query@, *config, records@))))
                &&& ((query_type == 5 || query_type == 12 || query_type == 15 || query_type == 16)
                    ==> *final(cache) == *old(cache) && (r matches Some(rr) ==> ((rr is Ok) <==> (
                first_zero(query@, 12) is Some && (query_type == 15 ==> spec_split_ws(
                    encode_utf8(value),
                ).len() >= 2))) && (rr matches Ok(resp) ==> resp@ == spec_generic_response(
                    query@,
                    *config,
                    value,
                    ttl,
                    query_type,
                ))))
                &&& ((query_type == 1 || query_type == 28) ==> crate::cache::cache_updated(
                    *old(cache),
                    *final(cache),
                    domain@,
                    value,
                    now,
                    ttl,
                ) && (r matches Some(rr) ==> ((rr is Ok) <==> (first_zero(query@, 12) is Some
                    && ipv4_octets_from(encode_utf8(value), 0).len() == 4)) && (rr matches Ok(resp)
                    ==> resp@ == spec_a_response(query@, *config, value, ttl))))
                &&& (!(query_type == 1 || query_type == 2 || query_type == 5 || query_type == 6
                    || query_type == 12 || query_type == 15 || query_type == 16 || query_type
                    == 28) ==> *final(cache) == *old(cache) && (r matches Some(rr) ==> rr matches
                    Err(e) && e is Protocol))
            }))
            &&& (m is None && (query_type == 1 || query_type == 28) ==> (fa matches Some(j) ==> ({
                let value = records@[j].0@;
                let ttl = records@[j].1;
                &&& r is Some
                &&& crate::cache::cache_updated(
                    *old(cache),
                    *final(cache),
                    domain@,
                    value,
                    now,
                    ttl,
                )
                &&& (r matches Some(rr) ==> ((rr is Ok) <==> (first_zero(query@, 12) is Some
                    && ipv4_octets_from(encode_utf8(value), 0).len() == 4)) && (rr matches Ok(resp)
                    ==> resp@ == spec_a_response(query@, *config, value, ttl)))
            })))
        }),
{
    let ghost q = query@;
    let ghost auth = config.authoritative;
    let requested_type = requested_type_of(query_type);
    let ghost rt = spec_requested_type(query_type);
    let nrec = records.len();
    // first record of the requested type
    let mut hit: usize = nrec;
    let mut i: usize = 0;
    while i < nrec
        invariant
            i <= nrec,
            hit <= nrec,
            hit == nrec ==> spec_first_of_type(records@, rt, 0) == spec_first_of_type(
                records@,
                rt,
                i as int,
            ),
            hit < nrec ==> spec_first_of_type(records@, rt, 0) == Some(hit as int) && i == nrec,
        decreases nrec - i,
    {
        if crate::utils::str_eq(records[i].2.as_str(), requested_type) {
            proof {
                assert(spec_first_of_type(records@, rt, i as int) == Some(i as int));
            }
            hit = i;
            i = nrec;
        } else {
            proof {
                assert(spec_first_of_type(records@, rt, i as int) == spec_first_of_type(
                    records@,
                    rt,
                    i + 1,
                ));
            }
            i += 1;
        }
    }
    proof {
        if hit == nrec {
            assert(spec_first_of_type(records@, rt, 0) == spec_first_of_type(
                records@,
                rt,
                nrec as int,
            ));
        }
    }
    if hit < nrec {
        let value = records[hit].0.clone();
        let ttl = records[hit].1;
        let ghost gval = records@[hit as int].0@;
        proof {
            assert(value@ == gval);
        }
        if query_type == 6 {
            match build_soa_response(query, value.as_str(), ttl, String::from_str(domain), config) {
                Ok(resp) => {
                    proof {
                        let mid = spec_rr(6, spec_ttl32(ttl), spec_soa_rdata(encode_utf8(gval)))
                            + (if auth {
                            spec_ns_authority(config.ns_records@, spec_ttl32(ttl))
                        } else {
                            seq![]
                        });
                        assert(resp@ =~= spec_header(
                            q,
                            spec_flags1(q, auth),
                            0x80,
                            1,
                            spec_authority_count(*config, auth),
                            spec_ar_count(q),
                        ) + spec_question(q) + mid + spec_opt_tail(q));
                        lemma_resolver_shape(
                            q,
                            resp@,
                            auth,
                            auth,
                            0x80,
                            1,
                            spec_authority_count(*config, auth),
                            mid,
                        );
                        assert(resp@ =~= spec_soa_response(q, *config, gval, ttl));
                    }
                    Some(Ok(resp))
                },
                Err(e) => Some(Err(e)),
            }
        } else if query_type == 2 {
            match build_ns_response(query, records, ttl, String::from_str(domain), config) {
                Ok(resp) => {
                    proof {
                        let mid = spec_ns_rrs(records@);
                        assert(resp@ =~= spec_header(
                            q,
                            spec_flags1(q, auth),
                            0x80,
                            (spec_ns_rr_count(records@) % 0x10000) as u16,
                            0,
                            spec_ar_count(q),
                        ) + spec_question(q) + mid + spec_opt_tail(q));
                        lemma_resolver_shape(
                            q,
                            resp@,
                            auth,
                            auth,
                            0x80,
                            (spec_ns_rr_count(records@) % 0x10000) as u16,
                            0,
                            mid,
                        );
                        assert(resp@ =~= spec_ns_store_response(q, *config, records@));
                    }
                    Some(Ok(resp))
                },
                Err(e) => Some(Err(e)),
            }
        } else if query_type == 15 || query_type == 16 || query_type == 5 || query_type == 12 {
            match build_generic_record_response(
                query,
                value.as_str(),
                ttl,
                String::from_str(domain),
                query_type,
                config,
            ) {
                Ok(resp) => {
                    proof {
                        let mid = spec_rr(
                            query_type,
                            spec_ttl32(ttl),
                            if query_type == 15 {
                                spec_mx_rdata(encode_utf8(gval))
                            } else if query_type == 16 {
                                spec_txt_rdata(encode_utf8(gval))
                            } else {
                                spec_encode_name(encode_utf8(gval))
                            },
                        ) + (if auth {
                            spec_ns_authority(config.ns_records@, spec_ttl32(ttl))
                        } else {
                            seq![]
                        });
                        assert(resp@ =~= spec_header(
                            q,
                            spec_flags1(q, auth),
                            0x80,
                            1,
                            spec_authority_count(*config, auth),
                            spec_ar_count(q),
                        ) + spec_question(q) + mid + spec_opt_tail(q));
                        lemma_resolver_shape(
                            q,
                            resp@,
                            auth,
                            auth,
                            0x80,
                            1,
                            spec_authority_count(*config, auth),
                            mid,
                        );
                        assert(resp@ =~= spec_generic_response(q, *config, gval, ttl, query_type));
                    }
                    Some(Ok(resp))
                },
                Err(e) => Some(Err(e)),
            }
        } else if query_type == 1 || query_type == 28 {
            cache.set(String::from_str(domain), value.clone(), ttl, now);
            Some(answer_a_bytes(query, value.as_str(), ttl, config))
        } else {
            Some(Err(DnsError::Protocol(String::from_str("unsupported record type"))))
        }
    } else if query_type == 1 || query_type == 28 {
        // fall back to the first stored A record
        let ghost rta: Seq<char> = "A"@;
        let mut fhit: usize = nrec;
        let mut j: usize = 0;
        while j < nrec
            invariant
                j <= nrec,
                fhit <= nrec,
                fhit == nrec ==> spec_first_of_type(records@, rta, 0) == spec_first_of_type(
                    records@,
                    rta,
                    j as int,
                ),
                fhit < nrec ==> spec_first_of_type(records@, rta, 0) == Some(fhit as int) && j
                    == nrec,
                *cache == *old(cache),
            decreases nrec - j,
        {
            if crate::utils::str_eq(records[j].2.as_str(), "A") {
                proof {
                    assert(spec_first_of_type(records@, rta, j as int) == Some(j as int));
                }
                fhit = j;
                j = nrec;
            } else {
                proof {
                    assert(spec_first_of_type(records@, rta, j as int) == spec_first_of_type(
                        records@,
                        rta,
                        j + 1,
                    ));
                }
                j += 1;
            }
        }
        proof {
            if fhit == nrec {
                assert(spec_first_of_type(records@, rta, 0) == spec_first_of_type(
                    records@,
                    rta,
                    nrec as int,
                ));
            }
        }
        if fhit < nrec {
            let ip = records[fhit].0.clone();
            let ttl = records[fhit].1;
            cache.set(String::from_str(domain), ip.clone(), ttl, now);
            Some(answer_a_bytes(query, ip.as_str(), ttl, config))
        } else {
            None
        }
    } else {
        None
    }
}

/// Build a positive A answer as raw bytes, discharging the umbrella
/// contract and pinning the byte form and success condition.
fn answer_a_bytes(query: &[u8], ip: &str, ttl: u64, config: &ServerConfig) -> (res: Result<
    Vec<u8>,
    DnsError,
>)
    requires
        query@.len() <= MAX_MSG_LEN,
        question_ok(query@),
    ensures
        res matches Ok(resp) ==> resolver_response_ok(query@, resp@, config.authoritative),
        res matches Ok(resp) ==> resp@ == spec_a_response(query@, *config, ip@, ttl),
        res is Ok <==> (first_zero(query@, 12) is Some && ipv4_octets_from(encode_utf8(ip@), 0).len()
            == 4),
        res matches Err(e) ==> e is Protocol,
{
    let ghost q = query@;
    let ghost auth = config.authoritative;
    match build_dns_response(query, ip, ttl, config) {
        Ok(resp) => {
            proof {
                let mid = spec_rr(1, spec_ttl32(ttl), ipv4_octets_from(ip.spec_bytes(), 0)) + (
                if auth {
                    spec_ns_authority(config.ns_records@, spec_ttl32(ttl))
                } else {
                    seq![]
                });
                assert(resp@ =~= spec_header(
                    q,
                    spec_flags1(q, auth),
                    0x80,
                    1,
                    spec_authority_count(*config, auth),
                    spec_ar_count(q),
                ) + spec_question(q) + mid + spec_opt_tail(q));
                lemma_resolver_shape(
                    q,
                    resp@,
                    auth,
                    auth,
                    0x80,
                    1,
                    spec_authority_count(*config, auth),
                    mid,
                );
                assert(resp@ =~= spec_a_response(q, *config, ip@, ttl));
            }
            Ok(resp)
        },
        Err(e) => Err(e),
    }
}

/// Resolve a query against the cache, the record store, the zone set and
/// the configured DNSSEC material, in that order; when none answers and
/// the server is not authoritative for a covering zone, instruct the
/// caller to forward.
///
/// Every locally built answer meets the umbrella contract
/// [`resolver_response_ok`], and the cache keeps its invariant and its NS
/// list. On the paths no outside call decides, the outcome is pinned: a
/// DNSKEY or DS query with configured material yields exactly that
/// material's answer, a live cache entry yields exactly the cached A
/// answer, and each succeeds precisely when the question is complete and
/// the record text decodes. The dispatch over the store's records is
/// specified and verified in [`resolve_stored_records`], which takes
/// those records as an argument.
#[verifier::rlimit(100)]
#[verifier::loop_isolation(false)]
pub fn generate_dns_response(
    query: &[u8],
    domain: String,
    cache: &mut DnsCache,
    config: &ServerConfig,
    now: u64,
) -> (r: Result<Resolution, DnsError>)
    requires
        query@.len() <= MAX_MSG_LEN,
        question_ok(query@),
        old(cache).wf(),
    ensures
        final(cache).wf(),
        final(cache).ns_records == old(cache).ns_records,
        r matches Ok(Resolution::Answer(resp)) ==> resolver_response_ok(
            query@,
            resp@,
            config.authoritative,
        ),
        r matches Ok(Resolution::Forward) ==> *final(cache) == *old(cache),
        spec_qtype_of(query@) == 48 && config.dnskey_records@.len() > 0 ==> !(r matches Ok(
            Resolution::Forward,
        )),
        spec_qtype_of(query@) == 43 && config.ds_records@.len() > 0 ==> !(r matches Ok(
            Resolution::Forward,
        )),
        (spec_qtype_of(query@) == 1 || spec_qtype_of(query@) == 28) && old(cache).has_live_entry(
            domain@,
            now,
        ) ==> !(r matches Ok(Resolution::Forward)),
        spec_qtype_of(query@) == 48 && config.dnskey_records@.len() > 0 ==> ({
            let rec = config.dnskey_records@[0]@;
            let good = first_zero(query@, 12) is Some && spec_dnskey_rdata(encode_utf8(rec))
                is Some;
            &&& *final(cache) == *old(cache)
            &&& ((r matches Ok(Resolution::Answer(resp)) && resp@ == spec_dnskey_response(
                query@,
                *config,
                rec,
            )) <==> good)
            &&& (r is Err <==> !good)
        }),
        spec_qtype_of(query@) == 43 && config.ds_records@.len() > 0 ==> ({
            let rec = config.ds_records@[0]@;
            let good = first_zero(query@, 12) is Some && spec_ds_rdata(encode_utf8(rec)) is Some;
            &&& *final(cache) == *old(cache)
            &&& ((r matches Ok(Resolution::Answer(resp)) && resp@ == spec_ds_response(
                query@,
                *config,
                rec,
            )) <==> good)
            &&& (r is Err <==> !good)
        }),
        (spec_qtype_of(query@) == 1 || spec_qtype_of(query@) == 28) && old(cache).has_live_entry(
            domain@,
            now,
        ) ==> ({
            let (ip, ttl) = old(cache).live_data(domain@, now);
            let good = first_zero(query@, 12) is Some && ipv4_octets_from(encode_utf8(ip), 0).len()
                == 4;
            &&& *final(cache) == *old(cache)
            &&& ((r matches Ok(Resolution::Answer(resp)) && resp@ == spec_a_response(
                query@,
                *config,
                ip,
                ttl,
            )) <==> good)
            &&& (r is Err <==> !good)
        }),
{
    let ghost q = query@;
    let ghost auth = config.authoritative;
    let query_type: u16 = match crate::utils::extract_query_type(query) {
        Some(t) => t,
        None => 1,
    };
    // preconfigured DNSKEY material answers type 48 directly
    if query_type == 48 {
        if config.dnskey_records.len() > 0 {
            let rec = config.dnskey_records[0].as_str();
            proof {
                assert(rec@ == config.dnskey_records@[0]@);
            }
            match build_dnskey_response(query, rec, 3600, config) {
                Ok(resp) => {
                    proof {
                        let mid = spec_rr(
                            48,
                            spec_ttl32(3600),
                            spec_dnskey_rdata(rec.spec_bytes())->Some_0,
                        );
                        assert(resp@ =~= spec_header(
                            q,
                            spec_flags1(q, auth),
                            0x80,
                            1,
                            0,
                            spec_ar_count(q),
                        ) + spec_question(q) + mid + spec_opt_tail(q));
                        lemma_resolver_shape(q, resp@, auth, auth, 0x80, 1, 0, mid);
                        assert(resp@ =~= spec_dnskey_response(q, *config, rec@));
                    }
                    return Ok(Resolution::Answer(resp));
                },
                Err(e) => {
                    return Err(e);
                },
            }
        }
        return nxdomain_or_error(query, domain.as_str(), config);
    }
    // preconfigured DS material answers type 43 directly
    if query_type == 43 {
        if config.ds_records.len() > 0 {
            let rec = config.ds_records[0].as_str();
            proof {
                assert(rec@ == config.ds_records@[0]@);
            }
            match build_ds_response(query, rec, 3600, config) {
                Ok(resp) => {
                    proof {
                        let mid = spec_rr(
                            43,
                            spec_ttl32(3600),
                            spec_ds_rdata(rec.spec_bytes())->Some_0,
                        );
                        assert(resp@ =~= spec_header(
                            q,
                            spec_flags1(q, auth),
                            0x80,
                            1,
                            0,
                            spec_ar_count(q),
                        ) + spec_question(q) + mid + spec_opt_tail(q));
                        lemma_resolver_shape(q, resp@, auth, auth, 0x80, 1, 0, mid);
                        assert(resp@ =~= spec_ds_response(q, *config, rec@));
                    }
                    return Ok(Resolution::Answer(resp));
                },
                Err(e) => {
                    return Err(e);
                },
            }
        }
        return nxdomain_or_error(query, domain.as_str(), config);
    }
    // the cache answers address queries
    if query_type == 1 || query_type == 28 {
        if let Some((ip, ttl)) = cache.get(domain.as_str(), now) {
            proof {
                let cv = *old(cache);
                let i = choose|i: int|
                    0 <= i < cv.entries_view().len() && {
                        let e = #[trigger] cv.entries_view()[i];
                        e.domain@ == domain@ && entry_live(e, now) && e.ip@ == ip@ && e.ttl == ttl
                    };
                crate::cache::lemma_live_data(cv, domain@, now, i);
                assert(cv.live_data(domain@, now) == (ip@, ttl));
            }
            return answer_a(query, ip.as_str(), ttl, config);
        }
        proof {
            // a live entry cannot have been missed
            if old(cache).has_live_entry(domain@, now) {
                let w = choose|i: int|
                    0 <= i < old(cache).entries_view().len()
                        && #[trigger] old(cache).entries_view()[i].domain@ == domain@ && entry_live(
                        old(cache).entries_view()[i],
                        now,
                    );
                assert(false);
            }
        }
    }
    // the record store
    let records = lookup_records(config.db_path.as_str(), domain.as_str());
    match resolve_stored_records(
        query,
        domain.as_str(),
        query_type,
        records.as_slice(),
        cache,
        config,
        now,
    ) {
        Some(Ok(resp)) => {
            return Ok(Resolution::Answer(resp));
        },
        Some(Err(e)) => {
            return Err(e);
        },
        None => {},
    }
    // authoritative NXDOMAIN when a configured zone covers the name
    let zones = get_authoritative_zones(config.db_path.as_str(), config);
    let zone = find_closest_parent_zone(domain.as_str(), zones.as_slice());
    if config.authoritative && zone.is_some() {
        return nxdomain_with_zone(query, config, zone);
    }
    // nothing local answers: forward upstream
    Ok(Resolution::Forward)
}

/// Build a positive A answer and discharge the umbrella contract.
fn answer_a(query: &[u8], ip: &str, ttl: u64, config: &ServerConfig) -> (res: Result<
    Resolution,
    DnsError,
>)
    requires
        query@.len() <= MAX_MSG_LEN,
        question_ok(query@),
    ensures
        res matches Ok(Resolution::Answer(resp)) ==> resolver_response_ok(
            query@,
            resp@,
            config.authoritative,
        ),
        (res matches Ok(Resolution::Answer(resp)) && resp@ == spec_a_response(
            query@,
            *config,
            ip@,
            ttl,
        )) <==> (first_zero(query@, 12) is Some && ipv4_octets_from(encode_utf8(ip@), 0).len()
            == 4),
        res is Err <==> !(first_zero(query@, 12) is Some && ipv4_octets_from(
            encode_utf8(ip@),
            0,
        ).len() == 4),
        !(res matches Ok(Resolution::Forward)),
{
    match answer_a_bytes(query, ip, ttl, config) {
        Ok(resp) => Ok(Resolution::Answer(resp)),
        Err(e) => Err(e),
    }
}

/// Emit an authoritative NXDOMAIN for a covering zone, or the protocol
/// error the original query path reports when even that cannot be built.
fn nxdomain_with_zone(query: &[u8], config: &ServerConfig, zone: Option<&ZoneInfo>) -> (res:
    Result<Resolution, DnsError>)
    requires
        query@.len() <= MAX_MSG_LEN,
        question_ok(query@),
    ensures
        res matches Ok(Resolution::Answer(resp)) ==> resolver_response_ok(
            query@,
            resp@,
            config.authoritative,
        ),
        !(res matches Ok(Resolution::Forward)),
{
    match build_nxdomain_response(query, config.authoritative, zone) {
        Some(resp) => {
            proof {
                lemma_resolver_shape(
                    query@,
                    resp@,
                    config.authoritative && zone is Some,
                    config.authoritative,
                    0x83,
                    0,
                    spec_nx_ns_count(match zone {
                        Some(z) => Some(*z),
                        None => None,
                    }),
                    match zone {
                        Some(z) => spec_zone_authority(*z),
                        None => seq![],
                    },
                );
            }
            Ok(Resolution::Answer(resp))
        },
        None => Err(DnsError::Protocol(String::from_str("NXDOMAIN"))),
    }
}

/// Resolve a DNSSEC query that has no configured material: NXDOMAIN with
/// the zone covering the queried domain, if any.
fn nxdomain_or_error(query: &[u8], domain: &str, config: &ServerConfig) -> (res: Result<
    Resolution,
    DnsError,
>)
    requires
        query@.len() <= MAX_MSG_LEN,
        question_ok(query@),
    ensures
        res matches Ok(Resolution::Answer(resp)) ==> resolver_response_ok(
            query@,
            resp@,
            config.authoritative,
        ),
        !(res matches Ok(Resolution::Forward)),
{
    let zones = get_authoritative_zones(config.db_path.as_str(), config);
    let zone = find_closest_parent_zone(domain, zones.as_slice());
    nxdomain_with_zone(query, config, zone)
}

} // verus!
