//! Inbound packet parsing and name encoding.
//!
//! The DNS header is 12 bytes; the question that follows holds a QNAME of
//! length-prefixed labels ended by a zero octet, then QTYPE and QCLASS.
//! Everything the server reads from an inbound query is extracted here:
//! the queried name, the query type, and the OPT pseudo-record carrying the
//! EDNS payload size and the DO bit. Each parser mirrors a specification
//! function over the packet bytes and is verified free of out-of-bounds
//! access for arbitrary input, truncated packets included.

use vstd::prelude::*;
use vstd::string::*;
use vstd::utf8::*;

use crate::errors::DnsError;
use crate::wire::{be16, DOT};

verus! {

broadcast use vstd::utf8::is_ascii_chars_encode_utf8, vstd::utf8::encode_utf8_valid_utf8;

/// Position just past the zero octet that ends the name starting at `pos`,
/// walking length-prefixed labels without reading their contents, or `None`
/// when the walk leaves the packet.
pub open spec fn name_end(q: Seq<u8>, pos: int) -> Option<int>
    decreases q.len() - pos,
{
    if pos < 0 || pos >= q.len() {
        None
    } else if q[pos] == 0 {
        Some(pos + 1)
    } else if pos + q[pos] + 1 >= q.len() {
        None
    } else {
        name_end(q, pos + q[pos] + 1)
    }
}

/// The name starting at `pos` as dot-joined label bytes, together with the
/// position of its terminating zero octet. Each label must lie inside the
/// packet and hold valid UTF-8, else `None`.
pub open spec fn parse_name(q: Seq<u8>, pos: int) -> Option<(Seq<u8>, int)>
    decreases q.len() - pos,
{
    if pos < 0 || pos >= q.len() {
        None
    } else if q[pos] == 0 {
        Some((seq![], pos))
    } else {
        let l = q[pos] as int;
        if pos + 1 + l > q.len() {
            None
        } else if !valid_utf8(q.subrange(pos + 1, pos + 1 + l)) {
            None
        } else {
            match parse_name(q, pos + 1 + l) {
                None => None,
                Some((rest, z)) => Some(
                    (
                        if rest.len() == 0 {
                            q.subrange(pos + 1, pos + 1 + l)
                        } else {
                            q.subrange(pos + 1, pos + 1 + l) + seq![DOT] + rest
                        },
                        z,
                    ),
                ),
            }
        }
    }
}

/// The queried name of the packet, as the UTF-8 bytes of its dot-joined
/// labels. `None` when the header is short, a label leaves the packet or is
/// not UTF-8, or the packet ends less than four octets after the name.
pub open spec fn spec_extract_domain(q: Seq<u8>) -> Option<Seq<u8>> {
    if q.len() < 12 {
        None
    } else {
        match parse_name(q, 12) {
            None => None,
            Some((d, z)) => if z + 4 <= q.len() {
                Some(d)
            } else {
                None
            },
        }
    }
}

/// The 16-bit QTYPE that follows the QNAME, when both octets are present.
pub open spec fn spec_extract_query_type(q: Seq<u8>) -> Option<u16> {
    if q.len() < 12 {
        None
    } else {
        match name_end(q, 12) {
            None => None,
            Some(p) => if p + 1 < q.len() {
                Some(be16(q[p], q[p + 1]))
            } else {
                None
            },
        }
    }
}

/// UTF-8 encoding distributes over concatenation.
pub proof fn lemma_encode_utf8_concat(a: Seq<char>, b: Seq<char>)
    ensures
        encode_utf8(a + b) == encode_utf8(a) + encode_utf8(b),
    decreases a.len(),
{
    if a.len() == 0 {
        assert(a + b =~= b);
        assert(encode_utf8(a) + encode_utf8(b) =~= encode_utf8(b));
    } else {
        assert((a + b).drop_first() =~= a.drop_first() + b);
        lemma_encode_utf8_concat(a.drop_first(), b);
        assert(encode_scalar((a + b)[0] as u32) + (encode_utf8(a.drop_first()) + encode_utf8(b))
            =~= (encode_scalar(a[0] as u32) + encode_utf8(a.drop_first())) + encode_utf8(b));
    }
}

/// A nonempty character sequence has a nonempty UTF-8 encoding.
proof fn lemma_encode_utf8_nonempty(a: Seq<char>)
    requires
        a.len() > 0,
    ensures
        encode_utf8(a).len() > 0,
{
    char_is_scalar(a[0]);
    assert(encode_scalar(a[0] as u32).len() >= 1);
}

/// Relies on `core::str::from_utf8`: it succeeds exactly on valid UTF-8
/// input, and the returned string is a view of those very bytes.
#[verifier::external_body]
fn bytes_to_str(b: &[u8]) -> (r: Option<&str>)
    ensures
        r is Some <==> valid_utf8(b@),
        r matches Some(s) ==> s.spec_bytes() == b@,
{
    core::str::from_utf8(b).ok()
}

/// Dot-join of an accumulated prefix and a remainder.
spec fn join_dom(acc: Seq<u8>, rest: Seq<u8>) -> Seq<u8> {
    if acc.len() == 0 {
        rest
    } else if rest.len() == 0 {
        acc
    } else {
        acc + seq![DOT] + rest
    }
}

/// Extract the queried name from a query packet as a dot-joined string.
#[verifier::loop_isolation(false)]
pub fn extract_domain(query: &[u8]) -> (r: Option<String>)
    ensures
        r is Some <==> spec_extract_domain(query@) is Some,
        r matches Some(d) ==> Some(encode_utf8(d@)) == spec_extract_domain(query@),
{
    if query.len() < 12 {
        return None;
    }
    let mut pos: usize = 12;
    let mut domain = String::new();
    proof {
        assert(encode_utf8(domain@) =~= Seq::<u8>::empty());
    }
    loop
        invariant
            12 <= pos <= query@.len(),
            parse_name(query@, 12) == (match parse_name(query@, pos as int) {
                None => None::<(Seq<u8>, int)>,
                Some((rest, z)) => Some((join_dom(encode_utf8(domain@), rest), z)),
            }),
        decreases query@.len() - pos,
    {
        if pos >= query.len() {
            return None;
        }
        let l = query[pos] as usize;
        if l == 0 {
            break;
        }
        pos += 1;
        if l > query.len() - pos {
            return None;
        }
        let label = &query[pos..pos + l];
        let s = match bytes_to_str(label) {
            Some(s) => s,
            None => {
                return None;
            },
        };
        let ghost pre = domain@;
        if !domain.as_str().is_empty() {
            domain.append(".");
            proof {
                reveal_strlit(".");
                assert(is_ascii_chars("."@));
                assert(encode_utf8("."@) =~= seq![DOT]);
                lemma_encode_utf8_concat(pre, "."@);
            }
        }
        let ghost mid = domain@;
        domain.append(s);
        proof {
            lemma_encode_utf8_concat(mid, s@);
            assert(encode_utf8(s@) == label@);
            if pre.len() == 0 {
                assert(encode_utf8(pre).len() == 0);
                assert(encode_utf8(mid) =~= Seq::<u8>::empty());
                assert(encode_utf8(domain@) =~= label@);
            } else {
                assert(encode_utf8(pre).len() > 0) by {
                    lemma_encode_utf8_nonempty(pre);
                }
                assert(encode_utf8(domain@) =~= encode_utf8(pre) + seq![DOT] + label@);
            }
        }
        pos += l;
        proof {
            let q = query@;
            let dn = encode_utf8(domain@);
            let dp = encode_utf8(pre);
            match parse_name(q, pos as int) {
                None => {},
                Some((rest, z)) => {
                    if rest.len() == 0 {
                        assert(join_dom(dp, label@) =~= join_dom(dn, rest));
                    } else {
                        if dp.len() == 0 {
                            assert(join_dom(dp, label@ + seq![DOT] + rest) =~= join_dom(dn, rest));
                        } else {
                            assert(dp + seq![DOT] + (label@ + seq![DOT] + rest) =~= (dp + seq![DOT]
                                + label@) + seq![DOT] + rest);
                        }
                    }
                },
            }
        }
    }
    // `pos` sits on the terminating zero octet
    if pos > query.len() - 4 {
        return None;
    }
    Some(domain)
}

/// The 4-bit OPCODE of a packet's header: 0 for a standard query. The
/// transports answer NOTIMP to any other value without resolving.
pub open spec fn spec_opcode(q: Seq<u8>) -> Option<u8> {
    if q.len() < 12 {
        None
    } else {
        Some((q[2] & 0x78) / 8)
    }
}

/// Extract the OPCODE of the request.
pub fn extract_opcode(query: &[u8]) -> (r: Option<u8>)
    ensures
        r == spec_opcode(query@),
{
    if query.len() < 12 {
        None
    } else {
        Some((query[2] & 0x78) / 8)
    }
}

/// Extract the QTYPE of the question.
#[verifier::loop_isolation(false)]
pub fn extract_query_type(query: &[u8]) -> (r: Option<u16>)
    ensures
        r == spec_extract_query_type(query@),
{
    if query.len() < 12 {
        return None;
    }
    let mut pos: usize = 12;
    loop
        invariant
            12 <= pos <= query@.len(),
            name_end(query@, 12) == name_end(query@, pos as int),
        decreases query@.len() - pos,
    {
        if pos >= query.len() {
            return None;
        }
        let l = query[pos] as usize;
        if l == 0 {
            pos += 1;
            break;
        }
        if l + 1 >= query.len() - pos {
            return None;
        }
        pos += l + 1;
    }
    if pos < query.len() - 1 {
        Some((query[pos] as u16) * 256 + (query[pos + 1] as u16))
    } else {
        None
    }
}

/// Position of the first dot, or the length when there is none.
pub open spec fn first_dot(s: Seq<u8>) -> int
    decreases s.len(),
{
    if s.len() == 0 {
        0
    } else if s[0] == DOT {
        0
    } else {
        1 + first_dot(s.drop_first())
    }
}

pub proof fn lemma_first_dot_bounds(s: Seq<u8>)
    ensures
        0 <= first_dot(s) <= s.len(),
    decreases s.len(),
{
    if s.len() > 0 && s[0] != DOT {
        lemma_first_dot_bounds(s.drop_first());
    }
}

/// When the first `k` bytes hold no dot, the first dot lies `k` bytes into
/// the remainder.
pub proof fn lemma_first_dot_skip(s: Seq<u8>, k: int)
    requires
        0 <= k <= s.len(),
        forall|j: int| 0 <= j < k ==> s[j] != DOT,
    ensures
        first_dot(s) == k + first_dot(s.subrange(k, s.len() as int)),
    decreases k,
{
    if k == 0 {
        assert(s.subrange(0, s.len() as int) =~= s);
    } else {
        lemma_first_dot_skip(s.drop_first(), k - 1);
        assert(s.drop_first().subrange(k - 1, s.len() - 1) =~= s.subrange(k, s.len() as int));
    }
}

/// Wire encoding of the dot-separated labels of `s`: each label is emitted
/// as a length octet and its bytes; a label longer than 63 bytes is dropped
/// silently. The terminating zero octet is appended by `spec_encode_name`.
pub open spec fn spec_encode_labels(s: Seq<u8>) -> Seq<u8>
    decreases s.len(),
    when true
    via spec_encode_labels_decreases
{
    let i = first_dot(s);
    let lab = s.subrange(0, i);
    let enc = if lab.len() > 63 {
        seq![]
    } else {
        seq![lab.len() as u8] + lab
    };
    if i >= s.len() {
        enc
    } else {
        enc + spec_encode_labels(s.subrange(i + 1, s.len() as int))
    }
}

#[via_fn]
proof fn spec_encode_labels_decreases(s: Seq<u8>) {
    lemma_first_dot_bounds(s);
}

/// One trailing dot is removed before a name is encoded.
pub open spec fn strip_one_trailing_dot(b: Seq<u8>) -> Seq<u8> {
    if b.len() > 0 && b[b.len() - 1] == DOT {
        b.drop_last()
    } else {
        b
    }
}

/// Wire encoding of a textual domain name, given as its UTF-8 bytes.
pub open spec fn spec_encode_name(b: Seq<u8>) -> Seq<u8> {
    spec_encode_labels(strip_one_trailing_dot(b)) + seq![0u8]
}

/// Encode a domain name in DNS wire format: strip one trailing dot, split
/// on dots, emit each label of at most 63 bytes as a length octet followed
/// by its bytes, drop longer labels, and terminate with a zero octet.
pub fn encode_dns_name(name: &str) -> (r: Vec<u8>)
    ensures
        r@ == spec_encode_name(name.spec_bytes()),
{
    encode_name_bytes(name.as_bytes())
}

/// Encode a domain name, given as its UTF-8 bytes, in DNS wire format.
#[verifier::loop_isolation(false)]
#[verifier::rlimit(60)]
pub fn encode_name_bytes(bytes: &[u8]) -> (r: Vec<u8>)
    ensures
        r@ == spec_encode_name(bytes@),
{
    let n: usize = if bytes.len() > 0 && bytes[bytes.len() - 1] == DOT {
        bytes.len() - 1
    } else {
        bytes.len()
    };
    let ghost stripped = strip_one_trailing_dot(bytes@);
    proof {
        assert(stripped =~= bytes@.subrange(0, n as int));
    }
    let mut out: Vec<u8> = Vec::new();
    let mut start: usize = 0;
    proof {
        assert(stripped.subrange(0, n as int) =~= stripped);
        assert(out@ + spec_encode_labels(stripped) =~= spec_encode_labels(stripped));
    }
    loop
        invariant
            0 <= start <= n,
            spec_encode_labels(stripped) == out@ + spec_encode_labels(
                stripped.subrange(start as int, n as int),
            ),
        decreases n - start,
    {
        let ghost rem = stripped.subrange(start as int, n as int);
        let mut i = start;
        while i < n && bytes[i] != DOT
            invariant
                start <= i <= n,
                forall|j: int| start <= j < i ==> bytes@[j] != DOT,
            decreases n - i,
        {
            i += 1;
        }
        proof {
            lemma_first_dot_skip(rem, i - start);
            lemma_first_dot_bounds(rem.subrange(i - start, rem.len() as int));
            if i < n {
                assert(rem[i - start] == DOT);
            }
            assert(first_dot(rem) == i - start);
            assert(rem.subrange(0, i - start) =~= stripped.subrange(start as int, i as int));
        }
        let ghost enc = if i - start > 63 {
            Seq::<u8>::empty()
        } else {
            seq![(i - start) as u8] + stripped.subrange(start as int, i as int)
        };
        if i - start <= 63 {
            out.push((i - start) as u8);
            let ghost mid = out@;
            let mut j = start;
            while j < i
                invariant
                    start <= j <= i,
                    out@ == mid + stripped.subrange(start as int, j as int),
                decreases i - j,
            {
                out.push(bytes[j]);
                assert(out@ =~= mid + stripped.subrange(start as int, j + 1));
                j += 1;
            }
            assert(out@ =~= mid + stripped.subrange(start as int, i as int));
        }
        if i >= n {
            proof {
                assert(spec_encode_labels(rem) == enc);
            }
            break;
        }
        proof {
            assert(rem.subrange(i - start + 1, rem.len() as int) =~= stripped.subrange(
                i + 1,
                n as int,
            ));
            assert(spec_encode_labels(rem) == enc + spec_encode_labels(
                stripped.subrange(i + 1, n as int),
            ));
        }
        start = i + 1;
    }
    out.push(0);
    proof {
        assert(out@ =~= spec_encode_labels(stripped) + seq![0u8]);
    }
    out
}

/// Largest DNS message the parsers below accept. The TCP transport frames a
/// message with a 16-bit length prefix and a UDP answer advertises a 16-bit
/// payload size, so no DNS message exceeds 65535 bytes.
pub const MAX_MSG_LEN: usize = 0xFFFF;

/// RDLENGTH field of the resource record whose fixed part starts at `pos`.
pub open spec fn rr_rdlen(q: Seq<u8>, pos: int) -> int
    recommends
        0 <= pos,
        pos + 10 <= q.len(),
{
    q[pos + 8] * 256 + q[pos + 9]
}

/// Position after skipping `n` resource records starting at `pos`: a name
/// (taken as a two-octet pointer when the top bits of its first octet are
/// set), ten octets of fixed fields, and RDLENGTH octets of data.
pub open spec fn skip_rrs(q: Seq<u8>, pos: int, n: int) -> Option<int>
    decreases n,
{
    if n <= 0 {
        Some(pos)
    } else if pos < 0 || pos >= q.len() {
        None
    } else {
        let after_name = if q[pos] & 0xC0 == 0xC0 {
            Some(pos + 2)
        } else {
            name_end(q, pos)
        };
        match after_name {
            None => None,
            Some(p2) => if p2 + 10 > q.len() {
                None
            } else {
                skip_rrs(q, p2 + 10 + rr_rdlen(q, p2), n - 1)
            },
        }
    }
}

/// Scan up to `n` additional records from `pos` for an OPT record: owner
/// name is the root (a single zero octet) and the type octets are 0 and 41.
/// Yields the position of the zero octet of the first such record.
pub open spec fn scan_opt(q: Seq<u8>, pos: int, n: int) -> Option<int>
    decreases n,
{
    if n <= 0 {
        None
    } else if pos < 0 || pos >= q.len() {
        None
    } else if q[pos] == 0 && pos + 2 < q.len() && q[pos + 1] == 0 && q[pos + 2] == 41 {
        Some(pos)
    } else if pos + 10 >= q.len() {
        None
    } else {
        scan_opt(q, pos + 10 + rr_rdlen(q, pos), n - 1)
    }
}

/// Feed the outcome of the record-skipping phase into the additional-record
/// scan.
pub open spec fn opt_after_skip(q: Seq<u8>, sk: Option<int>, ar: int) -> Option<int> {
    match sk {
        None => None,
        Some(p2) => scan_opt(q, p2, ar),
    }
}

/// Position of the OPT record of the packet, if one is found: walk the
/// question, skip the answer and authority records, then scan the
/// additional records.
pub open spec fn spec_opt_pos(q: Seq<u8>) -> Option<int> {
    if q.len() < 12 {
        None
    } else {
        let ar = be16(q[10], q[11]) as int;
        if ar == 0 {
            None
        } else {
            match name_end(q, 12) {
                None => None,
                Some(p) => opt_after_skip(
                    q,
                    skip_rrs(q, p + 4, be16(q[6], q[7]) + be16(q[8], q[9])),
                    ar,
                ),
            }
        }
    }
}

/// The request carries an OPT record.
pub open spec fn spec_has_opt(q: Seq<u8>) -> bool {
    spec_opt_pos(q) is Some
}

/// The UDP payload size the requester advertised in its OPT record: the
/// CLASS field of that record, when both of its octets are present.
pub open spec fn spec_edns_payload(q: Seq<u8>) -> Option<u16> {
    match spec_opt_pos(q) {
        None => None,
        Some(p) => if p + 5 < q.len() {
            Some(be16(q[p + 3], q[p + 4]))
        } else {
            None
        },
    }
}

/// The DO (DNSSEC OK) bit of the request: the top bit of the first TTL
/// octet of its OPT record.
pub open spec fn spec_do_bit(q: Seq<u8>) -> bool {
    match spec_opt_pos(q) {
        None => false,
        Some(p) => p + 5 < q.len() && q[p + 5] & 0x80 != 0,
    }
}

/// Locate the OPT record of the packet.
#[verifier::loop_isolation(false)]
fn find_opt(query: &[u8]) -> (r: Option<usize>)
    requires
        query@.len() <= MAX_MSG_LEN,
    ensures
        r is None <==> spec_opt_pos(query@) is None,
        r matches Some(u) ==> spec_opt_pos(query@) == Some(u as int),
{
    let ghost q = query@;
    if query.len() < 12 {
        return None;
    }
    let arcount: u16 = (query[10] as u16) * 256 + (query[11] as u16);
    if arcount == 0 {
        return None;
    }
    // walk the QNAME
    let mut pos: usize = 12;
    loop
        invariant
            12 <= pos <= q.len(),
            name_end(q, 12) == name_end(q, pos as int),
        decreases q.len() - pos,
    {
        if pos >= query.len() {
            return None;
        }
        let l = query[pos] as usize;
        if l == 0 {
            pos += 1;
            break;
        }
        if l + 1 >= query.len() - pos {
            return None;
        }
        pos += l + 1;
    }
    assert(name_end(q, 12) == Some(pos as int));
    // skip QTYPE and QCLASS
    if pos > query.len() - 4 {
        proof {
            let p0 = pos + 4;
            assert(p0 >= q.len());
            let total = (be16(q[6], q[7]) + be16(q[8], q[9])) as int;
            if total > 0 {
                assert(skip_rrs(q, p0, total) is None);
            } else {
                assert(skip_rrs(q, p0, total) == Some(p0 as int));
                assert(scan_opt(q, p0 as int, arcount as int) is None);
            }
        }
        return None;
    }
    pos += 4;
    // skip the answer and authority records
    let ancount: u16 = (query[6] as u16) * 256 + (query[7] as u16);
    let nscount: u16 = (query[8] as u16) * 256 + (query[9] as u16);
    let total: u32 = ancount as u32 + nscount as u32;
    let ghost ntot = (be16(q[6], q[7]) + be16(q[8], q[9])) as int;
    let mut k: u32 = 0;
    while k < total
        invariant
            0 <= k <= total,
            12 <= pos <= q.len(),
            spec_opt_pos(q) == opt_after_skip(
                q,
                skip_rrs(q, pos as int, ntot - k),
                arcount as int,
            ),
        decreases total - k,
    {
        if pos >= query.len() {
            return None;
        }
        if query[pos] & 0xC0 == 0xC0 {
            if pos + 2 > query.len() {
                // the pointer runs past the packet, and so does the fixed part
                assert(pos as int + 2 + 10 > q.len());
                return None;
            }
            pos += 2;
        } else {
            let ghost rstart = pos as int;
            loop
                invariant
                    12 <= pos <= q.len(),
                    name_end(q, rstart) == name_end(q, pos as int),
                decreases q.len() - pos,
            {
                if pos >= query.len() {
                    return None;
                }
                let l = query[pos] as usize;
                if l == 0 {
                    pos += 1;
                    break;
                }
                if l + 1 >= query.len() - pos {
                    return None;
                }
                pos += l + 1;
            }
            assert(name_end(q, rstart) == Some(pos as int));
        }
        if pos > query.len() - 10 {
            return None;
        }
        let rdlen: usize = (query[pos + 8] as usize) * 256 + (query[pos + 9] as usize);
        if rdlen > query.len() - (pos + 10) {
            proof {
                let p3 = pos + 10 + rdlen;
                assert(p3 > q.len());
                if ntot - k - 1 > 0 {
                    assert(skip_rrs(q, p3 as int, ntot - k - 1) is None);
                } else {
                    assert(skip_rrs(q, p3 as int, ntot - k - 1) == Some(p3 as int));
                    assert(scan_opt(q, p3 as int, arcount as int) is None);
                }
            }
            return None;
        }
        pos = pos + 10 + rdlen;
        k += 1;
    }
    // scan the additional records
    assert(spec_opt_pos(q) == scan_opt(q, pos as int, arcount as int));
    let mut m: u16 = 0;
    while m < arcount
        invariant
            0 <= m <= arcount,
            12 <= pos <= q.len(),
            spec_opt_pos(q) == scan_opt(q, pos as int, (arcount - m) as int),
        decreases arcount - m,
    {
        if pos >= query.len() {
            return None;
        }
        if query[pos] == 0 && pos < query.len() - 2 && query[pos + 1] == 0 && query[pos + 2] == 41 {
            return Some(pos);
        }
        if pos >= query.len() - 10 {
            return None;
        }
        let rdlen: usize = (query[pos + 8] as usize) * 256 + (query[pos + 9] as usize);
        if rdlen > query.len() - (pos + 10) {
            proof {
                let p3 = pos + 10 + rdlen;
                assert(p3 > q.len());
                assert(scan_opt(q, p3 as int, (arcount - m) as int - 1) is None);
            }
            return None;
        }
        pos = pos + 10 + rdlen;
        m += 1;
    }
    None
}

/// Epoch seconds, truncated to 32 bits, of a signature time written as
/// `YYYYMMDDHHMMSS` and read as UTC; `None` when the text is not such a
/// time. The outcome is a function of the text alone.
pub uninterp spec fn sig_epoch_of(s: Seq<u8>) -> Option<u32>;

/// Relies on chrono's `NaiveDateTime::parse_from_str` with the fixed format
/// `%Y%m%d%H%M%S`, and on its UTC epoch-second conversion, which depend on
/// the input text alone.
#[verifier::external_body]
pub(crate) fn sig_time_of_bytes(s: &[u8]) -> (r: Option<u32>)
    ensures
        r == sig_epoch_of(s@),
{
    let text = core::str::from_utf8(s).ok()?;
    let dt = chrono::NaiveDateTime::parse_from_str(text, "%Y%m%d%H%M%S").ok()?;
    Some(dt.and_utc().timestamp() as u32)
}

/// Parse a signature time in `YYYYMMDDHHMMSS` form to epoch seconds
/// truncated to 32 bits.
pub fn parse_sig_time(s: &str) -> (r: Result<u32, DnsError>)
    ensures
        match sig_epoch_of(s.spec_bytes()) {
            Some(v) => r == Ok::<u32, DnsError>(v),
            None => r matches Err(e) && e is Config,
        },
{
    match sig_time_of_bytes(s.as_bytes()) {
        Some(v) => Ok(v),
        None => Err(DnsError::Config(String::from_str("invalid signature time"))),
    }
}

/// Whether the request carries an OPT record.
pub fn has_opt_record(query: &[u8]) -> (r: bool)
    requires
        query@.len() <= MAX_MSG_LEN,
    ensures
        r == spec_has_opt(query@),
{
    find_opt(query).is_some()
}

/// The EDNS payload size the requester advertised, if its OPT record holds
/// one.
pub fn extract_edns_payload_size(query: &[u8]) -> (r: Option<u16>)
    requires
        query@.len() <= MAX_MSG_LEN,
    ensures
        r == spec_edns_payload(query@),
{
    match find_opt(query) {
        None => None,
        Some(p) => if p < query.len() - 5 {
            Some((query[p + 3] as u16) * 256 + (query[p + 4] as u16))
        } else {
            None
        },
    }
}

/// The DO (DNSSEC OK) bit of the request.
pub fn extract_do_bit(query: &[u8]) -> (r: bool)
    requires
        query@.len() <= MAX_MSG_LEN,
    ensures
        r == spec_do_bit(query@),
{
    match find_opt(query) {
        None => false,
        Some(p) => p < query.len() - 5 && query[p + 5] & 0x80 != 0,
    }
}

/// String equality through the byte views.
pub fn str_eq(a: &str, b: &str) -> (r: bool)
    ensures
        r <==> a@ == b@,
{
    let r = crate::wire::bytes_eq(a.as_bytes(), b.as_bytes());
    proof {
        encode_utf8_decode_utf8(a@);
        encode_utf8_decode_utf8(b@);
    }
    r
}

/// A QNAME in wire form whose encoding round-trips: length-prefixed labels
/// of 1 to 63 bytes, each valid UTF-8 and free of dots, ended by a zero
/// octet that is the last byte of the sequence.
pub open spec fn valid_qname(b: Seq<u8>) -> bool
    decreases b.len(),
{
    if b.len() == 0 {
        false
    } else if b[0] == 0 {
        b.len() == 1
    } else {
        let l = b[0] as int;
        l <= 63 && 1 + l < b.len() && valid_utf8(b.subrange(1, 1 + l)) && (forall|i: int|
            1 <= i <= l ==> b[i] != DOT) && valid_qname(b.subrange(1 + l, b.len() as int))
    }
}

/// Parsing a name is insensitive to its position in the packet.
proof fn lemma_parse_name_shift(q: Seq<u8>, a: int)
    requires
        0 <= a <= q.len(),
    ensures
        parse_name(q, a) == (match parse_name(q.subrange(a, q.len() as int), 0) {
            None => None::<(Seq<u8>, int)>,
            Some((d, z)) => Some((d, z + a)),
        }),
    decreases q.len() - a,
{
    let t = q.subrange(a, q.len() as int);
    if a == q.len() {
    } else if q[a] == 0 {
    } else {
        let l = q[a] as int;
        if a + 1 + l <= q.len() {
            assert(t.subrange(1, 1 + l) =~= q.subrange(a + 1, a + 1 + l));
            if valid_utf8(q.subrange(a + 1, a + 1 + l)) {
                lemma_parse_name_shift(q, a + 1 + l);
                // relate parsing the tail of `t` with parsing `q` further on
                lemma_parse_name_restrict(q, a + 1 + l, t, 1 + l);
            }
        }
    }
}

/// Parsing from corresponding positions of two sequences that agree from
/// there on gives the same name.
proof fn lemma_parse_name_restrict(q: Seq<u8>, a: int, t: Seq<u8>, b: int)
    requires
        0 <= a <= q.len(),
        0 <= b <= t.len(),
        q.len() - a == t.len() - b,
        forall|i: int| 0 <= i < q.len() - a ==> #[trigger] q[a + i] == t[b + i],
    ensures
        parse_name(q, a) == (match parse_name(t, b) {
            None => None::<(Seq<u8>, int)>,
            Some((d, z)) => Some((d, z - b + a)),
        }),
    decreases q.len() - a,
{
    if a == q.len() {
    } else {
        assert(q[a] == t[b]) by {
            assert(q[a + 0] == t[b + 0]);
        }
        if q[a] == 0 {
        } else {
            let l = q[a] as int;
            if a + 1 + l <= q.len() {
                assert forall|j: int| 0 <= j < l implies #[trigger] q.subrange(a + 1, a + 1 + l)[j]
                    == t.subrange(b + 1, b + 1 + l)[j] by {
                    assert(q[a + (1 + j)] == t[b + (1 + j)]);
                }
                assert(q.subrange(a + 1, a + 1 + l) =~= t.subrange(b + 1, b + 1 + l));
                if valid_utf8(q.subrange(a + 1, a + 1 + l)) {
                    assert forall|i: int| 0 <= i < q.len() - (a + 1 + l) implies #[trigger] q[(a + 1
                        + l) + i] == t[(b + 1 + l) + i] by {
                        assert(q[a + (1 + l + i)] == t[b + (1 + l + i)]);
                    }
                    lemma_parse_name_restrict(q, a + 1 + l, t, b + 1 + l);
                }
            }
        }
    }
}

/// When the first `k` bytes of `s` hold no dot, `spec_encode_labels` emits
/// them as one label followed by the encoding past the dot.
proof fn lemma_encode_labels_unfold(s: Seq<u8>)
    ensures
        spec_encode_labels(s) == (if first_dot(s) >= s.len() {
            if s.len() > 63 {
                Seq::<u8>::empty()
            } else {
                seq![s.len() as u8] + s
            }
        } else {
            (if first_dot(s) > 63 {
                Seq::<u8>::empty()
            } else {
                seq![first_dot(s) as u8] + s.subrange(0, first_dot(s))
            }) + spec_encode_labels(s.subrange(first_dot(s) + 1, s.len() as int))
        }),
{
    lemma_first_dot_bounds(s);
    if first_dot(s) >= s.len() {
        assert(s.subrange(0, first_dot(s)) =~= s);
    }
}

/// A label longer than 63 bytes is dropped silently by the encoder: the
/// encoding of a name that starts with such a label is the encoding of
/// what follows its dot, and nothing of the label itself is emitted.
pub proof fn lemma_long_label_dropped(s: Seq<u8>)
    requires
        first_dot(s) > 63,
    ensures
        spec_encode_labels(s) == if first_dot(s) >= s.len() {
            Seq::<u8>::empty()
        } else {
            spec_encode_labels(s.subrange(first_dot(s) + 1, s.len() as int))
        },
{
    lemma_first_dot_bounds(s);
    if first_dot(s) < s.len() {
        assert(Seq::<u8>::empty() + spec_encode_labels(
            s.subrange(first_dot(s) + 1, s.len() as int),
        ) =~= spec_encode_labels(s.subrange(first_dot(s) + 1, s.len() as int)));
    }
}

/// Encoding the parse of a valid QNAME gives back its wire bytes, and the
/// parsed name is nonempty and never ends in a dot.
pub proof fn lemma_name_round_trip(b: Seq<u8>)
    requires
        valid_qname(b),
        b[0] != 0,
    ensures
        parse_name(b, 0) matches Some((d, z)) && z == b.len() - 1 && d.len() > 0 && d[d.len() - 1]
            != DOT && spec_encode_name(d) == b,
    decreases b.len(),
{
    let l = b[0] as int;
    let lab = b.subrange(1, 1 + l);
    let rest_b = b.subrange(1 + l, b.len() as int);
    assert(valid_qname(rest_b));
    lemma_parse_name_shift(b, 1 + l);
    if rest_b[0] == 0 {
        // the name holds a single label
        assert(rest_b.len() == 1);
        assert(parse_name(rest_b, 0) == Some((Seq::<u8>::empty(), 0int)));
        assert(parse_name(b, 0) matches Some((d, z)) && d == lab && z == b.len() - 1);
        assert(lab[lab.len() - 1] != DOT) by {
            assert(b[1 + (l - 1)] != DOT);
        }
        assert(strip_one_trailing_dot(lab) == lab);
        lemma_first_dot_skip(lab, lab.len() as int);
        assert(lab.subrange(lab.len() as int, lab.len() as int) =~= Seq::<u8>::empty());
        assert(first_dot(lab) == lab.len());
        lemma_encode_labels_unfold(lab);
        assert(spec_encode_labels(lab) == seq![lab.len() as u8] + lab);
        assert((seq![lab.len() as u8] + lab) + seq![0u8] =~= b);
    } else {
        lemma_name_round_trip(rest_b);
        let (drest, zr) = parse_name(rest_b, 0)->Some_0;
        assert(parse_name(b, 0) matches Some((d, z)) && d == lab + seq![DOT] + drest && z == b.len()
            - 1);
        let d = lab + seq![DOT] + drest;
        assert(d[d.len() - 1] == drest[drest.len() - 1]);
        assert(strip_one_trailing_dot(d) == d);
        // the first dot of `d` closes the first label
        assert(forall|j: int| 0 <= j < l ==> d[j] != DOT);
        lemma_first_dot_skip(d, l);
        assert(d.subrange(l, d.len() as int)[0] == DOT);
        assert(first_dot(d) == l);
        lemma_encode_labels_unfold(d);
        assert(d.subrange(0, l) =~= lab);
        assert(d.subrange(l + 1, d.len() as int) =~= drest);
        assert(spec_encode_labels(d) == (seq![l as u8] + lab) + spec_encode_labels(drest));
        // stitch the label encoding and the tail encoding back together
        assert(spec_encode_labels(drest) + seq![0u8] == rest_b);
        assert(((seq![l as u8] + lab) + spec_encode_labels(drest)) + seq![0u8] =~= (seq![l as u8]
            + lab) + (spec_encode_labels(drest) + seq![0u8]));
        assert((seq![l as u8] + lab) + rest_b =~= b);
    }
}

} // verus!
