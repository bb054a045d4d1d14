//! Record builders: per-type RDATA encoding, DNSSEC material, and the
//! error taxonomy.

use nx9_dns_server::dns::{
    build_dns_response, build_dnskey_response, build_ds_response, build_generic_record_response,
    build_ns_response, build_soa_response, encode_rrsig_rr,
};
use nx9_dns_server::utils::parse_sig_time;
use nx9_dns_server::{DnsError, ServerConfig};

fn config(authoritative: bool) -> ServerConfig {
    ServerConfig {
        bind_addr: String::from("0.0.0.0:5353"),
        db_path: String::from("/tmp/nx9_records_unused.db"),
        cache_ttl: 600,
        enable_ipv6: false,
        max_packet_size: 4096,
        authoritative,
        ns_records: vec![
            String::from("ns1.example.com."),
            String::from("ns2.example.com."),
        ],
        default_domain: String::from("example.com"),
        default_ip: String::from(""),
        forwarders: vec![],
        ds_records: vec![],
        dnskey_records: vec![],
    }
}

fn plain_query() -> Vec<u8> {
    let mut q = vec![0xBE, 0xEF, 0x01, 0x00, 0x00, 0x01, 0x00, 0x00, 0x00, 0x00, 0x00, 0x00];
    q.extend_from_slice(b"\x07example\x03com\x00");
    q.extend_from_slice(&[0x00, 0x01, 0x00, 0x01]);
    q
}

/// Index just past the copied question section of a response to
/// `plain_query`.
const ANSWER_AT: usize = 29;

#[test]
fn a_answer_bytes() {
    let q = plain_query();
    let resp = build_dns_response(&q, "10.0.0.1", 60, &config(false)).unwrap();
    assert_eq!(&resp[..2], &[0xBE, 0xEF]);
    assert_eq!(resp[2], 0x81); // QR and RD, no AA
    assert_eq!(resp[3], 0x80); // RA, RCODE 0
    assert_eq!(&resp[4..12], &[0, 1, 0, 1, 0, 0, 0, 0]);
    assert_eq!(&resp[12..ANSWER_AT], &q[12..29]);
    assert_eq!(
        &resp[ANSWER_AT..],
        &[0xC0, 0x0C, 0, 1, 0, 1, 0, 0, 0, 60, 0, 4, 10, 0, 0, 1]
    );
}

#[test]
fn a_answer_rejects_bad_address() {
    let q = plain_query();
    let r = build_dns_response(&q, "10.0.0", 60, &config(false));
    assert!(matches!(r, Err(DnsError::Protocol(_))));
}

#[test]
fn a_answer_lenient_address_chunks() {
    // chunks that fail to parse are passed over; four parsed chunks count
    let q = plain_query();
    let resp = build_dns_response(&q, "1.x.2.3.4", 5, &config(false)).unwrap();
    assert_eq!(&resp[resp.len() - 4..], &[1, 2, 3, 4]);
}

#[test]
fn soa_answer_bytes() {
    let q = plain_query();
    let soa = "ns1.example.com. hostmaster.example.com. 7 10800 3600 604800 86400";
    let resp = build_soa_response(&q, soa, 3600, String::from("example.com"), &config(false))
        .unwrap();
    let mut rdata: Vec<u8> = Vec::new();
    rdata.extend_from_slice(b"\x03ns1\x07example\x03com\x00");
    rdata.extend_from_slice(b"\x0ahostmaster\x07example\x03com\x00");
    for v in [7u32, 10800, 3600, 604800, 86400] {
        rdata.extend_from_slice(&v.to_be_bytes());
    }
    let mut expect = vec![0xC0, 0x0C, 0, 6, 0, 1, 0, 0, 0x0E, 0x10];
    expect.extend_from_slice(&(rdata.len() as u16).to_be_bytes());
    expect.extend_from_slice(&rdata);
    assert_eq!(&resp[ANSWER_AT..], expect.as_slice());
}

#[test]
fn soa_defaults_on_unparseable_fields() {
    let q = plain_query();
    let soa = "m. r. x y z w v";
    let resp = build_soa_response(&q, soa, 0, String::from("example.com"), &config(false))
        .unwrap();
    let tail = &resp[resp.len() - 20..];
    let mut expect = Vec::new();
    for v in [1u32, 10800, 3600, 604800, 86400] {
        expect.extend_from_slice(&v.to_be_bytes());
    }
    assert_eq!(tail, expect.as_slice());
}

#[test]
fn soa_rejects_short_text() {
    let q = plain_query();
    let r = build_soa_response(&q, "a b c", 0, String::from("example.com"), &config(false));
    assert!(matches!(r, Err(DnsError::Config(_))));
}

#[test]
fn mx_answer_bytes() {
    let q = plain_query();
    let resp = build_generic_record_response(
        &q,
        "10 mail.example.com.",
        120,
        String::from("example.com"),
        15,
        &config(false),
    )
    .unwrap();
    let mut expect = vec![0xC0, 0x0C, 0, 15, 0, 1, 0, 0, 0, 120];
    let rdata: Vec<u8> = [&[0u8, 10][..], b"\x04mail\x07example\x03com\x00"].concat();
    expect.extend_from_slice(&(rdata.len() as u16).to_be_bytes());
    expect.extend_from_slice(&rdata);
    assert_eq!(&resp[ANSWER_AT..], expect.as_slice());
}

#[test]
fn mx_preference_defaults_to_ten() {
    let q = plain_query();
    let resp = build_generic_record_response(
        &q,
        "xx mail.example.com.",
        120,
        String::from("example.com"),
        15,
        &config(false),
    )
    .unwrap();
    assert_eq!(&resp[ANSWER_AT + 12..ANSWER_AT + 14], &[0, 10]);
}

#[test]
fn txt_answer_strips_quotes() {
    let q = plain_query();
    let resp = build_generic_record_response(
        &q,
        "\"v=spf1 a mx ~all\"",
        300,
        String::from("example.com"),
        16,
        &config(false),
    )
    .unwrap();
    let text = b"v=spf1 a mx ~all";
    let mut expect = vec![0xC0, 0x0C, 0, 16, 0, 1, 0, 0, 0x01, 0x2C, 0, 17, 16];
    expect.extend_from_slice(text);
    assert_eq!(&resp[ANSWER_AT..], expect.as_slice());
}

#[test]
fn cname_answer_bytes() {
    let q = plain_query();
    let resp = build_generic_record_response(
        &q,
        "target.example.com.",
        60,
        String::from("example.com"),
        5,
        &config(false),
    )
    .unwrap();
    let enc = b"\x06target\x07example\x03com\x00";
    assert_eq!(&resp[resp.len() - enc.len()..], enc);
}

#[test]
fn generic_rejects_unknown_type() {
    let q = plain_query();
    let r = build_generic_record_response(
        &q,
        "whatever",
        60,
        String::from("example.com"),
        99,
        &config(false),
    );
    assert!(matches!(r, Err(DnsError::Protocol(_))));
}

#[test]
fn ns_answer_holds_every_ns_row() {
    let q = plain_query();
    let records = vec![
        (String::from("ns1.example.com."), 3600u64, String::from("NS")),
        (String::from("1.2.3.4"), 3600u64, String::from("A")),
        (String::from("ns2.example.com."), 3600u64, String::from("NS")),
    ];
    let resp = build_ns_response(&q, &records, 3600, String::from("example.com"), &config(false))
        .unwrap();
    assert_eq!(&resp[6..8], &[0, 2]); // ANCOUNT: the two NS rows
    assert_eq!(&resp[8..10], &[0, 0]);
    let body = &resp[ANSWER_AT..];
    assert!(contains(body, b"\x03ns1\x07example\x03com\x00"));
    assert!(contains(body, b"\x03ns2\x07example\x03com\x00"));
    assert!(!contains(body, b"1.2.3.4".as_slice()));
    assert_eq!(count(body, &[0xC0, 0x0C, 0x00, 0x02]), 2);
}

#[test]
fn ds_answer_decodes_hex_digest() {
    let q = plain_query();
    let ds = "example.com. IN DS 24550 8 2 1F21CA28";
    let resp = build_ds_response(&q, ds, 3600, &config(false)).unwrap();
    let expect = [
        0xC0, 0x0C, 0x00, 0x2B, 0x00, 0x01, 0, 0, 0x0E, 0x10, 0x00, 0x08, 0x5F, 0xE6, 8, 2, 0x1F,
        0x21, 0xCA, 0x28,
    ];
    assert_eq!(&resp[ANSWER_AT..], &expect);
}

#[test]
fn ds_rejects_bad_digest() {
    let q = plain_query();
    let r = build_ds_response(&q, "example.com. IN DS 24550 8 2 XYZ", 3600, &config(false));
    assert!(matches!(r, Err(DnsError::Config(_))));
}

#[test]
fn dnskey_answer_decodes_base64_key() {
    let q = plain_query();
    let resp = build_dnskey_response(
        &q,
        "example.com. IN DNSKEY 256 3 8 AAEC",
        3600,
        &config(false),
    )
    .unwrap();
    let expect = [
        0xC0, 0x0C, 0x00, 0x30, 0x00, 0x01, 0, 0, 0x0E, 0x10, 0x00, 0x07, 0x01, 0x00, 3, 8, 0, 1,
        2,
    ];
    assert_eq!(&resp[ANSWER_AT..], &expect);
}

#[test]
fn dnskey_rejects_bad_base64() {
    let q = plain_query();
    let r = build_dnskey_response(
        &q,
        "example.com. IN DNSKEY 256 3 8 !!!",
        3600,
        &config(false),
    );
    assert!(matches!(r, Err(DnsError::Base64(_))));
}

#[test]
fn rrsig_record_bytes() {
    let text =
        "example.com. 3600 IN RRSIG DNSKEY 8 2 3600 20250601000000 20240501000000 24550 example.com. AAEC";
    let rr = encode_rrsig_rr(text, 3600).unwrap();
    let exp = parse_sig_time("20250601000000").unwrap();
    let inc = parse_sig_time("20240501000000").unwrap();
    let mut rdata: Vec<u8> = Vec::new();
    rdata.extend_from_slice(&[0x00, 0x30, 8, 2]);
    rdata.extend_from_slice(&3600u32.to_be_bytes());
    rdata.extend_from_slice(&exp.to_be_bytes());
    rdata.extend_from_slice(&inc.to_be_bytes());
    rdata.extend_from_slice(&[0x5F, 0xE6]);
    rdata.extend_from_slice(b"\x07example\x03com\x00");
    rdata.extend_from_slice(&[0, 1, 2]);
    let mut expect = vec![0xC0, 0x0C, 0x00, 0x2E, 0x00, 0x01, 0, 0, 0x0E, 0x10];
    expect.extend_from_slice(&(rdata.len() as u16).to_be_bytes());
    expect.extend_from_slice(&rdata);
    assert_eq!(rr, expect);
}

#[test]
fn rrsig_rejects_bad_numeric_field() {
    let text =
        "example.com. 3600 IN RRSIG DNSKEY x 2 3600 20250601000000 20240501000000 24550 example.com. AAEC";
    assert!(matches!(encode_rrsig_rr(text, 3600), Err(DnsError::Parse(_))));
}

#[test]
fn rrsig_rejects_short_text() {
    assert!(matches!(
        encode_rrsig_rr("example.com. IN RRSIG DNSKEY", 3600),
        Err(DnsError::Config(_))
    ));
}

#[test]
fn authoritative_answer_carries_ns_authority() {
    let q = plain_query();
    let resp = build_dns_response(&q, "10.0.0.1", 60, &config(true)).unwrap();
    assert_eq!(resp[2], 0x85); // QR, AA, RD
    assert_eq!(&resp[8..10], &[0, 2]); // NSCOUNT: both configured NS names
    let authority = &resp[ANSWER_AT + 16..];
    assert_eq!(count(authority, &[0xC0, 0x0C, 0x00, 0x02]), 2);
    assert!(contains(authority, b"\x03ns1\x07example\x03com\x00"));
    assert!(contains(authority, b"\x03ns2\x07example\x03com\x00"));
}

fn contains(hay: &[u8], needle: &[u8]) -> bool {
    count(hay, needle) > 0
}

fn count(hay: &[u8], needle: &[u8]) -> usize {
    if needle.is_empty() || hay.len() < needle.len() {
        return 0;
    }
    let mut n = 0;
    for i in 0..=hay.len() - needle.len() {
        if &hay[i..i + needle.len()] == needle {
            n += 1;
        }
    }
    n
}
