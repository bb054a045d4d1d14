//! Wire codec tests: question parsing, name encoding, OPT extraction, and
//! the safety of parsing truncated input.

use nx9_dns_server::utils::{
    encode_dns_name, extract_do_bit, extract_domain, extract_edns_payload_size,
    extract_query_type, has_opt_record, parse_sig_time,
};

/// A query for `example.com`, type A, with RD set.
fn plain_query() -> Vec<u8> {
    let mut q = vec![0xBE, 0xEF, 0x01, 0x00, 0x00, 0x01, 0x00, 0x00, 0x00, 0x00, 0x00, 0x00];
    q.extend_from_slice(b"\x07example\x03com\x00");
    q.extend_from_slice(&[0x00, 0x01, 0x00, 0x01]);
    q
}

/// The same query with an OPT record: payload 1232, DO bit set.
fn query_with_opt() -> Vec<u8> {
    let mut q = plain_query();
    q[11] = 1; // ARCOUNT
    q.extend_from_slice(&[0x00, 0x00, 0x29, 0x04, 0xD0, 0x80, 0x00, 0x00, 0x00, 0x00, 0x00]);
    q
}

#[test]
fn extracts_domain() {
    let q = plain_query();
    assert_eq!(extract_domain(&q), Some(String::from("example.com")));
}

#[test]
fn extracts_query_type() {
    let q = plain_query();
    assert_eq!(extract_query_type(&q), Some(1));
}

#[test]
fn rejects_short_header() {
    assert_eq!(extract_domain(&[0u8; 11]), None);
    assert_eq!(extract_query_type(&[0u8; 11]), None);
}

#[test]
fn rejects_invalid_label_bytes() {
    let mut q = plain_query();
    q[13] = 0xFF; // not valid UTF-8 inside the first label
    assert_eq!(extract_domain(&q), None);
}

#[test]
fn encode_name_strips_one_trailing_dot() {
    assert_eq!(encode_dns_name("example.com."), b"\x07example\x03com\x00".to_vec());
    assert_eq!(encode_dns_name("example.com"), b"\x07example\x03com\x00".to_vec());
}

#[test]
fn name_round_trip() {
    // the codec law on concrete bytes: encoding the decoded name gives
    // back the QNAME bytes
    let q = plain_query();
    let domain = extract_domain(&q).unwrap();
    let encoded = encode_dns_name(&domain);
    assert_eq!(encoded.as_slice(), &q[12..25]);
}

#[test]
fn long_label_dropped() {
    let long = "a".repeat(64);
    let name = format!("{long}.com");
    assert_eq!(encode_dns_name(&name), b"\x03com\x00".to_vec());
    // a 63-byte label is kept
    let ok = "a".repeat(63);
    let name2 = format!("{ok}.com");
    let mut expect = vec![63u8];
    expect.extend_from_slice(ok.as_bytes());
    expect.extend_from_slice(b"\x03com\x00");
    assert_eq!(encode_dns_name(&name2), expect);
}

#[test]
fn opt_detection() {
    let q = plain_query();
    assert!(!has_opt_record(&q));
    assert_eq!(extract_edns_payload_size(&q), None);
    assert!(!extract_do_bit(&q));
    let qo = query_with_opt();
    assert!(has_opt_record(&qo));
    assert_eq!(extract_edns_payload_size(&qo), Some(1232));
    assert!(extract_do_bit(&qo));
}

#[test]
fn opt_do_bit_clear() {
    let mut qo = query_with_opt();
    let n = qo.len();
    qo[n - 6] = 0x00; // clear the DO bit in the OPT TTL field
    assert!(has_opt_record(&qo));
    assert!(!extract_do_bit(&qo));
}

#[test]
fn parsing_truncated_prefixes_is_safe() {
    // every truncated prefix of a well-formed packet parses without any
    // out-of-bounds access, and never yields a positive result spuriously
    let qo = query_with_opt();
    for n in 0..qo.len() {
        let p = &qo[..n];
        let _ = extract_domain(p);
        let _ = extract_query_type(p);
        let _ = has_opt_record(p);
        let _ = extract_edns_payload_size(p);
        let _ = extract_do_bit(p);
    }
    assert_eq!(extract_domain(&qo[..24]), None); // missing QTYPE/QCLASS
}

#[test]
fn encode_empty_name() {
    // an empty name still yields an empty label and the terminator, as
    // splitting the empty text on dots does
    assert_eq!(encode_dns_name(""), vec![0, 0]);
}

#[test]
fn sig_time_epoch() {
    assert_eq!(parse_sig_time("20240501000000").unwrap(), 1714521600);
    assert!(parse_sig_time("not-a-time").is_err());
}
