//! End-to-end resolver scenarios: cache hits, authoritative NXDOMAIN,
//! forwarding, OPCODE gating, EDNS echo, and multi-record NS answers.

use nx9_dns_server::dns::{
    build_not_implemented_response, clear_aa_bit, generate_dns_response, question_ok_check,
    Resolution,
};
use nx9_dns_server::db::{find_closest_parent_zone, get_authoritative_zones, lookup_records, ZoneInfo};
use nx9_dns_server::{DnsCache, ServerConfig};

fn config(authoritative: bool, db_path: &str) -> ServerConfig {
    ServerConfig {
        bind_addr: String::from("0.0.0.0:5353"),
        db_path: String::from(db_path),
        cache_ttl: 600,
        enable_ipv6: false,
        max_packet_size: 4096,
        authoritative,
        ns_records: vec![
            String::from("ns1.example.com."),
            String::from("ns2.example.com."),
        ],
        default_domain: String::from("example.com"),
        default_ip: String::from(""),
        forwarders: vec![String::from("192.0.2.1:53")],
        ds_records: vec![],
        dnskey_records: vec![],
    }
}

/// A query for `name` with the given id, flag octets and QTYPE.
fn query(id: u16, flags: [u8; 2], name: &str, qtype: u16) -> Vec<u8> {
    let mut q = Vec::new();
    q.extend_from_slice(&id.to_be_bytes());
    q.extend_from_slice(&flags);
    q.extend_from_slice(&[0, 1, 0, 0, 0, 0, 0, 0]);
    for label in name.split('.') {
        q.push(label.len() as u8);
        q.extend_from_slice(label.as_bytes());
    }
    q.push(0);
    q.extend_from_slice(&qtype.to_be_bytes());
    q.extend_from_slice(&[0, 1]);
    q
}

fn with_opt(mut q: Vec<u8>, payload: u16, do_bit: bool) -> Vec<u8> {
    q[11] = 1;
    q.push(0);
    q.extend_from_slice(&[0, 0x29]);
    q.extend_from_slice(&payload.to_be_bytes());
    q.push(if do_bit { 0x80 } else { 0 }); // top bit of the TTL field
    q.extend_from_slice(&[0, 0, 0, 0, 0]);
    q
}

/// An empty record store at `path`: the table exists and holds no rows.
fn empty_store(path: &str) -> rusqlite::Connection {
    let conn = rusqlite::Connection::open(path).unwrap();
    conn.execute(
        "CREATE TABLE IF NOT EXISTS dns_records (
            domain TEXT NOT NULL, record_type TEXT NOT NULL,
            value TEXT NOT NULL, ttl INTEGER DEFAULT 3600,
            PRIMARY KEY (domain, record_type, value))",
        (),
    )
    .unwrap();
    conn.execute("DELETE FROM dns_records", ()).unwrap();
    conn
}

fn answer(r: Result<Resolution, nx9_dns_server::DnsError>) -> Vec<u8> {
    match r {
        Ok(Resolution::Answer(resp)) => resp,
        _ => panic!("expected a local answer"),
    }
}

#[test]
fn cached_a_hit() {
    let cfg = config(true, "/tmp/nx9_test_untouched.db");
    let mut cache = DnsCache::new(cfg.ns_records.clone());
    cache.set(String::from("example.com"), String::from("10.0.0.1"), 60, 1000);
    let q = query(0xBEEF, [0x01, 0x00], "example.com", 1);
    assert!(question_ok_check(&q));
    let resp = answer(generate_dns_response(
        &q,
        String::from("example.com"),
        &mut cache,
        &cfg,
        1000,
    ));
    assert_eq!(&resp[..2], &[0xBE, 0xEF]);
    assert_eq!(resp[2], 0x85); // QR, AA, RD echoed
    assert_eq!(resp[3] & 0x0F, 0);
    assert_eq!(&resp[6..8], &[0, 1]); // ANCOUNT
    assert_eq!(&resp[8..10], &[0, 2]); // NSCOUNT
    assert_eq!(&resp[12..29], &q[12..29]); // question echoed
    assert_eq!(&resp[29 + 12..29 + 16], &[10, 0, 0, 1]); // RDATA
}

#[test]
fn cached_hit_expired_entry_ignored() {
    let path = "/tmp/nx9_test_expired.db";
    empty_store(path);
    let cfg = config(false, path);
    let mut cache = DnsCache::new(vec![]);
    cache.set(String::from("example.com"), String::from("10.0.0.1"), 60, 1000);
    let q = query(1, [0x01, 0x00], "example.com", 1);
    // past the TTL the entry must not answer; the empty store and the
    // non-authoritative config leave only forwarding
    let r = generate_dns_response(&q, String::from("example.com"), &mut cache, &cfg, 2000);
    assert!(matches!(r, Ok(Resolution::Forward)));
}

#[test]
fn authoritative_nxdomain() {
    let path = "/tmp/nx9_test_nxdomain.db";
    empty_store(path);
    let cfg = config(true, path);
    let mut cache = DnsCache::new(cfg.ns_records.clone());
    let q = query(0x1234, [0x01, 0x00], "missing.example.com", 1);
    let resp = answer(generate_dns_response(
        &q,
        String::from("missing.example.com"),
        &mut cache,
        &cfg,
        0,
    ));
    assert_eq!(&resp[..2], &[0x12, 0x34]);
    assert_eq!(resp[3] & 0x0F, 3); // NXDOMAIN
    assert_ne!(resp[2] & 0x04, 0); // AA: a configured zone covers the name
    assert_eq!(&resp[6..8], &[0, 0]); // no answers
    assert_eq!(&resp[8..10], &[0, 3]); // one SOA and two NS records
    let zname = b"\x07example\x03com\x00";
    assert!(count(&resp, zname) >= 3); // owner of the three authority records
    assert!(count(&resp, b"\x0ahostmaster\x07example\x03com\x00") == 1);
}

#[test]
fn non_authoritative_forward_clears_aa() {
    let path = "/tmp/nx9_test_forward.db";
    empty_store(path);
    let cfg = config(false, path);
    let mut cache = DnsCache::new(vec![]);
    let q = query(7, [0x01, 0x00], "elsewhere.net", 1);
    let r = generate_dns_response(&q, String::from("elsewhere.net"), &mut cache, &cfg, 0);
    assert!(matches!(r, Ok(Resolution::Forward)));
    // the upstream reply comes back with AA set; the relay clears it
    let upstream = vec![0x00, 0x07, 0x85, 0x80, 0, 1, 0, 1, 0, 0, 0, 0, 3, b'f', b'o', b'o', 0];
    let relayed = clear_aa_bit(&upstream);
    assert_eq!(relayed[2], 0x81);
    assert_eq!(&relayed[..2], &upstream[..2]);
    assert_eq!(&relayed[3..], &upstream[3..]);
}

#[test]
fn notimp_on_status_opcode() {
    let q = query(0xABCD, [0x11, 0x00], "example.com", 1); // OPCODE 2, RD
    let resp = build_not_implemented_response(&q, false).unwrap();
    assert_eq!(&resp[..2], &[0xAB, 0xCD]);
    assert_eq!(resp[3] & 0x0F, 4); // NOTIMP
    assert_ne!(resp[2] & 0x80, 0); // QR
    assert_eq!((resp[2] >> 3) & 0x0F, 2); // OPCODE echoed
    assert_ne!(resp[2] & 0x01, 0); // RD echoed
}

#[test]
fn notimp_on_truncated_question_is_none() {
    let q = query(1, [0x11, 0x00], "example.com", 1);
    assert!(build_not_implemented_response(&q[..20], false).is_none());
}

#[test]
fn edns_echo() {
    let cfg = config(true, "/tmp/nx9_test_untouched.db");
    let mut cache = DnsCache::new(cfg.ns_records.clone());
    cache.set(String::from("example.com"), String::from("10.0.0.1"), 60, 0);
    let q = with_opt(query(2, [0x01, 0x00], "example.com", 1), 1232, true);
    let resp = answer(generate_dns_response(
        &q,
        String::from("example.com"),
        &mut cache,
        &cfg,
        0,
    ));
    assert_eq!(&resp[10..12], &[0, 1]); // ARCOUNT 1
    let opt = [0x00, 0x00, 0x29, 0x04, 0xD0, 0x00, 0x00, 0x80, 0x00, 0x00, 0x00];
    assert_eq!(&resp[resp.len() - 11..], &opt);
    assert_eq!(count(&resp, &[0x00, 0x29, 0x04, 0xD0]), 1); // exactly one OPT
}

#[test]
fn multiple_ns_answers() {
    let path = "/tmp/nx9_test_multins.db";
    let conn = empty_store(path);
    conn.execute(
        "INSERT INTO dns_records VALUES ('example.com', 'NS', 'ns1.example.com.', 3600)",
        (),
    )
    .unwrap();
    conn.execute(
        "INSERT INTO dns_records VALUES ('example.com', 'NS', 'ns2.example.com.', 3600)",
        (),
    )
    .unwrap();
    let cfg = config(true, path);
    let mut cache = DnsCache::new(cfg.ns_records.clone());
    let q = query(3, [0x01, 0x00], "example.com", 2);
    let resp = answer(generate_dns_response(
        &q,
        String::from("example.com"),
        &mut cache,
        &cfg,
        0,
    ));
    assert_eq!(&resp[6..8], &[0, 2]); // ANCOUNT 2
    assert!(contains(&resp, b"\x03ns1\x07example\x03com\x00"));
    assert!(contains(&resp, b"\x03ns2\x07example\x03com\x00"));
    assert_eq!(count(&resp, &[0xC0, 0x0C, 0x00, 0x02]), 2); // pointer owners
}

#[test]
fn dnskey_from_config_material() {
    let mut cfg = config(true, "/tmp/nx9_test_untouched.db");
    cfg.dnskey_records = vec![String::from("example.com. IN DNSKEY 256 3 8 AAEC")];
    let mut cache = DnsCache::new(vec![]);
    let q = query(9, [0x01, 0x00], "example.com", 48);
    let resp = answer(generate_dns_response(
        &q,
        String::from("example.com"),
        &mut cache,
        &cfg,
        0,
    ));
    assert_eq!(&resp[6..8], &[0, 1]); // ANCOUNT
    assert_eq!(resp[3] & 0x0F, 0);
    // DNSKEY RDATA: flags 256, protocol 3, algorithm 8, key AAEC
    assert_eq!(&resp[resp.len() - 7..], &[0x01, 0x00, 3, 8, 0, 1, 2]);
}

#[test]
fn dnskey_without_material_covers_queried_domain() {
    let path = "/tmp/nx9_test_dnskey_nx.db";
    empty_store(path);
    let cfg = config(true, path); // no DNSKEY material configured
    let mut cache = DnsCache::new(cfg.ns_records.clone());
    let q = query(10, [0x01, 0x00], "missing.example.com", 48);
    let resp = answer(generate_dns_response(
        &q,
        String::from("missing.example.com"),
        &mut cache,
        &cfg,
        0,
    ));
    assert_eq!(resp[3] & 0x0F, 3); // NXDOMAIN
    // the configured zone covers the queried name, so the answer is
    // authoritative and carries the zone's SOA and NS records
    assert_ne!(resp[2] & 0x04, 0);
    assert_eq!(&resp[8..10], &[0, 3]);
}

#[test]
fn stored_cname_record_dispatches() {
    let path = "/tmp/nx9_test_cname.db";
    let conn = empty_store(path);
    conn.execute(
        "INSERT INTO dns_records VALUES ('alias.example.com', 'CNAME', 'target.example.com.', 60)",
        (),
    )
    .unwrap();
    let cfg = config(false, path);
    let mut cache = DnsCache::new(vec![]);
    let q = query(11, [0x01, 0x00], "alias.example.com", 5);
    let resp = answer(generate_dns_response(
        &q,
        String::from("alias.example.com"),
        &mut cache,
        &cfg,
        0,
    ));
    assert_eq!(&resp[6..8], &[0, 1]);
    let enc = b"\x06target\x07example\x03com\x00";
    assert_eq!(&resp[resp.len() - enc.len()..], enc);
    assert_eq!(cache.entries.len(), 0); // only address answers fill the cache
}

#[test]
fn stored_a_record_answers_and_fills_cache() {
    let path = "/tmp/nx9_test_storea.db";
    let conn = empty_store(path);
    conn.execute(
        "INSERT INTO dns_records VALUES ('www.example.com', 'A', '192.0.2.7', 7200)",
        (),
    )
    .unwrap();
    let cfg = config(false, path);
    let mut cache = DnsCache::new(vec![]);
    let q = query(4, [0x01, 0x00], "www.example.com", 1);
    let resp = answer(generate_dns_response(
        &q,
        String::from("www.example.com"),
        &mut cache,
        &cfg,
        500,
    ));
    assert_eq!(&resp[resp.len() - 4..], &[192, 0, 2, 7]);
    assert_eq!(
        cache.get("www.example.com", 500),
        Some((String::from("192.0.2.7"), 7200))
    );
}

#[test]
fn store_rows_survive_round_trip() {
    let path = "/tmp/nx9_test_lookup.db";
    let conn = empty_store(path);
    conn.execute(
        "INSERT INTO dns_records VALUES ('example.com', 'MX', '10 mail.example.com.', 1800)",
        (),
    )
    .unwrap();
    let rows = lookup_records(path, "example.com");
    assert_eq!(rows.len(), 1);
    assert_eq!(
        rows[0],
        (String::from("10 mail.example.com."), 1800u64, String::from("MX"))
    );
    assert!(lookup_records(path, "other.example.com").is_empty());
}

#[test]
fn zones_fall_back_to_config() {
    let path = "/tmp/nx9_test_zones_empty.db";
    empty_store(path);
    let cfg = config(true, path);
    let zones = get_authoritative_zones(path, &cfg);
    assert_eq!(zones.len(), 1);
    assert_eq!(zones[0].name, "example.com");
    assert_eq!(zones[0].ns_records.len(), 2);
    assert_eq!(
        zones[0].soa_record.as_deref(),
        Some("ns1.example.com. hostmaster.example.com 1 10800 3600 604800 86400")
    );
}

#[test]
fn question_gate() {
    let q = query(1, [0x01, 0x00], "example.com", 1);
    assert!(question_ok_check(&q));
    assert!(!question_ok_check(&q[..11])); // header incomplete
    assert!(!question_ok_check(&q[..q.len() - 1])); // QCLASS incomplete
}

#[test]
fn clear_aa_on_short_input() {
    assert_eq!(clear_aa_bit(&[0xAB, 0xCD]), vec![0xAB, 0xCD]);
}

#[test]
fn seed_rows_for_default_domain() {
    let rows = nx9_dns_server::db::seed_records("example.com", "203.0.113.9");
    assert_eq!(rows.len(), 11);
    assert_eq!(
        rows[0],
        (
            String::from("example.com"),
            String::from("A"),
            String::from("203.0.113.9"),
            3600
        )
    );
    assert_eq!(rows[1].0, "www.example.com");
    assert_eq!(rows[6].2, "10 mail.example.com");
    assert_eq!(rows[7].2, "\"v=spf1 a mx ~all\"");
    assert_eq!(rows[8], (String::from("example.com"), String::from("NS"), String::from("ns1.example.com"), 3600));
    assert_eq!(
        rows[10].2,
        "ns1.example.com hostmaster.example.com 1 10800 3600 604800 86400"
    );
}

#[test]
fn opcode_extraction() {
    let q = query(1, [0x11, 0x00], "example.com", 1);
    assert_eq!(nx9_dns_server::utils::extract_opcode(&q), Some(2));
    let q0 = query(1, [0x01, 0x00], "example.com", 1);
    assert_eq!(nx9_dns_server::utils::extract_opcode(&q0), Some(0));
    assert_eq!(nx9_dns_server::utils::extract_opcode(&q0[..4]), None);
}

#[test]
fn closest_parent_zone_selection() {
    let zones = vec![
        ZoneInfo {
            name: String::from("example.com"),
            ns_records: vec![],
            soa_record: None,
        },
        ZoneInfo {
            name: String::from("sub.example.com"),
            ns_records: vec![],
            soa_record: None,
        },
    ];
    let z = find_closest_parent_zone("a.sub.example.com", &zones).unwrap();
    assert_eq!(z.name, "sub.example.com");
    let z2 = find_closest_parent_zone("example.com", &zones).unwrap();
    assert_eq!(z2.name, "example.com");
    assert!(find_closest_parent_zone("example.net", &zones).is_none());
}

fn contains(hay: &[u8], needle: &[u8]) -> bool {
    count(hay, needle) > 0
}

fn count(hay: &[u8], needle: &[u8]) -> usize {
    if needle.is_empty() || hay.len() < needle.len() {
        return 0;
    }
    let mut n = 0;
    for i in 0..=hay.len() - needle.len() {
        if &hay[i..i + needle.len()] == needle {
            n += 1;
        }
    }
    n
}
