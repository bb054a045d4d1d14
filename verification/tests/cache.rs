//! Answer-cache tests: TTL expiry, overwriting, and sweeping.

use nx9_dns_server::DnsCache;

#[test]
fn get_within_ttl() {
    let mut cache = DnsCache::new(vec![]);
    cache.set(String::from("example.com"), String::from("10.0.0.1"), 60, 100);
    assert_eq!(
        cache.get("example.com", 160),
        Some((String::from("10.0.0.1"), 60))
    );
}

#[test]
fn get_after_ttl_expires() {
    let mut cache = DnsCache::new(vec![]);
    cache.set(String::from("example.com"), String::from("10.0.0.1"), 60, 100);
    assert_eq!(cache.get("example.com", 161), None);
}

#[test]
fn get_survives_clock_going_backwards() {
    let mut cache = DnsCache::new(vec![]);
    cache.set(String::from("example.com"), String::from("10.0.0.1"), 60, 100);
    assert_eq!(
        cache.get("example.com", 50),
        Some((String::from("10.0.0.1"), 60))
    );
}

#[test]
fn set_overwrites() {
    let mut cache = DnsCache::new(vec![]);
    cache.set(String::from("example.com"), String::from("10.0.0.1"), 60, 100);
    cache.set(String::from("example.com"), String::from("10.0.0.2"), 90, 110);
    assert_eq!(
        cache.get("example.com", 120),
        Some((String::from("10.0.0.2"), 90))
    );
    assert_eq!(cache.entries.len(), 1);
}

#[test]
fn cleanup_removes_stale_entries() {
    let mut cache = DnsCache::new(vec![]);
    cache.set(String::from("old.example.com"), String::from("10.0.0.1"), 10, 100);
    cache.set(String::from("new.example.com"), String::from("10.0.0.2"), 600, 100);
    cache.cleanup(200);
    assert_eq!(cache.entries.len(), 1);
    assert_eq!(cache.get("old.example.com", 200), None);
    assert_eq!(
        cache.get("new.example.com", 200),
        Some((String::from("10.0.0.2"), 600))
    );
}

#[test]
fn miss_on_unknown_domain() {
    let cache = DnsCache::new(vec![String::from("ns1.example.com.")]);
    assert_eq!(cache.get("example.com", 0), None);
    assert_eq!(cache.ns_records.len(), 1);
}
