use horbo::consistent_hash::{build, Ring};
use horbo::decimal::decimal_string;
use horbo::error::ErrorResponse;
use horbo::hash::ip_to_hash;
use horbo::pool::NodePool;

fn endpoints(n: usize) -> Vec<String> {
    (0..n).map(|i| format!("10.0.{}.{}:7000", i / 250, i % 250)).collect()
}

fn ids(ring: &Ring) -> Vec<u32> {
    ring.nodes().iter().map(|n| n.id).collect()
}

/// A client identifier whose position lies in `(low, high]`.
fn client_between(low: u32, high: u32) -> String {
    (0..2_000_000u32)
        .map(|i| format!("client-{}", i))
        .find(|c| {
            let h = ip_to_hash(c);
            h > low && h <= high
        })
        .expect("no client found in range")
}

/// A client identifier whose position lies above `low`.
fn client_above(low: u32) -> String {
    (0..2_000_000u32)
        .map(|i| format!("client-{}", i))
        .find(|c| ip_to_hash(c) > low)
        .expect("no client found above")
}

#[test]
fn build_sorts_members_strictly_ascending() {
    let ring = build("auth".to_string(), endpoints(40));
    let got = ids(&ring);
    assert_eq!(got.len(), 40);
    for w in got.windows(2) {
        assert!(w[0] < w[1]);
    }
    for node in ring.nodes() {
        assert_eq!(node.id, ip_to_hash(&node.ip));
        assert!(node.healthy);
    }
    assert_eq!(ring.namespace(), "auth");
}

#[test]
fn build_keeps_one_member_per_position() {
    let mut list = endpoints(5);
    list.push(list[2].clone());
    list.push(list[0].clone());
    let ring = build("auth".to_string(), list);
    assert_eq!(ring.len(), 5);
    let got = ids(&ring);
    let mut dedup = got.clone();
    dedup.dedup();
    assert_eq!(got, dedup);
}

#[test]
fn add_server_is_idempotent() {
    let mut ring = build("auth".to_string(), endpoints(3));
    let before = ring.len();
    let first = ring.add_server("10.9.9.9:7000".to_string()).unwrap();
    for _ in 0..5 {
        let again = ring.add_server("10.9.9.9:7000".to_string()).unwrap();
        assert_eq!(again, first);
    }
    assert_eq!(first, ip_to_hash("10.9.9.9:7000"));
    assert_eq!(ring.len(), before + 1);
    for w in ids(&ring).windows(2) {
        assert!(w[0] < w[1]);
    }
}

#[test]
fn set_health_status_keeps_positions() {
    let mut ring = build("auth".to_string(), endpoints(10));
    let before = ids(&ring);
    let target = ring.nodes()[4].ip.clone();
    ring.set_health_status(target.clone(), false).unwrap();
    assert_eq!(ids(&ring), before);
    assert!(!ring.nodes()[4].healthy);
    assert!(ring.nodes().iter().enumerate().all(|(i, n)| i == 4 || n.healthy));
    ring.set_health_status(target.clone(), false).unwrap();
    assert!(!ring.nodes()[4].healthy);
    ring.set_health_status(target, true).unwrap();
    assert_eq!(ids(&ring), before);
    assert!(ring.nodes().iter().all(|n| n.healthy));
}

#[test]
fn set_health_status_of_stranger_is_bad_request() {
    let mut ring = build("auth".to_string(), endpoints(3));
    match ring.set_health_status("192.168.1.1:1".to_string(), false) {
        Err(ErrorResponse::BadRequest(m)) => {
            assert_eq!(m, "can't find service inside the namespace")
        }
        other => panic!("unexpected {:?}", other),
    }
}

#[test]
fn lookup_on_empty_ring_is_internal_error() {
    let ring = build("auth".to_string(), Vec::new());
    match ring.get("10.1.1.1".to_string()) {
        Err(ErrorResponse::Internal(m)) => assert_eq!(m, "no service found in namespace"),
        other => panic!("unexpected {:?}", other),
    }
}

#[test]
fn lookup_without_healthy_member_is_internal_error() {
    let mut ring = build("auth".to_string(), endpoints(2));
    for ip in endpoints(2) {
        ring.set_health_status(ip, false).unwrap();
    }
    match ring.get("10.1.1.1".to_string()) {
        Err(ErrorResponse::Internal(m)) => {
            assert_eq!(m, "no healthy service found in namespace")
        }
        other => panic!("unexpected {:?}", other),
    }
}

#[test]
fn lookup_picks_first_healthy_at_or_above_client() {
    let ring = build("auth".to_string(), endpoints(6));
    let got = ids(&ring);
    let client = client_between(got[1], got[2]);
    assert_eq!(ring.get(client).unwrap(), got[2].to_string());
}

#[test]
fn lookup_wraps_to_single_healthy_member() {
    let ring = build("auth".to_string(), vec!["10.0.0.7:7000".to_string()]);
    let id = ip_to_hash("10.0.0.7:7000");
    let client = client_above(id);
    assert_eq!(ring.get(client).unwrap(), id.to_string());
}

#[test]
fn lookup_wraps_to_first_healthy_member() {
    let mut ring = build("auth".to_string(), endpoints(4));
    let got = ids(&ring);
    let first_ip = ring.nodes()[0].ip.clone();
    ring.set_health_status(first_ip, false).unwrap();
    let client = client_above(got[3]);
    assert_eq!(ring.get(client).unwrap(), got[1].to_string());
}

#[test]
fn lookup_is_sticky_while_health_is_unchanged() {
    let ring = build("auth".to_string(), endpoints(8));
    for i in 0..50 {
        let c = format!("172.16.0.{}", i);
        let first = ring.get(c.clone()).unwrap();
        let second = ring.get(c).unwrap();
        assert_eq!(first, second);
    }
}

#[test]
fn remove_server_drops_only_that_member() {
    let mut ring = build("auth".to_string(), endpoints(5));
    let before = ids(&ring);
    let victim = ring.nodes()[2].ip.clone();
    ring.remove_server(victim.clone());
    let after = ids(&ring);
    let mut expected = before.clone();
    expected.remove(2);
    assert_eq!(after, expected);
    ring.remove_server(victim);
    assert_eq!(ids(&ring), expected);
}

#[test]
fn repr_reports_every_member() {
    let ring = build("billing".to_string(), endpoints(3));
    let records = ring.repr();
    assert_eq!(records.len(), 3);
    for (rec, node) in records.iter().zip(ring.nodes()) {
        assert_eq!(rec.id, node.id.to_string());
        assert_eq!(rec.ip_address, node.ip);
        assert_eq!(rec.namespace, "billing");
    }
}

#[test]
fn decimal_string_exact_values() {
    assert_eq!(decimal_string(0), "0");
    assert_eq!(decimal_string(7), "7");
    assert_eq!(decimal_string(10), "10");
    assert_eq!(decimal_string(12345), "12345");
    assert_eq!(decimal_string(u32::MAX), "4294967295");
}
