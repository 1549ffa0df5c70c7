use horbo::consistent_hash::build;
use horbo::data::{NodeRecord, UtilizationMetric};
use horbo::error::ErrorResponse;
use horbo::hash::ip_to_hash;
use horbo::pool::NodePool;
use horbo::service_discovery::{ServiceDefinition, ServiceDiscovery};

fn metric(cpu: f32, mem: f32) -> UtilizationMetric {
    UtilizationMetric { cpu_usage_bits: cpu.to_bits(), memory_usage_bits: mem.to_bits() }
}

fn catalogue(entries: Vec<(&str, Vec<String>)>) -> ServiceDiscovery {
    ServiceDiscovery::from_definition(ServiceDefinition {
        services: entries.into_iter().map(|(n, ips)| (n.to_string(), ips)).collect(),
    })
}

/// Three endpoints ordered by position: (A, B, C).
fn three_sorted() -> (String, String, String) {
    let mut v: Vec<String> = (1..=3).map(|i| format!("10.0.0.{}:7000", i)).collect();
    v.sort_by_key(|s| ip_to_hash(s));
    (v[0].clone(), v[1].clone(), v[2].clone())
}

fn client_between(low: u32, high: u32) -> String {
    (0..2_000_000u32)
        .map(|i| format!("client-{}", i))
        .find(|c| {
            let h = ip_to_hash(c);
            h > low && h <= high
        })
        .expect("no client found in range")
}

fn healthy_of(sd: &ServiceDiscovery, ns: &str, ip: &str) -> bool {
    let ring = sd.ring(&ns.to_string()).unwrap();
    ring.nodes().iter().find(|n| n.id == ip_to_hash(ip)).unwrap().healthy
}

fn lists(report: &[NodeRecord], ip: &str) -> bool {
    report.iter().any(|r| r.ip_address == ip)
}

#[test]
fn register_idempotent() {
    let mut sd = catalogue(vec![("auth", vec![])]);
    let a = sd.register_node("auth".to_string(), "10.0.0.1".to_string()).unwrap();
    let b = sd.register_node("auth".to_string(), "10.0.0.1".to_string()).unwrap();
    assert_eq!(a, b);
    assert_eq!(a, ip_to_hash("10.0.0.1"));
    assert!(a <= 0x00FF_FFFF);
    assert_eq!(sd.ring(&"auth".to_string()).unwrap().len(), 1);
}

#[test]
fn register_many_times_grows_by_one() {
    let mut sd = catalogue(vec![("auth", vec!["10.0.0.9:1".to_string()])]);
    for _ in 0..7 {
        let id = sd.register_node("auth".to_string(), "10.0.0.1".to_string()).unwrap();
        assert_eq!(id, ip_to_hash("10.0.0.1"));
    }
    assert_eq!(sd.ring(&"auth".to_string()).unwrap().len(), 2);
}

#[test]
fn register_unknown_namespace() {
    let mut sd = catalogue(vec![("auth", vec![])]);
    match sd.register_node("payments".to_string(), "10.0.0.1".to_string()) {
        Err(ErrorResponse::BadRequest(m)) => assert_eq!(m, "namespace not found"),
        other => panic!("unexpected {:?}", other),
    }
    assert_eq!(sd.ring(&"auth".to_string()).unwrap().len(), 0);
    assert!(sd.ring(&"payments".to_string()).is_none());
}

#[test]
fn lookup_picks_next_healthy_clockwise() {
    let (a, b, c) = three_sorted();
    let mut sd = catalogue(vec![("auth", vec![a.clone(), b.clone(), c.clone()])]);
    sd.mark_node_unhealthy("auth".to_string(), b.clone()).unwrap();
    let x = client_between(ip_to_hash(&a), ip_to_hash(&b));
    let expected = ip_to_hash(&c).to_string();
    for _ in 0..3 {
        assert_eq!(sd.service_lookup("auth".to_string(), x.clone()).unwrap(), expected);
    }
}

#[test]
fn heartbeat_crosses_threshold() {
    let (a, b, c) = three_sorted();
    let mut sd = catalogue(vec![("auth", vec![a.clone(), b.clone(), c.clone()])]);
    sd.mark_node_unhealthy("auth".to_string(), b.clone()).unwrap();
    let report = sd.node_heartbeat("auth".to_string(), a.clone(), metric(1.0, 1.0)).unwrap();
    assert!(lists(&report, &b));
    let report = sd.node_heartbeat("auth".to_string(), b.clone(), metric(10.0, 10.0)).unwrap();
    assert!(healthy_of(&sd, "auth", &b));
    assert!(!lists(&report, &b));
    assert!(report.is_empty());
    let x = client_between(ip_to_hash(&a), ip_to_hash(&b));
    assert_eq!(sd.service_lookup("auth".to_string(), x).unwrap(), ip_to_hash(&b).to_string());
}

#[test]
fn heartbeat_over_limits_marks_unhealthy_and_reports() {
    let (a, b, c) = three_sorted();
    let mut sd = catalogue(vec![("auth", vec![a.clone(), b.clone(), c.clone()])]);
    let report = sd.node_heartbeat("auth".to_string(), c.clone(), metric(95.0, 10.0)).unwrap();
    assert!(!healthy_of(&sd, "auth", &c));
    assert_eq!(report.len(), 1);
    assert_eq!(report[0].ip_address, c);
    assert_eq!(report[0].id, ip_to_hash(&c).to_string());
    assert_eq!(report[0].namespace, "auth");
}

#[test]
fn lookup_empty_ring() {
    let sd = catalogue(vec![("auth", vec![])]);
    match sd.service_lookup("auth".to_string(), "192.168.0.5:4444".to_string()) {
        Err(ErrorResponse::Internal(m)) => assert_eq!(m, "no service found in namespace"),
        other => panic!("unexpected {:?}", other),
    }
}

#[test]
fn lookup_unknown_namespace() {
    let sd = catalogue(vec![("auth", vec!["10.0.0.1".to_string()])]);
    match sd.service_lookup("billing".to_string(), "192.168.0.5".to_string()) {
        Err(ErrorResponse::BadRequest(m)) => assert_eq!(m, "namespace not found"),
        other => panic!("unexpected {:?}", other),
    }
}

#[test]
fn failure_report_about_peer() {
    let (a, b, c) = three_sorted();
    let mut sd = catalogue(vec![("auth", vec![a.clone(), b.clone(), c.clone()])]);
    sd.mark_node_unhealthy("auth".to_string(), b.clone()).unwrap();
    assert!(!healthy_of(&sd, "auth", &b));
    let bid = ip_to_hash(&b).to_string();
    for i in 0..300 {
        let got = sd.service_lookup("auth".to_string(), format!("client-{}", i)).unwrap();
        assert_ne!(got, bid);
    }
    let comp = sd.unhealthy_ring(&"auth".to_string()).unwrap();
    assert_eq!(comp.len(), 1);
    assert_eq!(comp.nodes()[0].id, ip_to_hash(&b));
}

#[test]
fn failure_report_on_unknown_namespace_is_ignored() {
    let mut sd = catalogue(vec![("auth", vec!["10.0.0.1".to_string()])]);
    assert!(sd.mark_node_unhealthy("payments".to_string(), "10.0.0.1".to_string()).is_ok());
    assert!(healthy_of(&sd, "auth", "10.0.0.1"));
}

#[test]
fn failure_report_on_stranger_is_bad_request() {
    let mut sd = catalogue(vec![("auth", vec!["10.0.0.1".to_string()])]);
    match sd.mark_node_unhealthy("auth".to_string(), "10.0.0.2".to_string()) {
        Err(ErrorResponse::BadRequest(m)) => {
            assert_eq!(m, "can't find service inside the namespace")
        }
        other => panic!("unexpected {:?}", other),
    }
    assert_eq!(sd.unhealthy_ring(&"auth".to_string()).unwrap().len(), 0);
}

#[test]
fn heartbeat_from_unknown_namespace_still_reports() {
    let mut sd = catalogue(vec![("auth", vec!["10.0.0.1".to_string()])]);
    sd.mark_node_unhealthy("auth".to_string(), "10.0.0.1".to_string()).unwrap();
    let report = sd
        .node_heartbeat("payments".to_string(), "10.0.0.1".to_string(), metric(1.0, 1.0))
        .unwrap();
    assert_eq!(report.len(), 1);
    assert_eq!(report[0].ip_address, "10.0.0.1");
    assert!(!healthy_of(&sd, "auth", "10.0.0.1"));
}

#[test]
fn heartbeat_from_stranger_is_bad_request() {
    let mut sd = catalogue(vec![("auth", vec!["10.0.0.1".to_string()])]);
    match sd.node_heartbeat("auth".to_string(), "10.0.0.2".to_string(), metric(1.0, 1.0)) {
        Err(ErrorResponse::BadRequest(m)) => {
            assert_eq!(m, "can't find service inside the namespace")
        }
        other => panic!("unexpected {:?}", other),
    }
}

#[test]
fn companion_matches_unhealthy_members_after_reports() {
    let ips: Vec<String> = (1..=6).map(|i| format!("10.0.1.{}:7000", i)).collect();
    let mut sd = catalogue(vec![("auth", ips.clone()), ("billing", vec![ips[0].clone()])]);
    sd.mark_node_unhealthy("auth".to_string(), ips[1].clone()).unwrap();
    sd.mark_node_unhealthy("auth".to_string(), ips[4].clone()).unwrap();
    sd.mark_node_unhealthy("auth".to_string(), ips[1].clone()).unwrap();
    sd.node_heartbeat("auth".to_string(), ips[4].clone(), metric(0.0, 0.0)).unwrap();
    sd.mark_node_unhealthy("billing".to_string(), ips[0].clone()).unwrap();
    for ns in ["auth", "billing"] {
        let ring = sd.ring(&ns.to_string()).unwrap();
        let comp = sd.unhealthy_ring(&ns.to_string()).unwrap();
        let mut unhealthy: Vec<u32> =
            ring.nodes().iter().filter(|n| !n.healthy).map(|n| n.id).collect();
        unhealthy.sort();
        let held: Vec<u32> = comp.nodes().iter().map(|n| n.id).collect();
        assert_eq!(unhealthy, held);
    }
    assert_eq!(sd.unhealthy_ring(&"auth".to_string()).unwrap().len(), 1);
}

#[test]
fn heartbeat_threshold_follows_float_comparison() {
    let values = [
        0.0f32, -0.0, 10.0, 79.9, 79.99999, 80.0, 80.00001, 84.9, 85.0, 85.5, 100.0, -5.0,
        f32::NAN, -f32::NAN, f32::INFINITY, f32::NEG_INFINITY, f32::MIN_POSITIVE, 1e30,
    ];
    for &cpu in &values {
        for &mem in &values {
            let m = metric(cpu, mem);
            assert_eq!(m.is_healthy(), cpu < 80.0 && mem < 85.0, "cpu {} mem {}", cpu, mem);
        }
    }
}

#[test]
fn heartbeat_sets_health_by_threshold() {
    let mut sd = catalogue(vec![("auth", vec!["10.0.0.1".to_string()])]);
    let cases = [(10.0, 10.0, true), (80.0, 10.0, false), (79.0, 84.9, true), (10.0, 85.0, false)];
    for (cpu, mem, healthy) in cases {
        sd.node_heartbeat("auth".to_string(), "10.0.0.1".to_string(), metric(cpu, mem)).unwrap();
        assert_eq!(healthy_of(&sd, "auth", "10.0.0.1"), healthy);
    }
}

#[test]
fn later_ring_for_same_namespace_replaces_earlier() {
    let first = build("auth".to_string(), vec!["10.0.0.1".to_string()]);
    let second = build("auth".to_string(), vec!["10.0.0.2".to_string(), "10.0.0.3".to_string()]);
    let sd = ServiceDiscovery::new(vec![first, second]);
    assert_eq!(sd.ring(&"auth".to_string()).unwrap().len(), 2);
}

#[test]
fn new_mirrors_unhealthy_members_of_given_rings() {
    let mut ring = build("auth".to_string(), vec!["10.0.0.1".to_string(), "10.0.0.2".to_string()]);
    ring.set_health_status("10.0.0.2".to_string(), false).unwrap();
    let sd = ServiceDiscovery::new(vec![ring]);
    let comp = sd.unhealthy_ring(&"auth".to_string()).unwrap();
    assert_eq!(comp.len(), 1);
    assert_eq!(comp.nodes()[0].id, ip_to_hash("10.0.0.2"));
}

#[test]
fn error_display_forms() {
    let e = ErrorResponse::Internal("boom".to_string());
    assert_eq!(e.to_string(), "internal error: boom");
    let e = ErrorResponse::BadRequest("namespace not found".to_string());
    assert_eq!(e.to_string(), "bad request: namespace not found");
}
