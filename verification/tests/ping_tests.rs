use pingpong::config::{Host, PingConfig};
use pingpong::ping::{PingEngine, PingEvent};
use pingpong::stats::PingResult;

fn host(name: &str, address: &str, enabled: bool) -> Host {
    Host {
        name: name.to_string(),
        address: address.to_string(),
        enabled,
        interval_ms: None,
    }
}

fn ping_config() -> PingConfig {
    PingConfig { interval_ms: 1000, timeout_ms: 5000, history_size: 100, packet_size: 32 }
}

#[test]
fn test_host_id_generation() {
    let id1 = PingEngine::generate_host_id("127.0.0.1");
    let id2 = PingEngine::generate_host_id("127.0.0.1");
    let id3 = PingEngine::generate_host_id("8.8.8.8");

    assert_eq!(id1, id2, "Same address should generate same ID");
    assert_ne!(id1, id3, "Different addresses should generate different IDs");
}

#[test]
fn host_ids_are_prefixed_hyphenated_uuids() {
    let id = PingEngine::generate_host_id("127.0.0.1");
    // "host_" plus the 36-character hyphenated UUID.
    assert_eq!(id.len(), 41);
    assert!(id.starts_with("host_"));
    let bytes = id.as_bytes();
    assert_eq!(bytes[13], b'-');
    assert_eq!(bytes[18], b'-');
    assert_eq!(bytes[23], b'-');
    assert_eq!(bytes[28], b'-');
    // The identifier is a digest, not the address spliced in.
    assert_ne!(id, "host_127.0.0.1");
}

#[test]
fn engine_reports_enabled_hosts_only() {
    let hosts = vec![
        host("localhost", "127.0.0.1", true),
        host("disabled", "192.0.2.1", false),
        host("dns", "8.8.8.8", true),
    ];
    let engine = PingEngine::new(hosts, ping_config());
    let info = engine.get_host_info();
    assert_eq!(info.len(), 2);
    assert_eq!(info[0].0, PingEngine::generate_host_id("127.0.0.1"));
    assert_eq!(info[0].1, "localhost");
    assert_eq!(info[1].0, PingEngine::generate_host_id("8.8.8.8"));
    assert_eq!(info[1].1, "dns");
}

#[test]
fn engine_sets_up_one_tracker_per_address() {
    let hosts = vec![
        host("a", "127.0.0.1", true),
        host("b", "8.8.8.8", true),
        host("a again", "127.0.0.1", true),
    ];
    let engine = PingEngine::new(hosts, ping_config());
    let stats = engine.get_stats();
    assert_eq!(stats.len(), 2);
    for (_, tracker) in &stats {
        assert_eq!(tracker.total_pings(), 0);
    }
}

#[test]
fn events_fold_into_the_matching_tracker() {
    let hosts = vec![host("a", "127.0.0.1", true), host("b", "8.8.8.8", true)];
    let mut engine = PingEngine::new(hosts, ping_config());
    let id_a = PingEngine::generate_host_id("127.0.0.1");
    let id_b = PingEngine::generate_host_id("8.8.8.8");

    engine.record_event(&PingEvent {
        host_id: id_a.clone(),
        host_name: "a".to_string(),
        result: PingResult::Success { rtt: 10_000, sequence: 0, timestamp: 0 },
    });
    engine.record_event(&PingEvent {
        host_id: id_a.clone(),
        host_name: "a".to_string(),
        result: PingResult::Timeout { sequence: 1, timestamp: 1 },
    });
    engine.record_event(&PingEvent {
        host_id: id_b.clone(),
        host_name: "b".to_string(),
        result: PingResult::Success { rtt: 20_000, sequence: 0, timestamp: 0 },
    });

    let stats = engine.get_stats();
    let a = stats.iter().find(|(id, _)| *id == id_a).expect("tracker for a");
    let b = stats.iter().find(|(id, _)| *id == id_b).expect("tracker for b");
    assert_eq!(a.1.total_pings(), 2);
    assert_eq!(a.1.successful_pings(), 1);
    assert_eq!(a.1.timeouts(), 1);
    assert_eq!(b.1.total_pings(), 1);
    assert_eq!(b.1.successful_pings(), 1);
}

#[test]
fn unknown_host_ids_get_a_tracker_on_first_event() {
    let mut engine = PingEngine::new(Vec::new(), ping_config());
    let id = PingEngine::generate_host_id("203.0.113.9");
    engine.record_event(&PingEvent {
        host_id: id.clone(),
        host_name: "late".to_string(),
        result: PingResult::Error {
            error: "network unreachable".to_string(),
            sequence: 0,
            timestamp: 0,
        },
    });
    let stats = engine.get_stats();
    assert_eq!(stats.len(), 1);
    assert_eq!(stats[0].0, id);
    assert_eq!(stats[0].1.total_pings(), 1);
    assert_eq!(stats[0].1.errors(), 1);
}

#[test]
fn events_clone_faithfully() {
    let event = PingEvent {
        host_id: "host_x".to_string(),
        host_name: "x".to_string(),
        result: PingResult::Success { rtt: 5_000, sequence: 3, timestamp: 9 },
    };
    let copy = event.clone();
    assert_eq!(copy.host_id, event.host_id);
    assert_eq!(copy.host_name, event.host_name);
    assert_eq!(copy.result.sequence(), 3);
    assert_eq!(copy.result.rtt(), Some(5_000));
}
