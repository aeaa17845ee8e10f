use pingpong::config::{default_true, AnimationType, Config, Host};

#[test]
fn the_built_in_configuration() {
    let config = Config::default();
    assert_eq!(config.ping.interval_ms, 1000);
    assert_eq!(config.ping.timeout_ms, 3000);
    assert_eq!(config.ping.history_size, 300);
    assert_eq!(config.ping.packet_size, 32);

    assert_eq!(config.hosts.len(), 3);
    assert_eq!(config.hosts[0].name, "Google DNS");
    assert_eq!(config.hosts[0].address, "8.8.8.8");
    assert!(config.hosts[0].enabled);
    assert_eq!(config.hosts[1].name, "Cloudflare DNS");
    assert_eq!(config.hosts[1].address, "1.1.1.1");
    assert_eq!(config.hosts[2].name, "Google");
    assert_eq!(config.hosts[2].address, "google.com");

    assert_eq!(config.ui.refresh_rate, 100);
    assert_eq!(config.ui.theme, "auto");
    assert!(config.ui.show_details);
    assert_eq!(config.ui.graph_height, 10);
}

#[test]
fn added_numeric_addresses_are_labelled() {
    let mut config = Config::default();
    config.add_host("8.8.4.4".to_string());
    let added = config.hosts.last().expect("host added");
    assert_eq!(added.name, "IP 8.8.4.4");
    assert_eq!(added.address, "8.8.4.4");
    assert!(added.enabled);
    assert_eq!(added.interval_ms, None);
}

#[test]
fn added_hostnames_name_themselves() {
    let mut config = Config::default();
    config.add_host("example.com".to_string());
    let added = config.hosts.last().expect("host added");
    assert_eq!(added.name, "example.com");
    assert_eq!(added.address, "example.com");
}

#[test]
fn set_interval_replaces_only_the_interval() {
    let mut config = Config::default();
    config.set_interval(250);
    assert_eq!(config.ping.interval_ms, 250);
    assert_eq!(config.ping.timeout_ms, 3000);
    assert_eq!(config.ping.history_size, 300);
}

#[test]
fn enabled_hosts_filters_in_order() {
    let mut config = Config::default();
    config.hosts = vec![
        Host {
            name: "a".to_string(),
            address: "10.0.0.1".to_string(),
            enabled: true,
            interval_ms: None,
        },
        Host {
            name: "b".to_string(),
            address: "10.0.0.2".to_string(),
            enabled: false,
            interval_ms: Some(500),
        },
        Host {
            name: "c".to_string(),
            address: "10.0.0.3".to_string(),
            enabled: true,
            interval_ms: Some(2000),
        },
    ];
    let enabled = config.enabled_hosts();
    assert_eq!(enabled.len(), 2);
    assert_eq!(enabled[0].name, "a");
    assert_eq!(enabled[1].name, "c");
    assert_eq!(enabled[1].interval_ms, Some(2000));
}

#[test]
fn per_host_interval_overrides_the_global_default() {
    let config = Config::default();
    let plain = Host {
        name: "plain".to_string(),
        address: "10.0.0.1".to_string(),
        enabled: true,
        interval_ms: None,
    };
    let custom = Host {
        name: "custom".to_string(),
        address: "10.0.0.2".to_string(),
        enabled: true,
        interval_ms: Some(250),
    };
    assert_eq!(plain.effective_interval_ms(&config.ping), 1000);
    assert_eq!(custom.effective_interval_ms(&config.ping), 250);
}

#[test]
fn animation_kinds_are_plain_values() {
    let chosen = AnimationType::Matrix;
    let copy = chosen;
    assert_eq!(copy, AnimationType::Matrix);
    assert_ne!(copy, AnimationType::Plasma);
    let all = [
        AnimationType::Plasma,
        AnimationType::Globe,
        AnimationType::BouncingLogo,
        AnimationType::Matrix,
        AnimationType::Dna,
        AnimationType::Waveform,
    ];
    assert_eq!(all.len(), 6);
}

#[test]
fn absent_flags_default_to_true() {
    assert!(default_true());
}

#[test]
fn configurations_clone_faithfully() {
    let mut config = Config::default();
    config.add_host("192.0.2.7".to_string());
    let copy = config.clone();
    assert_eq!(copy.ping, config.ping);
    assert_eq!(copy.hosts.len(), config.hosts.len());
    assert_eq!(copy.hosts.last().unwrap().name, "IP 192.0.2.7");
    assert_eq!(copy.ui.theme, config.ui.theme);
}
