use rucho::config::{parse_listen_address, pid_file_path, Config};
use rucho::timing::RequestTiming;

#[test]
fn test_default_config_values() {
    let config = Config::default();
    assert_eq!(config.prefix, "/usr/local/rucho");
    assert_eq!(config.log_level, "info");
    assert_eq!(config.server_listen_primary, "0.0.0.0:8080");
    assert_eq!(config.server_listen_secondary, "0.0.0.0:9090");
    assert_eq!(config.ssl_cert, None);
    assert_eq!(config.ssl_key, None);
}

#[test]
fn test_parse_listen_address_plain() {
    assert_eq!(
        parse_listen_address("0.0.0.0:8080"),
        Some(("0.0.0.0:8080".to_string(), false)),
    );
}

#[test]
fn test_parse_listen_address_ssl() {
    assert_eq!(
        parse_listen_address("0.0.0.0:8443 ssl"),
        Some(("0.0.0.0:8443".to_string(), true)),
    );
}

#[test]
fn test_parse_listen_address_empty() {
    assert_eq!(parse_listen_address(""), None);
}

#[test]
fn test_parse_listen_address_strips_repeated_markers() {
    assert_eq!(
        parse_listen_address("1.2.3.4:443 ssl ssl"),
        Some(("1.2.3.4:443".to_string(), true)),
    );
}

#[test]
fn test_pid_file_path_constant() {
    assert_eq!(pid_file_path(), "/var/run/rucho/rucho.pid");
}

#[test]
fn test_request_timing_elapsed() {
    let t = RequestTiming::at(5_000);
    assert_eq!(t.start, 5_000);
    assert_eq!(t.elapsed_at(12_345), 7_345);
    assert_eq!(t.elapsed_at(4_000), 0);
}

#[test]
fn test_request_timing_now_is_usable() {
    let t = RequestTiming::now();
    let e = t.elapsed_ms();
    assert!(e < 3_600_000);
}
