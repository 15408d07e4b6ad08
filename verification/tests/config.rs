use sysctl_mutator::config::Config;
use sysctl_mutator::json::{parse_sysctl_map, SysctlsParseError};

fn config_with_defaults(default_sysctls: &str) -> Config {
    Config {
        port: 8443,
        bind_address: "0.0.0.0".to_string(),
        tls_cert: String::new(),
        tls_key: String::new(),
        default_sysctls: default_sysctls.to_string(),
        disable_namespace_reflector: false,
        http2_keep_alive_interval_secs: 0,
        http2_keep_alive_timeout_secs: 20,
        http2_max_concurrent_streams: 0,
        disable_metrics: false,
        metrics_port: 9090,
        metrics_bind_address: "0.0.0.0".to_string(),
    }
}

#[test]
fn test_parse_default_sysctls_empty() {
    let config = Config {
        port: 8443,
        bind_address: "0.0.0.0".to_string(),
        tls_cert: String::new(),
        tls_key: String::new(),
        default_sysctls: "{}".to_string(),
        disable_namespace_reflector: false,
        http2_keep_alive_interval_secs: 0,
        http2_keep_alive_timeout_secs: 20,
        http2_max_concurrent_streams: 0,
        disable_metrics: false,
        metrics_port: 9090,
        metrics_bind_address: "0.0.0.0".to_string(),
    };
    let sysctls = config.parse_default_sysctls().unwrap();
    assert!(sysctls.is_empty());
}

#[test]
fn test_parse_default_sysctls_valid() {
    let config = Config {
        port: 8443,
        bind_address: "0.0.0.0".to_string(),
        tls_cert: String::new(),
        tls_key: String::new(),
        default_sysctls: r#"{"net.ipv4.ip_local_port_range": "1024 65000"}"#.to_string(),
        disable_namespace_reflector: false,
        http2_keep_alive_interval_secs: 0,
        http2_keep_alive_timeout_secs: 20,
        http2_max_concurrent_streams: 0,
        disable_metrics: false,
        metrics_port: 9090,
        metrics_bind_address: "0.0.0.0".to_string(),
    };
    let sysctls = config.parse_default_sysctls().unwrap();
    assert_eq!(sysctls.len(), 1);
    assert_eq!(
        sysctls.get("net.ipv4.ip_local_port_range").unwrap(),
        "1024 65000"
    );
}

#[test]
fn test_parse_default_sysctls_invalid() {
    let config = Config {
        port: 8443,
        bind_address: "0.0.0.0".to_string(),
        tls_cert: String::new(),
        tls_key: String::new(),
        default_sysctls: "invalid-json".to_string(),
        disable_namespace_reflector: false,
        http2_keep_alive_interval_secs: 0,
        http2_keep_alive_timeout_secs: 20,
        http2_max_concurrent_streams: 0,
        disable_metrics: false,
        metrics_port: 9090,
        metrics_bind_address: "0.0.0.0".to_string(),
    };
    assert!(config.parse_default_sysctls().is_err());
}

#[test]
fn parse_default_sysctls_reads_every_entry() {
    let config = config_with_defaults(
        r#"{"net.core.somaxconn": "1024", "net.ipv4.ip_local_port_range": "1024 65000"}"#,
    );
    let sysctls = config.parse_default_sysctls().unwrap();
    assert_eq!(sysctls.len(), 2);
    assert_eq!(sysctls.get("net.core.somaxconn").unwrap(), "1024");
    assert_eq!(sysctls.get("net.ipv4.ip_local_port_range").unwrap(), "1024 65000");
    assert!(sysctls.get("kernel.shmmax").is_none());
}

#[test]
fn parse_default_sysctls_later_duplicate_wins() {
    let config = config_with_defaults(r#"{"a": "1", "a": "2"}"#);
    let sysctls = config.parse_default_sysctls().unwrap();
    assert_eq!(sysctls.len(), 1);
    assert_eq!(sysctls.get("a").unwrap(), "2");
}

#[test]
fn parse_sysctl_map_refuses_non_string_values() {
    assert!(matches!(parse_sysctl_map(r#"{"a": 1}"#), Err(SysctlsParseError::Json(_))));
    assert!(parse_sysctl_map(r#"["a", "b"]"#).is_err());
    assert!(parse_sysctl_map("").is_err());
}

#[test]
fn parse_sysctl_map_keeps_unicode_and_spaces() {
    let m = parse_sysctl_map(r#"{ "k\u00e9y" : "v a l" }"#).unwrap();
    assert_eq!(m.len(), 1);
    assert_eq!(m.get("kéy").unwrap(), "v a l");
}
