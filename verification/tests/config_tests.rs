use presence_service::config::{parse_port, Config, ConfigError};

#[test]
fn missing_bus_url_is_fatal() {
    let r = Config::from_env(None, Some("3001".to_string()), None);
    assert_eq!(r.unwrap_err(), ConfigError::MissingBusUrl);
}

#[test]
fn defaults_apply() {
    let c = Config::from_env(Some("redis://localhost:6379".to_string()), None, None).unwrap();
    assert_eq!(c.redis_url, "redis://localhost:6379");
    assert_eq!(c.ws_port, 3001);
    assert_eq!(c.log_level, "info");
}

#[test]
fn explicit_values_win() {
    let c = Config::from_env(
        Some("redis://bus:6379".to_string()),
        Some("8080".to_string()),
        Some("debug".to_string()),
    )
    .unwrap();
    assert_eq!(c.redis_url, "redis://bus:6379");
    assert_eq!(c.ws_port, 8080);
    assert_eq!(c.log_level, "debug");
}

#[test]
fn bad_ports_are_rejected() {
    for bad in ["", "abc", "80a", "-1", "65536", "99999999999"] {
        let r = Config::from_env(
            Some("redis://localhost:6379".to_string()),
            Some(bad.to_string()),
            None,
        );
        assert_eq!(r.unwrap_err(), ConfigError::InvalidPort, "case: {bad}");
    }
}

#[test]
fn port_parsing_is_decimal() {
    assert_eq!(parse_port("0"), Some(0));
    assert_eq!(parse_port("3001"), Some(3001));
    assert_eq!(parse_port("65535"), Some(65535));
    assert_eq!(parse_port("000065535"), Some(65535));
    assert_eq!(parse_port("65536"), None);
    assert_eq!(parse_port(""), None);
    assert_eq!(parse_port("12 "), None);
}
