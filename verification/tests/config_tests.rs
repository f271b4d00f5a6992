use order_matching::api::handlers::{default_depth, OrderBookQuery};
use order_matching::metrics::{clamp_latency_micros, LATENCY_MAX_MICROS, LATENCY_MIN_MICROS};
use order_matching::models::health::HealthResponse;
use order_matching::{config_from, ServerConfig};

#[test]
fn test_server_config_default() {
    let config = ServerConfig::default();

    assert_eq!(config.host, "0.0.0.0");
    assert_eq!(config.port, 8080);
}

#[test]
fn test_server_config_new() {
    let config = ServerConfig::new("127.0.0.1".to_string(), 3000);

    assert_eq!(config.host, "127.0.0.1");
    assert_eq!(config.port, 3000);
}

#[test]
fn test_default_depth_is_ten() {
    assert_eq!(default_depth(), 10);
    assert_eq!(OrderBookQuery::default().depth, 10);
}

#[test]
fn test_health_response_healthy() {
    let h = HealthResponse::healthy(12, 34);
    assert_eq!(h.status, "healthy");
    assert_eq!(h.uptime_seconds, 12);
    assert_eq!(h.orders_processed, 34);
}

#[test]
fn test_latency_clamp() {
    assert_eq!(clamp_latency_micros(0), LATENCY_MIN_MICROS);
    assert_eq!(clamp_latency_micros(1), 1);
    assert_eq!(clamp_latency_micros(1500), 1500);
    assert_eq!(clamp_latency_micros(60_000_000), 60_000_000);
    assert_eq!(clamp_latency_micros(u64::MAX), LATENCY_MAX_MICROS);
}

#[test]
fn test_config_from_parts() {
    let c = config_from(None, None).unwrap();
    assert_eq!(c.host, "0.0.0.0");
    assert_eq!(c.port, 8080);

    let c = config_from(Some("127.0.0.1".to_string()), Some("3000".to_string())).unwrap();
    assert_eq!(c.host, "127.0.0.1");
    assert_eq!(c.port, 3000);

    assert_eq!(config_from(None, Some("+65535".to_string())).unwrap().port, 65535);
    assert_eq!(config_from(None, Some("00080".to_string())).unwrap().port, 80);

    for bad in ["", "+", "65536", "-1", " 80", "8o80", "99999999999999999999"] {
        assert_eq!(config_from(None, Some(bad.to_string())).unwrap_err(), "PORT must be a valid number");
    }
}
