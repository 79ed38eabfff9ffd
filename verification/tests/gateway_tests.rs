use vibeserial::gateway::{
    receive_buffer_len, GatewayConfig, GatewayError, GatewayLink, LinkStep,
};

#[test]
fn default_gateway_config() {
    let c = GatewayConfig::default();
    assert_eq!(c.host, "127.0.0.1");
    assert_eq!(c.port, 9000);
    assert_eq!(c.connect_timeout_ms, 1_000);
    assert_eq!(c.read_timeout_ms, 1_000);
    assert_eq!(c.write_timeout_ms, 1_000);
    assert!(c.auto_reconnect);
}

#[test]
fn link_without_reconnect_refuses() {
    let config = GatewayConfig { auto_reconnect: false, ..GatewayConfig::default() };
    let link = GatewayLink::new(&config);
    assert_eq!(link.step(), LinkStep::Refuse);
    assert_eq!(GatewayError::NotConnected.message(), "not connected");
}

#[test]
fn link_reconnects_and_counts() {
    let mut link = GatewayLink::new(&GatewayConfig::default());
    assert_eq!(link.step(), LinkStep::Reconnect);
    link.reconnected();
    assert_eq!(link.step(), LinkStep::Ready);
    assert_eq!(link.reconnect_count(), 1);
    link.disconnected();
    assert!(!link.is_connected());
    link.connected();
    assert_eq!(link.reconnect_count(), 1);
}

#[test]
fn buffer_is_at_least_one_byte() {
    assert_eq!(receive_buffer_len(0), 1);
    assert_eq!(receive_buffer_len(64), 64);
}

#[test]
fn gateway_error_messages() {
    assert_eq!(GatewayError::Resolve("x".to_string()).message(), "resolve error: x");
    assert_eq!(GatewayError::Connect("y".to_string()).message(), "connect error: y");
    assert_eq!(GatewayError::Io("z".to_string()).message(), "io error: z");
}
