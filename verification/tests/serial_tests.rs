use vibeserial::serial::{
    EncodingMode, FlowControl, MemoryTransport, Parity, SerialError, SerialOpenConfig,
    SerialSessionManager, Transport,
};

#[test]
fn memory_transport_send_and_receive() {
    let mut transport = MemoryTransport::new();
    let config = SerialOpenConfig::default();

    transport.open(&config).unwrap();
    transport.send(b"abc").unwrap();
    transport.push_inbound(b"xyz");

    assert_eq!(transport.take_outbound(), b"abc");
    assert_eq!(transport.receive().unwrap(), b"xyz");
}

#[test]
fn session_manager_open_send_receive() {
    let mut manager = SerialSessionManager::new();
    let config = SerialOpenConfig::default();

    manager
        .open_session("s1", config, MemoryTransport::new())
        .unwrap();

    manager.send("s1", b"hello").unwrap();
    manager
        .transport_mut("s1")
        .unwrap()
        .push_inbound(b"world");

    let data = manager.receive("s1").unwrap();
    assert_eq!(data, b"world");
}

#[test]
fn default_config_values() {
    let c = SerialOpenConfig::default();
    assert_eq!(c.endpoint, "loopback");
    assert_eq!(c.baud_rate, 115_200);
    assert_eq!(c.data_bits, 8);
    assert_eq!(c.stop_bits, 1);
    assert_eq!(c.parity, Parity::NoParity);
    assert_eq!(c.flow_control, FlowControl::NoFlowControl);
    assert_eq!(c.encoding, EncodingMode::Utf8);
    assert!(c.auto_reconnect);
}

#[test]
fn closed_memory_transport_refuses_io() {
    let mut t = MemoryTransport::new();
    assert!(!t.is_open());
    assert!(matches!(t.send(b"x"), Err(SerialError::Io(m)) if m == "transport closed"));
    t.push_inbound(b"q");
    assert!(matches!(t.receive(), Err(SerialError::Io(_))));
    t.open(&SerialOpenConfig::default()).unwrap();
    assert_eq!(t.receive().unwrap(), b"q");
    assert_eq!(t.receive().unwrap(), b"");
    t.close().unwrap();
    assert!(!t.is_open());
    assert_eq!(t.take_outbound(), b"");
}

#[test]
fn duplicate_session_is_refused() {
    let mut m = SerialSessionManager::new();
    m.open_session("a", SerialOpenConfig::default(), MemoryTransport::new()).unwrap();
    let err = m
        .open_session("a", SerialOpenConfig::default(), MemoryTransport::new())
        .unwrap_err();
    assert!(matches!(err, SerialError::AlreadyOpen(ref id) if id == "a"));
    assert_eq!(err.message(), "session already open: a");
    assert_eq!(m.list_sessions().len(), 1);
}

#[test]
fn unknown_session_is_not_found() {
    let mut m: SerialSessionManager<MemoryTransport> = SerialSessionManager::new();
    assert!(matches!(m.send("x", b"1"), Err(SerialError::NotFound(ref id)) if id == "x"));
    assert!(matches!(m.receive("x"), Err(SerialError::NotFound(_))));
    assert!(matches!(m.close_session("x"), Err(SerialError::NotFound(_))));
    assert!(m.transport_mut("x").is_none());
}

#[test]
fn close_session_forgets_it() {
    let mut m = SerialSessionManager::new();
    m.open_session("a", SerialOpenConfig::default(), MemoryTransport::new()).unwrap();
    m.open_session("b", SerialOpenConfig::default(), MemoryTransport::new()).unwrap();
    m.close_session("a").unwrap();
    let infos = m.list_sessions();
    assert_eq!(infos.len(), 1);
    assert_eq!(infos[0].session_id, "b");
    assert!(matches!(m.send("a", b"1"), Err(SerialError::NotFound(_))));
}

#[test]
fn receive_reconnects_closed_transport() {
    let mut m = SerialSessionManager::new();
    m.open_session("a", SerialOpenConfig::default(), MemoryTransport::new()).unwrap();
    m.transport_mut("a").unwrap().close().unwrap();
    assert!(matches!(m.send("a", b"1"), Err(SerialError::NotOpen(_))));
    m.transport_mut("a").unwrap().push_inbound(b"hi");
    assert_eq!(m.receive("a").unwrap(), b"hi");
    let infos = m.list_sessions();
    assert_eq!(infos[0].reconnect_count, 1);
    assert!(infos[0].connected);
}

#[test]
fn receive_without_reconnect_fails_when_closed() {
    let mut m = SerialSessionManager::new();
    let config = SerialOpenConfig { auto_reconnect: false, ..SerialOpenConfig::default() };
    m.open_session("a", config, MemoryTransport::new()).unwrap();
    m.transport_mut("a").unwrap().close().unwrap();
    let err = m.receive("a").unwrap_err();
    assert!(matches!(err, SerialError::NotOpen(ref id) if id == "a"));
    assert_eq!(err.message(), "session not open: a");
    assert_eq!(m.list_sessions()[0].reconnect_count, 0);
    assert!(!m.list_sessions()[0].connected);
}

#[test]
fn list_sessions_reports_config() {
    let mut m = SerialSessionManager::new();
    let config = SerialOpenConfig {
        endpoint: "COM3".to_string(),
        baud_rate: 9600,
        parity: Parity::Even,
        ..SerialOpenConfig::default()
    };
    m.open_session("dev", config, MemoryTransport::new()).unwrap();
    m.send("dev", &[1, 2]).unwrap();
    assert_eq!(m.transport_mut("dev").unwrap().take_outbound(), vec![1, 2]);
    let infos = m.list_sessions();
    assert_eq!(infos[0].session_id, "dev");
    assert_eq!(infos[0].config.endpoint, "COM3");
    assert_eq!(infos[0].config.baud_rate, 9600);
    assert_eq!(infos[0].config.parity, Parity::Even);
    assert!(infos[0].connected);
    assert_eq!(infos[0].reconnect_count, 0);
}

#[test]
fn serial_error_messages() {
    assert_eq!(SerialError::NotFound("s".to_string()).message(), "session not found: s");
    assert_eq!(SerialError::Io("boom".to_string()).message(), "io error: boom");
}

struct FlakyTransport {
    open: bool,
    opens_left: u32,
}

impl Transport for FlakyTransport {
    fn spec_is_open(&self) -> bool {
        self.open
    }

    fn open(&mut self, _config: &SerialOpenConfig) -> Result<(), SerialError> {
        if self.opens_left == 0 {
            return Err(SerialError::Io("busy".to_string()));
        }
        self.opens_left -= 1;
        self.open = true;
        Ok(())
    }

    fn close(&mut self) -> Result<(), SerialError> {
        self.open = false;
        Err(SerialError::Io("close failed".to_string()))
    }

    fn send(&mut self, _payload: &[u8]) -> Result<(), SerialError> {
        Err(SerialError::Io("write failed".to_string()))
    }

    fn receive(&mut self) -> Result<Vec<u8>, SerialError> {
        Ok(vec![0x42])
    }

    fn is_open(&self) -> bool {
        self.open
    }
}

#[test]
fn failed_open_passes_the_transport_error_on() {
    let mut m = SerialSessionManager::new();
    let t = FlakyTransport { open: false, opens_left: 0 };
    let err = m.open_session("x", SerialOpenConfig::default(), t).unwrap_err();
    assert!(matches!(err, SerialError::Io(ref msg) if msg == "busy"));
    assert!(m.list_sessions().is_empty());
}

#[test]
fn failed_reopen_passes_the_error_on_and_keeps_the_count() {
    let mut m = SerialSessionManager::new();
    let t = FlakyTransport { open: false, opens_left: 1 };
    m.open_session("x", SerialOpenConfig::default(), t).unwrap();
    let send_err = m.send("x", b"q").unwrap_err();
    assert!(matches!(send_err, SerialError::Io(ref msg) if msg == "write failed"));
    m.transport_mut("x").unwrap().open = false;
    let err = m.receive("x").unwrap_err();
    assert!(matches!(err, SerialError::Io(ref msg) if msg == "busy"));
    assert_eq!(m.list_sessions()[0].reconnect_count, 0);
}

#[test]
fn close_answers_the_transport_close_and_forgets_the_session() {
    let mut m = SerialSessionManager::new();
    let t = FlakyTransport { open: false, opens_left: 1 };
    m.open_session("x", SerialOpenConfig::default(), t).unwrap();
    assert_eq!(m.receive("x").unwrap(), vec![0x42]);
    let err = m.close_session("x").unwrap_err();
    assert!(matches!(err, SerialError::Io(ref msg) if msg == "close failed"));
    assert!(m.list_sessions().is_empty());
}
