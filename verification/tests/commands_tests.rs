use vibeserial::commands::{
    flow_control_to_string, list_ports, parity_to_string, parse_flow_control, parse_hex_payload,
    parse_parity, to_hex_string,
};
use vibeserial::serial::{FlowControl, Parity};

#[test]
fn hex_payload_roundtrip() {
    let data = vec![0x00, 0x0A, 0xFF, 0x7F];
    let text = to_hex_string(&data);
    assert_eq!(text, "00 0A FF 7F");
    assert_eq!(parse_hex_payload(&text).unwrap(), data);
}

#[test]
fn hex_payload_separators_and_prefixes() {
    assert_eq!(parse_hex_payload("0x01,0X02;  ff\t0a").unwrap(), vec![1, 2, 0xFF, 0x0A]);
    assert_eq!(parse_hex_payload("0x0x10").unwrap(), vec![0x10]);
    assert_eq!(parse_hex_payload("0x 01").unwrap(), vec![0x01]);
}

#[test]
fn hex_payload_errors() {
    assert_eq!(parse_hex_payload("  ,; ").unwrap_err(), "payload is empty");
    assert_eq!(parse_hex_payload("0x").unwrap_err(), "payload is empty");
    assert_eq!(parse_hex_payload("01 zz").unwrap_err(), "invalid hex token: zz");
    assert_eq!(parse_hex_payload("0X0x12").unwrap_err(), "invalid hex token: 0X0x12");
    assert_eq!(parse_hex_payload("100").unwrap_err(), "invalid hex token: 100");
}

#[test]
fn to_hex_string_of_nothing_is_empty() {
    assert_eq!(to_hex_string(&[]), "");
}

#[test]
fn parity_names() {
    assert_eq!(parse_parity(None).unwrap(), Parity::NoParity);
    assert_eq!(parse_parity(Some("ODD")).unwrap(), Parity::Odd);
    assert_eq!(parse_parity(Some("Even")).unwrap(), Parity::Even);
    assert_eq!(parse_parity(Some("Mark")).unwrap_err(), "invalid parity: mark");
    for p in [Parity::NoParity, Parity::Odd, Parity::Even] {
        assert_eq!(parse_parity(Some(&parity_to_string(p))).unwrap(), p);
    }
}

#[test]
fn flow_control_names() {
    assert_eq!(parse_flow_control(None).unwrap(), FlowControl::NoFlowControl);
    assert_eq!(parse_flow_control(Some("Hardware")).unwrap(), FlowControl::Hardware);
    assert_eq!(parse_flow_control(Some("XON")).unwrap_err(), "invalid flow control: xon");
    for f in [FlowControl::NoFlowControl, FlowControl::Software, FlowControl::Hardware] {
        assert_eq!(parse_flow_control(Some(&flow_control_to_string(f))).unwrap(), f);
    }
}

#[test]
fn ports_list() {
    assert_eq!(list_ports(), vec!["COM1", "COM2", "/dev/ttyUSB0", "/dev/ttyS0"]);
}
