use vibeserial::protocol::{
    build_frame, build_modbus_read_holding_registers, crc16_modbus, parse_modbus_rtu,
    split_frames, xor8, ChecksumAlgorithm, FrameRule, ModbusFunction, ProtocolError,
};

#[test]
fn crc16_known_vector() {
    let data = b"123456789";
    assert_eq!(crc16_modbus(data), 0x4B37);
}

#[test]
fn xor_checksum_works() {
    assert_eq!(xor8(&[0x01, 0x02, 0x03]), 0x00);
}

#[test]
fn build_and_split_frame_with_xor() {
    let rule = FrameRule {
        header: vec![0xAA],
        footer: vec![0x55],
        fixed_length: None,
        checksum: Some(ChecksumAlgorithm::Xor8),
    };

    let frame = build_frame(&[0x10, 0x20], &rule);
    let parsed = split_frames(&frame, &rule).unwrap();

    assert_eq!(parsed.len(), 1);
    assert_eq!(parsed[0].payload, vec![0x10, 0x20]);
}

#[test]
fn parse_modbus_packet() {
    let req = build_modbus_read_holding_registers(1, 0x000A, 2);
    let pkt = parse_modbus_rtu(&req).unwrap();

    assert_eq!(pkt.slave, 1);
    assert_eq!(pkt.function, ModbusFunction::ReadHoldingRegisters.code());
    assert_eq!(pkt.data, vec![0x00, 0x0A, 0x00, 0x02]);
}

#[test]
fn xor_of_empty_is_zero() {
    assert_eq!(xor8(&[]), 0);
    assert_eq!(xor8(&[0xFF, 0x0F]), 0xF0);
}

#[test]
fn crc16_of_empty_is_initial_value() {
    assert_eq!(crc16_modbus(&[]), 0xFFFF);
    // Read holding registers, slave 1, address 0, quantity 1: CRC 0x0A84 on the wire as 84 0A.
    assert_eq!(crc16_modbus(&[0x01, 0x03, 0x00, 0x00, 0x00, 0x01]), 0x0A84);
}

#[test]
fn build_frame_with_crc_appends_low_byte_first() {
    let rule = FrameRule {
        header: vec![0x7E],
        footer: vec![0x7F],
        fixed_length: None,
        checksum: Some(ChecksumAlgorithm::Crc16Modbus),
    };
    let frame = build_frame(&[0x01, 0x03, 0x00, 0x00, 0x00, 0x01], &rule);
    assert_eq!(frame, vec![0x7E, 0x01, 0x03, 0x00, 0x00, 0x00, 0x01, 0x84, 0x0A, 0x7F]);
    let parsed = split_frames(&frame, &rule).unwrap();
    assert_eq!(parsed.len(), 1);
    assert_eq!(parsed[0].raw, frame);
    assert_eq!(parsed[0].payload, vec![0x01, 0x03, 0x00, 0x00, 0x00, 0x01]);
}

#[test]
fn default_rule_keeps_whole_stream() {
    let rule = FrameRule::default();
    let parsed = split_frames(&[1, 2, 3], &rule).unwrap();
    assert_eq!(parsed.len(), 1);
    assert_eq!(parsed[0].payload, vec![1, 2, 3]);
    assert_eq!(build_frame(&[9], &rule), vec![9]);
}

#[test]
fn split_by_footer_drops_unterminated_tail() {
    let rule = FrameRule {
        header: vec![],
        footer: vec![0x0D, 0x0A],
        fixed_length: None,
        checksum: None,
    };
    let stream = [0x41, 0x0D, 0x0A, 0x42, 0x43, 0x0D, 0x0A, 0x44];
    let parsed = split_frames(&stream, &rule).unwrap();
    assert_eq!(parsed.len(), 2);
    assert_eq!(parsed[0].raw, vec![0x41, 0x0D, 0x0A]);
    assert_eq!(parsed[0].payload, vec![0x41]);
    assert_eq!(parsed[1].payload, vec![0x42, 0x43]);
}

#[test]
fn split_by_fixed_length_drops_short_tail() {
    let rule = FrameRule {
        header: vec![0xAA],
        footer: vec![],
        fixed_length: Some(3),
        checksum: None,
    };
    let stream = [0xAA, 1, 2, 0xAA, 3, 4, 0xAA];
    let parsed = split_frames(&stream, &rule).unwrap();
    assert_eq!(parsed.len(), 2);
    assert_eq!(parsed[0].payload, vec![1, 2]);
    assert_eq!(parsed[1].payload, vec![3, 4]);
}

#[test]
fn fixed_length_zero_yields_nothing() {
    let rule = FrameRule {
        header: vec![],
        footer: vec![],
        fixed_length: Some(0),
        checksum: None,
    };
    assert!(split_frames(&[1, 2, 3], &rule).unwrap().is_empty());
}

#[test]
fn checksum_mismatch_is_reported() {
    let rule = FrameRule {
        header: vec![0xAA],
        footer: vec![0x55],
        fixed_length: None,
        checksum: Some(ChecksumAlgorithm::Xor8),
    };
    let res = split_frames(&[0xAA, 0x10, 0x20, 0x31, 0x55], &rule);
    assert!(matches!(res, Err(ProtocolError::ChecksumMismatch)));
}

#[test]
fn wrong_header_is_invalid_frame() {
    let rule = FrameRule {
        header: vec![0xAA],
        footer: vec![0x55],
        fixed_length: None,
        checksum: None,
    };
    let res = split_frames(&[0xAB, 0x10, 0x55], &rule);
    assert!(matches!(res, Err(ProtocolError::InvalidFrame)));
}

#[test]
fn wrong_footer_is_invalid_frame() {
    let rule = FrameRule {
        header: vec![],
        footer: vec![],
        fixed_length: Some(3),
        checksum: None,
    };
    let with_footer = FrameRule { footer: vec![0x55], ..rule };
    let res = split_frames(&[0x01, 0x02, 0x03], &with_footer);
    assert!(matches!(res, Err(ProtocolError::InvalidFrame)));
}

#[test]
fn short_frame_is_too_short() {
    let rule = FrameRule {
        header: vec![0xAA, 0xBB],
        footer: vec![0x55],
        fixed_length: Some(2),
        checksum: None,
    };
    let res = split_frames(&[0xAA, 0xBB], &rule);
    assert!(matches!(res, Err(ProtocolError::FrameTooShort)));

    let crc_rule = FrameRule {
        header: vec![0xAA],
        footer: vec![0x55],
        fixed_length: None,
        checksum: Some(ChecksumAlgorithm::Crc16Modbus),
    };
    let res = split_frames(&[0xAA, 0x01, 0x55], &crc_rule);
    assert!(matches!(res, Err(ProtocolError::FrameTooShort)));
}

#[test]
fn first_bad_frame_decides_error() {
    let rule = FrameRule {
        header: vec![0xAA],
        footer: vec![0x55],
        fixed_length: None,
        checksum: Some(ChecksumAlgorithm::Xor8),
    };
    let mut stream = build_frame(&[0x01], &rule);
    stream.extend_from_slice(&[0xAA, 0x02, 0x00, 0x55]);
    let res = split_frames(&stream, &rule);
    assert!(matches!(res, Err(ProtocolError::ChecksumMismatch)));
}

#[test]
fn modbus_errors() {
    assert!(matches!(parse_modbus_rtu(&[1, 3, 0]), Err(ProtocolError::InvalidModbus)));
    let mut req = build_modbus_read_holding_registers(7, 0x1234, 0x0010);
    assert_eq!(req.len(), 8);
    assert_eq!(&req[..6], &[7, 0x03, 0x12, 0x34, 0x00, 0x10]);
    req[7] ^= 0xFF;
    assert!(matches!(parse_modbus_rtu(&req), Err(ProtocolError::ChecksumMismatch)));
}

#[test]
fn modbus_function_codes() {
    assert_eq!(ModbusFunction::ReadHoldingRegisters.code(), 0x03);
    assert_eq!(ModbusFunction::WriteSingleRegister.code(), 0x06);
}

#[test]
fn protocol_error_messages() {
    assert_eq!(ProtocolError::FrameTooShort.message(), "frame too short");
    assert_eq!(ProtocolError::ChecksumMismatch.message(), "checksum mismatch");
    assert_eq!(ProtocolError::InvalidFrame.message(), "invalid frame");
    assert_eq!(ProtocolError::InvalidModbus.message(), "invalid modbus rtu frame");
}

#[test]
fn xor_of_concatenation_is_xor_of_parts() {
    let a = [0x12u8, 0x34, 0x56];
    let b = [0xF0u8, 0x0F];
    let mut ab = a.to_vec();
    ab.extend_from_slice(&b);
    assert_eq!(xor8(&ab), xor8(&a) ^ xor8(&b));
    assert_eq!(xor8(&ab), 0x12 ^ 0x34 ^ 0x56 ^ 0xF0 ^ 0x0F);
}

#[test]
fn xor_self_check_is_zero() {
    let mut data = vec![0x5Au8, 0xC3, 0x01];
    let x = xor8(&data);
    data.push(x);
    assert_eq!(xor8(&data), 0);
}

#[test]
fn crc_residue_is_zero() {
    let mut data = b"123456789".to_vec();
    let c = crc16_modbus(&data);
    data.push((c & 0xFF) as u8);
    data.push((c >> 8) as u8);
    assert_eq!(crc16_modbus(&data), 0);
}

#[test]
fn fixed_length_frames_are_a_prefix_and_count_whole_lengths() {
    let rule = FrameRule {
        header: vec![],
        footer: vec![],
        fixed_length: Some(3),
        checksum: None,
    };
    let stream = [1u8, 2, 3, 4, 5, 6, 7, 8];
    let frames = split_frames(&stream, &rule).unwrap();
    assert_eq!(frames.len(), stream.len() / 3);
    let joined: Vec<u8> = frames.iter().flat_map(|f| f.raw.clone()).collect();
    assert_eq!(joined, stream[..6].to_vec());
}

#[test]
fn footer_frames_are_a_prefix() {
    let rule = FrameRule {
        header: vec![],
        footer: vec![0x0D, 0x0A],
        fixed_length: None,
        checksum: None,
    };
    let stream = [0x41u8, 0x0D, 0x0A, 0x42, 0x43, 0x0D, 0x0A, 0x44];
    let frames = split_frames(&stream, &rule).unwrap();
    assert_eq!(frames.len(), 2);
    let joined: Vec<u8> = frames.iter().flat_map(|f| f.raw.clone()).collect();
    assert_eq!(joined, stream[..7].to_vec());
}
