use mc_server_scanner::packets::DecodeError;
use mc_server_scanner::packets::ServerQueryResponse;

/// Build a reply frame: marker, big-endian code unit count, UTF-16 text.
fn frame_of(text: &str) -> Vec<u8> {
    let units: Vec<u16> = text.encode_utf16().collect();
    let mut buf = vec![0xFFu8, (units.len() >> 8) as u8, (units.len() & 0xFF) as u8];
    for u in units {
        buf.push((u >> 8) as u8);
        buf.push((u & 0xFF) as u8);
    }
    buf
}

#[test]
fn test_server_query_response() {
    let data = [
        0xff, 0x00, 0x23, 0x00, 0xa7, 0x00, 0x31, 0x00, 0x00, 0x00, 0x34, 0x00, 0x37, 0x00, 0x00,
        0x00, 0x31, 0x00, 0x2e, 0x00, 0x34, 0x00, 0x2e, 0x00, 0x32, 0x00, 0x00, 0x00, 0x41, 0x00,
        0x20, 0x00, 0x4d, 0x00, 0x69, 0x00, 0x6e, 0x00, 0x65, 0x00, 0x63, 0x00, 0x72, 0x00, 0x61,
        0x00, 0x66, 0x00, 0x74, 0x00, 0x20, 0x00, 0x53, 0x00, 0x65, 0x00, 0x72, 0x00, 0x76, 0x00,
        0x65, 0x00, 0x72, 0x00, 0x00, 0x00, 0x30, 0x00, 0x00, 0x00, 0x32, 0x00, 0x30,
    ];
    let packet = ServerQueryResponse::read(&data[..]);
    assert!(packet.is_ok());
}

#[test]
fn decodes_every_field_of_the_known_reply() {
    let data = [
        0xff, 0x00, 0x23, 0x00, 0xa7, 0x00, 0x31, 0x00, 0x00, 0x00, 0x34, 0x00, 0x37, 0x00, 0x00,
        0x00, 0x31, 0x00, 0x2e, 0x00, 0x34, 0x00, 0x2e, 0x00, 0x32, 0x00, 0x00, 0x00, 0x41, 0x00,
        0x20, 0x00, 0x4d, 0x00, 0x69, 0x00, 0x6e, 0x00, 0x65, 0x00, 0x63, 0x00, 0x72, 0x00, 0x61,
        0x00, 0x66, 0x00, 0x74, 0x00, 0x20, 0x00, 0x53, 0x00, 0x65, 0x00, 0x72, 0x00, 0x76, 0x00,
        0x65, 0x00, 0x72, 0x00, 0x00, 0x00, 0x30, 0x00, 0x00, 0x00, 0x32, 0x00, 0x30,
    ];
    let resp = ServerQueryResponse::read(&data[..]).unwrap();
    assert_eq!(resp.protocol_version, 47);
    assert_eq!(resp.minecraft_version, "1.4.2");
    assert_eq!(resp.motd, "A Minecraft Server");
    assert_eq!(resp.online_players, 0);
    assert_eq!(resp.max_players, 20);
}

#[test]
fn empty_buffer_is_rejected_as_empty() {
    let r = ServerQueryResponse::read(&[]);
    assert_eq!(r.unwrap_err(), DecodeError::EmptyBuffer);
}

#[test]
fn wrong_marker_is_not_a_server_response() {
    let r = ServerQueryResponse::read(&[0x7E, 0x00, 0x00]);
    assert_eq!(r.unwrap_err(), DecodeError::NotAServerResponse);
}

#[test]
fn marker_without_length_is_not_a_server_response() {
    assert_eq!(
        ServerQueryResponse::read(&[0xFF]).unwrap_err(),
        DecodeError::NotAServerResponse
    );
    assert_eq!(
        ServerQueryResponse::read(&[0xFF, 0x00]).unwrap_err(),
        DecodeError::NotAServerResponse
    );
}

#[test]
fn truncated_payload_is_not_a_server_response() {
    // announces two code units but carries only one
    let buf = vec![0xFFu8, 0x00, 0x02, 0x00, 0x41];
    assert_eq!(
        ServerQueryResponse::read(&buf).unwrap_err(),
        DecodeError::NotAServerResponse
    );
}

#[test]
fn bytes_beyond_the_announced_length_are_ignored() {
    let mut buf = frame_of("id\u{0}47\u{0}1.0\u{0}hi\u{0}3\u{0}9");
    // padding past the frame, as a fixed-size read buffer would leave
    buf.extend_from_slice(&[0u8; 64]);
    let resp = ServerQueryResponse::read(&buf).unwrap();
    assert_eq!(resp.protocol_version, 47);
    assert_eq!(resp.motd, "hi");
    assert_eq!(resp.max_players, 9);
}

#[test]
fn lone_surrogate_is_an_encoding_error() {
    // 0xD800 with no low surrogate after it
    let buf = vec![0xFFu8, 0x00, 0x01, 0xD8, 0x00];
    assert_eq!(
        ServerQueryResponse::read(&buf).unwrap_err(),
        DecodeError::EncodingError
    );
}

#[test]
fn surrogate_pairs_in_the_motd_decode() {
    let resp = ServerQueryResponse::read(&frame_of("id\u{0}47\u{0}1.4.2\u{0}craft \u{1F410} here\u{0}0\u{0}20"))
        .unwrap();
    assert_eq!(resp.motd, "craft \u{1F410} here");
}

#[test]
fn malformed_numeric_field_is_a_numeric_error() {
    let r = ServerQueryResponse::read(&frame_of("id\u{0}4x\u{0}1.4.2\u{0}m\u{0}0\u{0}20"));
    assert_eq!(r.unwrap_err(), DecodeError::NumericFieldError);
    let r = ServerQueryResponse::read(&frame_of("id\u{0}47\u{0}1.4.2\u{0}m\u{0}\u{0}20"));
    assert_eq!(r.unwrap_err(), DecodeError::NumericFieldError);
}

#[test]
fn numeric_field_bounds_are_those_of_u32() {
    let ok = ServerQueryResponse::read(&frame_of("id\u{0}4294967295\u{0}v\u{0}m\u{0}0\u{0}1")).unwrap();
    assert_eq!(ok.protocol_version, u32::MAX);
    let r = ServerQueryResponse::read(&frame_of("id\u{0}4294967296\u{0}v\u{0}m\u{0}0\u{0}1"));
    assert_eq!(r.unwrap_err(), DecodeError::NumericFieldError);
}

#[test]
fn missing_trailing_fields_default_instead_of_failing() {
    // only the packet id and the protocol version are present
    let resp = ServerQueryResponse::read(&frame_of("id\u{0}47")).unwrap();
    assert_eq!(resp.protocol_version, 47);
    assert_eq!(resp.minecraft_version, "");
    assert_eq!(resp.motd, "");
    assert_eq!(resp.online_players, 0);
    assert_eq!(resp.max_players, 0);
}

#[test]
fn a_frame_of_only_a_packet_id_decodes_to_defaults() {
    let resp = ServerQueryResponse::read(&frame_of("id")).unwrap();
    assert_eq!(resp.protocol_version, 0);
    assert_eq!(resp.minecraft_version, "");
    assert_eq!(resp.motd, "");
    assert_eq!(resp.online_players, 0);
    assert_eq!(resp.max_players, 0);
}

#[test]
fn an_empty_payload_decodes_to_defaults() {
    // zero announced code units: the one empty segment is the packet id
    let resp = ServerQueryResponse::read(&frame_of("")).unwrap();
    assert_eq!(resp.protocol_version, 0);
    assert_eq!(resp.max_players, 0);
}
