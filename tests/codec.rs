use stream_replay::packet::{
    tos2ac, to_indicator, try_packet_type, DecodeError, PacketStruct, PacketType, APP_HEADER_LENGTH,
    MAX_PAYLOAD_LEN,
};

const ALL_TAGS: [PacketType; 10] = [
    PacketType::SNL,
    PacketType::SL,
    PacketType::DFN,
    PacketType::DFL,
    PacketType::DSS,
    PacketType::DSF,
    PacketType::DSM,
    PacketType::DSL,
    PacketType::SLFL,
    PacketType::SLSL,
];

#[test]
fn tag_round_trip_all_tags() {
    for t in ALL_TAGS {
        assert_eq!(try_packet_type(to_indicator(t)), Some(t));
        assert_eq!(PacketStruct::get_packet_type(to_indicator(t)), t);
    }
}

#[test]
fn indicator_bytes_are_fixed() {
    let bytes: Vec<u8> = ALL_TAGS.iter().map(|t| to_indicator(*t)).collect();
    assert_eq!(bytes, vec![0, 1, 2, 3, 4, 5, 6, 7, 8, 12]);
}

#[test]
fn unknown_indicator_has_no_tag() {
    for b in [9u8, 10, 11, 13, 200, 255] {
        assert_eq!(try_packet_type(b), None);
    }
}

#[test]
fn channel_from_bit_two() {
    assert_eq!(PacketStruct::channel_info(to_indicator(PacketType::SL)), 0);
    assert_eq!(PacketStruct::channel_info(to_indicator(PacketType::DFL)), 0);
    assert_eq!(PacketStruct::channel_info(to_indicator(PacketType::DSS)), 1);
    assert_eq!(PacketStruct::channel_info(to_indicator(PacketType::DSL)), 1);
    assert_eq!(PacketStruct::channel_info(to_indicator(PacketType::SLFL)), 0);
    assert_eq!(PacketStruct::channel_info(to_indicator(PacketType::SLSL)), 1);
}

#[test]
fn tos_to_access_category() {
    assert_eq!(tos2ac(0x00), 2);
    assert_eq!(tos2ac(0x20), 3);
    assert_eq!(tos2ac(0x40), 3);
    assert_eq!(tos2ac(0x60), 2);
    assert_eq!(tos2ac(0x80), 1);
    assert_eq!(tos2ac(0xA0), 1);
    assert_eq!(tos2ac(0xC0), 0);
    assert_eq!(tos2ac(0xE0), 0);
    assert_eq!(tos2ac(0xBF), 1);
}

fn sample_packet() -> PacketStruct {
    let mut p = PacketStruct::new(8000);
    p.seq = 0x0102_0304;
    p.set_offset(0x0506);
    p.set_length(3);
    p.set_indicator(PacketType::DSF);
    p.timestamp = 0x1122_3344_5566_7788;
    p.set_payload(&[0xAA, 0xBB, 0xCC, 0xDD]);
    p
}

#[test]
fn encode_is_packed_little_endian() {
    let bytes = sample_packet().to_bytes();
    assert_eq!(bytes.len(), APP_HEADER_LENGTH + 3);
    assert_eq!(
        bytes,
        vec![
            0x04, 0x03, 0x02, 0x01, 0x06, 0x05, 0x03, 0x00, 0x40, 0x1F, 5, 0x88, 0x77, 0x66, 0x55, 0x44,
            0x33, 0x22, 0x11, 0xAA, 0xBB, 0xCC
        ]
    );
}

#[test]
fn decode_encode_round_trip() {
    let p = sample_packet();
    let q = PacketStruct::from_buffer(&p.to_bytes()).unwrap();
    assert_eq!(q.seq, p.seq);
    assert_eq!(q.offset, p.offset);
    assert_eq!(q.length, 3);
    assert_eq!(q.port, 8000);
    assert_eq!(q.indicators, to_indicator(PacketType::DSF));
    assert_eq!(q.timestamp, p.timestamp);
    assert_eq!(q.payload, vec![0xAA, 0xBB, 0xCC]);
}

#[test]
fn decode_rejects_short_header() {
    assert_eq!(PacketStruct::from_buffer(&[0u8; 18]).unwrap_err(), DecodeError::TooShort);
}

#[test]
fn decode_rejects_unknown_indicator() {
    let mut bytes = sample_packet().to_bytes();
    bytes[10] = 9;
    assert_eq!(PacketStruct::from_buffer(&bytes).unwrap_err(), DecodeError::BadIndicator);
}

#[test]
fn decode_rejects_oversized_length() {
    let mut bytes = sample_packet().to_bytes();
    let len = (MAX_PAYLOAD_LEN as u16 + 1).to_le_bytes();
    bytes[6] = len[0];
    bytes[7] = len[1];
    assert_eq!(PacketStruct::from_buffer(&bytes).unwrap_err(), DecodeError::BadLength);
}

#[test]
fn decode_rejects_truncated_payload() {
    let bytes = sample_packet().to_bytes();
    assert_eq!(PacketStruct::from_buffer(&bytes[..bytes.len() - 1]).unwrap_err(), DecodeError::Truncated);
}

#[test]
fn next_seq_counts_fragments_and_wraps() {
    let mut p = PacketStruct::new(1);
    p.next_seq(3, 10);
    assert_eq!((p.seq, p.offset), (1, 4));
    p.next_seq(3, 0);
    assert_eq!((p.seq, p.offset), (2, 3));
    p.seq = u32::MAX;
    p.next_seq(0, 1);
    assert_eq!((p.seq, p.offset), (0, 1));
}

#[test]
fn template_payload_counts_bytes() {
    let p = PacketStruct::new(7);
    assert_eq!(p.payload.len(), MAX_PAYLOAD_LEN);
    assert_eq!(p.payload[0], 0);
    assert_eq!(p.payload[255], 255);
    assert_eq!(p.payload[256], 0);
}
