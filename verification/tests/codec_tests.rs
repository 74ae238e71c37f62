use maat_net::codec::decode_prefix;
use maat_net::codec::Decoded;
use maat_net::NetworkError;
use maat_net::NetworkMessage;

fn round_trip(m: NetworkMessage) {
    let bytes = m.serialise();
    match decode_prefix(&bytes) {
        Decoded::Message(back, used) => {
            assert_eq!(back, m);
            assert_eq!(used, bytes.len());
        }
        _ => panic!("expected a whole message"),
    }
}

#[test]
fn round_trip_null() {
    round_trip(NetworkMessage::Null);
}

#[test]
fn round_trip_success() {
    round_trip(NetworkMessage::Success);
}

#[test]
fn round_trip_shutdown() {
    round_trip(NetworkMessage::Shutdown);
}

#[test]
fn round_trip_error_client_already_connected() {
    round_trip(NetworkMessage::Error(NetworkError::ClientAlreadyConnected));
}

#[test]
fn round_trip_error_unknown() {
    round_trip(NetworkMessage::Error(NetworkError::Unknown));
}

#[test]
fn round_trip_new_session() {
    round_trip(NetworkMessage::NewSession(String::from("room1")));
}

#[test]
fn round_trip_client_connected() {
    round_trip(NetworkMessage::ClientConnected);
}

#[test]
fn round_trip_end_session() {
    round_trip(NetworkMessage::EndSession);
}

#[test]
fn round_trip_data() {
    round_trip(NetworkMessage::Data(String::from("hello world")));
}

#[test]
fn round_trip_data_empty() {
    round_trip(NetworkMessage::Data(String::new()));
}

#[test]
fn round_trip_data_beyond_ascii() {
    round_trip(NetworkMessage::Data(String::from("h\u{e9}\u{3bb}\u{1f300}")));
}

#[test]
fn round_trip_raw_data() {
    round_trip(NetworkMessage::RawData(vec![0, 1, 2, 254, 255]));
}

#[test]
fn round_trip_raw_data_empty() {
    round_trip(NetworkMessage::RawData(Vec::new()));
}

#[test]
fn null_frame_is_length_prefixed_tag() {
    let bytes = NetworkMessage::Null.serialise();
    assert_eq!(bytes, vec![1, 0, 0, 0, 0, 0, 0, 0, 0]);
}

#[test]
fn data_frame_exact_bytes() {
    // payload: tag 7, character count 2, then 'h' and 'i' as 4-byte scalars
    let bytes = NetworkMessage::Data(String::from("hi")).serialise();
    let expected = vec![
        17, 0, 0, 0, 0, 0, 0, 0, // frame: payload length
        7, // tag
        2, 0, 0, 0, 0, 0, 0, 0, // character count
        0x68, 0, 0, 0, // 'h'
        0x69, 0, 0, 0, // 'i'
    ];
    assert_eq!(bytes, expected);
}

#[test]
fn raw_data_frame_exact_bytes() {
    let bytes = NetworkMessage::RawData(vec![9, 2, 3]).serialise();
    let expected = vec![
        12, 0, 0, 0, 0, 0, 0, 0, // frame: payload length
        8, // tag
        3, 0, 0, 0, 0, 0, 0, 0, // byte count
        9, 2, 3,
    ];
    assert_eq!(bytes, expected);
}

#[test]
fn deserialise_ignores_trailing_bytes() {
    let mut bytes = NetworkMessage::EndSession.serialise();
    bytes.extend_from_slice(&[0xAA, 0xBB, 0xCC]);
    let back = NetworkMessage::deserialise(&bytes);
    assert_eq!(back, NetworkMessage::EndSession);
}

#[test]
fn two_messages_decode_in_order_from_one_stream() {
    let first = NetworkMessage::NewSession(String::from("a"));
    let second = NetworkMessage::Data(String::from("payload"));
    let mut stream = first.serialise();
    stream.extend_from_slice(&second.serialise());

    let used = match decode_prefix(&stream) {
        Decoded::Message(m, n) => {
            assert_eq!(m, first);
            n
        }
        _ => panic!("expected the first message"),
    };
    match decode_prefix(&stream[used..]) {
        Decoded::Message(m, n) => {
            assert_eq!(m, second);
            assert_eq!(used + n, stream.len());
        }
        _ => panic!("expected the second message"),
    }
}

#[test]
fn short_buffer_needs_more() {
    assert!(matches!(decode_prefix(&[]), Decoded::NeedMore));
    assert!(matches!(decode_prefix(&[1, 0, 0]), Decoded::NeedMore));
    // a full length prefix announcing one byte that has not arrived yet
    assert!(matches!(
        decode_prefix(&[1, 0, 0, 0, 0, 0, 0, 0]),
        Decoded::NeedMore
    ));
}

#[test]
fn unknown_tag_is_malformed() {
    let framed = [1u8, 0, 0, 0, 0, 0, 0, 0, 99];
    assert!(matches!(decode_prefix(&framed), Decoded::Malformed));
}

#[test]
fn surrogate_scalar_is_malformed() {
    // NewSession with one "character" in the surrogate range
    let mut framed = vec![13u8, 0, 0, 0, 0, 0, 0, 0];
    framed.push(4); // tag
    framed.extend_from_slice(&[1, 0, 0, 0, 0, 0, 0, 0]); // one character
    framed.extend_from_slice(&[0x00, 0xD8, 0x00, 0x00]); // 0xD800
    assert!(matches!(decode_prefix(&framed), Decoded::Malformed));
}

#[test]
fn truncated_string_payload_is_malformed() {
    // Data whose payload claims two characters but carries bytes for one
    let mut framed = Vec::new();
    let payload: Vec<u8> = {
        let mut p = vec![7u8];
        p.extend_from_slice(&[2, 0, 0, 0, 0, 0, 0, 0]);
        p.extend_from_slice(&[0x68, 0, 0, 0]);
        p
    };
    framed.extend_from_slice(&(payload.len() as u64).to_le_bytes());
    framed.extend_from_slice(&payload);
    assert!(matches!(decode_prefix(&framed), Decoded::Malformed));
}

#[test]
fn duplicate_preserves_every_variant() {
    let samples = vec![
        NetworkMessage::Null,
        NetworkMessage::Error(NetworkError::Unknown),
        NetworkMessage::NewSession(String::from("x")),
        NetworkMessage::Data(String::from("abc")),
        NetworkMessage::RawData(vec![1, 2, 3]),
    ];
    for m in samples {
        assert_eq!(m.duplicate(), m);
    }
}
