use broker::codec::{decode, encode, ProtocolError};
use broker::frame::{msg_type, ConnPayload, PayloadType, RecvPaylod, RequestType, SendPayload};

fn send_frame(x_name: &str, q_name: &str, data: &str, x_type: char) -> RequestType {
    RequestType::Producer(SendPayload {
        x_name: x_name.to_string(),
        q_name: q_name.to_string(),
        data: data.to_string(),
        x_type,
    })
}

#[test]
fn round_trip_send_frame() {
    let frame = send_frame("orders", "east", "hello", 'd');
    let bytes = encode(&frame);
    let back = decode(&bytes).expect("an encoded frame must decode");
    assert_eq!(back, frame);
}

#[test]
fn round_trip_connect_frame() {
    let frame = RequestType::Connection(ConnPayload {
        x_name: "orders".to_string(),
        q_name: "q1".to_string(),
        x_type: 'f',
    });
    let bytes = encode(&frame);
    let back = decode(&bytes).expect("an encoded frame must decode");
    assert_eq!(back, frame);
}

#[test]
fn round_trip_receive_frame() {
    let frame = RequestType::Consumer(RecvPaylod { q_name: "q1".to_string() });
    let bytes = encode(&frame);
    let back = decode(&bytes).expect("an encoded frame must decode");
    assert_eq!(back, frame);
}

#[test]
fn round_trip_multibyte_payload() {
    let frame = send_frame("orders", "", "héllo — ☃", 'f');
    let bytes = encode(&frame);
    let back = decode(&bytes).expect("an encoded frame must decode");
    assert_eq!(back, frame);
}

#[test]
fn round_trip_empty_fields() {
    let frame = send_frame("", "", "", 'f');
    let bytes = encode(&frame);
    let back = decode(&bytes).expect("an encoded frame must decode");
    assert_eq!(back, frame);
}

#[test]
fn encoded_layout_is_exact() {
    // kind, type tag, then each field as a 32-bit big-endian length and
    // raw bytes; a send frame carries name, routing descriptor, payload.
    let frame = send_frame("ex", "k", "hi", 'f');
    let bytes = encode(&frame);
    let expected: Vec<u8> = vec![
        b's', b'f', 0, 0, 0, 2, b'e', b'x', 0, 0, 0, 1, b'k', 0, 0, 0, 2, b'h', b'i',
    ];
    assert_eq!(bytes, expected);
}

#[test]
fn encoded_receive_layout_is_exact() {
    // a receive frame: kind, a reserved zero byte, an empty name field,
    // then the queue name field.
    let frame = RequestType::Consumer(RecvPaylod { q_name: "q1".to_string() });
    let bytes = encode(&frame);
    let expected: Vec<u8> = vec![b'r', 0, 0, 0, 0, 0, 0, 0, 0, 2, b'q', b'1'];
    assert_eq!(bytes, expected);
}

#[test]
fn decode_empty_input_is_truncated() {
    assert_eq!(decode(&[]), Err(ProtocolError::Truncated));
}

#[test]
fn decode_unknown_kind_is_rejected() {
    assert_eq!(decode(&[b'x', b'f', 0, 0, 0, 0]), Err(ProtocolError::UnknownMessageKind));
}

#[test]
fn decode_short_length_prefix_is_truncated() {
    // the first field declares four length bytes but only two follow
    assert_eq!(decode(&[b'c', b'f', 0, 0]), Err(ProtocolError::Truncated));
}

#[test]
fn decode_field_shorter_than_declared_is_truncated() {
    // the field declares five bytes but the stream closes after two
    assert_eq!(decode(&[b'c', b'f', 0, 0, 0, 5, b'a', b'b']), Err(ProtocolError::Truncated));
}

#[test]
fn decode_invalid_utf8_is_rejected() {
    // 0xff 0xfe is not valid UTF-8
    assert_eq!(
        decode(&[b'c', b'f', 0, 0, 0, 2, 0xff, 0xfe]),
        Err(ProtocolError::InvalidUtf8)
    );
}

#[test]
fn decode_leaves_trailing_bytes_for_the_next_frame() {
    let frame = RequestType::Consumer(RecvPaylod { q_name: "q".to_string() });
    let mut bytes = encode(&frame);
    bytes.push(b's');
    let back = decode(&bytes).expect("the leading frame must decode");
    assert_eq!(back, frame);
}

#[test]
fn msg_type_tags() {
    assert_eq!(msg_type(send_frame("x", "", "d", 'f')), "s");
    assert_eq!(
        msg_type(RequestType::Consumer(RecvPaylod { q_name: "q".to_string() })),
        "r"
    );
    assert_eq!(
        msg_type(RequestType::Connection(ConnPayload {
            x_name: "x".to_string(),
            q_name: "q".to_string(),
            x_type: 'f',
        })),
        "c"
    );
}

#[test]
fn payload_type_names() {
    let x = PayloadType::XName("orders".to_string());
    let q = PayloadType::QName("q1".to_string());
    assert_eq!(x.name(), "orders");
    assert_eq!(q.name(), "q1");
}
