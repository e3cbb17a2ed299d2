use easy_iot::handshake::{find_websocket_key, is_acceptable_handshake, websocket_accept_response};
use easy_iot::message::Message;
use easy_iot::websocket::{
    decode_message, is_decodable_client_frame, next_server_step, read_outcome, unpack_clientframe,
    ServerStep, WebSocketError, WebSocketFrameType,
};

fn masked_frame(opcode: u8, payload: &[u8], mask: [u8; 4]) -> Vec<u8> {
    assert!(payload.len() < 126);
    let mut f = vec![0x80 | opcode, 0x80 | payload.len() as u8];
    f.extend_from_slice(&mask);
    for (i, b) in payload.iter().enumerate() {
        f.push(b ^ mask[i % 4]);
    }
    f
}

#[test]
fn message_text_roundtrip() {
    assert_eq!(Message::On.to_str(), "On");
    assert_eq!(Message::Off.to_str(), "Off");
    assert_eq!(Message::from_str("On"), Some(Message::On));
    assert_eq!(Message::from_str("Off"), Some(Message::Off));
    assert_eq!(Message::from_str("on"), None);
    assert_eq!(Message::from_str("Off "), None);
    assert_eq!(Message::from_str(""), None);
}

#[test]
fn unpack_masked_text_frame() {
    let mut f = masked_frame(0x1, b"Hello", [0x37, 0xfa, 0x21, 0x3d]);
    // The RFC 6455 example of a masked "Hello".
    assert_eq!(f, vec![0x81, 0x85, 0x37, 0xfa, 0x21, 0x3d, 0x7f, 0x9f, 0x4d, 0x51, 0x58]);
    let t = unpack_clientframe(&mut f);
    assert_eq!(t, WebSocketFrameType::Text(5));
    assert_eq!(&f[..5], b"Hello");
    // The last bytes keep what they held.
    assert_eq!(&f[5..], &[0x3d, 0x7f, 0x9f, 0x4d, 0x51, 0x58]);
}

#[test]
fn unpack_frame_types() {
    let m = [1, 2, 3, 4];
    assert_eq!(unpack_clientframe(&mut masked_frame(0x2, b"ab", m)), WebSocketFrameType::Binary(2));
    assert_eq!(unpack_clientframe(&mut masked_frame(0x0, b"", m)), WebSocketFrameType::Continuation);
    assert_eq!(unpack_clientframe(&mut masked_frame(0x8, b"", m)), WebSocketFrameType::ConnectionClose);
    assert_eq!(unpack_clientframe(&mut masked_frame(0x9, b"", m)), WebSocketFrameType::Ping);
    assert_eq!(unpack_clientframe(&mut masked_frame(0xA, b"", m)), WebSocketFrameType::Pong);
    assert_eq!(unpack_clientframe(&mut masked_frame(0x3, b"", m)), WebSocketFrameType::Unknown);
}

#[test]
fn unpack_invalid_frames() {
    // too short
    assert_eq!(unpack_clientframe(&mut [0x81]), WebSocketFrameType::Invalid);
    // not final
    let mut f = masked_frame(0x1, b"On", [0; 4]);
    f[0] &= 0x7f;
    let before = f.clone();
    assert_eq!(unpack_clientframe(&mut f), WebSocketFrameType::Invalid);
    assert_eq!(f, before);
    // extension bit
    let mut f = masked_frame(0x1, b"On", [0; 4]);
    f[0] |= 0x40;
    assert_eq!(unpack_clientframe(&mut f), WebSocketFrameType::Invalid);
    // not masked
    let mut f = masked_frame(0x1, b"On", [0; 4]);
    f[1] &= 0x7f;
    assert_eq!(unpack_clientframe(&mut f), WebSocketFrameType::Invalid);
    // missing mask key
    assert_eq!(unpack_clientframe(&mut [0x81, 0x80, 1, 2]), WebSocketFrameType::Invalid);
    // payload longer than the data
    let mut f = masked_frame(0x1, b"On", [0; 4]);
    f[1] = 0x80 | 5;
    assert_eq!(unpack_clientframe(&mut f), WebSocketFrameType::Invalid);
    // 16-bit length form that is too short to read
    assert_eq!(unpack_clientframe(&mut [0x81, 0xfe, 0, 2, 0, 0, 0]), WebSocketFrameType::Invalid);
    // 64-bit length form that is too short
    assert_eq!(unpack_clientframe(&mut [0x81, 0xff, 0, 0, 0, 0, 0, 0, 0, 0, 1, 2, 3]), WebSocketFrameType::Invalid);
}

#[test]
fn unpack_64bit_length_frame() {
    let mut f = vec![0x81, 0xff, 0, 0, 0, 0, 0, 0, 0, 2, 1, 2, 3, 4];
    f.push(b'O' ^ 1);
    f.push(b'n' ^ 2);
    assert_eq!(unpack_clientframe(&mut f), WebSocketFrameType::Text(2));
    assert_eq!(&f[..2], b"On");
}

#[test]
fn decode_messages() {
    let mut f = masked_frame(0x1, b"On", [9, 8, 7, 6]);
    assert_eq!(decode_message(&mut f), Ok(Message::On));
    let mut f = masked_frame(0x1, b"Off", [9, 8, 7, 6]);
    assert_eq!(decode_message(&mut f), Ok(Message::Off));
    let mut f = masked_frame(0x1, b"Of", [9, 8, 7, 6]);
    assert_eq!(decode_message(&mut f), Err(WebSocketError::InvalidMessage));
    let mut f = masked_frame(0x2, b"On", [9, 8, 7, 6]);
    assert_eq!(decode_message(&mut f), Err(WebSocketError::InvalidMessage));
    let mut f = masked_frame(0x9, b"", [9, 8, 7, 6]);
    assert_eq!(decode_message(&mut f), Err(WebSocketError::InvalidMessage));
}

#[test]
fn decodable_frames() {
    assert!(is_decodable_client_frame(&masked_frame(0x1, b"On", [1, 2, 3, 4])));
    assert!(!is_decodable_client_frame(&masked_frame(0x1, &[0xff, 0xfe], [1, 2, 3, 4])));
    assert!(is_decodable_client_frame(&masked_frame(0x2, &[0xff, 0xfe], [1, 2, 3, 4])));
    assert!(!is_decodable_client_frame(&[0x81, 0xfe, 0, 2, 1, 2, 3, 4, 5, 6]));
    // A text payload longer than the 1024-byte buffer.
    let mut big = vec![0x81, 0xff, 0, 0, 0, 0, 0, 0, 0x04, 0x01, 0, 0, 0, 0];
    big.extend(std::iter::repeat(b'a').take(1025));
    assert!(!is_decodable_client_frame(&big));
    big[9] = 0x00;
    big.truncate(14 + 1024);
    assert!(is_decodable_client_frame(&big));
    assert_eq!(decode_message(&mut big), Err(WebSocketError::InvalidMessage));
}

const REQUEST: &str = "GET /chat HTTP/1.1\r\nHost: server.example.com\r\nUpgrade: websocket\r\nConnection: Upgrade\r\nSec-WebSocket-Key: dGhlIHNhbXBsZSBub25jZQ==\r\nOrigin: http://example.com\r\nSec-WebSocket-Version: 13\r\n\r\n";

#[test]
fn find_key_in_request() {
    let (a, b) = find_websocket_key(REQUEST).unwrap();
    let key: String = REQUEST.chars().skip(a).take(b - a).collect();
    assert_eq!(key, "dGhlIHNhbXBsZSBub25jZQ==");
    assert_eq!(find_websocket_key("GET / HTTP/1.1\r\n\r\n"), None);
}

#[test]
fn handshake_answer() {
    let mut buf = [0u8; 1024];
    buf[..REQUEST.len()].copy_from_slice(REQUEST.as_bytes());
    assert!(is_acceptable_handshake(&buf));
    let response = websocket_accept_response(&buf);
    assert_eq!(
        response.as_str(),
        "HTTP/1.1 101 Switching Protocols\r\nUpgrade: websocket\r\nConnection: Upgrade\r\nSec-WebSocket-Accept: s3pPLMBiTxaQ9kYGzzhZRbK+xOo=\r\n\r\n"
    );
}

#[test]
fn handshake_refusals() {
    assert!(!is_acceptable_handshake(&[0xff, 0xfe]));
    assert!(!is_acceptable_handshake(&[b'a'; 1025]));
    let long = "Sec-WebSocket-Key: 0123456789012345678901234567890\r\n";
    assert!(!is_acceptable_handshake(long.as_bytes()));
    // Without a key nothing is hashed, and the request is taken.
    assert!(is_acceptable_handshake(b"GET / HTTP/1.1\r\n\r\n"));
}

#[test]
fn handshake_without_key_hashes_nothing() {
    let request = b"GET / HTTP/1.1\r\nHost: 10.0.0.2\r\n\r\n";
    assert!(is_acceptable_handshake(request));
    let response = websocket_accept_response(request);
    assert_eq!(
        response.as_str(),
        "HTTP/1.1 101 Switching Protocols\r\nUpgrade: websocket\r\nConnection: Upgrade\r\nSec-WebSocket-Accept: 2jmj7l5rSw0yVb/vlWAYkK/YBwk=\r\n\r\n"
    );
}

#[test]
fn key_and_guid_must_fit_together() {
    // 28 key bytes and the 36-byte GUID fill the 64 bytes exactly.
    let fits = "Sec-WebSocket-Key: 0123456789012345678901234567\r\n";
    assert!(is_acceptable_handshake(fits.as_bytes()));
    let too_long = "Sec-WebSocket-Key: 01234567890123456789012345678\r\n";
    assert!(!is_acceptable_handshake(too_long.as_bytes()));
}

#[test]
fn server_steps() {
    assert_eq!(next_server_step(Ok(Message::On)), ServerStep::Deliver(Message::On));
    assert_eq!(next_server_step(Ok(Message::Off)), ServerStep::Deliver(Message::Off));
    assert_eq!(next_server_step(Err(WebSocketError::InboxEmpy)), ServerStep::RetryAfterMs(100));
    assert_eq!(next_server_step(Err(WebSocketError::ConnectionReset)), ServerStep::Close);
}

#[test]
fn server_passes_messages_on_until_failure() {
    let reads = vec![
        Ok(Message::On),
        Err(WebSocketError::InboxEmpy),
        Ok(Message::Off),
        Err(WebSocketError::ConnectionReset),
        Ok(Message::On),
    ];
    let mut delivered = Vec::new();
    for read in reads {
        match next_server_step(read) {
            ServerStep::Deliver(m) => delivered.push(m),
            ServerStep::RetryAfterMs(_) => {}
            ServerStep::Close => break,
        }
    }
    assert_eq!(delivered, vec![Message::On, Message::Off]);
}

#[test]
fn read_outcomes() {
    let mut nothing: [u8; 0] = [];
    assert_eq!(read_outcome(false, &mut nothing), Err(WebSocketError::InboxEmpy));
    let mut frame = masked_frame(0x1, b"On", [1, 2, 3, 4]);
    assert_eq!(read_outcome(true, &mut frame), Ok(Message::On));
    assert_eq!(&frame[..2], b"On");
}
