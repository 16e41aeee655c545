use network_common::handshake::{
    accept_key_of_digest, accept_response, compute_accept_key, get_accept_response, is_websocket_upgrade,
};
use network_common::http::Request;
use network_common::websockets::{bit_vec_to_u32, payload_len_to_bits, SocketMessage};

#[test]
fn new_message_frame_bytes() {
    let message = SocketMessage::new("Hi".to_string());
    assert_eq!(message.payload_len(), 3);
    assert!(message.fin());
    assert_eq!(message.opcode(), 1);
    assert_eq!(message.to_bytes(), vec![0x81, 0x03, b'H', b'i', 0]);
}

#[test]
fn empty_payload_frame_has_no_terminator() {
    let message = SocketMessage::new(String::new());
    assert_eq!(message.to_bytes(), vec![0x81, 0x01]);
}

#[test]
fn default_message_fields() {
    let message = SocketMessage::default();
    assert!(message.fin());
    assert_eq!(message.rsv(), (false, false, false));
    assert_eq!(message.opcode(), 1);
    assert!(!message.mask());
    assert_eq!(message.payload_len(), 0);
    assert!(message.mask_key().is_empty());
    assert_eq!(message.payload, "");
}

#[test]
fn set_payload_counts_utf8_bytes() {
    let mut message = SocketMessage::default();
    message.set_payload("é".to_string());
    assert_eq!(message.payload_len(), 3);
    assert_eq!(message.to_bytes(), vec![0x81, 0x03, 0xC3, 0xA9, 0]);
}

#[test]
fn long_payload_length_keeps_low_seven_bits() {
    let text = "a".repeat(200);
    let message = SocketMessage::new(text);
    let bytes = message.to_bytes();
    assert_eq!(bytes[1], (201u32 & 0x7f) as u8);
    assert_eq!(bytes.len(), 2 + 200 + 1);
}

#[test]
fn from_message_unmasks_payload() {
    // The masked "Hello" frame of RFC 6455, section 5.7.
    let frame = [0x81, 0x85, 0x37, 0xfa, 0x21, 0x3d, 0x7f, 0x9f, 0x4d, 0x51, 0x58];
    let message = SocketMessage::from_message(&frame).unwrap();
    assert!(message.fin());
    assert_eq!(message.rsv(), (false, false, false));
    assert_eq!(message.opcode(), 1);
    assert!(message.mask());
    assert_eq!(message.payload_len(), 5);
    assert_eq!(message.mask_key(), &[0x37, 0xfa, 0x21, 0x3d][..]);
    assert_eq!(message.payload, "Hello");
    assert!(!message.is_close());
}

#[test]
fn from_message_in_a_larger_buffer() {
    let mut buffer = [0u8; 1024];
    let frame = [0x88, 0x80, 1, 2, 3, 4];
    buffer[..6].copy_from_slice(&frame);
    let message = SocketMessage::from_message(&buffer).unwrap();
    assert_eq!(message.opcode(), 8);
    assert!(message.is_close());
    assert_eq!(message.payload, "");
}

#[test]
fn trailing_bytes_do_not_change_the_message() {
    let frame = vec![0x81, 0x83, 1, 2, 3, 4, b'a' ^ 1, b'b' ^ 2, b'c' ^ 3];
    let mut longer = frame.clone();
    longer.extend_from_slice(&[9, 9, 9, 9]);
    let a = SocketMessage::from_message(&frame).unwrap();
    let b = SocketMessage::from_message(&longer).unwrap();
    assert_eq!(a.payload, "abc");
    assert_eq!(b.payload, a.payload);
    assert_eq!(b.mask_key(), a.mask_key());
    assert_eq!(b.payload_len(), a.payload_len());
    assert_eq!(b.opcode(), a.opcode());
    assert_eq!((b.fin(), b.mask()), (a.fin(), a.mask()));
}

#[test]
fn set_payload_changes_only_the_length_field() {
    let mut message = SocketMessage::from_message(&[0x12, 0x85, 0, 0, 0, 0, 1, 2, 3, 4, 5]).unwrap();
    let before = message.to_bytes();
    message.set_payload("xy".to_string());
    let after = message.to_bytes();
    assert_eq!(after[0], before[0]);
    assert_eq!(after[1], (before[1] & 0x80) | 3);
    assert_eq!(message.payload, "xy");
}

#[test]
fn from_message_five_bytes_reads_zero_key_byte() {
    let frame = [0x01, 0x00, 9, 8, 7];
    let message = SocketMessage::from_message(&frame).unwrap();
    assert!(!message.fin());
    assert_eq!(message.mask_key(), &[9, 8, 7, 0][..]);
}

#[test]
fn decodable_frames() {
    assert!(SocketMessage::is_decodable(&[0x81, 0x00, 1, 2, 3]));
    assert!(!SocketMessage::is_decodable(&[0x81, 0x00, 1, 2]));
    assert!(SocketMessage::is_decodable(&[0x81, 0x82, 1, 2, 3, 4, 5, 6]));
    assert!(!SocketMessage::is_decodable(&[0x81, 0x83, 1, 2, 3, 4, 5, 6]));
    let mut long = vec![0x81, 0xfe];
    long.extend(vec![0; 300]);
    assert!(!SocketMessage::is_decodable(&long));
    long[1] = 0xff;
    assert!(!SocketMessage::is_decodable(&long));
    long[1] = 0xfd;
    assert!(SocketMessage::is_decodable(&long));
}

#[test]
fn from_message_bytes_become_latin1_chars() {
    let frame = [0x81, 0x01, 0, 0, 0, 0, 0xE9];
    let message = SocketMessage::from_message(&frame).unwrap();
    assert_eq!(message.payload, "é");
}

#[test]
fn payload_len_bits_roundtrip() {
    assert_eq!(payload_len_to_bits(5), vec![false, false, false, false, true, false, true]);
    assert_eq!(bit_vec_to_u32(&payload_len_to_bits(5)), 5);
    assert_eq!(bit_vec_to_u32(&payload_len_to_bits(300)), 300 & 0x7f);
}

#[test]
fn bit_vec_to_u32_values() {
    assert_eq!(bit_vec_to_u32(&vec![]), 0);
    assert_eq!(bit_vec_to_u32(&vec![true, false, true, true]), 11);
    assert_eq!(bit_vec_to_u32(&vec![true; 32]), u32::MAX);
    let mut long = vec![false; 8];
    long.extend(vec![true; 32]);
    assert_eq!(bit_vec_to_u32(&long), u32::MAX);
}

#[test]
fn accept_key_of_rfc_example() {
    assert_eq!(compute_accept_key("dGhlIHNhbXBsZSBub25jZQ=="), "s3pPLMBiTxaQ9kYGzzhZRbK+xOo=");
}

#[test]
fn accept_key_of_digest_is_base64() {
    let digest: [u8; 20] = [
        179, 122, 79, 44, 192, 98, 79, 22, 144, 246, 70, 6, 207, 56, 89, 69, 178, 190, 196, 234,
    ];
    assert_eq!(accept_key_of_digest(&digest), "s3pPLMBiTxaQ9kYGzzhZRbK+xOo=");
    assert_eq!(accept_key_of_digest(&[]), "");
    assert_eq!(accept_key_of_digest(b"f"), "Zg==");
    assert_eq!(accept_key_of_digest(b"fo"), "Zm8=");
    assert_eq!(accept_key_of_digest(b"foo"), "Zm9v");
    assert_eq!(accept_key_of_digest(b"foob"), "Zm9vYg==");
}

#[test]
fn accept_response_text_carries_the_key() {
    assert_eq!(
        accept_response("abc"),
        "HTTP/1.1 101 Switching Protocols\r\nUpgrade: websocket\r\nConnection: Upgrade\r\nSec-WebSocket-Accept: abc\r\nSec-WebSocket-Protocol: chat\r\n\n"
    );
}

#[test]
fn accept_response_for_upgrade_request() {
    let text = "GET /chat HTTP/1.1\r\nHost: server.example.com\r\nUpgrade: websocket\r\nSec-WebSocket-Key: dGhlIHNhbXBsZSBub25jZQ==\r\nConnection: Upgrade\r\n\r\n";
    let request = Request::parse(text).unwrap();
    assert!(is_websocket_upgrade(&request));
    assert_eq!(
        get_accept_response(&request),
        "HTTP/1.1 101 Switching Protocols\r\nUpgrade: websocket\r\nConnection: Upgrade\r\nSec-WebSocket-Accept: s3pPLMBiTxaQ9kYGzzhZRbK+xOo=\r\nSec-WebSocket-Protocol: chat\r\n\n"
    );
}

#[test]
fn plain_request_is_not_an_upgrade() {
    let text = "GET / HTTP/1.1\r\nHost: a\r\nUpgrade: h2c\r\nAccept: */*\r\n\r\n";
    let request = Request::parse(text).unwrap();
    assert!(!is_websocket_upgrade(&request));
}
