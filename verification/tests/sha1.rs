use easy_iot::digest_text::{
    is_digest_hex_text, sha1_bytes_2_base64, sha1_bytes_2_str, sha1_str_2_bytes, sha1_string_2_bytes,
};
use easy_iot::sha1::compute_sha1;

fn hex(s: &str) -> [u8; 20] {
    let mut out = [0u8; 20];
    for i in 0..20 {
        out[i] = u8::from_str_radix(&s[2 * i..2 * i + 2], 16).unwrap();
    }
    out
}

#[test]
fn sec_websocket_accept() {
    let expected_sha1: [u8; 20] = [0xb3, 0x7a, 0x4f, 0x2c, 0xc0, 0x62, 0x4f, 0x16, 0x90, 0xf6, 0x46, 0x06, 0xcf, 0x38, 0x59, 0x45, 0xb2, 0xbe, 0xc4, 0xea];
    assert_eq!(expected_sha1, compute_sha1("dGhlIHNhbXBsZSBub25jZQ==258EAFA5-E914-47DA-95CA-C5AB0DC85B11".as_bytes()));
}

#[test]
fn sha1_of_empty_message() {
    assert_eq!(compute_sha1(b""), hex("da39a3ee5e6b4b0d3255bfef95601890afd80709"));
}

#[test]
fn sha1_rfc3174_test1_abc() {
    assert_eq!(compute_sha1(b"abc"), hex("a9993e364706816aba3e25717850c26c9cd0d89d"));
}

#[test]
fn sha1_rfc3174_test2_two_blocks_of_padding() {
    // 56 bytes: the length no longer fits in the block, so padding takes a second block.
    let msg = b"abcdbcdecdefdefgefghfghighijhijkijkljklmklmnlmnomnopnopq";
    assert_eq!(msg.len(), 56);
    assert_eq!(compute_sha1(msg), hex("84983e441c3bd26ebaae4aa1f95129e5e54670f1"));
}

#[test]
fn sha1_rfc3174_test3_million_a() {
    let msg = vec![b'a'; 1_000_000];
    assert_eq!(compute_sha1(&msg), hex("34aa973cd4c4daa4f61eeb2bdbad27316534016f"));
}

#[test]
fn sha1_rfc3174_test4_repeated_block() {
    let msg = b"0123456701234567012345670123456701234567012345670123456701234567".repeat(10);
    assert_eq!(msg.len(), 640);
    assert_eq!(compute_sha1(&msg), hex("dea356a2cddd90c7a7ecedc5ebb563934f460452"));
}

#[test]
fn sha1_of_one_full_block() {
    let msg = [b'a'; 64];
    assert_eq!(compute_sha1(&msg), hex("0098ba824b5c16427bd7a1122a5a442a25ec644d"));
}

#[test]
fn sha1_of_55_bytes_fits_one_padding_block() {
    let msg = [b'a'; 55];
    assert_eq!(compute_sha1(&msg), hex("c1c8bbdc22796e28c0e15163d20899b65621d65a"));
}

#[test]
fn digest_as_hex_text() {
    let digest = compute_sha1(b"abc");
    let text = sha1_bytes_2_str(&digest);
    assert_eq!(text.as_str(), "a9993e364706816aba3e25717850c26c9cd0d89d");
}

#[test]
fn digest_hex_roundtrip() {
    let digest = compute_sha1(b"roundtrip");
    let text = sha1_bytes_2_str(&digest);
    assert_eq!(sha1_str_2_bytes(text.as_str()), digest);
}

#[test]
fn digest_from_upper_case_hex() {
    assert_eq!(
        sha1_str_2_bytes("A9993E364706816ABA3E25717850C26C9CD0D89D"),
        compute_sha1(b"abc")
    );
}

#[test]
fn digest_hex_accepts_plus_sign_pairs() {
    // `u8::from_str_radix("+f", 16)` is 15.
    let text = "+f00000000000000000000000000000000000000";
    let bytes = sha1_str_2_bytes(text);
    assert_eq!(bytes[0], 0x0f);
    assert_eq!(&bytes[1..], &[0u8; 19]);
}

#[test]
fn digest_as_base64_text() {
    let digest = compute_sha1("dGhlIHNhbXBsZSBub25jZQ==258EAFA5-E914-47DA-95CA-C5AB0DC85B11".as_bytes());
    let text = sha1_bytes_2_base64(&digest);
    assert_eq!(text.as_str(), "s3pPLMBiTxaQ9kYGzzhZRbK+xOo=");
}

#[test]
fn base64_of_all_ones_digest() {
    let text = sha1_bytes_2_base64(&[0xff; 20]);
    assert_eq!(text.as_str(), "//////////////////////////8=");
}

#[test]
fn digest_hex_text_check() {
    assert!(is_digest_hex_text("a9993e364706816aba3e25717850c26c9cd0d89d"));
    assert!(is_digest_hex_text("+f00000000000000000000000000000000000000"));
    assert!(!is_digest_hex_text("a9993e364706816aba3e25717850c26c9cd0d89"));
    assert!(!is_digest_hex_text("g9993e364706816aba3e25717850c26c9cd0d89d"));
    assert!(!is_digest_hex_text("f+993e364706816aba3e25717850c26c9cd0d89d"));
    assert!(!is_digest_hex_text("é9993e364706816aba3e25717850c26c9cd0d89d"));
}

#[test]
fn digest_hex_string_roundtrip() {
    for input in [&b""[..], b"abc", b"roundtrip"] {
        let digest = compute_sha1(input);
        assert_eq!(sha1_string_2_bytes(&sha1_bytes_2_str(&digest)), Some(digest));
    }
    let all_ones = [0xffu8; 20];
    assert_eq!(sha1_string_2_bytes(&sha1_bytes_2_str(&all_ones)), Some(all_ones));
    let mut short: heapless::String<40> = heapless::String::new();
    short.push_str("abc").unwrap();
    assert_eq!(sha1_string_2_bytes(&short), None);
}
