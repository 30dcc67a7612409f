use lmdb_editor::codec::decode;
use lmdb_editor::codec::encode;

fn round_trip(bytes: &[u8]) {
    let input: Vec<u8> = bytes.to_vec();
    let text = encode(&input);
    let back = decode(&text).expect("encoded text must decode");
    assert_eq!(back, input);
}

#[test]
fn round_trip_empty() {
    round_trip(b"");
}

#[test]
fn round_trip_every_single_byte() {
    let mut b: u16 = 0;
    while b <= 255 {
        round_trip(&[b as u8]);
        b += 1;
    }
}

#[test]
fn round_trip_mixed_text_and_binary() {
    round_trip(b"hello world");
    round_trip(b"back\\slash and \x00 control \x1f bytes");
    round_trip(b"utf8: \xc3\xa9 \xe2\x9c\x93 \xf0\x9f\x99\x82 end");
    round_trip(b"stray continuation \x80 and lead \xc3 alone");
    round_trip(b"\xff\xfe\x00\x01\\\\double");
}

#[test]
fn encode_escapes_control_and_backslash() {
    let text = encode(&b"a\\b\x00\x1f".to_vec());
    assert_eq!(text, b"a\\\\b\\x00\\x1F".to_vec());
}

#[test]
fn encode_keeps_printable_and_utf8_verbatim() {
    let text = encode(&b"plain".to_vec());
    assert_eq!(text, b"plain".to_vec());
    let text = encode(&b"caf\xc3\xa9".to_vec());
    assert_eq!(text, b"caf\xc3\xa9".to_vec());
}

#[test]
fn encode_escapes_invalid_utf8() {
    let text = encode(&b"\x80".to_vec());
    assert_eq!(text, b"\\x80".to_vec());
    // A lead byte without its continuation is escaped, not passed through.
    let text = encode(&b"\xc3".to_vec());
    assert_eq!(text, b"\\xC3".to_vec());
}

#[test]
fn decode_rejects_invalid_hex_digits() {
    assert!(decode(&b"\\xZZ".to_vec()).is_err());
}

#[test]
fn decode_rejects_truncated_escape() {
    assert!(decode(&b"\\x".to_vec()).is_err());
    assert!(decode(&b"\\x4".to_vec()).is_err());
    assert!(decode(&b"\\".to_vec()).is_err());
}

#[test]
fn decode_rejects_unknown_escape() {
    assert!(decode(&b"\\q".to_vec()).is_err());
}

#[test]
fn decode_accepts_both_hex_cases() {
    assert_eq!(decode(&b"\\xff".to_vec()).unwrap(), vec![0xffu8]);
    assert_eq!(decode(&b"\\xFF".to_vec()).unwrap(), vec![0xffu8]);
    assert_eq!(decode(&b"\\x0a".to_vec()).unwrap(), vec![0x0au8]);
}

#[test]
fn decode_passes_plain_text_through() {
    assert_eq!(decode(&b"abc def".to_vec()).unwrap(), b"abc def".to_vec());
    assert_eq!(decode(&b"".to_vec()).unwrap(), Vec::<u8>::new());
}

#[test]
fn decode_unescapes_backslash() {
    assert_eq!(decode(&b"a\\\\b".to_vec()).unwrap(), b"a\\b".to_vec());
}
