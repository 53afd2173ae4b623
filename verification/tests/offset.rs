use fastapi_lsp::offset::{char_to_byte, offset_to_position, position_to_offset, Encoding};
use fastapi_lsp::position::Position;

#[test]
fn ascii_roundtrip() {
    let src = b"hello\nworld\n";
    let pos = Position::new(1, 3);
    let off = position_to_offset(src, pos, Encoding::Utf8);
    assert_eq!(off, 9);
    assert_eq!(offset_to_position(src, off, Encoding::Utf8), pos);
}

#[test]
fn utf16_surrogate_pair() {
    let src = "a\u{1F600}b".as_bytes();
    let pos_b_utf16 = Position::new(0, 3);
    let off = position_to_offset(src, pos_b_utf16, Encoding::Utf16);
    assert_eq!(off, 5);
}

#[test]
fn utf8_emoji() {
    let src = "a\u{1F600}b".as_bytes();
    let pos_b = Position::new(0, 5);
    let off = position_to_offset(src, pos_b, Encoding::Utf8);
    assert_eq!(off, 5);
}

#[test]
fn utf8_mid_codepoint_snaps_to_boundary() {
    let src = "a\u{1F600}b".as_bytes();
    for mid in 2u32..=4u32 {
        let off = position_to_offset(src, Position::new(0, mid), Encoding::Utf8);
        assert_eq!(off, 1, "byte {mid} should snap to emoji start (byte 1)");
        let text = std::str::from_utf8(src).unwrap();
        assert!(text.is_char_boundary(off), "offset {off} must be a char boundary");
    }
}

#[test]
fn utf8_mid_codepoint_at_byte_zero_snaps_to_zero() {
    let src = "\u{1F600}x".as_bytes();
    for mid in 1u32..=3u32 {
        let off = position_to_offset(src, Position::new(0, mid), Encoding::Utf8);
        assert_eq!(off, 0, "byte {mid} inside emoji-at-0 should snap to 0");
    }
}

#[test]
fn inverted_range_does_not_panic() {
    let src = "hello world".as_bytes();
    let start = position_to_offset(src, Position::new(0, 8), Encoding::Utf8);
    let end = position_to_offset(src, Position::new(0, 3), Encoding::Utf8);
    let (s, e) = (start.min(end), start.max(end));
    let mut text = "hello world".to_string();
    text.replace_range(s..e, "X");
    assert_eq!(text, "helXrld");
}

#[test]
fn encoding_names() {
    assert_eq!(Encoding::from_str("utf-8"), Encoding::Utf8);
    assert_eq!(Encoding::from_str("utf-16"), Encoding::Utf16);
    assert_eq!(Encoding::from_str("UTF-8"), Encoding::Utf16);
}

#[test]
fn utf16_columns_count_code_units() {
    let src = "x\nb\u{1F600}c\n".as_bytes();
    assert_eq!(offset_to_position(src, 7, Encoding::Utf16), Position::new(1, 3));
    assert_eq!(offset_to_position(src, 7, Encoding::Utf8), Position::new(1, 5));
    assert_eq!(offset_to_position(src, 100, Encoding::Utf8), Position::new(2, 0));
    assert_eq!(position_to_offset(src, Position::new(1, 3), Encoding::Utf16), 7);
    assert_eq!(position_to_offset(src, Position::new(5, 0), Encoding::Utf16), src.len());
}

#[test]
fn char_to_byte_handles_invalid_utf8() {
    let bad = [0x61u8, 0xFF, 0x62];
    assert_eq!(char_to_byte(&bad, 2, Encoding::Utf8), 2);
    assert_eq!(char_to_byte(&bad, 9, Encoding::Utf8), 3);
    assert_eq!(char_to_byte(&bad, 2, Encoding::Utf16), 0);
    assert_eq!(offset_to_position(&bad, 3, Encoding::Utf16), Position::new(0, 0));
}

#[test]
fn every_char_boundary_round_trips_in_both_encodings() {
    let text = "x = \"é\"\n\u{1F600}ab\u{1F600}\ncafé\n";
    let src = text.as_bytes();
    for enc in [Encoding::Utf8, Encoding::Utf16] {
        for o in 0..=src.len() {
            if text.is_char_boundary(o) {
                let p = offset_to_position(src, o, enc);
                assert_eq!(position_to_offset(src, p, enc), o);
            }
        }
    }
    assert_eq!(offset_to_position(src, 15, Encoding::Utf16), Position::new(1, 4));
    assert_eq!(offset_to_position(src, 15, Encoding::Utf8), Position::new(1, 6));
}
