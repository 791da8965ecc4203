use bottom::decode_byte;
use bottom::decode_string;
use bottom::encode_byte;
use bottom::encode_string;

#[test]
fn test_string_encode() {
    assert_eq!(
        encode_string("Test"),
        "\u{1F496}\u{2728}\u{2728}\u{2728},,,,\u{1F449}\u{1F448}\u{1F496}\u{1F496},\u{1F449}\u{1F448}\u{1F496}\u{1F496}\u{2728}\u{1F97A}\u{1F449}\u{1F448}\u{1F496}\u{1F496}\u{2728}\u{1F97A},\u{1F449}\u{1F448}"
    );
}

#[test]
fn test_byte_encode() {
    assert_eq!(encode_byte(b'h'), "\u{1F496}\u{1F496},,,,\u{1F449}\u{1F448}",);
}

#[test]
fn test_char_decode() {
    assert_eq!(decode_byte("\u{1F496}\u{1F496},,,,").unwrap(), b'h',);
}

#[test]
fn test_string_decode() {
    // Decoding must accept the legacy zero-width-space framing as well.
    assert_eq!(
        decode_string("\u{1F496}\u{2728}\u{2728}\u{2728},,,,\u{200B}\u{1F496}\u{1F496},\u{200B}\u{1F496}\u{1F496}\u{2728}\u{1F97A}\u{200B}\u{1F496}\u{1F496}\u{2728}\u{1F97A},\u{200B}")
            .unwrap(),
        "Test"
    );
    assert_eq!(
        decode_string("\u{1F496}\u{2728}\u{2728}\u{2728},,,,\u{1F449}\u{1F448}\u{1F496}\u{1F496},\u{1F449}\u{1F448}\u{1F496}\u{1F496}\u{2728}\u{1F97A}\u{1F449}\u{1F448}\u{1F496}\u{1F496}\u{2728}\u{1F97A},\u{1F449}\u{1F448}")
            .unwrap(),
        "Test"
    );
}

#[test]
fn test_unicode_string_encode() {
    assert_eq!(
        encode_string("\u{1F97A}"),
        "\u{1FAC2}\u{2728}\u{2728}\u{2728}\u{2728}\u{1F449}\u{1F448}\u{1F496}\u{1F496}\u{1F496}\u{1F97A},,,,\u{1F449}\u{1F448}\u{1F496}\u{1F496}\u{1F496}\u{2728}\u{1F97A}\u{1F449}\u{1F448}\u{1F496}\u{1F496}\u{1F496}\u{2728}\u{2728}\u{2728}\u{1F97A},\u{1F449}\u{1F448}"
    );
    assert_eq!(
        encode_string("\u{304C}\u{3093}\u{3070}\u{308C}"),
        "\u{1FAC2}\u{2728}\u{2728}\u{1F97A},,\u{1F449}\u{1F448}\u{1F496}\u{1F496}\u{2728}\u{2728}\u{1F97A},,,,\u{1F449}\u{1F448}\u{1F496}\u{1F496}\u{2728}\u{2728}\u{2728}\u{2728}\u{1F449}\u{1F448}\u{1FAC2}\u{2728}\u{2728}\u{1F97A},,\u{1F449}\u{1F448}\u{1F496}\u{1F496}\u{2728}\u{2728}\u{2728}\u{1F449}\u{1F448}\u{1F496}\u{1F496}\u{2728}\u{2728}\u{2728}\u{2728}\u{1F97A},,\u{1F449}\u{1F448}\u{1FAC2}\u{2728}\u{2728}\u{1F97A},,\u{1F449}\u{1F448}\u{1F496}\u{1F496}\u{2728}\u{2728}\u{1F97A},,,,\u{1F449}\u{1F448}\u{1F496}\u{1F496}\u{1F496}\u{2728}\u{2728}\u{1F97A},\u{1F449}\u{1F448}\u{1FAC2}\u{2728}\u{2728}\u{1F97A},,\u{1F449}\u{1F448}\u{1F496}\u{1F496}\u{2728}\u{2728}\u{2728}\u{1F449}\u{1F448}\u{1F496}\u{1F496}\u{2728}\u{2728}\u{2728}\u{2728}\u{1F449}\u{1F448}"
    );
}

#[test]
fn test_unicode_string_decode() {
    assert_eq!(
        decode_string("\u{1FAC2}\u{2728}\u{2728}\u{2728}\u{2728}\u{1F449}\u{1F448}\u{1F496}\u{1F496}\u{1F496}\u{1F97A},,,,\u{1F449}\u{1F448}\u{1F496}\u{1F496}\u{1F496}\u{2728}\u{1F97A}\u{1F449}\u{1F448}\u{1F496}\u{1F496}\u{1F496}\u{2728}\u{2728}\u{2728}\u{1F97A},\u{1F449}\u{1F448}")
            .unwrap(),
        "\u{1F97A}",
    );
    assert_eq!(
        decode_string(
            "\u{1FAC2}\u{2728}\u{2728}\u{1F97A},,\u{1F449}\u{1F448}\u{1F496}\u{1F496}\u{2728}\u{2728}\u{1F97A},,,,\u{1F449}\u{1F448}\u{1F496}\u{1F496}\u{2728}\u{2728}\u{2728}\u{2728}\u{1F449}\u{1F448}\u{1FAC2}\u{2728}\u{2728}\u{1F97A},,\u{1F449}\u{1F448}\u{1F496}\u{1F496}\u{2728}\u{2728}\u{2728}\u{1F449}\u{1F448}\u{1F496}\u{1F496}\u{2728}\u{2728}\u{2728}\u{2728}\u{1F97A},,\u{1F449}\u{1F448}\u{1FAC2}\u{2728}\u{2728}\u{1F97A},,\u{1F449}\u{1F448}\u{1F496}\u{1F496}\u{2728}\u{2728}\u{1F97A},,,,\u{1F449}\u{1F448}\u{1F496}\u{1F496}\u{1F496}\u{2728}\u{2728}\u{1F97A},\u{1F449}\u{1F448}\u{1FAC2}\u{2728}\u{2728}\u{1F97A},,\u{1F449}\u{1F448}\u{1F496}\u{1F496}\u{2728}\u{2728}\u{2728}\u{1F449}\u{1F448}\u{1F496}\u{1F496}\u{2728}\u{2728}\u{2728}\u{2728}\u{1F449}\u{1F448}"
        )
        .unwrap(),
        "\u{304C}\u{3093}\u{3070}\u{308C}",
    );
}

#[test]
fn test_embedded_null_byte() {
    assert_eq!(encode_string("\0"), "\u{2764}\u{FE0F}\u{1F449}\u{1F448}",);
    assert_eq!(decode_string("\u{2764}\u{FE0F}\u{1F449}\u{1F448}").unwrap(), "\0",);
}

#[test]
fn test_byte_round_trip_all_values() {
    // Round-trip law over the whole table: the entry encode_byte produces
    // decodes back to its byte, with and without the trailing marker.
    for b in 0..=255u8 {
        let full = encode_byte(b);
        assert_eq!(decode_byte(&full).unwrap(), b);
        let bare = full.strip_suffix("\u{1F449}\u{1F448}").unwrap();
        assert_eq!(decode_byte(bare).unwrap(), b);
    }
}

#[test]
fn test_glyphs_distinct() {
    // Bijectivity: the 256 table entries are pairwise distinct.
    let glyphs: Vec<String> = (0..=255u8).map(encode_byte).collect();
    for a in 0..256 {
        for b in (a + 1)..256 {
            assert_ne!(glyphs[a], glyphs[b]);
        }
    }
}

#[test]
fn test_string_round_trip_samples() {
    let samples = [
        "Test",
        "hello world",
        "\0\0two zero bytes\0",
        "\u{1F97A}\u{304C}mixed ascii and multi-byte\u{10FFFF}",
        ",,, punctuation that looks like glyph units ,,,",
    ];
    for t in samples {
        assert_eq!(decode_string(&encode_string(t)).unwrap(), t);
    }
}

#[test]
fn test_encode_deterministic() {
    let a = encode_string("determinism \u{1F97A}");
    let b = encode_string("determinism \u{1F97A}");
    assert_eq!(a.as_bytes(), b.as_bytes());
}

#[test]
fn test_legacy_and_current_decode_alike() {
    // The same source text, framed with either convention, decodes equally.
    let current = encode_string("hi");
    let legacy = current.replace("\u{1F449}\u{1F448}", "\u{200B}");
    assert_eq!(decode_string(&current).unwrap(), decode_string(&legacy).unwrap());
}

#[test]
fn test_decode_error_on_garbage() {
    let err = decode_string("hello").unwrap_err();
    assert_eq!(err.why, "Cannot decode character hello");
    assert_eq!(err.message(), "Cannot decode character hello");
}

#[test]
fn test_decode_error_names_first_bad_segment() {
    // First segment fine, second unrecognized.
    let tokens = "\u{1F496}\u{1F496},,,,\u{1F449}\u{1F448}ab\u{1F449}\u{1F448}";
    let err = decode_string(tokens).unwrap_err();
    assert_eq!(err.why, "Cannot decode character ab");
}

#[test]
fn test_decode_byte_error_message() {
    let err = decode_byte("abc").unwrap_err();
    assert_eq!(err.why, "Cannot decode character abc");
}

#[test]
fn test_non_canonical_glyph_rejected() {
    // Value 5 is framed as the pleading face, never as five commas; value
    // 200 as the hug, never as four sparkling hearts.
    assert!(decode_byte(",,,,,").is_err());
    assert!(decode_byte("\u{1F496}\u{1F496}\u{1F496}\u{1F496}").is_err());
    // A well-formed shape whose value exceeds a byte is not in the table.
    assert!(decode_byte("\u{1FAC2}\u{1F496}\u{1F496}").is_err());
}

#[test]
fn test_zero_byte_glyph() {
    assert_eq!(encode_byte(0), "\u{2764}\u{FE0F}\u{1F449}\u{1F448}");
    assert_eq!(decode_byte("\u{2764}\u{FE0F}").unwrap(), 0);
}

#[test]
fn test_lossy_reassembly_of_invalid_utf8() {
    // The glyph for byte 255 alone decodes to a byte sequence that is not
    // valid UTF-8; reassembly substitutes the replacement character.
    let out = decode_string("\u{1FAC2}\u{1F496}\u{1F97A}\u{1F449}\u{1F448}").unwrap();
    assert_eq!(out, "\u{FFFD}");
}

#[test]
fn test_empty_input() {
    // Encoding the empty text yields the empty token string; the decoder
    // treats an empty input as one empty (unrecognized) segment.
    assert_eq!(encode_string(""), "");
    assert!(decode_string("").is_err());
}
