//! The string encoding of DEX files.
use rasc::dex::mutf8::{decode_mutf8, decode_owned, encode_mutf8, push_decoded};

#[test]
fn the_ascii_shortcut_agrees_with_the_decoder() {
    for (bytes, expected) in [
        (&b"Lcom/example/Main;"[..], "Lcom/example/Main;"),
        (b"<init>", "<init>"),
        (&b""[..], ""),
        (b"a\x7fb", "a\x7fb"),
    ] {
        let mut pushed = String::new();
        push_decoded(&mut pushed, bytes);
        assert_eq!(pushed, expected);
        assert_eq!(decode_owned(bytes), expected);
    }
    // Non-ASCII still goes through the MUTF-8 decoder, including the two encodings
    // that are not UTF-8.
    for value in ["a\u{7f}b", "\u{e9}t\u{e9}", "\u{4e2d}\u{6587}", "A\u{1F600}Z", "n\0ul"] {
        let encoded = encode_mutf8(value);
        let mut pushed = String::new();
        push_decoded(&mut pushed, &encoded);
        assert_eq!(pushed, value, "{value:?}");
        assert_eq!(decode_owned(&encoded), value, "{value:?}");
    }
}

#[test]
fn mutf8_encodes_nul_and_supplementary_characters() {
    assert_eq!(encode_mutf8("a\0b"), b"a\xc0\x80b");
    assert_eq!(encode_mutf8("😀"), [0xed, 0xa0, 0xbd, 0xed, 0xb8, 0x80]);
    assert_eq!(decode_mutf8(&encode_mutf8("A😀\0Z")).unwrap(), "A😀\0Z");
}

/// The surrogate-pair rejection matrix:
/// lone high, lone low, swapped, oversized, and the truncation shapes.
#[test]
fn malformed_surrogates_and_truncation_are_rejected() {
    // High surrogate U+D83D followed by a private-use 3-byte sequence.
    assert_eq!(decode_mutf8(&[0xED, 0xA0, 0xBD, 0xEE, 0x88, 0x9F]), Err(0));
    // Low surrogate U+DE00 where a codepoint should start.
    assert_eq!(decode_mutf8(&[0xED, 0xB8, 0x80]), Err(0));
    // Low before high.
    assert_eq!(decode_mutf8(&[0xED, 0xB8, 0x80, 0xED, 0xA0, 0xBD]), Err(0));
    // High surrogate followed by U+FFFF.
    assert_eq!(decode_mutf8(&[0xED, 0xA0, 0xBD, 0xEF, 0xBF, 0xBF]), Err(0));
    // Truncated and bad-continuation shapes must not panic.
    assert!(decode_mutf8(&[0xC3]).is_err());
    assert!(decode_mutf8(&[0xE4, 0xB8]).is_err());
    assert!(decode_mutf8(&[0xED, 0xA0, 0xBD, 0xED]).is_err());
    assert!(decode_mutf8(&[0xED, 0xA0, 0xBD, 0xED, 0x00, 0x00]).is_err());
    // Overlong forms other than the encoded NUL.
    assert!(decode_mutf8(&[0xC1, 0x81]).is_err());
}

#[test]
fn the_terminator_and_the_encoded_nul_are_both_supported() {
    assert_eq!(decode_mutf8(&[0xC0, 0x80]).unwrap(), "\0");
    // A bare NUL ends the string; the tail is ignored.
    assert_eq!(decode_mutf8(b"ab\0cd").unwrap(), "ab");
}

/// What decodes is canonical: it encodes back to the bytes before the terminator.
#[test]
fn a_decoded_string_encodes_back() {
    let cases: [&[u8]; 5] = [
        b"plain\0tail",
        &[0xC0, 0x80, 0x41],
        &[0xC3, 0xA9, 0xE2, 0x82, 0xAC],
        &[0xED, 0xA0, 0xBD, 0xED, 0xB8, 0x80, 0x21, 0x00, 0xFF],
        b"",
    ];
    for bytes in cases {
        let end = bytes.iter().position(|byte| *byte == 0).unwrap_or(bytes.len());
        assert_eq!(encode_mutf8(&decode_mutf8(bytes).unwrap()), &bytes[..end]);
    }
}

/// The offset of an error is where the first malformed sequence starts: all before it decodes.
#[test]
fn an_error_points_at_the_first_malformed_sequence() {
    let cases: [(&[u8], usize); 3] = [
        (&[0x41, 0xC3, 0xA9, 0xFF, 0xFF], 3),
        (&[0xED, 0xA0, 0xBD, 0xED, 0xB8, 0x80, 0xC1, 0x81], 6),
        (&[0x41, 0x42, 0xE4, 0xB8], 2),
    ];
    for (bytes, at) in cases {
        assert_eq!(decode_mutf8(bytes), Err(at));
        let front = decode_mutf8(&bytes[..at]).unwrap();
        assert_eq!(encode_mutf8(&front), &bytes[..at]);
    }
}

/// Malformed bytes are shown as UTF-8 where they are that, and else with a replacement
/// character, so no malformed string is shown as an ASCII text.
#[test]
fn a_malformed_string_never_looks_like_ascii() {
    assert_eq!(decode_owned("a\u{1F600}".as_bytes()), "a\u{1F600}");
    assert_eq!(decode_owned(&[0x4C, 0xFF, 0x3B]), "L\u{FFFD};");
    assert_eq!(decode_owned(b"LA;"), "LA;");
}
