use ai_imessage::typedstream::{
    decode_length, encode_text, extract_text, STREAMTYPED_HEADER, STRING_VALUE_MARKER,
};

#[test]
fn roundtrip_simple_text() {
    let blob = encode_text("Hello from typedstream");
    assert_eq!(
        extract_text(&blob).as_deref(),
        Some("Hello from typedstream")
    );
}

#[test]
fn roundtrip_empty_string() {
    let blob = encode_text("");
    assert_eq!(extract_text(&blob).as_deref(), Some(""));
}

#[test]
fn roundtrip_unicode_and_emoji() {
    let text = "Grüße aus Köln 🎉🇩🇪 — 中文也可以";
    let blob = encode_text(text);
    assert_eq!(extract_text(&blob).as_deref(), Some(text));
}

#[test]
fn roundtrip_long_text_uses_u16_length() {
    let text = "a".repeat(5000);
    let blob = encode_text(&text);
    // Verify the encoder actually took the 0x81/u16 path.
    assert!(blob.windows(3).any(|w| w == [0x81, 0x88, 0x13])); // 5000 LE
    assert_eq!(extract_text(&blob).as_deref(), Some(text.as_str()));
}

#[test]
fn roundtrip_very_long_text_uses_u32_length() {
    let text = "b".repeat(70_000);
    let blob = encode_text(&text);
    assert_eq!(extract_text(&blob).as_deref(), Some(text.as_str()));
}

#[test]
fn roundtrip_text_at_length_boundaries() {
    for len in [0x7e, 0x7f, 0x80, 0x81, 0xff, 0x100] {
        let text = "x".repeat(len);
        assert_eq!(
            extract_text(&encode_text(&text)).as_deref(),
            Some(text.as_str()),
            "failed at length {len}"
        );
    }
}

#[test]
fn text_containing_class_names_is_not_confused() {
    // The literal string "NSString" inside the body must not derail the
    // parser, since the class declaration comes first in the stream.
    let text = "did you mean NSString or NSMutableString?";
    assert_eq!(extract_text(&encode_text(text)).as_deref(), Some(text));
}

#[test]
fn empty_blob_is_rejected() {
    assert_eq!(extract_text(b""), None);
}

#[test]
fn non_typedstream_blob_is_rejected() {
    assert_eq!(extract_text(b"this is definitely not a typedstream"), None);
    assert_eq!(extract_text(&[0x00, 0x01, 0x02, 0x03]), None);
}

#[test]
fn header_only_blob_is_rejected() {
    assert_eq!(extract_text(&STREAMTYPED_HEADER), None);
}

#[test]
fn truncated_blob_is_rejected() {
    let blob = encode_text("Hello, this message will be cut off");
    // Cut into the middle of the text bytes.
    let truncated = &blob[..blob.len() - 20];
    assert_eq!(extract_text(truncated), None);
}

#[test]
fn truncated_length_prefix_is_rejected() {
    let mut blob = encode_text(&"y".repeat(300));
    // Find the 0x81 length marker and cut immediately after it.
    let pos = blob.iter().position(|&b| b == 0x81).unwrap();
    blob.truncate(pos + 1);
    assert_eq!(extract_text(&blob), None);
}

#[test]
fn invalid_utf8_is_rejected() {
    let mut blob = encode_text("abcd");
    let len = blob.len();
    // Corrupt the text bytes (they sit just before the 5-byte trailer).
    blob[len - 7] = 0xff;
    blob[len - 6] = 0xfe;
    assert_eq!(extract_text(&blob), None);
}

#[test]
fn declared_length_beyond_blob_is_rejected() {
    let mut blob = encode_text("hi");
    // Bump the single-byte length far past the real end.
    let pos = blob.iter().position(|&b| b == STRING_VALUE_MARKER).unwrap();
    blob[pos + 1] = 0x7f;
    assert_eq!(extract_text(&blob), None);
}

#[test]
fn garbage_after_header_is_rejected_without_panic() {
    let mut blob = STREAMTYPED_HEADER.to_vec();
    blob.extend_from_slice(&[0xde, 0xad, 0xbe, 0xef, 0x84, 0x92, 0x2b]);
    assert_eq!(extract_text(&blob), None);
}

#[test]
fn reserved_length_markers_are_rejected() {
    assert_eq!(decode_length(&[0x85, 0x01, 0x02]), None);
    assert_eq!(decode_length(&[0xff]), None);
    assert_eq!(decode_length(&[]), None);
}

#[test]
fn decode_length_handles_all_encodings() {
    assert_eq!(decode_length(&[0x05]), Some((5, 1)));
    assert_eq!(decode_length(&[0x7f]), Some((127, 1)));
    assert_eq!(decode_length(&[0x81, 0x00, 0x01]), Some((256, 3)));
    assert_eq!(
        decode_length(&[0x82, 0x00, 0x00, 0x01, 0x00]),
        Some((65536, 5))
    );
}

#[test]
fn a_blob_cut_anywhere_before_its_text_ends_gives_nothing() {
    for text in ["short", "naïve", &"y".repeat(300)] {
        let blob = encode_text(text);
        let bytes = text.as_bytes();
        let at = blob
            .windows(bytes.len())
            .position(|w| w == bytes)
            .unwrap();
        let end = at + bytes.len();
        for n in 0..end {
            assert_eq!(extract_text(&blob[..n]), None);
        }
        assert_eq!(extract_text(&blob[..end]).as_deref(), Some(text));
        let mut longer = blob[..end].to_vec();
        longer.extend_from_slice(b"NSString and more");
        assert_eq!(extract_text(&longer).as_deref(), Some(text));
    }
}
