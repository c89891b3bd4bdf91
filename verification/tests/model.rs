use ai_imessage::model::{ExtractedMessage, TextSource, CHAT_STYLE_DIRECT, CHAT_STYLE_GROUP};
use ai_imessage::time::UtcTime;
use chrono::TimeZone;

fn utc(y: i32, mo: u32, d: u32, h: u32, mi: u32, s: u32) -> UtcTime {
    let t = chrono::Utc.with_ymd_and_hms(y, mo, d, h, mi, s).unwrap();
    UtcTime::from_timestamp(t.timestamp(), 0).unwrap()
}

fn sample() -> ExtractedMessage {
    ExtractedMessage {
        rowid: 1,
        guid: "guid-1".into(),
        chat_guid: Some("chat-1".into()),
        chat_style: Some(CHAT_STYLE_DIRECT),
        chat_display_name: None,
        sender_handle: Some("+15550104477".into()),
        is_from_me: false,
        sent_at: Some(utc(2026, 7, 1, 9, 14, 0)),
        text: Some("Hello".into()),
        text_source: TextSource::TextColumn,
        service: Some("iMessage".into()),
        reply_to_guid: None,
        edited_at: None,
        retracted_at: None,
        is_tapback: false,
        associated_type: None,
        is_system_event: false,
    }
}

#[test]
fn content_hash_is_stable() {
    assert_eq!(sample().content_hash(), sample().content_hash());
}

#[test]
fn content_hash_is_hex_sha256() {
    let hash = sample().content_hash();
    assert_eq!(hash.len(), 64);
    assert!(hash.chars().all(|c| c.is_ascii_hexdigit()));
}

#[test]
fn content_hash_changes_when_text_changes() {
    let mut edited = sample();
    edited.text = Some("Hello!".into());
    assert_ne!(sample().content_hash(), edited.content_hash());
}

#[test]
fn content_hash_changes_when_edited_at_changes() {
    let mut edited = sample();
    edited.edited_at = Some(utc(2026, 7, 1, 9, 20, 0));
    assert_ne!(sample().content_hash(), edited.content_hash());
}

#[test]
fn content_hash_changes_when_retracted() {
    let mut retracted = sample();
    retracted.retracted_at = Some(utc(2026, 7, 2, 0, 0, 0));
    assert_ne!(sample().content_hash(), retracted.content_hash());
}

#[test]
fn content_hash_distinguishes_none_text_from_empty_text() {
    // None and Some("") hash identically by design (both mean "no
    // content"), but a different guid must always differ.
    let mut other = sample();
    other.guid = "guid-2".into();
    assert_ne!(sample().content_hash(), other.content_hash());
}

#[test]
fn field_boundaries_cannot_collide() {
    // ("ab", "c") must not hash equal to ("a", "bc").
    let mut a = sample();
    a.guid = "ab".into();
    a.text = Some("c".into());
    let mut b = sample();
    b.guid = "a".into();
    b.text = Some("bc".into());
    assert_ne!(a.content_hash(), b.content_hash());
}

#[test]
fn group_chat_detection() {
    let mut m = sample();
    assert_eq!(m.is_group_chat(), Some(false));
    m.chat_style = Some(CHAT_STYLE_GROUP);
    assert_eq!(m.is_group_chat(), Some(true));
    m.chat_style = None;
    assert_eq!(m.is_group_chat(), None);
    m.chat_style = Some(99);
    assert_eq!(m.is_group_chat(), None);
}

#[test]
fn absent_and_empty_text_hash_the_same() {
    let mut none = sample();
    none.text = None;
    let mut empty = sample();
    empty.text = Some(String::new());
    assert_eq!(none.content_hash(), empty.content_hash());
}

#[test]
fn content_hash_covers_the_four_fields_each_closed_by_a_zero_byte() {
    assert_eq!(
        sample().content_hash(),
        "dd5ad7667fae9b39e1c2772949a57c69d048e221a7ebe56c7b63bd6fbaec9fdc"
    );
}

#[test]
fn instants_that_differ_are_spelled_differently() {
    let base = 1_782_897_240i64;
    let mut texts = Vec::new();
    for (secs, nanos) in [
        (base, 0),
        (base, 1),
        (base, 1_000),
        (base, 1_000_000),
        (base, 100_000_000),
        (base, 999_999_999),
        (base + 1, 0),
        (base - 86_400, 0),
        (-1, 0),
        (-1, 1),
        (253_402_300_800, 0),
    ] {
        texts.push(UtcTime::from_timestamp(secs, nanos).unwrap().to_rfc3339());
    }
    for (i, a) in texts.iter().enumerate() {
        assert!(!texts[..i].contains(a));
    }
    let mut later = sample();
    later.edited_at = UtcTime::from_timestamp(base, 0);
    let mut latest = sample();
    latest.edited_at = UtcTime::from_timestamp(base, 1);
    assert_ne!(later.content_hash(), latest.content_hash());
}
