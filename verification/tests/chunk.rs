use ai_imessage::chunk::{chunk_messages, ChunkInput, ChunkParams};

const PARAMS: ChunkParams = ChunkParams {
    gap_minutes: 45,
    target_tokens: 750,
    overlap_messages: 3,
};

fn msg(sender: &str, text: &str, minute: i64) -> ChunkInput {
    ChunkInput {
        sender: sender.into(),
        text: text.into(),
        sent_at_ms: Some(minute * 60_000),
    }
}

#[test]
fn empty_input_yields_no_chunks() {
    assert!(chunk_messages("chat", &[], &PARAMS).is_empty());
}

#[test]
fn one_conversation_becomes_one_chunk() {
    let msgs = vec![
        msg("Me", "want lunch?", 0),
        msg("Alice", "sure, noon?", 1),
        msg("Me", "see you there", 2),
    ];
    let chunks = chunk_messages("chat", &msgs, &PARAMS);
    assert_eq!(chunks.len(), 1);
    assert_eq!(chunks[0].message_count, 3);
    assert_eq!(
        chunks[0].text,
        "Me: want lunch?\nAlice: sure, noon?\nMe: see you there"
    );
    assert_eq!(chunks[0].started_at_ms, Some(0));
    assert_eq!(chunks[0].ended_at_ms, Some(2 * 60_000));
}

#[test]
fn a_long_lull_starts_a_new_chunk_without_overlap() {
    let msgs = vec![
        msg("Me", "good night", 0),
        msg("Alice", "night!", 1),
        // Next morning.
        msg("Alice", "coffee?", 60 * 9),
    ];
    let chunks = chunk_messages("chat", &msgs, &PARAMS);
    assert_eq!(chunks.len(), 2);
    assert_eq!(chunks[0].message_count, 2);
    assert_eq!(chunks[1].message_count, 1);
    assert_eq!(chunks[1].text, "Alice: coffee?");
}

#[test]
fn gap_exactly_at_threshold_does_not_split() {
    let msgs = vec![msg("Me", "a", 0), msg("Me", "b", 45)];
    assert_eq!(chunk_messages("chat", &msgs, &PARAMS).len(), 1);
    let past = vec![msg("Me", "a", 0), msg("Me", "b", 46)];
    assert_eq!(chunk_messages("chat", &past, &PARAMS).len(), 2);
}

#[test]
fn size_split_carries_overlap_messages() {
    // Each message is ~100 tokens, so the 8th message crosses 750.
    let big = "x".repeat(400);
    let msgs: Vec<ChunkInput> = (0..10).map(|i| msg("Me", &big, i)).collect();
    let chunks = chunk_messages("chat", &msgs, &PARAMS);
    assert!(chunks.len() >= 2);
    // The second chunk repeats the last 3 messages of the first.
    let first_lines: Vec<&str> = chunks[0].text.lines().collect();
    let second_lines: Vec<&str> = chunks[1].text.lines().collect();
    assert_eq!(
        &first_lines[first_lines.len() - 3..],
        &second_lines[..3],
        "overlap messages must repeat"
    );
    // Every original message appears at least once.
    let total: u32 = chunks.iter().map(|c| c.message_count).sum();
    assert!(total >= 10);
}

#[test]
fn messages_without_timestamps_never_gap_split() {
    let mut msgs = vec![msg("Me", "a", 0)];
    msgs.push(ChunkInput {
        sender: "Me".into(),
        text: "b".into(),
        sent_at_ms: None,
    });
    msgs.push(msg("Me", "c", 600));
    assert_eq!(chunk_messages("chat", &msgs, &PARAMS).len(), 1);
}

#[test]
fn hashes_are_stable_and_scoped_to_the_chat() {
    let msgs = vec![msg("Me", "hello", 0)];
    let a = chunk_messages("chat-a", &msgs, &PARAMS);
    let b = chunk_messages("chat-a", &msgs, &PARAMS);
    let c = chunk_messages("chat-b", &msgs, &PARAMS);
    assert_eq!(a[0].content_hash, b[0].content_hash);
    assert_ne!(a[0].content_hash, c[0].content_hash);
}

#[test]
fn hash_changes_when_a_message_changes() {
    let a = chunk_messages("chat", &[msg("Me", "hello", 0)], &PARAMS);
    let b = chunk_messages("chat", &[msg("Me", "hello!", 0)], &PARAMS);
    assert_ne!(a[0].content_hash, b[0].content_hash);
}

#[test]
fn appending_messages_keeps_earlier_chunk_hashes() {
    let mut msgs = vec![msg("Me", "good night", 0), msg("Alice", "night!", 1)];
    let before = chunk_messages("chat", &msgs, &PARAMS);
    msgs.push(msg("Alice", "coffee?", 60 * 9));
    let after = chunk_messages("chat", &msgs, &PARAMS);
    // The lull isolates the old chunk, so its hash (and any embedding
    // keyed on it) survives.
    assert_eq!(before[0].content_hash, after[0].content_hash);
}

#[test]
fn every_hash_has_sixty_four_digits() {
    let msgs = vec![msg("Me", "hello", 0), msg("Alice", "hi", 600)];
    for c in chunk_messages("chat", &msgs, &PARAMS) {
        assert_eq!(c.content_hash.len(), 64);
        assert!(c.content_hash.chars().all(|d| "0123456789abcdef".contains(d)));
    }
}
