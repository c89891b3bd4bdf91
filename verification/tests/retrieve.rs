use ai_imessage::index::SearchHit;
use ai_imessage::retrieve::{candidates, fuse};

fn hit(chunk_id: i64, snippet: &str) -> SearchHit {
    SearchHit {
        chunk_id,
        chat_label: "chat".into(),
        started_at_ms: None,
        ended_at_ms: None,
        message_count: 1,
        snippet: snippet.into(),
        score: None,
    }
}

/// The sum of the reciprocal ranks, as its bits.
fn rrf(ranks: &[u64]) -> u32 {
    let mut sum = 0f32;
    for rank in ranks {
        sum += 1.0 / (60.0 + *rank as f32 + 1.0);
    }
    sum.to_bits()
}

fn fused(keyword: Vec<SearchHit>, vector: Vec<SearchHit>, limit: usize) -> Vec<SearchHit> {
    let found = candidates(&keyword, &vector);
    let scores: Vec<u32> = found.iter().map(|c| rrf(&c.ranks)).collect();
    fuse(&found, &scores, limit)
}

#[test]
fn agreement_between_lists_outranks_a_single_first_place() {
    // Chunk 1 is #2 in both lists; chunks 2 and 3 are #1 in one list
    // each and absent from the other.
    let keyword = vec![hit(2, "kw-top"), hit(1, "both")];
    let vector = vec![hit(3, "vec-top"), hit(1, "both")];
    let fused = fused(keyword, vector, 10);
    assert_eq!(fused[0].chunk_id, 1);
}

#[test]
fn keyword_snippet_is_kept_for_chunks_found_by_both() {
    let keyword = vec![hit(1, "with «highlights»")];
    let vector = vec![hit(1, "plain truncation")];
    let fused = fused(keyword, vector, 10);
    assert_eq!(fused[0].snippet, "with «highlights»");
}

#[test]
fn empty_vector_list_degrades_to_keyword_order() {
    let keyword = vec![hit(5, "a"), hit(6, "b"), hit(7, "c")];
    let fused = fused(keyword, Vec::new(), 10);
    let ids: Vec<i64> = fused.iter().map(|h| h.chunk_id).collect();
    assert_eq!(ids, vec![5, 6, 7]);
}

#[test]
fn limit_truncates_the_fused_list() {
    let keyword = (0..20).map(|i| hit(i, "k")).collect();
    let fused = fused(keyword, Vec::new(), 3);
    assert_eq!(fused.len(), 3);
}

#[test]
fn fused_hits_carry_no_similarity_score() {
    let mut v = hit(1, "v");
    v.score = Some(0.9f32.to_bits());
    let fused = fused(Vec::new(), vec![v], 10);
    assert_eq!(fused[0].score, None);
}

#[test]
fn ties_break_deterministically_by_chunk_id() {
    let keyword = vec![hit(9, "a"), hit(4, "b")];
    let vector = vec![hit(4, "b"), hit(9, "a")];
    // Both chunks have identical fused scores (ranks 1+2 vs 2+1).
    let fused = fused(keyword, vector, 10);
    assert_eq!(fused[0].chunk_id, 4);
    assert_eq!(fused[1].chunk_id, 9);
}

#[test]
fn candidates_carry_their_ranks_and_come_once() {
    let keyword = vec![hit(9, "a"), hit(4, "b")];
    let vector = vec![hit(7, "c"), hit(9, "d")];
    let found = candidates(&keyword, &vector);
    let shown: Vec<(i64, Vec<u64>)> = found
        .iter()
        .map(|c| (c.hit.chunk_id, c.ranks.clone()))
        .collect();
    assert_eq!(
        shown,
        vec![(9, vec![0, 1]), (4, vec![1]), (7, vec![0])]
    );
}

#[test]
fn a_hit_of_the_vectors_alone_is_kept_as_it_was_found() {
    let keyword = vec![hit(1, "keyword")];
    let vector = vec![hit(2, "vector"), hit(1, "both")];
    let found = candidates(&keyword, &vector);
    assert_eq!(found.len(), 2);
    let shown: Vec<(i64, &str, Vec<u64>)> = found
        .iter()
        .map(|c| (c.hit.chunk_id, c.hit.snippet.as_str(), c.ranks.clone()))
        .collect();
    assert!(shown.contains(&(1, "keyword", vec![0, 1])));
    assert!(shown.contains(&(2, "vector", vec![0])));
}
