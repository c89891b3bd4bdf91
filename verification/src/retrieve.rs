//! Hybrid retrieval: fuses keyword ranking and vector ranking by reciprocal
//! rank fusion.
//!
//! Fusion looks at ranks only, never at raw scores, so scores that live on
//! incomparable scales need no calibration: each list contributes
//! `1 / (K + rank)`, and chunks found by both lists rise. The sum is taken in
//! floating point by the caller; here stands what the ranks are and what the
//! sums decide.
use crate::index;
use crate::index::{HitView, IndexDb, SearchHit};
use crate::lists;
use crate::order;
use crate::search;
use crate::tables::Tables;
use vstd::prelude::*;

verus! {

/// How many results each search contributes, and how many come out.
#[derive(Debug, Clone, Copy, PartialEq, Eq)]
pub struct RetrievalParams {
    pub fts_candidates: u32,
    pub vector_candidates: u32,
    pub limit: u32,
}

/// A chunk that a search found, with its ranks (counted from zero): that in
/// the keyword list first, that in the vector list behind it.
#[derive(Debug, Clone, PartialEq, Eq)]
pub struct Candidate {
    pub hit: SearchHit,
    pub ranks: Vec<u64>,
}

/// The contents of a [`Candidate`].
pub struct CandidateView {
    pub hit: HitView,
    pub ranks: Seq<u64>,
}

impl View for Candidate {
    type V = CandidateView;

    open spec fn view(&self) -> CandidateView {
        CandidateView { hit: self.hit@, ranks: self.ranks@ }
    }
}

/// The contents of a list of candidates.
pub open spec fn candidate_views(cs: Seq<Candidate>) -> Seq<CandidateView> {
    cs.map_values(|c: Candidate| c@)
}

/// A hit without its similarity: that of one search means nothing on a fused
/// list, where the order itself is the result.
pub open spec fn unscored(h: HitView) -> HitView {
    HitView { score: None, ..h }
}

/// The condition that a candidate is a chunk.
pub open spec fn is_chunk(chunk_id: i64) -> spec_fn(CandidateView) -> bool {
    |c: CandidateView| c.hit.chunk_id == chunk_id
}

/// The candidates after one more hit: a chunk that is already there gets one
/// more rank and keeps its hit, another is added.
pub open spec fn with_hit(cs: Seq<CandidateView>, rank: u64, h: HitView) -> Seq<CandidateView> {
    match lists::first_index(cs, is_chunk(h.chunk_id)) {
        Some(i) => cs.update(
            i,
            CandidateView { hit: cs[i].hit, ranks: cs[i].ranks.push(rank) },
        ),
        None => cs.push(CandidateView { hit: unscored(h), ranks: seq![rank] }),
    }
}

/// The candidates after a list of hits.
pub open spec fn with_hits(cs: Seq<CandidateView>, hits: Seq<HitView>) -> Seq<CandidateView>
    decreases hits.len(),
{
    if hits.len() == 0 {
        cs
    } else {
        with_hit(with_hits(cs, hits.drop_last()), (hits.len() - 1) as u64, hits.last())
    }
}

/// The candidates that two lists of hits give.
pub open spec fn gathered(keyword: Seq<HitView>, vector: Seq<HitView>) -> Seq<CandidateView> {
    with_hits(with_hits(Seq::empty(), keyword), vector)
}

fn copy_hit(h: &SearchHit) -> (r: SearchHit)
    ensures
        r@ == unscored(h@),
{
    SearchHit {
        chunk_id: h.chunk_id,
        chat_label: h.chat_label.clone(),
        started_at_ms: h.started_at_ms,
        ended_at_ms: h.ended_at_ms,
        message_count: h.message_count,
        snippet: h.snippet.clone(),
        score: None,
    }
}

fn find(cs: &Vec<Candidate>, chunk_id: i64) -> (r: Option<usize>)
    ensures
        r is Some <==> lists::first_index(candidate_views(cs@), is_chunk(chunk_id)) is Some,
        r matches Some(i) ==> i < cs@.len() && lists::first_index(
            candidate_views(cs@),
            is_chunk(chunk_id),
        ) == Some(i as int),
{
    let ghost p = is_chunk(chunk_id);
    let ghost all = candidate_views(cs@);
    let mut i: usize = 0;
    while i < cs.len()
        invariant
            i <= cs@.len(),
            p == is_chunk(chunk_id),
            all == candidate_views(cs@),
            forall|j: int| 0 <= j < i ==> !p(#[trigger] all[j]),
        decreases cs@.len() - i,
    {
        assert(all[i as int] == cs@[i as int]@);
        if cs[i].hit.chunk_id == chunk_id {
            proof {
                lists::lemma_is_first_index(all, p, i as int);
            }
            return Some(i);
        }
        i = i + 1;
    }
    proof {
        lists::lemma_no_first_index(all, p);
    }
    None
}

fn add_hits(cs: Vec<Candidate>, hits: &[SearchHit]) -> (r: Vec<Candidate>)
    ensures
        candidate_views(r@) == with_hits(candidate_views(cs@), index::hit_views(hits@)),
{
    let ghost all = index::hit_views(hits@);
    let ghost start = candidate_views(cs@);
    let mut cs = cs;
    let mut i: usize = 0;
    while i < hits.len()
        invariant
            i <= hits@.len(),
            all == index::hit_views(hits@),
            candidate_views(cs@) == with_hits(start, all.take(i as int)),
        decreases hits@.len() - i,
    {
        let h = &hits[i];
        proof {
            assert(all[i as int] == h@);
            assert(all.take(i + 1).drop_last() =~= all.take(i as int));
        }
        let ghost before = candidate_views(cs@);
        match find(&cs, h.chunk_id) {
            Some(k) => {
                let ghost old_cs = cs@;
                cs[k].ranks.push(i as u64);
                proof {
                    assert(before[k as int] == old_cs[k as int]@);
                    assert(cs@[k as int]@.ranks =~= before[k as int].ranks.push(i as u64));
                    assert(candidate_views(cs@) =~= before.update(k as int, cs@[k as int]@));
                }
            },
            None => {
                let mut ranks: Vec<u64> = Vec::new();
                ranks.push(i as u64);
                let c = Candidate { hit: copy_hit(h), ranks };
                let ghost shown = c@;
                cs.push(c);
                proof {
                    assert(shown.ranks =~= seq![i as u64]);
                    assert(candidate_views(cs@) =~= before.push(shown));
                }
            },
        }
        i = i + 1;
    }
    proof {
        assert(all.take(i as int) =~= all);
    }
    cs
}

/// The chunks that two searches found, each once. The keyword list wins on
/// presentation: its snippets carry «highlight» markers, which beat the start
/// of a chunk.
pub fn candidates(keyword: &[SearchHit], vector: &[SearchHit]) -> (r: Vec<Candidate>)
    ensures
        candidate_views(r@) == gathered(index::hit_views(keyword@), index::hit_views(vector@)),
{
    let empty: Vec<Candidate> = Vec::new();
    proof {
        assert(candidate_views(empty@) =~= Seq::<CandidateView>::empty());
    }
    let first = add_hits(empty, keyword);
    add_hits(first, vector)
}

/// The sort key of a candidate: the best sum first, equal sums by chunk.
pub open spec fn fusion_key(c: CandidateView, score: u32) -> (i128, i128) {
    (-(score as int) as i128, c.hit.chunk_id as i128)
}

/// The sort keys of candidates.
pub open spec fn fusion_keys(cs: Seq<CandidateView>, scores: Seq<u32>) -> Seq<(i128, i128)> {
    Seq::new(cs.len(), |i: int| fusion_key(cs[i], scores[i]))
}

/// The candidates by their sums, at most `limit`.
pub open spec fn fused(cs: Seq<CandidateView>, scores: Seq<u32>, limit: nat) -> Seq<HitView> {
    search::first_of(
        order::arranged(cs, fusion_keys(cs, scores)).map_values(|c: CandidateView| unscored(c.hit)),
        limit,
    )
}

/// Ranks candidates by the sums of their reciprocal ranks, given as the bits
/// of positive single-precision numbers: the best first, equal sums by chunk
/// id.
pub fn fuse(cs: &[Candidate], scores: &[u32], limit: usize) -> (r: Vec<SearchHit>)
    requires
        scores@.len() == cs@.len(),
    ensures
        index::hit_views(r@) == fused(candidate_views(cs@), scores@, limit as nat),
{
    let ghost all = candidate_views(cs@);
    let ghost want_keys = fusion_keys(all, scores@);
    let mut keys: Vec<(i128, i128)> = Vec::new();
    let mut i: usize = 0;
    while i < cs.len()
        invariant
            i <= cs@.len(),
            scores@.len() == cs@.len(),
            all == candidate_views(cs@),
            want_keys == fusion_keys(all, scores@),
            keys@ == want_keys.take(i as int),
        decreases cs@.len() - i,
    {
        assert(all[i as int] == cs@[i as int]@);
        keys.push((-(scores[i] as i128), cs[i].hit.chunk_id as i128));
        proof {
            assert(want_keys.take(i + 1) =~= want_keys.take(i as int).push(want_keys[i as int]));
        }
        i = i + 1;
    }
    proof {
        assert(want_keys.take(i as int) =~= want_keys);
    }
    let ord = order::order(&keys);
    let ghost want = order::arranged(all, keys@).map_values(|c: CandidateView| unscored(c.hit));
    let mut r: Vec<SearchHit> = Vec::new();
    let mut k: usize = 0;
    proof {
        assert(index::hit_views(r@) =~= want.take(0));
    }
    while k < ord.len() && k < limit
        invariant
            k <= ord@.len(),
            k <= limit,
            ord@.len() == cs@.len() == keys@.len(),
            lists::ints(ord@) == order::order_of(keys@),
            all == candidate_views(cs@),
            want == order::arranged(all, keys@).map_values(|c: CandidateView| unscored(c.hit)),
            forall|k: int| 0 <= k < ord@.len() ==> (#[trigger] ord@[k]) < keys@.len(),
            index::hit_views(r@) == want.take(k as int),
        decreases ord@.len() - k,
    {
        let h = copy_hit(&cs[ord[k]].hit);
        let ghost before = index::hit_views(r@);
        let ghost shown = h@;
        r.push(h);
        proof {
            assert(lists::ints(ord@)[k as int] == ord@[k as int]);
            assert(all[ord@[k as int] as int] == cs@[ord@[k as int] as int]@);
            assert(want[k as int] == shown);
            assert(index::hit_views(r@) =~= before.push(shown));
            assert(want.take(k + 1) =~= want.take(k as int).push(want[k as int]));
        }
        k = k + 1;
    }
    proof {
        assert(lists::ints(ord@).len() == ord@.len());
        assert(index::hit_views(r@) =~= search::first_of(want, limit as nat));
    }
    r
}

/// What a hybrid search finds: the chunks of the keyword search and, when
/// the query could be embedded, of the vector search. Without a query vector
/// (an index without embeddings) retrieval degrades to keyword ranking rather
/// than failing.
pub fn hybrid_search(
    index: &IndexDb,
    matches: &[(i64, String)],
    scores: Option<&[(i64, u32)]>,
    params: &RetrievalParams,
) -> (r: Vec<Candidate>)
    ensures
        candidate_views(r@) == hybrid(
            index@,
            search::match_views(matches@),
            match scores {
                Some(s) => Some(s@),
                None => None,
            },
            *params,
        ),
{
    let keyword = index.search(matches, params.fts_candidates);
    let vector = match scores {
        Some(s) => index.vector_search(s, params.vector_candidates),
        None => Vec::new(),
    };
    proof {
        if scores is None {
            assert(index::hit_views(vector@) =~= Seq::<HitView>::empty());
        }
    }
    candidates(&keyword, &vector)
}

/// What a hybrid search finds.
pub open spec fn hybrid(
    t: Tables,
    matches: Seq<(i64, Seq<char>)>,
    scores: Option<Seq<(i64, u32)>>,
    params: RetrievalParams,
) -> Seq<CandidateView> {
    gathered(
        search::first_of(search::keyword_results(t, matches), params.fts_candidates as nat),
        match scores {
            Some(s) => search::vector_results(
                t,
                search::ranked(s, params.vector_candidates as nat),
            ),
            None => Seq::empty(),
        },
    )
}

/// What holds of candidates however many hits were added.
pub open spec fn well_gathered(cs: Seq<CandidateView>) -> bool {
    &&& forall|i: int, j: int|
        0 <= i < j < cs.len() ==> (#[trigger] cs[i]).hit.chunk_id != (#[trigger] cs[j]).hit.chunk_id
    &&& forall|i: int|
        0 <= i < cs.len() ==> (#[trigger] cs[i]).hit.score is None && cs[i].ranks.len() > 0
}

/// Whether candidates include a chunk.
pub open spec fn has_chunk(cs: Seq<CandidateView>, chunk_id: i64) -> bool {
    lists::first_index(cs, is_chunk(chunk_id)) is Some
}

proof fn lemma_with_hit(cs: Seq<CandidateView>, rank: u64, h: HitView)
    requires
        well_gathered(cs),
    ensures
        well_gathered(with_hit(cs, rank, h)),
        with_hit(cs, rank, h).len() >= cs.len(),
        forall|i: int|
            0 <= i < cs.len() ==> (#[trigger] with_hit(cs, rank, h)[i]).hit == cs[i].hit,
        exists|i: int|
            0 <= i < with_hit(cs, rank, h).len() && (#[trigger] with_hit(
                cs,
                rank,
                h,
            )[i]).hit.chunk_id == h.chunk_id,
        !has_chunk(cs, h.chunk_id) ==> with_hit(cs, rank, h).last().hit == unscored(h),
        forall|i: int|
            cs.len() <= i < with_hit(cs, rank, h).len() ==> (#[trigger] with_hit(
                cs,
                rank,
                h,
            )[i]).hit == unscored(h),
{
    lists::lemma_first_index(cs, is_chunk(h.chunk_id));
    let r = with_hit(cs, rank, h);
    match lists::first_index(cs, is_chunk(h.chunk_id)) {
        Some(i) => {
            assert(r[i].hit.chunk_id == h.chunk_id);
        },
        None => {
            assert(r[cs.len() as int].hit.chunk_id == h.chunk_id);
            assert forall|i: int| 0 <= i < cs.len() implies (#[trigger] cs[i]).hit.chunk_id
                != h.chunk_id by {
                assert(!is_chunk(h.chunk_id)(cs[i]));
            }
        },
    }
}

proof fn lemma_with_hits(cs: Seq<CandidateView>, hits: Seq<HitView>)
    requires
        well_gathered(cs),
    ensures
        well_gathered(with_hits(cs, hits)),
        with_hits(cs, hits).len() >= cs.len(),
        forall|i: int|
            0 <= i < cs.len() ==> (#[trigger] with_hits(cs, hits)[i]).hit == cs[i].hit,
        forall|k: int|
            0 <= k < hits.len() ==> #[trigger] among(with_hits(cs, hits), hits[k].chunk_id),
        forall|i: int|
            cs.len() <= i < with_hits(cs, hits).len() ==> exists|k: int|
                0 <= k < hits.len() && (#[trigger] with_hits(cs, hits)[i]).hit == unscored(
                    #[trigger] hits[k],
                ),
    decreases hits.len(),
{
    if hits.len() > 0 {
        let front = hits.drop_last();
        lemma_with_hits(cs, front);
        let mid = with_hits(cs, front);
        let rank = (hits.len() - 1) as u64;
        lemma_with_hit(mid, rank, hits.last());
        let r = with_hits(cs, hits);
        assert forall|k: int| 0 <= k < hits.len() implies #[trigger] among(r, hits[k].chunk_id) by {
            if k < front.len() {
                assert(front[k] == hits[k]);
                assert(among(mid, front[k].chunk_id));
                let i = choose|i: int|
                    0 <= i < mid.len() && (#[trigger] mid[i]).hit.chunk_id == hits[k].chunk_id;
                assert(r[i].hit == mid[i].hit);
            } else {
                assert(hits[k] == hits.last());
            }
        }
        assert forall|i: int| cs.len() <= i < r.len() implies exists|k: int|
            0 <= k < hits.len() && (#[trigger] r[i]).hit == unscored(#[trigger] hits[k]) by {
            if i < mid.len() {
                assert(r[i].hit == mid[i].hit);
                let k = choose|k: int|
                    0 <= k < front.len() && mid[i].hit == unscored(#[trigger] front[k]);
                assert(front[k] == hits[k]);
            } else {
                assert(r[i].hit == unscored(hits[hits.len() - 1]));
            }
        }
    }
}

/// Whether a chunk is among candidates.
pub open spec fn among(cs: Seq<CandidateView>, chunk_id: i64) -> bool {
    exists|i: int| 0 <= i < cs.len() && (#[trigger] cs[i]).hit.chunk_id == chunk_id
}

/// No chunk is a candidate twice, every chunk that either search found is
/// one, no candidate carries a similarity, the hit shown for a chunk of the
/// keyword list is one of that list, and the hit shown for any other chunk is
/// one of the vector list.
pub proof fn law_candidates(keyword: Seq<HitView>, vector: Seq<HitView>)
    ensures
        well_gathered(gathered(keyword, vector)),
        forall|k: int|
            0 <= k < keyword.len() ==> #[trigger] among(
                gathered(keyword, vector),
                keyword[k].chunk_id,
            ),
        forall|k: int|
            0 <= k < vector.len() ==> #[trigger] among(
                gathered(keyword, vector),
                vector[k].chunk_id,
            ),
        forall|i: int, k: int|
            0 <= i < gathered(keyword, vector).len() && 0 <= k < keyword.len() && (
            #[trigger] gathered(keyword, vector)[i]).hit.chunk_id == (
            #[trigger] keyword[k]).chunk_id ==> from_list(gathered(keyword, vector)[i].hit, keyword),
        forall|i: int|
            0 <= i < gathered(keyword, vector).len() && !finds(
                keyword,
                (#[trigger] gathered(keyword, vector)[i]).hit.chunk_id,
            ) ==> from_list(gathered(keyword, vector)[i].hit, vector),
{
    let mid = with_hits(Seq::empty(), keyword);
    lemma_with_hits(Seq::empty(), keyword);
    lemma_with_hits(mid, vector);
    let r = gathered(keyword, vector);
    assert forall|k: int| 0 <= k < keyword.len() implies #[trigger] among(
        r,
        keyword[k].chunk_id,
    ) by {
        assert(among(mid, keyword[k].chunk_id));
        let i = choose|i: int|
            0 <= i < mid.len() && (#[trigger] mid[i]).hit.chunk_id == keyword[k].chunk_id;
        assert(r[i].hit == mid[i].hit);
    }
    assert forall|i: int, k: int|
        0 <= i < r.len() && 0 <= k < keyword.len() && (#[trigger] r[i]).hit.chunk_id == (
        #[trigger] keyword[k]).chunk_id implies from_list(r[i].hit, keyword) by {
        assert(among(mid, keyword[k].chunk_id));
        let j = choose|j: int|
            0 <= j < mid.len() && (#[trigger] mid[j]).hit.chunk_id == keyword[k].chunk_id;
        assert(r[j].hit == mid[j].hit);
        assert(i == j);
        let m = choose|m: int| 0 <= m < keyword.len() && mid[j].hit == unscored(#[trigger] keyword[m]);
        assert(from_list(r[i].hit, keyword));
    }
    assert forall|i: int|
        0 <= i < r.len() && !finds(keyword, (#[trigger] r[i]).hit.chunk_id) implies from_list(
        r[i].hit,
        vector,
    ) by {
        if i < mid.len() {
            assert(r[i].hit == mid[i].hit);
            let m = choose|m: int|
                0 <= m < keyword.len() && mid[i].hit == unscored(#[trigger] keyword[m]);
            assert(keyword[m].chunk_id == r[i].hit.chunk_id);
            assert(false);
        }
        let m = choose|m: int| 0 <= m < vector.len() && r[i].hit == unscored(#[trigger] vector[m]);
        assert(from_list(r[i].hit, vector));
    }
}

/// Whether a list holds a hit of a chunk.
pub open spec fn finds(hits: Seq<HitView>, chunk_id: i64) -> bool {
    exists|k: int| 0 <= k < hits.len() && (#[trigger] hits[k]).chunk_id == chunk_id
}

/// Whether a hit is one of a list, similarity aside.
pub open spec fn from_list(h: HitView, hits: Seq<HitView>) -> bool {
    exists|m: int| 0 <= m < hits.len() && h == unscored(#[trigger] hits[m])
}

/// With only one list, whose sums fall with the rank, the order stays that of
/// the list.
pub proof fn law_one_list_keeps_its_order(keyword: Seq<HitView>, scores: Seq<u32>, limit: nat)
    requires
        keyword.len() <= usize::MAX,
        scores.len() == keyword.len(),
        forall|i: int, j: int|
            0 <= i < j < keyword.len() ==> (#[trigger] keyword[i]).chunk_id != (
            #[trigger] keyword[j]).chunk_id,
        forall|i: int, j: int|
            0 <= i < j < scores.len() ==> (#[trigger] scores[i]) > (#[trigger] scores[j]),
    ensures
        fused(gathered(keyword, Seq::empty()), scores, limit) == search::first_of(
            keyword.map_values(|h: HitView| unscored(h)),
            limit,
        ),
{
    let cs = gathered(keyword, Seq::empty());
    lemma_distinct_hits(keyword);
    let keys = fusion_keys(cs, scores);
    order::lemma_order_is_permutation(keys);
    let o = order::order_of(keys);
    assert forall|k: int| 0 <= k < o.len() implies o[k] == k by {
        lemma_sorted_order(keys, k);
    }
    let a = order::arranged(cs, keys).map_values(|c: CandidateView| unscored(c.hit));
    let b = keyword.map_values(|h: HitView| unscored(h));
    assert forall|k: int| 0 <= k < a.len() implies a[k] == b[k] by {
        assert(order::arranged(cs, keys)[k] == cs[o[k]]);
    }
    assert(a =~= b);
}

proof fn lemma_distinct_hits(keyword: Seq<HitView>)
    requires
        forall|i: int, j: int|
            0 <= i < j < keyword.len() ==> (#[trigger] keyword[i]).chunk_id != (
            #[trigger] keyword[j]).chunk_id,
    ensures
        gathered(keyword, Seq::empty()).len() == keyword.len(),
        forall|i: int|
            0 <= i < keyword.len() ==> (#[trigger] gathered(keyword, Seq::empty())[i]).hit
                == unscored(keyword[i]),
    decreases keyword.len(),
{
    if keyword.len() > 0 {
        let front = keyword.drop_last();
        assert forall|i: int, j: int| 0 <= i < j < front.len() implies (
        #[trigger] front[i]).chunk_id != (#[trigger] front[j]).chunk_id by {
            assert(front[i] == keyword[i] && front[j] == keyword[j]);
        }
        lemma_distinct_hits(front);
        let mid = gathered(front, Seq::empty());
        let last = keyword.last();
        assert forall|i: int| 0 <= i < mid.len() implies !is_chunk(last.chunk_id)(
            #[trigger] mid[i],
        ) by {
            assert(mid[i].hit == unscored(front[i]));
            assert(front[i] == keyword[i]);
            assert(keyword[keyword.len() - 1] == last);
        }
        lists::lemma_no_first_index(mid, is_chunk(last.chunk_id));
        let r = gathered(keyword, Seq::empty());
        assert(r =~= mid.push(
            CandidateView { hit: unscored(last), ranks: seq![(keyword.len() - 1) as u64] },
        ));
        assert forall|i: int| 0 <= i < keyword.len() implies (#[trigger] r[i]).hit == unscored(
            keyword[i],
        ) by {
            if i < mid.len() {
                assert(r[i] == mid[i] && front[i] == keyword[i]);
            }
        }
    }
}

/// Keys that rise are in order already.
proof fn lemma_sorted_order(keys: Seq<(i128, i128)>, k: int)
    requires
        keys.len() <= usize::MAX,
        0 <= k < keys.len(),
        forall|i: int, j: int|
            0 <= i < j < keys.len() ==> (#[trigger] keys[i]).0 < (#[trigger] keys[j]).0,
    ensures
        order::order_of(keys)[k] == k,
    decreases k,
{
    let o = order::order_of(keys);
    order::lemma_order_is_permutation(keys);
    assert forall|j: int| 0 <= j < k implies o[j] == j by {
        lemma_sorted_order(keys, j);
    }
    if o[k] < k {
        assert(o[o[k]] == o[k]);
        assert(false);
    }
    if o[k] > k {
        assert(o.contains(k));
        let m = choose|m: int| 0 <= m < o.len() && o[m] == k;
        if m < k {
            assert(o[m] == m);
        } else {
            assert(m > k);
            order::law_order_sorts(keys, k, m);
            assert(keys[k].0 < keys[o[k]].0);
        }
        assert(false);
    }
}

/// The ranks that a candidate had before a list of hits was added.
spec fn ranks_before(cs: Seq<CandidateView>, i: int) -> Seq<u64> {
    if i < cs.len() {
        cs[i].ranks
    } else {
        Seq::empty()
    }
}

proof fn lemma_ranks(cs: Seq<CandidateView>, hits: Seq<HitView>)
    requires
        well_gathered(cs),
        hits.len() <= u64::MAX,
        forall|i: int, j: int|
            0 <= i < j < hits.len() ==> (#[trigger] hits[i]).chunk_id != (
            #[trigger] hits[j]).chunk_id,
    ensures
        ({
            let r = with_hits(cs, hits);
            &&& forall|i: int, k: int|
                0 <= i < r.len() && 0 <= k < hits.len() && (#[trigger] r[i]).hit.chunk_id == (
                #[trigger] hits[k]).chunk_id ==> r[i].ranks == ranks_before(cs, i).push(k as u64)
            &&& forall|i: int|
                0 <= i < r.len() && !finds(hits, (#[trigger] r[i]).hit.chunk_id) ==> i < cs.len()
                    && r[i].ranks == cs[i].ranks
        }),
    decreases hits.len(),
{
    lemma_with_hits(cs, hits);
    let r = with_hits(cs, hits);
    if hits.len() > 0 {
        let front = hits.drop_last();
        let n = hits.len() - 1;
        let last = hits[n];
        assert forall|i: int, j: int| 0 <= i < j < front.len() implies (
        #[trigger] front[i]).chunk_id != (#[trigger] front[j]).chunk_id by {
            assert(front[i] == hits[i] && front[j] == hits[j]);
        }
        lemma_ranks(cs, front);
        lemma_with_hits(cs, front);
        let mid = with_hits(cs, front);
        lists::lemma_first_index(mid, is_chunk(last.chunk_id));
        assert(!finds(front, last.chunk_id)) by {
            if finds(front, last.chunk_id) {
                let k = choose|k: int|
                    0 <= k < front.len() && (#[trigger] front[k]).chunk_id == last.chunk_id;
                assert(hits[k].chunk_id != hits[n].chunk_id);
            }
        }
        assert forall|i: int, k: int|
            0 <= i < r.len() && 0 <= k < hits.len() && (#[trigger] r[i]).hit.chunk_id == (
            #[trigger] hits[k]).chunk_id implies r[i].ranks == ranks_before(cs, i).push(
            k as u64,
        ) by {
            if k < n {
                assert(front[k] == hits[k]);
                assert(hits[k].chunk_id != hits[n].chunk_id);
                match lists::first_index(mid, is_chunk(last.chunk_id)) {
                    Some(x) => {
                        assert(mid[x].hit.chunk_id == last.chunk_id);
                        assert(i != x);
                    },
                    None => {},
                }
                assert(r[i] == mid[i]);
            } else {
                match lists::first_index(mid, is_chunk(last.chunk_id)) {
                    Some(x) => {
                        assert(r[x].hit.chunk_id == last.chunk_id);
                        assert(i == x);
                        assert(!finds(front, mid[x].hit.chunk_id));
                    },
                    None => {
                        if i < mid.len() {
                            assert(r[i] == mid[i]);
                            assert(!is_chunk(last.chunk_id)(mid[i]));
                        }
                        assert(r[i].ranks =~= ranks_before(cs, i).push(k as u64));
                    },
                }
            }
        }
        assert forall|i: int|
            0 <= i < r.len() && !finds(hits, (#[trigger] r[i]).hit.chunk_id) implies i < cs.len()
            && r[i].ranks == cs[i].ranks by {
            assert(hits[n].chunk_id != r[i].hit.chunk_id);
            assert(!finds(front, r[i].hit.chunk_id)) by {
                if finds(front, r[i].hit.chunk_id) {
                    let k = choose|k: int|
                        0 <= k < front.len() && (#[trigger] front[k]).chunk_id
                            == r[i].hit.chunk_id;
                    assert(hits[k].chunk_id == r[i].hit.chunk_id);
                }
            }
            match lists::first_index(mid, is_chunk(last.chunk_id)) {
                Some(x) => {
                    assert(r[x].hit.chunk_id == last.chunk_id);
                },
                None => {},
            }
            assert(r[i] == mid[i]);
        }
    }
}

/// A candidate's ranks are the places at which its chunk stands in the two
/// lists, counted from zero: first that in the keyword list, where it is in it,
/// and then that in the vector list, where it is in it; and nothing else.
pub proof fn law_ranks_are_places(keyword: Seq<HitView>, vector: Seq<HitView>, i: int)
    requires
        keyword.len() <= u64::MAX,
        vector.len() <= u64::MAX,
        forall|i: int, j: int|
            0 <= i < j < keyword.len() ==> (#[trigger] keyword[i]).chunk_id != (
            #[trigger] keyword[j]).chunk_id,
        forall|i: int, j: int|
            0 <= i < j < vector.len() ==> (#[trigger] vector[i]).chunk_id != (
            #[trigger] vector[j]).chunk_id,
        0 <= i < gathered(keyword, vector).len(),
    ensures
        ({
            let c = gathered(keyword, vector)[i];
            let in_keyword = exists|k: int|
                0 <= k < keyword.len() && (#[trigger] keyword[k]).chunk_id == c.hit.chunk_id;
            let in_vector = exists|k: int|
                0 <= k < vector.len() && (#[trigger] vector[k]).chunk_id == c.hit.chunk_id;
            &&& in_keyword || in_vector
            &&& c.ranks.len() == (if in_keyword && in_vector {
                2int
            } else {
                1int
            })
            &&& forall|k: int|
                0 <= k < keyword.len() && (#[trigger] keyword[k]).chunk_id == c.hit.chunk_id
                    ==> c.ranks[0] == k
            &&& forall|k: int|
                0 <= k < vector.len() && (#[trigger] vector[k]).chunk_id == c.hit.chunk_id
                    ==> c.ranks[c.ranks.len() - 1] == k
        }),
{
    let none = Seq::<CandidateView>::empty();
    let mid = with_hits(none, keyword);
    let r = gathered(keyword, vector);
    let id = r[i].hit.chunk_id;
    lemma_with_hits(none, keyword);
    lemma_ranks(none, keyword);
    lemma_with_hits(mid, vector);
    lemma_ranks(mid, vector);
    if i < mid.len() {
        assert(mid[i].hit == r[i].hit);
        assert(finds(keyword, id));
    } else {
        assert(finds(vector, id));
        if finds(keyword, id) {
            let k = choose|k: int| 0 <= k < keyword.len() && (#[trigger] keyword[k]).chunk_id == id;
            assert(among(mid, keyword[k].chunk_id));
            let j = choose|j: int| 0 <= j < mid.len() && (#[trigger] mid[j]).hit.chunk_id == id;
            assert(r[j].hit == mid[j].hit);
        }
    }
}

/// What fusion returns: the hits of the candidates at the places `o`, which are
/// all different and as many as there are candidates, up to the limit. They come
/// with falling sums, and by chunk id where sums are equal; no candidate that is
/// left out has a larger sum than one that is shown, or an equal one and a
/// smaller chunk id. What is shown of a candidate is its hit without a
/// similarity.
pub proof fn law_fusion_ranks_by_sum(cs: Seq<CandidateView>, scores: Seq<u32>, limit: nat) -> (o:
    Seq<int>)
    requires
        cs.len() <= usize::MAX,
        scores.len() == cs.len(),
    ensures
        fused(cs, scores, limit).len() == o.len(),
        o.len() == if cs.len() < limit {
            cs.len()
        } else {
            limit
        },
        o.no_duplicates(),
        forall|a: int|
            0 <= a < o.len() ==> 0 <= #[trigger] o[a] < cs.len() && fused(cs, scores, limit)[a] == (
            HitView { score: None, ..cs[o[a]].hit }),
        forall|a: int, b: int|
            0 <= a < b < o.len() ==> scores[#[trigger] o[a]] > scores[#[trigger] o[b]] || (
            scores[o[a]] == scores[o[b]] && cs[o[a]].hit.chunk_id <= cs[o[b]].hit.chunk_id),
        forall|a: int, j: int|
            0 <= a < o.len() && 0 <= j < cs.len() && !o.contains(j) ==> scores[#[trigger] o[a]]
                > #[trigger] scores[j] || (scores[o[a]] == scores[j] && cs[o[a]].hit.chunk_id
                <= cs[j].hit.chunk_id),
{
    let keys = fusion_keys(cs, scores);
    order::lemma_order_is_permutation(keys);
    let all = order::order_of(keys);
    let n: int = if cs.len() < limit {
        cs.len() as int
    } else {
        limit as int
    };
    let o = all.take(n);
    let shown = order::arranged(cs, keys).map_values(|c: CandidateView| unscored(c.hit));
    assert forall|a: int| 0 <= a < o.len() implies 0 <= #[trigger] o[a] < cs.len() && fused(
        cs,
        scores,
        limit,
    )[a] == (HitView { score: None, ..cs[o[a]].hit }) by {
        assert(o[a] == all[a]);
        assert(shown[a] == unscored(cs[all[a]].hit));
    }
    assert forall|a: int, b: int| 0 <= a < b < o.len() implies scores[#[trigger] o[a]]
        > scores[#[trigger] o[b]] || (scores[o[a]] == scores[o[b]] && cs[o[a]].hit.chunk_id
        <= cs[o[b]].hit.chunk_id) by {
        order::law_order_sorts(keys, a, b);
    }
    assert forall|a: int, j: int|
        0 <= a < o.len() && 0 <= j < cs.len() && !o.contains(j) implies scores[#[trigger] o[a]]
        > #[trigger] scores[j] || (scores[o[a]] == scores[j] && cs[o[a]].hit.chunk_id
        <= cs[j].hit.chunk_id) by {
        assert(all.contains(j));
        let b = choose|b: int| 0 <= b < all.len() && all[b] == j;
        if b < n {
            assert(o[b] == j);
        }
        order::law_order_sorts(keys, a, b);
    }
    o
}

/// What a hybrid search looks at: at most as many keyword results and as many
/// vector results as the parameters say. A match among the first
/// `fts_candidates` whose chunk is in the index is a candidate, and so is every
/// such chunk among the `vector_candidates` best.
pub proof fn law_what_hybrid_search_looks_at(
    t: Tables,
    matches: Seq<(i64, Seq<char>)>,
    scores: Option<Seq<(i64, u32)>>,
    params: RetrievalParams,
)
    ensures
        ({
            let found = hybrid(t, matches, scores, params);
            &&& scores is None ==> found.len() <= params.fts_candidates
            &&& found.len() <= params.fts_candidates + params.vector_candidates
            &&& forall|k: int|
                0 <= k < matches.len() && k < params.fts_candidates && search::has_chunk(
                    t,
                    (#[trigger] matches[k]).0,
                ) ==> among(found, matches[k].0)
            &&& scores matches Some(s) ==> forall|k: int|
                0 <= k < search::ranked(s, params.vector_candidates as nat).len()
                    && search::has_chunk(
                    t,
                    (#[trigger] search::ranked(s, params.vector_candidates as nat)[k]).0,
                ) ==> among(found, search::ranked(s, params.vector_candidates as nat)[k].0)
        }),
{
    let keyword = search::first_of(
        search::keyword_results(t, matches),
        params.fts_candidates as nat,
    );
    let vector = match scores {
        Some(s) => search::vector_results(t, search::ranked(s, params.vector_candidates as nat)),
        None => Seq::empty(),
    };
    let found = hybrid(t, matches, scores, params);
    let o = search::law_search_results(t, matches, params.fts_candidates as nat);
    law_candidates(keyword, vector);
    lemma_as_many_as_hits(Seq::empty(), keyword);
    lemma_as_many_as_hits(with_hits(Seq::empty(), keyword), vector);
    assert forall|k: int|
        0 <= k < matches.len() && k < params.fts_candidates && search::has_chunk(
            t,
            (#[trigger] matches[k]).0,
        ) implies among(found, matches[k].0) by {
        if !o.contains(k) {
            lemma_below(o, k);
        }
        let n = choose|n: int| 0 <= n < o.len() && o[n] == k;
        assert(search::shows(t, keyword[n], matches[o[n]].0));
        assert(among(found, keyword[n].chunk_id));
    }
    match scores {
        Some(s) => {
            let best = search::ranked(s, params.vector_candidates as nat);
            let v = search::law_vector_results(t, best);
            lemma_below(v, best.len() as int);
            assert forall|k: int| 0 <= k < best.len() && search::has_chunk(
                t,
                (#[trigger] best[k]).0,
            ) implies among(found, best[k].0) by {
                assert(v.contains(k));
                let n = choose|n: int| 0 <= n < v.len() && v[n] == k;
                assert(search::shows(t, vector[n], best[v[n]].0));
                assert(among(found, vector[n].chunk_id));
            }
        },
        None => {},
    }
}

/// Numbers that rise from zero on, all below a bound, are at most as many as the
/// bound.
proof fn lemma_below(o: Seq<int>, bound: int)
    requires
        bound >= 0,
        forall|n: int| 0 <= n < o.len() ==> 0 <= #[trigger] o[n] < bound,
        forall|a: int, b: int| 0 <= a < b < o.len() ==> #[trigger] o[a] < #[trigger] o[b],
    ensures
        o.len() <= bound,
    decreases o.len(),
{
    if o.len() > 0 {
        let f = o.drop_last();
        let top = o[o.len() - 1];
        assert forall|n: int| 0 <= n < f.len() implies 0 <= #[trigger] f[n] < top by {
            assert(f[n] == o[n]);
        }
        assert forall|a: int, b: int| 0 <= a < b < f.len() implies #[trigger] f[a] < #[trigger] f[b] by {
            assert(f[a] == o[a] && f[b] == o[b]);
        }
        lemma_below(f, top);
    }
}

proof fn lemma_as_many_as_hits(cs: Seq<CandidateView>, hits: Seq<HitView>)
    ensures
        with_hits(cs, hits).len() <= cs.len() + hits.len(),
    decreases hits.len(),
{
    if hits.len() > 0 {
        lemma_as_many_as_hits(cs, hits.drop_last());
        lists::lemma_first_index(
            with_hits(cs, hits.drop_last()),
            is_chunk(hits.last().chunk_id),
        );
    }
}

} // verus!
