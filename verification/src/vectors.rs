//! What holds of the stored vectors over several operations: what storing
//! gives back, what pruning keeps, and that an embedding run leaves no chunk
//! without a vector.
use crate::index;
use crate::lists;
use crate::tables;
use crate::tables::{ChangeView, ChunkRowView, EmbeddingView, Tables};
use vstd::prelude::*;

verus! {

/// The vector stored for a content hash.
pub open spec fn vector_for(t: Tables, hash: Seq<char>) -> Option<Seq<u8>> {
    match lists::first_index(t.embeddings, index::embeds(hash)) {
        Some(i) => Some(t.embeddings[i].vector),
        None => None,
    }
}

/// Whether some chunk has a content hash.
pub open spec fn is_live(chunks: Seq<ChunkRowView>, hash: Seq<char>) -> bool {
    lists::first_index(chunks, index::chunk_has_hash(hash)) is Some
}

/// What storing one vector does: its hash has the vector, any other hash has
/// what it had.
pub proof fn lemma_store_one(t: Tables, model: Seq<char>, item: (Seq<char>, Seq<u8>), hash: Seq<char>)
    ensures
        ({
            let next = tables::after(t, index::embedding_change(t.embeddings, model, item));
            &&& vector_for(next, hash) == if hash == item.0 {
                Some(item.1)
            } else {
                vector_for(t, hash)
            }
            &&& next.chunks == t.chunks
        }),
{
    let p = index::embeds(hash);
    let q = index::embeds(item.0);
    let next = tables::after(t, index::embedding_change(t.embeddings, model, item));
    let a = t.embeddings;
    let b = next.embeddings;
    lists::lemma_first_index(a, p);
    lists::lemma_first_index(a, q);
    match lists::first_index(a, q) {
        Some(i) => {
            assert forall|j: int| 0 <= j < b.len() implies p(#[trigger] b[j]) == p(a[j]) by {
                if j == i {
                    assert(q(a[i]));
                }
            }
            match lists::first_index(a, p) {
                Some(k) => {
                    assert forall|j: int| 0 <= j < k implies !p(#[trigger] b[j]) by {
                        assert(!p(a[j]));
                    }
                    lists::lemma_is_first_index(b, p, k);
                    if hash == item.0 {
                        assert(k == i);
                    }
                },
                None => {
                    assert forall|j: int| 0 <= j < b.len() implies !p(#[trigger] b[j]) by {
                        assert(!p(a[j]));
                    }
                    lists::lemma_no_first_index(b, p);
                    if hash == item.0 {
                        assert(p(a[i]));
                    }
                },
            }
        },
        None => {
            assert(b.drop_last() =~= a);
        },
    }
}

/// Storing vectors leaves chunks alone and keeps every vector of a hash that
/// is not stored anew; and reading a hash that was stored once gives back the
/// vector that was stored.
pub proof fn law_storing_vectors(
    t: Tables,
    model: Seq<char>,
    items: Seq<(Seq<char>, Seq<u8>)>,
    k: int,
    other: Seq<char>,
)
    requires
        0 <= k < items.len(),
        forall|j: int| k < j < items.len() ==> (#[trigger] items[j]).0 != items[k].0,
        forall|j: int| 0 <= j < items.len() ==> (#[trigger] items[j]).0 != other,
    ensures
        ({
            let next = tables::replayed(t, index::store_changes(t, model, items));
            &&& vector_for(next, items[k].0) == Some(items[k].1)
            &&& vector_for(next, other) == vector_for(t, other)
            &&& next.chunks == t.chunks
        }),
    decreases items.len(),
{
    let front = items.drop_last();
    let before = index::store_changes(t, model, front);
    let mid = tables::replayed(t, before);
    let c = index::embedding_change(mid.embeddings, model, items.last());
    tables::lemma_replay_push(t, before, c);
    lemma_store_one(mid, model, items.last(), items[k].0);
    lemma_store_one(mid, model, items.last(), other);
    assert(items.last() == items[items.len() - 1]);
    assert forall|j: int| 0 <= j < front.len() implies (#[trigger] front[j]).0 != other by {
        assert(front[j] == items[j]);
    }
    lemma_others_stay(t, model, front, other);
    if k < front.len() {
        assert forall|j: int| k < j < front.len() implies (#[trigger] front[j]).0 != front[k].0 by {
            assert(front[j] == items[j] && front[k] == items[k]);
        }
        law_storing_vectors(t, model, front, k, other);
        assert(items[items.len() - 1].0 != items[k].0);
    }
}

/// Storing vectors leaves chunks alone, and the vector of a hash that is not
/// among them.
pub proof fn lemma_others_stay(
    t: Tables,
    model: Seq<char>,
    items: Seq<(Seq<char>, Seq<u8>)>,
    other: Seq<char>,
)
    requires
        forall|j: int| 0 <= j < items.len() ==> (#[trigger] items[j]).0 != other,
    ensures
        ({
            let next = tables::replayed(t, index::store_changes(t, model, items));
            vector_for(next, other) == vector_for(t, other) && next.chunks == t.chunks
        }),
    decreases items.len(),
{
    if items.len() > 0 {
        let front = items.drop_last();
        assert forall|j: int| 0 <= j < front.len() implies (#[trigger] front[j]).0 != other by {
            assert(front[j] == items[j]);
        }
        lemma_others_stay(t, model, front, other);
        let before = index::store_changes(t, model, front);
        let mid = tables::replayed(t, before);
        let c = index::embedding_change(mid.embeddings, model, items.last());
        tables::lemma_replay_push(t, before, c);
        lemma_store_one(mid, model, items.last(), other);
        assert(items.last() == items[items.len() - 1]);
    }
}

/// A hash that has a vector keeps one, and one that is stored gets one.
pub proof fn lemma_stored_hashes(
    t: Tables,
    model: Seq<char>,
    items: Seq<(Seq<char>, Seq<u8>)>,
    hash: Seq<char>,
)
    ensures
        ({
            let next = tables::replayed(t, index::store_changes(t, model, items));
            &&& next.chunks == t.chunks
            &&& vector_for(next, hash) is Some <==> (vector_for(t, hash) is Some || exists|j: int|
                0 <= j < items.len() && (#[trigger] items[j]).0 == hash)
        }),
    decreases items.len(),
{
    if items.len() > 0 {
        let front = items.drop_last();
        lemma_stored_hashes(t, model, front, hash);
        let before = index::store_changes(t, model, front);
        let mid = tables::replayed(t, before);
        let c = index::embedding_change(mid.embeddings, model, items.last());
        tables::lemma_replay_push(t, before, c);
        lemma_store_one(mid, model, items.last(), hash);
        let n = items.len() - 1;
        assert(items.last() == items[n]);
        if exists|j: int| 0 <= j < front.len() && (#[trigger] front[j]).0 == hash {
            let j = choose|j: int| 0 <= j < front.len() && (#[trigger] front[j]).0 == hash;
            assert(items[j].0 == hash);
        }
        if exists|j: int| 0 <= j < items.len() && (#[trigger] items[j]).0 == hash {
            let j = choose|j: int| 0 <= j < items.len() && (#[trigger] items[j]).0 == hash;
            if j < n {
                assert(front[j].0 == hash);
            }
        }
    }
}

/// Storing vectors in batches comes to the same as storing them at once.
pub proof fn law_batches_store_in_turn(
    t: Tables,
    model: Seq<char>,
    first: Seq<(Seq<char>, Seq<u8>)>,
    second: Seq<(Seq<char>, Seq<u8>)>,
)
    ensures
        ({
            let cs = index::store_changes(t, model, first);
            index::store_changes(t, model, first + second) == cs + index::store_changes(
                tables::replayed(t, cs),
                model,
                second,
            )
        }),
    decreases second.len(),
{
    let cs = index::store_changes(t, model, first);
    let mid = tables::replayed(t, cs);
    if second.len() == 0 {
        assert(first + second =~= first);
        assert(cs + index::store_changes(mid, model, second) =~= cs);
    } else {
        let front = second.drop_last();
        law_batches_store_in_turn(t, model, first, front);
        assert((first + second).drop_last() =~= first + front);
        assert((first + second).last() == second.last());
        let more = index::store_changes(mid, model, front);
        tables::lemma_replay_concat(t, cs, more);
        let c = index::embedding_change(
            tables::replayed(mid, more).embeddings,
            model,
            second.last(),
        );
        assert(cs + more.push(c) =~= (cs + more).push(c));
    }
}

/// A hash is missing exactly when some chunk has it and no vector is stored
/// for it.
pub proof fn lemma_missing(chunks: Seq<ChunkRowView>, embeddings: Seq<EmbeddingView>, hash: Seq<char>)
    ensures
        lists::first_index(index::missing(chunks, embeddings), index::begins_with(hash)) is Some
            <==> (is_live(chunks, hash) && lists::first_index(
            embeddings,
            index::embeds(hash),
        ) is None),
    decreases chunks.len(),
{
    if chunks.len() > 0 {
        let front = chunks.drop_last();
        lemma_missing(front, embeddings, hash);
        let c = chunks.last();
        let before = index::missing(front, embeddings);
        let now = index::missing(chunks, embeddings);
        if lists::first_index(embeddings, index::embeds(c.content_hash)) is Some
            || lists::first_index(before, index::begins_with(c.content_hash)) is Some {
        } else {
            assert(now.drop_last() =~= before);
        }
    }
}

/// Once every missing hash has been given a vector, none is missing.
pub proof fn law_embedding_covers_every_chunk(
    t: Tables,
    model: Seq<char>,
    items: Seq<(Seq<char>, Seq<u8>)>,
)
    requires
        items.len() == index::missing(t.chunks, t.embeddings).len(),
        forall|i: int|
            0 <= i < items.len() ==> (#[trigger] items[i]).0 == index::missing(
                t.chunks,
                t.embeddings,
            )[i].0,
    ensures
        ({
            let next = tables::replayed(t, index::store_changes(t, model, items));
            index::missing(next.chunks, next.embeddings).len() == 0
        }),
{
    let next = tables::replayed(t, index::store_changes(t, model, items));
    let left = index::missing(next.chunks, next.embeddings);
    let todo = index::missing(t.chunks, t.embeddings);
    if left.len() > 0 {
        let hash = left[0].0;
        lists::lemma_first_index(left, index::begins_with(hash));
        assert(index::begins_with(hash)(left[0]));
        lemma_missing(next.chunks, next.embeddings, hash);
        lemma_stored_hashes(t, model, items, hash);
        lemma_missing(t.chunks, t.embeddings, hash);
        lists::lemma_first_index(todo, index::begins_with(hash));
        let i = lists::first_index(todo, index::begins_with(hash))->0;
        assert(items[i].0 == hash);
        assert(false);
    }
}

/// What is left of vectors once those of a hash are dropped.
pub proof fn lemma_without(rows: Seq<EmbeddingView>, hash: Seq<char>, e: EmbeddingView)
    ensures
        tables::without_embedding(rows, hash).contains(e) <==> (rows.contains(e) && e.chunk_hash
            != hash),
    decreases rows.len(),
{
    if rows.len() > 0 {
        let front = rows.drop_last();
        lemma_without(front, hash, e);
        let a = tables::without_embedding(front, hash);
        let r = tables::without_embedding(rows, hash);
        assert(rows.contains(e) <==> (front.contains(e) || rows.last() == e)) by {
            if rows.contains(e) {
                let k = choose|k: int| 0 <= k < rows.len() && rows[k] == e;
                if k < front.len() {
                    assert(front[k] == e);
                }
            }
            if front.contains(e) {
                let k = choose|k: int| 0 <= k < front.len() && front[k] == e;
                assert(rows[k] == e);
            }
            if rows.last() == e {
                assert(rows[rows.len() - 1] == e);
            }
        }
        if rows.last().chunk_hash != hash {
            assert(r == a.push(rows.last()));
            assert(r.contains(e) <==> (a.contains(e) || rows.last() == e)) by {
                if r.contains(e) {
                    let k = choose|k: int| 0 <= k < r.len() && r[k] == e;
                    if k < a.len() {
                        assert(a[k] == e);
                    }
                }
                if a.contains(e) {
                    let k = choose|k: int| 0 <= k < a.len() && a[k] == e;
                    assert(r[k] == e);
                }
                if rows.last() == e {
                    assert(r[a.len() as int] == e);
                }
            }
        }
    }
}

/// What is left of vectors once those of several hashes are dropped.
proof fn lemma_without_all(t: Tables, hashes: Seq<Seq<char>>, e: EmbeddingView)
    ensures
        ({
            let next = tables::replayed(
                t,
                hashes.map_values(|h: Seq<char>| ChangeView::DeleteEmbedding(h)),
            );
            &&& next.chunks == t.chunks
            &&& next.embeddings.contains(e) <==> (t.embeddings.contains(e) && !hashes.contains(
                e.chunk_hash,
            ))
        }),
    decreases hashes.len(),
{
    let cs = hashes.map_values(|h: Seq<char>| ChangeView::DeleteEmbedding(h));
    if hashes.len() == 0 {
        assert(cs.len() == 0);
    } else {
        let front = hashes.drop_last();
        lemma_without_all(t, front, e);
        assert(cs.drop_last() =~= front.map_values(|h: Seq<char>| ChangeView::DeleteEmbedding(h)));
        let mid = tables::replayed(t, cs.drop_last());
        lemma_without(mid.embeddings, hashes.last(), e);
        assert(hashes.contains(e.chunk_hash) <==> (front.contains(e.chunk_hash) || hashes.last()
            == e.chunk_hash)) by {
            if hashes.contains(e.chunk_hash) {
                let k = choose|k: int| 0 <= k < hashes.len() && hashes[k] == e.chunk_hash;
                if k < front.len() {
                    assert(front[k] == e.chunk_hash);
                }
            }
            if front.contains(e.chunk_hash) {
                let k = choose|k: int| 0 <= k < front.len() && front[k] == e.chunk_hash;
                assert(hashes[k] == e.chunk_hash);
            }
            if hashes.last() == e.chunk_hash {
                assert(hashes[hashes.len() - 1] == e.chunk_hash);
            }
        }
    }
}

/// The orphans are the hashes of the vectors that no chunk has.
proof fn lemma_orphans(embeddings: Seq<EmbeddingView>, chunks: Seq<ChunkRowView>, e: EmbeddingView)
    ensures
        index::orphans(embeddings, chunks).contains(e.chunk_hash) ==> !is_live(
            chunks,
            e.chunk_hash,
        ),
        embeddings.contains(e) && !is_live(chunks, e.chunk_hash) ==> index::orphans(
            embeddings,
            chunks,
        ).contains(e.chunk_hash),
    decreases embeddings.len(),
{
    if embeddings.len() > 0 {
        let front = embeddings.drop_last();
        lemma_orphans(front, chunks, e);
        let a = index::orphans(front, chunks);
        let r = index::orphans(embeddings, chunks);
        let last = embeddings.last().chunk_hash;
        if embeddings.contains(e) && embeddings.last() != e {
            let k = choose|k: int| 0 <= k < embeddings.len() && embeddings[k] == e;
            assert(front[k] == e);
        }
        if !is_live(chunks, last) {
            assert(r == a.push(last));
            assert(r[a.len() as int] == last);
            if a.contains(e.chunk_hash) {
                let k = choose|k: int| 0 <= k < a.len() && a[k] == e.chunk_hash;
                assert(r[k] == e.chunk_hash);
            }
            if r.contains(e.chunk_hash) {
                let k = choose|k: int| 0 <= k < r.len() && r[k] == e.chunk_hash;
                if k < a.len() {
                    assert(a[k] == e.chunk_hash);
                }
            }
        }
    }
}

/// Pruning drops exactly the vectors that no chunk has, and nothing else.
pub proof fn law_pruning_drops_the_orphans(t: Tables, e: EmbeddingView)
    ensures
        ({
            let next = tables::replayed(t, index::prune_changes(t));
            &&& next.chunks == t.chunks
            &&& next.embeddings.contains(e) <==> (t.embeddings.contains(e) && is_live(
                t.chunks,
                e.chunk_hash,
            ))
        }),
{
    let hashes = index::orphans(t.embeddings, t.chunks);
    lemma_without_all(t, hashes, e);
    lemma_orphans(t.embeddings, t.chunks, e);
}

/// After a change of the model no vector is left; under the same model, and
/// for the first one, every vector stays. Either way the model is recorded.
pub proof fn law_model_change_drops_all_vectors(t: Tables, model: Seq<char>)
    ensures
        ({
            let next = tables::replayed(t, index::model_changes(t, model));
            &&& next.model == Some(model)
            &&& t.model is Some && t.model != Some(model) ==> next.embeddings.len() == 0
            &&& t.model is None || t.model == Some(model) ==> next.embeddings == t.embeddings
            &&& next.chunks == t.chunks
        }),
{
    reveal_with_fuel(tables::replayed, 3);
    let cs = index::model_changes(t, model);
    match t.model {
        Some(m) => {
            if m != model {
                assert(cs.drop_last() =~= seq![ChangeView::ClearEmbeddings]);
            }
        },
        None => {},
    }
}

} // verus!
