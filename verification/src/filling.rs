//! A whole embedding run: what it leaves behind, how it reports its progress,
//! and that a second one finds nothing to do.
use crate::etl;
use crate::etl::STORE_BATCH;
use crate::index;
use crate::lists;
use crate::tables;
use crate::tables::{ChangeView, ChunkRowView, EmbeddingView, Tables};
use crate::vectors;
use vstd::prelude::*;

verus! {

/// The index once a run has begun: without the vectors of another model, and
/// without those that no chunk has.
pub open spec fn begun(t: Tables, model: Seq<char>) -> Tables {
    let t1 = tables::replayed(t, index::model_changes(t, model));
    tables::replayed(t1, index::prune_changes(t1))
}

/// How many vectors without a chunk the start of a run drops.
pub open spec fn pruned(t: Tables, model: Seq<char>) -> nat {
    let t1 = tables::replayed(t, index::model_changes(t, model));
    index::orphans(t1.embeddings, t1.chunks).len()
}

/// What a run has to embed.
pub open spec fn todo_of(t: Tables, model: Seq<char>) -> Seq<(Seq<char>, Seq<char>)> {
    index::missing(begun(t, model).chunks, begun(t, model).embeddings)
}

/// How many chunks are embedded after some batches.
pub open spec fn done_after(i: nat, todo: nat) -> int
    decreases i,
{
    if i == 0 {
        0
    } else {
        etl::batch_end(done_after((i - 1) as nat, todo), todo as int)
    }
}

/// How many batches a run takes.
pub open spec fn batches(todo: nat) -> nat {
    ((todo + STORE_BATCH - 1) / (STORE_BATCH as int)) as nat
}

/// The index after some batches.
pub open spec fn stored_after(
    t: Tables,
    model: Seq<char>,
    todo: Seq<(Seq<char>, Seq<char>)>,
    given: Seq<Seq<u8>>,
    i: nat,
) -> Tables
    decreases i,
{
    if i == 0 {
        t
    } else {
        let before = stored_after(t, model, todo, given, (i - 1) as nat);
        let from = done_after((i - 1) as nat, todo.len());
        let to = done_after(i, todo.len());
        tables::replayed(
            before,
            index::store_changes(
                before,
                model,
                etl::paired(todo.subrange(from, to), given.subrange(from, to)),
            ),
        )
    }
}

/// The index after a whole run, which is given one vector for each text.
pub open spec fn ended(t: Tables, model: Seq<char>, given: Seq<Seq<u8>>) -> Tables {
    let todo = todo_of(t, model);
    stored_after(begun(t, model), model, todo, given, batches(todo.len()))
}

/// The content hashes of chunks.
pub open spec fn hashes_of(chunks: Seq<ChunkRowView>) -> Set<Seq<char>> {
    chunks.map_values(|c: ChunkRowView| c.content_hash).to_set()
}

/// Whether two indexes differ at most in their vectors.
pub open spec fn same_but_vectors(a: Tables, b: Tables) -> bool {
    b == Tables { embeddings: b.embeddings, ..a }
}

/// A run reports its progress after each batch: after the i-th, the smaller of
/// i batches and all there is to do. All is done after as many batches as it
/// takes to hold it, and not before; with nothing to do there is no batch.
pub proof fn law_progress_of_a_run(i: nat, todo: nat)
    ensures
        done_after(i, todo) == if STORE_BATCH * i < todo {
            STORE_BATCH * i
        } else {
            todo as int
        },
        done_after(i, todo) == todo <==> i >= batches(todo),
        batches(todo) == 0 <==> todo == 0,
    decreases i,
{
    if i > 0 {
        law_progress_of_a_run((i - 1) as nat, todo);
    }
}

/// Storing vectors changes nothing else, and keeps hashes distinct.
pub proof fn lemma_store_keeps(t: Tables, model: Seq<char>, items: Seq<(Seq<char>, Seq<u8>)>)
    requires
        tables::distinct_hashes(t.embeddings),
    ensures
        ({
            let next = tables::replayed(t, index::store_changes(t, model, items));
            same_but_vectors(t, next) && tables::distinct_hashes(next.embeddings)
        }),
    decreases items.len(),
{
    if items.len() > 0 {
        let front = items.drop_last();
        lemma_store_keeps(t, model, front);
        let before = index::store_changes(t, model, front);
        let mid = tables::replayed(t, before);
        let c = index::embedding_change(mid.embeddings, model, items.last());
        tables::lemma_replay_push(t, before, c);
        lists::lemma_first_index(mid.embeddings, index::embeds(items.last().0));
        let next = tables::after(mid, c).embeddings;
        assert forall|i: int, j: int| 0 <= i < j < next.len() implies (
        #[trigger] next[i]).chunk_hash != (#[trigger] next[j]).chunk_hash by {
            if j < mid.embeddings.len() {
                assert(mid.embeddings[i].chunk_hash != mid.embeddings[j].chunk_hash);
            } else {
                assert(!index::embeds(items.last().0)(mid.embeddings[i]));
            }
        }
    }
}

proof fn lemma_without_distinct(rows: Seq<EmbeddingView>, hash: Seq<char>)
    requires
        tables::distinct_hashes(rows),
    ensures
        tables::distinct_hashes(tables::without_embedding(rows, hash)),
    decreases rows.len(),
{
    if rows.len() > 0 {
        let front = rows.drop_last();
        let n = rows.len() - 1;
        assert forall|i: int, j: int| 0 <= i < j < front.len() implies (
        #[trigger] front[i]).chunk_hash != (#[trigger] front[j]).chunk_hash by {
            assert(rows[i].chunk_hash != rows[j].chunk_hash);
        }
        lemma_without_distinct(front, hash);
        let a = tables::without_embedding(front, hash);
        let r = tables::without_embedding(rows, hash);
        assert forall|i: int, j: int| 0 <= i < j < r.len() implies (#[trigger] r[i]).chunk_hash != (
        #[trigger] r[j]).chunk_hash by {
            if j < a.len() {
                assert(a[i].chunk_hash != a[j].chunk_hash);
            } else {
                vectors::lemma_without(front, hash, a[i]);
                assert(a.contains(a[i]));
                let k = choose|k: int| 0 <= k < front.len() && front[k] == a[i];
                assert(rows[k].chunk_hash != rows[n].chunk_hash);
            }
        }
    }
}

/// Dropping vectors changes nothing else, and keeps hashes distinct.
pub proof fn lemma_deletions_keep(t: Tables, hashes: Seq<Seq<char>>)
    requires
        tables::distinct_hashes(t.embeddings),
    ensures
        ({
            let next = tables::replayed(
                t,
                hashes.map_values(|h: Seq<char>| ChangeView::DeleteEmbedding(h)),
            );
            same_but_vectors(t, next) && tables::distinct_hashes(next.embeddings)
        }),
    decreases hashes.len(),
{
    let cs = hashes.map_values(|h: Seq<char>| ChangeView::DeleteEmbedding(h));
    if hashes.len() > 0 {
        let front = hashes.drop_last();
        lemma_deletions_keep(t, front);
        assert(cs.drop_last() =~= front.map_values(|h: Seq<char>| ChangeView::DeleteEmbedding(h)));
        lemma_without_distinct(tables::replayed(t, cs.drop_last()).embeddings, hashes.last());
    }
}

/// Where no hash has two vectors, a stored row is what its hash gives.
proof fn lemma_row_is_vector(t: Tables, hash: Seq<char>)
    ensures
        vectors::vector_for(t, hash) is Some <==> exists|e: EmbeddingView| #[trigger]
            t.embeddings.contains(e) && e.chunk_hash == hash,
        tables::distinct_hashes(t.embeddings) ==> forall|e: EmbeddingView| #[trigger]
            t.embeddings.contains(e) && e.chunk_hash == hash ==> vectors::vector_for(t, hash)
                == Some(e.vector),
{
    let rows = t.embeddings;
    lists::lemma_first_index(rows, index::embeds(hash));
    match lists::first_index(rows, index::embeds(hash)) {
        Some(i) => {
            assert(rows.contains(rows[i]));
            if tables::distinct_hashes(rows) {
                assert forall|e: EmbeddingView| #[trigger]
                    rows.contains(e) && e.chunk_hash == hash implies vectors::vector_for(t, hash)
                    == Some(e.vector) by {
                    let k = choose|k: int| 0 <= k < rows.len() && rows[k] == e;
                    assert(!(i < k) || rows[i].chunk_hash != rows[k].chunk_hash);
                    assert(!(k < i) || rows[k].chunk_hash != rows[i].chunk_hash);
                }
            }
        },
        None => {
            if exists|e: EmbeddingView| #[trigger] rows.contains(e) && e.chunk_hash == hash {
                let e = choose|e: EmbeddingView| #[trigger]
                    rows.contains(e) && e.chunk_hash == hash;
                let k = choose|k: int| 0 <= k < rows.len() && rows[k] == e;
                assert(index::embeds(hash)(rows[k]));
            }
        },
    }
}

/// What the start of a run leaves.
proof fn lemma_begun(t: Tables, model: Seq<char>, hash: Seq<char>)
    requires
        tables::distinct_hashes(t.embeddings),
    ensures
        ({
            let b = begun(t, model);
            let kept = t.model is None || t.model == Some(model);
            &&& b == Tables { embeddings: b.embeddings, model: Some(model), ..t }
            &&& tables::distinct_hashes(b.embeddings)
            &&& vectors::vector_for(b, hash) == if kept && vectors::is_live(t.chunks, hash) {
                vectors::vector_for(t, hash)
            } else {
                None
            }
        }),
{
    reveal_with_fuel(tables::replayed, 3);
    let cs = index::model_changes(t, model);
    let t1 = tables::replayed(t, cs);
    let b = begun(t, model);
    vectors::law_model_change_drops_all_vectors(t, model);
    if t.model is Some && t.model != Some(model) {
        assert(cs.drop_last() =~= seq![ChangeView::ClearEmbeddings]);
    }
    lemma_deletions_keep(t1, index::orphans(t1.embeddings, t1.chunks));
    lemma_row_is_vector(t1, hash);
    lemma_row_is_vector(b, hash);
    assert forall|e: EmbeddingView| #[trigger] b.embeddings.contains(e) implies (
    t1.embeddings.contains(e) && vectors::is_live(t.chunks, e.chunk_hash)) by {
        vectors::law_pruning_drops_the_orphans(t1, e);
    }
    assert forall|e: EmbeddingView| #[trigger]
        t1.embeddings.contains(e) && vectors::is_live(
            t.chunks,
            e.chunk_hash,
        ) implies b.embeddings.contains(e) by {
        vectors::law_pruning_drops_the_orphans(t1, e);
    }
    if vectors::vector_for(b, hash) is Some {
        let e = choose|e: EmbeddingView| #[trigger]
            b.embeddings.contains(e) && e.chunk_hash == hash;
        assert(t1.embeddings.contains(e));
    } else if vectors::is_live(t.chunks, hash) && vectors::vector_for(t1, hash) is Some {
        let e = choose|e: EmbeddingView| #[trigger]
            t1.embeddings.contains(e) && e.chunk_hash == hash;
        assert(b.embeddings.contains(e));
    }
    if t.model is Some && t.model != Some(model) {
        assert(t1.embeddings.len() == 0);
        lists::lemma_first_index(t1.embeddings, index::embeds(hash));
    } else {
        assert(vectors::vector_for(t1, hash) == vectors::vector_for(t, hash));
    }
}

/// Storing batch by batch comes to storing at once.
proof fn lemma_stored_at_once(
    t: Tables,
    model: Seq<char>,
    todo: Seq<(Seq<char>, Seq<char>)>,
    given: Seq<Seq<u8>>,
    i: nat,
)
    requires
        given.len() == todo.len(),
    ensures
        ({
            let d = done_after(i, todo.len());
            stored_after(t, model, todo, given, i) == tables::replayed(
                t,
                index::store_changes(t, model, etl::paired(todo.take(d), given.take(d))),
            )
        }),
    decreases i,
{
    law_progress_of_a_run(i, todo.len());
    let d = done_after(i, todo.len());
    let all = etl::paired(todo.take(d), given.take(d));
    if i == 0 {
        assert(all =~= Seq::<(Seq<char>, Seq<u8>)>::empty());
    } else {
        let k = (i - 1) as nat;
        law_progress_of_a_run(k, todo.len());
        lemma_stored_at_once(t, model, todo, given, k);
        let from = done_after(k, todo.len());
        let first = etl::paired(todo.take(from), given.take(from));
        let second = etl::paired(todo.subrange(from, d), given.subrange(from, d));
        assert(all =~= first + second);
        vectors::law_batches_store_in_turn(t, model, first, second);
        let cs = index::store_changes(t, model, first);
        let mid = tables::replayed(t, cs);
        tables::lemma_replay_concat(t, cs, index::store_changes(mid, model, second));
    }
}

/// No content hash is to be embedded twice.
proof fn lemma_todo_distinct(chunks: Seq<ChunkRowView>, embeddings: Seq<EmbeddingView>)
    ensures
        ({
            let todo = index::missing(chunks, embeddings);
            forall|i: int, j: int|
                0 <= i < j < todo.len() ==> (#[trigger] todo[i]).0 != (#[trigger] todo[j]).0
        }),
    decreases chunks.len(),
{
    if chunks.len() > 0 {
        let before = index::missing(chunks.drop_last(), embeddings);
        let todo = index::missing(chunks, embeddings);
        let p = index::begins_with(chunks.last().content_hash);
        lemma_todo_distinct(chunks.drop_last(), embeddings);
        lists::lemma_first_index(before, p);
        assert forall|i: int, j: int| 0 <= i < j < todo.len() implies (#[trigger] todo[i]).0 != (
        #[trigger] todo[j]).0 by {
            if j < before.len() {
                assert(before[i].0 != before[j].0);
            } else {
                assert(!p(before[i]));
            }
        }
    }
}

/// The index after a run, as one store of all that there was to do.
proof fn lemma_ended(t: Tables, model: Seq<char>, given: Seq<Seq<u8>>)
    requires
        given.len() == todo_of(t, model).len(),
    ensures
        ({
            let b = begun(t, model);
            ended(t, model, given) == tables::replayed(
                b,
                index::store_changes(b, model, etl::paired(todo_of(t, model), given)),
            )
        }),
{
    let todo = todo_of(t, model);
    let n = batches(todo.len());
    law_progress_of_a_run(n, todo.len());
    lemma_stored_at_once(begun(t, model), model, todo, given, n);
    assert(todo.take(todo.len() as int) =~= todo);
    assert(given.take(given.len() as int) =~= given);
}

/// What a whole run does to the vector of one hash.
proof fn lemma_run_hash(t: Tables, model: Seq<char>, given: Seq<Seq<u8>>, hash: Seq<char>)
    requires
        given.len() == todo_of(t, model).len(),
        tables::distinct_hashes(t.embeddings),
    ensures
        ({
            let next = ended(t, model, given);
            let kept = t.model is None || t.model == Some(model);
            &&& vectors::vector_for(next, hash) is Some <==> vectors::is_live(t.chunks, hash)
            &&& kept && vectors::is_live(t.chunks, hash) && vectors::vector_for(t, hash) is Some
                ==> vectors::vector_for(next, hash) == vectors::vector_for(t, hash)
        }),
{
    let b = begun(t, model);
    let todo = todo_of(t, model);
    let items = etl::paired(todo, given);
    lemma_ended(t, model, given);
    lemma_begun(t, model, hash);
    vectors::lemma_stored_hashes(b, model, items, hash);
    vectors::lemma_missing(b.chunks, b.embeddings, hash);
    let p = index::begins_with(hash);
    lists::lemma_first_index(todo, p);
    match lists::first_index(todo, p) {
        Some(i) => {
            assert(items[i].0 == hash);
        },
        None => {
            assert forall|j: int| 0 <= j < items.len() implies (#[trigger] items[j]).0 != hash by {
                assert(!p(todo[j]));
            }
            vectors::lemma_others_stay(b, model, items, hash);
        },
    }
}

proof fn lemma_live(chunks: Seq<ChunkRowView>, hash: Seq<char>)
    ensures
        vectors::is_live(chunks, hash) <==> hashes_of(chunks).contains(hash),
{
    let p = index::chunk_has_hash(hash);
    let hs = chunks.map_values(|c: ChunkRowView| c.content_hash);
    lists::lemma_first_index(chunks, p);
    match lists::first_index(chunks, p) {
        Some(i) => {
            assert(hs[i] == hash);
        },
        None => {
            if hs.contains(hash) {
                let k = choose|k: int| 0 <= k < hs.len() && hs[k] == hash;
                assert(p(chunks[k]));
            }
        },
    }
}

/// A whole run with a model, given one vector for each text there was to embed,
/// leaves a vector for exactly the content hashes that the chunks have, and for
/// each of them one: the one that was given, or, where the hash had one from
/// the same model, the one it had. Nothing but the vectors and the model
/// changes.
pub proof fn law_run_embeds_every_chunk(t: Tables, model: Seq<char>, given: Seq<Seq<u8>>)
    requires
        given.len() == todo_of(t, model).len(),
        tables::keyed(t),
    ensures
        ({
            let todo = todo_of(t, model);
            let next = ended(t, model, given);
            let kept = t.model is None || t.model == Some(model);
            &&& next == Tables { embeddings: next.embeddings, model: Some(model), ..t }
            &&& done_after(batches(todo.len()), todo.len()) == todo.len()
            &&& forall|hash: Seq<char>| #[trigger]
                vectors::vector_for(next, hash) is Some <==> hashes_of(t.chunks).contains(hash)
            &&& tables::distinct_hashes(next.embeddings)
            &&& next.embeddings.len() == hashes_of(t.chunks).len()
            &&& forall|i: int|
                0 <= i < todo.len() ==> vectors::vector_for(next, (#[trigger] todo[i]).0) == Some(
                    given[i],
                )
            &&& forall|hash: Seq<char>|
                kept && hashes_of(t.chunks).contains(hash) && vectors::vector_for(
                    t,
                    hash,
                ) is Some ==> #[trigger] vectors::vector_for(next, hash) == vectors::vector_for(
                    t,
                    hash,
                )
        }),
{
    let b = begun(t, model);
    let todo = todo_of(t, model);
    let items = etl::paired(todo, given);
    let next = ended(t, model, given);
    lemma_ended(t, model, given);
    lemma_begun(t, model, Seq::empty());
    lemma_store_keeps(b, model, items);
    law_progress_of_a_run(batches(todo.len()), todo.len());
    assert forall|hash: Seq<char>| #[trigger] vectors::vector_for(next, hash) is Some
        <==> hashes_of(t.chunks).contains(hash) by {
        lemma_run_hash(t, model, given, hash);
        lemma_live(t.chunks, hash);
    }
    assert forall|hash: Seq<char>|
        (t.model is None || t.model == Some(model)) && hashes_of(t.chunks).contains(hash)
            && vectors::vector_for(t, hash) is Some implies #[trigger] vectors::vector_for(
        next,
        hash,
    ) == vectors::vector_for(t, hash) by {
        lemma_run_hash(t, model, given, hash);
        lemma_live(t.chunks, hash);
    }
    lemma_todo_distinct(b.chunks, b.embeddings);
    assert forall|i: int| 0 <= i < todo.len() implies vectors::vector_for(
        next,
        (#[trigger] todo[i]).0,
    ) == Some(given[i]) by {
        lemma_given_is_stored(b, model, items, i);
        assert(items[i].0 == todo[i].0 && items[i].1 == given[i]);
    }
    lemma_count(next, t.chunks);
}

proof fn lemma_given_is_stored(
    t: Tables,
    model: Seq<char>,
    items: Seq<(Seq<char>, Seq<u8>)>,
    k: int,
)
    requires
        0 <= k < items.len(),
        forall|i: int, j: int|
            0 <= i < j < items.len() ==> (#[trigger] items[i]).0 != (#[trigger] items[j]).0,
    ensures
        vectors::vector_for(
            tables::replayed(t, index::store_changes(t, model, items)),
            items[k].0,
        ) == Some(items[k].1),
    decreases items.len(),
{
    let front = items.drop_last();
    let n = items.len() - 1;
    let before = index::store_changes(t, model, front);
    let mid = tables::replayed(t, before);
    let c = index::embedding_change(mid.embeddings, model, items.last());
    tables::lemma_replay_push(t, before, c);
    vectors::lemma_store_one(mid, model, items.last(), items[k].0);
    if k < n {
        assert forall|i: int, j: int| 0 <= i < j < front.len() implies (#[trigger] front[i]).0 != (
        #[trigger] front[j]).0 by {
            assert(items[i].0 != items[j].0);
        }
        lemma_given_is_stored(t, model, front, k);
        assert(items[k].0 != items[n].0);
    }
}

/// Where each hash of the chunks has one vector, and no other has, there are as
/// many vectors as hashes.
proof fn lemma_count(t: Tables, chunks: Seq<ChunkRowView>)
    requires
        tables::distinct_hashes(t.embeddings),
        forall|hash: Seq<char>| #[trigger]
            vectors::vector_for(t, hash) is Some <==> hashes_of(chunks).contains(hash),
    ensures
        t.embeddings.len() == hashes_of(chunks).len(),
{
    let rows = t.embeddings;
    let hs = rows.map_values(|e: EmbeddingView| e.chunk_hash);
    assert forall|i: int, j: int| 0 <= i < hs.len() && 0 <= j < hs.len() && i != j implies hs[i]
        != hs[j] by {
        assert(!(i < j) || rows[i].chunk_hash != rows[j].chunk_hash);
        assert(!(j < i) || rows[j].chunk_hash != rows[i].chunk_hash);
    }
    hs.unique_seq_to_set();
    assert forall|hash: Seq<char>| #[trigger] hs.to_set().contains(hash)
        <==> hashes_of(chunks).contains(hash) by {
        let p = index::embeds(hash);
        lists::lemma_first_index(rows, p);
        assert(vectors::vector_for(t, hash) is Some <==> hashes_of(chunks).contains(hash));
        match lists::first_index(rows, p) {
            Some(i) => {
                assert(hs[i] == hash);
            },
            None => {
                if hs.contains(hash) {
                    let k = choose|k: int| 0 <= k < hs.len() && hs[k] == hash;
                    assert(p(rows[k]));
                }
            },
        }
    }
    assert(hs.to_set() =~= hashes_of(chunks));
}

proof fn lemma_no_orphans(embeddings: Seq<EmbeddingView>, chunks: Seq<ChunkRowView>)
    requires
        forall|i: int|
            0 <= i < embeddings.len() ==> vectors::is_live(
                chunks,
                (#[trigger] embeddings[i]).chunk_hash,
            ),
    ensures
        index::orphans(embeddings, chunks).len() == 0,
    decreases embeddings.len(),
{
    if embeddings.len() > 0 {
        let front = embeddings.drop_last();
        assert forall|i: int| 0 <= i < front.len() implies vectors::is_live(
            chunks,
            (#[trigger] front[i]).chunk_hash,
        ) by {
            assert(front[i] == embeddings[i]);
        }
        lemma_no_orphans(front, chunks);
        assert(embeddings[embeddings.len() - 1] == embeddings.last());
    }
}

/// A second run with the same model, right after the first, finds nothing to
/// do: it drops no vector, has nothing to embed, and leaves the index as it is.
pub proof fn law_second_run_does_nothing(t: Tables, model: Seq<char>, given: Seq<Seq<u8>>)
    requires
        given.len() == todo_of(t, model).len(),
        tables::keyed(t),
    ensures
        ({
            let next = ended(t, model, given);
            &&& pruned(next, model) == 0
            &&& begun(next, model) == next
            &&& todo_of(next, model).len() == 0
            &&& ended(next, model, Seq::empty()) == next
        }),
{
    let b = begun(t, model);
    let next = ended(t, model, given);
    let items = etl::paired(todo_of(t, model), given);
    law_run_embeds_every_chunk(t, model, given);
    lemma_ended(t, model, given);
    assert forall|i: int| 0 <= i < next.embeddings.len() implies vectors::is_live(
        next.chunks,
        (#[trigger] next.embeddings[i]).chunk_hash,
    ) by {
        let hash = next.embeddings[i].chunk_hash;
        lemma_row_is_vector(next, hash);
        assert(next.embeddings.contains(next.embeddings[i]));
        assert(vectors::vector_for(next, hash) is Some);
        lemma_live(t.chunks, hash);
    }
    lemma_no_orphans(next.embeddings, next.chunks);
    tables::lemma_replay_one(next, ChangeView::Reset);
    assert(index::model_changes(next, model) =~= Seq::<ChangeView>::empty());
    assert(index::prune_changes(next) =~= Seq::<ChangeView>::empty());
    lemma_begun(t, model, Seq::empty());
    lemma_store_keeps(b, model, items);
    vectors::law_embedding_covers_every_chunk(b, model, items);
}

/// Vectors are asked for and stored 256 at a time: after so many batches so many
/// chunks have theirs, and the last batch holds what is left.
pub proof fn law_size_of_a_batch(i: nat, todo: nat)
    ensures
        256 * i <= todo ==> done_after(i, todo) == 256 * i,
        256 * i >= todo ==> done_after(i, todo) == todo,
        256 * batches(todo) >= todo,
        batches(todo) > 0 ==> 256 * (batches(todo) - 1) < todo,
{
    law_progress_of_a_run(i, todo);
}

} // verus!
