//! Which rows a new chunking keeps, and what a second one does.
use crate::chunk::{ChunkParams, ChunkView};
use crate::index;
use crate::laws;
use crate::recut;
use crate::tables;
use crate::tables::{ChangeView, ChunkRowView, Tables};
use vstd::prelude::*;

verus! {

/// One where a row is a chat's and has a content hash, else none.
pub open spec fn counts(c: ChunkRowView, chat_id: i64, hash: Seq<char>) -> nat {
    if c.chat_id == chat_id && c.content_hash == hash {
        1
    } else {
        0
    }
}

/// How many rows of a chat have a content hash.
pub open spec fn rows_with(rows: Seq<ChunkRowView>, chat_id: i64, hash: Seq<char>) -> nat
    decreases rows.len(),
{
    if rows.len() == 0 {
        0
    } else {
        rows_with(rows.drop_last(), chat_id, hash) + counts(rows.last(), chat_id, hash)
    }
}

/// How many chunks of a list have a content hash.
pub open spec fn chunks_with(new: Seq<ChunkView>, hash: Seq<char>) -> nat
    decreases new.len(),
{
    if new.len() == 0 {
        0
    } else {
        chunks_with(new.drop_last(), hash) + if new.last().content_hash == hash {
            1nat
        } else {
            0nat
        }
    }
}

/// How many of some positions hold a row with a content hash.
pub open spec fn free_with(rows: Seq<ChunkRowView>, free: Seq<int>, hash: Seq<char>) -> nat
    decreases free.len(),
{
    if free.len() == 0 {
        0
    } else {
        free_with(rows, free.drop_last(), hash) + if rows[free.last()].content_hash == hash {
            1nat
        } else {
            0nat
        }
    }
}

proof fn lemma_free_remove(rows: Seq<ChunkRowView>, free: Seq<int>, j: int, hash: Seq<char>)
    requires
        0 <= j < free.len(),
    ensures
        free_with(rows, free, hash) == free_with(rows, free.remove(j), hash) + if rows[free[j]].content_hash
            == hash {
            1nat
        } else {
            0nat
        },
    decreases free.len(),
{
    let f = free.drop_last();
    if j == free.len() - 1 {
        assert(free.remove(j) =~= f);
    } else {
        lemma_free_remove(rows, f, j, hash);
        assert(free.remove(j).drop_last() =~= f.remove(j));
        assert(free.remove(j).last() == free.last());
    }
}

proof fn lemma_none_free(rows: Seq<ChunkRowView>, free: Seq<int>, hash: Seq<char>)
    ensures
        free_with(rows, free, hash) == 0 <==> forall|j: int|
            0 <= j < free.len() ==> rows[#[trigger] free[j]].content_hash != hash,
    decreases free.len(),
{
    if free.len() > 0 {
        let f = free.drop_last();
        lemma_none_free(rows, f, hash);
        if free_with(rows, free, hash) == 0 {
            assert forall|j: int| 0 <= j < free.len() implies rows[#[trigger] free[j]].content_hash
                != hash by {
                if j < f.len() {
                    assert(f[j] == free[j]);
                }
            }
        }
        if forall|j: int| 0 <= j < free.len() ==> rows[#[trigger] free[j]].content_hash != hash {
            assert forall|j: int| 0 <= j < f.len() implies rows[#[trigger] f[j]].content_hash
                != hash by {
                assert(f[j] == free[j]);
            }
            assert(free[free.len() - 1] == free.last());
        }
    }
}

proof fn lemma_free_of_more(
    a: Seq<ChunkRowView>,
    b: Seq<ChunkRowView>,
    free: Seq<int>,
    hash: Seq<char>,
)
    requires
        forall|i: int| 0 <= i < free.len() ==> a[#[trigger] free[i]] == b[free[i]],
    ensures
        free_with(a, free, hash) == free_with(b, free, hash),
    decreases free.len(),
{
    if free.len() > 0 {
        let f = free.drop_last();
        assert forall|i: int| 0 <= i < f.len() implies a[#[trigger] f[i]] == b[f[i]] by {
            assert(f[i] == free[i]);
        }
        lemma_free_of_more(a, b, f, hash);
        assert(free[free.len() - 1] == free.last());
    }
}

/// At first all rows of the chat are free.
proof fn lemma_all_free(rows: Seq<ChunkRowView>, chat_id: i64, hash: Seq<char>)
    ensures
        free_with(rows, index::own_positions(rows, chat_id), hash) == rows_with(
            rows,
            chat_id,
            hash,
        ),
    decreases rows.len(),
{
    if rows.len() > 0 {
        let a = rows.drop_last();
        let f = index::own_positions(a, chat_id);
        lemma_all_free(a, chat_id, hash);
        index::lemma_own_positions(a, chat_id);
        assert forall|i: int| 0 <= i < f.len() implies rows[#[trigger] f[i]] == a[f[i]] by {}
        lemma_free_of_more(rows, a, f, hash);
        if rows.last().chat_id == chat_id {
            let g = index::own_positions(rows, chat_id);
            assert(g.drop_last() =~= f);
            assert(g.last() == rows.len() - 1);
        }
    }
}

/// Reuse is maximal, also where hashes repeat: of the rows that a chat has with
/// a content hash, a matching leaves free only those that are more than the new
/// chunks with that hash, so as many are kept as rows and chunks allow. And what
/// is kept, inserted and left free adds up.
pub proof fn law_reuse_is_maximal(
    rows: Seq<ChunkRowView>,
    chat_id: i64,
    new: Seq<ChunkView>,
    hash: Seq<char>,
)
    ensures
        ({
            let m = index::matching(rows, chat_id, new);
            let had = rows_with(rows, chat_id, hash);
            let wanted = chunks_with(new, hash);
            let kept = had - free_with(rows, m.free, hash);
            &&& kept == if had < wanted {
                had
            } else {
                wanted
            }
            &&& m.inserted <= new.len()
            &&& (new.len() - m.inserted) + m.free.len() == index::own_positions(
                rows,
                chat_id,
            ).len()
        }),
    decreases new.len(),
{
    index::lemma_matching(rows, chat_id, new);
    if new.len() == 0 {
        lemma_all_free(rows, chat_id, hash);
    } else {
        let init = new.drop_last();
        let b = index::matching(rows, chat_id, init);
        let g = new.last().content_hash;
        law_reuse_is_maximal(rows, chat_id, init, hash);
        index::lemma_last_match(rows, b.free, g);
        match index::last_match(rows, b.free, g) {
            Some(j) => {
                lemma_free_remove(rows, b.free, j, hash);
            },
            None => {
                lemma_none_free(rows, b.free, g);
            },
        }
    }
}

/// Where a chat has a row for every new chunk, no row is inserted.
proof fn lemma_no_insertion(rows: Seq<ChunkRowView>, chat_id: i64, new: Seq<ChunkView>)
    requires
        forall|h: Seq<char>| #[trigger] chunks_with(new, h) <= rows_with(rows, chat_id, h),
    ensures
        index::matching(rows, chat_id, new).inserted == 0,
    decreases new.len(),
{
    if new.len() > 0 {
        let init = new.drop_last();
        let b = index::matching(rows, chat_id, init);
        let g = new.last().content_hash;
        assert forall|h: Seq<char>| #[trigger]
            chunks_with(init, h) <= rows_with(rows, chat_id, h) by {
            assert(chunks_with(new, h) <= rows_with(rows, chat_id, h));
        }
        lemma_no_insertion(rows, chat_id, init);
        law_reuse_is_maximal(rows, chat_id, init, g);
        assert(chunks_with(new, g) <= rows_with(rows, chat_id, g));
        index::lemma_last_match(rows, b.free, g);
        lemma_none_free(rows, b.free, g);
    }
}

proof fn lemma_count_update(
    v: Seq<ChunkRowView>,
    q: int,
    r: ChunkRowView,
    chat_id: i64,
    hash: Seq<char>,
)
    requires
        0 <= q < v.len(),
        counts(r, chat_id, hash) == counts(v[q], chat_id, hash),
    ensures
        rows_with(v.update(q, r), chat_id, hash) == rows_with(v, chat_id, hash),
    decreases v.len(),
{
    let w = v.update(q, r);
    if q == v.len() - 1 {
        assert(w.drop_last() =~= v.drop_last());
    } else {
        lemma_count_update(v.drop_last(), q, r, chat_id, hash);
        assert(w.drop_last() =~= v.drop_last().update(q, r));
        assert(w.last() == v.last());
    }
}

/// Once every chunk has its row, the rows with a hash are those of the new
/// chunks with it and those that are free.
proof fn lemma_count_matched(t: Tables, chat_id: i64, new: Seq<ChunkView>, hash: Seq<char>)
    ensures
        ({
            let m = index::matching(t.chunks, chat_id, new);
            rows_with(tables::replayed(t, m.changes).chunks, chat_id, hash) == chunks_with(new, hash)
                + free_with(t.chunks, m.free, hash)
        }),
    decreases new.len(),
{
    let rows = t.chunks;
    let m = index::matching(rows, chat_id, new);
    if new.len() == 0 {
        lemma_all_free(rows, chat_id, hash);
        assert(m.changes =~= Seq::<ChangeView>::empty());
    } else {
        let init = new.drop_last();
        let b = index::matching(rows, chat_id, init);
        let before = tables::replayed(t, b.changes);
        let g = new.last().content_hash;
        lemma_count_matched(t, chat_id, init, hash);
        laws::lemma_well_matched(t, chat_id, init);
        index::lemma_matching(rows, chat_id, init);
        index::lemma_last_match(rows, b.free, g);
        tables::lemma_replay_push(t, b.changes, m.changes.last());
        assert(m.changes.drop_last() =~= b.changes);
        assert(m.changes =~= b.changes.push(m.changes.last()));
        match index::last_match(rows, b.free, g) {
            Some(j) => {
                let q = b.free[j];
                lemma_free_as_it_was(t, chat_id, init, q);
                lemma_free_remove(rows, b.free, j, hash);
                lemma_count_update(
                    before.chunks,
                    q,
                    ChunkRowView { seq: (new.len() - 1) as i64, ..rows[q] },
                    chat_id,
                    hash,
                );
            },
            None => {
                let now = tables::replayed(t, m.changes).chunks;
                assert(now.drop_last() =~= before.chunks);
            },
        }
    }
}

/// A free row is the chat's and as it was.
proof fn lemma_free_as_it_was(t: Tables, chat_id: i64, new: Seq<ChunkView>, q: int)
    requires
        index::matching(t.chunks, chat_id, new).free.contains(q),
    ensures
        ({
            let m = index::matching(t.chunks, chat_id, new);
            let now = tables::replayed(t, m.changes).chunks;
            0 <= q < t.chunks.len() <= now.len() && now[q] == t.chunks[q] && t.chunks[q].chat_id
                == chat_id
        }),
{
    let rows = t.chunks;
    let m = index::matching(rows, chat_id, new);
    laws::lemma_well_matched(t, chat_id, new);
    index::lemma_matching(rows, chat_id, new);
    let i = choose|i: int| 0 <= i < m.free.len() && m.free[i] == q;
    assert(rows[m.free[i]].chat_id == chat_id);
    if laws::is_slot(rows, chat_id, new, q) {
        let s = choose|s: int|
            0 <= s < new.len() && #[trigger] laws::slot(rows, chat_id, new, s) == q;
        assert(!m.free.contains(laws::slot(rows, chat_id, new, s)));
    }
    assert(!laws::is_slot(rows, chat_id, new, q));
}

proof fn lemma_without_none(v: Seq<ChunkRowView>, id: i64)
    requires
        forall|i: int| 0 <= i < v.len() ==> (#[trigger] v[i]).id != id,
    ensures
        tables::without_chunk(v, id) == v,
    decreases v.len(),
{
    if v.len() > 0 {
        let a = v.drop_last();
        assert forall|i: int| 0 <= i < a.len() implies (#[trigger] a[i]).id != id by {
            assert(a[i] == v[i]);
        }
        lemma_without_none(a, id);
        assert(v[v.len() - 1] == v.last());
        assert(a.push(v.last()) =~= v);
    }
}

proof fn lemma_count_without(
    v: Seq<ChunkRowView>,
    q: int,
    chat_id: i64,
    hash: Seq<char>,
)
    requires
        tables::distinct_ids(v),
        0 <= q < v.len(),
    ensures
        rows_with(v, chat_id, hash) == rows_with(
            tables::without_chunk(v, v[q].id),
            chat_id,
            hash,
        ) + counts(v[q], chat_id, hash),
    decreases v.len(),
{
    let a = v.drop_last();
    let id = v[q].id;
    let n = v.len() - 1;
    assert forall|i: int, j: int| 0 <= i < j < a.len() implies (#[trigger] a[i]).id != (
    #[trigger] a[j]).id by {
        assert(a[i] == v[i] && a[j] == v[j]);
    }
    if q == n {
        assert forall|i: int| 0 <= i < a.len() implies (#[trigger] a[i]).id != id by {
            assert(v[i].id != v[n].id);
        }
        lemma_without_none(a, id);
    } else {
        lemma_count_without(a, q, chat_id, hash);
        assert(a[q] == v[q]);
        assert(v[q].id != v[n].id);
        let w = tables::without_chunk(a, id);
        assert(w.push(v.last()).drop_last() =~= w);
    }
}

/// Dropping the free rows takes them from the count.
proof fn lemma_count_dropped(
    t: Tables,
    rows: Seq<ChunkRowView>,
    free: Seq<int>,
    chat_id: i64,
    hash: Seq<char>,
)
    requires
        tables::distinct_ids(t.chunks),
        rows.len() <= t.chunks.len(),
        index::rising(free, rows.len() as int),
        forall|i: int|
            0 <= i < free.len() ==> t.chunks[#[trigger] free[i]] == rows[free[i]]
                && rows[free[i]].chat_id == chat_id,
    ensures
        ({
            let ids = free.map_values(|q: int| rows[q].id);
            rows_with(t.chunks, chat_id, hash) == rows_with(
                tables::replayed(t, laws::drops(ids)).chunks,
                chat_id,
                hash,
            ) + free_with(rows, free, hash)
        }),
    decreases free.len(),
{
    let ids = free.map_values(|q: int| rows[q].id);
    if free.len() == 0 {
        assert(laws::drops(ids) =~= Seq::<ChangeView>::empty());
    } else {
        let f = free.drop_last();
        let a = ids.drop_last();
        assert forall|i: int| 0 <= i < f.len() implies t.chunks[#[trigger] f[i]] == rows[f[i]]
            && rows[f[i]].chat_id == chat_id by {
            assert(f[i] == free[i]);
        }
        assert forall|i: int, j: int| 0 <= i < j < f.len() implies (#[trigger] f[i]) < (
        #[trigger] f[j]) by {
            assert(f[i] == free[i] && f[j] == free[j]);
        }
        assert forall|i: int| 0 <= i < f.len() implies 0 <= (#[trigger] f[i]) < rows.len() by {
            assert(f[i] == free[i]);
        }
        lemma_count_dropped(t, rows, f, chat_id, hash);
        assert(a =~= f.map_values(|q: int| rows[q].id));
        assert(laws::drops(ids).drop_last() =~= laws::drops(a));
        let q = free[free.len() - 1];
        let c = t.chunks[q];
        let mid = tables::replayed(t, laws::drops(a)).chunks;
        recut::lemma_drops_keep(t, a);
        laws::lemma_drops(t, a, c);
        assert(t.chunks.contains(c));
        if a.contains(c.id) {
            let k = choose|k: int| 0 <= k < a.len() && a[k] == c.id;
            assert(f[k] == free[k]);
            assert(free[k] < q);
            assert(t.chunks[free[k]].id != t.chunks[q].id);
        }
        let k = choose|k: int| 0 <= k < mid.len() && mid[k] == c;
        lemma_count_without(mid, k, chat_id, hash);
        assert(laws::drops(ids).last() == ChangeView::DeleteChunk(c.id));
    }
}

/// After a new chunking the chat has as many rows with a content hash as there
/// are chunks with it.
proof fn lemma_count_after(t: Tables, chat_id: i64, p: ChunkParams, hash: Seq<char>)
    requires
        tables::distinct_ids(t.chunks),
        index::top_chunk(t.chunks) + index::fresh_chunks(t, chat_id, p).len() <= i64::MAX,
    ensures
        rows_with(
            tables::replayed(t, index::rechunk_changes(t, chat_id, p)).chunks,
            chat_id,
            hash,
        ) == chunks_with(index::fresh_chunks(t, chat_id, p), hash),
{
    let rows = t.chunks;
    let new = index::fresh_chunks(t, chat_id, p);
    let m = index::matching(rows, chat_id, new);
    let mid = tables::replayed(t, m.changes);
    let ids = m.free.map_values(|q: int| rows[q].id);
    index::lemma_matching(rows, chat_id, new);
    laws::lemma_well_matched(t, chat_id, new);
    laws::lemma_ids_after_matching(t, chat_id, new);
    lemma_count_matched(t, chat_id, new, hash);
    assert forall|i: int| 0 <= i < m.free.len() implies mid.chunks[#[trigger] m.free[i]]
        == rows[m.free[i]] && rows[m.free[i]].chat_id == chat_id by {
        assert(m.free.contains(m.free[i]));
        lemma_free_as_it_was(t, chat_id, new, m.free[i]);
    }
    lemma_count_dropped(mid, rows, m.free, chat_id, hash);
    assert(index::deletions(rows, m.free) =~= laws::drops(ids));
    tables::lemma_replay_concat(t, m.changes, laws::drops(ids));
}

/// A second new chunking, right after the first, keeps every row: it inserts
/// none and drops none, and writes nothing to a row but its place in the chat,
/// which changes only among chunks with the same content hash.
pub proof fn law_second_rechunk_keeps_every_row(t: Tables, chat_id: i64, p: ChunkParams)
    requires
        tables::keyed(t),
        index::top_chunk(t.chunks) + index::fresh_chunks(t, chat_id, p).len() <= i64::MAX,
        t.chunks.len() + index::fresh_chunks(t, chat_id, p).len() <= i64::MAX,
    ensures
        ({
            let first = tables::replayed(t, index::rechunk_changes(t, chat_id, p));
            let new = index::fresh_chunks(first, chat_id, p);
            let m = index::matching(first.chunks, chat_id, new);
            let second = tables::replayed(first, index::rechunk_changes(first, chat_id, p));
            &&& new == index::fresh_chunks(t, chat_id, p)
            &&& m.inserted == 0
            &&& m.free.len() == 0
            &&& index::same_but_chunks(first, second)
            &&& second.chunks.len() == first.chunks.len()
            &&& forall|q: int|
                0 <= q < first.chunks.len() ==> (#[trigger] second.chunks[q]) == (ChunkRowView {
                    seq: second.chunks[q].seq,
                    ..first.chunks[q]
                })
            &&& forall|q: int|
                0 <= q < first.chunks.len() && first.chunks[q].chat_id == chat_id ==> 0
                    <= first.chunks[q].seq < new.len() && 0 <= (#[trigger] second.chunks[q]).seq
                    < new.len() && new[second.chunks[q].seq as int].content_hash
                    == new[first.chunks[q].seq as int].content_hash
        }),
{
    let first = tables::replayed(t, index::rechunk_changes(t, chat_id, p));
    let rows = first.chunks;
    let new = index::fresh_chunks(first, chat_id, p);
    let m = index::matching(rows, chat_id, new);
    let second = tables::replayed(first, index::rechunk_changes(first, chat_id, p));
    laws::law_rechunk_replaces_a_chats_chunks(t, chat_id, p);
    recut::lemma_same_fresh(t, first, chat_id, p);
    assert forall|h: Seq<char>| #[trigger]
        chunks_with(new, h) <= rows_with(rows, chat_id, h) by {
        lemma_count_after(t, chat_id, p, h);
    }
    lemma_no_insertion(rows, chat_id, new);
    if m.free.len() > 0 {
        let h = rows[m.free[0]].content_hash;
        lemma_count_after(t, chat_id, p, h);
        law_reuse_is_maximal(rows, chat_id, new, h);
        lemma_none_free(rows, m.free, h);
        assert(false);
    }
    assert(index::deletions(rows, m.free) =~= Seq::<ChangeView>::empty());
    assert(index::rechunk_changes(first, chat_id, p) =~= m.changes);
    laws::lemma_well_matched(first, chat_id, new);
    assert forall|q: int| 0 <= q < rows.len() implies (#[trigger] second.chunks[q]) == (
    ChunkRowView { seq: second.chunks[q].seq, ..rows[q] }) by {
        if laws::is_slot(rows, chat_id, new, q) {
            let s = choose|s: int|
                0 <= s < new.len() && #[trigger] laws::slot(rows, chat_id, new, s) == q;
            assert(second.chunks[q] == laws::placed(rows, chat_id, new, s));
        }
    }
    assert forall|q: int| 0 <= q < rows.len() && rows[q].chat_id == chat_id implies 0
        <= rows[q].seq < new.len() && 0 <= (#[trigger] second.chunks[q]).seq < new.len()
        && new[second.chunks[q].seq as int].content_hash
        == new[rows[q].seq as int].content_hash by {
        assert(rows.contains(rows[q]));
        if !laws::is_slot(rows, chat_id, new, q) {
            assert(second.chunks[q] == rows[q]);
            assert(m.free.contains(q));
        }
        let s = choose|s: int|
            0 <= s < new.len() && #[trigger] laws::slot(rows, chat_id, new, s) == q;
        assert(second.chunks[q] == laws::placed(rows, chat_id, new, s));
    }
}

} // verus!
