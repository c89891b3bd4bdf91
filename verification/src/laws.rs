//! What holds of the index over several operations: what a new chunking keeps
//! and what it replaces, and what a sync does to messages that are known.
use crate::chunk::{ChunkParams, ChunkView};
use crate::etl;
use crate::etl::Progress;
use crate::index;
use crate::lists;
use crate::model::ExtractedMessage;
use crate::numeric;
use crate::tables;
use crate::tables::{ChangeView, ChunkRowView, HandleView, MessageView, Tables};
use crate::text;
use vstd::prelude::*;

verus! {

/// The position of the row that a chunk takes over or becomes.
pub open spec fn slot(rows: Seq<ChunkRowView>, chat_id: i64, new: Seq<ChunkView>, s: int) -> int
    decreases new.len(),
{
    if new.len() == 0 {
        0
    } else if s < new.len() - 1 {
        slot(rows, chat_id, new.drop_last(), s)
    } else {
        let before = index::matching(rows, chat_id, new.drop_last());
        match index::last_match(rows, before.free, new.last().content_hash) {
            Some(j) => before.free[j],
            None => (rows.len() + before.inserted) as int,
        }
    }
}

/// The row of a chunk after the matching.
pub open spec fn placed(
    rows: Seq<ChunkRowView>,
    chat_id: i64,
    new: Seq<ChunkView>,
    s: int,
) -> ChunkRowView {
    let p = slot(rows, chat_id, new, s);
    if p < rows.len() {
        ChunkRowView { seq: s as i64, ..rows[p] }
    } else {
        index::new_chunk(
            index::top_chunk(rows) + (p - rows.len()) + 1,
            chat_id,
            s,
            new[s],
        )
    }
}

/// Whether a position is that of a chunk of the list.
pub open spec fn is_slot(rows: Seq<ChunkRowView>, chat_id: i64, new: Seq<ChunkView>, p: int) -> bool {
    exists|s: int| 0 <= s < new.len() && #[trigger] slot(rows, chat_id, new, s) == p
}

/// Every chunk has its row, at a position that is not free: the row of the
/// chat whose content hash is the chunk's, or a new one.
pub open spec fn slots_hold(
    rows: Seq<ChunkRowView>,
    chat_id: i64,
    new: Seq<ChunkView>,
    now: Seq<ChunkRowView>,
    free: Seq<int>,
) -> bool {
    forall|s: int|
        0 <= s < new.len() ==> {
            let p = #[trigger] slot(rows, chat_id, new, s);
            &&& 0 <= p < now.len()
            &&& now[p] == placed(rows, chat_id, new, s)
            &&& p < rows.len() ==> rows[p].chat_id == chat_id && rows[p].content_hash
                == new[s].content_hash
            &&& !free.contains(p)
        }
}

/// Every row that no chunk took over is as it was, and free if it is the
/// chat's.
pub open spec fn others_stay(
    rows: Seq<ChunkRowView>,
    chat_id: i64,
    new: Seq<ChunkView>,
    now: Seq<ChunkRowView>,
    free: Seq<int>,
) -> bool {
    forall|p: int|
        0 <= p < rows.len() && !is_slot(rows, chat_id, new, p) ==> #[trigger] now[p] == rows[p] && (
        rows[p].chat_id == chat_id ==> free.contains(p))
}

/// Every row that was added is that of a chunk.
pub open spec fn additions_are_slots(
    rows: Seq<ChunkRowView>,
    chat_id: i64,
    new: Seq<ChunkView>,
    now: Seq<ChunkRowView>,
) -> bool {
    forall|p: int|
        rows.len() <= p < now.len() ==> is_slot(rows, chat_id, new, p) && (#[trigger] now[p]).chat_id
            == chat_id
}

/// What the chunk table looks like once every chunk has its row.
pub open spec fn well_matched(t: Tables, chat_id: i64, new: Seq<ChunkView>) -> bool {
    let m = index::matching(t.chunks, chat_id, new);
    let after = tables::replayed(t, m.changes);
    &&& index::same_but_chunks(t, after)
    &&& after.chunks.len() == t.chunks.len() + m.inserted
    &&& slots_hold(t.chunks, chat_id, new, after.chunks, m.free)
    &&& others_stay(t.chunks, chat_id, new, after.chunks, m.free)
    &&& additions_are_slots(t.chunks, chat_id, new, after.chunks)
}

proof fn lemma_slot_prefix(
    rows: Seq<ChunkRowView>,
    chat_id: i64,
    new: Seq<ChunkView>,
    s: int,
)
    requires
        0 <= s < new.len() - 1,
    ensures
        slot(rows, chat_id, new, s) == slot(rows, chat_id, new.drop_last(), s),
        placed(rows, chat_id, new, s) == placed(rows, chat_id, new.drop_last(), s),
{
    assert(new.drop_last()[s] == new[s]);
}

proof fn lemma_own_contains(rows: Seq<ChunkRowView>, chat_id: i64, p: int)
    requires
        0 <= p < rows.len(),
        rows[p].chat_id == chat_id,
    ensures
        index::own_positions(rows, chat_id).contains(p),
    decreases rows.len(),
{
    let o = index::own_positions(rows, chat_id);
    if p == rows.len() - 1 {
        assert(o[o.len() - 1] == p);
    } else {
        let a = rows.drop_last();
        lemma_own_contains(a, chat_id, p);
        let b = index::own_positions(a, chat_id);
        let k = choose|k: int| 0 <= k < b.len() && b[k] == p;
        assert(o[k] == p);
    }
}

/// Matching gives every new chunk its row and leaves every other row alone.
pub proof fn lemma_well_matched(t: Tables, chat_id: i64, new: Seq<ChunkView>)
    ensures
        well_matched(t, chat_id, new),
    decreases new.len(),
{
    let rows = t.chunks;
    let m = index::matching(rows, chat_id, new);
    let after = tables::replayed(t, m.changes);
    let now = after.chunks;
    if new.len() == 0 {
        assert(m.changes =~= Seq::<ChangeView>::empty());
        assert forall|p: int|
            0 <= p < rows.len() && !is_slot(rows, chat_id, new, p) implies #[trigger] now[p] == rows[p]
            && (rows[p].chat_id == chat_id ==> m.free.contains(p)) by {
            if rows[p].chat_id == chat_id {
                lemma_own_contains(rows, chat_id, p);
            }
        }
    } else {
        let init = new.drop_last();
        let k = new.len() - 1;
        let c = new.last();
        let b = index::matching(rows, chat_id, init);
        let before = tables::replayed(t, b.changes);
        lemma_well_matched(t, chat_id, init);
        index::lemma_matching(rows, chat_id, init);
        index::lemma_matching(rows, chat_id, new);
        index::lemma_last_match(rows, b.free, c.content_hash);
        let p_new = slot(rows, chat_id, new, k);
        tables::lemma_replay_push(t, b.changes, m.changes.last());
        assert(m.changes.drop_last() =~= b.changes);
        match index::last_match(rows, b.free, c.content_hash) {
            Some(j) => {
                let q = b.free[j];
                index::lemma_rising_remove(b.free, rows.len() as int, j);
                assert(b.free.contains(q));
                assert(!is_slot(rows, chat_id, init, q));
                assert(now =~= before.chunks.update(q, ChunkRowView { seq: k as i64, ..rows[q] }));
                assert(rows[q].chat_id == chat_id);
            },
            None => {
                assert(now =~= before.chunks.push(
                    index::new_chunk(index::top_chunk(rows) + b.inserted + 1, chat_id, k, c),
                ));
                assert(p_new == rows.len() + b.inserted);
            },
        }
        assert forall|s: int| 0 <= s < new.len() implies {
            let p = #[trigger] slot(rows, chat_id, new, s);
            &&& 0 <= p < now.len()
            &&& now[p] == placed(rows, chat_id, new, s)
            &&& p < rows.len() ==> rows[p].chat_id == chat_id && rows[p].content_hash
                == new[s].content_hash
            &&& !m.free.contains(p)
        } by {
            let p = slot(rows, chat_id, new, s);
            if s < k {
                lemma_slot_prefix(rows, chat_id, new, s);
                assert(new[s] == init[s]);
                assert(p == slot(rows, chat_id, init, s));
                assert(before.chunks[p] == placed(rows, chat_id, init, s));
                assert(!b.free.contains(p));
                lemma_free_shrinks(rows, chat_id, new, p);
                match index::last_match(rows, b.free, c.content_hash) {
                    Some(j) => {
                        assert(b.free.contains(b.free[j]));
                        assert(p != b.free[j]);
                    },
                    None => {},
                }
            } else {
                match index::last_match(rows, b.free, c.content_hash) {
                    Some(j) => {},
                    None => {
                        assert(!m.free.contains(p));
                    },
                }
            }
        }
        assert forall|p: int|
            0 <= p < rows.len() && !is_slot(rows, chat_id, new, p) implies #[trigger] now[p] == rows[p]
            && (rows[p].chat_id == chat_id ==> m.free.contains(p)) by {
            assert(slot(rows, chat_id, new, k) != p);
            assert(!is_slot(rows, chat_id, init, p)) by {
                if is_slot(rows, chat_id, init, p) {
                    let s = choose|s: int|
                        0 <= s < init.len() && #[trigger] slot(rows, chat_id, init, s) == p;
                    lemma_slot_prefix(rows, chat_id, new, s);
                    assert(slot(rows, chat_id, new, s) == p);
                }
            }
            assert(before.chunks[p] == rows[p]);
            if rows[p].chat_id == chat_id {
                assert(b.free.contains(p));
                match index::last_match(rows, b.free, c.content_hash) {
                    Some(j) => {
                        lemma_still_free(b.free, j, p);
                    },
                    None => {},
                }
            }
        }
        assert forall|p: int| rows.len() <= p < now.len() implies is_slot(rows, chat_id, new, p)
            && (#[trigger] now[p]).chat_id == chat_id by {
            if p < before.chunks.len() {
                assert(before.chunks[p].chat_id == chat_id);
                assert(is_slot(rows, chat_id, init, p));
                let s = choose|s: int|
                    0 <= s < init.len() && #[trigger] slot(rows, chat_id, init, s) == p;
                lemma_slot_prefix(rows, chat_id, new, s);
                assert(slot(rows, chat_id, new, s) == p);
            } else {
                assert(slot(rows, chat_id, new, k) == p);
            }
        }
        assert(slots_hold(rows, chat_id, new, now, m.free));
        assert(others_stay(rows, chat_id, new, now, m.free));
        assert(additions_are_slots(rows, chat_id, new, now));
    }
}

proof fn lemma_still_free(free: Seq<int>, j: int, p: int)
    requires
        0 <= j < free.len(),
        free.contains(p),
        free[j] != p,
    ensures
        free.remove(j).contains(p),
{
    let k = choose|k: int| 0 <= k < free.len() && free[k] == p;
    if k < j {
        assert(free.remove(j)[k] == p);
    } else {
        assert(free.remove(j)[k - 1] == p);
    }
}

proof fn lemma_free_shrinks(rows: Seq<ChunkRowView>, chat_id: i64, new: Seq<ChunkView>, p: int)
    requires
        new.len() > 0,
        !index::matching(rows, chat_id, new.drop_last()).free.contains(p),
    ensures
        !index::matching(rows, chat_id, new).free.contains(p),
{
    let b = index::matching(rows, chat_id, new.drop_last());
    let m = index::matching(rows, chat_id, new);
    if m.free.contains(p) {
        let k = choose|k: int| 0 <= k < m.free.len() && m.free[k] == p;
        index::lemma_last_match(rows, b.free, new.last().content_hash);
        match index::last_match(rows, b.free, new.last().content_hash) {
            Some(j) => {
                if k < j {
                    assert(b.free[k] == p);
                } else {
                    assert(b.free[k + 1] == p);
                }
            },
            None => {
                assert(b.free[k] == p);
            },
        }
    }
}

/// Whether a chunk is not among those with some ids.
spec fn survives(ids: Seq<i64>, c: ChunkRowView) -> bool {
    !ids.contains(c.id)
}

/// Dropping an id drops the rows with it and no others.
pub proof fn lemma_without_contains(chunks: Seq<ChunkRowView>, id: i64, c: ChunkRowView)
    ensures
        tables::without_chunk(chunks, id).contains(c) <==> chunks.contains(c) && c.id != id,
    decreases chunks.len(),
{
    let w = tables::without_chunk(chunks, id);
    if chunks.len() > 0 {
        let a = chunks.drop_last();
        let v = tables::without_chunk(a, id);
        lemma_without_contains(a, id, c);
        if chunks.contains(c) && c.id != id {
            let k = choose|k: int| 0 <= k < chunks.len() && chunks[k] == c;
            if k < a.len() {
                assert(a[k] == c);
                let q = choose|q: int| 0 <= q < v.len() && v[q] == c;
                assert(w[q] == c);
            } else {
                assert(w[w.len() - 1] == c);
            }
        }
        if w.contains(c) {
            let q = choose|q: int| 0 <= q < w.len() && w[q] == c;
            if q < v.len() {
                assert(v[q] == c);
                let k = choose|k: int| 0 <= k < a.len() && a[k] == c;
                assert(chunks[k] == c);
            } else {
                assert(chunks[chunks.len() - 1] == c);
            }
        }
    }
}

/// The changes that drop the chunks with some ids.
pub open spec fn drops(ids: Seq<i64>) -> Seq<ChangeView> {
    ids.map_values(|id: i64| ChangeView::DeleteChunk(id))
}

/// Dropping ids drops the rows with them and no others.
pub proof fn lemma_drops(t: Tables, ids: Seq<i64>, c: ChunkRowView)
    ensures
        tables::replayed(t, drops(ids)).chunks.contains(c) <==> t.chunks.contains(c)
            && !ids.contains(c.id),
        index::same_but_chunks(t, tables::replayed(t, drops(ids))),
    decreases ids.len(),
{
    if ids.len() == 0 {
        assert(drops(ids) =~= Seq::<ChangeView>::empty());
    } else {
        let a = ids.drop_last();
        lemma_drops(t, a, c);
        assert(drops(ids).drop_last() =~= drops(a));
        let before = tables::replayed(t, drops(a));
        lemma_without_contains(before.chunks, ids.last(), c);
        assert(ids.contains(c.id) <==> a.contains(c.id) || ids.last() == c.id) by {
            if a.contains(c.id) {
                let k = choose|k: int| 0 <= k < a.len() && a[k] == c.id;
                assert(ids[k] == c.id);
            }
            if ids.contains(c.id) {
                let k = choose|k: int| 0 <= k < ids.len() && ids[k] == c.id;
                if k < a.len() {
                    assert(a[k] == c.id);
                }
            }
            if ids.last() == c.id {
                assert(ids[ids.len() - 1] == c.id);
            }
        }
    }
}

/// No id lies above the highest.
pub proof fn lemma_top_bounds(rows: Seq<ChunkRowView>, p: int)
    requires
        0 <= p < rows.len(),
    ensures
        rows[p].id <= index::top_chunk(rows),
    decreases rows.len(),
{
    if p < rows.len() - 1 {
        lemma_top_bounds(rows.drop_last(), p);
        assert(rows.drop_last()[p] == rows[p]);
    }
}

/// Matching keeps the ids of rows that were there, numbers the new ones on
/// from the highest, and so keeps ids distinct.
pub proof fn lemma_ids_after_matching(t: Tables, chat_id: i64, new: Seq<ChunkView>)
    requires
        tables::distinct_ids(t.chunks),
        index::top_chunk(t.chunks) + new.len() <= i64::MAX,
    ensures
        ({
            let m = index::matching(t.chunks, chat_id, new);
            let now = tables::replayed(t, m.changes).chunks;
            &&& forall|p: int| 0 <= p < t.chunks.len() ==> (#[trigger] now[p]).id == t.chunks[p].id
            &&& forall|p: int|
                t.chunks.len() <= p < now.len() ==> (#[trigger] now[p]).id == index::top_chunk(
                    t.chunks,
                ) + (p - t.chunks.len()) + 1
            &&& tables::distinct_ids(now)
        }),
{
    let rows = t.chunks;
    let m = index::matching(rows, chat_id, new);
    let now = tables::replayed(t, m.changes).chunks;
    lemma_well_matched(t, chat_id, new);
    index::lemma_matching(rows, chat_id, new);
    assert forall|p: int| 0 <= p < rows.len() implies (#[trigger] now[p]).id == rows[p].id by {
        if is_slot(rows, chat_id, new, p) {
            let s = choose|s: int| 0 <= s < new.len() && #[trigger] slot(rows, chat_id, new, s) == p;
            assert(now[p] == placed(rows, chat_id, new, s));
        }
    }
    assert forall|p: int| rows.len() <= p < now.len() implies (#[trigger] now[p]).id
        == index::top_chunk(rows) + (p - rows.len()) + 1 by {
        assert(now[p].chat_id == chat_id);
        let s = choose|s: int| 0 <= s < new.len() && #[trigger] slot(rows, chat_id, new, s) == p;
        assert(now[p] == placed(rows, chat_id, new, s));
    }
    assert forall|i: int, j: int| 0 <= i < j < now.len() implies (#[trigger] now[i]).id != (
    #[trigger] now[j]).id by {
        if j < rows.len() {
            assert(rows[i].id != rows[j].id);
        } else if i < rows.len() {
            lemma_top_bounds(rows, i);
        }
    }
}

/// Whether a chat has a chunk with a content hash at a place.
pub open spec fn has_chunk(
    rows: Seq<ChunkRowView>,
    chat_id: i64,
    place: int,
    hash: Seq<char>,
) -> bool {
    exists|c: ChunkRowView| #[trigger]
        rows.contains(c) && c.chat_id == chat_id && c.seq == place && c.content_hash == hash
}

/// Whether the chunks of a chat are exactly those of a list, in order, told
/// by their content hashes.
pub open spec fn holds_chunks(rows: Seq<ChunkRowView>, chat_id: i64, new: Seq<ChunkView>) -> bool {
    &&& forall|s: int|
        0 <= s < new.len() ==> #[trigger] has_chunk(rows, chat_id, s, new[s].content_hash)
    &&& forall|c: ChunkRowView| #[trigger]
        rows.contains(c) && c.chat_id == chat_id ==> 0 <= c.seq < new.len() && c.content_hash
            == new[c.seq as int].content_hash
}

/// Whether a row of a chat is one that the chat had, at another place or the
/// same.
pub open spec fn is_kept_row(rows: Seq<ChunkRowView>, chat_id: i64, c: ChunkRowView) -> bool {
    exists|r: ChunkRowView| #[trigger]
        rows.contains(r) && r.chat_id == chat_id && c == (ChunkRowView { seq: c.seq, ..r })
}

/// Whether a row holds a chunk: its text, times, count and content hash, under
/// an id that no row had.
pub open spec fn is_new_row(
    rows: Seq<ChunkRowView>,
    chat_id: i64,
    c: ChunkRowView,
    chunk: ChunkView,
) -> bool {
    c.id > index::top_chunk(rows) && c == index::new_chunk(
        c.id as int,
        chat_id,
        c.seq as int,
        chunk,
    )
}

/// Whether each row of a chat is one that it had before, with the content hash
/// of the chunk at its place, or holds that chunk.
pub open spec fn kept_or_new(
    before: Seq<ChunkRowView>,
    after: Seq<ChunkRowView>,
    chat_id: i64,
    new: Seq<ChunkView>,
) -> bool {
    forall|c: ChunkRowView| #[trigger]
        after.contains(c) && c.chat_id == chat_id ==> 0 <= c.seq < new.len() && c.content_hash
            == new[c.seq as int].content_hash && (is_kept_row(before, chat_id, c) || is_new_row(
            before,
            chat_id,
            c,
            new[c.seq as int],
        ))
}

/// A new chunking leaves a chat with one row for each chunk of its messages,
/// in order and with the chunk's content hash, and no other. Each is a row that
/// the chat had with that hash, of which only the place may have changed, or
/// holds the chunk. The rows of other chats, and all other tables, are
/// untouched.
pub proof fn law_rechunk_replaces_a_chats_chunks(t: Tables, chat_id: i64, p: ChunkParams)
    requires
        tables::keyed(t),
        index::top_chunk(t.chunks) + index::fresh_chunks(t, chat_id, p).len() <= i64::MAX,
        t.chunks.len() + index::fresh_chunks(t, chat_id, p).len() <= i64::MAX,
    ensures
        ({
            let after = tables::replayed(t, index::rechunk_changes(t, chat_id, p));
            &&& index::same_but_chunks(t, after)
            &&& holds_chunks(after.chunks, chat_id, index::fresh_chunks(t, chat_id, p))
            &&& kept_or_new(t.chunks, after.chunks, chat_id, index::fresh_chunks(t, chat_id, p))
            &&& forall|c: ChunkRowView|
                c.chat_id != chat_id ==> (#[trigger] after.chunks.contains(c) <==> t.chunks.contains(
                    c,
                ))
        }),
{
    let rows = t.chunks;
    let new = index::fresh_chunks(t, chat_id, p);
    let m = index::matching(rows, chat_id, new);
    let mid = tables::replayed(t, m.changes);
    let now = mid.chunks;
    let ids = m.free.map_values(|q: int| rows[q].id);
    let after = tables::replayed(t, index::rechunk_changes(t, chat_id, p));
    lemma_well_matched(t, chat_id, new);
    index::lemma_matching(rows, chat_id, new);
    lemma_ids_after_matching(t, chat_id, new);
    assert(index::deletions(rows, m.free) =~= drops(ids));
    tables::lemma_replay_concat(t, m.changes, drops(ids));
    assert(after == tables::replayed(mid, drops(ids)));
    assert forall|c: ChunkRowView| #[trigger] after.chunks.contains(c) <==> now.contains(c)
        && !ids.contains(c.id) by {
        lemma_drops(mid, ids, c);
    }
    lemma_drops(mid, ids, arbitrary());
    // A row survives unless its position was left free.
    assert forall|q: int| 0 <= q < now.len() implies (ids.contains((#[trigger] now[q]).id)
        <==> m.free.contains(q)) by {
        if m.free.contains(q) {
            let k = choose|k: int| 0 <= k < m.free.len() && m.free[k] == q;
            assert(ids[k] == now[q].id);
        }
        if ids.contains(now[q].id) {
            let k = choose|k: int| 0 <= k < ids.len() && ids[k] == now[q].id;
            let f = m.free[k];
            assert(0 <= f < rows.len());
            assert(now[f].id == rows[f].id);
            assert(f == q);
        }
    }
    assert forall|s: int| 0 <= s < new.len() implies #[trigger] has_chunk(
        after.chunks,
        chat_id,
        s,
        new[s].content_hash,
    ) by {
        let q = slot(rows, chat_id, new, s);
        let c = now[q];
        assert(c == placed(rows, chat_id, new, s));
        assert(!m.free.contains(q));
        assert(now.contains(c));
        assert(after.chunks.contains(c));
    }
    assert forall|c: ChunkRowView| #[trigger]
        after.chunks.contains(c) && c.chat_id == chat_id implies 0 <= c.seq < new.len()
        && c.content_hash == new[c.seq as int].content_hash && (is_kept_row(rows, chat_id, c)
        || is_new_row(rows, chat_id, c, new[c.seq as int])) by {
        let q = choose|q: int| 0 <= q < now.len() && now[q] == c;
        assert(!m.free.contains(q));
        if !is_slot(rows, chat_id, new, q) {
            if q < rows.len() {
                assert(now[q] == rows[q]);
            }
        }
        let s = choose|s: int| 0 <= s < new.len() && #[trigger] slot(rows, chat_id, new, s) == q;
        assert(now[q] == placed(rows, chat_id, new, s));
        if q < rows.len() {
            assert(rows.contains(rows[q]));
        }
    }
    assert forall|c: ChunkRowView| c.chat_id != chat_id implies (#[trigger] after.chunks.contains(c)
        <==> t.chunks.contains(c)) by {
        if after.chunks.contains(c) {
            let q = choose|q: int| 0 <= q < now.len() && now[q] == c;
            if is_slot(rows, chat_id, new, q) {
                let s = choose|s: int|
                    0 <= s < new.len() && #[trigger] slot(rows, chat_id, new, s) == q;
                assert(now[q] == placed(rows, chat_id, new, s));
            }
            assert(q < rows.len());
            assert(rows[q] == c);
        }
        if t.chunks.contains(c) {
            let q = choose|q: int| 0 <= q < rows.len() && rows[q] == c;
            if is_slot(rows, chat_id, new, q) {
                let s = choose|s: int|
                    0 <= s < new.len() && #[trigger] slot(rows, chat_id, new, s) == q;
                assert(rows[q].chat_id == chat_id);
            }
            assert(now[q] == c);
            if m.free.contains(q) {
                let k = choose|k: int| 0 <= k < m.free.len() && m.free[k] == q;
                assert(rows[m.free[k]].chat_id == chat_id);
            }
            assert(now.contains(c));
        }
    }
}

proof fn lemma_reused(
    t: Tables,
    chat_id: i64,
    new: Seq<ChunkView>,
    p: int,
    s: int,
)
    requires
        0 <= p < t.chunks.len(),
        t.chunks[p].chat_id == chat_id,
        own_hashes_distinct(t.chunks, chat_id),
        0 <= s < new.len(),
        new[s].content_hash == t.chunks[p].content_hash,
    ensures
        is_slot(t.chunks, chat_id, new, p),
    decreases new.len(),
{
    let rows = t.chunks;
    let init = new.drop_last();
    let k = new.len() - 1;
    if s < k {
        assert(init[s] == new[s]);
        lemma_reused(t, chat_id, init, p, s);
    }
    if is_slot(rows, chat_id, init, p) {
        let r = choose|r: int| 0 <= r < init.len() && #[trigger] slot(rows, chat_id, init, r) == p;
        lemma_slot_prefix(rows, chat_id, new, r);
        assert(slot(rows, chat_id, new, r) == p);
    } else {
        let b = index::matching(rows, chat_id, init);
        lemma_well_matched(t, chat_id, init);
        index::lemma_matching(rows, chat_id, init);
        let now = tables::replayed(t, b.changes).chunks;
        assert(now[p] == rows[p]);
        assert(b.free.contains(p));
        index::lemma_last_match(rows, b.free, new.last().content_hash);
        let z = choose|z: int| 0 <= z < b.free.len() && b.free[z] == p;
        assert(rows[b.free[z]].content_hash == new.last().content_hash);
        match index::last_match(rows, b.free, new.last().content_hash) {
            Some(j) => {
                let q = b.free[j];
                assert(rows[q].chat_id == chat_id);
                assert(q == p);
                assert(slot(rows, chat_id, new, k) == p);
            },
            None => {},
        }
    }
}

/// Whether no two chunks of a chat have the same content hash.
pub open spec fn own_hashes_distinct(rows: Seq<ChunkRowView>, chat_id: i64) -> bool {
    forall|i: int, j: int|
        0 <= i < rows.len() && 0 <= j < rows.len() && rows[i].chat_id == chat_id
            && rows[j].chat_id == chat_id && i != j ==> (#[trigger] rows[i]).content_hash != (
        #[trigger] rows[j]).content_hash
}

/// A chunk whose content hash is still that of a chunk of the chat keeps its
/// row, with its id and its text, so that what is kept by chunk identity
/// survives a new chunking.
pub proof fn law_unchanged_chunk_keeps_its_row(
    t: Tables,
    chat_id: i64,
    params: ChunkParams,
    p: int,
    s: int,
)
    requires
        tables::keyed(t),
        own_hashes_distinct(t.chunks, chat_id),
        index::top_chunk(t.chunks) + index::fresh_chunks(t, chat_id, params).len() <= i64::MAX,
        0 <= p < t.chunks.len(),
        t.chunks[p].chat_id == chat_id,
        0 <= s < index::fresh_chunks(t, chat_id, params).len(),
        index::fresh_chunks(t, chat_id, params)[s].content_hash == t.chunks[p].content_hash,
    ensures
        exists|c: ChunkRowView| #[trigger]
            tables::replayed(t, index::rechunk_changes(t, chat_id, params)).chunks.contains(c)
                && c.id == t.chunks[p].id && c.text == t.chunks[p].text && c.content_hash
                == t.chunks[p].content_hash,
{
    let rows = t.chunks;
    let new = index::fresh_chunks(t, chat_id, params);
    let m = index::matching(rows, chat_id, new);
    let mid = tables::replayed(t, m.changes);
    let now = mid.chunks;
    let ids = m.free.map_values(|q: int| rows[q].id);
    let after = tables::replayed(t, index::rechunk_changes(t, chat_id, params));
    lemma_reused(t, chat_id, new, p, s);
    lemma_well_matched(t, chat_id, new);
    index::lemma_matching(rows, chat_id, new);
    let r = choose|r: int| 0 <= r < new.len() && #[trigger] slot(rows, chat_id, new, r) == p;
    let c = now[p];
    assert(c == placed(rows, chat_id, new, r));
    assert(index::deletions(rows, m.free) =~= drops(ids));
    tables::lemma_replay_concat(t, m.changes, drops(ids));
    lemma_drops(mid, ids, c);
    if ids.contains(c.id) {
        let k = choose|k: int| 0 <= k < ids.len() && ids[k] == c.id;
        assert(rows[m.free[k]].id == rows[p].id);
        assert(m.free[k] == p);
        assert(m.free.contains(p));
    }
    assert(now.contains(c));
    assert(after.chunks.contains(c));
}

/// Whether the index holds a message as it is.
pub open spec fn stored(messages: Seq<MessageView>, m: ExtractedMessage) -> bool {
    match lists::first_index(messages, index::message_has_guid(m.guid@)) {
        Some(i) => messages[i].content_hash == index::hash_of(m),
        None => false,
    }
}

/// The index before a message is upserted: its chat and its sender are there.
pub open spec fn before_message(s: Progress, m: ExtractedMessage) -> Tables {
    let t1 = tables::replayed(s.t, etl::chat_step(s, m));
    tables::replayed(t1, etl::sender_step(t1, s.handle_ids, m))
}

/// Bringing in the chat and the sender of a message touches nothing else, and
/// what follows is the upsert of the message.
pub proof fn lemma_before_message(s: Progress, m: ExtractedMessage)
    ensures
        before_message(s, m).messages == s.t.messages,
        before_message(s, m).chunks == s.t.chunks,
        before_message(s, m).watermark == s.t.watermark,
        etl::ingest(s, m).t == tables::replayed(
            before_message(s, m),
            index::message_changes(
                before_message(s, m),
                m,
                etl::chat_of(s, m),
                etl::sender_of(
                    tables::replayed(s.t, etl::chat_step(s, m)),
                    s.handle_ids,
                    m,
                ),
            ),
        ),
{
    let cs1 = etl::chat_step(s, m);
    let t1 = tables::replayed(s.t, cs1);
    let cs2 = etl::sender_step(t1, s.handle_ids, m);
    let t2 = tables::replayed(t1, cs2);
    let cs3 = index::message_changes(
        t2,
        m,
        etl::chat_of(s, m),
        etl::sender_of(t1, s.handle_ids, m),
    );
    tables::lemma_replay_one(s.t, ChangeView::Reset);
    tables::lemma_replay_one(t1, ChangeView::Reset);
    if cs1.len() > 0 {
        assert(cs1 =~= seq![cs1[0]]);
        tables::lemma_replay_one(s.t, cs1[0]);
    } else {
        assert(cs1 =~= Seq::<ChangeView>::empty());
    }
    if cs2.len() > 0 {
        assert(cs2 =~= seq![cs2[0]]);
        tables::lemma_replay_one(t1, cs2[0]);
    } else {
        assert(cs2 =~= Seq::<ChangeView>::empty());
    }
    tables::lemma_replay_concat(s.t, cs1, cs2);
    tables::lemma_replay_concat(s.t, cs1 + cs2, cs3);
}

/// A message that the index holds as it is changes no message, marks no chat,
/// and counts as unchanged.
pub proof fn law_known_message_changes_nothing(s: Progress, m: ExtractedMessage)
    requires
        stored(s.t.messages, m),
    ensures
        etl::ingest(s, m).t.messages == s.t.messages,
        etl::ingest(s, m).inserted == s.inserted,
        etl::ingest(s, m).updated == s.updated,
        etl::ingest(s, m).unchanged == s.unchanged + 1,
        etl::ingest(s, m).dirty == s.dirty,
{
    lemma_before_message(s, m);
    tables::lemma_replay_one(before_message(s, m), ChangeView::Reset);
}

/// A message whose content has changed is updated in place: its row takes the
/// text, the times and the hash that the source has now (no text when it was
/// retracted) and keeps its id; no other message changes; and its chat is
/// marked for a new chunking.
pub proof fn law_changed_message_is_updated(s: Progress, m: ExtractedMessage, i: int)
    requires
        lists::first_index(s.t.messages, index::message_has_guid(m.guid@)) == Some(i),
        s.t.messages[i].content_hash != index::hash_of(m),
    ensures
        etl::ingest(s, m).t.messages.len() == s.t.messages.len(),
        ({
            let row = etl::ingest(s, m).t.messages[i];
            &&& row.id == s.t.messages[i].id
            &&& row.guid == s.t.messages[i].guid
            &&& row.text == text::opt_view(m.text)
            &&& row.edited_at_ms == index::millis_of(m.edited_at)
            &&& row.retracted_at_ms == index::millis_of(m.retracted_at)
            &&& row.content_hash == index::hash_of(m)
        }),
        forall|j: int|
            0 <= j < s.t.messages.len() && j != i ==> (#[trigger] etl::ingest(s, m).t.messages[j])
                == s.t.messages[j],
        etl::ingest(s, m).updated == s.updated + 1,
        etl::ingest(s, m).inserted == s.inserted,
        etl::chat_of(s, m) matches Some(id) ==> etl::ingest(s, m).dirty.contains(id),
{
    lemma_before_message(s, m);
    lists::lemma_first_index(s.t.messages, index::message_has_guid(m.guid@));
    let t2 = before_message(s, m);
    let t1 = tables::replayed(s.t, etl::chat_step(s, m));
    let row = index::refreshed_message(
        t2.messages[i],
        m,
        etl::chat_of(s, m),
        etl::sender_of(t1, s.handle_ids, m),
    );
    tables::lemma_replay_one(t2, ChangeView::UpdateMessage(i, row));
    lemma_add_once(s.dirty, etl::chat_of(s, m)->0);
}

/// What a list holds once a number was put in it.
pub proof fn lemma_add_once(s: Seq<i64>, x: i64)
    ensures
        index::add_once(s, x).contains(x),
        forall|y: i64| #[trigger] index::add_once(s, x).contains(y) <==> s.contains(y) || y == x,
{
    let r = index::add_once(s, x);
    if !s.contains(x) {
        assert(r[s.len() as int] == x);
        assert forall|y: i64| #[trigger] r.contains(y) <==> s.contains(y) || y == x by {
            if s.contains(y) {
                let k = choose|k: int| 0 <= k < s.len() && s[k] == y;
                assert(r[k] == y);
            }
            if r.contains(y) {
                let k = choose|k: int| 0 <= k < r.len() && r[k] == y;
                if k < s.len() {
                    assert(s[k] == y);
                }
            }
        }
    }
}

/// Once a message has been taken in, the index holds it as it is.
pub proof fn law_ingest_stores_the_message(s: Progress, m: ExtractedMessage)
    ensures
        stored(etl::ingest(s, m).t.messages, m),
{
    lemma_before_message(s, m);
    let t2 = before_message(s, m);
    let t1 = tables::replayed(s.t, etl::chat_step(s, m));
    let p = index::message_has_guid(m.guid@);
    let cs = index::message_changes(
        t2,
        m,
        etl::chat_of(s, m),
        etl::sender_of(t1, s.handle_ids, m),
    );
    lists::lemma_first_index(t2.messages, p);
    tables::lemma_replay_one(t2, ChangeView::Reset);
    let after = etl::ingest(s, m).t.messages;
    match lists::first_index(t2.messages, p) {
        Some(i) => {
            if t2.messages[i].content_hash != index::hash_of(m) {
                tables::lemma_replay_one(t2, cs[0]);
                assert(cs =~= seq![cs[0]]);
                assert forall|j: int| 0 <= j < i implies !p(#[trigger] after[j]) by {
                    assert(after[j] == t2.messages[j]);
                }
                lists::lemma_is_first_index(after, p, i);
            }
        },
        None => {
            tables::lemma_replay_one(t2, cs[0]);
            assert(cs =~= seq![cs[0]]);
            let n = t2.messages.len() as int;
            assert forall|j: int| 0 <= j < n implies !p(#[trigger] after[j]) by {
                assert(after[j] == t2.messages[j]);
            }
            lists::lemma_is_first_index(after, p, n);
        },
    }
}

proof fn lemma_ingest_keeps(s: Progress, m: ExtractedMessage, other: ExtractedMessage)
    requires
        stored(s.t.messages, other),
        other.guid@ != m.guid@,
    ensures
        stored(etl::ingest(s, m).t.messages, other),
{
    lemma_before_message(s, m);
    let t2 = before_message(s, m);
    let t1 = tables::replayed(s.t, etl::chat_step(s, m));
    let p = index::message_has_guid(m.guid@);
    let q = index::message_has_guid(other.guid@);
    let cs = index::message_changes(
        t2,
        m,
        etl::chat_of(s, m),
        etl::sender_of(t1, s.handle_ids, m),
    );
    lists::lemma_first_index(t2.messages, p);
    lists::lemma_first_index(t2.messages, q);
    tables::lemma_replay_one(t2, ChangeView::Reset);
    let after = etl::ingest(s, m).t.messages;
    if cs.len() > 0 {
        tables::lemma_replay_one(t2, cs[0]);
        assert(cs =~= seq![cs[0]]);
        let k = lists::first_index(t2.messages, q)->0;
        assert forall|j: int| 0 <= j < k implies !q(#[trigger] after[j]) by {
            assert(!q(t2.messages[j]));
            match lists::first_index(t2.messages, p) {
                Some(i) => {
                    if i == j {
                        assert(after[j].guid == t2.messages[j].guid);
                    } else {
                        assert(after[j] == t2.messages[j]);
                    }
                },
                None => {
                    assert(after[j] == t2.messages[j]);
                },
            }
        }
        assert(after[k] == t2.messages[k]) by {
            match lists::first_index(t2.messages, p) {
                Some(i) => {
                    assert(i != k);
                },
                None => {},
            }
        }
        lists::lemma_is_first_index(after, q, k);
    } else {
        assert(cs =~= Seq::<ChangeView>::empty());
    }
}

/// Whether the messages of a list have different guids.
pub open spec fn distinct_guids(msgs: Seq<ExtractedMessage>) -> bool {
    forall|i: int, j: int|
        0 <= i < j < msgs.len() ==> (#[trigger] msgs[i]).guid@ != (#[trigger] msgs[j]).guid@
}

/// After a scan the index holds every message of it as it is.
pub proof fn law_scan_stores_messages(
    s: Progress,
    msgs: Seq<ExtractedMessage>,
    start: int,
    i: int,
)
    requires
        distinct_guids(msgs),
        0 <= i < msgs.len(),
        msgs[i].rowid > start,
    ensures
        stored(etl::ingested(s, msgs, start).t.messages, msgs[i]),
    decreases msgs.len(),
{
    let init = msgs.drop_last();
    let before = etl::ingested(s, init, start);
    assert forall|a: int, b: int| 0 <= a < b < init.len() implies (#[trigger] init[a]).guid@ != (
    #[trigger] init[b]).guid@ by {
        assert(init[a] == msgs[a] && init[b] == msgs[b]);
    }
    if i == msgs.len() - 1 {
        law_ingest_stores_the_message(before, msgs.last());
    } else {
        law_scan_stores_messages(s, init, start, i);
        assert(init[i] == msgs[i]);
        if msgs.last().rowid > start {
            assert(msgs[i].guid@ != msgs[msgs.len() - 1].guid@);
            lemma_ingest_keeps(before, msgs.last(), msgs[i]);
        }
    }
}

/// A scan of messages that the index holds as they are changes no message,
/// marks no chat, and counts none as inserted or updated.
pub proof fn law_known_messages_change_nothing(
    s: Progress,
    msgs: Seq<ExtractedMessage>,
    start: int,
)
    requires
        forall|i: int|
            0 <= i < msgs.len() && msgs[i].rowid > start ==> stored(
                s.t.messages,
                #[trigger] msgs[i],
            ),
    ensures
        etl::ingested(s, msgs, start).t.messages == s.t.messages,
        etl::ingested(s, msgs, start).inserted == s.inserted,
        etl::ingested(s, msgs, start).updated == s.updated,
        etl::ingested(s, msgs, start).dirty == s.dirty,
    decreases msgs.len(),
{
    if msgs.len() > 0 {
        let init = msgs.drop_last();
        assert forall|i: int| 0 <= i < init.len() && init[i].rowid > start implies stored(
            s.t.messages,
            #[trigger] init[i],
        ) by {
            assert(init[i] == msgs[i]);
        }
        law_known_messages_change_nothing(s, init, start);
        if msgs.last().rowid > start {
            assert(msgs.last() == msgs[msgs.len() - 1]);
            law_known_message_changes_nothing(etl::ingested(s, init, start), msgs.last());
        }
    }
}

/// Rows up to the start of the scan are passed over: an edit further back
/// than the overlap is not seen.
pub proof fn law_rows_before_the_scan_are_passed_over(
    s: Progress,
    msgs: Seq<ExtractedMessage>,
    start: int,
)
    requires
        forall|i: int| 0 <= i < msgs.len() ==> (#[trigger] msgs[i]).rowid <= start,
    ensures
        etl::ingested(s, msgs, start) == s,
    decreases msgs.len(),
{
    if msgs.len() > 0 {
        let init = msgs.drop_last();
        assert forall|i: int| 0 <= i < init.len() implies (#[trigger] init[i]).rowid <= start by {
            assert(init[i] == msgs[i]);
        }
        law_rows_before_the_scan_are_passed_over(s, init, start);
        assert(msgs.last() == msgs[msgs.len() - 1]);
    }
}

/// The watermark never falls and ends at or above every row scanned; it is
/// the old one or the number of a row.
pub proof fn law_watermark_rises(s: Progress, msgs: Seq<ExtractedMessage>, start: int)
    ensures
        s.watermark <= etl::ingested(s, msgs, start).watermark,
        forall|i: int|
            0 <= i < msgs.len() && msgs[i].rowid > start ==> (#[trigger] msgs[i]).rowid
                <= etl::ingested(s, msgs, start).watermark,
        etl::ingested(s, msgs, start).watermark == s.watermark || exists|i: int|
            0 <= i < msgs.len() && (#[trigger] msgs[i]).rowid == etl::ingested(
                s,
                msgs,
                start,
            ).watermark && msgs[i].rowid > start,
    decreases msgs.len(),
{
    if msgs.len() > 0 {
        let init = msgs.drop_last();
        let w = etl::ingested(s, init, start).watermark;
        let now = etl::ingested(s, msgs, start).watermark;
        law_watermark_rises(s, init, start);
        assert forall|i: int| 0 <= i < msgs.len() && msgs[i].rowid > start implies (
        #[trigger] msgs[i]).rowid <= now by {
            if i < init.len() {
                assert(init[i] == msgs[i]);
            }
        }
        if now == w {
            if w != s.watermark {
                let i = choose|i: int|
                    0 <= i < init.len() && (#[trigger] init[i]).rowid == w && init[i].rowid > start;
                assert(msgs[i].rowid == now);
            }
        } else {
            assert(msgs[msgs.len() - 1].rowid == now);
        }
    }
}

proof fn lemma_ingest_replays(s: Progress, msgs: Seq<ExtractedMessage>, start: int)
    ensures
        tables::replayed(s.t, etl::all_ingest_changes(s, msgs, start)) == etl::ingested(
            s,
            msgs,
            start,
        ).t,
    decreases msgs.len(),
{
    if msgs.len() == 0 {
        tables::lemma_replay_one(s.t, ChangeView::Reset);
    } else {
        let init = msgs.drop_last();
        lemma_ingest_replays(s, init, start);
        if msgs.last().rowid > start {
            tables::lemma_replay_concat(
                s.t,
                etl::all_ingest_changes(s, init, start),
                etl::ingest_changes(etl::ingested(s, init, start), msgs.last()),
            );
        }
    }
}

proof fn lemma_handle_updates(t: Tables, cs: Seq<ChangeView>)
    requires
        forall|i: int| 0 <= i < cs.len() ==> (#[trigger] cs[i]) is UpdateHandle,
    ensures
        index::same_but_handles(t, tables::replayed(t, cs)),
    decreases cs.len(),
{
    if cs.len() > 0 {
        let a = cs.drop_last();
        assert forall|i: int| 0 <= i < a.len() implies (#[trigger] a[i]) is UpdateHandle by {
            assert(a[i] == cs[i]);
        }
        lemma_handle_updates(t, a);
        assert(cs.last() == cs[cs.len() - 1]);
    }
}

/// A list whose first `n` handles have the names that a contact book gives
/// them.
spec fn named_up_to(handles: Seq<HandleView>, names: Map<Seq<char>, Seq<char>>, n: int) -> Seq<
    HandleView,
> {
    Seq::new(
        handles.len(),
        |i: int|
            if i < n {
                index::with_book_name(handles[i], names)
            } else {
                handles[i]
            },
    )
}

proof fn lemma_names_up_to(t: Tables, names: Map<Seq<char>, Seq<char>>, n: int)
    requires
        0 <= n <= t.handles.len(),
    ensures
        ({
            let ps = index::renamed_positions(t.handles.take(n), names);
            let cs = ps.map_values(
                |i: int| ChangeView::UpdateHandle(i, index::with_book_name(t.handles[i], names)),
            );
            tables::replayed(t, cs).handles == named_up_to(t.handles, names, n)
        }),
    decreases n,
{
    let update = |i: int|
        ChangeView::UpdateHandle(i, index::with_book_name(t.handles[i], names));
    let ps = index::renamed_positions(t.handles.take(n), names);
    let cs = ps.map_values(update);
    if n == 0 {
        assert(cs =~= Seq::<ChangeView>::empty());
        assert(t.handles =~= named_up_to(t.handles, names, 0));
    } else {
        let h = t.handles[n - 1];
        let before = named_up_to(t.handles, names, n - 1);
        let a = index::renamed_positions(t.handles.take(n - 1), names);
        lemma_names_up_to(t, names, n - 1);
        assert(t.handles.take(n).drop_last() =~= t.handles.take(n - 1));
        if index::is_renamed(h, names) {
            assert(cs =~= a.map_values(update).push(update(n - 1)));
            tables::lemma_replay_push(t, a.map_values(update), update(n - 1));
            assert(before.update(n - 1, index::with_book_name(h, names)) =~= named_up_to(
                t.handles,
                names,
                n,
            ));
        } else {
            assert(before =~= named_up_to(t.handles, names, n));
        }
    }
}

/// The handles with the names that a contact book, if there is one, gives
/// them.
pub open spec fn named(
    handles: Seq<HandleView>,
    names: Option<Map<Seq<char>, Seq<char>>>,
) -> Seq<HandleView> {
    match names {
        Some(names) => handles.map_values(|h: HandleView| index::with_book_name(h, names)),
        None => handles,
    }
}

/// Naming gives every handle the name of the book and touches nothing else.
pub proof fn lemma_naming(t: Tables, names: Option<Map<Seq<char>, Seq<char>>>)
    ensures
        index::same_but_handles(t, tables::replayed(t, etl::naming(t, names))),
        tables::replayed(t, etl::naming(t, names)).handles == named(t.handles, names),
{
    lemma_handle_updates(t, etl::naming(t, names));
    match names {
        Some(book) => {
            let n = t.handles.len() as int;
            lemma_names_up_to(t, book, n);
            assert(t.handles.take(n) =~= t.handles);
            assert(named_up_to(t.handles, book, n) =~= named(t.handles, names));
        },
        None => {
            tables::lemma_replay_one(t, ChangeView::Reset);
        },
    }
}

proof fn lemma_rechunk_keeps(t: Tables, chat_id: i64, p: ChunkParams)
    ensures
        index::same_but_chunks(
            t,
            tables::replayed(t, index::rechunk_changes(t, chat_id, p)),
        ),
{
    let rows = t.chunks;
    let new = index::fresh_chunks(t, chat_id, p);
    let m = index::matching(rows, chat_id, new);
    let ids = m.free.map_values(|q: int| rows[q].id);
    lemma_well_matched(t, chat_id, new);
    assert(index::deletions(rows, m.free) =~= drops(ids));
    tables::lemma_replay_concat(t, m.changes, drops(ids));
    lemma_drops(tables::replayed(t, m.changes), ids, arbitrary());
}

proof fn lemma_rechunking_keeps(t: Tables, ids: Seq<i64>, p: ChunkParams)
    ensures
        index::same_but_chunks(t, tables::replayed(t, etl::rechunking(t, ids, p))),
    decreases ids.len(),
{
    if ids.len() == 0 {
        tables::lemma_replay_one(t, ChangeView::Reset);
    } else {
        let before = etl::rechunking(t, ids.drop_last(), p);
        let mid = tables::replayed(t, before);
        lemma_rechunking_keeps(t, ids.drop_last(), p);
        lemma_rechunk_keeps(mid, ids.last(), p);
        tables::lemma_replay_concat(t, before, index::rechunk_changes(mid, ids.last(), p));
    }
}

/// The index after a sync.
pub open spec fn after_sync(
    t: Tables,
    source: Seq<ExtractedMessage>,
    overlap: u32,
    p: ChunkParams,
    names: Option<Map<Seq<char>, Seq<char>>>,
) -> Tables {
    tables::replayed(t, etl::sync_changes(t, source, overlap, p, names))
}

/// What the scan of a sync leaves behind.
pub open spec fn scanned(t: Tables, source: Seq<ExtractedMessage>, overlap: u32) -> Progress {
    etl::ingested(
        etl::at_start(t),
        source,
        etl::start_of(index::watermark_of(t.watermark), overlap),
    )
}

/// A sync leaves the messages and chats that its scan took in, the watermark
/// that the scan reached, and the vectors as they were; with a contact book,
/// every handle has the name that the book gives it; and the chunks are those
/// that cutting the marked chats anew leaves.
pub proof fn law_sync_result(
    t: Tables,
    source: Seq<ExtractedMessage>,
    overlap: u32,
    p: ChunkParams,
    names: Option<Map<Seq<char>, Seq<char>>>,
)
    ensures
        ({
            let s = scanned(t, source, overlap);
            let after = after_sync(t, source, overlap, p, names);
            &&& after.messages == s.t.messages
            &&& after.chats == s.t.chats
            &&& after.embeddings == s.t.embeddings
            &&& after.model == s.t.model
            &&& after.watermark == Some(numeric::decimal_int(s.watermark))
            &&& after.handles == named(s.t.handles, names)
            &&& ({
                let t2 = tables::replayed(s.t, etl::naming(s.t, names));
                let dirty = etl::dirty_after_naming(s.dirty, s.t, names);
                after.chunks == tables::replayed(t2, etl::rechunking(t2, dirty, p)).chunks
            })
        }),
{
    let start = etl::start_of(index::watermark_of(t.watermark), overlap);
    let s0 = etl::at_start(t);
    let s = scanned(t, source, overlap);
    let cs = etl::all_ingest_changes(s0, source, start);
    let naming = etl::naming(s.t, names);
    let t2 = tables::replayed(s.t, naming);
    let dirty = etl::dirty_after_naming(s.dirty, s.t, names);
    let rs = etl::rechunking(t2, dirty, p);
    let t3 = tables::replayed(t2, rs);
    let last = ChangeView::SetWatermark(numeric::decimal_int(s.watermark));
    lemma_ingest_replays(s0, source, start);
    tables::lemma_replay_concat(t, cs, naming);
    tables::lemma_replay_concat(t, cs + naming, rs);
    tables::lemma_replay_concat(t, cs + naming + rs, seq![last]);
    tables::lemma_replay_one(t3, last);
    lemma_naming(s.t, names);
    lemma_rechunking_keeps(t2, dirty, p);
}

/// A second sync of the same source is idempotent: it inserts and updates
/// nothing, marks no chat for what it read, and leaves every message and the
/// watermark as they are.
pub proof fn law_second_sync_is_idempotent(
    t: Tables,
    source: Seq<ExtractedMessage>,
    overlap: u32,
    p: ChunkParams,
    names: Option<Map<Seq<char>, Seq<char>>>,
)
    requires
        distinct_guids(source),
    ensures
        ({
            let first = after_sync(t, source, overlap, p, names);
            let second = after_sync(first, source, overlap, p, names);
            let s = scanned(first, source, overlap);
            &&& s.inserted == 0
            &&& s.updated == 0
            &&& s.dirty == etl::first_dirty(first)
            &&& second.messages == first.messages
            &&& second.watermark == first.watermark
        }),
{
    let first = after_sync(t, source, overlap, p, names);
    let start1 = etl::start_of(index::watermark_of(t.watermark), overlap);
    let s1 = scanned(t, source, overlap);
    law_sync_result(t, source, overlap, p, names);
    law_watermark_rises(etl::at_start(t), source, start1);
    let w = s1.watermark;
    assert(i64::MIN <= w <= i64::MAX);
    numeric::law_decimal_round_trip(w as i64);
    assert(index::watermark_of(first.watermark) == w);
    let start2 = etl::start_of(w, overlap);
    assert(start2 >= start1);
    let s2 = scanned(first, source, overlap);
    assert forall|i: int| 0 <= i < source.len() && source[i].rowid > start2 implies stored(
        first.messages,
        #[trigger] source[i],
    ) by {
        law_scan_stores_messages(etl::at_start(t), source, start1, i);
    }
    law_known_messages_change_nothing(etl::at_start(first), source, start2);
    law_watermark_rises(etl::at_start(first), source, start2);
    law_sync_result(first, source, overlap, p, names);
    assert(s2.watermark == w) by {
        if s2.watermark != w {
            let i = choose|i: int|
                0 <= i < source.len() && (#[trigger] source[i]).rowid == s2.watermark
                    && source[i].rowid > start2;
            assert(source[i].rowid <= w);
        }
    }
}

/// The chats that a change of names marks are those that were marked before
/// and those in which a renamed contact wrote, and no others.
pub proof fn law_rename_marks_only_the_contacts_chats(
    dirty: Seq<i64>,
    messages: Seq<MessageView>,
    renamed: Seq<i64>,
    chat: i64,
)
    ensures
        index::with_chats_of(dirty, messages, renamed).contains(chat) <==> dirty.contains(chat)
            || exists|i: int|
            0 <= i < messages.len() && (#[trigger] messages[i]).chat_id == Some(chat)
                && messages[i].sender_id is Some && renamed.contains(messages[i].sender_id->0),
    decreases messages.len(),
{
    if messages.len() > 0 {
        let init = messages.drop_last();
        let before = index::with_chats_of(dirty, init, renamed);
        let last = messages.last();
        law_rename_marks_only_the_contacts_chats(dirty, init, renamed, chat);
        if last.chat_id is Some {
            lemma_add_once(before, last.chat_id->0);
        }
        let now = index::with_chats_of(dirty, messages, renamed);
        if now.contains(chat) {
            if before.contains(chat) {
                if !dirty.contains(chat) {
                    let i = choose|i: int|
                        0 <= i < init.len() && (#[trigger] init[i]).chat_id == Some(chat)
                            && init[i].sender_id is Some && renamed.contains(init[i].sender_id->0);
                    assert(messages[i] == init[i]);
                }
            } else {
                assert(messages[messages.len() - 1] == last);
            }
        }
        if exists|i: int|
            0 <= i < messages.len() && (#[trigger] messages[i]).chat_id == Some(chat)
                && messages[i].sender_id is Some && renamed.contains(messages[i].sender_id->0) {
            let i = choose|i: int|
                0 <= i < messages.len() && (#[trigger] messages[i]).chat_id == Some(chat)
                    && messages[i].sender_id is Some && renamed.contains(messages[i].sender_id->0);
            if i < init.len() {
                assert(init[i] == messages[i]);
            }
        }
    }
}

/// A contact book that gives every handle the name it has renames none, so
/// that only a change of names costs a new chunking.
pub proof fn law_same_names_rename_nothing(
    handles: Seq<HandleView>,
    names: Map<Seq<char>, Seq<char>>,
)
    ensures
        index::renamed_positions(
            handles.map_values(|h: HandleView| index::with_book_name(h, names)),
            names,
        ).len() == 0,
    decreases handles.len(),
{
    let named = handles.map_values(|h: HandleView| index::with_book_name(h, names));
    if handles.len() > 0 {
        let a = handles.drop_last();
        law_same_names_rename_nothing(a, names);
        assert(named.drop_last() =~= a.map_values(
            |h: HandleView| index::with_book_name(h, names),
        ));
        assert(named.last() == index::with_book_name(handles.last(), names));
    }
}

} // verus!
