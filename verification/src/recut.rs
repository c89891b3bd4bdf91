//! The chunks that a sync leaves behind.
use crate::chunk;
use crate::chunk::{ChunkParams, ChunkView};
use crate::etl;
use crate::etl::Progress;
use crate::index;
use crate::laws;
use crate::lists;
use crate::model::ExtractedMessage;
use crate::numeric;
use crate::resync;
use crate::tables;
use crate::tables::{ChangeView, ChatView, ChunkRowView, Tables};
use vstd::prelude::*;

verus! {

proof fn lemma_top_at_most(rows: Seq<ChunkRowView>, bound: int)
    requires
        bound >= 0,
        forall|i: int| 0 <= i < rows.len() ==> (#[trigger] rows[i]).id <= bound,
    ensures
        index::top_chunk(rows) <= bound,
    decreases rows.len(),
{
    if rows.len() > 0 {
        let a = rows.drop_last();
        assert forall|i: int| 0 <= i < a.len() implies (#[trigger] a[i]).id <= bound by {
            assert(a[i] == rows[i]);
        }
        lemma_top_at_most(a, bound);
        assert(rows.last() == rows[rows.len() - 1]);
    }
}

/// Dropping an id keeps ids distinct and adds no row.
proof fn lemma_without(rows: Seq<ChunkRowView>, id: i64)
    requires
        tables::distinct_ids(rows),
    ensures
        tables::distinct_ids(tables::without_chunk(rows, id)),
        tables::without_chunk(rows, id).len() <= rows.len(),
    decreases rows.len(),
{
    if rows.len() > 0 {
        let a = rows.drop_last();
        let w = tables::without_chunk(a, id);
        let now = tables::without_chunk(rows, id);
        assert forall|i: int, j: int| 0 <= i < j < a.len() implies (#[trigger] a[i]).id != (
        #[trigger] a[j]).id by {
            assert(a[i] == rows[i] && a[j] == rows[j]);
        }
        lemma_without(a, id);
        if rows.last().id != id {
            assert forall|i: int, j: int| 0 <= i < j < now.len() implies (#[trigger] now[i]).id != (
            #[trigger] now[j]).id by {
                assert(now[i] == w[i]);
                if j < w.len() {
                    assert(now[j] == w[j]);
                } else {
                    laws::lemma_without_contains(a, id, w[i]);
                    assert(w.contains(w[i]));
                    let k = choose|k: int| 0 <= k < a.len() && a[k] == w[i];
                    assert(rows[k].id != rows[rows.len() - 1].id);
                }
            }
        }
    }
}

/// Dropping ids keeps ids distinct, adds no row and raises no id.
pub proof fn lemma_drops_keep(t: Tables, ids: Seq<i64>)
    requires
        tables::distinct_ids(t.chunks),
    ensures
        tables::distinct_ids(tables::replayed(t, laws::drops(ids)).chunks),
        tables::replayed(t, laws::drops(ids)).chunks.len() <= t.chunks.len(),
        index::top_chunk(tables::replayed(t, laws::drops(ids)).chunks) <= index::top_chunk(t.chunks),
    decreases ids.len(),
{
    if ids.len() == 0 {
        assert(laws::drops(ids) =~= Seq::<ChangeView>::empty());
        tables::lemma_replay_one(t, ChangeView::Reset);
    } else {
        let a = ids.drop_last();
        lemma_drops_keep(t, a);
        assert(laws::drops(ids).drop_last() =~= laws::drops(a));
        let rows = tables::replayed(t, laws::drops(a)).chunks;
        lemma_without(rows, ids.last());
        index::lemma_top_without(rows, ids.last());
    }
}

/// A new chunking keeps the ids of the chunks distinct, and brings no more
/// rows, and no higher ids, than there are new chunks.
pub proof fn lemma_rechunk_bounds(t: Tables, chat_id: i64, p: ChunkParams)
    requires
        tables::distinct_ids(t.chunks),
        index::top_chunk(t.chunks) + index::fresh_chunks(t, chat_id, p).len() <= i64::MAX,
    ensures
        ({
            let n = index::fresh_chunks(t, chat_id, p).len();
            let after = tables::replayed(t, index::rechunk_changes(t, chat_id, p)).chunks;
            &&& tables::distinct_ids(after)
            &&& after.len() <= t.chunks.len() + n
            &&& index::top_chunk(after) <= index::top_chunk(t.chunks) + n
        }),
{
    let rows = t.chunks;
    let new = index::fresh_chunks(t, chat_id, p);
    let m = index::matching(rows, chat_id, new);
    let mid = tables::replayed(t, m.changes);
    let ids = m.free.map_values(|q: int| rows[q].id);
    let bound = index::top_chunk(rows) + new.len();
    laws::lemma_well_matched(t, chat_id, new);
    index::lemma_matching(rows, chat_id, new);
    laws::lemma_ids_after_matching(t, chat_id, new);
    assert forall|i: int| 0 <= i < mid.chunks.len() implies (#[trigger] mid.chunks[i]).id
        <= bound by {
        if i < rows.len() {
            laws::lemma_top_bounds(rows, i);
        }
    }
    assert(bound >= 0) by {
        lemma_top_not_negative(rows);
    }
    lemma_top_at_most(mid.chunks, bound);
    assert(index::deletions(rows, m.free) =~= laws::drops(ids));
    tables::lemma_replay_concat(t, m.changes, laws::drops(ids));
    lemma_drops_keep(mid, ids);
}

proof fn lemma_top_not_negative(rows: Seq<ChunkRowView>)
    ensures
        index::top_chunk(rows) >= 0,
    decreases rows.len(),
{
    if rows.len() > 0 {
        lemma_top_not_negative(rows.drop_last());
    }
}

/// The chunks of a chat depend on the messages and the handles alone.
pub proof fn lemma_same_fresh(a: Tables, b: Tables, chat_id: i64, p: ChunkParams)
    requires
        a.messages == b.messages,
        a.handles == b.handles,
    ensures
        index::fresh_chunks(a, chat_id, p) == index::fresh_chunks(b, chat_id, p),
{
    assert(index::chunk_inputs(a, chat_id) =~= index::chunk_inputs(b, chat_id));
}

proof fn lemma_fresh_len(t: Tables, chat_id: i64, p: ChunkParams)
    requires
        t.messages.len() <= usize::MAX,
    ensures
        index::fresh_chunks(t, chat_id, p).len() <= t.messages.len(),
{
    index::lemma_timeline_shows(t, chat_id);
    chunk::law_no_more_chunks_than_messages(
        numeric::decimal_int(chat_id as int),
        index::chunk_inputs(t, chat_id),
        p,
    );
}

/// Whether two lists hold the same chunks of a chat.
pub open spec fn same_of(a: Seq<ChunkRowView>, b: Seq<ChunkRowView>, chat_id: i64) -> bool {
    forall|c: ChunkRowView|
        c.chat_id == chat_id ==> (#[trigger] a.contains(c) <==> b.contains(c))
}

proof fn lemma_holds_carries(
    a: Seq<ChunkRowView>,
    b: Seq<ChunkRowView>,
    chat_id: i64,
    new: Seq<ChunkView>,
)
    requires
        laws::holds_chunks(a, chat_id, new),
        same_of(b, a, chat_id),
    ensures
        laws::holds_chunks(b, chat_id, new),
{
    assert forall|s: int| 0 <= s < new.len() implies #[trigger] laws::has_chunk(
        b,
        chat_id,
        s,
        new[s].content_hash,
    ) by {
        assert(laws::has_chunk(a, chat_id, s, new[s].content_hash));
        let c = choose|c: ChunkRowView| #[trigger]
            a.contains(c) && c.chat_id == chat_id && c.seq == s && c.content_hash
                == new[s].content_hash;
        assert(b.contains(c));
    }
}

#[verifier::rlimit(30)]
proof fn lemma_recut(t: Tables, ids: Seq<i64>, p: ChunkParams, chat: i64)
    requires
        tables::keyed(t),
        t.messages.len() <= usize::MAX,
        index::top_chunk(t.chunks) + ids.len() * t.messages.len() <= i64::MAX,
        t.chunks.len() + ids.len() * t.messages.len() <= i64::MAX,
    ensures
        ({
            let after = tables::replayed(t, etl::rechunking(t, ids, p));
            &&& index::same_but_chunks(t, after)
            &&& tables::keyed(after)
            &&& index::top_chunk(after.chunks) <= index::top_chunk(t.chunks) + ids.len()
                * t.messages.len()
            &&& after.chunks.len() <= t.chunks.len() + ids.len() * t.messages.len()
            &&& ids.contains(chat) ==> laws::holds_chunks(
                after.chunks,
                chat,
                index::fresh_chunks(t, chat, p),
            )
            &&& !ids.contains(chat) ==> same_of(after.chunks, t.chunks, chat)
        }),
    decreases ids.len(),
{
    if ids.len() == 0 {
        tables::lemma_replay_one(t, ChangeView::Reset);
    } else {
        let init = ids.drop_last();
        let last = ids.last();
        let n = init.len() as int;
        let a = t.messages.len() as int;
        let before = etl::rechunking(t, init, p);
        let mid = tables::replayed(t, before);
        let after = tables::replayed(t, etl::rechunking(t, ids, p));
        etl::lemma_room_product(a, n, n + 1);
        lemma_recut(t, init, p, chat);
        lemma_same_fresh(t, mid, last, p);
        lemma_same_fresh(t, mid, chat, p);
        lemma_fresh_len(t, last, p);
        tables::lemma_replay_concat(t, before, index::rechunk_changes(mid, last, p));
        lemma_rechunk_bounds(mid, last, p);
        laws::law_rechunk_replaces_a_chats_chunks(mid, last, p);
        assert(ids.contains(chat) <==> init.contains(chat) || last == chat) by {
            if init.contains(chat) {
                let k = choose|k: int| 0 <= k < init.len() && init[k] == chat;
                assert(ids[k] == chat);
            }
            if last == chat {
                assert(ids[n] == chat);
            }
            if ids.contains(chat) {
                let k = choose|k: int| 0 <= k < ids.len() && ids[k] == chat;
                if k < n {
                    assert(init[k] == chat);
                }
            }
        }
        if chat != last {
            assert(same_of(after.chunks, mid.chunks, chat));
            if init.contains(chat) {
                lemma_holds_carries(
                    mid.chunks,
                    after.chunks,
                    chat,
                    index::fresh_chunks(t, chat, p),
                );
            }
        }
    }
}

/// A scan brings no more messages, and marks no more chats, than it reads, and
/// leaves chunks and vectors alone.
pub proof fn lemma_scan_bounds(s: Progress, msgs: Seq<ExtractedMessage>, start: int)
    ensures
        etl::ingested(s, msgs, start).t.messages.len() <= s.t.messages.len() + msgs.len(),
        etl::ingested(s, msgs, start).dirty.len() <= s.dirty.len() + msgs.len(),
        etl::ingested(s, msgs, start).t.chunks == s.t.chunks,
        etl::ingested(s, msgs, start).t.embeddings == s.t.embeddings,
    decreases msgs.len(),
{
    if msgs.len() > 0 {
        let init = msgs.drop_last();
        let before = etl::ingested(s, init, start);
        let m = msgs.last();
        lemma_scan_bounds(s, init, start);
        if m.rowid > start {
            let t1 = tables::replayed(before.t, etl::chat_step(before, m));
            laws::lemma_before_message(before, m);
            lists::lemma_first_index(before.t.messages, index::message_has_guid(m.guid@));
            resync::lemma_ingest_tables(before, m);
            resync::lemma_one_or_none(
                laws::before_message(before, m),
                index::message_changes(
                    laws::before_message(before, m),
                    m,
                    etl::chat_of(before, m),
                    etl::sender_of(t1, before.handle_ids, m),
                ),
            );
        }
    }
}

/// After a sync every chat that it marked holds the chunks of its messages,
/// under the names that its senders have now, and no others; the chunks of
/// every other chat are those it had.
pub proof fn law_sync_cuts_the_marked_chats(
    t: Tables,
    source: Seq<ExtractedMessage>,
    overlap: u32,
    p: ChunkParams,
    names: Option<Map<Seq<char>, Seq<char>>>,
    chat: i64,
)
    requires
        tables::keyed(t),
        etl::room(t, source.len()),
        t.messages.len() + source.len() <= usize::MAX,
        t.chunks.len() + (t.messages.len() + source.len()) * (t.chats.len() + t.messages.len() + 2
            * source.len()) <= i64::MAX,
    ensures
        ({
            let s = laws::scanned(t, source, overlap);
            let marked = etl::dirty_after_naming(s.dirty, s.t, names);
            let after = laws::after_sync(t, source, overlap, p, names);
            &&& tables::keyed(after)
            &&& marked.contains(chat) ==> laws::holds_chunks(
                after.chunks,
                chat,
                index::fresh_chunks(after, chat, p),
            )
            &&& !marked.contains(chat) ==> same_of(after.chunks, t.chunks, chat)
        }),
{
    let start = etl::start_of(index::watermark_of(t.watermark), overlap);
    let s = laws::scanned(t, source, overlap);
    let marked = etl::dirty_after_naming(s.dirty, s.t, names);
    let t2 = tables::replayed(s.t, etl::naming(s.t, names));
    let after = laws::after_sync(t, source, overlap, p, names);
    let cap = (t.messages.len() + source.len()) as int;
    let most = (t.chats.len() + t.messages.len() + 2 * source.len()) as int;
    lemma_scan_bounds(etl::at_start(t), source, start);
    laws::lemma_naming(s.t, names);
    laws::law_sync_result(t, source, overlap, p, names);
    if t.chunks.len() == 0 && t.messages.len() > 0 {
        etl::lemma_marked_len(t.chats.map_values(|c: ChatView| c.id));
    }
    if names is Some {
        etl::lemma_chats_of_len(
            s.dirty,
            s.t.messages,
            index::renamed_ids(s.t.handles, names->0),
        );
    }
    lemma_product(marked.len() as int, most, t2.messages.len() as int, cap);
    lemma_recut(t2, marked, p, chat);
    lemma_same_fresh(t2, after, chat, p);
}

proof fn lemma_product(a: int, b: int, c: int, d: int)
    by (nonlinear_arith)
    requires
        0 <= a <= b,
        0 <= c <= d,
    ensures
        a * c <= d * b,
{
}

} // verus!
