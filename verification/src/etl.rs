//! Incremental sync of messages into the index.
//!
//! Messages are appended to the source with rising ROWIDs, but recent rows
//! also change in place (edits, retractions). Each run therefore rescans from
//! `watermark - overlap` and upserts by GUID; the content hash decides
//! whether a message that is known has changed.
use crate::chunk::ChunkParams;
use crate::contacts::ContactBook;
use crate::extract::SourceError;
use crate::index;
use crate::index::{mark, IndexDb, IndexError, Upsert};
use crate::laws;
use crate::lists;
use crate::model::ExtractedMessage;
use crate::numeric;
use crate::numeric::{decimal_i64, decimal_u64};
use crate::recut;
use crate::tables;
use crate::tables::{ChangeView, ChatView, MessageView, Tables};
use crate::text;
use crate::text::clone_opt;
use vstd::hash_map::StringHashMap;
use vstd::prelude::*;
use vstd::string::*;

verus! {

/// Why a run failed.
#[derive(Debug, Clone, PartialEq, Eq)]
pub enum EtlError {
    Source(SourceError),
    Index(IndexError),
    Embedding(String),
}

impl EtlError {
    /// What the error says.
    pub open spec fn text(self) -> Seq<char> {
        match self {
            EtlError::Source(e) => e.text(),
            EtlError::Index(e) => e.text(),
            EtlError::Embedding(why) => "embedding failed: "@ + why@,
        }
    }

    /// What the error says.
    pub fn message(&self) -> (r: String)
        ensures
            r@ == self.text(),
    {
        match self {
            EtlError::Source(e) => e.message(),
            EtlError::Index(e) => e.message(),
            EtlError::Embedding(why) => {
                let mut s = "embedding failed: ".to_owned();
                s.append(why.as_str());
                s
            },
        }
    }
}

/// What a sync did.
#[derive(Debug, Default, PartialEq, Eq, Clone)]
pub struct SyncReport {
    pub index_path: String,
    pub scanned: u64,
    pub inserted: u64,
    pub updated: u64,
    pub unchanged: u64,
    pub watermark_before: i64,
    pub watermark_after: i64,
    pub rechunked_chats: u64,
    /// Handles that have a contact name.
    pub named_handles: u64,
    pub total_messages: u64,
    pub total_chats: u64,
    pub total_handles: u64,
    pub total_chunks: u64,
}

/// The ROWID after which a run rescans the source.
pub open spec fn start_of(watermark: int, overlap: u32) -> int {
    if watermark - overlap > 0 {
        watermark - overlap
    } else {
        0
    }
}

/// The ROWID after which a run rescans the source.
pub fn scan_start(watermark: i64, overlap: u32) -> (r: i64)
    ensures
        r == start_of(watermark as int, overlap),
{
    if watermark > overlap as i64 {
        watermark - overlap as i64
    } else {
        0
    }
}

/// A sync in progress.
pub struct Progress {
    pub t: Tables,
    /// The chats seen in this run.
    pub chat_ids: Map<Seq<char>, i64>,
    /// The senders seen in this run.
    pub handle_ids: Map<Seq<char>, i64>,
    /// The chats whose chunks are out of date.
    pub dirty: Seq<i64>,
    pub inserted: nat,
    pub updated: nat,
    pub unchanged: nat,
    pub watermark: int,
}

/// The changes that bring the chat of a message into the index: none when
/// this run has seen the chat.
pub open spec fn chat_step(s: Progress, m: ExtractedMessage) -> Seq<ChangeView> {
    match m.chat_guid {
        Some(g) => if s.chat_ids.contains_key(g@) {
            Seq::empty()
        } else {
            index::chat_changes(s.t, g@, m.group(), text::opt_view(m.chat_display_name))
        },
        None => Seq::empty(),
    }
}

/// The id of the chat of a message.
pub open spec fn chat_of(s: Progress, m: ExtractedMessage) -> Option<i64> {
    match m.chat_guid {
        Some(g) => Some(
            if s.chat_ids.contains_key(g@) {
                s.chat_ids[g@]
            } else {
                index::chat_id_for(s.t, g@) as i64
            },
        ),
        None => None,
    }
}

/// The handle that sent a message: none when the user did.
pub open spec fn sender_handle(m: ExtractedMessage) -> Option<Seq<char>> {
    if m.is_from_me {
        None
    } else {
        text::opt_view(m.sender_handle)
    }
}

/// The changes that bring the sender of a message into an index: none when
/// this run has seen the sender.
pub open spec fn sender_step(
    t: Tables,
    handle_ids: Map<Seq<char>, i64>,
    m: ExtractedMessage,
) -> Seq<ChangeView> {
    match sender_handle(m) {
        Some(h) => if handle_ids.contains_key(h) {
            Seq::empty()
        } else {
            index::handle_changes(t, h)
        },
        None => Seq::empty(),
    }
}

/// The id of the sender of a message.
pub open spec fn sender_of(
    t: Tables,
    handle_ids: Map<Seq<char>, i64>,
    m: ExtractedMessage,
) -> Option<i64> {
    match sender_handle(m) {
        Some(h) => Some(
            if handle_ids.contains_key(h) {
                handle_ids[h]
            } else {
                index::handle_id_for(t, h) as i64
            },
        ),
        None => None,
    }
}

/// The ids of the chats seen, after a message.
pub open spec fn chats_seen(s: Progress, m: ExtractedMessage) -> Map<Seq<char>, i64> {
    match m.chat_guid {
        Some(g) => if s.chat_ids.contains_key(g@) {
            s.chat_ids
        } else {
            s.chat_ids.insert(g@, index::chat_id_for(s.t, g@) as i64)
        },
        None => s.chat_ids,
    }
}

/// The ids of the senders seen, after a message.
pub open spec fn senders_seen(
    t: Tables,
    handle_ids: Map<Seq<char>, i64>,
    m: ExtractedMessage,
) -> Map<Seq<char>, i64> {
    match sender_handle(m) {
        Some(h) => if handle_ids.contains_key(h) {
            handle_ids
        } else {
            handle_ids.insert(h, index::handle_id_for(t, h) as i64)
        },
        None => handle_ids,
    }
}

/// The changes that bring a message, its chat and its sender into the index.
pub open spec fn ingest_changes(s: Progress, m: ExtractedMessage) -> Seq<ChangeView> {
    let cs1 = chat_step(s, m);
    let t1 = tables::replayed(s.t, cs1);
    let cs2 = sender_step(t1, s.handle_ids, m);
    let t2 = tables::replayed(t1, cs2);
    let cs3 = index::message_changes(t2, m, chat_of(s, m), sender_of(t1, s.handle_ids, m));
    cs1 + cs2 + cs3
}

/// A sync after one more message.
pub open spec fn ingest(s: Progress, m: ExtractedMessage) -> Progress {
    let t1 = tables::replayed(s.t, chat_step(s, m));
    let t2 = tables::replayed(t1, sender_step(t1, s.handle_ids, m));
    let outcome = index::upsert_outcome(t2, m);
    Progress {
        t: tables::replayed(s.t, ingest_changes(s, m)),
        chat_ids: chats_seen(s, m),
        handle_ids: senders_seen(t1, s.handle_ids, m),
        dirty: match chat_of(s, m) {
            Some(id) => if outcome == Upsert::Unchanged {
                s.dirty
            } else {
                index::add_once(s.dirty, id)
            },
            None => s.dirty,
        },
        inserted: s.inserted + if outcome == Upsert::Inserted {
            1nat
        } else {
            0nat
        },
        updated: s.updated + if outcome == Upsert::Updated {
            1nat
        } else {
            0nat
        },
        unchanged: s.unchanged + if outcome == Upsert::Unchanged {
            1nat
        } else {
            0nat
        },
        watermark: index::larger(s.watermark, m.rowid as int),
    }
}

/// A sync after a list of messages, of which those up to the start of the
/// scan are passed over.
pub open spec fn ingested(s: Progress, msgs: Seq<ExtractedMessage>, start: int) -> Progress
    decreases msgs.len(),
{
    if msgs.len() == 0 {
        s
    } else {
        let before = ingested(s, msgs.drop_last(), start);
        if msgs.last().rowid > start {
            ingest(before, msgs.last())
        } else {
            before
        }
    }
}

/// The changes that a list of messages makes.
pub open spec fn all_ingest_changes(s: Progress, msgs: Seq<ExtractedMessage>, start: int) -> Seq<
    ChangeView,
>
    decreases msgs.len(),
{
    if msgs.len() == 0 {
        Seq::empty()
    } else {
        let before = all_ingest_changes(s, msgs.drop_last(), start);
        if msgs.last().rowid > start {
            before + ingest_changes(ingested(s, msgs.drop_last(), start), msgs.last())
        } else {
            before
        }
    }
}

/// The numbers of a list, each once.
pub open spec fn marked(ids: Seq<i64>) -> Seq<i64>
    decreases ids.len(),
{
    if ids.len() == 0 {
        Seq::empty()
    } else {
        index::add_once(marked(ids.drop_last()), ids.last())
    }
}

/// The chats that a run brings up to date whatever it reads: all of them when
/// the index has messages but no chunks, as an index has that was made before
/// there were chunks.
pub open spec fn first_dirty(t: Tables) -> Seq<i64> {
    if t.chunks.len() == 0 && t.messages.len() > 0 {
        marked(t.chats.map_values(|c: ChatView| c.id))
    } else {
        Seq::empty()
    }
}

/// A sync at its beginning.
pub open spec fn at_start(t: Tables) -> Progress {
    Progress {
        t,
        chat_ids: Map::empty(),
        handle_ids: Map::empty(),
        dirty: first_dirty(t),
        inserted: 0,
        updated: 0,
        unchanged: 0,
        watermark: index::watermark_of(t.watermark),
    }
}

/// The changes that give the handles their contact names.
pub open spec fn naming(t: Tables, names: Option<Map<Seq<char>, Seq<char>>>) -> Seq<ChangeView> {
    match names {
        Some(names) => index::name_changes(t.handles, names),
        None => Seq::empty(),
    }
}

/// The chats out of date once the names of some handles have changed.
pub open spec fn dirty_after_naming(
    dirty: Seq<i64>,
    t: Tables,
    names: Option<Map<Seq<char>, Seq<char>>>,
) -> Seq<i64> {
    match names {
        Some(names) => index::with_chats_of(
            dirty,
            t.messages,
            index::renamed_ids(t.handles, names),
        ),
        None => dirty,
    }
}

/// The changes that bring the chunks of a list of chats up to date.
pub open spec fn rechunking(t: Tables, ids: Seq<i64>, p: ChunkParams) -> Seq<ChangeView>
    decreases ids.len(),
{
    if ids.len() == 0 {
        Seq::empty()
    } else {
        let before = rechunking(t, ids.drop_last(), p);
        before + index::rechunk_changes(tables::replayed(t, before), ids.last(), p)
    }
}

/// The changes that a sync makes.
pub open spec fn sync_changes(
    t: Tables,
    source: Seq<ExtractedMessage>,
    overlap: u32,
    p: ChunkParams,
    names: Option<Map<Seq<char>, Seq<char>>>,
) -> Seq<ChangeView> {
    let start = start_of(index::watermark_of(t.watermark), overlap);
    let s = ingested(at_start(t), source, start);
    let t2 = tables::replayed(s.t, naming(s.t, names));
    let dirty = dirty_after_naming(s.dirty, s.t, names);
    all_ingest_changes(at_start(t), source, start) + naming(s.t, names) + rechunking(t2, dirty, p)
        + seq![ChangeView::SetWatermark(numeric::decimal_int(s.watermark))]
}

/// Whether a report says what a sync did that led to the tables `after`.
pub open spec fn is_sync_report(
    r: SyncReport,
    t: Tables,
    source: Seq<ExtractedMessage>,
    overlap: u32,
    names: Option<Map<Seq<char>, Seq<char>>>,
    after: Tables,
) -> bool {
    let start = start_of(index::watermark_of(t.watermark), overlap);
    let s = ingested(at_start(t), source, start);
    &&& r.inserted == s.inserted
    &&& r.updated == s.updated
    &&& r.unchanged == s.unchanged
    &&& r.scanned == s.inserted + s.updated + s.unchanged
    &&& r.watermark_before == index::watermark_of(t.watermark)
    &&& r.watermark_after == s.watermark
    &&& r.rechunked_chats == dirty_after_naming(s.dirty, s.t, names).len()
    &&& r.named_handles == index::named_count(after.handles)
    &&& r.total_messages == after.messages.len()
    &&& r.total_chats == after.chats.len()
    &&& r.total_handles == after.handles.len()
    &&& r.total_chunks == after.chunks.len()
}

/// Whether the index has ids left for a sync of `n` messages.
pub open spec fn room(t: Tables, n: nat) -> bool {
    &&& index::top_chat(t.chats) + n <= i64::MAX
    &&& index::top_handle(t.handles) + n <= i64::MAX
    &&& index::top_message(t.messages) + n <= i64::MAX
    &&& index::top_chunk(t.chunks) + (t.messages.len() + n) * (t.chats.len() + t.messages.len() + 2
        * n) <= i64::MAX
}

proof fn lemma_same_chat_ids(v: Seq<ChatView>, w: Seq<ChatView>)
    requires
        v.len() == w.len(),
        forall|i: int| 0 <= i < v.len() ==> (#[trigger] v[i]).id == w[i].id,
    ensures
        index::top_chat(v) == index::top_chat(w),
    decreases v.len(),
{
    if v.len() > 0 {
        let a = v.drop_last();
        let b = w.drop_last();
        assert forall|i: int| 0 <= i < a.len() implies (#[trigger] a[i]).id == b[i].id by {
            assert(a[i] == v[i] && b[i] == w[i]);
        }
        lemma_same_chat_ids(a, b);
        assert(v.last() == v[v.len() - 1] && w.last() == w[w.len() - 1]);
    }
}

proof fn lemma_same_message_ids(v: Seq<MessageView>, w: Seq<MessageView>)
    requires
        v.len() == w.len(),
        forall|i: int| 0 <= i < v.len() ==> (#[trigger] v[i]).id == w[i].id,
    ensures
        index::top_message(v) == index::top_message(w),
    decreases v.len(),
{
    if v.len() > 0 {
        let a = v.drop_last();
        let b = w.drop_last();
        assert forall|i: int| 0 <= i < a.len() implies (#[trigger] a[i]).id == b[i].id by {
            assert(a[i] == v[i] && b[i] == w[i]);
        }
        lemma_same_message_ids(a, b);
        assert(v.last() == v[v.len() - 1] && w.last() == w[w.len() - 1]);
    }
}

/// How far one state of the index may lie from another after a number of
/// messages.
spec fn within(a: Tables, b: Tables, n: nat) -> bool {
    &&& index::top_chat(b.chats) <= index::top_chat(a.chats) + n
    &&& index::top_handle(b.handles) <= index::top_handle(a.handles) + n
    &&& index::top_message(b.messages) <= index::top_message(a.messages) + n
    &&& b.messages.len() <= a.messages.len() + n
    &&& b.chunks == a.chunks
    &&& b.embeddings == a.embeddings
    &&& b.watermark == a.watermark
    &&& b.model == a.model
}

proof fn lemma_chat_step(s: Progress, m: ExtractedMessage)
    requires
        index::top_chat(s.t.chats) < i64::MAX,
    ensures
        ({
            let b = tables::replayed(s.t, chat_step(s, m));
            &&& index::top_chat(b.chats) <= index::top_chat(s.t.chats) + 1
            &&& b.handles == s.t.handles
            &&& b.messages == s.t.messages
            &&& within(s.t, b, 1)
        }),
{
    tables::lemma_replay_one(s.t, ChangeView::Reset);
    match m.chat_guid {
        Some(g) => {
            if !s.chat_ids.contains_key(g@) {
                let name = text::opt_view(m.chat_display_name);
                let cs = index::chat_changes(s.t, g@, m.group(), name);
                tables::lemma_replay_one(s.t, cs[0]);
                assert(cs =~= seq![cs[0]]);
                lists::lemma_first_index(s.t.chats, index::chat_has_guid(g@));
                let b = tables::after(s.t, cs[0]);
                match lists::first_index(s.t.chats, index::chat_has_guid(g@)) {
                    Some(i) => {
                        lemma_same_chat_ids(s.t.chats, b.chats);
                    },
                    None => {
                        assert(b.chats.drop_last() =~= s.t.chats);
                    },
                }
            }
        },
        None => {},
    }
}

proof fn lemma_sender_step(t: Tables, handle_ids: Map<Seq<char>, i64>, m: ExtractedMessage)
    requires
        index::top_handle(t.handles) < i64::MAX,
    ensures
        ({
            let b = tables::replayed(t, sender_step(t, handle_ids, m));
            &&& b.chats == t.chats
            &&& b.messages == t.messages
            &&& within(t, b, 1)
        }),
{
    tables::lemma_replay_one(t, ChangeView::Reset);
    match sender_handle(m) {
        Some(h) => {
            if !handle_ids.contains_key(h) {
                let cs = index::handle_changes(t, h);
                if cs.len() > 0 {
                    tables::lemma_replay_one(t, cs[0]);
                    assert(cs =~= seq![cs[0]]);
                    let b = tables::after(t, cs[0]);
                    assert(b.handles.drop_last() =~= t.handles);
                } else {
                    assert(cs =~= Seq::<ChangeView>::empty());
                }
            }
        },
        None => {},
    }
}

proof fn lemma_message_step(
    t: Tables,
    m: ExtractedMessage,
    chat_id: Option<i64>,
    sender_id: Option<i64>,
)
    requires
        index::top_message(t.messages) < i64::MAX,
    ensures
        ({
            let b = tables::replayed(t, index::message_changes(t, m, chat_id, sender_id));
            &&& b.chats == t.chats
            &&& b.handles == t.handles
            &&& within(t, b, 1)
        }),
{
    tables::lemma_replay_one(t, ChangeView::Reset);
    let cs = index::message_changes(t, m, chat_id, sender_id);
    lists::lemma_first_index(t.messages, index::message_has_guid(m.guid@));
    if cs.len() > 0 {
        tables::lemma_replay_one(t, cs[0]);
        assert(cs =~= seq![cs[0]]);
        let b = tables::after(t, cs[0]);
        match lists::first_index(t.messages, index::message_has_guid(m.guid@)) {
            Some(i) => {
                lemma_same_message_ids(t.messages, b.messages);
            },
            None => {
                assert(b.messages.drop_last() =~= t.messages);
            },
        }
    } else {
        assert(cs =~= Seq::<ChangeView>::empty());
    }
}

proof fn lemma_ingest(s: Progress, m: ExtractedMessage)
    requires
        index::top_chat(s.t.chats) < i64::MAX,
        index::top_handle(s.t.handles) < i64::MAX,
        index::top_message(s.t.messages) < i64::MAX,
    ensures
        within(s.t, ingest(s, m).t, 1),
        ({
            let t1 = tables::replayed(s.t, chat_step(s, m));
            let t2 = tables::replayed(t1, sender_step(t1, s.handle_ids, m));
            &&& index::top_handle(t1.handles) < i64::MAX
            &&& index::top_message(t2.messages) < i64::MAX
            &&& ingest(s, m).t == tables::replayed(
                t2,
                index::message_changes(t2, m, chat_of(s, m), sender_of(t1, s.handle_ids, m)),
            )
        }),
        ingest(s, m).dirty.len() <= s.dirty.len() + 1,
{
    let cs1 = chat_step(s, m);
    let t1 = tables::replayed(s.t, cs1);
    let cs2 = sender_step(t1, s.handle_ids, m);
    let t2 = tables::replayed(t1, cs2);
    let cs3 = index::message_changes(t2, m, chat_of(s, m), sender_of(t1, s.handle_ids, m));
    lemma_chat_step(s, m);
    lemma_sender_step(t1, s.handle_ids, m);
    lemma_message_step(t2, m, chat_of(s, m), sender_of(t1, s.handle_ids, m));
    tables::lemma_replay_concat(s.t, cs1, cs2);
    tables::lemma_replay_concat(s.t, cs1 + cs2, cs3);
}

/// What a run keeps besides the index.
struct Run {
    chat_ids: StringHashMap<i64>,
    handle_ids: StringHashMap<i64>,
    dirty: Vec<i64>,
    inserted: u64,
    updated: u64,
    unchanged: u64,
    watermark: i64,
}

spec fn progress_of(run: Run, t: Tables) -> Progress {
    Progress {
        t,
        chat_ids: run.chat_ids@,
        handle_ids: run.handle_ids@,
        dirty: run.dirty@,
        inserted: run.inserted as nat,
        updated: run.updated as nat,
        unchanged: run.unchanged as nat,
        watermark: run.watermark as int,
    }
}

fn ingest_message(index: &mut IndexDb, run: &mut Run, m: &ExtractedMessage)
    requires
        old(index).wf(),
        index::top_chat(old(index)@.chats) < i64::MAX,
        index::top_handle(old(index)@.handles) < i64::MAX,
        index::top_message(old(index)@.messages) < i64::MAX,
        old(run).inserted < u64::MAX,
        old(run).updated < u64::MAX,
        old(run).unchanged < u64::MAX,
    ensures
        index::changed_by(
            *old(index),
            *final(index),
            ingest_changes(progress_of(*old(run), old(index)@), *m),
        ),
        progress_of(*final(run), final(index)@) == ingest(
            progress_of(*old(run), old(index)@),
            *m,
        ),
{
    let ghost i0 = *index;
    let ghost s = progress_of(*run, index@);
    let ghost cs1 = chat_step(s, *m);
    let ghost t1 = tables::replayed(s.t, cs1);
    let ghost cs2 = sender_step(t1, s.handle_ids, *m);
    let ghost t2 = tables::replayed(t1, cs2);
    let ghost cs3 = index::message_changes(t2, *m, chat_of(s, *m), sender_of(t1, s.handle_ids, *m));
    proof {
        lemma_ingest(s, *m);
        tables::lemma_replay_one(s.t, ChangeView::Reset);
        tables::lemma_replay_one(t1, ChangeView::Reset);
        assert(i0.journal_view() + Seq::<ChangeView>::empty() =~= i0.journal_view());
    }
    let chat_id: Option<i64> = match &m.chat_guid {
        Some(guid) => {
            match run.chat_ids.get(guid.as_str()) {
                Some(id) => Some(*id),
                None => {
                    let id = index.upsert_chat(
                        guid.as_str(),
                        m.is_group_chat(),
                        clone_opt(&m.chat_display_name),
                    );
                    run.chat_ids.insert(guid.clone(), id);
                    Some(id)
                },
            }
        },
        None => None,
    };
    let ghost i1 = *index;
    assert(index::changed_by(i0, i1, cs1));
    assert(i1.journal_view() + Seq::<ChangeView>::empty() =~= i1.journal_view());
    let mut sender_id: Option<i64> = None;
    if !m.is_from_me {
        match &m.sender_handle {
            Some(h) => {
                match run.handle_ids.get(h.as_str()) {
                    Some(id) => {
                        sender_id = Some(*id);
                    },
                    None => {
                        let id = index.upsert_handle(h.as_str());
                        run.handle_ids.insert(h.clone(), id);
                        sender_id = Some(id);
                    },
                }
            },
            None => {},
        }
    }
    let ghost i2 = *index;
    assert(index::changed_by(i1, i2, cs2));
    let outcome = index.upsert_message(m, chat_id, sender_id);
    proof {
        index::lemma_changed_in_turn(i0, i1, i2, cs1, cs2);
        index::lemma_changed_in_turn(i0, i2, *index, cs1 + cs2, cs3);
    }
    match outcome {
        Upsert::Inserted => {
            run.inserted = run.inserted + 1;
        },
        Upsert::Updated => {
            run.updated = run.updated + 1;
        },
        Upsert::Unchanged => {
            run.unchanged = run.unchanged + 1;
        },
    }
    if outcome != Upsert::Unchanged {
        match chat_id {
            Some(id) => {
                mark(&mut run.dirty, id);
            },
            None => {},
        }
    }
    if run.watermark < m.rowid {
        run.watermark = m.rowid;
    }
}

/// One more of `d` shares of `a` still fits.
pub proof fn lemma_room_product(a: int, k: int, d: int)
    by (nonlinear_arith)
    requires
        0 <= a,
        0 <= k < d,
    ensures
        (k + 1) * a <= d * a,
        (k + 1) * a == k * a + a,
{
}

/// Marking never marks more than it is given.
pub proof fn lemma_marked_len(ids: Seq<i64>)
    ensures
        marked(ids).len() <= ids.len(),
    decreases ids.len(),
{
    if ids.len() > 0 {
        lemma_marked_len(ids.drop_last());
    }
}

/// Each message marks one chat at most.
pub proof fn lemma_chats_of_len(s: Seq<i64>, messages: Seq<MessageView>, senders: Seq<i64>)
    ensures
        index::with_chats_of(s, messages, senders).len() <= s.len() + messages.len(),
    decreases messages.len(),
{
    if messages.len() > 0 {
        lemma_chats_of_len(s, messages.drop_last(), senders);
    }
}

/// Marks every chat when the index has messages but no chunks.
fn mark_first(index: &IndexDb) -> (r: Vec<i64>)
    ensures
        r@ == first_dirty(index@),
        r@.len() <= index@.chats.len(),
{
    let mut dirty: Vec<i64> = Vec::new();
    if index.chunk_count() == 0 && index.message_count() > 0 {
        let ids = index.all_chat_ids();
        let mut i: usize = 0;
        while i < ids.len()
            invariant
                i <= ids@.len(),
                dirty@ == marked(ids@.take(i as int)),
            decreases ids@.len() - i,
        {
            proof {
                assert(ids@.take(i + 1).drop_last() =~= ids@.take(i as int));
            }
            mark(&mut dirty, ids[i]);
            i = i + 1;
        }
        proof {
            assert(ids@.take(i as int) =~= ids@);
            lemma_marked_len(ids@);
        }
    }
    dirty
}

/// The book's names, if there is a book.
pub open spec fn names_of(contacts: Option<&ContactBook>) -> Option<Map<Seq<char>, Seq<char>>> {
    match contacts {
        Some(book) => Some(book@),
        None => None,
    }
}

/// Runs one sync pass over the messages of the source: upserts those past the
/// start of the scan, gives the handles their contact names, and rebuilds the
/// chunks of every chat that this touched. Nothing is read while the index
/// changes, so that a source that cannot be read leaves the index as it was.
pub fn sync(
    source: &[ExtractedMessage],
    index: &mut IndexDb,
    overlap: u32,
    chunking: &ChunkParams,
    contacts: Option<&ContactBook>,
    index_path: &str,
) -> (r: SyncReport)
    requires
        old(index).wf(),
        room(old(index)@, source@.len()),
    ensures
        index::changed_by(
            *old(index),
            *final(index),
            sync_changes(old(index)@, source@, overlap, *chunking, names_of(contacts)),
        ),
        is_sync_report(r, old(index)@, source@, overlap, names_of(contacts), final(index)@),
        r.index_path@ == index_path@,
        tables::keyed(old(index)@) ==> tables::keyed(final(index)@),
{
    let ghost i0 = *index;
    let ghost t = index@;
    let ghost n = source@.len();
    let ghost cap = (t.messages.len() + n) as int;
    let ghost most = (t.chats.len() + t.messages.len() + 2 * n) as int;
    let watermark_before: i64 = index.watermark();
    let start: i64 = scan_start(watermark_before, overlap);
    let mut run = Run {
        chat_ids: StringHashMap::new(),
        handle_ids: StringHashMap::new(),
        dirty: mark_first(index),
        inserted: 0,
        updated: 0,
        unchanged: 0,
        watermark: watermark_before,
    };
    let ghost s0 = at_start(t);
    let mut i: usize = 0;
    let ghost mut cs = all_ingest_changes(s0, source@.take(0), start as int);
    proof {
        assert(progress_of(run, index@) == s0);
        assert(source@.take(0) =~= Seq::<ExtractedMessage>::empty());
        tables::lemma_replay_one(t, ChangeView::Reset);
        assert(i0.journal_view() + Seq::<ChangeView>::empty() =~= i0.journal_view());
    }
    while i < source.len()
        invariant
            i <= source@.len(),
            n == source@.len(),
            room(t, n),
            t == i0@,
            s0 == at_start(t),
            cs == all_ingest_changes(s0, source@.take(i as int), start as int),
            index::changed_by(i0, *index, cs),
            progress_of(run, index@) == ingested(s0, source@.take(i as int), start as int),
            within(t, index@, i as nat),
            run.inserted + run.updated + run.unchanged <= i,
            run.dirty@.len() <= t.chats.len() + i,
        decreases source@.len() - i,
    {
        let ghost before = *index;
        let ghost s = progress_of(run, index@);
        proof {
            assert(source@.take(i + 1).drop_last() =~= source@.take(i as int));
            assert(source@.take(i + 1).last() == source@[i as int]);
        }
        if source[i].rowid > start {
            proof {
                lemma_ingest(s, source@[i as int]);
            }
            ingest_message(index, &mut run, &source[i]);
            proof {
                let more = ingest_changes(s, source@[i as int]);
                index::lemma_changed_in_turn(i0, before, *index, cs, more);
                cs = cs + more;
            }
        }
        i = i + 1;
    }
    proof {
        assert(source@.take(i as int) =~= source@);
    }
    let ghost s = ingested(s0, source@, start as int);
    let ghost i1 = *index;
    let ghost names = names_of(contacts);
    proof {
        tables::lemma_replay_one(i1@, ChangeView::Reset);
        assert(i1.journal_view() + Seq::<ChangeView>::empty() =~= i1.journal_view());
    }
    match contacts {
        Some(book) => {
            let renamed = index.apply_names(book);
            proof {
                lemma_chats_of_len(run.dirty@, index@.messages, renamed@);
            }
            index.mark_chats_of(&renamed, &mut run.dirty);
        },
        None => {},
    }
    let ghost i2 = *index;
    let ghost t2 = i2@;
    let ghost dirty = run.dirty@;
    proof {
        assert(index::changed_by(i1, i2, naming(s.t, names)));
        assert(dirty == dirty_after_naming(s.dirty, s.t, names));
        index::lemma_changed_in_turn(i0, i1, i2, cs, naming(s.t, names));
        assert(dirty.len() <= most);
        assert(t2.messages.len() <= cap);
        tables::lemma_replay_one(t2, ChangeView::Reset);
        assert(i2.journal_view() + Seq::<ChangeView>::empty() =~= i2.journal_view());
    }
    let mut k: usize = 0;
    let ghost mut rs = rechunking(t2, dirty.take(0), *chunking);
    proof {
        assert(dirty.take(0) =~= Seq::<i64>::empty());
        recut::lemma_scan_bounds(s0, source@, start as int);
        laws::lemma_naming(s.t, names);
    }
    while k < run.dirty.len()
        invariant
            k <= run.dirty@.len(),
            run.dirty@ == dirty,
            dirty.len() <= most,
            t2 == i2@,
            t2.messages.len() <= cap,
            cap >= 0,
            index::top_chunk(t2.chunks) + most * cap <= i64::MAX,
            rs == rechunking(t2, dirty.take(k as int), *chunking),
            index::changed_by(i2, *index, rs),
            index::same_but_chunks(t2, index@),
            index::top_chunk(index@.chunks) <= index::top_chunk(t2.chunks) + k * cap,
            tables::keyed(t) ==> tables::keyed(index@),
        decreases run.dirty@.len() - k,
    {
        let ghost before = *index;
        proof {
            assert(dirty.take(k + 1).drop_last() =~= dirty.take(k as int));
            lemma_room_product(cap, k as int, most);
        }
        let _ = index.rechunk_chat(run.dirty[k], chunking);
        proof {
            let more = index::rechunk_changes(before@, dirty[k as int], *chunking);
            index::lemma_changed_in_turn(i2, before, *index, rs, more);
            rs = rs + more;
        }
        k = k + 1;
    }
    let ghost i3 = *index;
    index.set_watermark(run.watermark);
    proof {
        assert(dirty.take(k as int) =~= dirty);
        let last = seq![ChangeView::SetWatermark(numeric::decimal_int(s.watermark))];
        index::lemma_changed_in_turn(i0, i2, i3, cs + naming(s.t, names), rs);
        index::lemma_changed_in_turn(i0, i3, *index, cs + naming(s.t, names) + rs, last);
        tables::lemma_replay_one(i3@, last[0]);
    }
    SyncReport {
        index_path: index_path.to_owned(),
        scanned: run.inserted + run.updated + run.unchanged,
        inserted: run.inserted,
        updated: run.updated,
        unchanged: run.unchanged,
        watermark_before,
        watermark_after: run.watermark,
        rechunked_chats: run.dirty.len() as u64,
        named_handles: index.named_handles(),
        total_messages: index.message_count(),
        total_chats: index.chat_count(),
        total_handles: index.handle_count(),
        total_chunks: index.chunk_count(),
    }
}

proof fn lemma_quotient(a: int, b: int, q: int)
    by (nonlinear_arith)
    requires
        a > 0,
        q >= 0,
    ensures
        b <= q / a <==> a * b <= q,
{
}

/// Whether the index has ids left for a sync of `n` messages.
pub fn has_room(index: &IndexDb, n: usize) -> (r: bool)
    requires
        index.wf(),
    ensures
        r == room(index@, n as nat),
{
    let tops = index.top_ids();
    let most: i128 = i64::MAX as i128;
    let more: i128 = n as i128;
    if tops.0 as i128 + more > most || tops.1 as i128 + more > most || tops.2 as i128 + more > most {
        return false;
    }
    let a: i128 = index.message_count() as i128 + more;
    let b: i128 = index.chat_count() as i128 + index.message_count() as i128 + 2 * more;
    let q: i128 = most - tops.3 as i128;
    if a == 0 {
        assert(a * b == 0) by (nonlinear_arith)
            requires
                a == 0,
        ;
        return true;
    }
    proof {
        lemma_quotient(a as int, b as int, q as int);
    }
    b <= q / a
}

impl SyncReport {
    /// The report in words.
    pub open spec fn words(self) -> Seq<char> {
        "Index database: "@ + self.index_path@ + "\n\nThis run\n  Scanned:   "@ + numeric::decimal(
            self.scanned as nat,
        ) + (if self.watermark_before > 0 {
            " (incremental)"@
        } else {
            " (initial full sync)"@
        }) + "\n  Inserted:  "@ + numeric::decimal(self.inserted as nat) + "\n  Updated:   "@
            + numeric::decimal(self.updated as nat) + "\n  Unchanged: "@ + numeric::decimal(
            self.unchanged as nat,
        ) + "\n  Rechunked: "@ + numeric::decimal(self.rechunked_chats as nat)
            + " chats\n\nIndex totals\n  Messages:  "@ + numeric::decimal(
            self.total_messages as nat,
        ) + "\n  Chats:     "@ + numeric::decimal(self.total_chats as nat) + "\n  Handles:   "@
            + numeric::decimal(self.total_handles as nat) + "\n  Chunks:    "@ + numeric::decimal(
            self.total_chunks as nat,
        ) + "\n  Watermark: source ROWID "@ + numeric::decimal_int(self.watermark_after as int)
    }

    /// The report as it is printed.
    pub fn render(&self) -> (r: String)
        ensures
            r@ == self.words(),
    {
        let mut s = "Index database: ".to_owned();
        s.append(self.index_path.as_str());
        s.append("\n\nThis run\n  Scanned:   ");
        s.append(decimal_u64(self.scanned).as_str());
        if self.watermark_before > 0 {
            s.append(" (incremental)");
        } else {
            s.append(" (initial full sync)");
        }
        s.append("\n  Inserted:  ");
        s.append(decimal_u64(self.inserted).as_str());
        s.append("\n  Updated:   ");
        s.append(decimal_u64(self.updated).as_str());
        s.append("\n  Unchanged: ");
        s.append(decimal_u64(self.unchanged).as_str());
        s.append("\n  Rechunked: ");
        s.append(decimal_u64(self.rechunked_chats).as_str());
        s.append(" chats\n\nIndex totals\n  Messages:  ");
        s.append(decimal_u64(self.total_messages).as_str());
        s.append("\n  Chats:     ");
        s.append(decimal_u64(self.total_chats).as_str());
        s.append("\n  Handles:   ");
        s.append(decimal_u64(self.total_handles).as_str());
        s.append("\n  Chunks:    ");
        s.append(decimal_u64(self.total_chunks).as_str());
        s.append("\n  Watermark: source ROWID ");
        s.append(decimal_i64(self.watermark_after).as_str());
        s
    }
}

/// What the embedding stage did.
#[derive(Debug, Default, PartialEq, Eq, Clone)]
pub struct EmbedReport {
    pub model: String,
    pub embedded: u64,
    pub pruned: u64,
    pub total: u64,
}

impl EmbedReport {
    /// The report in words.
    pub open spec fn words(self) -> Seq<char> {
        "Embeddings ("@ + self.model@ + ")\n  Added:  "@ + numeric::decimal(self.embedded as nat) + (
        if self.pruned > 0 {
            "\n  Pruned: "@ + numeric::decimal(self.pruned as nat)
        } else {
            Seq::empty()
        }) + "\n  Total:  "@ + numeric::decimal(self.total as nat)
    }

    /// The report as it is printed.
    pub fn render(&self) -> (r: String)
        ensures
            r@ == self.words(),
    {
        let mut s = "Embeddings (".to_owned();
        s.append(self.model.as_str());
        s.append(")\n  Added:  ");
        s.append(decimal_u64(self.embedded).as_str());
        let mut pruned = String::new();
        if self.pruned > 0 {
            pruned = "\n  Pruned: ".to_owned();
            pruned.append(decimal_u64(self.pruned).as_str());
        }
        s.append(pruned.as_str());
        s.append("\n  Total:  ");
        s.append(decimal_u64(self.total).as_str());
        s
    }
}

/// How many chunks are embedded and stored at a time: enough to amortize the
/// overhead of a call, few enough that each is stored promptly and an
/// interruption loses little.
pub const STORE_BATCH: usize = 256;

/// An embedding stage in progress. It starts by dropping what is out of date,
/// then hands out batches of texts and takes in their vectors, so that an
/// interrupted run resumes where it left off.
pub struct EmbedRun {
    model: String,
    todo: Vec<(String, String)>,
    done: usize,
    pruned: u64,
}

/// Where the batch ends that begins at `done`.
pub open spec fn batch_end(done: int, todo: int) -> int {
    if todo - done > STORE_BATCH {
        done + STORE_BATCH
    } else {
        todo
    }
}

/// Vectors with the content hashes they belong to, as far as both go.
pub open spec fn paired(hashes: Seq<(Seq<char>, Seq<char>)>, vectors: Seq<Seq<u8>>) -> Seq<
    (Seq<char>, Seq<u8>),
> {
    Seq::new(
        if hashes.len() < vectors.len() {
            hashes.len()
        } else {
            vectors.len()
        },
        |i: int| (hashes[i].0, vectors[i]),
    )
}

/// The vectors of a list.
pub open spec fn vector_views(vectors: Seq<Vec<u8>>) -> Seq<Seq<u8>> {
    vectors.map_values(|v: Vec<u8>| v@)
}

impl EmbedRun {
    /// The model the run embeds with.
    pub closed spec fn model_view(self) -> Seq<char> {
        self.model@
    }

    /// What there is to embed, as content hash and text.
    pub closed spec fn todo_view(self) -> Seq<(Seq<char>, Seq<char>)> {
        index::pair_views(self.todo@)
    }

    /// How many of them are embedded.
    pub closed spec fn done_view(self) -> nat {
        self.done as nat
    }

    /// How many stale vectors were dropped.
    pub closed spec fn pruned_view(self) -> nat {
        self.pruned as nat
    }

    /// Whether the run is well formed.
    pub open spec fn wf(self) -> bool {
        self.done_view() <= self.todo_view().len()
    }

    /// Starts the embedding stage with a model: drops the vectors of another
    /// model and those without a chunk, and finds the chunks without a vector.
    pub fn begin(index: &mut IndexDb, model: &str) -> (r: EmbedRun)
        requires
            old(index).wf(),
        ensures
            r.wf(),
            r.model_view() == model@,
            r.done_view() == 0,
            ({
                let cs1 = index::model_changes(old(index)@, model@);
                let t1 = tables::replayed(old(index)@, cs1);
                &&& index::changed_by(*old(index), *final(index), cs1 + index::prune_changes(t1))
                &&& r.pruned_view() == index::orphans(t1.embeddings, t1.chunks).len()
                &&& r.todo_view() == index::missing(final(index)@.chunks, final(index)@.embeddings)
            }),
            tables::keyed(old(index)@) ==> tables::keyed(final(index)@),
    {
        let ghost i0 = *index;
        let _ = index.ensure_embedding_model(model);
        let ghost i1 = *index;
        let pruned = index.prune_orphan_embeddings();
        proof {
            index::lemma_changed_in_turn(
                i0,
                i1,
                *index,
                index::model_changes(i0@, model@),
                index::prune_changes(i1@),
            );
        }
        let todo = index.missing_embeddings();
        EmbedRun { model: model.to_owned(), todo, done: 0, pruned }
    }

    /// How many chunks are embedded, and how many there were to embed.
    pub fn progress(&self) -> (r: (u64, u64))
        ensures
            r.0 == self.done_view(),
            r.1 == self.todo_view().len(),
    {
        (self.done as u64, self.todo.len() as u64)
    }

    /// The texts to embed next; none when all are embedded.
    pub fn next_batch(&self) -> (r: Vec<String>)
        requires
            self.wf(),
        ensures
            text::views(r@) == self.todo_view().subrange(
                self.done_view() as int,
                batch_end(self.done_view() as int, self.todo_view().len() as int),
            ).map_values(|p: (Seq<char>, Seq<char>)| p.1),
    {
        let ghost todo = self.todo_view();
        let end: usize = if self.todo.len() - self.done > STORE_BATCH {
            self.done + STORE_BATCH
        } else {
            self.todo.len()
        };
        let mut r: Vec<String> = Vec::new();
        let mut i: usize = self.done;
        while i < end
            invariant
                self.done <= i <= end <= self.todo@.len(),
                todo == self.todo_view(),
                r@.len() == i - self.done,
                forall|j: int| 0 <= j < r@.len() ==> (#[trigger] r@[j])@ == todo[self.done + j].1,
            decreases end - i,
        {
            r.push(self.todo[i].1.clone());
            proof {
                assert(todo[i as int] == (self.todo@[i as int].0@, self.todo@[i as int].1@));
            }
            i = i + 1;
        }
        proof {
            let want = todo.subrange(self.done as int, end as int).map_values(
                |p: (Seq<char>, Seq<char>)| p.1,
            );
            assert(text::views(r@) =~= want);
        }
        r
    }

    /// Stores the vectors of the batch handed out last.
    pub fn store(&mut self, index: &mut IndexDb, vectors: &Vec<Vec<u8>>)
        requires
            old(self).wf(),
            old(index).wf(),
        ensures
            final(self).wf(),
            final(self).todo_view() == old(self).todo_view(),
            final(self).model_view() == old(self).model_view(),
            final(self).pruned_view() == old(self).pruned_view(),
            final(self).done_view() == batch_end(
                old(self).done_view() as int,
                old(self).todo_view().len() as int,
            ),
            index::changed_by(
                *old(index),
                *final(index),
                index::store_changes(
                    old(index)@,
                    old(self).model_view(),
                    paired(
                        old(self).todo_view().subrange(
                            old(self).done_view() as int,
                            final(self).done_view() as int,
                        ),
                        vector_views(vectors@),
                    ),
                ),
            ),
            tables::keyed(old(index)@) ==> tables::keyed(final(index)@),
    {
        let ghost todo = self.todo_view();
        let end: usize = if self.todo.len() - self.done > STORE_BATCH {
            self.done + STORE_BATCH
        } else {
            self.todo.len()
        };
        let ghost batch = todo.subrange(self.done as int, end as int);
        let ghost want = paired(batch, vector_views(vectors@));
        let mut items: Vec<(String, Vec<u8>)> = Vec::new();
        let mut i: usize = self.done;
        while i < end && i - self.done < vectors.len()
            invariant
                self.done <= i <= end <= self.todo@.len(),
                i - self.done <= vectors@.len(),
                todo == self.todo_view(),
                batch == todo.subrange(self.done as int, end as int),
                want == paired(batch, vector_views(vectors@)),
                items@.len() == i - self.done,
                forall|j: int|
                    0 <= j < items@.len() ==> (items@[j].0@, (#[trigger] items@[j]).1@) == want[j],
            decreases end - i,
        {
            let k: usize = i - self.done;
            let item = (self.todo[i].0.clone(), tables::copy_bytes(&vectors[k]));
            proof {
                assert(todo[i as int] == (self.todo@[i as int].0@, self.todo@[i as int].1@));
                assert(batch[k as int] == todo[i as int]);
                assert(vector_views(vectors@)[k as int] == vectors@[k as int]@);
                assert(want[k as int] == (item.0@, item.1@));
            }
            items.push(item);
            i = i + 1;
        }
        proof {
            assert(index::item_views(items@) =~= want);
        }
        index.store_embeddings(self.model.as_str(), &items);
        self.done = end;
        assert(self.todo_view() =~= todo);
    }

    /// The report of a run.
    pub fn finish(&self, index: &IndexDb) -> (r: EmbedReport)
        ensures
            r.model@ == self.model_view(),
            r.embedded == self.done_view(),
            r.pruned == self.pruned_view(),
            r.total == index@.embeddings.len(),
    {
        EmbedReport {
            model: self.model.clone(),
            embedded: self.done as u64,
            pruned: self.pruned,
            total: index.embedding_count(),
        }
    }
}

/// A run rescans exactly the rows that lie within the overlap of the watermark,
/// or behind it: a row is read if and only if its ROWID is above
/// `watermark - overlap` (and above zero, as every ROWID is).
pub proof fn law_scan_reaches_back_by_the_overlap(watermark: int, overlap: u32, rowid: int)
    ensures
        rowid > start_of(watermark, overlap) <==> rowid > 0 && rowid > watermark - overlap,
{
}

} // verus!
