//! What a sync takes in: which rows of the source it reads, what becomes of
//! each in the index, and what it leaves alone.
use crate::chunk;
use crate::chunk::ChunkParams;
use crate::contacts;
use crate::etl;
use crate::etl::{Progress, SyncReport};
use crate::index;
use crate::laws;
use crate::lists;
use crate::model::ExtractedMessage;
use crate::numeric;
use crate::recut;
use crate::resync;
use crate::tables;
use crate::tables::{ChatView, ChunkRowView, HandleView, MessageView, Tables};
use crate::time;
use crate::time::UtcTime;
use vstd::prelude::*;

verus! {

/// Whether a time in milliseconds is that of an instant, rounded down; there is
/// none where there is no instant.
pub open spec fn is_time_of(ms: Option<i64>, t: Option<UtcTime>) -> bool {
    match t {
        Some(t) => ms is Some && (time::in_range(t.secs(), t.nanos()) ==> ms->0 as int == (t.secs()
            * 1_000_000_000 + t.nanos()) / 1_000_000),
        None => ms is None,
    }
}

proof fn lemma_time_of(t: Option<UtcTime>)
    ensures
        is_time_of(index::millis_of(t), t),
{
    match t {
        Some(t) => {
            let s = t.secs() as int;
            let n = t.nanos() as int;
            assert((s * 1_000_000_000 + n) / 1_000_000 == s * 1000 + n / 1_000_000);
        },
        None => {},
    }
}

proof fn lemma_times_of(m: ExtractedMessage)
    ensures
        is_time_of(index::millis_of(m.sent_at), m.sent_at),
        is_time_of(index::millis_of(m.edited_at), m.edited_at),
        is_time_of(index::millis_of(m.retracted_at), m.retracted_at),
{
    lemma_time_of(m.sent_at);
    lemma_time_of(m.edited_at);
    lemma_time_of(m.retracted_at);
}

/// Whether a text is that of an optional string.
pub open spec fn is_text_of(v: Option<Seq<char>>, s: Option<String>) -> bool {
    match s {
        Some(s) => v == Some(s@),
        None => v is None,
    }
}

/// Whether a row holds what changes with a message: its row in the source, its
/// text, none where it was retracted, and its times.
pub open spec fn follows(row: MessageView, m: ExtractedMessage) -> bool {
    &&& row.guid == m.guid@
    &&& row.source_rowid == m.rowid
    &&& is_text_of(row.text, m.text)
    &&& is_time_of(row.sent_at_ms, m.sent_at)
    &&& is_time_of(row.edited_at_ms, m.edited_at)
    &&& is_time_of(row.retracted_at_ms, m.retracted_at)
    &&& row.content_hash == index::hash_of(m)
}

/// Whether a row holds all that is kept of a message.
pub open spec fn holds_all(row: MessageView, m: ExtractedMessage) -> bool {
    &&& follows(row, m)
    &&& row.is_from_me == m.is_from_me
    &&& is_text_of(row.service, m.service)
    &&& is_text_of(row.reply_to_guid, m.reply_to_guid)
    &&& row.is_tapback == m.is_tapback
    &&& row.associated_type == m.associated_type
    &&& row.is_system_event == m.is_system_event
}

/// Whether a row is in the chat of a message and from its sender: it names the
/// chat with the message's chat guid, and the handle that the message gives,
/// and neither where the message has none. The user's own has no sender.
pub open spec fn is_placed(t: Tables, row: MessageView, m: ExtractedMessage) -> bool {
    &&& match m.chat_guid {
        Some(g) => row.chat_id is Some && exists|i: int|
            0 <= i < t.chats.len() && (#[trigger] t.chats[i]).guid == g@ && t.chats[i].id
                == row.chat_id->0,
        None => row.chat_id is None,
    }
    &&& if m.is_from_me || m.sender_handle is None {
        row.sender_id is None
    } else {
        row.sender_id is Some && exists|i: int|
            0 <= i < t.handles.len() && (#[trigger] t.handles[i]).handle == m.sender_handle->0@
                && t.handles[i].id == row.sender_id->0
    }
}

/// Whether no row of a list has a guid.
pub open spec fn lacks(rows: Seq<MessageView>, guid: Seq<char>) -> bool {
    forall|i: int| 0 <= i < rows.len() ==> (#[trigger] rows[i]).guid != guid
}

/// What a message does to the messages of the index.
proof fn lemma_messages(s: Progress, m: ExtractedMessage)
    ensures
        ({
            let a = s.t.messages;
            let b = etl::ingest(s, m).t.messages;
            let t2 = laws::before_message(s, m);
            let chat = etl::chat_of(s, m);
            let sender = etl::sender_of(
                tables::replayed(s.t, etl::chat_step(s, m)),
                s.handle_ids,
                m,
            );
            match lists::first_index(a, index::message_has_guid(m.guid@)) {
                None => b == a.push(index::new_message(t2, m, chat, sender)),
                Some(i) => 0 <= i < a.len() && b == if a[i].content_hash == index::hash_of(m) {
                    a
                } else {
                    a.update(i, index::refreshed_message(a[i], m, chat, sender))
                },
            }
        }),
{
    laws::lemma_before_message(s, m);
    let t2 = laws::before_message(s, m);
    let t1 = tables::replayed(s.t, etl::chat_step(s, m));
    let cs = index::message_changes(
        t2,
        m,
        etl::chat_of(s, m),
        etl::sender_of(t1, s.handle_ids, m),
    );
    resync::lemma_one_or_none(t2, cs);
    lists::lemma_first_index(s.t.messages, index::message_has_guid(m.guid@));
}

/// What a message does to the chats and the handles of the index: at most it
/// adds one, and it changes no guid, no handle and no id.
proof fn lemma_others(s: Progress, m: ExtractedMessage)
    ensures
        ({
            let a = s.t;
            let b = etl::ingest(s, m).t;
            &&& a.chats.len() <= b.chats.len()
            &&& forall|i: int|
                0 <= i < a.chats.len() ==> (#[trigger] b.chats[i]).guid == a.chats[i].guid
                    && b.chats[i].id == a.chats[i].id
            &&& a.handles.len() <= b.handles.len()
            &&& forall|i: int|
                0 <= i < a.handles.len() ==> (#[trigger] b.handles[i]) == a.handles[i]
        }),
{
    resync::lemma_ingest_tables(s, m);
    let t1 = tables::replayed(s.t, etl::chat_step(s, m));
    resync::lemma_one_or_none(s.t, etl::chat_step(s, m));
    resync::lemma_one_or_none(t1, etl::sender_step(t1, s.handle_ids, m));
    match m.chat_guid {
        Some(g) => {
            lists::lemma_first_index(s.t.chats, index::chat_has_guid(g@));
        },
        None => {},
    }
}

/// Whether what a run has seen is what the index has: each chat and each handle
/// that it remembers is there, under the id it remembers.
spec fn remembers(s: Progress) -> bool {
    &&& forall|g: Seq<char>| #[trigger]
        s.chat_ids.contains_key(g) ==> has_chat(s.t.chats, g, s.chat_ids[g])
    &&& forall|h: Seq<char>| #[trigger]
        s.handle_ids.contains_key(h) ==> has_handle(s.t.handles, h, s.handle_ids[h])
}

spec fn has_chat(chats: Seq<ChatView>, guid: Seq<char>, id: i64) -> bool {
    exists|i: int| 0 <= i < chats.len() && (#[trigger] chats[i]).guid == guid && chats[i].id == id
}

spec fn has_handle(handles: Seq<HandleView>, handle: Seq<char>, id: i64) -> bool {
    exists|i: int|
        0 <= i < handles.len() && (#[trigger] handles[i]).handle == handle && handles[i].id == id
}

proof fn lemma_chat_stays(s: Progress, m: ExtractedMessage, guid: Seq<char>, id: i64)
    requires
        has_chat(s.t.chats, guid, id),
    ensures
        has_chat(etl::ingest(s, m).t.chats, guid, id),
{
    lemma_others(s, m);
    let i = choose|i: int|
        0 <= i < s.t.chats.len() && (#[trigger] s.t.chats[i]).guid == guid && s.t.chats[i].id == id;
    assert(etl::ingest(s, m).t.chats[i].guid == guid);
}

proof fn lemma_handle_stays(s: Progress, m: ExtractedMessage, handle: Seq<char>, id: i64)
    requires
        has_handle(s.t.handles, handle, id),
    ensures
        has_handle(etl::ingest(s, m).t.handles, handle, id),
{
    lemma_others(s, m);
    let i = choose|i: int|
        0 <= i < s.t.handles.len() && (#[trigger] s.t.handles[i]).handle == handle
            && s.t.handles[i].id == id;
    assert(etl::ingest(s, m).t.handles[i].handle == handle);
}

/// The chat and the sender of a message are in the index once it was taken in.
proof fn lemma_chat_and_sender(s: Progress, m: ExtractedMessage)
    requires
        remembers(s),
    ensures
        m.chat_guid matches Some(g) ==> etl::chat_of(s, m) is Some && has_chat(
            etl::ingest(s, m).t.chats,
            g@,
            etl::chat_of(s, m)->0,
        ),
        ({
            let t1 = tables::replayed(s.t, etl::chat_step(s, m));
            let sender = etl::sender_of(t1, s.handle_ids, m);
            if m.is_from_me || m.sender_handle is None {
                sender is None
            } else {
                sender is Some && has_handle(
                    etl::ingest(s, m).t.handles,
                    m.sender_handle->0@,
                    sender->0,
                )
            }
        }),
        remembers(etl::ingest(s, m)),
{
    resync::lemma_ingest_tables(s, m);
    lemma_others(s, m);
    let now = etl::ingest(s, m);
    let t1 = tables::replayed(s.t, etl::chat_step(s, m));
    resync::lemma_one_or_none(s.t, etl::chat_step(s, m));
    resync::lemma_one_or_none(t1, etl::sender_step(t1, s.handle_ids, m));
    match m.chat_guid {
        Some(g) => {
            let id = etl::chat_of(s, m)->0;
            if s.chat_ids.contains_key(g@) {
                lemma_chat_stays(s, m, g@, id);
            } else {
                lists::lemma_first_index(s.t.chats, index::chat_has_guid(g@));
                let k = match lists::first_index(s.t.chats, index::chat_has_guid(g@)) {
                    Some(i) => i,
                    None => s.t.chats.len() as int,
                };
                assert(now.t.chats[k].guid == g@ && now.t.chats[k].id == id);
            }
        },
        None => {},
    }
    match etl::sender_handle(m) {
        Some(h) => {
            let id = etl::sender_of(t1, s.handle_ids, m)->0;
            if s.handle_ids.contains_key(h) {
                lemma_handle_stays(s, m, h, id);
            } else {
                lists::lemma_first_index(s.t.handles, index::is_handle(h));
                let k = match lists::first_index(s.t.handles, index::is_handle(h)) {
                    Some(i) => i,
                    None => s.t.handles.len() as int,
                };
                assert(now.t.handles[k].handle == h && now.t.handles[k].id == id);
            }
        },
        None => {},
    }
    assert forall|g: Seq<char>| #[trigger] now.chat_ids.contains_key(g) implies has_chat(
        now.t.chats,
        g,
        now.chat_ids[g],
    ) by {
        if s.chat_ids.contains_key(g) {
            lemma_chat_stays(s, m, g, s.chat_ids[g]);
        }
    }
    assert forall|h: Seq<char>| #[trigger] now.handle_ids.contains_key(h) implies has_handle(
        now.t.handles,
        h,
        now.handle_ids[h],
    ) by {
        if s.handle_ids.contains_key(h) {
            lemma_handle_stays(s, m, h, s.handle_ids[h]);
        }
    }
}

proof fn lemma_remembers(s: Progress, msgs: Seq<ExtractedMessage>, start: int)
    requires
        remembers(s),
    ensures
        remembers(etl::ingested(s, msgs, start)),
    decreases msgs.len(),
{
    if msgs.len() > 0 {
        lemma_remembers(s, msgs.drop_last(), start);
        if msgs.last().rowid > start {
            lemma_chat_and_sender(etl::ingested(s, msgs.drop_last(), start), msgs.last());
        }
    }
}

/// Where a row stays in its place while another message is taken in.
proof fn lemma_place_stays(s: Progress, m: ExtractedMessage, row: MessageView, of: ExtractedMessage)
    requires
        is_placed(s.t, row, of),
    ensures
        is_placed(etl::ingest(s, m).t, row, of),
{
    lemma_others(s, m);
    let a = s.t;
    let b = etl::ingest(s, m).t;
    match of.chat_guid {
        Some(g) => {
            let i = choose|i: int|
                0 <= i < a.chats.len() && (#[trigger] a.chats[i]).guid == g@ && a.chats[i].id
                    == row.chat_id->0;
            assert(b.chats[i].guid == g@);
        },
        None => {},
    }
    if !of.is_from_me && of.sender_handle is Some {
        let i = choose|i: int|
            0 <= i < a.handles.len() && (#[trigger] a.handles[i]).handle == of.sender_handle->0@
                && a.handles[i].id == row.sender_id->0;
        assert(b.handles[i].handle == of.sender_handle->0@);
    }
}

/// How a list of messages went on while other messages were taken in: the rows
/// it had stay where they were, under their ids and guids, and those with a
/// given guid stay as they are.
spec fn goes_on(a: Seq<MessageView>, b: Seq<MessageView>, guid: Seq<char>) -> bool {
    &&& a.len() <= b.len()
    &&& forall|i: int|
        0 <= i < a.len() ==> (#[trigger] b[i]).guid == a[i].guid && b[i].id == a[i].id
    &&& forall|i: int| 0 <= i < a.len() && a[i].guid == guid ==> (#[trigger] b[i]) == a[i]
    &&& forall|i: int| a.len() <= i < b.len() ==> (#[trigger] b[i]).guid != guid
}

proof fn lemma_goes_on(s: Progress, m: ExtractedMessage, guid: Seq<char>)
    requires
        m.guid@ != guid,
    ensures
        goes_on(s.t.messages, etl::ingest(s, m).t.messages, guid),
{
    lemma_messages(s, m);
    lists::lemma_first_index(s.t.messages, index::message_has_guid(m.guid@));
}

proof fn lemma_scan_goes_on(s: Progress, msgs: Seq<ExtractedMessage>, start: int, guid: Seq<char>)
    requires
        forall|i: int|
            0 <= i < msgs.len() && (#[trigger] msgs[i]).rowid > start ==> msgs[i].guid@ != guid,
    ensures
        goes_on(s.t.messages, etl::ingested(s, msgs, start).t.messages, guid),
    decreases msgs.len(),
{
    if msgs.len() > 0 {
        let front = msgs.drop_last();
        assert forall|i: int| 0 <= i < front.len() && (#[trigger] front[i]).rowid > start implies front[i].guid@
            != guid by {
            assert(front[i] == msgs[i]);
        }
        lemma_scan_goes_on(s, front, start, guid);
        let mid = etl::ingested(s, front, start);
        assert(msgs[msgs.len() - 1] == msgs.last());
        if msgs.last().rowid > start {
            lemma_goes_on(mid, msgs.last(), guid);
            let a = s.t.messages;
            let b = mid.t.messages;
            let c = etl::ingested(s, msgs, start).t.messages;
            assert forall|i: int| 0 <= i < a.len() implies (#[trigger] c[i]).guid == a[i].guid
                && c[i].id == a[i].id by {
                assert(b[i].guid == a[i].guid);
            }
            assert forall|i: int| 0 <= i < a.len() && a[i].guid == guid implies (#[trigger] c[i])
                == a[i] by {
                assert(b[i] == a[i]);
            }
            assert forall|i: int| a.len() <= i < c.len() implies (#[trigger] c[i]).guid != guid by {
                if i < b.len() {
                    assert(b[i].guid != guid);
                    assert(c[i].guid == b[i].guid);
                }
            }
        }
    }
}

/// Taking in a message that the index does not have adds a row with all that is
/// kept of it, in its chat and from its sender, and changes no other. One that
/// the index has with another content changes its row, and nothing else: the row
/// takes the text, the times and the hash of the source, and keeps its id. One
/// that the index has as it is changes no message.
pub proof fn law_taking_in_a_message(s: Progress, m: ExtractedMessage, k: int)
    requires
        forall|i: int|
            0 <= i < k ==> (#[trigger] s.t.messages[i]).guid != m.guid@,
        0 <= k <= s.t.messages.len(),
        k < s.t.messages.len() ==> s.t.messages[k].guid == m.guid@,
    ensures
        ({
            let a = s.t.messages;
            let now = etl::ingest(s, m);
            let b = now.t.messages;
            &&& k == a.len() ==> b.len() == a.len() + 1 && holds_all(b[k], m) && now.inserted
                == s.inserted + 1 && now.updated == s.updated && now.unchanged == s.unchanged
            &&& k < a.len() ==> b.len() == a.len() && now.inserted == s.inserted
            &&& k < a.len() && a[k].content_hash != index::hash_of(m) ==> follows(b[k], m)
                && b[k].id == a[k].id && b[k].is_from_me == a[k].is_from_me && b[k].service
                == a[k].service && now.updated == s.updated + 1 && now.unchanged == s.unchanged
            &&& k < a.len() && a[k].content_hash == index::hash_of(m) ==> b[k] == a[k]
                && now.updated == s.updated && now.unchanged == s.unchanged + 1
            &&& forall|i: int| 0 <= i < a.len() && i != k ==> (#[trigger] b[i]) == a[i]
        }),
{
    let a = s.t.messages;
    let p = index::message_has_guid(m.guid@);
    lemma_times_of(m);
    lemma_messages(s, m);
    laws::lemma_before_message(s, m);
    if k < a.len() {
        lists::lemma_is_first_index(a, p, k);
    } else {
        lists::lemma_no_first_index(a, p);
    }
}

/// A row that was just taken in is in its place.
proof fn lemma_taken_in_place(s: Progress, m: ExtractedMessage, k: int)
    requires
        remembers(s),
        forall|i: int|
            0 <= i < k ==> (#[trigger] s.t.messages[i]).guid != m.guid@,
        0 <= k <= s.t.messages.len(),
        k < s.t.messages.len() ==> s.t.messages[k].guid == m.guid@ && s.t.messages[k].content_hash
            != index::hash_of(m),
    ensures
        is_placed(etl::ingest(s, m).t, etl::ingest(s, m).t.messages[k], m),
        m.chat_guid is Some ==> etl::ingest(s, m).dirty.contains(
            etl::ingest(s, m).t.messages[k].chat_id->0,
        ),
{
    let a = s.t.messages;
    let p = index::message_has_guid(m.guid@);
    lemma_messages(s, m);
    lemma_chat_and_sender(s, m);
    laws::lemma_before_message(s, m);
    if etl::chat_of(s, m) is Some {
        laws::lemma_add_once(s.dirty, etl::chat_of(s, m)->0);
    }
    if k < a.len() {
        lists::lemma_is_first_index(a, p, k);
    } else {
        lists::lemma_no_first_index(a, p);
    }
}

/// What a scan leaves of one of its messages.
proof fn lemma_scan_takes_in(s: Progress, msgs: Seq<ExtractedMessage>, start: int, i: int) -> (k: int)
    requires
        laws::distinct_guids(msgs),
        0 <= i < msgs.len(),
        msgs[i].rowid > start,
        remembers(s),
    ensures
        ({
            let m = msgs[i];
            let a = s.t.messages;
            let t = etl::ingested(s, msgs, start).t;
            &&& 0 <= k < t.messages.len()
            &&& t.messages[k].guid == m.guid@
            &&& forall|j: int| 0 <= j < k ==> (#[trigger] t.messages[j]).guid != m.guid@
            &&& k < a.len() ==> a[k].guid == m.guid@ && t.messages[k].id == a[k].id
            &&& k >= a.len() ==> lacks(a, m.guid@) && holds_all(t.messages[k], m)
            &&& k < a.len() && a[k].content_hash == index::hash_of(m) ==> t.messages[k] == a[k]
            &&& !(k < a.len() && a[k].content_hash == index::hash_of(m)) ==> follows(
                t.messages[k],
                m,
            ) && is_placed(t, t.messages[k], m)
            &&& !(k < a.len() && a[k].content_hash == index::hash_of(m)) && m.chat_guid is Some
                ==> etl::ingested(s, msgs, start).dirty.contains(t.messages[k].chat_id->0)
        }),
    decreases msgs.len(),
{
    let front = msgs.drop_last();
    let n = msgs.len() - 1;
    let m = msgs[i];
    let a = s.t.messages;
    let mid = etl::ingested(s, front, start);
    assert forall|x: int, y: int| 0 <= x < y < front.len() implies (#[trigger] front[x]).guid@ != (
    #[trigger] front[y]).guid@ by {
        assert(front[x] == msgs[x] && front[y] == msgs[y]);
    }
    lemma_remembers(s, front, start);
    if i == n {
        assert forall|x: int| 0 <= x < front.len() && (#[trigger] front[x]).rowid > start implies front[x].guid@
            != m.guid@ by {
            assert(front[x] == msgs[x]);
            assert(msgs[x].guid@ != msgs[n].guid@);
        }
        lemma_scan_goes_on(s, front, start, m.guid@);
        let b = mid.t.messages;
        let p = index::message_has_guid(m.guid@);
        lists::lemma_first_index(b, p);
        let k = match lists::first_index(b, p) {
            Some(k) => k,
            None => b.len() as int,
        };
        assert forall|j: int| 0 <= j < k implies (#[trigger] b[j]).guid != m.guid@ by {
            assert(!p(b[j]));
        }
        if k < b.len() {
            assert(p(b[k]));
            assert(k < a.len());
            assert(b[k] == a[k]);
        } else {
            assert forall|j: int| 0 <= j < a.len() implies (#[trigger] a[j]).guid != m.guid@ by {
                assert(b[j].guid == a[j].guid);
            }
        }
        law_taking_in_a_message(mid, m, k);
        if !(k < b.len() && b[k].content_hash == index::hash_of(m)) {
            lemma_taken_in_place(mid, m, k);
        }
        let c = etl::ingested(s, msgs, start).t.messages;
        assert forall|j: int| 0 <= j < k implies (#[trigger] c[j]).guid != m.guid@ by {
            assert(c[j] == b[j]);
        }
        k
    } else {
        assert(front[i] == m);
        let k = lemma_scan_takes_in(s, front, start, i);
        let last = msgs[n];
        if last.rowid > start {
            assert(msgs[i].guid@ != msgs[n].guid@);
            lemma_goes_on(mid, last, m.guid@);
            let b = mid.t.messages;
            let c = etl::ingest(mid, last).t.messages;
            assert(c[k] == b[k]);
            assert forall|j: int| 0 <= j < k implies (#[trigger] c[j]).guid != m.guid@ by {
                assert(c[j].guid == b[j].guid);
            }
            if !(k < a.len() && a[k].content_hash == index::hash_of(m)) {
                lemma_place_stays(mid, last, b[k], m);
                if etl::chat_of(mid, last) is Some {
                    laws::lemma_add_once(mid.dirty, etl::chat_of(mid, last)->0);
                }
            }
        }
        k
    }
}

/// A sync brings every row of the source that lies within the overlap of the
/// watermark, or behind it, into the index. A message that the index does not
/// have gets a row with all that is kept of it. One that it has with another
/// content, as an edit or a retraction leaves it, takes the text and the times
/// that the source has now, and keeps its id. Either way the row is in the
/// message's chat and from its sender, and the chat is cut anew. One that it has
/// as it is stays as it is.
pub proof fn law_sync_takes_in_every_row(
    t: Tables,
    source: Seq<ExtractedMessage>,
    overlap: u32,
    p: ChunkParams,
    names: Option<Map<Seq<char>, Seq<char>>>,
    i: int,
) -> (k: int)
    requires
        laws::distinct_guids(source),
        0 <= i < source.len(),
        source[i].rowid > 0,
        source[i].rowid > index::watermark_of(t.watermark) - overlap,
    ensures
        ({
            let m = source[i];
            let a = t.messages;
            let after = laws::after_sync(t, source, overlap, p, names);
            let b = after.messages;
            &&& 0 <= k < b.len()
            &&& b[k].guid == m.guid@
            &&& k < a.len() ==> a[k].guid == m.guid@ && b[k].id == a[k].id
            &&& k >= a.len() ==> lacks(a, m.guid@) && holds_all(b[k], m)
            &&& k < a.len() && a[k].content_hash == index::hash_of(m) ==> b[k] == a[k]
            &&& !(k < a.len() && a[k].content_hash == index::hash_of(m)) ==> follows(b[k], m)
                && is_placed(after, b[k], m)
            &&& !(k < a.len() && a[k].content_hash == index::hash_of(m)) && m.chat_guid is Some
                ==> etl::dirty_after_naming(
                laws::scanned(t, source, overlap).dirty,
                laws::scanned(t, source, overlap).t,
                names,
            ).contains(b[k].chat_id->0)
        }),
{
    let w = index::watermark_of(t.watermark);
    let start = etl::start_of(w, overlap);
    let m = source[i];
    etl::law_scan_reaches_back_by_the_overlap(w, overlap, m.rowid as int);
    laws::law_sync_result(t, source, overlap, p, names);
    let s = laws::scanned(t, source, overlap);
    let after = laws::after_sync(t, source, overlap, p, names);
    let k = lemma_scan_takes_in(etl::at_start(t), source, start, i);
    let row = s.t.messages[k];
    if is_placed(s.t, row, m) {
        if !m.is_from_me && m.sender_handle is Some {
            let h = m.sender_handle->0@;
            let x = choose|x: int|
                0 <= x < s.t.handles.len() && (#[trigger] s.t.handles[x]).handle == h
                    && s.t.handles[x].id == row.sender_id->0;
            assert(after.handles[x].handle == h && after.handles[x].id == row.sender_id->0);
        }
        assert(is_placed(after, row, m));
    }
    if names is Some && row.chat_id is Some {
        laws::law_rename_marks_only_the_contacts_chats(
            s.dirty,
            s.t.messages,
            index::renamed_ids(s.t.handles, names->0),
            row.chat_id->0,
        );
    }
    k
}

/// What a sync leaves alone: every message that the index had stays, where it
/// was and under its id, and one that the source does not have within the reach
/// of the scan stays as it is. An edit further back than the overlap is not seen.
pub proof fn law_sync_leaves_the_rest_alone(
    t: Tables,
    source: Seq<ExtractedMessage>,
    overlap: u32,
    p: ChunkParams,
    names: Option<Map<Seq<char>, Seq<char>>>,
    k: int,
)
    requires
        0 <= k < t.messages.len(),
    ensures
        ({
            let b = laws::after_sync(t, source, overlap, p, names).messages;
            &&& t.messages.len() <= b.len()
            &&& b[k].id == t.messages[k].id
            &&& b[k].guid == t.messages[k].guid
            &&& (forall|i: int|
                0 <= i < source.len() && (#[trigger] source[i]).guid@ == t.messages[k].guid
                    ==> source[i].rowid <= 0 || source[i].rowid <= index::watermark_of(t.watermark)
                    - overlap) ==> b[k] == t.messages[k]
        }),
{
    let w = index::watermark_of(t.watermark);
    let start = etl::start_of(w, overlap);
    laws::law_sync_result(t, source, overlap, p, names);
    lemma_scan_keeps_ids(etl::at_start(t), source, start, k);
    let g = t.messages[k].guid;
    if forall|i: int|
        0 <= i < source.len() && (#[trigger] source[i]).guid@ == g ==> source[i].rowid <= 0
            || source[i].rowid <= w - overlap {
        assert forall|i: int| 0 <= i < source.len() && (#[trigger] source[i]).rowid > start implies source[i].guid@
            != g by {
            etl::law_scan_reaches_back_by_the_overlap(w, overlap, source[i].rowid as int);
        }
        lemma_scan_goes_on(etl::at_start(t), source, start, g);
    }
}

proof fn lemma_scan_keeps_ids(s: Progress, msgs: Seq<ExtractedMessage>, start: int, k: int)
    requires
        0 <= k < s.t.messages.len(),
    ensures
        s.t.messages.len() <= etl::ingested(s, msgs, start).t.messages.len(),
        etl::ingested(s, msgs, start).t.messages[k].id == s.t.messages[k].id,
        etl::ingested(s, msgs, start).t.messages[k].guid == s.t.messages[k].guid,
    decreases msgs.len(),
{
    if msgs.len() > 0 {
        let mid = etl::ingested(s, msgs.drop_last(), start);
        lemma_scan_keeps_ids(s, msgs.drop_last(), start, k);
        lemma_messages(mid, msgs.last());
        lists::lemma_first_index(mid.t.messages, index::message_has_guid(msgs.last().guid@));
    }
}

/// Where a sync leaves the watermark: at the highest ROWID that it read, or
/// where it was, if that is higher; and the next sync reads that number back.
pub proof fn law_watermark_after_a_sync(
    t: Tables,
    source: Seq<ExtractedMessage>,
    overlap: u32,
    p: ChunkParams,
    names: Option<Map<Seq<char>, Seq<char>>>,
)
    ensures
        ({
            let w = index::watermark_of(t.watermark);
            let now = index::watermark_of(
                laws::after_sync(t, source, overlap, p, names).watermark,
            );
            &&& now >= w
            &&& forall|i: int|
                0 <= i < source.len() && (#[trigger] source[i]).rowid > 0 && source[i].rowid > w
                    - overlap ==> now >= source[i].rowid
            &&& now == w || exists|i: int|
                0 <= i < source.len() && (#[trigger] source[i]).rowid == now
        }),
{
    let w = index::watermark_of(t.watermark);
    let start = etl::start_of(w, overlap);
    let s = laws::scanned(t, source, overlap);
    laws::law_sync_result(t, source, overlap, p, names);
    laws::law_watermark_rises(etl::at_start(t), source, start);
    assert(i64::MIN <= s.watermark <= i64::MAX);
    numeric::law_decimal_round_trip(s.watermark as i64);
    assert forall|i: int|
        0 <= i < source.len() && (#[trigger] source[i]).rowid > 0 && source[i].rowid > w
            - overlap implies s.watermark >= source[i].rowid by {
        etl::law_scan_reaches_back_by_the_overlap(w, overlap, source[i].rowid as int);
    }
}

/// What names a sync leaves: with a contact book every handle goes by the name
/// that the book gives it, and by none where the book has none; without one
/// every handle that the index had keeps the name it had. No handle and no id
/// changes.
pub proof fn law_names_after_a_sync(
    t: Tables,
    source: Seq<ExtractedMessage>,
    overlap: u32,
    p: ChunkParams,
    names: Option<Map<Seq<char>, Seq<char>>>,
    k: int,
)
    requires
        0 <= k < laws::after_sync(t, source, overlap, p, names).handles.len(),
    ensures
        ({
            let h = laws::after_sync(t, source, overlap, p, names).handles[k];
            &&& names matches Some(book) ==> h.name == contacts::name_for(book, h.handle)
            &&& k < t.handles.len() ==> h.handle == t.handles[k].handle && h.id == t.handles[k].id
            &&& k < t.handles.len() && names is None ==> h.name == t.handles[k].name
            &&& k >= t.handles.len() && names is None ==> h.name is None
        }),
{
    let start = etl::start_of(index::watermark_of(t.watermark), overlap);
    laws::law_sync_result(t, source, overlap, p, names);
    lemma_scan_handles(etl::at_start(t), source, start, k);
}

proof fn lemma_scan_handles(s: Progress, msgs: Seq<ExtractedMessage>, start: int, k: int)
    requires
        0 <= k < etl::ingested(s, msgs, start).t.handles.len(),
    ensures
        k < s.t.handles.len() ==> etl::ingested(s, msgs, start).t.handles[k] == s.t.handles[k],
        k >= s.t.handles.len() ==> etl::ingested(s, msgs, start).t.handles[k].name is None,
    decreases msgs.len(),
{
    if msgs.len() > 0 {
        let mid = etl::ingested(s, msgs.drop_last(), start);
        let m = msgs.last();
        if k < mid.t.handles.len() {
            lemma_scan_handles(s, msgs.drop_last(), start, k);
        }
        lemma_scan_handle_count(s, msgs.drop_last(), start);
        if m.rowid > start {
            resync::lemma_ingest_tables(mid, m);
            let t1 = tables::replayed(mid.t, etl::chat_step(mid, m));
            resync::lemma_one_or_none(t1, etl::sender_step(t1, mid.handle_ids, m));
        }
    }
}

proof fn lemma_scan_handle_count(s: Progress, msgs: Seq<ExtractedMessage>, start: int)
    ensures
        etl::ingested(s, msgs, start).t.handles.len() >= s.t.handles.len(),
    decreases msgs.len(),
{
    if msgs.len() > 0 {
        lemma_scan_handle_count(s, msgs.drop_last(), start);
        lemma_others(etl::ingested(s, msgs.drop_last(), start), msgs.last());
    }
}

/// Which chats a sync cuts anew: every chat in which it added a message, or
/// changed one. The message's row names the chat.
pub proof fn law_changed_chats_are_cut_anew(
    t: Tables,
    source: Seq<ExtractedMessage>,
    overlap: u32,
    names: Option<Map<Seq<char>, Seq<char>>>,
    i: int,
)
    requires
        laws::distinct_guids(source),
        0 <= i < source.len(),
        source[i].rowid > 0,
        source[i].rowid > index::watermark_of(t.watermark) - overlap,
        source[i].chat_guid is Some,
        forall|k: int|
            0 <= k < t.messages.len() && (#[trigger] t.messages[k]).guid == source[i].guid@
                ==> t.messages[k].content_hash != index::hash_of(source[i]),
    ensures
        ({
            let s = laws::scanned(t, source, overlap);
            exists|c: int|
                0 <= c < s.t.chats.len() && (#[trigger] s.t.chats[c]).guid
                    == source[i].chat_guid->0@ && etl::dirty_after_naming(
                    s.dirty,
                    s.t,
                    names,
                ).contains(s.t.chats[c].id)
        }),
{
    let w = index::watermark_of(t.watermark);
    let start = etl::start_of(w, overlap);
    etl::law_scan_reaches_back_by_the_overlap(w, overlap, source[i].rowid as int);
    let s = laws::scanned(t, source, overlap);
    let id = lemma_scan_marks(etl::at_start(t), source, start, i);
    let c = choose|c: int|
        0 <= c < s.t.chats.len() && (#[trigger] s.t.chats[c]).guid == source[i].chat_guid->0@
            && s.t.chats[c].id == id;
    assert(s.t.chats[c].guid == source[i].chat_guid->0@);
    match names {
        Some(book) => {
            laws::law_rename_marks_only_the_contacts_chats(
                s.dirty,
                s.t.messages,
                index::renamed_ids(s.t.handles, book),
                id,
            );
        },
        None => {},
    }
}

proof fn lemma_scan_marks(s: Progress, msgs: Seq<ExtractedMessage>, start: int, i: int) -> (id: i64)
    requires
        laws::distinct_guids(msgs),
        remembers(s),
        0 <= i < msgs.len(),
        msgs[i].rowid > start,
        msgs[i].chat_guid is Some,
        forall|k: int|
            0 <= k < s.t.messages.len() && (#[trigger] s.t.messages[k]).guid == msgs[i].guid@
                ==> s.t.messages[k].content_hash != index::hash_of(msgs[i]),
    ensures
        etl::ingested(s, msgs, start).dirty.contains(id),
        has_chat(etl::ingested(s, msgs, start).t.chats, msgs[i].chat_guid->0@, id),
    decreases msgs.len(),
{
    let front = msgs.drop_last();
    let n = msgs.len() - 1;
    let m = msgs[i];
    let mid = etl::ingested(s, front, start);
    assert forall|x: int, y: int| 0 <= x < y < front.len() implies (#[trigger] front[x]).guid@ != (
    #[trigger] front[y]).guid@ by {
        assert(front[x] == msgs[x] && front[y] == msgs[y]);
    }
    if i == n {
        lemma_remembers(s, front, start);
        lemma_chat_and_sender(mid, m);
        assert forall|x: int| 0 <= x < front.len() && (#[trigger] front[x]).rowid > start implies front[x].guid@
            != m.guid@ by {
            assert(front[x] == msgs[x]);
            assert(msgs[x].guid@ != msgs[n].guid@);
        }
        lemma_scan_goes_on(s, front, start, m.guid@);
        laws::lemma_before_message(mid, m);
        let p = index::message_has_guid(m.guid@);
        lists::lemma_first_index(mid.t.messages, p);
        match lists::first_index(mid.t.messages, p) {
            Some(k) => {
                assert(p(mid.t.messages[k]));
                assert(k < s.t.messages.len());
                assert(mid.t.messages[k] == s.t.messages[k]);
            },
            None => {},
        }
        let id = etl::chat_of(mid, m)->0;
        laws::lemma_add_once(mid.dirty, id);
        id
    } else {
        assert(front[i] == m);
        let id = lemma_scan_marks(s, front, start, i);
        let last = msgs[n];
        if last.rowid > start {
            lemma_chat_stays(mid, last, m.chat_guid->0@, id);
            if etl::chat_of(mid, last) is Some {
                laws::lemma_add_once(mid.dirty, etl::chat_of(mid, last)->0);
            }
        }
        id
    }
}

/// Whether a row of the source lies within the reach of a scan: its ROWID is
/// positive, and not further behind the watermark than the overlap.
pub open spec fn in_reach(m: ExtractedMessage, watermark: int, overlap: u32) -> bool {
    m.rowid > 0 && m.rowid > watermark - overlap
}

/// Whether a list of rows has a message with the content that it has now: the
/// first row with its guid has its hash.
pub open spec fn stands(rows: Seq<MessageView>, m: ExtractedMessage) -> bool {
    exists|k: int|
        0 <= k < rows.len() && (#[trigger] rows[k]).guid == m.guid@ && rows[k].content_hash
            == index::hash_of(m) && lacks(rows.take(k), m.guid@)
}

/// What a scan counts of its last message.
proof fn lemma_outcome(s: Progress, msgs: Seq<ExtractedMessage>, start: int)
    requires
        laws::distinct_guids(msgs),
        msgs.len() > 0,
        msgs.last().rowid > start,
    ensures
        ({
            let m = msgs.last();
            let rows = s.t.messages;
            let a = etl::ingested(s, msgs.drop_last(), start);
            let b = etl::ingested(s, msgs, start);
            &&& lacks(rows, m.guid@) ==> b.inserted == a.inserted + 1 && b.updated == a.updated
                && b.unchanged == a.unchanged && b.t.messages.len() == a.t.messages.len() + 1
            &&& stands(rows, m) ==> b.inserted == a.inserted && b.updated == a.updated
                && b.unchanged == a.unchanged + 1 && b.t.messages.len() == a.t.messages.len()
            &&& !lacks(rows, m.guid@) && !stands(rows, m) ==> b.inserted == a.inserted && b.updated
                == a.updated + 1 && b.unchanged == a.unchanged && b.t.messages.len()
                == a.t.messages.len()
            &&& !(lacks(rows, m.guid@) && stands(rows, m))
        }),
{
    let front = msgs.drop_last();
    let n = msgs.len() - 1;
    let m = msgs.last();
    let rows = s.t.messages;
    let mid = etl::ingested(s, front, start);
    assert forall|x: int| 0 <= x < front.len() && (#[trigger] front[x]).rowid > start implies front[x].guid@
        != m.guid@ by {
        assert(front[x] == msgs[x]);
        assert(msgs[x].guid@ != msgs[n].guid@);
    }
    lemma_scan_goes_on(s, front, start, m.guid@);
    let b = mid.t.messages;
    let p = index::message_has_guid(m.guid@);
    lists::lemma_first_index(b, p);
    let k = match lists::first_index(b, p) {
        Some(k) => k,
        None => b.len() as int,
    };
    assert forall|j: int| 0 <= j < k implies (#[trigger] b[j]).guid != m.guid@ by {
        assert(!p(b[j]));
    }
    law_taking_in_a_message(mid, m, k);
    if k < b.len() {
        assert(p(b[k]));
        assert(k < rows.len());
        assert(b[k] == rows[k]);
        assert forall|j: int| 0 <= j < k implies (#[trigger] rows.take(k)[j]).guid != m.guid@ by {
            assert(b[j].guid == rows[j].guid);
        }
        assert(rows[k].guid == m.guid@);
        if stands(rows, m) {
            let x = choose|x: int|
                0 <= x < rows.len() && (#[trigger] rows[x]).guid == m.guid@ && rows[x].content_hash
                    == index::hash_of(m) && lacks(rows.take(x), m.guid@);
            if k < x {
                assert(rows.take(x)[k].guid != m.guid@);
            }
            if x < k {
                assert(rows.take(k)[x].guid != m.guid@);
            }
        }
    } else {
        assert forall|j: int| 0 <= j < rows.len() implies (#[trigger] rows[j]).guid != m.guid@ by {
            assert(b[j].guid == rows[j].guid);
        }
    }
}

proof fn lemma_counts(s: Progress, msgs: Seq<ExtractedMessage>, w: int, overlap: u32)
    requires
        laws::distinct_guids(msgs),
    ensures
        ({
            let now = etl::ingested(s, msgs, etl::start_of(w, overlap));
            let rows = s.t.messages;
            &&& now.inserted == s.inserted + msgs.filter(
                |m: ExtractedMessage| in_reach(m, w, overlap) && lacks(rows, m.guid@),
            ).len()
            &&& now.updated == s.updated + msgs.filter(
                |m: ExtractedMessage|
                    in_reach(m, w, overlap) && !lacks(rows, m.guid@) && !stands(rows, m),
            ).len()
            &&& now.unchanged == s.unchanged + msgs.filter(
                |m: ExtractedMessage| in_reach(m, w, overlap) && stands(rows, m),
            ).len()
            &&& now.inserted + now.updated + now.unchanged == s.inserted + s.updated + s.unchanged
                + msgs.filter(|m: ExtractedMessage| in_reach(m, w, overlap)).len()
            &&& now.t.messages.len() - now.inserted == s.t.messages.len() - s.inserted
        }),
    decreases msgs.len(),
{
    reveal(Seq::filter);
    let start = etl::start_of(w, overlap);
    if msgs.len() > 0 {
        let front = msgs.drop_last();
        let m = msgs.last();
        assert forall|x: int, y: int| 0 <= x < y < front.len() implies (#[trigger] front[x]).guid@
            != (#[trigger] front[y]).guid@ by {
            assert(front[x] == msgs[x] && front[y] == msgs[y]);
        }
        lemma_counts(s, front, w, overlap);
        etl::law_scan_reaches_back_by_the_overlap(w, overlap, m.rowid as int);
        if m.rowid > start {
            lemma_outcome(s, msgs, start);
        }
    }
}

proof fn lemma_named(handles: Seq<HandleView>)
    ensures
        index::named_count(handles) == handles.filter(|h: HandleView| h.name is Some).len(),
    decreases handles.len(),
{
    reveal(Seq::filter);
    if handles.len() > 0 {
        lemma_named(handles.drop_last());
    }
}

/// What a report of a sync says, where no two rows of the source share a guid.
/// It counts the rows within reach: as new, those that the index had not; as
/// unchanged, those that it had with the content that they have now; as
/// changed, the others. The totals are those of the index after the sync.
pub proof fn law_what_a_sync_reports(
    r: SyncReport,
    t: Tables,
    source: Seq<ExtractedMessage>,
    overlap: u32,
    p: ChunkParams,
    names: Option<Map<Seq<char>, Seq<char>>>,
)
    requires
        laws::distinct_guids(source),
        etl::is_sync_report(
            r,
            t,
            source,
            overlap,
            names,
            laws::after_sync(t, source, overlap, p, names),
        ),
    ensures
        ({
            let w = index::watermark_of(t.watermark);
            let rows = t.messages;
            let after = laws::after_sync(t, source, overlap, p, names);
            &&& r.scanned == source.filter(|m: ExtractedMessage| in_reach(m, w, overlap)).len()
            &&& r.inserted == source.filter(
                |m: ExtractedMessage| in_reach(m, w, overlap) && lacks(rows, m.guid@),
            ).len()
            &&& r.updated == source.filter(
                |m: ExtractedMessage|
                    in_reach(m, w, overlap) && !lacks(rows, m.guid@) && !stands(rows, m),
            ).len()
            &&& r.unchanged == source.filter(
                |m: ExtractedMessage| in_reach(m, w, overlap) && stands(rows, m),
            ).len()
            &&& r.scanned == r.inserted + r.updated + r.unchanged
            &&& r.watermark_before == w
            &&& r.watermark_after == index::watermark_of(after.watermark)
            &&& r.total_messages == after.messages.len()
            &&& r.total_messages == rows.len() + r.inserted
            &&& r.total_chats == after.chats.len()
            &&& r.total_handles == after.handles.len()
            &&& r.total_chunks == after.chunks.len()
            &&& r.named_handles == after.handles.filter(|h: HandleView| h.name is Some).len()
        }),
{
    let w = index::watermark_of(t.watermark);
    let after = laws::after_sync(t, source, overlap, p, names);
    let s = laws::scanned(t, source, overlap);
    lemma_counts(etl::at_start(t), source, w, overlap);
    lemma_named(after.handles);
    laws::law_sync_result(t, source, overlap, p, names);
    numeric::law_decimal_round_trip(r.watermark_after);
}

/// Whether an index has a chat as a message gives it: a group where the style
/// is 43, a direct chat where it is 45, and else of neither kind; with the name
/// that the message gives.
pub open spec fn tells_chat(chats: Seq<ChatView>, m: ExtractedMessage) -> bool {
    exists|c: int|
        0 <= c < chats.len() && (#[trigger] chats[c]).guid == m.chat_guid->0@ && (chats[c].is_group
            == Some(true) <==> m.chat_style == Some(43i64)) && (chats[c].is_group == Some(false)
            <==> m.chat_style == Some(45i64)) && is_text_of(
            chats[c].display_name,
            m.chat_display_name,
        ) && (forall|j: int| 0 <= j < c ==> (#[trigger] chats[j]).guid != m.chat_guid->0@)
}

/// Whether none of a list of messages that a scan reads is of a chat.
spec fn not_of(msgs: Seq<ExtractedMessage>, start: int, guid: Seq<char>) -> bool {
    forall|i: int|
        0 <= i < msgs.len() && (#[trigger] msgs[i]).rowid > start ==> !(msgs[i].chat_guid is Some
            && msgs[i].chat_guid->0@ == guid)
}

proof fn lemma_not_of(s: Progress, msgs: Seq<ExtractedMessage>, start: int, guid: Seq<char>)
    requires
        not_of(msgs, start, guid),
    ensures
        etl::ingested(s, msgs, start).chat_ids.contains_key(guid) == s.chat_ids.contains_key(guid),
        forall|c: int|
            0 <= c < s.t.chats.len() && s.t.chats[c].guid == guid
                ==> (#[trigger] etl::ingested(s, msgs, start).t.chats[c]) == s.t.chats[c],
        etl::ingested(s, msgs, start).t.chats.len() >= s.t.chats.len(),
    decreases msgs.len(),
{
    if msgs.len() > 0 {
        let front = msgs.drop_last();
        let m = msgs.last();
        let n = msgs.len() - 1;
        assert forall|i: int| 0 <= i < front.len() && (#[trigger] front[i]).rowid > start implies !(
        front[i].chat_guid is Some && front[i].chat_guid->0@ == guid) by {
            assert(front[i] == msgs[i]);
        }
        lemma_not_of(s, front, start, guid);
        assert(msgs[n] == m);
        if m.rowid > start {
            lemma_other_chat(etl::ingested(s, front, start), m, guid);
            lemma_others(etl::ingested(s, front, start), m);
        }
    }
}

proof fn lemma_other_chat(s: Progress, m: ExtractedMessage, guid: Seq<char>)
    requires
        !(m.chat_guid is Some && m.chat_guid->0@ == guid),
    ensures
        etl::ingest(s, m).chat_ids.contains_key(guid) == s.chat_ids.contains_key(guid),
        forall|c: int|
            0 <= c < s.t.chats.len() && s.t.chats[c].guid == guid
                ==> (#[trigger] etl::ingest(s, m).t.chats[c]) == s.t.chats[c],
{
    resync::lemma_ingest_tables(s, m);
    resync::lemma_one_or_none(s.t, etl::chat_step(s, m));
    match m.chat_guid {
        Some(g) => {
            lists::lemma_first_index(s.t.chats, index::chat_has_guid(g@));
        },
        None => {},
    }
}

proof fn lemma_chat_told(s: Progress, m: ExtractedMessage)
    requires
        m.chat_guid is Some,
        !s.chat_ids.contains_key(m.chat_guid->0@),
    ensures
        tells_chat(etl::ingest(s, m).t.chats, m),
        etl::ingest(s, m).chat_ids.contains_key(m.chat_guid->0@),
{
    resync::lemma_ingest_tables(s, m);
    resync::lemma_one_or_none(s.t, etl::chat_step(s, m));
    let g = m.chat_guid->0@;
    let p = index::chat_has_guid(g);
    lists::lemma_first_index(s.t.chats, p);
    let k = match lists::first_index(s.t.chats, p) {
        Some(i) => i,
        None => s.t.chats.len() as int,
    };
    let now = etl::ingest(s, m).t.chats;
    assert(now[k].guid == g);
    assert forall|j: int| 0 <= j < k implies (#[trigger] now[j]).guid != g by {
        assert(!p(s.t.chats[j]));
    }
}

proof fn lemma_stays_told(s: Progress, m: ExtractedMessage, of: ExtractedMessage)
    requires
        of.chat_guid is Some,
        tells_chat(s.t.chats, of),
        s.chat_ids.contains_key(of.chat_guid->0@),
    ensures
        tells_chat(etl::ingest(s, m).t.chats, of),
        etl::ingest(s, m).chat_ids.contains_key(of.chat_guid->0@),
{
    let g = of.chat_guid->0@;
    let a = s.t.chats;
    let b = etl::ingest(s, m).t.chats;
    lemma_others(s, m);
    let c = choose|c: int|
        0 <= c < a.len() && (#[trigger] a[c]).guid == of.chat_guid->0@ && (a[c].is_group == Some(
            true,
        ) <==> of.chat_style == Some(43i64)) && (a[c].is_group == Some(false) <==> of.chat_style
            == Some(45i64)) && is_text_of(a[c].display_name, of.chat_display_name) && (forall|j: int|
            0 <= j < c ==> (#[trigger] a[j]).guid != of.chat_guid->0@);
    if m.chat_guid is Some && m.chat_guid->0@ == g {
        resync::lemma_ingest_tables(s, m);
        resync::lemma_one_or_none(s.t, etl::chat_step(s, m));
        assert(b == a);
    } else {
        lemma_other_chat(s, m, g);
        assert(b[c] == a[c]);
        assert forall|j: int| 0 <= j < c implies (#[trigger] b[j]).guid != g by {
            assert(a[j].guid != g);
        }
    }
}

proof fn lemma_scan_tells_chat(s: Progress, msgs: Seq<ExtractedMessage>, start: int, i: int)
    requires
        0 <= i < msgs.len(),
        msgs[i].rowid > start,
        msgs[i].chat_guid is Some,
        !s.chat_ids.contains_key(msgs[i].chat_guid->0@),
        not_of(msgs.take(i), start, msgs[i].chat_guid->0@),
    ensures
        tells_chat(etl::ingested(s, msgs, start).t.chats, msgs[i]),
        etl::ingested(s, msgs, start).chat_ids.contains_key(msgs[i].chat_guid->0@),
    decreases msgs.len(),
{
    let front = msgs.drop_last();
    let m = msgs[i];
    if i == msgs.len() - 1 {
        assert(front =~= msgs.take(i));
        lemma_not_of(s, front, start, m.chat_guid->0@);
        lemma_chat_told(etl::ingested(s, front, start), m);
    } else {
        assert(front.take(i) =~= msgs.take(i));
        assert(front[i] == m);
        lemma_scan_tells_chat(s, front, start, i);
        if msgs.last().rowid > start {
            lemma_stays_told(etl::ingested(s, front, start), msgs.last(), m);
        }
    }
}

/// What a sync says of the chats. The first row within reach that is of a chat
/// says whether it is a group and what it is called; what the index had of the
/// chat gives way.
pub proof fn law_chats_follow_the_source(
    t: Tables,
    source: Seq<ExtractedMessage>,
    overlap: u32,
    p: ChunkParams,
    names: Option<Map<Seq<char>, Seq<char>>>,
    i: int,
)
    requires
        0 <= i < source.len(),
        in_reach(source[i], index::watermark_of(t.watermark), overlap),
        source[i].chat_guid is Some,
        forall|j: int|
            0 <= j < i && (#[trigger] source[j]).chat_guid is Some && in_reach(
                source[j],
                index::watermark_of(t.watermark),
                overlap,
            ) ==> source[j].chat_guid->0@ != source[i].chat_guid->0@,
    ensures
        tells_chat(laws::after_sync(t, source, overlap, p, names).chats, source[i]),
{
    let w = index::watermark_of(t.watermark);
    let start = etl::start_of(w, overlap);
    laws::law_sync_result(t, source, overlap, p, names);
    etl::law_scan_reaches_back_by_the_overlap(w, overlap, source[i].rowid as int);
    let before = source.take(i);
    let g = source[i].chat_guid->0@;
    assert forall|j: int| 0 <= j < before.len() && (#[trigger] before[j]).rowid > start implies !(
    before[j].chat_guid is Some && before[j].chat_guid->0@ == g) by {
        assert(before[j] == source[j]);
        etl::law_scan_reaches_back_by_the_overlap(w, overlap, source[j].rowid as int);
    }
    lemma_scan_tells_chat(etl::at_start(t), source, start, i);
}

/// A chat of which no row within reach is stays as the index has it.
pub proof fn law_other_chats_stay(
    t: Tables,
    source: Seq<ExtractedMessage>,
    overlap: u32,
    p: ChunkParams,
    names: Option<Map<Seq<char>, Seq<char>>>,
    c: int,
)
    requires
        0 <= c < t.chats.len(),
        forall|j: int|
            0 <= j < source.len() && (#[trigger] source[j]).chat_guid is Some && in_reach(
                source[j],
                index::watermark_of(t.watermark),
                overlap,
            ) ==> source[j].chat_guid->0@ != t.chats[c].guid,
    ensures
        c < laws::after_sync(t, source, overlap, p, names).chats.len(),
        laws::after_sync(t, source, overlap, p, names).chats[c] == t.chats[c],
{
    let w = index::watermark_of(t.watermark);
    let start = etl::start_of(w, overlap);
    let g = t.chats[c].guid;
    laws::law_sync_result(t, source, overlap, p, names);
    assert forall|j: int| 0 <= j < source.len() && (#[trigger] source[j]).rowid > start implies !(
    source[j].chat_guid is Some && source[j].chat_guid->0@ == g) by {
        etl::law_scan_reaches_back_by_the_overlap(w, overlap, source[j].rowid as int);
    }
    lemma_not_of(etl::at_start(t), source, start, g);
}

/// An index with messages and no chunks, as one that was made before there were
/// chunks, has every chat cut by the next sync, whatever the sync reads.
pub proof fn law_index_without_chunks_is_cut(
    t: Tables,
    source: Seq<ExtractedMessage>,
    overlap: u32,
    names: Option<Map<Seq<char>, Seq<char>>>,
    c: int,
)
    requires
        t.messages.len() > 0,
        t.chunks.len() == 0,
        0 <= c < t.chats.len(),
    ensures
        ({
            let s = laws::scanned(t, source, overlap);
            etl::dirty_after_naming(s.dirty, s.t, names).contains(t.chats[c].id)
        }),
{
    let start = etl::start_of(index::watermark_of(t.watermark), overlap);
    let ids = t.chats.map_values(|c: ChatView| c.id);
    let id = t.chats[c].id;
    assert(ids[c] == id);
    lemma_marked(ids, c);
    lemma_marks_stay(etl::at_start(t), source, start, id);
    let s = laws::scanned(t, source, overlap);
    match names {
        Some(book) => {
            laws::law_rename_marks_only_the_contacts_chats(
                s.dirty,
                s.t.messages,
                index::renamed_ids(s.t.handles, book),
                id,
            );
        },
        None => {},
    }
}

proof fn lemma_marked(ids: Seq<i64>, c: int)
    requires
        0 <= c < ids.len(),
    ensures
        etl::marked(ids).contains(ids[c]),
    decreases ids.len(),
{
    laws::lemma_add_once(etl::marked(ids.drop_last()), ids.last());
    if c < ids.len() - 1 {
        lemma_marked(ids.drop_last(), c);
        assert(ids.drop_last()[c] == ids[c]);
    }
}

proof fn lemma_marks_stay(s: Progress, msgs: Seq<ExtractedMessage>, start: int, id: i64)
    requires
        s.dirty.contains(id),
    ensures
        etl::ingested(s, msgs, start).dirty.contains(id),
    decreases msgs.len(),
{
    if msgs.len() > 0 {
        let mid = etl::ingested(s, msgs.drop_last(), start);
        lemma_marks_stay(s, msgs.drop_last(), start, id);
        if etl::chat_of(mid, msgs.last()) is Some {
            laws::lemma_add_once(mid.dirty, etl::chat_of(mid, msgs.last())->0);
        }
    }
}

/// A contact whose name changes has its chats cut anew: after the scan, every chat
/// in which a handle wrote that the book renames is out of date.
pub proof fn law_chats_of_renamed_contacts_are_cut_anew(
    t: Tables,
    source: Seq<ExtractedMessage>,
    overlap: u32,
    book: Map<Seq<char>, Seq<char>>,
    i: int,
    k: int,
)
    requires
        0 <= i < laws::scanned(t, source, overlap).t.messages.len(),
        0 <= k < laws::scanned(t, source, overlap).t.handles.len(),
        laws::scanned(t, source, overlap).t.messages[i].chat_id is Some,
        laws::scanned(t, source, overlap).t.messages[i].sender_id == Some(
            laws::scanned(t, source, overlap).t.handles[k].id,
        ),
        laws::scanned(t, source, overlap).t.handles[k].name != contacts::name_for(
            book,
            laws::scanned(t, source, overlap).t.handles[k].handle,
        ),
    ensures
        ({
            let s = laws::scanned(t, source, overlap);
            etl::dirty_after_naming(s.dirty, s.t, Some(book)).contains(
                s.t.messages[i].chat_id->0,
            )
        }),
{
    let s = laws::scanned(t, source, overlap);
    let id = s.t.handles[k].id;
    index::law_which_handles_are_renamed(s.t.handles, book, id);
    assert(s.t.handles[k].id == id);
    laws::law_rename_marks_only_the_contacts_chats(
        s.dirty,
        s.t.messages,
        index::renamed_ids(s.t.handles, book),
        s.t.messages[i].chat_id->0,
    );
}

/// Whether a chat has a chunk with the hash of a run of its messages, from `a` up to
/// `b`.
pub open spec fn has_chunk_of(after: Tables, chat: i64, a: int, b: int) -> bool {
    exists|c: ChunkRowView| #[trigger]
        after.chunks.contains(c) && c.chat_id == chat && c.content_hash == chunk::chunk_of(
            numeric::decimal_int(chat as int),
            index::chunk_inputs(after, chat).subrange(a, b),
        ).content_hash
}

/// What a sync takes in can be found: a message that it added or changed, if it has
/// a text and a chat and is no system event, is part of a run of its chat's messages
/// for which the index has a chunk, with the run's hash. `r.0` is the message's place
/// in the chat, and the run goes from `r.1` up to `r.2`.
pub proof fn law_what_is_taken_in_is_in_a_chunk(
    t: Tables,
    source: Seq<ExtractedMessage>,
    overlap: u32,
    p: ChunkParams,
    names: Option<Map<Seq<char>, Seq<char>>>,
    i: int,
    k: int,
) -> (r: (int, int, int))
    requires
        laws::distinct_guids(source),
        0 <= i < source.len(),
        in_reach(source[i], index::watermark_of(t.watermark), overlap),
        source[i].chat_guid is Some,
        source[i].text is Some,
        0 <= k < laws::after_sync(t, source, overlap, p, names).messages.len(),
        laws::after_sync(t, source, overlap, p, names).messages[k].guid == source[i].guid@,
        !laws::after_sync(t, source, overlap, p, names).messages[k].is_system_event,
        k < t.messages.len() ==> t.messages[k].content_hash != index::hash_of(source[i]),
        forall|x: int, y: int|
            0 <= x < y < laws::after_sync(t, source, overlap, p, names).messages.len() ==> (
            #[trigger] laws::after_sync(t, source, overlap, p, names).messages[x]).guid != (
            #[trigger] laws::after_sync(t, source, overlap, p, names).messages[y]).guid,
        tables::keyed(t),
        etl::room(t, source.len()),
        t.messages.len() + source.len() <= usize::MAX,
        laws::after_sync(t, source, overlap, p, names).messages.len() <= usize::MAX,
        t.chunks.len() + (t.messages.len() + source.len()) * (t.chats.len() + t.messages.len() + 2
            * source.len()) <= i64::MAX,
    ensures
        ({
            let after = laws::after_sync(t, source, overlap, p, names);
            let row = after.messages[k];
            let (at, a, b) = r;
            &&& row.chat_id is Some
            &&& 0 <= a <= at < b <= index::timeline(after, row.chat_id->0).len()
            &&& index::timeline(after, row.chat_id->0)[at] == row
            &&& has_chunk_of(after, row.chat_id->0, a, b)
        }),
{
    let after = laws::after_sync(t, source, overlap, p, names);
    let s = laws::scanned(t, source, overlap);
    let m = source[i];
    let x = law_sync_takes_in_every_row(t, source, overlap, p, names, i);
    if x < k {
        assert(after.messages[x].guid != after.messages[k].guid);
    }
    if k < x {
        assert(after.messages[k].guid != after.messages[x].guid);
    }
    assert(x == k) by {
        assert(after.messages[x].guid == m.guid@);
    }
    let row = after.messages[k];
    assert(follows(row, m));
    let chat = row.chat_id->0;
    recut::law_sync_cuts_the_marked_chats(t, source, overlap, p, names, chat);
    let rows = index::timeline(after, chat);
    index::law_timeline_is_the_chats_messages(after, chat, row);
    assert(after.messages.contains(row));
    let at = choose|at: int| 0 <= at < rows.len() && rows[at] == row;
    let seen = index::chunk_inputs(after, chat);
    let w = chunk::windows(seen, p);
    chunk::law_every_message_is_covered(seen, p, at);
    chunk::law_windows(seen, p);
    let n = choose|n: int| 0 <= n < w.len() && (#[trigger] w[n]).0 <= at < w[n].1;
    let new = index::fresh_chunks(after, chat, p);
    assert(new.len() == w.len());
    assert(new[n] == chunk::chunk_of(
        numeric::decimal_int(chat as int),
        seen.subrange(w[n].0, w[n].1),
    ));
    assert(laws::has_chunk(after.chunks, chat, n, new[n].content_hash));
    (at, w[n].0, w[n].1)
}

} // verus!
