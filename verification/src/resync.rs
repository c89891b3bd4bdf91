//! A second sync of a source that has not changed.
use crate::chunk::ChunkParams;
use crate::etl;
use crate::etl::{Progress, SyncReport};
use crate::index;
use crate::laws;
use crate::lists;
use crate::model::ExtractedMessage;
use crate::numeric;
use crate::tables;
use crate::tables::{ChangeView, ChatView, HandleView, MessageView, Tables};
use crate::text;
use vstd::prelude::*;

verus! {

/// Whether the index has the sender of a message.
pub open spec fn knows_sender(handles: Seq<HandleView>, m: ExtractedMessage) -> bool {
    match etl::sender_handle(m) {
        Some(h) => lists::first_index(handles, index::is_handle(h)) is Some,
        None => true,
    }
}

/// Whether the index has the chat of a message, of the kind and with the name
/// that the message gives it.
pub open spec fn knows_chat(chats: Seq<ChatView>, m: ExtractedMessage) -> bool {
    match m.chat_guid {
        Some(g) => match lists::first_index(chats, index::chat_has_guid(g@)) {
            Some(i) => chats[i].is_group == m.group() && chats[i].display_name == text::opt_view(
                m.chat_display_name,
            ),
            None => false,
        },
        None => true,
    }
}

/// Whether the index has the chat of a message, of whatever kind and name.
pub open spec fn has_chat(chats: Seq<ChatView>, m: ExtractedMessage) -> bool {
    match m.chat_guid {
        Some(g) => lists::first_index(chats, index::chat_has_guid(g@)) is Some,
        None => true,
    }
}

/// Whether two messages, if they are of one chat, agree on its kind and name.
pub open spec fn agree(a: ExtractedMessage, b: ExtractedMessage) -> bool {
    text::opt_view(a.chat_guid) == text::opt_view(b.chat_guid) ==> {
        &&& a.group() == b.group()
        &&& text::opt_view(a.chat_display_name) == text::opt_view(b.chat_display_name)
    }
}

/// Whether the messages of a source agree on their chats, as the rows of one
/// read of a database do.
pub open spec fn chats_agree(msgs: Seq<ExtractedMessage>) -> bool {
    forall|i: int, j: int|
        0 <= i < msgs.len() && 0 <= j < msgs.len() ==> agree(#[trigger] msgs[i], #[trigger] msgs[j])
}

/// Whether a message of a scan is of a chat.
pub open spec fn is_of(msgs: Seq<ExtractedMessage>, start: int, i: int, guid: Seq<char>) -> bool {
    0 <= i < msgs.len() && msgs[i].rowid > start && text::opt_view(msgs[i].chat_guid) == Some(guid)
}

/// What taking in a message does to each table but that of the messages.
pub proof fn lemma_ingest_tables(s: Progress, m: ExtractedMessage)
    ensures
        ({
            let now = etl::ingest(s, m).t;
            let t1 = tables::replayed(s.t, etl::chat_step(s, m));
            &&& now.chats == t1.chats
            &&& now.handles == tables::replayed(t1, etl::sender_step(t1, s.handle_ids, m)).handles
            &&& t1.handles == s.t.handles
            &&& now.chunks == s.t.chunks
            &&& now.embeddings == s.t.embeddings
            &&& now.model == s.t.model
        }),
{
    laws::lemma_before_message(s, m);
    let cs1 = etl::chat_step(s, m);
    let t1 = tables::replayed(s.t, cs1);
    let cs2 = etl::sender_step(t1, s.handle_ids, m);
    let t2 = laws::before_message(s, m);
    let cs3 = index::message_changes(
        t2,
        m,
        etl::chat_of(s, m),
        etl::sender_of(t1, s.handle_ids, m),
    );
    lemma_one_or_none(s.t, cs1);
    lemma_one_or_none(t1, cs2);
    lemma_one_or_none(t2, cs3);
}

/// Replaying a list of one change, or of none.
pub proof fn lemma_one_or_none(t: Tables, cs: Seq<ChangeView>)
    requires
        cs.len() <= 1,
    ensures
        tables::replayed(t, cs) == if cs.len() == 0 {
            t
        } else {
            tables::after(t, cs[0])
        },
{
    if cs.len() == 0 {
        assert(cs =~= Seq::<ChangeView>::empty());
        tables::lemma_replay_one(t, ChangeView::Reset);
    } else {
        assert(cs =~= seq![cs[0]]);
        tables::lemma_replay_one(t, cs[0]);
    }
}

proof fn lemma_handles_grow(s: Progress, m: ExtractedMessage)
    ensures
        forall|h: Seq<char>|
            lists::first_index(s.t.handles, index::is_handle(h)) is Some
                ==> lists::first_index(
                etl::ingest(s, m).t.handles,
                #[trigger] index::is_handle(h),
            ) is Some,
        match etl::sender_handle(m) {
            Some(h) => !s.handle_ids.contains_key(h) ==> lists::first_index(
                etl::ingest(s, m).t.handles,
                index::is_handle(h),
            ) is Some,
            None => true,
        },
{
    lemma_ingest_tables(s, m);
    let t1 = tables::replayed(s.t, etl::chat_step(s, m));
    let cs = etl::sender_step(t1, s.handle_ids, m);
    let old = s.t.handles;
    let now = etl::ingest(s, m).t.handles;
    lemma_one_or_none(t1, cs);
    assert forall|h: Seq<char>|
        lists::first_index(old, index::is_handle(h)) is Some implies lists::first_index(
        now,
        #[trigger] index::is_handle(h),
    ) is Some by {
        let p = index::is_handle(h);
        lists::lemma_first_index(old, p);
        lists::lemma_first_index(now, p);
        let i = lists::first_index(old, p)->0;
        assert(now[i] == old[i]);
    }
    match etl::sender_handle(m) {
        Some(h) => {
            if !s.handle_ids.contains_key(h) {
                let p = index::is_handle(h);
                lists::lemma_first_index(old, p);
                lists::lemma_first_index(now, p);
                if cs.len() > 0 {
                    assert(p(now[old.len() as int]));
                }
            }
        },
        None => {},
    }
}

/// After a scan the index knows the senders of all its messages.
proof fn lemma_scan_knows_senders(s: Progress, msgs: Seq<ExtractedMessage>, start: int)
    requires
        s.handle_ids == Map::<Seq<char>, i64>::empty(),
    ensures
        forall|i: int|
            0 <= i < msgs.len() && msgs[i].rowid > start ==> knows_sender(
                etl::ingested(s, msgs, start).t.handles,
                #[trigger] msgs[i],
            ),
        forall|h: Seq<char>| #[trigger]
            etl::ingested(s, msgs, start).handle_ids.contains_key(h) ==> lists::first_index(
                etl::ingested(s, msgs, start).t.handles,
                index::is_handle(h),
            ) is Some,
    decreases msgs.len(),
{
    if msgs.len() > 0 {
        let init = msgs.drop_last();
        let before = etl::ingested(s, init, start);
        let m = msgs.last();
        lemma_scan_knows_senders(s, init, start);
        if m.rowid > start {
            lemma_handles_grow(before, m);
            let now = etl::ingest(before, m);
            assert forall|h: Seq<char>| #[trigger]
                now.handle_ids.contains_key(h) implies lists::first_index(
                now.t.handles,
                index::is_handle(h),
            ) is Some by {
                if before.handle_ids.contains_key(h) {
                    assert(lists::first_index(before.t.handles, index::is_handle(h)) is Some);
                }
            }
            match etl::sender_handle(m) {
                Some(h) => {
                    assert(now.handle_ids.contains_key(h));
                },
                None => {},
            }
        }
        let now = etl::ingested(s, msgs, start);
        assert forall|i: int| 0 <= i < msgs.len() && msgs[i].rowid > start implies knows_sender(
            now.t.handles,
            #[trigger] msgs[i],
        ) by {
            if i < init.len() {
                assert(init[i] == msgs[i]);
                assert(knows_sender(before.t.handles, init[i]));
            }
        }
    }
}

proof fn lemma_chats_stay(s: Progress, m: ExtractedMessage, other: ExtractedMessage)
    requires
        knows_chat(s.t.chats, other),
        agree(m, other),
    ensures
        knows_chat(etl::ingest(s, m).t.chats, other),
{
    lemma_ingest_tables(s, m);
    let cs = etl::chat_step(s, m);
    let old = s.t.chats;
    let now = etl::ingest(s, m).t.chats;
    lemma_one_or_none(s.t, cs);
    if cs.len() > 0 && other.chat_guid is Some {
        let p = index::chat_has_guid(m.chat_guid->0@);
        let q = index::chat_has_guid(other.chat_guid->0@);
        lists::lemma_first_index(old, p);
        lists::lemma_first_index(old, q);
        let k = lists::first_index(old, q)->0;
        match lists::first_index(old, p) {
            Some(i) => {
                assert forall|j: int| 0 <= j < k implies !q(#[trigger] now[j]) by {
                    assert(!q(old[j]));
                    if j == i {
                        assert(now[j].guid == old[j].guid);
                    }
                }
                assert(now[k].guid == old[k].guid);
                if i == k {
                    assert(old[k].guid == m.chat_guid->0@);
                    assert(text::opt_view(m.chat_guid) == text::opt_view(other.chat_guid));
                }
            },
            None => {
                assert forall|j: int| 0 <= j < k implies !q(#[trigger] now[j]) by {
                    assert(!q(old[j]));
                    assert(now[j] == old[j]);
                }
                assert(now[k] == old[k]);
            },
        }
        lists::lemma_is_first_index(now, q, k);
    }
}

proof fn lemma_chat_comes_in(s: Progress, m: ExtractedMessage)
    requires
        m.chat_guid matches Some(g) ==> !s.chat_ids.contains_key(g@),
    ensures
        knows_chat(etl::ingest(s, m).t.chats, m),
{
    lemma_ingest_tables(s, m);
    let cs = etl::chat_step(s, m);
    let old = s.t.chats;
    let now = etl::ingest(s, m).t.chats;
    lemma_one_or_none(s.t, cs);
    if m.chat_guid is Some {
        let p = index::chat_has_guid(m.chat_guid->0@);
        lists::lemma_first_index(old, p);
        let k = match lists::first_index(old, p) {
            Some(i) => i,
            None => old.len() as int,
        };
        assert forall|j: int| 0 <= j < k implies !p(#[trigger] now[j]) by {
            assert(!p(old[j]));
            assert(now[j] == old[j]);
        }
        lists::lemma_is_first_index(now, p, k);
    }
}

/// After a scan of messages that agree on their chats the index knows the
/// chats of all of them.
proof fn lemma_scan_knows_chats(s: Progress, msgs: Seq<ExtractedMessage>, start: int)
    requires
        chats_agree(msgs),
        s.chat_ids == Map::<Seq<char>, i64>::empty(),
    ensures
        forall|i: int|
            0 <= i < msgs.len() && msgs[i].rowid > start ==> knows_chat(
                etl::ingested(s, msgs, start).t.chats,
                #[trigger] msgs[i],
            ),
    decreases msgs.len(),
{
    if msgs.len() > 0 {
        let init = msgs.drop_last();
        let before = etl::ingested(s, init, start);
        let now = etl::ingested(s, msgs, start);
        let n = msgs.len() - 1;
        let m = msgs[n];
        assert forall|i: int, j: int| 0 <= i < init.len() && 0 <= j < init.len() implies agree(
            #[trigger] init[i],
            #[trigger] init[j],
        ) by {
            assert(agree(msgs[i], msgs[j]));
        }
        lemma_scan_knows_chats(s, init, start);
        lemma_scan_has_chats(s, init, start);
        assert forall|i: int| 0 <= i < msgs.len() && msgs[i].rowid > start implies knows_chat(
            now.t.chats,
            #[trigger] msgs[i],
        ) by {
            if i < init.len() {
                assert(knows_chat(before.t.chats, init[i]));
                if m.rowid > start {
                    assert(agree(msgs[n], msgs[i]));
                    lemma_chats_stay(before, m, msgs[i]);
                }
            } else if m.chat_guid is Some && before.chat_ids.contains_key(m.chat_guid->0@) {
                let k = choose|k: int| is_of(init, start, k, m.chat_guid->0@);
                assert(knows_chat(before.t.chats, init[k]));
                assert(agree(msgs[k], msgs[n]));
                lemma_ingest_tables(before, m);
                lemma_one_or_none(before.t, etl::chat_step(before, m));
            } else {
                lemma_chat_comes_in(before, m);
            }
        }
    }
}

/// Taking in a message keeps every chat that the index has, and a chat that it
/// has is not inserted again.
proof fn lemma_chats_grow(s: Progress, m: ExtractedMessage)
    ensures
        ({
            let old = s.t.chats;
            let now = etl::ingest(s, m).t.chats;
            &&& old.len() <= now.len()
            &&& forall|j: int| 0 <= j < old.len() ==> (#[trigger] now[j]).guid == old[j].guid
            &&& has_chat(old, m) ==> now.len() == old.len()
            &&& (m.chat_guid matches Some(g) ==> !s.chat_ids.contains_key(g@)) ==> has_chat(now, m)
        }),
{
    lemma_ingest_tables(s, m);
    let cs = etl::chat_step(s, m);
    let old = s.t.chats;
    let now = etl::ingest(s, m).t.chats;
    lemma_one_or_none(s.t, cs);
    if cs.len() > 0 {
        let q = index::chat_has_guid(m.chat_guid->0@);
        lists::lemma_first_index(old, q);
        lists::lemma_first_index(now, q);
        match lists::first_index(old, q) {
            Some(i) => {
                assert(q(now[i]));
            },
            None => {
                assert(q(now[old.len() as int]));
            },
        }
    }
}

proof fn lemma_same_guids(old: Seq<ChatView>, now: Seq<ChatView>, m: ExtractedMessage)
    requires
        has_chat(old, m),
        old.len() <= now.len(),
        forall|j: int| 0 <= j < old.len() ==> (#[trigger] now[j]).guid == old[j].guid,
    ensures
        has_chat(now, m),
{
    match m.chat_guid {
        Some(g) => {
            let q = index::chat_has_guid(g@);
            lists::lemma_first_index(old, q);
            lists::lemma_first_index(now, q);
            assert(q(now[lists::first_index(old, q)->0]));
        },
        None => {},
    }
}

/// After a scan the index has the chats of all its messages.
proof fn lemma_scan_has_chats(s: Progress, msgs: Seq<ExtractedMessage>, start: int)
    requires
        s.chat_ids == Map::<Seq<char>, i64>::empty(),
    ensures
        forall|i: int|
            0 <= i < msgs.len() && msgs[i].rowid > start ==> has_chat(
                etl::ingested(s, msgs, start).t.chats,
                #[trigger] msgs[i],
            ),
        forall|g: Seq<char>| #[trigger]
            etl::ingested(s, msgs, start).chat_ids.contains_key(g) ==> exists|i: int|
                is_of(msgs, start, i, g),
    decreases msgs.len(),
{
    if msgs.len() > 0 {
        let init = msgs.drop_last();
        let before = etl::ingested(s, init, start);
        let now = etl::ingested(s, msgs, start);
        let n = msgs.len() - 1;
        let m = msgs[n];
        lemma_scan_has_chats(s, init, start);
        lemma_chats_grow(before, m);
        assert forall|i: int| 0 <= i < msgs.len() && msgs[i].rowid > start implies has_chat(
            now.t.chats,
            #[trigger] msgs[i],
        ) by {
            if i < init.len() {
                assert(has_chat(before.t.chats, init[i]));
                lemma_same_guids(before.t.chats, now.t.chats, msgs[i]);
            } else if m.chat_guid is Some && before.chat_ids.contains_key(m.chat_guid->0@) {
                let k = choose|k: int| is_of(init, start, k, m.chat_guid->0@);
                assert(has_chat(before.t.chats, init[k]));
                lemma_same_guids(before.t.chats, now.t.chats, m);
            }
        }
        assert forall|g: Seq<char>| #[trigger] now.chat_ids.contains_key(g) implies exists|i: int|
            is_of(msgs, start, i, g) by {
            if before.chat_ids.contains_key(g) {
                let k = choose|k: int| is_of(init, start, k, g);
                assert(is_of(msgs, start, k, g));
            } else {
                assert(is_of(msgs, start, n, g));
            }
        }
    }
}

/// A scan of messages whose chats the index has inserts no chat.
proof fn lemma_scan_inserts_no_chat(s: Progress, msgs: Seq<ExtractedMessage>, start: int)
    requires
        forall|i: int|
            0 <= i < msgs.len() && msgs[i].rowid > start ==> has_chat(
                s.t.chats,
                #[trigger] msgs[i],
            ),
    ensures
        ({
            let now = etl::ingested(s, msgs, start).t.chats;
            &&& now.len() == s.t.chats.len()
            &&& forall|j: int| 0 <= j < now.len() ==> (#[trigger] now[j]).guid == s.t.chats[j].guid
        }),
    decreases msgs.len(),
{
    if msgs.len() > 0 {
        let init = msgs.drop_last();
        let before = etl::ingested(s, init, start);
        let n = msgs.len() - 1;
        assert forall|i: int| 0 <= i < init.len() && init[i].rowid > start implies has_chat(
            s.t.chats,
            #[trigger] init[i],
        ) by {
            assert(has_chat(s.t.chats, msgs[i]));
        }
        lemma_scan_inserts_no_chat(s, init, start);
        if msgs[n].rowid > start {
            lemma_same_guids(s.t.chats, before.t.chats, msgs[n]);
            lemma_chats_grow(before, msgs[n]);
            let now = etl::ingested(s, msgs, start).t.chats;
            assert forall|j: int| 0 <= j < now.len() implies (#[trigger] now[j]).guid
                == s.t.chats[j].guid by {
                assert(before.t.chats[j].guid == s.t.chats[j].guid);
            }
        }
    }
}

/// A scan of messages whose senders and chats the index knows changes neither
/// handles nor chats; and no scan changes chunks, vectors or the model.
proof fn lemma_known_scan(s: Progress, msgs: Seq<ExtractedMessage>, start: int)
    ensures
        etl::ingested(s, msgs, start).t.chunks == s.t.chunks,
        etl::ingested(s, msgs, start).t.embeddings == s.t.embeddings,
        etl::ingested(s, msgs, start).t.model == s.t.model,
        (forall|i: int|
            0 <= i < msgs.len() && msgs[i].rowid > start ==> knows_sender(
                s.t.handles,
                #[trigger] msgs[i],
            )) ==> etl::ingested(s, msgs, start).t.handles == s.t.handles,
        (forall|i: int|
            0 <= i < msgs.len() && msgs[i].rowid > start ==> knows_chat(
                s.t.chats,
                #[trigger] msgs[i],
            )) ==> etl::ingested(s, msgs, start).t.chats == s.t.chats,
    decreases msgs.len(),
{
    if msgs.len() > 0 {
        let init = msgs.drop_last();
        let before = etl::ingested(s, init, start);
        let n = msgs.len() - 1;
        let m = msgs[n];
        lemma_known_scan(s, init, start);
        lemma_ingest_tables(before, m);
        let senders = forall|i: int|
            0 <= i < msgs.len() && msgs[i].rowid > start ==> knows_sender(
                s.t.handles,
                #[trigger] msgs[i],
            );
        let chats = forall|i: int|
            0 <= i < msgs.len() && msgs[i].rowid > start ==> knows_chat(
                s.t.chats,
                #[trigger] msgs[i],
            );
        let t1 = tables::replayed(before.t, etl::chat_step(before, m));
        lemma_one_or_none(before.t, etl::chat_step(before, m));
        lemma_one_or_none(t1, etl::sender_step(t1, before.handle_ids, m));
        if senders {
            assert forall|i: int| 0 <= i < init.len() && init[i].rowid > start implies knows_sender(
                s.t.handles,
                #[trigger] init[i],
            ) by {
                assert(knows_sender(s.t.handles, msgs[i]));
            }
        }
        if chats {
            assert forall|i: int| 0 <= i < init.len() && init[i].rowid > start implies knows_chat(
                s.t.chats,
                #[trigger] init[i],
            ) by {
                assert(knows_chat(s.t.chats, msgs[i]));
            }
            if m.rowid > start && m.chat_guid is Some {
                let p = index::chat_has_guid(m.chat_guid->0@);
                assert(knows_chat(s.t.chats, msgs[n]));
                lists::lemma_first_index(s.t.chats, p);
                let i = lists::first_index(s.t.chats, p)->0;
                assert(s.t.chats.update(i, s.t.chats[i]) =~= s.t.chats);
            }
        }
    }
}

proof fn lemma_no_sender_marks_no_chat(s: Seq<i64>, messages: Seq<MessageView>, senders: Seq<i64>)
    requires
        senders.len() == 0,
    ensures
        index::with_chats_of(s, messages, senders) == s,
    decreases messages.len(),
{
    if messages.len() > 0 {
        lemma_no_sender_marks_no_chat(s, messages.drop_last(), senders);
    }
}

proof fn lemma_start_rises(
    t: Tables,
    source: Seq<ExtractedMessage>,
    overlap: u32,
    p: ChunkParams,
    names: Option<Map<Seq<char>, Seq<char>>>,
)
    ensures
        etl::start_of(index::watermark_of(t.watermark), overlap) <= etl::start_of(
            index::watermark_of(laws::after_sync(t, source, overlap, p, names).watermark),
            overlap,
        ),
{
    let start = etl::start_of(index::watermark_of(t.watermark), overlap);
    let w = laws::scanned(t, source, overlap).watermark;
    laws::law_sync_result(t, source, overlap, p, names);
    laws::law_watermark_rises(etl::at_start(t), source, start);
    assert(i64::MIN <= w <= i64::MAX);
    numeric::law_decimal_round_trip(w as i64);
}

proof fn lemma_naming_keeps_senders(
    handles: Seq<HandleView>,
    names: Option<Map<Seq<char>, Seq<char>>>,
    m: ExtractedMessage,
)
    requires
        knows_sender(handles, m),
    ensures
        knows_sender(laws::named(handles, names), m),
{
    match etl::sender_handle(m) {
        Some(h) => {
            let p = index::is_handle(h);
            let named = laws::named(handles, names);
            lists::lemma_first_index(handles, p);
            lists::lemma_first_index(named, p);
            let i = lists::first_index(handles, p)->0;
            assert(named[i].handle == handles[i].handle);
        },
        None => {},
    }
}

proof fn lemma_naming_again(
    handles: Seq<HandleView>,
    names: Option<Map<Seq<char>, Seq<char>>>,
)
    ensures
        laws::named(laws::named(handles, names), names) == laws::named(handles, names),
{
    assert(laws::named(laws::named(handles, names), names) =~= laws::named(handles, names));
}

/// A sync under the names that the handles have, of messages that mark no
/// chat, cuts no chat anew.
proof fn lemma_nothing_to_cut(s: Progress, handles: Seq<HandleView>, p: ChunkParams, names: Option<
    Map<Seq<char>, Seq<char>>,
>)
    requires
        s.dirty.len() == 0,
        s.t.handles == laws::named(handles, names),
    ensures
        ({
            let t2 = tables::replayed(s.t, etl::naming(s.t, names));
            let dirty = etl::dirty_after_naming(s.dirty, s.t, names);
            &&& dirty.len() == 0
            &&& tables::replayed(t2, etl::rechunking(t2, dirty, p)).chunks == s.t.chunks
        }),
{
    let t2 = tables::replayed(s.t, etl::naming(s.t, names));
    let dirty = etl::dirty_after_naming(s.dirty, s.t, names);
    match names {
        Some(book) => {
            laws::law_same_names_rename_nothing(handles, book);
            lemma_no_sender_marks_no_chat(
                s.dirty,
                s.t.messages,
                index::renamed_ids(s.t.handles, book),
            );
            lemma_one_or_none(s.t, etl::naming(s.t, names));
        },
        None => {
            lemma_one_or_none(s.t, etl::naming(s.t, names));
        },
    }
    assert(dirty.len() == 0);
    lemma_one_or_none(t2, etl::rechunking(t2, dirty, p));
}

/// A second sync of the same source, under the same contact book, leaves the
/// index as it is. It neither adds a chat nor drops one, and where the messages
/// agree on their chats it leaves those as they are too; and where the first
/// sync left any chunk, it cuts no chat anew. (An index with messages and no
/// chunk has every chat cut anew.)
pub proof fn law_second_sync_changes_nothing(
    t: Tables,
    source: Seq<ExtractedMessage>,
    overlap: u32,
    p: ChunkParams,
    names: Option<Map<Seq<char>, Seq<char>>>,
)
    requires
        laws::distinct_guids(source),
    ensures
        ({
            let first = laws::after_sync(t, source, overlap, p, names);
            let second = laws::after_sync(first, source, overlap, p, names);
            &&& second.messages == first.messages
            &&& second.handles == first.handles
            &&& second.embeddings == first.embeddings
            &&& second.watermark == first.watermark
            &&& second.model == first.model
            &&& second.chats.len() == first.chats.len()
            &&& chats_agree(source) ==> second.chats == first.chats
            &&& first.chunks.len() > 0 ==> {
                let s = laws::scanned(first, source, overlap);
                &&& second.chunks == first.chunks
                &&& etl::dirty_after_naming(s.dirty, s.t, names).len() == 0
            }
        }),
{
    let first = laws::after_sync(t, source, overlap, p, names);
    let second = laws::after_sync(first, source, overlap, p, names);
    let s1 = laws::scanned(t, source, overlap);
    let s2 = laws::scanned(first, source, overlap);
    let start1 = etl::start_of(index::watermark_of(t.watermark), overlap);
    let start2 = etl::start_of(index::watermark_of(first.watermark), overlap);
    laws::law_sync_result(t, source, overlap, p, names);
    laws::law_sync_result(first, source, overlap, p, names);
    laws::law_second_sync_is_idempotent(t, source, overlap, p, names);
    laws::law_watermark_rises(etl::at_start(t), source, start1);
    lemma_start_rises(t, source, overlap, p, names);
    lemma_scan_knows_senders(etl::at_start(t), source, start1);
    assert forall|i: int| 0 <= i < source.len() && source[i].rowid > start2 implies knows_sender(
        first.handles,
        #[trigger] source[i],
    ) by {
        assert(knows_sender(s1.t.handles, source[i]));
        lemma_naming_keeps_senders(s1.t.handles, names, source[i]);
    }
    lemma_scan_has_chats(etl::at_start(t), source, start1);
    assert forall|i: int| 0 <= i < source.len() && source[i].rowid > start2 implies has_chat(
        first.chats,
        #[trigger] source[i],
    ) by {
        assert(has_chat(s1.t.chats, source[i]));
    }
    lemma_scan_inserts_no_chat(etl::at_start(first), source, start2);
    if chats_agree(source) {
        lemma_scan_knows_chats(etl::at_start(t), source, start1);
        assert forall|i: int| 0 <= i < source.len() && source[i].rowid > start2 implies knows_chat(
            first.chats,
            #[trigger] source[i],
        ) by {
            assert(knows_chat(s1.t.chats, source[i]));
        }
    }
    lemma_known_scan(etl::at_start(first), source, start2);
    lemma_naming_again(s1.t.handles, names);
    if first.chunks.len() > 0 {
        lemma_nothing_to_cut(s2, s1.t.handles, p, names);
    }
}

/// What the report of a second sync says: nothing was inserted or updated, all
/// that was scanned was unchanged, the watermark stands where the first sync
/// left it, and so do the totals; and where the first sync left any chunk, no
/// chat was cut anew.
pub proof fn law_second_report(
    t: Tables,
    source: Seq<ExtractedMessage>,
    overlap: u32,
    p: ChunkParams,
    names: Option<Map<Seq<char>, Seq<char>>>,
    a: SyncReport,
    b: SyncReport,
)
    requires
        laws::distinct_guids(source),
        ({
            let first = laws::after_sync(t, source, overlap, p, names);
            let second = laws::after_sync(first, source, overlap, p, names);
            &&& etl::is_sync_report(a, t, source, overlap, names, first)
            &&& etl::is_sync_report(b, first, source, overlap, names, second)
        }),
    ensures
        b.inserted == 0,
        b.updated == 0,
        b.unchanged == b.scanned,
        b.watermark_before == a.watermark_after,
        b.watermark_after == a.watermark_after,
        b.total_messages == a.total_messages,
        b.total_chats == a.total_chats,
        b.total_handles == a.total_handles,
        b.named_handles == a.named_handles,
        a.total_chunks > 0 ==> b.rechunked_chats == 0 && b.total_chunks == a.total_chunks,
{
    let first = laws::after_sync(t, source, overlap, p, names);
    let s1 = laws::scanned(t, source, overlap);
    let s2 = laws::scanned(first, source, overlap);
    law_second_sync_changes_nothing(t, source, overlap, p, names);
    laws::law_second_sync_is_idempotent(t, source, overlap, p, names);
    laws::law_sync_result(t, source, overlap, p, names);
    laws::law_sync_result(first, source, overlap, p, names);
    numeric::law_decimal_round_trip(a.watermark_after);
    numeric::law_decimal_round_trip(b.watermark_after);
    assert(numeric::decimal_int(s2.watermark) == numeric::decimal_int(s1.watermark));
}

} // verus!
