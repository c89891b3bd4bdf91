//! The destination index: a normalized, private copy of the Messages history.
//!
//! The index is held as tables. Every operation that changes them says which
//! changes it makes and notes them in a journal, so that the file that keeps
//! the index can follow: replaying the journal on the tables as they were
//! gives the tables as they are.
use crate::chunk;
use crate::contacts;
use crate::chunk::{chunk_messages, ChunkInput, ChunkParams, ChunkView, InputView};
use crate::contacts::ContactBook;
use crate::digest;
use crate::filling;
use crate::lists;
use crate::model::ExtractedMessage;
use crate::numeric;
use crate::numeric::{decimal_i64, parse_i64};
use crate::order;
use crate::recut;
use crate::tables::{
    Change, ChangeView, ChatRow, ChatView, ChunkRow, ChunkRowView, EmbeddingRow, EmbeddingView,
    HandleRow, HandleView, MessageRow, MessageView, Tables,
};
use crate::tables;
use crate::text;
use crate::text::{clone_opt, str_eq};
use crate::time::UtcTime;
use vstd::hash_map::StringHashMap;
use vstd::prelude::*;
use vstd::string::*;

verus! {

/// Current destination schema version, stored in `PRAGMA user_version`.
/// Additive changes only so far: opening an older index under a newer binary
/// creates the missing tables in place.
pub const SCHEMA_VERSION: i32 = 3;

/// The tables of the stored index. Changes so far only add: opening an older
/// index creates the missing tables in place.
pub const SCHEMA_SQL: &'static str = "
CREATE TABLE IF NOT EXISTS meta (
  key   TEXT PRIMARY KEY,
  value TEXT NOT NULL
);
CREATE TABLE IF NOT EXISTS chats (
  id           INTEGER PRIMARY KEY,
  guid         TEXT NOT NULL UNIQUE,
  is_group     INTEGER,
  display_name TEXT
);
CREATE TABLE IF NOT EXISTS handles (
  id     INTEGER PRIMARY KEY,
  handle TEXT NOT NULL UNIQUE
);
CREATE TABLE IF NOT EXISTS handle_names (
  handle_id INTEGER PRIMARY KEY REFERENCES handles(id),
  name      TEXT NOT NULL
);
CREATE TABLE IF NOT EXISTS messages (
  id              INTEGER PRIMARY KEY,
  guid            TEXT NOT NULL UNIQUE,
  source_rowid    INTEGER NOT NULL,
  chat_id         INTEGER REFERENCES chats(id),
  sender_id       INTEGER REFERENCES handles(id),
  is_from_me      INTEGER NOT NULL DEFAULT 0,
  sent_at_ms      INTEGER,
  text            TEXT,
  service         TEXT,
  reply_to_guid   TEXT,
  edited_at_ms    INTEGER,
  retracted_at_ms INTEGER,
  is_tapback      INTEGER NOT NULL DEFAULT 0,
  associated_type INTEGER,
  is_system_event INTEGER NOT NULL DEFAULT 0,
  content_hash    TEXT NOT NULL
);
CREATE INDEX IF NOT EXISTS messages_chat_sent ON messages(chat_id, sent_at_ms);
CREATE INDEX IF NOT EXISTS messages_source_rowid ON messages(source_rowid);
CREATE TABLE IF NOT EXISTS chunks (
  id            INTEGER PRIMARY KEY,
  chat_id       INTEGER NOT NULL REFERENCES chats(id),
  seq           INTEGER NOT NULL,
  started_at_ms INTEGER,
  ended_at_ms   INTEGER,
  message_count INTEGER NOT NULL,
  text          TEXT NOT NULL,
  content_hash  TEXT NOT NULL
);
CREATE INDEX IF NOT EXISTS chunks_chat ON chunks(chat_id, seq);
CREATE INDEX IF NOT EXISTS chunks_hash ON chunks(content_hash);
CREATE VIRTUAL TABLE IF NOT EXISTS chunks_fts USING fts5(text);
CREATE TABLE IF NOT EXISTS embeddings (
  chunk_hash TEXT PRIMARY KEY,
  model      TEXT NOT NULL,
  vector     BLOB NOT NULL
);
";

/// Where the highest ingested ROWID is kept.
pub const WATERMARK_KEY: &'static str = "source_watermark_rowid";

/// Where the embedding model is kept.
pub const EMBEDDING_MODEL_KEY: &'static str = "embedding_model";

/// Why the index could not be used.
#[derive(Debug, Clone, PartialEq, Eq)]
pub enum IndexError {
    CreateDir { path: String, source: String },
    Open { path: String, source: String },
    NewerSchema { path: String, found: i32, supported: i32 },
    Query(String),
    Permissions { path: String, source: String },
    /// A table has used up its ids.
    Full,
}

impl IndexError {
    /// What the error says.
    pub open spec fn text(self) -> Seq<char> {
        match self {
            IndexError::CreateDir { path, source } => "could not create index directory "@ + path@
                + ": "@ + source@,
            IndexError::Open { path, source } => "could not open index database "@ + path@ + ": "@
                + source@,
            IndexError::NewerSchema { path, found, supported } => "index database "@ + path@
                + " has schema version "@ + numeric::decimal_int(found as int)
                + ", newer than this binary supports ("@ + numeric::decimal_int(supported as int)
                + ") — upgrade ai-imessage"@,
            IndexError::Query(source) => "index database query failed: "@ + source@,
            IndexError::Permissions { path, source } => "could not restrict permissions on "@ + path@
                + ": "@ + source@,
            IndexError::Full => "index database is full"@,
        }
    }

    /// What the error says.
    pub fn message(&self) -> (r: String)
        ensures
            r@ == self.text(),
    {
        match self {
            IndexError::CreateDir { path, source } => {
                let mut s = "could not create index directory ".to_owned();
                s.append(path.as_str());
                s.append(": ");
                s.append(source.as_str());
                s
            },
            IndexError::Open { path, source } => {
                let mut s = "could not open index database ".to_owned();
                s.append(path.as_str());
                s.append(": ");
                s.append(source.as_str());
                s
            },
            IndexError::NewerSchema { path, found, supported } => {
                let mut s = "index database ".to_owned();
                s.append(path.as_str());
                s.append(" has schema version ");
                s.append(decimal_i64(*found as i64).as_str());
                s.append(", newer than this binary supports (");
                s.append(decimal_i64(*supported as i64).as_str());
                s.append(") — upgrade ai-imessage");
                s
            },
            IndexError::Query(source) => {
                let mut s = "index database query failed: ".to_owned();
                s.append(source.as_str());
                s
            },
            IndexError::Permissions { path, source } => {
                let mut s = "could not restrict permissions on ".to_owned();
                s.append(path.as_str());
                s.append(": ");
                s.append(source.as_str());
                s
            },
            IndexError::Full => "index database is full".to_owned(),
        }
    }
}

/// Whether an index of schema version `found` may be opened: one newer than
/// this library understands is refused, never migrated down.
pub fn check_schema_version(path: &str, found: i32) -> (r: Result<(), IndexError>)
    ensures
        r is Ok <==> found <= SCHEMA_VERSION,
        r matches Err(e) ==> (e matches IndexError::NewerSchema { path: p, found: f, supported }
            && p@ == path@ && f == found && supported == SCHEMA_VERSION),
{
    if found > SCHEMA_VERSION {
        Err(
            IndexError::NewerSchema { path: path.to_owned(), found, supported: SCHEMA_VERSION },
        )
    } else {
        Ok(())
    }
}

/// Outcome of upserting one message.
#[derive(Debug, Clone, Copy, PartialEq, Eq, Structural)]
pub enum Upsert {
    Inserted,
    Updated,
    Unchanged,
}

/// One search result.
#[derive(Debug, Clone, PartialEq, Eq)]
pub struct SearchHit {
    pub chunk_id: i64,
    /// Chat display name, or a participant, or the chat GUID.
    pub chat_label: String,
    pub started_at_ms: Option<i64>,
    pub ended_at_ms: Option<i64>,
    pub message_count: i64,
    /// Keyword search: a snippet with matches wrapped in «guillemets». Vector
    /// search: the start of the chunk.
    pub snippet: String,
    /// Cosine similarity, vector search only: the bits of a positive
    /// single-precision number.
    pub score: Option<u32>,
}

/// The contents of a [`SearchHit`].
pub struct HitView {
    pub chunk_id: i64,
    pub chat_label: Seq<char>,
    pub started_at_ms: Option<i64>,
    pub ended_at_ms: Option<i64>,
    pub message_count: i64,
    pub snippet: Seq<char>,
    pub score: Option<u32>,
}

impl View for SearchHit {
    type V = HitView;

    open spec fn view(&self) -> HitView {
        HitView {
            chunk_id: self.chunk_id,
            chat_label: self.chat_label@,
            started_at_ms: self.started_at_ms,
            ended_at_ms: self.ended_at_ms,
            message_count: self.message_count,
            snippet: self.snippet@,
            score: self.score,
        }
    }
}

/// The contents of a list of hits.
pub open spec fn hit_views(hits: Seq<SearchHit>) -> Seq<HitView> {
    hits.map_values(|h: SearchHit| h@)
}

/// The condition that a chat has a guid.
pub open spec fn chat_has_guid(guid: Seq<char>) -> spec_fn(ChatView) -> bool {
    |c: ChatView| c.guid == guid
}

/// The condition that a row stands for a handle.
pub open spec fn is_handle(handle: Seq<char>) -> spec_fn(HandleView) -> bool {
    |h: HandleView| h.handle == handle
}

/// The condition that a message has a guid.
pub open spec fn message_has_guid(guid: Seq<char>) -> spec_fn(MessageView) -> bool {
    |m: MessageView| m.guid == guid
}

/// The highest id of a list of chats, 0 if there is none above it.
pub open spec fn top_chat(rows: Seq<ChatView>) -> int
    decreases rows.len(),
{
    if rows.len() == 0 {
        0
    } else {
        larger(top_chat(rows.drop_last()), rows.last().id as int)
    }
}

/// The highest id of a list of handles, 0 if there is none above it.
pub open spec fn top_handle(rows: Seq<HandleView>) -> int
    decreases rows.len(),
{
    if rows.len() == 0 {
        0
    } else {
        larger(top_handle(rows.drop_last()), rows.last().id as int)
    }
}

/// The highest id of a list of messages, 0 if there is none above it.
pub open spec fn top_message(rows: Seq<MessageView>) -> int
    decreases rows.len(),
{
    if rows.len() == 0 {
        0
    } else {
        larger(top_message(rows.drop_last()), rows.last().id as int)
    }
}

/// The highest id of a list of chunks, 0 if there is none above it.
pub open spec fn top_chunk(rows: Seq<ChunkRowView>) -> int
    decreases rows.len(),
{
    if rows.len() == 0 {
        0
    } else {
        larger(top_chunk(rows.drop_last()), rows.last().id as int)
    }
}

/// The larger of two numbers.
pub open spec fn larger(a: int, b: int) -> int {
    if a < b {
        b
    } else {
        a
    }
}

/// The milliseconds of an optional instant.
pub open spec fn millis_of(t: Option<UtcTime>) -> Option<i64> {
    match t {
        Some(t) => Some(t.millis() as i64),
        None => None,
    }
}

fn opt_millis(t: &Option<UtcTime>) -> (r: Option<i64>)
    ensures
        r == millis_of(*t),
{
    match t {
        Some(t) => Some(t.timestamp_millis()),
        None => None,
    }
}

/// The content hash of a message.
pub open spec fn hash_of(m: ExtractedMessage) -> Seq<char> {
    digest::hex_digest_of(digest::terminated(m.content()))
}

/// The changes that insert a chat or refresh the one with its guid.
pub open spec fn chat_changes(
    t: Tables,
    guid: Seq<char>,
    is_group: Option<bool>,
    display_name: Option<Seq<char>>,
) -> Seq<ChangeView> {
    match lists::first_index(t.chats, chat_has_guid(guid)) {
        Some(i) => seq![
            ChangeView::UpdateChat(
                i,
                ChatView { id: t.chats[i].id, guid, is_group, display_name },
            ),
        ],
        None => seq![
            ChangeView::InsertChat(
                ChatView { id: (top_chat(t.chats) + 1) as i64, guid, is_group, display_name },
            ),
        ],
    }
}

/// The id of the chat with a guid: the one it has, or the next.
pub open spec fn chat_id_for(t: Tables, guid: Seq<char>) -> int {
    match lists::first_index(t.chats, chat_has_guid(guid)) {
        Some(i) => t.chats[i].id as int,
        None => top_chat(t.chats) + 1,
    }
}

/// The changes that insert a handle that is not there.
pub open spec fn handle_changes(t: Tables, handle: Seq<char>) -> Seq<ChangeView> {
    match lists::first_index(t.handles, is_handle(handle)) {
        Some(i) => Seq::empty(),
        None => seq![
            ChangeView::InsertHandle(
                HandleView { id: (top_handle(t.handles) + 1) as i64, handle, name: None },
            ),
        ],
    }
}

/// The id of a handle: the one it has, or the next.
pub open spec fn handle_id_for(t: Tables, handle: Seq<char>) -> int {
    match lists::first_index(t.handles, is_handle(handle)) {
        Some(i) => t.handles[i].id as int,
        None => top_handle(t.handles) + 1,
    }
}

/// What becomes of a message: it is inserted when its guid is new, updated
/// when its content hash has changed, and else left alone.
pub open spec fn upsert_outcome(t: Tables, m: ExtractedMessage) -> Upsert {
    match lists::first_index(t.messages, message_has_guid(m.guid@)) {
        None => Upsert::Inserted,
        Some(i) => if t.messages[i].content_hash == hash_of(m) {
            Upsert::Unchanged
        } else {
            Upsert::Updated
        },
    }
}

/// The row of a message that is new.
pub open spec fn new_message(
    t: Tables,
    m: ExtractedMessage,
    chat_id: Option<i64>,
    sender_id: Option<i64>,
) -> MessageView {
    MessageView {
        id: (top_message(t.messages) + 1) as i64,
        guid: m.guid@,
        source_rowid: m.rowid,
        chat_id,
        sender_id,
        is_from_me: m.is_from_me,
        sent_at_ms: millis_of(m.sent_at),
        text: text::opt_view(m.text),
        service: text::opt_view(m.service),
        reply_to_guid: text::opt_view(m.reply_to_guid),
        edited_at_ms: millis_of(m.edited_at),
        retracted_at_ms: millis_of(m.retracted_at),
        is_tapback: m.is_tapback,
        associated_type: m.associated_type,
        is_system_event: m.is_system_event,
        content_hash: hash_of(m),
    }
}

/// The row of a message whose content has changed: text and times follow the
/// source, so that the cleared body of a retracted message overwrites the
/// stored one.
pub open spec fn refreshed_message(
    row: MessageView,
    m: ExtractedMessage,
    chat_id: Option<i64>,
    sender_id: Option<i64>,
) -> MessageView {
    MessageView {
        source_rowid: m.rowid,
        chat_id,
        sender_id,
        sent_at_ms: millis_of(m.sent_at),
        text: text::opt_view(m.text),
        edited_at_ms: millis_of(m.edited_at),
        retracted_at_ms: millis_of(m.retracted_at),
        content_hash: hash_of(m),
        ..row
    }
}

/// The changes that bring a message into the index.
pub open spec fn message_changes(
    t: Tables,
    m: ExtractedMessage,
    chat_id: Option<i64>,
    sender_id: Option<i64>,
) -> Seq<ChangeView> {
    match lists::first_index(t.messages, message_has_guid(m.guid@)) {
        None => seq![ChangeView::InsertMessage(new_message(t, m, chat_id, sender_id))],
        Some(i) => if t.messages[i].content_hash == hash_of(m) {
            Seq::empty()
        } else {
            seq![
                ChangeView::UpdateMessage(
                    i,
                    refreshed_message(t.messages[i], m, chat_id, sender_id),
                ),
            ]
        },
    }
}

/// The messages of the index, found by their guid.
struct MessageTable {
    rows: Vec<MessageRow>,
    /// The first position of each guid.
    by_guid: StringHashMap<usize>,
    top: i64,
}

impl MessageTable {
    spec fn wf(self) -> bool {
        let v = tables::message_views(self.rows@);
        &&& self.top == top_message(v)
        &&& forall|g: Seq<char>| #[trigger]
            self.by_guid@.contains_key(g) <==> lists::first_index(v, message_has_guid(g)) is Some
        &&& forall|g: Seq<char>| #[trigger]
            self.by_guid@.contains_key(g) ==> lists::first_index(v, message_has_guid(g)) == Some(
                self.by_guid@[g] as int,
            )
    }

    fn new() -> (r: MessageTable)
        ensures
            r.wf(),
            r.rows@ == Seq::<MessageRow>::empty(),
    {
        MessageTable { rows: Vec::new(), by_guid: StringHashMap::new(), top: 0 }
    }

    fn find(&self, guid: &str) -> (r: Option<usize>)
        requires
            self.wf(),
        ensures
            r is Some <==> lists::first_index(
                tables::message_views(self.rows@),
                message_has_guid(guid@),
            ) is Some,
            r matches Some(i) ==> i < self.rows@.len() && lists::first_index(
                tables::message_views(self.rows@),
                message_has_guid(guid@),
            ) == Some(i as int),
    {
        proof {
            lists::lemma_first_index(
                tables::message_views(self.rows@),
                message_has_guid(guid@),
            );
        }
        match self.by_guid.get(guid) {
            Some(i) => Some(*i),
            None => None,
        }
    }

    fn push(&mut self, row: MessageRow)
        requires
            old(self).wf(),
        ensures
            final(self).wf(),
            final(self).rows@ == old(self).rows@.push(row),
    {
        let ghost v = tables::message_views(self.rows@);
        let ghost w = v.push(row@);
        let ghost before = self.by_guid@;
        let ghost guid = row.guid@;
        let at: usize = self.rows.len();
        let known = self.by_guid.contains_key(row.guid.as_str());
        if !known {
            self.by_guid.insert(row.guid.clone(), at);
        }
        if self.top < row.id {
            self.top = row.id;
        }
        self.rows.push(row);
        proof {
            assert(tables::message_views(self.rows@) =~= w);
            assert(w.drop_last() =~= v);
            assert forall|g: Seq<char>| #[trigger] self.by_guid@.contains_key(g) <==> lists::first_index(
                w,
                message_has_guid(g),
            ) is Some by {
                assert(before.contains_key(g) <==> lists::first_index(v, message_has_guid(g)) is Some);
            }
            assert forall|g: Seq<char>| #[trigger]
                self.by_guid@.contains_key(g) implies lists::first_index(w, message_has_guid(g))
                == Some(self.by_guid@[g] as int) by {
                assert(before.contains_key(g) <==> lists::first_index(v, message_has_guid(g)) is Some);
            }
        }
    }

    fn replace(&mut self, at: usize, row: MessageRow)
        requires
            old(self).wf(),
            at < old(self).rows@.len(),
            row@.guid == old(self).rows@[at as int]@.guid,
            row@.id == old(self).rows@[at as int]@.id,
        ensures
            final(self).wf(),
            final(self).rows@ == old(self).rows@.update(at as int, row),
    {
        let ghost v = tables::message_views(self.rows@);
        let ghost w = v.update(at as int, row@);
        self.rows.set(at, row);
        proof {
            assert(tables::message_views(self.rows@) =~= w);
            lemma_same_ids(v, w);
            assert forall|g: Seq<char>| lists::first_index(w, message_has_guid(g))
                == lists::first_index(v, message_has_guid(g)) by {
                lemma_same_guids(v, w, g);
            }
        }
    }
}

proof fn lemma_same_guids(v: Seq<MessageView>, w: Seq<MessageView>, g: Seq<char>)
    requires
        v.len() == w.len(),
        forall|i: int| 0 <= i < v.len() ==> (#[trigger] v[i]).guid == w[i].guid,
    ensures
        lists::first_index(w, message_has_guid(g)) == lists::first_index(v, message_has_guid(g)),
    decreases v.len(),
{
    if v.len() > 0 {
        let a = v.drop_last();
        let b = w.drop_last();
        assert forall|i: int| 0 <= i < a.len() implies (#[trigger] a[i]).guid == b[i].guid by {
            assert(a[i] == v[i] && b[i] == w[i]);
        }
        lemma_same_guids(a, b, g);
        assert(v.last() == v[v.len() - 1] && w.last() == w[w.len() - 1]);
    }
}

proof fn lemma_same_ids(v: Seq<MessageView>, w: Seq<MessageView>)
    requires
        v.len() == w.len(),
        forall|i: int| 0 <= i < v.len() ==> (#[trigger] v[i]).id == w[i].id,
    ensures
        top_message(v) == top_message(w),
    decreases v.len(),
{
    if v.len() > 0 {
        let a = v.drop_last();
        let b = w.drop_last();
        assert forall|i: int| 0 <= i < a.len() implies (#[trigger] a[i]).id == b[i].id by {
            assert(a[i] == v[i] && b[i] == w[i]);
        }
        lemma_same_ids(a, b);
        assert(v.last() == v[v.len() - 1] && w.last() == w[w.len() - 1]);
    }
}

/// The index.
pub struct IndexDb {
    chats: Vec<ChatRow>,
    handles: Vec<HandleRow>,
    messages: MessageTable,
    chunks: Vec<ChunkRow>,
    embeddings: Vec<EmbeddingRow>,
    watermark: Option<String>,
    model: Option<String>,
    journal: Vec<Change>,
}

impl View for IndexDb {
    type V = Tables;

    closed spec fn view(&self) -> Tables {
        Tables {
            chats: tables::chat_views(self.chats@),
            handles: tables::handle_views(self.handles@),
            messages: tables::message_views(self.messages.rows@),
            chunks: tables::chunk_row_views(self.chunks@),
            embeddings: tables::embedding_views(self.embeddings@),
            watermark: text::opt_view(self.watermark),
            model: text::opt_view(self.model),
        }
    }
}

/// Whether an index went from one state to another by a list of changes,
/// which its journal took down.
pub open spec fn changed_by(before: IndexDb, now: IndexDb, cs: Seq<ChangeView>) -> bool {
    &&& now.wf()
    &&& now@ == tables::replayed(before@, cs)
    &&& now.journal_view() == before.journal_view() + cs
}

/// Changes made in turn.
pub proof fn lemma_changed_in_turn(
    a: IndexDb,
    b: IndexDb,
    c: IndexDb,
    first: Seq<ChangeView>,
    second: Seq<ChangeView>,
)
    requires
        changed_by(a, b, first),
        changed_by(b, c, second),
    ensures
        changed_by(a, c, first + second),
{
    tables::lemma_replay_concat(a@, first, second);
    assert(a.journal_view() + first + second =~= a.journal_view() + (first + second));
}

impl IndexDb {
    /// Whether the index is well formed.
    pub closed spec fn wf(self) -> bool {
        self.messages.wf()
    }

    /// The changes noted since the journal was last taken.
    pub closed spec fn journal_view(self) -> Seq<ChangeView> {
        tables::change_views(self.journal@)
    }

    /// An index that holds nothing.
    pub fn new() -> (r: IndexDb)
        ensures
            r.wf(),
            r@ == tables::empty_tables(),
            tables::keyed(r@),
            r.journal_view() == Seq::<ChangeView>::empty(),
    {
        let r = IndexDb {
            chats: Vec::new(),
            handles: Vec::new(),
            messages: MessageTable::new(),
            chunks: Vec::new(),
            embeddings: Vec::new(),
            watermark: None,
            model: None,
            journal: Vec::new(),
        };
        proof {
            assert(r@.chats =~= Seq::<ChatView>::empty());
            assert(r@.handles =~= Seq::<HandleView>::empty());
            assert(r@.messages =~= Seq::<MessageView>::empty());
            assert(r@.chunks =~= Seq::<ChunkRowView>::empty());
            assert(r@.embeddings =~= Seq::<EmbeddingView>::empty());
            assert(r.journal_view() =~= Seq::<ChangeView>::empty());
        }
        r
    }

    /// Hands out the changes noted so far and starts the journal afresh.
    pub fn take_journal(&mut self) -> (r: Vec<Change>)
        requires
            old(self).wf(),
        ensures
            final(self).wf(),
            final(self)@ == old(self)@,
            final(self).journal_view() == Seq::<ChangeView>::empty(),
            tables::change_views(r@) == old(self).journal_view(),
    {
        let mut r: Vec<Change> = Vec::new();
        r.append(&mut self.journal);
        proof {
            assert(tables::change_views(r@) =~= old(self).journal_view());
            assert(self.journal_view() =~= Seq::<ChangeView>::empty());
        }
        r
    }

    fn note(&mut self, c: Change)
        ensures
            final(self)@ == old(self)@,
            final(self).wf() == old(self).wf(),
            final(self).journal_view() == old(self).journal_view().push(c@),
            final(self).chats@ == old(self).chats@,
            final(self).handles@ == old(self).handles@,
            final(self).messages == old(self).messages,
            final(self).chunks@ == old(self).chunks@,
            final(self).embeddings@ == old(self).embeddings@,
    {
        self.journal.push(c);
        proof {
            assert(self.journal_view() =~= old(self).journal_view().push(c@));
        }
    }

    fn find_chat(&self, guid: &str) -> (r: Option<usize>)
        ensures
            r is Some <==> lists::first_index(self@.chats, chat_has_guid(guid@)) is Some,
            r matches Some(i) ==> i < self.chats@.len() && lists::first_index(
                self@.chats,
                chat_has_guid(guid@),
            ) == Some(i as int),
    {
        let ghost p = chat_has_guid(guid@);
        let mut i: usize = 0;
        while i < self.chats.len()
            invariant
                i <= self.chats@.len(),
                p == chat_has_guid(guid@),
                forall|j: int| 0 <= j < i ==> !p(#[trigger] self@.chats[j]),
            decreases self.chats@.len() - i,
        {
            assert(self@.chats[i as int] == self.chats@[i as int]@);
            if str_eq(self.chats[i].guid.as_str(), guid) {
                proof {
                    lists::lemma_is_first_index(self@.chats, p, i as int);
                }
                return Some(i);
            }
            i = i + 1;
        }
        proof {
            lists::lemma_no_first_index(self@.chats, p);
        }
        None
    }

    fn find_handle(&self, handle: &str) -> (r: Option<usize>)
        ensures
            r is Some <==> lists::first_index(self@.handles, is_handle(handle@)) is Some,
            r matches Some(i) ==> i < self.handles@.len() && lists::first_index(
                self@.handles,
                is_handle(handle@),
            ) == Some(i as int),
    {
        let ghost p = is_handle(handle@);
        let mut i: usize = 0;
        while i < self.handles.len()
            invariant
                i <= self.handles@.len(),
                p == is_handle(handle@),
                forall|j: int| 0 <= j < i ==> !p(#[trigger] self@.handles[j]),
            decreases self.handles@.len() - i,
        {
            assert(self@.handles[i as int] == self.handles@[i as int]@);
            if str_eq(self.handles[i].handle.as_str(), handle) {
                proof {
                    lists::lemma_is_first_index(self@.handles, p, i as int);
                }
                return Some(i);
            }
            i = i + 1;
        }
        proof {
            lists::lemma_no_first_index(self@.handles, p);
        }
        None
    }

    fn chat_top(&self) -> (r: i64)
        ensures
            r == top_chat(self@.chats),
    {
        let mut top: i64 = 0;
        let mut i: usize = 0;
        while i < self.chats.len()
            invariant
                i <= self.chats@.len(),
                top == top_chat(self@.chats.take(i as int)),
            decreases self.chats@.len() - i,
        {
            proof {
                assert(self@.chats.take(i + 1).drop_last() =~= self@.chats.take(i as int));
                assert(self@.chats[i as int] == self.chats@[i as int]@);
            }
            if top < self.chats[i].id {
                top = self.chats[i].id;
            }
            i = i + 1;
        }
        proof {
            assert(self@.chats.take(i as int) =~= self@.chats);
        }
        top
    }

    fn handle_top(&self) -> (r: i64)
        ensures
            r == top_handle(self@.handles),
    {
        let mut top: i64 = 0;
        let mut i: usize = 0;
        while i < self.handles.len()
            invariant
                i <= self.handles@.len(),
                top == top_handle(self@.handles.take(i as int)),
            decreases self.handles@.len() - i,
        {
            proof {
                assert(self@.handles.take(i + 1).drop_last() =~= self@.handles.take(i as int));
                assert(self@.handles[i as int] == self.handles@[i as int]@);
            }
            if top < self.handles[i].id {
                top = self.handles[i].id;
            }
            i = i + 1;
        }
        proof {
            assert(self@.handles.take(i as int) =~= self@.handles);
        }
        top
    }

    /// Inserts or refreshes a chat by GUID and gives its id. Display name and
    /// group flag follow the source on every run.
    pub fn upsert_chat(
        &mut self,
        guid: &str,
        is_group: Option<bool>,
        display_name: Option<String>,
    ) -> (id: i64)
        requires
            old(self).wf(),
            top_chat(old(self)@.chats) < i64::MAX,
        ensures
            changed_by(
                *old(self),
                *final(self),
                chat_changes(old(self)@, guid@, is_group, text::opt_view(display_name)),
            ),
            id == chat_id_for(old(self)@, guid@),
    {
        let ghost t = self@;
        let ghost name = text::opt_view(display_name);
        match self.find_chat(guid) {
            Some(i) => {
                proof {
                    lists::lemma_first_index(t.chats, chat_has_guid(guid@));
                    assert(t.chats[i as int] == self.chats@[i as int]@);
                }
                let id: i64 = self.chats[i].id;
                let row = ChatRow { id, guid: guid.to_owned(), is_group, display_name };
                let copy = row.copy();
                self.chats.set(i, row);
                self.note(Change::UpdateChat(i, copy));
                proof {
                    let c = ChangeView::UpdateChat(i as int, copy@);
                    tables::lemma_replay_one(t, c);
                    assert(self@.chats =~= t.chats.update(i as int, copy@));
                    assert(chat_changes(t, guid@, is_group, name) =~= seq![c]);
                    assert(self.journal_view() =~= old(self).journal_view() + seq![c]);
                }
                id
            },
            None => {
                let id: i64 = self.chat_top() + 1;
                let row = ChatRow { id, guid: guid.to_owned(), is_group, display_name };
                let copy = row.copy();
                self.chats.push(row);
                self.note(Change::InsertChat(copy));
                proof {
                    let c = ChangeView::InsertChat(copy@);
                    tables::lemma_replay_one(t, c);
                    assert(self@.chats =~= t.chats.push(copy@));
                    assert(chat_changes(t, guid@, is_group, name) =~= seq![c]);
                    assert(self.journal_view() =~= old(self).journal_view() + seq![c]);
                }
                id
            },
        }
    }

    /// Inserts a handle that is not there yet and gives its id.
    pub fn upsert_handle(&mut self, handle: &str) -> (id: i64)
        requires
            old(self).wf(),
            top_handle(old(self)@.handles) < i64::MAX,
        ensures
            changed_by(*old(self), *final(self), handle_changes(old(self)@, handle@)),
            id == handle_id_for(old(self)@, handle@),
    {
        let ghost t = self@;
        match self.find_handle(handle) {
            Some(i) => {
                proof {
                    lists::lemma_first_index(t.handles, is_handle(handle@));
                    assert(t.handles[i as int] == self.handles@[i as int]@);
                    tables::lemma_replay_one(t, ChangeView::Reset);
                    assert(self.journal_view() + Seq::<ChangeView>::empty()
                        =~= self.journal_view());
                }
                self.handles[i].id
            },
            None => {
                let id: i64 = self.handle_top() + 1;
                let row = HandleRow { id, handle: handle.to_owned(), name: None };
                let copy = row.copy();
                self.handles.push(row);
                self.note(Change::InsertHandle(copy));
                proof {
                    let c = ChangeView::InsertHandle(copy@);
                    tables::lemma_replay_one(t, c);
                    assert(self@.handles =~= t.handles.push(copy@));
                    assert(handle_changes(t, handle@) =~= seq![c]);
                    assert(self.journal_view() =~= old(self).journal_view() + seq![c]);
                }
                id
            },
        }
    }

    /// Inserts a new message or, when its content hash changed (edit,
    /// retraction), updates it in place. A message is known by its GUID.
    pub fn upsert_message(
        &mut self,
        m: &ExtractedMessage,
        chat_id: Option<i64>,
        sender_id: Option<i64>,
    ) -> (r: Upsert)
        requires
            old(self).wf(),
            top_message(old(self)@.messages) < i64::MAX,
        ensures
            changed_by(
                *old(self),
                *final(self),
                message_changes(old(self)@, *m, chat_id, sender_id),
            ),
            r == upsert_outcome(old(self)@, *m),
    {
        let ghost t = self@;
        let hash = m.content_hash();
        match self.messages.find(m.guid.as_str()) {
            None => {
                let row = MessageRow {
                    id: self.messages.top + 1,
                    guid: m.guid.clone(),
                    source_rowid: m.rowid,
                    chat_id,
                    sender_id,
                    is_from_me: m.is_from_me,
                    sent_at_ms: opt_millis(&m.sent_at),
                    text: clone_opt(&m.text),
                    service: clone_opt(&m.service),
                    reply_to_guid: clone_opt(&m.reply_to_guid),
                    edited_at_ms: opt_millis(&m.edited_at),
                    retracted_at_ms: opt_millis(&m.retracted_at),
                    is_tapback: m.is_tapback,
                    associated_type: m.associated_type,
                    is_system_event: m.is_system_event,
                    content_hash: hash,
                };
                let copy = row.copy();
                self.messages.push(row);
                self.note(Change::InsertMessage(copy));
                proof {
                    let c = ChangeView::InsertMessage(copy@);
                    tables::lemma_replay_one(t, c);
                    assert(copy@ == new_message(t, *m, chat_id, sender_id));
                    assert(self@.messages =~= t.messages.push(copy@));
                    assert(message_changes(t, *m, chat_id, sender_id) =~= seq![c]);
                    assert(self.journal_view() =~= old(self).journal_view() + seq![c]);
                }
                Upsert::Inserted
            },
            Some(i) => {
                proof {
                    lists::lemma_first_index(t.messages, message_has_guid(m.guid@));
                    assert(t.messages[i as int] == self.messages.rows@[i as int]@);
                }
                if str_eq(self.messages.rows[i].content_hash.as_str(), hash.as_str()) {
                    proof {
                        tables::lemma_replay_one(t, ChangeView::Reset);
                        assert(self.journal_view() + Seq::<ChangeView>::empty()
                            =~= self.journal_view());
                    }
                    return Upsert::Unchanged;
                }
                let old_row = &self.messages.rows[i];
                let row = MessageRow {
                    id: old_row.id,
                    guid: old_row.guid.clone(),
                    source_rowid: m.rowid,
                    chat_id,
                    sender_id,
                    is_from_me: old_row.is_from_me,
                    sent_at_ms: opt_millis(&m.sent_at),
                    text: clone_opt(&m.text),
                    service: clone_opt(&old_row.service),
                    reply_to_guid: clone_opt(&old_row.reply_to_guid),
                    edited_at_ms: opt_millis(&m.edited_at),
                    retracted_at_ms: opt_millis(&m.retracted_at),
                    is_tapback: old_row.is_tapback,
                    associated_type: old_row.associated_type,
                    is_system_event: old_row.is_system_event,
                    content_hash: hash,
                };
                let copy = row.copy();
                self.messages.replace(i, row);
                self.note(Change::UpdateMessage(i, copy));
                proof {
                    let c = ChangeView::UpdateMessage(i as int, copy@);
                    tables::lemma_replay_one(t, c);
                    assert(copy@ == refreshed_message(t.messages[i as int], *m, chat_id, sender_id));
                    assert(self@.messages =~= t.messages.update(i as int, copy@));
                    assert(message_changes(t, *m, chat_id, sender_id) =~= seq![c]);
                    assert(self.journal_view() =~= old(self).journal_view() + seq![c]);
                }
                Upsert::Updated
            },
        }
    }
}

/// The condition that a handle row has an id.
pub open spec fn handle_has_id(id: i64) -> spec_fn(HandleView) -> bool {
    |h: HandleView| h.id == id
}

/// What a handle is called: its contact name, or the handle itself.
pub open spec fn handle_label(h: HandleView) -> Seq<char> {
    match h.name {
        Some(name) => name,
        None => h.handle,
    }
}

/// What the handle with an id is called.
pub open spec fn sender_label_of(handles: Seq<HandleView>, id: i64) -> Seq<char> {
    match lists::first_index(handles, handle_has_id(id)) {
        Some(i) => handle_label(handles[i]),
        None => "unknown"@,
    }
}

/// Who sent a message, as a conversation shows it.
pub open spec fn sender_label(handles: Seq<HandleView>, m: MessageView) -> Seq<char> {
    if m.is_from_me {
        "Me"@
    } else {
        match m.sender_id {
            Some(id) => sender_label_of(handles, id),
            None => "unknown"@,
        }
    }
}

/// The condition that a message is part of what a chat shows: it has a text
/// and is no system event.
pub open spec fn shown_in(chat_id: i64) -> spec_fn(MessageView) -> bool {
    |m: MessageView| m.chat_id == Some(chat_id) && m.text is Some && !m.is_system_event
}

/// The key by which messages are ordered in time.
pub open spec fn time_key(m: MessageView) -> (i128, i128) {
    (
        match m.sent_at_ms {
            Some(t) => t as i128,
            None => 0,
        },
        m.id as i128,
    )
}

/// Messages in the order they were sent; those without a time count as the
/// first, and equal times go by id.
pub open spec fn in_time_order(rows: Seq<MessageView>) -> Seq<MessageView> {
    order::arranged(rows, rows.map_values(|m: MessageView| time_key(m)))
}

/// What a chat shows, in order.
pub open spec fn timeline(t: Tables, chat_id: i64) -> Seq<MessageView> {
    in_time_order(lists::chosen(t.messages, shown_in(chat_id)))
}

/// A message as chunking sees it.
pub open spec fn chunk_input(handles: Seq<HandleView>, m: MessageView) -> InputView {
    InputView { sender: sender_label(handles, m), text: m.text->0, sent_at_ms: m.sent_at_ms }
}

/// The messages of a chat as chunking sees them.
pub open spec fn chunk_inputs(t: Tables, chat_id: i64) -> Seq<InputView> {
    timeline(t, chat_id).map_values(|m: MessageView| chunk_input(t.handles, m))
}

/// The chunks that a chat's messages give.
pub open spec fn fresh_chunks(t: Tables, chat_id: i64, p: ChunkParams) -> Seq<ChunkView> {
    chunk::chunking(numeric::decimal_int(chat_id as int), chunk_inputs(t, chat_id), p)
}

/// The positions of a chat's chunks.
pub open spec fn own_positions(rows: Seq<ChunkRowView>, chat_id: i64) -> Seq<int>
    decreases rows.len(),
{
    if rows.len() == 0 {
        Seq::empty()
    } else if rows.last().chat_id == chat_id {
        own_positions(rows.drop_last(), chat_id).push(rows.len() - 1)
    } else {
        own_positions(rows.drop_last(), chat_id)
    }
}

/// The last of some positions at which a chunk with a content hash stands.
pub open spec fn last_match(rows: Seq<ChunkRowView>, free: Seq<int>, hash: Seq<char>) -> Option<int>
    decreases free.len(),
{
    if free.len() == 0 {
        None
    } else if rows[free.last()].content_hash == hash {
        Some(free.len() - 1)
    } else {
        last_match(rows, free.drop_last(), hash)
    }
}

/// The row of a chunk that is new.
pub open spec fn new_chunk(id: int, chat_id: i64, seq: int, c: ChunkView) -> ChunkRowView {
    ChunkRowView {
        id: id as i64,
        chat_id,
        seq: seq as i64,
        started_at_ms: c.started_at_ms,
        ended_at_ms: c.ended_at_ms,
        message_count: c.message_count,
        text: c.text,
        content_hash: c.content_hash,
    }
}

/// How the chunks of a chat are matched with the rows it has: the changes,
/// the positions of rows not matched, and how many chunks are new.
pub struct Matching {
    pub changes: Seq<ChangeView>,
    pub free: Seq<int>,
    pub inserted: nat,
}

/// The matching of chunks with rows. A chunk takes over a row of the chat
/// with its content hash that none before it has taken, and else becomes a
/// row of its own.
pub open spec fn matching(rows: Seq<ChunkRowView>, chat_id: i64, new: Seq<ChunkView>) -> Matching
    decreases new.len(),
{
    if new.len() == 0 {
        Matching { changes: Seq::empty(), free: own_positions(rows, chat_id), inserted: 0 }
    } else {
        let before = matching(rows, chat_id, new.drop_last());
        let seq = new.len() - 1;
        let c = new.last();
        match last_match(rows, before.free, c.content_hash) {
            Some(j) => Matching {
                changes: before.changes.push(
                    ChangeView::UpdateChunk(
                        before.free[j],
                        ChunkRowView { seq: seq as i64, ..rows[before.free[j]] },
                    ),
                ),
                free: before.free.remove(j),
                inserted: before.inserted,
            },
            None => Matching {
                changes: before.changes.push(
                    ChangeView::InsertChunk(
                        new_chunk(top_chunk(rows) + before.inserted + 1, chat_id, seq, c),
                    ),
                ),
                free: before.free,
                inserted: before.inserted + 1,
            },
        }
    }
}

/// The changes that drop the chunks at some positions.
pub open spec fn deletions(rows: Seq<ChunkRowView>, free: Seq<int>) -> Seq<ChangeView> {
    free.map_values(|p: int| ChangeView::DeleteChunk(rows[p].id))
}

/// The changes that bring the chunks of a chat up to date.
pub open spec fn rechunk_changes(t: Tables, chat_id: i64, p: ChunkParams) -> Seq<ChangeView> {
    let m = matching(t.chunks, chat_id, fresh_chunks(t, chat_id, p));
    m.changes + deletions(t.chunks, m.free)
}

/// Positions that lie in a list and rise.
pub open spec fn rising(free: Seq<int>, len: int) -> bool {
    &&& forall|i: int| 0 <= i < free.len() ==> 0 <= (#[trigger] free[i]) < len
    &&& forall|i: int, j: int| 0 <= i < j < free.len() ==> (#[trigger] free[i]) < (#[trigger] free[j])
}

/// The positions of a chat's chunks lie in the list, rise, and hold its chunks.
pub proof fn lemma_own_positions(rows: Seq<ChunkRowView>, chat_id: i64)
    ensures
        rising(own_positions(rows, chat_id), rows.len() as int),
        forall|i: int|
            0 <= i < own_positions(rows, chat_id).len() ==> rows[#[trigger] own_positions(
                rows,
                chat_id,
            )[i]].chat_id == chat_id,
    decreases rows.len(),
{
    if rows.len() > 0 {
        lemma_own_positions(rows.drop_last(), chat_id);
    }
}

/// What a match is: a free row with the hash; and no match means that there is
/// none.
pub proof fn lemma_last_match(rows: Seq<ChunkRowView>, free: Seq<int>, hash: Seq<char>)
    ensures
        last_match(rows, free, hash) matches Some(j) ==> 0 <= j < free.len()
            && rows[free[j]].content_hash == hash,
        last_match(rows, free, hash) is None ==> forall|j: int|
            0 <= j < free.len() ==> rows[#[trigger] free[j]].content_hash != hash,
    decreases free.len(),
{
    if free.len() > 0 && rows[free.last()].content_hash != hash {
        lemma_last_match(rows, free.drop_last(), hash);
        assert forall|j: int|
            0 <= j < free.len() && last_match(rows, free, hash) is None implies rows[#[trigger] free[j]].content_hash
            != hash by {
            if j < free.len() - 1 {
                assert(free.drop_last()[j] == free[j]);
            }
        }
    }
}

proof fn lemma_last_match_is(rows: Seq<ChunkRowView>, free: Seq<int>, hash: Seq<char>, j: int)
    requires
        0 <= j < free.len(),
        rows[free[j]].content_hash == hash,
        forall|k: int| j < k < free.len() ==> rows[#[trigger] free[k]].content_hash != hash,
    ensures
        last_match(rows, free, hash) == Some(j),
    decreases free.len(),
{
    if j < free.len() - 1 {
        let f = free.drop_last();
        assert forall|k: int| j < k < f.len() implies rows[#[trigger] f[k]].content_hash != hash by {
            assert(f[k] == free[k]);
        }
        lemma_last_match_is(rows, f, hash, j);
    }
}

/// A position that is taken is free no more, and the rest still rise.
pub proof fn lemma_rising_remove(free: Seq<int>, len: int, j: int)
    requires
        rising(free, len),
        0 <= j < free.len(),
    ensures
        rising(free.remove(j), len),
        !free.remove(j).contains(free[j]),
{
    let r = free.remove(j);
    assert forall|i: int| 0 <= i < r.len() implies (#[trigger] r[i]) == (if i < j {
        free[i]
    } else {
        free[i + 1]
    }) by {}
}

/// The positions that a matching leaves free rise, belong to the chat, and
/// with the chunks that took over a row add up to the rows the chat had.
pub proof fn lemma_matching(rows: Seq<ChunkRowView>, chat_id: i64, new: Seq<ChunkView>)
    ensures
        rising(matching(rows, chat_id, new).free, rows.len() as int),
        matching(rows, chat_id, new).inserted <= new.len(),
        matching(rows, chat_id, new).changes.len() == new.len(),
        matching(rows, chat_id, new).free.len() + new.len() == own_positions(rows, chat_id).len()
            + matching(rows, chat_id, new).inserted,
        forall|i: int|
            0 <= i < matching(rows, chat_id, new).free.len() ==> rows[#[trigger] matching(
                rows,
                chat_id,
                new,
            ).free[i]].chat_id == chat_id,
    decreases new.len(),
{
    if new.len() == 0 {
        lemma_own_positions(rows, chat_id);
    } else {
        let before = matching(rows, chat_id, new.drop_last());
        lemma_matching(rows, chat_id, new.drop_last());
        lemma_last_match(rows, before.free, new.last().content_hash);
        match last_match(rows, before.free, new.last().content_hash) {
            Some(j) => {
                lemma_rising_remove(before.free, rows.len() as int, j);
                let r = before.free.remove(j);
                assert forall|i: int| 0 <= i < r.len() implies rows[#[trigger] r[i]].chat_id
                    == chat_id by {
                    if i < j {
                        assert(r[i] == before.free[i]);
                    } else {
                        assert(r[i] == before.free[i + 1]);
                    }
                }
            },
            None => {},
        }
    }
}

impl IndexDb {
    pub(crate) fn find_handle_id(&self, id: i64) -> (r: Option<usize>)
        ensures
            r is Some <==> lists::first_index(self@.handles, handle_has_id(id)) is Some,
            r matches Some(i) ==> i < self@.handles.len() && lists::first_index(
                self@.handles,
                handle_has_id(id),
            ) == Some(i as int),
    {
        let ghost p = handle_has_id(id);
        let mut i: usize = 0;
        while i < self.handles.len()
            invariant
                i <= self.handles@.len(),
                p == handle_has_id(id),
                forall|j: int| 0 <= j < i ==> !p(#[trigger] self@.handles[j]),
            decreases self.handles@.len() - i,
        {
            assert(self@.handles[i as int] == self.handles@[i as int]@);
            if self.handles[i].id == id {
                proof {
                    lists::lemma_is_first_index(self@.handles, p, i as int);
                }
                return Some(i);
            }
            i = i + 1;
        }
        proof {
            lists::lemma_no_first_index(self@.handles, p);
        }
        None
    }

    pub(crate) fn label_of_handle(&self, i: usize) -> (r: String)
        requires
            i < self@.handles.len(),
        ensures
            r@ == handle_label(self@.handles[i as int]),
    {
        assert(self@.handles[i as int] == self.handles@[i as int]@);
        match &self.handles[i].name {
            Some(name) => name.clone(),
            None => self.handles[i].handle.clone(),
        }
    }

    pub(crate) fn sender_of(&self, i: usize) -> (r: String)
        requires
            i < self@.messages.len(),
        ensures
            r@ == sender_label(self@.handles, self@.messages[i as int]),
    {
        assert(self@.messages[i as int] == self.messages.rows@[i as int]@);
        if self.messages.rows[i].is_from_me {
            return "Me".to_owned();
        }
        match self.messages.rows[i].sender_id {
            Some(id) => match self.find_handle_id(id) {
                Some(h) => self.label_of_handle(h),
                None => "unknown".to_owned(),
            },
            None => "unknown".to_owned(),
        }
    }

    /// The positions of messages, put in time order.
    pub(crate) fn sort_by_time(&self, at: &Vec<usize>) -> (r: Vec<usize>)
        requires
            forall|k: int| 0 <= k < at@.len() ==> (#[trigger] at@[k]) < self@.messages.len(),
        ensures
            forall|k: int| 0 <= k < r@.len() ==> (#[trigger] r@[k]) < self@.messages.len(),
            lists::picked(self@.messages, r@) == in_time_order(
                lists::picked(self@.messages, at@),
            ),
            r@.len() == at@.len(),
    {
        let ghost rows = lists::picked(self@.messages, at@);
        let ghost wanted = rows.map_values(|m: MessageView| time_key(m));
        let mut keys: Vec<(i128, i128)> = Vec::new();
        let mut k: usize = 0;
        while k < at.len()
            invariant
                k <= at@.len(),
                rows == lists::picked(self@.messages, at@),
                wanted == rows.map_values(|m: MessageView| time_key(m)),
                forall|k: int|
                    0 <= k < at@.len() ==> (#[trigger] at@[k]) < self.messages.rows@.len(),
                keys@ == wanted.take(k as int),
            decreases at@.len() - k,
        {
            let m = &self.messages.rows[at[k]];
            let time: i128 = match m.sent_at_ms {
                Some(t) => t as i128,
                None => 0,
            };
            keys.push((time, m.id as i128));
            proof {
                assert(self@.messages[at@[k as int] as int] == m@);
                assert(rows[k as int] == m@);
                assert(wanted.take(k + 1) =~= wanted.take(k as int).push(wanted[k as int]));
            }
            k = k + 1;
        }
        proof {
            assert(keys@ =~= wanted);
        }
        let ord = order::order(&keys);
        let mut r: Vec<usize> = Vec::new();
        let mut k: usize = 0;
        while k < ord.len()
            invariant
                k <= ord@.len(),
                ord@.len() == at@.len(),
                forall|k: int| 0 <= k < ord@.len() ==> (#[trigger] ord@[k]) < at@.len(),
                forall|k: int|
                    0 <= k < at@.len() ==> (#[trigger] at@[k]) < self.messages.rows@.len(),
                r@.len() == k,
                forall|j: int| 0 <= j < k ==> (#[trigger] r@[j]) == at@[ord@[j] as int],
            decreases ord@.len() - k,
        {
            r.push(at[ord[k]]);
            k = k + 1;
        }
        proof {
            let o = order::order_of(wanted);
            assert(lists::ints(ord@) == o);
            assert forall|j: int| 0 <= j < r@.len() implies (#[trigger] lists::picked(self@.messages, r@)[j]) == in_time_order(rows)[j] by {
                assert(r@[j] == at@[ord@[j] as int]);
                assert(lists::ints(ord@)[j] == o[j]);
            }
            assert(lists::picked(self@.messages, r@) =~= in_time_order(rows));
        }
        r
    }

    /// The positions of what a chat shows, in order.
    pub(crate) fn timeline_of(&self, chat_id: i64) -> (r: Vec<usize>)
        ensures
            forall|k: int| 0 <= k < r@.len() ==> (#[trigger] r@[k]) < self@.messages.len(),
            lists::picked(self@.messages, r@) == timeline(self@, chat_id),
            self@.messages.len() <= usize::MAX,
            r@.len() <= self@.messages.len(),
    {
        let ghost p = shown_in(chat_id);
        let ghost all = self@.messages;
        let mut at: Vec<usize> = Vec::new();
        let mut i: usize = 0;
        proof {
            assert(lists::picked(all, at@) =~= lists::chosen(all.take(0), p));
        }
        while i < self.messages.rows.len()
            invariant
                i <= self.messages.rows@.len(),
                p == shown_in(chat_id),
                all == self@.messages,
                forall|k: int| 0 <= k < at@.len() ==> (#[trigger] at@[k]) < i,
                lists::picked(all, at@) == lists::chosen(all.take(i as int), p),
                at@.len() <= i,
            decreases self.messages.rows@.len() - i,
        {
            let m = &self.messages.rows[i];
            proof {
                assert(all[i as int] == m@);
                assert(all.take(i + 1).drop_last() =~= all.take(i as int));
            }
            let ghost before = lists::picked(all, at@);
            if m.chat_id == Some(chat_id) && m.text.is_some() && !m.is_system_event {
                at.push(i);
                proof {
                    assert(lists::picked(all, at@) =~= before.push(all[i as int]));
                }
            }
            i = i + 1;
        }
        proof {
            assert(all.take(i as int) =~= all);
        }
        self.sort_by_time(&at)
    }

    fn chunk_inputs_of(&self, chat_id: i64) -> (r: Vec<ChunkInput>)
        ensures
            chunk::input_views(r@) == chunk_inputs(self@, chat_id),
            r@.len() <= self@.messages.len(),
    {
        let at = self.timeline_of(chat_id);
        let total: usize = self.messages.rows.len();
        let ghost line = timeline(self@, chat_id);
        let ghost wanted = chunk_inputs(self@, chat_id);
        let mut out: Vec<ChunkInput> = Vec::new();
        let mut k: usize = 0;
        proof {
            assert(self@.messages.len() == total);
            lists::lemma_chosen(self@.messages, shown_in(chat_id));
            lemma_timeline_shows(self@, chat_id);
            assert(chunk::input_views(out@) =~= wanted.take(0));
        }
        while k < at.len()
            invariant
                k <= at@.len(),
                line == timeline(self@, chat_id),
                wanted == chunk_inputs(self@, chat_id),
                forall|k: int|
                    0 <= k < at@.len() ==> (#[trigger] at@[k]) < self.messages.rows@.len(),
                lists::picked(self@.messages, at@) == line,
                forall|j: int| 0 <= j < line.len() ==> (#[trigger] line[j]).text is Some,
                out@.len() == k,
                chunk::input_views(out@) == wanted.take(k as int),
            decreases at@.len() - k,
        {
            let i: usize = at[k];
            let m = &self.messages.rows[i];
            proof {
                assert(lists::picked(self@.messages, at@)[k as int] == m@);
                assert(line[k as int] == m@);
            }
            let body = match &m.text {
                Some(t) => t.clone(),
                None => String::new(),
            };
            let input = ChunkInput { sender: self.sender_of(i), text: body, sent_at_ms: m.sent_at_ms };
            let ghost before = chunk::input_views(out@);
            out.push(input);
            proof {
                assert(input@ == chunk_input(self@.handles, line[k as int]));
                assert(chunk::input_views(out@) =~= before.push(input@));
                assert(wanted.take(k + 1) =~= wanted.take(k as int).push(wanted[k as int]));
            }
            k = k + 1;
        }
        proof {
            assert(chunk::input_views(out@) =~= wanted);
        }
        out
    }

    fn chunk_top(&self) -> (r: i64)
        ensures
            r == top_chunk(self@.chunks),
            r >= 0,
    {
        let mut top: i64 = 0;
        let mut i: usize = 0;
        while i < self.chunks.len()
            invariant
                i <= self.chunks@.len(),
                top >= 0,
                top == top_chunk(self@.chunks.take(i as int)),
            decreases self.chunks@.len() - i,
        {
            proof {
                assert(self@.chunks.take(i + 1).drop_last() =~= self@.chunks.take(i as int));
                assert(self@.chunks[i as int] == self.chunks@[i as int]@);
            }
            if top < self.chunks[i].id {
                top = self.chunks[i].id;
            }
            i = i + 1;
        }
        proof {
            assert(self@.chunks.take(i as int) =~= self@.chunks);
        }
        top
    }

    fn own_chunks(&self, chat_id: i64) -> (r: Vec<usize>)
        ensures
            lists::ints(r@) == own_positions(self@.chunks, chat_id),
    {
        let ghost all = self@.chunks;
        let mut r: Vec<usize> = Vec::new();
        let mut i: usize = 0;
        proof {
            assert(lists::ints(r@) =~= own_positions(all.take(0), chat_id));
        }
        while i < self.chunks.len()
            invariant
                i <= self.chunks@.len(),
                all == self@.chunks,
                lists::ints(r@) == own_positions(all.take(i as int), chat_id),
            decreases self.chunks@.len() - i,
        {
            proof {
                assert(all[i as int] == self.chunks@[i as int]@);
                assert(all.take(i + 1).drop_last() =~= all.take(i as int));
            }
            let ghost before = lists::ints(r@);
            if self.chunks[i].chat_id == chat_id {
                r.push(i);
                proof {
                    assert(lists::ints(r@) =~= before.push(i as int));
                }
            }
            i = i + 1;
        }
        proof {
            assert(all.take(i as int) =~= all);
        }
        r
    }
}

/// Whether two states of the index differ in their chunks at most.
pub open spec fn same_but_chunks(a: Tables, b: Tables) -> bool {
    &&& a.chats == b.chats
    &&& a.handles == b.handles
    &&& a.messages == b.messages
    &&& a.embeddings == b.embeddings
    &&& a.watermark == b.watermark
    &&& a.model == b.model
}

proof fn lemma_same_chunk_ids(v: Seq<ChunkRowView>, w: Seq<ChunkRowView>)
    requires
        v.len() == w.len(),
        forall|i: int| 0 <= i < v.len() ==> (#[trigger] v[i]).id == w[i].id,
    ensures
        top_chunk(v) == top_chunk(w),
    decreases v.len(),
{
    if v.len() > 0 {
        let a = v.drop_last();
        let b = w.drop_last();
        assert forall|i: int| 0 <= i < a.len() implies (#[trigger] a[i]).id == b[i].id by {
            assert(a[i] == v[i] && b[i] == w[i]);
        }
        lemma_same_chunk_ids(a, b);
        assert(v.last() == v[v.len() - 1] && w.last() == w[w.len() - 1]);
    }
}

/// Dropping chunks raises no id.
pub proof fn lemma_top_without(chunks: Seq<ChunkRowView>, id: i64)
    ensures
        top_chunk(tables::without_chunk(chunks, id)) <= top_chunk(chunks),
    decreases chunks.len(),
{
    if chunks.len() > 0 {
        let a = chunks.drop_last();
        lemma_top_without(a, id);
        if chunks.last().id != id {
            let w = tables::without_chunk(a, id);
            assert(w.push(chunks.last()).drop_last() =~= w);
        }
    }
}

/// A timeline holds messages of the index only, and only those that the chat
/// shows.
pub proof fn lemma_timeline_shows(t: Tables, chat_id: i64)
    requires
        t.messages.len() <= usize::MAX,
    ensures
        forall|j: int|
            0 <= j < timeline(t, chat_id).len() ==> shown_in(chat_id)(
                #[trigger] timeline(t, chat_id)[j],
            ),
        timeline(t, chat_id).len() <= t.messages.len(),
        forall|j: int|
            0 <= j < timeline(t, chat_id).len() ==> t.messages.contains(
                #[trigger] timeline(t, chat_id)[j],
            ),
{
    let rows = lists::chosen(t.messages, shown_in(chat_id));
    let keys = rows.map_values(|m: MessageView| time_key(m));
    lists::lemma_chosen(t.messages, shown_in(chat_id));
    order::lemma_order_is_permutation(keys);
    assert forall|j: int| 0 <= j < timeline(t, chat_id).len() implies shown_in(chat_id)(
        #[trigger] timeline(t, chat_id)[j],
    ) && t.messages.contains(timeline(t, chat_id)[j]) by {
        let i = order::order_of(keys)[j];
        assert(0 <= i < rows.len());
        assert(timeline(t, chat_id)[j] == rows[i]);
    }
}

impl IndexDb {
    fn reseat_chunk(&mut self, at: usize, seq: i64)
        requires
            old(self).wf(),
            at < old(self).chunks@.len(),
        ensures
            changed_by(
                *old(self),
                *final(self),
                seq![
                    ChangeView::UpdateChunk(
                        at as int,
                        ChunkRowView { seq, ..old(self)@.chunks[at as int] },
                    ),
                ],
            ),
    {
        let ghost t = self@;
        let mut row = self.chunks[at].copy();
        row.seq = seq;
        let copy = row.copy();
        self.chunks.set(at, row);
        self.note(Change::UpdateChunk(at, copy));
        proof {
            assert(t.chunks[at as int] == old(self).chunks@[at as int]@);
            let c = ChangeView::UpdateChunk(at as int, copy@);
            tables::lemma_replay_one(t, c);
            assert(self@.chunks =~= t.chunks.update(at as int, copy@));
            assert(self.journal_view() =~= old(self).journal_view() + seq![c]);
        }
    }

    fn add_chunk(&mut self, row: ChunkRow)
        requires
            old(self).wf(),
        ensures
            changed_by(*old(self), *final(self), seq![ChangeView::InsertChunk(row@)]),
    {
        let ghost t = self@;
        let copy = row.copy();
        self.chunks.push(row);
        self.note(Change::InsertChunk(copy));
        proof {
            let c = ChangeView::InsertChunk(copy@);
            tables::lemma_replay_one(t, c);
            assert(self@.chunks =~= t.chunks.push(copy@));
            assert(self.journal_view() =~= old(self).journal_view() + seq![c]);
        }
    }

    fn drop_chunk(&mut self, id: i64)
        requires
            old(self).wf(),
        ensures
            changed_by(*old(self), *final(self), seq![ChangeView::DeleteChunk(id)]),
    {
        let ghost t = self@;
        let mut rest: Vec<ChunkRow> = Vec::new();
        let mut i: usize = 0;
        proof {
            assert(tables::chunk_row_views(rest@) =~= tables::without_chunk(t.chunks.take(0), id));
        }
        while i < self.chunks.len()
            invariant
                i <= self.chunks@.len(),
                t == self@,
                tables::chunk_row_views(rest@) == tables::without_chunk(t.chunks.take(i as int), id),
            decreases self.chunks@.len() - i,
        {
            proof {
                assert(t.chunks[i as int] == self.chunks@[i as int]@);
                assert(t.chunks.take(i + 1).drop_last() =~= t.chunks.take(i as int));
            }
            let ghost before = tables::chunk_row_views(rest@);
            if self.chunks[i].id != id {
                let row = self.chunks[i].copy();
                rest.push(row);
                proof {
                    assert(tables::chunk_row_views(rest@) =~= before.push(t.chunks[i as int]));
                }
            }
            i = i + 1;
        }
        proof {
            assert(t.chunks.take(i as int) =~= t.chunks);
        }
        self.chunks = rest;
        self.note(Change::DeleteChunk(id));
        proof {
            let c = ChangeView::DeleteChunk(id);
            tables::lemma_replay_one(t, c);
            assert(self.journal_view() =~= old(self).journal_view() + seq![c]);
        }
    }

    fn match_free(&self, free: &Vec<usize>, hash: &str, Ghost(rows): Ghost<Seq<ChunkRowView>>) -> (r:
        Option<usize>)
        requires
            rows.len() <= self@.chunks.len(),
            rising(lists::ints(free@), rows.len() as int),
            forall|j: int|
                0 <= j < free@.len() ==> self@.chunks[#[trigger] free@[j] as int] == rows[free@[j] as int],
        ensures
            r is Some <==> last_match(rows, lists::ints(free@), hash@) is Some,
            r matches Some(j) ==> j < free@.len() && last_match(rows, lists::ints(free@), hash@)
                == Some(j as int),
    {
        let ghost f = lists::ints(free@);
        let mut j: usize = free.len();
        while j > 0
            invariant
                j <= free@.len(),
                f == lists::ints(free@),
                rows.len() <= self@.chunks.len(),
                rising(f, rows.len() as int),
                forall|j: int|
                    0 <= j < free@.len() ==> self@.chunks[#[trigger] free@[j] as int]
                        == rows[free@[j] as int],
                forall|k: int| j <= k < f.len() ==> rows[#[trigger] f[k]].content_hash != hash@,
            decreases j,
        {
            j = j - 1;
            let at: usize = free[j];
            proof {
                assert(f[j as int] == at);
                assert(self@.chunks[at as int] == self.chunks@[at as int]@);
            }
            if str_eq(self.chunks[at].content_hash.as_str(), hash) {
                proof {
                    lemma_last_match_is(rows, f, hash@, j as int);
                }
                return Some(j);
            }
        }
        proof {
            lemma_last_match(rows, f, hash@);
        }
        None
    }

    /// Rebuilds the chunks of one chat from its indexed messages, keeping
    /// rows whose content hash is unchanged, so that what is kept by chunk
    /// identity (embeddings) is not invalidated by appends.
    ///
    /// Gives how many chunks were kept, inserted and deleted.
    pub fn rechunk_chat(&mut self, chat_id: i64, params: &ChunkParams) -> (r: (u64, u64, u64))
        requires
            old(self).wf(),
            top_chunk(old(self)@.chunks) + old(self)@.messages.len() <= i64::MAX,
        ensures
            changed_by(*old(self), *final(self), rechunk_changes(old(self)@, chat_id, *params)),
            ({
                let new = fresh_chunks(old(self)@, chat_id, *params);
                let m = matching(old(self)@.chunks, chat_id, new);
                r.0 == new.len() - m.inserted && r.1 == m.inserted && r.2 == m.free.len()
            }),
            same_but_chunks(old(self)@, final(self)@),
            top_chunk(final(self)@.chunks) <= top_chunk(old(self)@.chunks)
                + old(self)@.messages.len(),
            tables::keyed(old(self)@) ==> tables::keyed(final(self)@),
    {
        let ghost t = self@;
        let ghost rows = self@.chunks;
        let inputs = self.chunk_inputs_of(chat_id);
        let scope = decimal_i64(chat_id);
        let new = chunk_messages(scope.as_str(), &inputs, params);
        let ghost wanted = fresh_chunks(t, chat_id, *params);
        let mut free = self.own_chunks(chat_id);
        let top: i64 = self.chunk_top();
        let mut inserted: i64 = 0;
        let mut k: usize = 0;
        let ghost mut m = matching(rows, chat_id, wanted.take(0));
        proof {
            assert(chunk::chunk_views(new@) == wanted);
            chunk::law_no_more_chunks_than_messages(scope@, chunk_inputs(t, chat_id), *params);
            assert(chunk_inputs(t, chat_id).len() == inputs@.len());
            assert(wanted.take(0) =~= Seq::<ChunkView>::empty());
            tables::lemma_replay_one(t, ChangeView::Reset);
            assert(self.journal_view() + Seq::<ChangeView>::empty() =~= self.journal_view());
        }
        while k < new.len()
            invariant
                k <= new@.len(),
                chunk::chunk_views(new@) == wanted,
                wanted.len() <= t.messages.len(),
                top == top_chunk(rows),
                top >= 0,
                top + t.messages.len() <= i64::MAX,
                rows == t.chunks,
                m == matching(rows, chat_id, wanted.take(k as int)),
                lists::ints(free@) == m.free,
                inserted == m.inserted,
                changed_by(*old(self), *self, m.changes),
                t == old(self)@,
                same_but_chunks(t, self@),
                top_chunk(self@.chunks) <= top + inserted,
                rows.len() <= self@.chunks.len(),
                forall|j: int|
                    0 <= j < free@.len() ==> self@.chunks[#[trigger] free@[j] as int]
                        == rows[free@[j] as int],
            decreases new@.len() - k,
        {
            proof {
                assert(wanted.take(k + 1).drop_last() =~= wanted.take(k as int));
                assert(wanted[k as int] == new@[k as int]@);
                lemma_matching(rows, chat_id, wanted.take(k as int));
            }
            let ghost next = matching(rows, chat_id, wanted.take(k + 1));
            let ghost before = *self;
            match self.match_free(&free, new[k].content_hash.as_str(), Ghost(rows)) {
                Some(j) => {
                    let at: usize = free[j];
                    proof {
                        assert(lists::ints(free@)[j as int] == at);
                        lemma_rising_remove(m.free, rows.len() as int, j as int);
                    }
                    self.reseat_chunk(at, k as i64);
                    let ghost c = ChangeView::UpdateChunk(
                        at as int,
                        ChunkRowView { seq: k as i64, ..rows[at as int] },
                    );
                    let ghost old_free = free@;
                    let _ = free.remove(j);
                    proof {
                        tables::lemma_replay_one(before@, c);
                        lemma_same_chunk_ids(before@.chunks, self@.chunks);
                        lemma_changed_in_turn(*old(self), before, *self, m.changes, seq![c]);
                        assert(m.changes + seq![c] =~= m.changes.push(c));
                        assert(lists::ints(free@) =~= m.free.remove(j as int));
                        assert forall|q: int| 0 <= q < free@.len() implies self@.chunks[#[trigger] free@[q] as int]
                            == rows[free@[q] as int] by {
                            assert(lists::ints(free@)[q] == free@[q]);
                            assert(m.free.remove(j as int).contains(free@[q] as int));
                            assert(free@[q] != at);
                            let z: int = if q < j {
                                q
                            } else {
                                q + 1
                            };
                            assert(free@[q] == old_free[z]);
                        }
                    }
                },
                None => {
                    let c = &new[k];
                    let row = ChunkRow {
                        id: top + inserted + 1,
                        chat_id,
                        seq: k as i64,
                        started_at_ms: c.started_at_ms,
                        ended_at_ms: c.ended_at_ms,
                        message_count: c.message_count,
                        text: c.text.clone(),
                        content_hash: c.content_hash.clone(),
                    };
                    let ghost v = row@;
                    self.add_chunk(row);
                    inserted = inserted + 1;
                    proof {
                        let c = ChangeView::InsertChunk(v);
                        assert(v == new_chunk(
                            top_chunk(rows) + m.inserted + 1,
                            chat_id,
                            k as int,
                            wanted[k as int],
                        ));
                        tables::lemma_replay_one(before@, c);
                        assert(before@.chunks.push(v).drop_last() =~= before@.chunks);
                        lemma_changed_in_turn(*old(self), before, *self, m.changes, seq![c]);
                        assert(m.changes + seq![c] =~= m.changes.push(c));
                        assert forall|q: int| 0 <= q < free@.len() implies self@.chunks[#[trigger] free@[q] as int]
                            == rows[free@[q] as int] by {
                            assert(lists::ints(free@)[q] == free@[q]);
                            assert(m.free[q] < rows.len());
                            assert(before@.chunks[free@[q] as int] == rows[free@[q] as int]);
                        }
                    }
                },
            }
            proof {
                m = next;
            }
            k = k + 1;
        }
        proof {
            assert(wanted.take(k as int) =~= wanted);
            lemma_matching(rows, chat_id, wanted);
        }
        let ghost dels = deletions(rows, m.free);
        let mut ids: Vec<i64> = Vec::new();
        let mut d: usize = 0;
        while d < free.len()
            invariant
                d <= free@.len(),
                lists::ints(free@) == m.free,
                rising(m.free, rows.len() as int),
                rows.len() <= self@.chunks.len(),
                forall|j: int|
                    0 <= j < free@.len() ==> self@.chunks[#[trigger] free@[j] as int]
                        == rows[free@[j] as int],
                ids@.len() == d,
                forall|j: int| 0 <= j < d ==> (#[trigger] ids@[j]) == rows[m.free[j]].id,
            decreases free@.len() - d,
        {
            let at: usize = free[d];
            proof {
                assert(m.free[d as int] == lists::ints(free@)[d as int]);
                assert(self@.chunks[at as int] == self.chunks@[at as int]@);
            }
            ids.push(self.chunks[at].id);
            d = d + 1;
        }
        let mut d: usize = 0;
        proof {
            assert(m.changes + dels.take(0) =~= m.changes);
        }
        while d < ids.len()
            invariant
                d <= ids@.len(),
                dels == deletions(rows, m.free),
                ids@.len() == m.free.len(),
                forall|j: int| 0 <= j < ids@.len() ==> (#[trigger] ids@[j]) == rows[m.free[j]].id,
                changed_by(*old(self), *self, m.changes + dels.take(d as int)),
                t == old(self)@,
                same_but_chunks(t, self@),
                top_chunk(self@.chunks) <= top + inserted,
            decreases ids@.len() - d,
        {
            let ghost before = *self;
            self.drop_chunk(ids[d]);
            proof {
                let c = ChangeView::DeleteChunk(ids@[d as int]);
                tables::lemma_replay_one(before@, c);
                lemma_top_without(before@.chunks, ids@[d as int]);
                assert(dels[d as int] == c);
                lemma_changed_in_turn(
                    *old(self),
                    before,
                    *self,
                    m.changes + dels.take(d as int),
                    seq![c],
                );
                assert(m.changes + dels.take(d as int) + seq![c] =~= m.changes + dels.take(d + 1));
            }
            d = d + 1;
        }
        proof {
            assert(dels.take(d as int) =~= dels);
            if tables::keyed(t) {
                recut::lemma_rechunk_bounds(t, chat_id, *params);
            }
        }
        let total: usize = new.len();
        (total as u64 - inserted as u64, inserted as u64, ids.len() as u64)
    }
}

/// The watermark that a stored text stands for: 0 when there is none, or none
/// that is a number.
pub open spec fn watermark_of(stored: Option<Seq<char>>) -> int {
    match stored {
        Some(s) => match numeric::parsed_i64(s) {
            Some(n) => n as int,
            None => 0,
        },
        None => 0,
    }
}

/// The name that a contact book gives a handle differs from the one it has.
pub open spec fn is_renamed(h: HandleView, names: Map<Seq<char>, Seq<char>>) -> bool {
    contacts::name_for(names, h.handle) != h.name
}

/// The positions of the handles that a contact book renames.
pub open spec fn renamed_positions(
    handles: Seq<HandleView>,
    names: Map<Seq<char>, Seq<char>>,
) -> Seq<int>
    decreases handles.len(),
{
    if handles.len() == 0 {
        Seq::empty()
    } else if is_renamed(handles.last(), names) {
        renamed_positions(handles.drop_last(), names).push(handles.len() - 1)
    } else {
        renamed_positions(handles.drop_last(), names)
    }
}

/// A handle with the name that a contact book gives it.
pub open spec fn with_book_name(h: HandleView, names: Map<Seq<char>, Seq<char>>) -> HandleView {
    HandleView { name: contacts::name_for(names, h.handle), ..h }
}

/// The changes that give the handles the names of a contact book.
pub open spec fn name_changes(
    handles: Seq<HandleView>,
    names: Map<Seq<char>, Seq<char>>,
) -> Seq<ChangeView> {
    renamed_positions(handles, names).map_values(
        |i: int| ChangeView::UpdateHandle(i, with_book_name(handles[i], names)),
    )
}

/// The ids of the handles that a contact book renames.
pub open spec fn renamed_ids(
    handles: Seq<HandleView>,
    names: Map<Seq<char>, Seq<char>>,
) -> Seq<i64> {
    renamed_positions(handles, names).map_values(|i: int| handles[i].id)
}

/// How many handles have a name.
pub open spec fn named_count(handles: Seq<HandleView>) -> nat
    decreases handles.len(),
{
    if handles.len() == 0 {
        0
    } else {
        named_count(handles.drop_last()) + if handles.last().name is Some {
            1nat
        } else {
            0nat
        }
    }
}

/// A list with a number at its end, unless it is there already.
pub open spec fn add_once(s: Seq<i64>, x: i64) -> Seq<i64> {
    if s.contains(x) {
        s
    } else {
        s.push(x)
    }
}

/// A list with the chats in which one of some senders wrote.
pub open spec fn with_chats_of(s: Seq<i64>, messages: Seq<MessageView>, senders: Seq<i64>) -> Seq<
    i64,
>
    decreases messages.len(),
{
    if messages.len() == 0 {
        s
    } else {
        let before = with_chats_of(s, messages.drop_last(), senders);
        match (messages.last().sender_id, messages.last().chat_id) {
            (Some(sender), Some(chat)) if senders.contains(sender) => add_once(before, chat),
            _ => before,
        }
    }
}

/// Whether a number stands in a list.
pub fn has_id(ids: &Vec<i64>, x: i64) -> (r: bool)
    ensures
        r == ids@.contains(x),
{
    let mut i: usize = 0;
    while i < ids.len()
        invariant
            i <= ids@.len(),
            forall|j: int| 0 <= j < i ==> ids@[j] != x,
        decreases ids@.len() - i,
    {
        if ids[i] == x {
            return true;
        }
        i = i + 1;
    }
    false
}

/// Puts a number at the end of a list, unless it is there already.
pub fn mark(ids: &mut Vec<i64>, x: i64)
    ensures
        final(ids)@ == add_once(old(ids)@, x),
{
    if !has_id(ids, x) {
        ids.push(x);
    }
}

impl IndexDb {
    /// The index with the given rows, which its file holds.
    pub fn from_rows(
        chats: Vec<ChatRow>,
        handles: Vec<HandleRow>,
        messages: Vec<MessageRow>,
        chunks: Vec<ChunkRow>,
        embeddings: Vec<EmbeddingRow>,
        watermark: Option<String>,
        model: Option<String>,
    ) -> (r: IndexDb)
        ensures
            r.wf(),
            r@ == (Tables {
                chats: tables::chat_views(chats@),
                handles: tables::handle_views(handles@),
                messages: tables::message_views(messages@),
                chunks: tables::chunk_row_views(chunks@),
                embeddings: tables::embedding_views(embeddings@),
                watermark: text::opt_view(watermark),
                model: text::opt_view(model),
            }),
            r.journal_view() == Seq::<ChangeView>::empty(),
    {
        let ghost v = tables::message_views(messages@);
        let mut by_guid: StringHashMap<usize> = StringHashMap::new();
        let mut top: i64 = 0;
        let mut i: usize = 0;
        while i < messages.len()
            invariant
                i <= messages@.len(),
                v == tables::message_views(messages@),
                top == top_message(v.take(i as int)),
                forall|g: Seq<char>| #[trigger]
                    by_guid@.contains_key(g) <==> lists::first_index(
                        v.take(i as int),
                        message_has_guid(g),
                    ) is Some,
                forall|g: Seq<char>| #[trigger]
                    by_guid@.contains_key(g) ==> lists::first_index(
                        v.take(i as int),
                        message_has_guid(g),
                    ) == Some(by_guid@[g] as int),
            decreases messages@.len() - i,
        {
            let ghost before = by_guid@;
            let ghost a = v.take(i as int);
            let ghost b = v.take(i + 1);
            proof {
                assert(b.drop_last() =~= a);
                assert(b.last() == messages@[i as int]@);
            }
            if !by_guid.contains_key(messages[i].guid.as_str()) {
                by_guid.insert(messages[i].guid.clone(), i);
            }
            if top < messages[i].id {
                top = messages[i].id;
            }
            proof {
                assert forall|g: Seq<char>| #[trigger]
                    by_guid@.contains_key(g) <==> lists::first_index(b, message_has_guid(g)) is Some by {
                    assert(before.contains_key(g) <==> lists::first_index(a, message_has_guid(g)) is Some);
                }
                assert forall|g: Seq<char>| #[trigger]
                    by_guid@.contains_key(g) implies lists::first_index(b, message_has_guid(g))
                    == Some(by_guid@[g] as int) by {
                    assert(before.contains_key(g) <==> lists::first_index(a, message_has_guid(g)) is Some);
                }
            }
            i = i + 1;
        }
        proof {
            assert(v.take(i as int) =~= v);
        }
        let r = IndexDb {
            chats,
            handles,
            messages: MessageTable { rows: messages, by_guid, top },
            chunks,
            embeddings,
            watermark,
            model,
            journal: Vec::new(),
        };
        proof {
            assert(r.journal_view() =~= Seq::<ChangeView>::empty());
        }
        r
    }

    /// The chats, in the order they came.
    pub fn chats(&self) -> (r: &Vec<ChatRow>)
        ensures
            tables::chat_views(r@) == self@.chats,
    {
        &self.chats
    }

    /// The handles, in the order they came.
    pub fn handles(&self) -> (r: &Vec<HandleRow>)
        ensures
            tables::handle_views(r@) == self@.handles,
    {
        &self.handles
    }

    /// The messages, in the order they came.
    pub fn messages(&self) -> (r: &Vec<MessageRow>)
        ensures
            tables::message_views(r@) == self@.messages,
    {
        &self.messages.rows
    }

    /// The chunks.
    pub fn chunks(&self) -> (r: &Vec<ChunkRow>)
        ensures
            tables::chunk_row_views(r@) == self@.chunks,
    {
        &self.chunks
    }

    /// The embeddings.
    pub fn embeddings(&self) -> (r: &Vec<EmbeddingRow>)
        ensures
            tables::embedding_views(r@) == self@.embeddings,
    {
        &self.embeddings
    }

    /// Highest source ROWID already ingested; 0 before the first sync.
    pub fn watermark(&self) -> (r: i64)
        ensures
            r == watermark_of(self@.watermark),
    {
        match &self.watermark {
            Some(s) => match parse_i64(s.as_str()) {
                Some(n) => n,
                None => 0,
            },
            None => 0,
        }
    }

    /// How many messages there are.
    pub fn message_count(&self) -> (r: u64)
        ensures
            r == self@.messages.len(),
    {
        self.messages.rows.len() as u64
    }

    /// How many chats there are.
    pub fn chat_count(&self) -> (r: u64)
        ensures
            r == self@.chats.len(),
    {
        self.chats.len() as u64
    }

    /// How many handles there are.
    pub fn handle_count(&self) -> (r: u64)
        ensures
            r == self@.handles.len(),
    {
        self.handles.len() as u64
    }

    /// How many chunks there are.
    pub fn chunk_count(&self) -> (r: u64)
        ensures
            r == self@.chunks.len(),
    {
        self.chunks.len() as u64
    }

    /// How many embeddings there are.
    pub fn embedding_count(&self) -> (r: u64)
        ensures
            r == self@.embeddings.len(),
    {
        self.embeddings.len() as u64
    }

    /// The highest ids of the chats, handles, messages and chunks.
    pub fn top_ids(&self) -> (r: (i64, i64, i64, i64))
        requires
            self.wf(),
        ensures
            r.0 == top_chat(self@.chats),
            r.1 == top_handle(self@.handles),
            r.2 == top_message(self@.messages),
            r.3 == top_chunk(self@.chunks),
            r.3 >= 0,
    {
        (self.chat_top(), self.handle_top(), self.messages.top, self.chunk_top())
    }

    /// How many handles have a contact name.
    pub fn named_handles(&self) -> (r: u64)
        ensures
            r == named_count(self@.handles),
    {
        let mut n: u64 = 0;
        let mut i: usize = 0;
        while i < self.handles.len()
            invariant
                i <= self.handles@.len(),
                n == named_count(self@.handles.take(i as int)),
                n <= i,
            decreases self.handles@.len() - i,
        {
            proof {
                assert(self@.handles.take(i + 1).drop_last() =~= self@.handles.take(i as int));
                assert(self@.handles[i as int] == self.handles@[i as int]@);
            }
            if self.handles[i].name.is_some() {
                n = n + 1;
            }
            i = i + 1;
        }
        proof {
            assert(self@.handles.take(i as int) =~= self@.handles);
        }
        n
    }

    /// The ids of all chats.
    pub fn all_chat_ids(&self) -> (r: Vec<i64>)
        ensures
            r@ == self@.chats.map_values(|c: ChatView| c.id),
    {
        let mut r: Vec<i64> = Vec::new();
        let mut i: usize = 0;
        while i < self.chats.len()
            invariant
                i <= self.chats@.len(),
                r@ == self@.chats.take(i as int).map_values(|c: ChatView| c.id),
            decreases self.chats@.len() - i,
        {
            r.push(self.chats[i].id);
            proof {
                assert(self@.chats[i as int] == self.chats@[i as int]@);
                assert(self@.chats.take(i + 1).map_values(|c: ChatView| c.id)
                    =~= self@.chats.take(i as int).map_values(|c: ChatView| c.id).push(
                    self@.chats[i as int].id,
                ));
            }
            i = i + 1;
        }
        proof {
            assert(self@.chats.take(i as int) =~= self@.chats);
        }
        r
    }

    /// Stores the highest source ROWID ingested.
    pub fn set_watermark(&mut self, rowid: i64)
        requires
            old(self).wf(),
        ensures
            changed_by(
                *old(self),
                *final(self),
                seq![ChangeView::SetWatermark(numeric::decimal_int(rowid as int))],
            ),
    {
        let ghost t = self@;
        let s = decimal_i64(rowid);
        let copy = s.clone();
        self.watermark = Some(s);
        self.note(Change::SetWatermark(copy));
        proof {
            let c = ChangeView::SetWatermark(copy@);
            tables::lemma_replay_one(t, c);
            assert(self.journal_view() =~= old(self).journal_view() + seq![c]);
        }
    }

    /// Drops all ingested data and resets the watermark. The next sync
    /// ingests from scratch.
    pub fn reset(&mut self)
        requires
            old(self).wf(),
        ensures
            changed_by(*old(self), *final(self), seq![ChangeView::Reset]),
            final(self)@ == tables::empty_tables(),
            tables::keyed(final(self)@),
    {
        let ghost t = self@;
        self.chats = Vec::new();
        self.handles = Vec::new();
        self.messages = MessageTable::new();
        self.chunks = Vec::new();
        self.embeddings = Vec::new();
        self.watermark = None;
        self.model = None;
        self.note(Change::Reset);
        proof {
            tables::lemma_replay_one(t, ChangeView::Reset);
            assert(self@.chats =~= Seq::<ChatView>::empty());
            assert(self@.handles =~= Seq::<HandleView>::empty());
            assert(self@.messages =~= Seq::<MessageView>::empty());
            assert(self@.chunks =~= Seq::<ChunkRowView>::empty());
            assert(self@.embeddings =~= Seq::<EmbeddingView>::empty());
            assert(self.journal_view() =~= old(self).journal_view() + seq![ChangeView::Reset]);
        }
    }

    fn rename_handle(&mut self, i: usize, name: Option<String>)
        requires
            old(self).wf(),
            i < old(self).handles@.len(),
        ensures
            changed_by(
                *old(self),
                *final(self),
                seq![
                    ChangeView::UpdateHandle(
                        i as int,
                        HandleView { name: text::opt_view(name), ..old(self)@.handles[i as int] },
                    ),
                ],
            ),
            final(self).handles@.len() == old(self).handles@.len(),
    {
        let ghost t = self@;
        let mut row = self.handles[i].copy();
        row.name = name;
        let copy = row.copy();
        self.handles.set(i, row);
        self.note(Change::UpdateHandle(i, copy));
        proof {
            assert(t.handles[i as int] == old(self).handles@[i as int]@);
            let c = ChangeView::UpdateHandle(i as int, copy@);
            tables::lemma_replay_one(t, c);
            assert(self@.handles =~= t.handles.update(i as int, copy@));
            assert(self.journal_view() =~= old(self).journal_view() + seq![c]);
        }
    }

    /// Gives every handle the name the contact book has for it, and gives the
    /// ids of the handles whose name that changed.
    pub fn apply_names(&mut self, book: &ContactBook) -> (r: Vec<i64>)
        requires
            old(self).wf(),
        ensures
            changed_by(*old(self), *final(self), name_changes(old(self)@.handles, book@)),
            r@ == renamed_ids(old(self)@.handles, book@),
            same_but_handles(old(self)@, final(self)@),
            final(self)@.handles == old(self)@.handles.map_values(
                |h: HandleView| with_book_name(h, book@),
            ),
    {
        let ghost t = self@;
        let ghost hs = self@.handles;
        let ghost names = book@;
        let mut ids: Vec<i64> = Vec::new();
        let mut i: usize = 0;
        let ghost mut cs: Seq<ChangeView> = Seq::empty();
        proof {
            tables::lemma_replay_one(t, ChangeView::Reset);
            assert(self.journal_view() + cs =~= self.journal_view());
            assert(cs =~= name_changes(hs.take(0), names));
            assert(ids@ =~= renamed_ids(hs.take(0), names));
        }
        while i < self.handles.len()
            invariant
                i <= self.handles@.len(),
                self.handles@.len() == hs.len(),
                t == old(self)@,
                hs == t.handles,
                names == book@,
                changed_by(*old(self), *self, cs),
                cs == name_changes(hs.take(i as int), names),
                ids@ == renamed_ids(hs.take(i as int), names),
                same_but_handles(t, self@),
                forall|j: int| i <= j < hs.len() ==> self@.handles[j] == hs[j],
                forall|j: int| 0 <= j < i ==> self@.handles[j] == with_book_name(hs[j], names),
            decreases hs.len() - i,
        {
            let ghost a = hs.take(i as int);
            let ghost b = hs.take(i + 1);
            proof {
                assert(b.drop_last() =~= a);
                assert(b.last() == hs[i as int]);
                assert(self@.handles[i as int] == self.handles@[i as int]@);
                lemma_renamed_prefix(hs, names, i as int);
            }
            let name: Option<String> = match book.resolve(self.handles[i].handle.as_str()) {
                Some(n) => Some(n.to_owned()),
                None => None,
            };
            let same = match (&name, &self.handles[i].name) {
                (Some(x), Some(y)) => str_eq(x.as_str(), y.as_str()),
                (None, None) => true,
                _ => false,
            };
            if !same {
                let ghost before = *self;
                let id: i64 = self.handles[i].id;
                self.rename_handle(i, name);
                ids.push(id);
                proof {
                    let c = ChangeView::UpdateHandle(i as int, with_book_name(hs[i as int], names));
                    tables::lemma_replay_one(before@, c);
                    lemma_changed_in_turn(*old(self), before, *self, cs, seq![c]);
                    assert(cs + seq![c] =~= cs.push(c));
                    assert(name_changes(b, names) =~= cs.push(c));
                    assert(renamed_ids(b, names) =~= renamed_ids(a, names).push(id));
                    cs = cs.push(c);
                }
            } else {
                proof {
                    assert(name_changes(b, names) =~= cs);
                    assert(renamed_ids(b, names) =~= renamed_ids(a, names));
                }
            }
            i = i + 1;
        }
        proof {
            assert(hs.take(i as int) =~= hs);
            assert(self@.handles =~= hs.map_values(|h: HandleView| with_book_name(h, names)));
        }
        ids
    }

    /// Marks the chats in which one of some senders wrote.
    pub fn mark_chats_of(&self, senders: &Vec<i64>, ids: &mut Vec<i64>)
        ensures
            final(ids)@ == with_chats_of(old(ids)@, self@.messages, senders@),
    {
        let ghost s = ids@;
        let ghost all = self@.messages;
        let mut i: usize = 0;
        while i < self.messages.rows.len()
            invariant
                i <= self.messages.rows@.len(),
                all == self@.messages,
                ids@ == with_chats_of(s, all.take(i as int), senders@),
            decreases self.messages.rows@.len() - i,
        {
            let m = &self.messages.rows[i];
            proof {
                assert(all.take(i + 1).drop_last() =~= all.take(i as int));
                assert(all[i as int] == m@);
            }
            match (m.sender_id, m.chat_id) {
                (Some(sender), Some(chat)) => {
                    if has_id(senders, sender) {
                        mark(ids, chat);
                    }
                },
                _ => {},
            }
            i = i + 1;
        }
        proof {
            assert(all.take(i as int) =~= all);
        }
    }
}

/// Whether two states of the index differ in their handles at most.
pub open spec fn same_but_handles(a: Tables, b: Tables) -> bool {
    &&& a.chats == b.chats
    &&& a.messages == b.messages
    &&& a.chunks == b.chunks
    &&& a.embeddings == b.embeddings
    &&& a.watermark == b.watermark
    &&& a.model == b.model
}

/// The positions renamed among the first handles lie among them.
proof fn lemma_renamed_prefix(
    handles: Seq<HandleView>,
    names: Map<Seq<char>, Seq<char>>,
    n: int,
)
    requires
        0 <= n <= handles.len(),
    ensures
        forall|k: int|
            0 <= k < renamed_positions(handles.take(n), names).len() ==> 0 <= (
            #[trigger] renamed_positions(handles.take(n), names)[k]) < n,
    decreases n,
{
    if n > 0 {
        lemma_renamed_prefix(handles, names, n - 1);
        assert(handles.take(n).drop_last() =~= handles.take(n - 1));
        let a = renamed_positions(handles.take(n - 1), names);
        let b = renamed_positions(handles.take(n), names);
        assert forall|k: int| 0 <= k < b.len() implies 0 <= (#[trigger] b[k]) < n by {
            if k < a.len() {
                assert(b[k] == a[k]);
            }
        }
    }
}

/// The condition that an embedding belongs to a content hash.
pub open spec fn embeds(hash: Seq<char>) -> spec_fn(EmbeddingView) -> bool {
    |e: EmbeddingView| e.chunk_hash == hash
}

/// The condition that a chunk has a content hash.
pub open spec fn chunk_has_hash(hash: Seq<char>) -> spec_fn(ChunkRowView) -> bool {
    |c: ChunkRowView| c.content_hash == hash
}

/// The condition that a pair begins with a text.
pub open spec fn begins_with(hash: Seq<char>) -> spec_fn((Seq<char>, Seq<char>)) -> bool {
    |e: (Seq<char>, Seq<char>)| e.0 == hash
}

/// The content hash and text of the chunks without an embedding, each hash
/// once.
pub open spec fn missing(chunks: Seq<ChunkRowView>, embeddings: Seq<EmbeddingView>) -> Seq<
    (Seq<char>, Seq<char>),
>
    decreases chunks.len(),
{
    if chunks.len() == 0 {
        Seq::empty()
    } else {
        let before = missing(chunks.drop_last(), embeddings);
        let c = chunks.last();
        if lists::first_index(embeddings, embeds(c.content_hash)) is Some || lists::first_index(
            before,
            begins_with(c.content_hash),
        ) is Some {
            before
        } else {
            before.push((c.content_hash, c.text))
        }
    }
}

/// A list of pairs of strings.
pub open spec fn pair_views(pairs: Seq<(String, String)>) -> Seq<(Seq<char>, Seq<char>)> {
    pairs.map_values(|p: (String, String)| (p.0@, p.1@))
}

/// A list of pairs of a string and bytes.
pub open spec fn item_views(items: Seq<(String, Vec<u8>)>) -> Seq<(Seq<char>, Seq<u8>)> {
    items.map_values(|p: (String, Vec<u8>)| (p.0@, p.1@))
}

/// The change that stores the vector of a content hash.
pub open spec fn embedding_change(
    rows: Seq<EmbeddingView>,
    model: Seq<char>,
    item: (Seq<char>, Seq<u8>),
) -> ChangeView {
    let row = EmbeddingView { chunk_hash: item.0, model, vector: item.1 };
    match lists::first_index(rows, embeds(item.0)) {
        Some(i) => ChangeView::UpdateEmbedding(i, row),
        None => ChangeView::InsertEmbedding(row),
    }
}

/// The changes that store a list of vectors.
pub open spec fn store_changes(t: Tables, model: Seq<char>, items: Seq<(Seq<char>, Seq<u8>)>) -> Seq<
    ChangeView,
>
    decreases items.len(),
{
    if items.len() == 0 {
        Seq::empty()
    } else {
        let before = store_changes(t, model, items.drop_last());
        before.push(
            embedding_change(tables::replayed(t, before).embeddings, model, items.last()),
        )
    }
}

/// The changes that make a model the one the vectors are made with. Vectors
/// of different models cannot be compared: a change of the model drops them.
pub open spec fn model_changes(t: Tables, model: Seq<char>) -> Seq<ChangeView> {
    match t.model {
        Some(m) => if m == model {
            Seq::empty()
        } else {
            seq![ChangeView::ClearEmbeddings, ChangeView::SetModel(model)]
        },
        None => seq![ChangeView::SetModel(model)],
    }
}

/// The content hashes of embeddings that no chunk has, in order.
pub open spec fn orphans(embeddings: Seq<EmbeddingView>, chunks: Seq<ChunkRowView>) -> Seq<Seq<char>>
    decreases embeddings.len(),
{
    if embeddings.len() == 0 {
        Seq::empty()
    } else {
        let before = orphans(embeddings.drop_last(), chunks);
        let hash = embeddings.last().chunk_hash;
        if lists::first_index(chunks, chunk_has_hash(hash)) is Some {
            before
        } else {
            before.push(hash)
        }
    }
}

/// The changes that drop the embeddings that no chunk has.
pub open spec fn prune_changes(t: Tables) -> Seq<ChangeView> {
    orphans(t.embeddings, t.chunks).map_values(|h: Seq<char>| ChangeView::DeleteEmbedding(h))
}

impl IndexDb {
    pub(crate) fn find_embedding(&self, hash: &str) -> (r: Option<usize>)
        ensures
            r is Some <==> lists::first_index(self@.embeddings, embeds(hash@)) is Some,
            r matches Some(i) ==> i < self@.embeddings.len() && lists::first_index(
                self@.embeddings,
                embeds(hash@),
            ) == Some(i as int),
    {
        let ghost p = embeds(hash@);
        let mut i: usize = 0;
        while i < self.embeddings.len()
            invariant
                i <= self.embeddings@.len(),
                p == embeds(hash@),
                forall|j: int| 0 <= j < i ==> !p(#[trigger] self@.embeddings[j]),
            decreases self.embeddings@.len() - i,
        {
            assert(self@.embeddings[i as int] == self.embeddings@[i as int]@);
            if str_eq(self.embeddings[i].chunk_hash.as_str(), hash) {
                proof {
                    lists::lemma_is_first_index(self@.embeddings, p, i as int);
                }
                return Some(i);
            }
            i = i + 1;
        }
        proof {
            lists::lemma_no_first_index(self@.embeddings, p);
        }
        None
    }

    /// The content hashes that have an embedding.
    fn embedded_hashes(&self) -> (r: StringHashMap<bool>)
        ensures
            forall|h: Seq<char>| #[trigger]
                r@.contains_key(h) <==> lists::first_index(self@.embeddings, embeds(h)) is Some,
    {
        let ghost all = self@.embeddings;
        let mut r: StringHashMap<bool> = StringHashMap::new();
        let mut i: usize = 0;
        while i < self.embeddings.len()
            invariant
                i <= self.embeddings@.len(),
                all == self@.embeddings,
                forall|h: Seq<char>| #[trigger]
                    r@.contains_key(h) <==> lists::first_index(all.take(i as int), embeds(h)) is Some,
            decreases self.embeddings@.len() - i,
        {
            let ghost before = r@;
            proof {
                assert(all[i as int] == self.embeddings@[i as int]@);
                assert(all.take(i + 1).drop_last() =~= all.take(i as int));
            }
            r.insert(self.embeddings[i].chunk_hash.clone(), true);
            proof {
                assert forall|h: Seq<char>| #[trigger]
                    r@.contains_key(h) <==> lists::first_index(all.take(i + 1), embeds(h)) is Some by {
                    assert(before.contains_key(h) <==> lists::first_index(
                        all.take(i as int),
                        embeds(h),
                    ) is Some);
                }
            }
            i = i + 1;
        }
        proof {
            assert(all.take(i as int) =~= all);
        }
        r
    }

    /// The content hashes that chunks have.
    fn chunk_hashes(&self) -> (r: StringHashMap<bool>)
        ensures
            forall|h: Seq<char>| #[trigger]
                r@.contains_key(h) <==> lists::first_index(self@.chunks, chunk_has_hash(h)) is Some,
    {
        let ghost all = self@.chunks;
        let mut r: StringHashMap<bool> = StringHashMap::new();
        let mut i: usize = 0;
        while i < self.chunks.len()
            invariant
                i <= self.chunks@.len(),
                all == self@.chunks,
                forall|h: Seq<char>| #[trigger]
                    r@.contains_key(h) <==> lists::first_index(
                        all.take(i as int),
                        chunk_has_hash(h),
                    ) is Some,
            decreases self.chunks@.len() - i,
        {
            let ghost before = r@;
            proof {
                assert(all[i as int] == self.chunks@[i as int]@);
                assert(all.take(i + 1).drop_last() =~= all.take(i as int));
            }
            r.insert(self.chunks[i].content_hash.clone(), true);
            proof {
                assert forall|h: Seq<char>| #[trigger]
                    r@.contains_key(h) <==> lists::first_index(
                    all.take(i + 1),
                    chunk_has_hash(h),
                ) is Some by {
                    assert(before.contains_key(h) <==> lists::first_index(
                        all.take(i as int),
                        chunk_has_hash(h),
                    ) is Some);
                }
            }
            i = i + 1;
        }
        proof {
            assert(all.take(i as int) =~= all);
        }
        r
    }

    /// Chunks that have no stored embedding yet, as content hash and text.
    /// Hashes are distinct even if several chunks share content.
    pub fn missing_embeddings(&self) -> (r: Vec<(String, String)>)
        ensures
            pair_views(r@) == missing(self@.chunks, self@.embeddings),
    {
        let ghost all = self@.chunks;
        let mut out: Vec<(String, String)> = Vec::new();
        let mut seen: StringHashMap<bool> = StringHashMap::new();
        let stored = self.embedded_hashes();
        let mut i: usize = 0;
        proof {
            assert(pair_views(out@) =~= missing(all.take(0), self@.embeddings));
        }
        while i < self.chunks.len()
            invariant
                i <= self.chunks@.len(),
                all == self@.chunks,
                forall|h: Seq<char>| #[trigger]
                    stored@.contains_key(h) <==> lists::first_index(self@.embeddings, embeds(h)) is Some,
                pair_views(out@) == missing(all.take(i as int), self@.embeddings),
                forall|h: Seq<char>| #[trigger]
                    seen@.contains_key(h) <==> lists::first_index(pair_views(out@), begins_with(h)) is Some,
            decreases self.chunks@.len() - i,
        {
            let c = &self.chunks[i];
            proof {
                assert(all[i as int] == c@);
                assert(all.take(i + 1).drop_last() =~= all.take(i as int));
            }
            let ghost before = pair_views(out@);
            let ghost old_seen = seen@;
            if !stored.contains_key(c.content_hash.as_str()) && !seen.contains_key(
                c.content_hash.as_str(),
            ) {
                seen.insert(c.content_hash.clone(), true);
                out.push((c.content_hash.clone(), c.text.clone()));
                proof {
                    let now = before.push((c.content_hash@, c.text@));
                    assert(pair_views(out@) =~= now);
                    assert(now.drop_last() =~= before);
                    assert forall|h: Seq<char>| #[trigger]
                        seen@.contains_key(h) <==> lists::first_index(now, begins_with(h)) is Some by {
                        assert(old_seen.contains_key(h) <==> lists::first_index(
                            before,
                            begins_with(h),
                        ) is Some);
                    }
                }
            }
            i = i + 1;
        }
        proof {
            assert(all.take(i as int) =~= all);
        }
        out
    }

    fn store_one(&mut self, model: &str, item: &(String, Vec<u8>))
        requires
            old(self).wf(),
        ensures
            changed_by(
                *old(self),
                *final(self),
                seq![embedding_change(old(self)@.embeddings, model@, (item.0@, item.1@))],
            ),
    {
        let ghost t = self@;
        let row = EmbeddingRow {
            chunk_hash: item.0.clone(),
            model: model.to_owned(),
            vector: tables::copy_bytes(&item.1),
        };
        let copy = row.copy();
        match self.find_embedding(item.0.as_str()) {
            Some(i) => {
                self.embeddings.set(i, row);
                self.note(Change::UpdateEmbedding(i, copy));
                proof {
                    let c = ChangeView::UpdateEmbedding(i as int, copy@);
                    tables::lemma_replay_one(t, c);
                    assert(self@.embeddings =~= t.embeddings.update(i as int, copy@));
                    assert(self.journal_view() =~= old(self).journal_view() + seq![c]);
                }
            },
            None => {
                self.embeddings.push(row);
                self.note(Change::InsertEmbedding(copy));
                proof {
                    let c = ChangeView::InsertEmbedding(copy@);
                    tables::lemma_replay_one(t, c);
                    assert(self@.embeddings =~= t.embeddings.push(copy@));
                    assert(self.journal_view() =~= old(self).journal_view() + seq![c]);
                }
            },
        }
    }

    /// Stores a batch of vectors by content hash; one that is there already
    /// is replaced.
    pub fn store_embeddings(&mut self, model: &str, items: &[(String, Vec<u8>)])
        requires
            old(self).wf(),
        ensures
            changed_by(
                *old(self),
                *final(self),
                store_changes(old(self)@, model@, item_views(items@)),
            ),
            tables::keyed(old(self)@) ==> tables::keyed(final(self)@),
    {
        let ghost t = self@;
        let ghost all = item_views(items@);
        let ghost mut cs = store_changes(t, model@, all.take(0));
        let mut i: usize = 0;
        proof {
            assert(all.take(0) =~= Seq::<(Seq<char>, Seq<u8>)>::empty());
            tables::lemma_replay_one(t, ChangeView::Reset);
            assert(self.journal_view() + Seq::<ChangeView>::empty() =~= self.journal_view());
        }
        while i < items.len()
            invariant
                i <= items@.len(),
                all == item_views(items@),
                t == old(self)@,
                cs == store_changes(t, model@, all.take(i as int)),
                changed_by(*old(self), *self, cs),
            decreases items@.len() - i,
        {
            let ghost before = *self;
            proof {
                assert(all.take(i + 1).drop_last() =~= all.take(i as int));
                assert(all[i as int] == (items@[i as int].0@, items@[i as int].1@));
            }
            self.store_one(model, &items[i]);
            proof {
                let c = embedding_change(before@.embeddings, model@, all[i as int]);
                lemma_changed_in_turn(*old(self), before, *self, cs, seq![c]);
                assert(cs + seq![c] =~= cs.push(c));
                cs = cs.push(c);
            }
            i = i + 1;
        }
        proof {
            assert(all.take(i as int) =~= all);
            if tables::keyed(t) {
                filling::lemma_store_keeps(t, model@, all);
            }
        }
    }

    /// Records which embedding model the index is built with. A change of the
    /// model drops all stored vectors, which cannot be compared across
    /// models; says whether that happened.
    pub fn ensure_embedding_model(&mut self, model: &str) -> (r: bool)
        requires
            old(self).wf(),
        ensures
            changed_by(*old(self), *final(self), model_changes(old(self)@, model@)),
            r == (old(self)@.model matches Some(m) && m != model@),
            tables::keyed(old(self)@) ==> tables::keyed(final(self)@),
    {
        let ghost t = self@;
        let mut wiped = false;
        match &self.model {
            Some(m) => {
                if str_eq(m.as_str(), model) {
                    proof {
                        tables::lemma_replay_one(t, ChangeView::Reset);
                        assert(self.journal_view() + Seq::<ChangeView>::empty()
                            =~= self.journal_view());
                    }
                    return false;
                }
                wiped = true;
            },
            None => {},
        }
        if wiped {
            self.embeddings = Vec::new();
            self.note(Change::ClearEmbeddings);
        }
        let ghost middle = self.journal_view();
        self.model = Some(model.to_owned());
        self.note(Change::SetModel(model.to_owned()));
        proof {
            let c = ChangeView::SetModel(model@);
            if wiped {
                let w = ChangeView::ClearEmbeddings;
                let t1 = tables::after(t, w);
                tables::lemma_replay_one(t, w);
                assert(model_changes(t, model@) =~= seq![w].push(c));
                tables::lemma_replay_push(t, seq![w], c);
                assert(self@.embeddings =~= Seq::<EmbeddingView>::empty());
                assert(self.journal_view() =~= old(self).journal_view() + seq![w].push(c));
            } else {
                tables::lemma_replay_one(t, c);
                assert(model_changes(t, model@) =~= seq![c]);
                assert(self.journal_view() =~= old(self).journal_view() + seq![c]);
            }
        }
        wiped
    }

    fn drop_embedding(&mut self, hash: &str)
        requires
            old(self).wf(),
        ensures
            changed_by(*old(self), *final(self), seq![ChangeView::DeleteEmbedding(hash@)]),
    {
        let ghost t = self@;
        let mut rest: Vec<EmbeddingRow> = Vec::new();
        let mut i: usize = 0;
        proof {
            assert(tables::embedding_views(rest@) =~= tables::without_embedding(
                t.embeddings.take(0),
                hash@,
            ));
        }
        while i < self.embeddings.len()
            invariant
                i <= self.embeddings@.len(),
                t == self@,
                tables::embedding_views(rest@) == tables::without_embedding(
                    t.embeddings.take(i as int),
                    hash@,
                ),
            decreases self.embeddings@.len() - i,
        {
            proof {
                assert(t.embeddings[i as int] == self.embeddings@[i as int]@);
                assert(t.embeddings.take(i + 1).drop_last() =~= t.embeddings.take(i as int));
            }
            let ghost before = tables::embedding_views(rest@);
            if !str_eq(self.embeddings[i].chunk_hash.as_str(), hash) {
                let row = self.embeddings[i].copy();
                rest.push(row);
                proof {
                    assert(tables::embedding_views(rest@) =~= before.push(t.embeddings[i as int]));
                }
            }
            i = i + 1;
        }
        proof {
            assert(t.embeddings.take(i as int) =~= t.embeddings);
        }
        self.embeddings = rest;
        self.note(Change::DeleteEmbedding(hash.to_owned()));
        proof {
            let c = ChangeView::DeleteEmbedding(hash@);
            tables::lemma_replay_one(t, c);
            assert(self.journal_view() =~= old(self).journal_view() + seq![c]);
        }
    }

    /// Drops embeddings whose chunk no longer exists (superseded by a new
    /// chunking). Gives how many were dropped.
    pub fn prune_orphan_embeddings(&mut self) -> (r: u64)
        requires
            old(self).wf(),
        ensures
            changed_by(*old(self), *final(self), prune_changes(old(self)@)),
            r == orphans(old(self)@.embeddings, old(self)@.chunks).len(),
            tables::keyed(old(self)@) ==> tables::keyed(final(self)@),
    {
        let ghost t = self@;
        let ghost lost = orphans(t.embeddings, t.chunks);
        let kept = self.chunk_hashes();
        let mut hashes: Vec<String> = Vec::new();
        let mut i: usize = 0;
        proof {
            assert(text::views(hashes@) =~= orphans(t.embeddings.take(0), t.chunks));
        }
        while i < self.embeddings.len()
            invariant
                i <= self.embeddings@.len(),
                t == self@,
                forall|h: Seq<char>| #[trigger]
                    kept@.contains_key(h) <==> lists::first_index(t.chunks, chunk_has_hash(h)) is Some,
                text::views(hashes@) == orphans(t.embeddings.take(i as int), t.chunks),
            decreases self.embeddings@.len() - i,
        {
            proof {
                assert(t.embeddings[i as int] == self.embeddings@[i as int]@);
                assert(t.embeddings.take(i + 1).drop_last() =~= t.embeddings.take(i as int));
            }
            let ghost before = text::views(hashes@);
            if !kept.contains_key(self.embeddings[i].chunk_hash.as_str()) {
                let h = self.embeddings[i].chunk_hash.clone();
                hashes.push(h);
                proof {
                    assert(text::views(hashes@) =~= before.push(h@));
                }
            }
            i = i + 1;
        }
        proof {
            assert(t.embeddings.take(i as int) =~= t.embeddings);
        }
        let ghost all = prune_changes(t);
        let mut k: usize = 0;
        proof {
            tables::lemma_replay_one(t, ChangeView::Reset);
            assert(all.take(0) =~= Seq::<ChangeView>::empty());
            assert(self.journal_view() + all.take(0) =~= self.journal_view());
        }
        while k < hashes.len()
            invariant
                k <= hashes@.len(),
                text::views(hashes@) == lost,
                t == old(self)@,
                lost == orphans(t.embeddings, t.chunks),
                all == prune_changes(t),
                changed_by(*old(self), *self, all.take(k as int)),
            decreases hashes@.len() - k,
        {
            let ghost before = *self;
            self.drop_embedding(hashes[k].as_str());
            proof {
                assert(text::views(hashes@)[k as int] == hashes@[k as int]@);
                let c = ChangeView::DeleteEmbedding(lost[k as int]);
                assert(all[k as int] == c);
                lemma_changed_in_turn(*old(self), before, *self, all.take(k as int), seq![c]);
                assert(all.take(k as int) + seq![c] =~= all.take(k + 1));
            }
            k = k + 1;
        }
        proof {
            assert(all.take(k as int) =~= all);
            if tables::keyed(t) {
                filling::lemma_deletions_keep(t, lost);
            }
        }
        hashes.len() as u64
    }
}

/// Who a message is from, as it is shown. The user's own is from `Me`, whatever
/// else the row says. Any other is from the first handle with the sender's id,
/// by its contact name, or by the handle itself where it has none; and from
/// `unknown` where there is no such handle or no sender.
pub proof fn law_who_a_message_is_from(handles: Seq<HandleView>, m: MessageView)
    ensures
        m.is_from_me ==> sender_label(handles, m) == "Me"@,
        !m.is_from_me && m.sender_id is None ==> sender_label(handles, m) == "unknown"@,
        !m.is_from_me && m.sender_id is Some ==> {
            &&& (forall|i: int|
                0 <= i < handles.len() ==> (#[trigger] handles[i]).id != m.sender_id->0)
                ==> sender_label(handles, m) == "unknown"@
            &&& forall|i: int|
                0 <= i < handles.len() && (#[trigger] handles[i]).id == m.sender_id->0 && (forall|
                    j: int,
                |
                    0 <= j < i ==> (#[trigger] handles[j]).id != m.sender_id->0) ==> sender_label(
                    handles,
                    m,
                ) == (if handles[i].name is Some {
                    handles[i].name->0
                } else {
                    handles[i].handle
                })
        },
{
    if !m.is_from_me && m.sender_id is Some {
        let p = handle_has_id(m.sender_id->0);
        lists::lemma_first_index(handles, p);
        match lists::first_index(handles, p) {
            Some(k) => {
                assert(p(handles[k]));
                assert forall|i: int|
                    0 <= i < handles.len() && (#[trigger] handles[i]).id == m.sender_id->0 && (
                    forall|j: int| 0 <= j < i ==> (#[trigger] handles[j]).id != m.sender_id->0)
                    implies sender_label(handles, m) == (if handles[i].name is Some {
                    handles[i].name->0
                } else {
                    handles[i].handle
                }) by {
                    assert(p(handles[i]));
                    if k < i {
                        assert(handles[k].id != m.sender_id->0);
                    }
                    assert(k == i);
                }
            },
            None => {
                assert forall|i: int| 0 <= i < handles.len() implies (#[trigger] handles[i]).id
                    != m.sender_id->0 by {
                    assert(!p(handles[i]));
                }
            },
        }
    }
}

/// Messages in time order are the messages there were, each as often as it was,
/// and no message comes before one that was sent earlier, or at the same time
/// with a smaller id. A message without a time counts as sent at time zero.
pub proof fn law_time_order(rows: Seq<MessageView>)
    requires
        rows.len() <= usize::MAX,
    ensures
        in_time_order(rows).len() == rows.len(),
        in_time_order(rows).to_multiset() == rows.to_multiset(),
        forall|m: MessageView| #[trigger] in_time_order(rows).contains(m) <==> rows.contains(m),
        forall|i: int, j: int|
            0 <= i < j < rows.len() ==> ({
                let a = #[trigger] in_time_order(rows)[i];
                let b = #[trigger] in_time_order(rows)[j];
                let x = if a.sent_at_ms is Some {
                    a.sent_at_ms->0
                } else {
                    0
                };
                let y = if b.sent_at_ms is Some {
                    b.sent_at_ms->0
                } else {
                    0
                };
                x < y || (x == y && a.id <= b.id)
            }),
{
    let keys = rows.map_values(|m: MessageView| time_key(m));
    order::lemma_order_is_permutation(keys);
    order::lemma_arranged_multiset(rows, keys);
    let o = order::order_of(keys);
    let all = in_time_order(rows);
    assert forall|m: MessageView| #[trigger] all.contains(m) <==> rows.contains(m) by {
        if all.contains(m) {
            let k = choose|k: int| 0 <= k < all.len() && all[k] == m;
            assert(rows[o[k]] == m);
        }
        if rows.contains(m) {
            let i = choose|i: int| 0 <= i < rows.len() && rows[i] == m;
            assert(o.contains(i));
            let k = choose|k: int| 0 <= k < o.len() && o[k] == i;
            assert(all[k] == m);
        }
    }
    assert forall|i: int, j: int| 0 <= i < j < rows.len() implies ({
        let a = #[trigger] all[i];
        let b = #[trigger] all[j];
        let x = if a.sent_at_ms is Some {
            a.sent_at_ms->0
        } else {
            0
        };
        let y = if b.sent_at_ms is Some {
            b.sent_at_ms->0
        } else {
            0
        };
        x < y || (x == y && a.id <= b.id)
    }) by {
        order::law_order_sorts(keys, i, j);
        assert(all[i] == rows[o[i]] && all[j] == rows[o[j]]);
        assert(keys[o[i]] == time_key(rows[o[i]]) && keys[o[j]] == time_key(rows[o[j]]));
    }
}

/// What a chat shows: every message of the chat that has a text and is no system
/// event, whoever sent it, as often as the index has it, and no other.
pub proof fn law_timeline_is_the_chats_messages(t: Tables, chat_id: i64, m: MessageView)
    requires
        t.messages.len() <= usize::MAX,
    ensures
        timeline(t, chat_id).contains(m) <==> t.messages.contains(m) && m.chat_id == Some(chat_id)
            && m.text is Some && !m.is_system_event,
        timeline(t, chat_id).to_multiset() == t.messages.filter(
            |m: MessageView| m.chat_id == Some(chat_id) && m.text is Some && !m.is_system_event,
        ).to_multiset(),
{
    let p = shown_in(chat_id);
    let rows = lists::chosen(t.messages, p);
    lists::lemma_chosen(t.messages, p);
    lists::lemma_chosen_filter(t.messages, p);
    law_time_order(rows);
    if t.messages.contains(m) && p(m) {
        let i = choose|i: int| 0 <= i < t.messages.len() && t.messages[i] == m;
        lists::lemma_chosen_complete(t.messages, p, i);
    }
    if rows.contains(m) {
        let i = choose|i: int| 0 <= i < rows.len() && rows[i] == m;
        assert(p(rows[i]));
    }
}

/// What is cut into chunks: every message that the chat shows, in their order, each
/// with its text, its time and who it is from. The chunks of a chat are hashed
/// under its id.
pub proof fn law_what_is_cut(t: Tables, chat_id: i64, p: ChunkParams)
    ensures
        ({
            let rows = timeline(t, chat_id);
            let seen = chunk_inputs(t, chat_id);
            &&& seen.len() == rows.len()
            &&& forall|i: int|
                0 <= i < seen.len() ==> (#[trigger] seen[i]).text == rows[i].text->0
                    && seen[i].sent_at_ms == rows[i].sent_at_ms && seen[i].sender == sender_label(
                    t.handles,
                    rows[i],
                )
            &&& fresh_chunks(t, chat_id, p) == chunk::chunking(
                numeric::decimal_int(chat_id as int),
                seen,
                p,
            )
        }),
{
}

/// A chunk that gets a row of its own is stored whole: its text, its times, how many
/// messages it holds and its hash, for its chat and at its place.
pub proof fn law_what_a_new_row_holds(id: i64, chat_id: i64, seq: i64, c: ChunkView)
    ensures
        ({
            let r = new_chunk(id as int, chat_id, seq as int, c);
            &&& r.id == id
            &&& r.chat_id == chat_id
            &&& r.seq == seq
            &&& r.text == c.text
            &&& r.started_at_ms == c.started_at_ms
            &&& r.ended_at_ms == c.ended_at_ms
            &&& r.message_count == c.message_count
            &&& r.content_hash == c.content_hash
        }),
{
}

/// What there is to embed: the text of each chunk whose hash has no vector, each
/// hash once and in the order of the chunks, with the text of the first chunk that
/// has it.
pub proof fn law_what_there_is_to_embed(
    chunks: Seq<ChunkRowView>,
    embeddings: Seq<EmbeddingView>,
) -> (o: Seq<int>)
    ensures
        ({
            let todo = missing(chunks, embeddings);
            &&& o.len() == todo.len()
            &&& forall|n: int|
                0 <= n < o.len() ==> 0 <= #[trigger] o[n] < chunks.len() && todo[n].0
                    == chunks[o[n]].content_hash && todo[n].1 == chunks[o[n]].text
            &&& forall|a: int, b: int|
                0 <= a < b < o.len() ==> #[trigger] o[a] < #[trigger] o[b]
            &&& forall|k: int|
                0 <= k < chunks.len() ==> (o.contains(k) <==> (forall|e: int|
                    0 <= e < embeddings.len() ==> (#[trigger] embeddings[e]).chunk_hash
                        != chunks[k].content_hash) && (forall|j: int|
                    0 <= j < k ==> (#[trigger] chunks[j]).content_hash != #[trigger] chunks[k].content_hash))
        }),
    decreases chunks.len(),
{
    if chunks.len() == 0 {
        Seq::empty()
    } else {
        let front = chunks.drop_last();
        let n = chunks.len() - 1;
        let c = chunks[n];
        let o = law_what_there_is_to_embed(front, embeddings);
        let before = missing(front, embeddings);
        let todo = missing(chunks, embeddings);
        let p = embeds(c.content_hash);
        let q = begins_with(c.content_hash);
        lists::lemma_first_index(embeddings, p);
        lists::lemma_first_index(before, q);
        let fresh = lists::first_index(embeddings, p) is None && lists::first_index(
            before,
            q,
        ) is None;
        let r = if fresh {
            o.push(n)
        } else {
            o
        };
        assert forall|a: int| 0 <= a < r.len() implies 0 <= #[trigger] r[a] < chunks.len()
            && todo[a].0 == chunks[r[a]].content_hash && todo[a].1 == chunks[r[a]].text by {
            if a < o.len() {
                assert(r[a] == o[a]);
                assert(todo[a] == before[a]);
                assert(front[o[a]] == chunks[o[a]]);
            }
        }
        assert forall|a: int, b: int| 0 <= a < b < r.len() implies #[trigger] r[a] < #[trigger] r[b] by {
            assert(r[a] == o[a]);
            if b < o.len() {
                assert(r[b] == o[b]);
            }
        }
        let unseen = forall|j: int|
            0 <= j < n ==> (#[trigger] chunks[j]).content_hash != c.content_hash;
        let unembedded = forall|e: int|
            0 <= e < embeddings.len() ==> (#[trigger] embeddings[e]).chunk_hash != c.content_hash;
        assert(lists::first_index(embeddings, p) is None <==> unembedded) by {
            if lists::first_index(embeddings, p) is None {
                assert forall|e: int| 0 <= e < embeddings.len() implies (
                #[trigger] embeddings[e]).chunk_hash != c.content_hash by {
                    assert(!p(embeddings[e]));
                }
            } else {
                assert(p(embeddings[lists::first_index(embeddings, p)->0]));
            }
        }
        if unembedded {
            assert(lists::first_index(before, q) is None <==> unseen) by {
                lemma_first_of_hash(front, embeddings, c.content_hash);
                assert forall|j: int| 0 <= j < n implies front[j] == chunks[j] by {}
                if unseen {
                    assert forall|j: int| 0 <= j < front.len() implies (
                    #[trigger] front[j]).content_hash != c.content_hash by {
                        assert(chunks[j].content_hash != c.content_hash);
                    }
                } else {
                    let j = choose|j: int|
                        0 <= j < n && (#[trigger] chunks[j]).content_hash == c.content_hash;
                    assert(front[j].content_hash == c.content_hash);
                }
            }
        }
        assert forall|k: int| 0 <= k < chunks.len() implies (r.contains(k) <==> (forall|e: int|
            0 <= e < embeddings.len() ==> (#[trigger] embeddings[e]).chunk_hash
                != chunks[k].content_hash) && (forall|j: int|
            0 <= j < k ==> (#[trigger] chunks[j]).content_hash
                != #[trigger] chunks[k].content_hash)) by {
            if k < n {
                assert(front[k] == chunks[k]);
                assert forall|j: int| 0 <= j < k implies front[j] == chunks[j] by {}
                assert(r.contains(k) <==> o.contains(k)) by {
                    if o.contains(k) {
                        let x = choose|x: int| 0 <= x < o.len() && o[x] == k;
                        assert(r[x] == k);
                    }
                    if r.contains(k) {
                        let x = choose|x: int| 0 <= x < r.len() && r[x] == k;
                        assert(o[x] == k);
                    }
                }
            } else {
                assert(r.contains(k) <==> fresh) by {
                    if fresh {
                        assert(r[o.len() as int] == k);
                    }
                    if r.contains(k) && !fresh {
                        let x = choose|x: int| 0 <= x < r.len() && r[x] == k;
                        assert(o[x] < front.len());
                    }
                }
            }
        }
        r
    }
}

/// A hash without a vector is on the list exactly when a chunk has it.
proof fn lemma_first_of_hash(
    chunks: Seq<ChunkRowView>,
    embeddings: Seq<EmbeddingView>,
    hash: Seq<char>,
)
    requires
        forall|e: int|
            0 <= e < embeddings.len() ==> (#[trigger] embeddings[e]).chunk_hash != hash,
    ensures
        lists::first_index(missing(chunks, embeddings), begins_with(hash)) is None <==> forall|
            j: int,
        |
            0 <= j < chunks.len() ==> (#[trigger] chunks[j]).content_hash != hash,
    decreases chunks.len(),
{
    let todo = missing(chunks, embeddings);
    let q = begins_with(hash);
    lists::lemma_first_index(todo, q);
    if chunks.len() > 0 {
        let front = chunks.drop_last();
        let n = chunks.len() - 1;
        let before = missing(front, embeddings);
        let c = chunks[n];
        lemma_first_of_hash(front, embeddings, hash);
        lists::lemma_first_index(before, q);
        lists::lemma_first_index(embeddings, embeds(c.content_hash));
        if lists::first_index(before, q) is Some {
            let i = lists::first_index(before, q)->0;
            assert(q(before[i]));
            assert(todo[i] == before[i]);
            assert(q(todo[i]));
            let j = choose|j: int|
                0 <= j < front.len() && (#[trigger] front[j]).content_hash == hash;
            assert(chunks[j].content_hash == hash);
        } else {
            assert forall|j: int| 0 <= j < front.len() implies (
            #[trigger] chunks[j]).content_hash != hash by {
                assert(front[j] == chunks[j]);
            }
            assert forall|i: int| 0 <= i < before.len() implies !q(#[trigger] before[i]) by {}
            if c.content_hash == hash {
                let p = embeds(hash);
                if lists::first_index(embeddings, p) is Some {
                    assert(p(embeddings[lists::first_index(embeddings, p)->0]));
                }
                assert(todo == before.push((c.content_hash, c.text)));
                assert(q(todo[before.len() as int]));
            } else {
                assert forall|i: int| 0 <= i < todo.len() implies !q(#[trigger] todo[i]) by {
                    if i < before.len() {
                        assert(todo[i] == before[i]);
                    }
                }
            }
        }
    }
}

/// A new row gets an id that no row has: the next above all ids there are, and
/// above zero.
pub proof fn law_new_ids(t: Tables)
    ensures
        forall|i: int|
            0 <= i < t.chats.len() ==> (#[trigger] t.chats[i]).id < top_chat(t.chats) + 1,
        forall|i: int|
            0 <= i < t.handles.len() ==> (#[trigger] t.handles[i]).id < top_handle(t.handles) + 1,
        forall|i: int|
            0 <= i < t.messages.len() ==> (#[trigger] t.messages[i]).id < top_message(t.messages)
                + 1,
        forall|i: int|
            0 <= i < t.chunks.len() ==> (#[trigger] t.chunks[i]).id < top_chunk(t.chunks) + 1,
        top_chat(t.chats) >= 0,
        top_handle(t.handles) >= 0,
        top_message(t.messages) >= 0,
        top_chunk(t.chunks) >= 0,
    decreases t.chats.len() + t.handles.len() + t.messages.len() + t.chunks.len(),
{
    if t.chats.len() > 0 {
        let less = Tables { chats: t.chats.drop_last(), ..t };
        law_new_ids(less);
        assert forall|i: int| 0 <= i < t.chats.len() implies (#[trigger] t.chats[i]).id < top_chat(
            t.chats,
        ) + 1 by {
            if i < t.chats.len() - 1 {
                assert(less.chats[i] == t.chats[i]);
            }
        }
    } else if t.handles.len() > 0 {
        let less = Tables { handles: t.handles.drop_last(), ..t };
        law_new_ids(less);
        assert forall|i: int| 0 <= i < t.handles.len() implies (#[trigger] t.handles[i]).id
            < top_handle(t.handles) + 1 by {
            if i < t.handles.len() - 1 {
                assert(less.handles[i] == t.handles[i]);
            }
        }
    } else if t.messages.len() > 0 {
        let less = Tables { messages: t.messages.drop_last(), ..t };
        law_new_ids(less);
        assert forall|i: int| 0 <= i < t.messages.len() implies (#[trigger] t.messages[i]).id
            < top_message(t.messages) + 1 by {
            if i < t.messages.len() - 1 {
                assert(less.messages[i] == t.messages[i]);
            }
        }
    } else if t.chunks.len() > 0 {
        let less = Tables { chunks: t.chunks.drop_last(), ..t };
        law_new_ids(less);
        assert forall|i: int| 0 <= i < t.chunks.len() implies (#[trigger] t.chunks[i]).id
            < top_chunk(t.chunks) + 1 by {
            if i < t.chunks.len() - 1 {
                assert(less.chunks[i] == t.chunks[i]);
            }
        }
    }
}

/// Which handles a contact book renames: those whose name it does not give, and
/// those to which it gives none although they have one.
pub proof fn law_which_handles_are_renamed(
    handles: Seq<HandleView>,
    names: Map<Seq<char>, Seq<char>>,
    id: i64,
)
    ensures
        renamed_ids(handles, names).contains(id) <==> exists|k: int|
            0 <= k < handles.len() && (#[trigger] handles[k]).id == id && handles[k].name
                != contacts::name_for(names, handles[k].handle),
{
    let at = renamed_positions(handles, names);
    let ids = renamed_ids(handles, names);
    lemma_renamed_at(handles, names);
    if ids.contains(id) {
        let x = choose|x: int| 0 <= x < ids.len() && ids[x] == id;
        assert(0 <= at[x] < handles.len());
        assert(handles[at[x]].id == id);
    }
    if exists|k: int|
        0 <= k < handles.len() && (#[trigger] handles[k]).id == id && handles[k].name
            != contacts::name_for(names, handles[k].handle) {
        let k = choose|k: int|
            0 <= k < handles.len() && (#[trigger] handles[k]).id == id && handles[k].name
                != contacts::name_for(names, handles[k].handle);
        assert(at.contains(k));
        let x = choose|x: int| 0 <= x < at.len() && at[x] == k;
        assert(ids[x] == id);
    }
}

proof fn lemma_renamed_at(handles: Seq<HandleView>, names: Map<Seq<char>, Seq<char>>)
    ensures
        forall|x: int|
            0 <= x < renamed_positions(handles, names).len() ==> 0 <= (
            #[trigger] renamed_positions(handles, names)[x]) < handles.len() && handles[
                renamed_positions(handles, names)[x]
            ].name != contacts::name_for(
                names,
                handles[renamed_positions(handles, names)[x]].handle,
            ),
        forall|k: int|
            0 <= k < handles.len() && (#[trigger] handles[k]).name != contacts::name_for(
                names,
                handles[k].handle,
            ) ==> renamed_positions(handles, names).contains(k),
    decreases handles.len(),
{
    let at = renamed_positions(handles, names);
    if handles.len() > 0 {
        let front = handles.drop_last();
        let n = handles.len() - 1;
        let before = renamed_positions(front, names);
        lemma_renamed_at(front, names);
        assert forall|x: int| 0 <= x < at.len() implies 0 <= (#[trigger] at[x]) < handles.len()
            && handles[at[x]].name != contacts::name_for(names, handles[at[x]].handle) by {
            if x < before.len() {
                assert(at[x] == before[x]);
                assert(front[before[x]] == handles[before[x]]);
            }
        }
        assert forall|k: int| 0 <= k < handles.len() && (#[trigger] handles[k]).name
            != contacts::name_for(names, handles[k].handle) implies at.contains(k) by {
            if k < n {
                assert(front[k] == handles[k]);
                assert(before.contains(k));
                let x = choose|x: int| 0 <= x < before.len() && before[x] == k;
                assert(at[x] == k);
            } else {
                assert(at[before.len() as int] == k);
            }
        }
    }
}

} // verus!
