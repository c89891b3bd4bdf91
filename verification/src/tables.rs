//! The tables of the index: their rows, and the changes that lead from one
//! state of the tables to the next.
use crate::text;
use crate::text::clone_opt;
use vstd::prelude::*;

verus! {

/// A conversation.
#[derive(Debug, Clone, PartialEq, Eq)]
pub struct ChatRow {
    pub id: i64,
    pub guid: String,
    /// `None` when it is not known whether the chat is a group.
    pub is_group: Option<bool>,
    pub display_name: Option<String>,
}

/// Someone messages come from.
#[derive(Debug, Clone, PartialEq, Eq)]
pub struct HandleRow {
    pub id: i64,
    pub handle: String,
    /// The contact name, when one is known.
    pub name: Option<String>,
}

/// A message.
#[derive(Debug, Clone, PartialEq, Eq)]
pub struct MessageRow {
    pub id: i64,
    pub guid: String,
    pub source_rowid: i64,
    pub chat_id: Option<i64>,
    /// `None` for messages sent by the user.
    pub sender_id: Option<i64>,
    pub is_from_me: bool,
    pub sent_at_ms: Option<i64>,
    pub text: Option<String>,
    pub service: Option<String>,
    pub reply_to_guid: Option<String>,
    pub edited_at_ms: Option<i64>,
    pub retracted_at_ms: Option<i64>,
    pub is_tapback: bool,
    pub associated_type: Option<i64>,
    pub is_system_event: bool,
    pub content_hash: String,
}

/// A chunk of a conversation.
#[derive(Debug, Clone, PartialEq, Eq)]
pub struct ChunkRow {
    pub id: i64,
    pub chat_id: i64,
    /// Position within the chat.
    pub seq: i64,
    pub started_at_ms: Option<i64>,
    pub ended_at_ms: Option<i64>,
    pub message_count: u32,
    pub text: String,
    pub content_hash: String,
}

/// The vector of a chunk, kept by the chunk's content hash.
#[derive(Debug, Clone, PartialEq, Eq)]
pub struct EmbeddingRow {
    pub chunk_hash: String,
    pub model: String,
    /// The numbers of the vector, 32 bits each, little-endian.
    pub vector: Vec<u8>,
}

/// The contents of a [`ChatRow`].
pub struct ChatView {
    pub id: i64,
    pub guid: Seq<char>,
    pub is_group: Option<bool>,
    pub display_name: Option<Seq<char>>,
}

/// The contents of a [`HandleRow`].
pub struct HandleView {
    pub id: i64,
    pub handle: Seq<char>,
    pub name: Option<Seq<char>>,
}

/// The contents of a [`MessageRow`].
pub struct MessageView {
    pub id: i64,
    pub guid: Seq<char>,
    pub source_rowid: i64,
    pub chat_id: Option<i64>,
    pub sender_id: Option<i64>,
    pub is_from_me: bool,
    pub sent_at_ms: Option<i64>,
    pub text: Option<Seq<char>>,
    pub service: Option<Seq<char>>,
    pub reply_to_guid: Option<Seq<char>>,
    pub edited_at_ms: Option<i64>,
    pub retracted_at_ms: Option<i64>,
    pub is_tapback: bool,
    pub associated_type: Option<i64>,
    pub is_system_event: bool,
    pub content_hash: Seq<char>,
}

/// The contents of a [`ChunkRow`].
pub struct ChunkRowView {
    pub id: i64,
    pub chat_id: i64,
    pub seq: i64,
    pub started_at_ms: Option<i64>,
    pub ended_at_ms: Option<i64>,
    pub message_count: u32,
    pub text: Seq<char>,
    pub content_hash: Seq<char>,
}

/// The contents of an [`EmbeddingRow`].
pub struct EmbeddingView {
    pub chunk_hash: Seq<char>,
    pub model: Seq<char>,
    pub vector: Seq<u8>,
}

impl View for ChatRow {
    type V = ChatView;

    open spec fn view(&self) -> ChatView {
        ChatView {
            id: self.id,
            guid: self.guid@,
            is_group: self.is_group,
            display_name: text::opt_view(self.display_name),
        }
    }
}

impl View for HandleRow {
    type V = HandleView;

    open spec fn view(&self) -> HandleView {
        HandleView { id: self.id, handle: self.handle@, name: text::opt_view(self.name) }
    }
}

impl View for MessageRow {
    type V = MessageView;

    open spec fn view(&self) -> MessageView {
        MessageView {
            id: self.id,
            guid: self.guid@,
            source_rowid: self.source_rowid,
            chat_id: self.chat_id,
            sender_id: self.sender_id,
            is_from_me: self.is_from_me,
            sent_at_ms: self.sent_at_ms,
            text: text::opt_view(self.text),
            service: text::opt_view(self.service),
            reply_to_guid: text::opt_view(self.reply_to_guid),
            edited_at_ms: self.edited_at_ms,
            retracted_at_ms: self.retracted_at_ms,
            is_tapback: self.is_tapback,
            associated_type: self.associated_type,
            is_system_event: self.is_system_event,
            content_hash: self.content_hash@,
        }
    }
}

impl View for ChunkRow {
    type V = ChunkRowView;

    open spec fn view(&self) -> ChunkRowView {
        ChunkRowView {
            id: self.id,
            chat_id: self.chat_id,
            seq: self.seq,
            started_at_ms: self.started_at_ms,
            ended_at_ms: self.ended_at_ms,
            message_count: self.message_count,
            text: self.text@,
            content_hash: self.content_hash@,
        }
    }
}

impl View for EmbeddingRow {
    type V = EmbeddingView;

    open spec fn view(&self) -> EmbeddingView {
        EmbeddingView { chunk_hash: self.chunk_hash@, model: self.model@, vector: self.vector@ }
    }
}

/// The contents of a list of chats.
pub open spec fn chat_views(rows: Seq<ChatRow>) -> Seq<ChatView> {
    rows.map_values(|r: ChatRow| r@)
}

/// The contents of a list of handles.
pub open spec fn handle_views(rows: Seq<HandleRow>) -> Seq<HandleView> {
    rows.map_values(|r: HandleRow| r@)
}

/// The contents of a list of messages.
pub open spec fn message_views(rows: Seq<MessageRow>) -> Seq<MessageView> {
    rows.map_values(|r: MessageRow| r@)
}

/// The contents of a list of chunks.
pub open spec fn chunk_row_views(rows: Seq<ChunkRow>) -> Seq<ChunkRowView> {
    rows.map_values(|r: ChunkRow| r@)
}

/// The contents of a list of embeddings.
pub open spec fn embedding_views(rows: Seq<EmbeddingRow>) -> Seq<EmbeddingView> {
    rows.map_values(|r: EmbeddingRow| r@)
}

impl ChatRow {
    /// The same row again.
    pub fn copy(&self) -> (r: ChatRow)
        ensures
            r == *self,
    {
        ChatRow {
            id: self.id,
            guid: self.guid.clone(),
            is_group: self.is_group,
            display_name: clone_opt(&self.display_name),
        }
    }
}

impl HandleRow {
    /// The same row again.
    pub fn copy(&self) -> (r: HandleRow)
        ensures
            r == *self,
    {
        HandleRow { id: self.id, handle: self.handle.clone(), name: clone_opt(&self.name) }
    }
}

impl MessageRow {
    /// The same row again.
    pub fn copy(&self) -> (r: MessageRow)
        ensures
            r == *self,
    {
        MessageRow {
            id: self.id,
            guid: self.guid.clone(),
            source_rowid: self.source_rowid,
            chat_id: self.chat_id,
            sender_id: self.sender_id,
            is_from_me: self.is_from_me,
            sent_at_ms: self.sent_at_ms,
            text: clone_opt(&self.text),
            service: clone_opt(&self.service),
            reply_to_guid: clone_opt(&self.reply_to_guid),
            edited_at_ms: self.edited_at_ms,
            retracted_at_ms: self.retracted_at_ms,
            is_tapback: self.is_tapback,
            associated_type: self.associated_type,
            is_system_event: self.is_system_event,
            content_hash: self.content_hash.clone(),
        }
    }
}

impl ChunkRow {
    /// The same row again.
    pub fn copy(&self) -> (r: ChunkRow)
        ensures
            r == *self,
    {
        ChunkRow {
            id: self.id,
            chat_id: self.chat_id,
            seq: self.seq,
            started_at_ms: self.started_at_ms,
            ended_at_ms: self.ended_at_ms,
            message_count: self.message_count,
            text: self.text.clone(),
            content_hash: self.content_hash.clone(),
        }
    }
}

/// The bytes of a list again.
pub fn copy_bytes(b: &[u8]) -> (r: Vec<u8>)
    ensures
        r@ == b@,
{
    let mut r: Vec<u8> = Vec::new();
    r.extend_from_slice(b);
    proof {
        assert(r@ =~= b@);
    }
    r
}

impl EmbeddingRow {
    /// The same row again.
    pub fn copy(&self) -> (r: EmbeddingRow)
        ensures
            r@ == self@,
    {
        EmbeddingRow {
            chunk_hash: self.chunk_hash.clone(),
            model: self.model.clone(),
            vector: copy_bytes(&self.vector),
        }
    }
}

/// The contents of the index.
pub struct Tables {
    pub chats: Seq<ChatView>,
    pub handles: Seq<HandleView>,
    pub messages: Seq<MessageView>,
    pub chunks: Seq<ChunkRowView>,
    pub embeddings: Seq<EmbeddingView>,
    /// The highest source ROWID already ingested, as stored.
    pub watermark: Option<Seq<char>>,
    /// The embedding model the vectors were made with.
    pub model: Option<Seq<char>>,
}

/// A change of the index. An update names the position of the row in its
/// table; the row has the same id before and after.
#[derive(Debug)]
pub enum Change {
    InsertChat(ChatRow),
    UpdateChat(usize, ChatRow),
    InsertHandle(HandleRow),
    UpdateHandle(usize, HandleRow),
    InsertMessage(MessageRow),
    UpdateMessage(usize, MessageRow),
    InsertChunk(ChunkRow),
    UpdateChunk(usize, ChunkRow),
    /// Drops the chunks with this id.
    DeleteChunk(i64),
    InsertEmbedding(EmbeddingRow),
    UpdateEmbedding(usize, EmbeddingRow),
    /// Drops the embeddings of this content hash.
    DeleteEmbedding(String),
    ClearEmbeddings,
    SetWatermark(String),
    SetModel(String),
    /// Drops everything.
    Reset,
}

/// The contents of a [`Change`].
pub enum ChangeView {
    InsertChat(ChatView),
    UpdateChat(int, ChatView),
    InsertHandle(HandleView),
    UpdateHandle(int, HandleView),
    InsertMessage(MessageView),
    UpdateMessage(int, MessageView),
    InsertChunk(ChunkRowView),
    UpdateChunk(int, ChunkRowView),
    DeleteChunk(i64),
    InsertEmbedding(EmbeddingView),
    UpdateEmbedding(int, EmbeddingView),
    DeleteEmbedding(Seq<char>),
    ClearEmbeddings,
    SetWatermark(Seq<char>),
    SetModel(Seq<char>),
    Reset,
}

impl View for Change {
    type V = ChangeView;

    open spec fn view(&self) -> ChangeView {
        match *self {
            Change::InsertChat(r) => ChangeView::InsertChat(r@),
            Change::UpdateChat(i, r) => ChangeView::UpdateChat(i as int, r@),
            Change::InsertHandle(r) => ChangeView::InsertHandle(r@),
            Change::UpdateHandle(i, r) => ChangeView::UpdateHandle(i as int, r@),
            Change::InsertMessage(r) => ChangeView::InsertMessage(r@),
            Change::UpdateMessage(i, r) => ChangeView::UpdateMessage(i as int, r@),
            Change::InsertChunk(r) => ChangeView::InsertChunk(r@),
            Change::UpdateChunk(i, r) => ChangeView::UpdateChunk(i as int, r@),
            Change::DeleteChunk(id) => ChangeView::DeleteChunk(id),
            Change::InsertEmbedding(r) => ChangeView::InsertEmbedding(r@),
            Change::UpdateEmbedding(i, r) => ChangeView::UpdateEmbedding(i as int, r@),
            Change::DeleteEmbedding(h) => ChangeView::DeleteEmbedding(h@),
            Change::ClearEmbeddings => ChangeView::ClearEmbeddings,
            Change::SetWatermark(s) => ChangeView::SetWatermark(s@),
            Change::SetModel(s) => ChangeView::SetModel(s@),
            Change::Reset => ChangeView::Reset,
        }
    }
}

/// The contents of a list of changes.
pub open spec fn change_views(cs: Seq<Change>) -> Seq<ChangeView> {
    cs.map_values(|c: Change| c@)
}

/// An index that holds nothing.
pub open spec fn empty_tables() -> Tables {
    Tables {
        chats: Seq::empty(),
        handles: Seq::empty(),
        messages: Seq::empty(),
        chunks: Seq::empty(),
        embeddings: Seq::empty(),
        watermark: None,
        model: None,
    }
}

/// The chunks of a list that do not have an id.
pub open spec fn without_chunk(chunks: Seq<ChunkRowView>, id: i64) -> Seq<ChunkRowView>
    decreases chunks.len(),
{
    if chunks.len() == 0 {
        chunks
    } else if chunks.last().id == id {
        without_chunk(chunks.drop_last(), id)
    } else {
        without_chunk(chunks.drop_last(), id).push(chunks.last())
    }
}

/// The embeddings of a list that do not belong to a content hash.
pub open spec fn without_embedding(rows: Seq<EmbeddingView>, hash: Seq<char>) -> Seq<EmbeddingView>
    decreases rows.len(),
{
    if rows.len() == 0 {
        rows
    } else if rows.last().chunk_hash == hash {
        without_embedding(rows.drop_last(), hash)
    } else {
        without_embedding(rows.drop_last(), hash).push(rows.last())
    }
}

/// The tables after a change.
pub open spec fn after(t: Tables, c: ChangeView) -> Tables {
    match c {
        ChangeView::InsertChat(r) => Tables { chats: t.chats.push(r), ..t },
        ChangeView::UpdateChat(i, r) => Tables { chats: t.chats.update(i, r), ..t },
        ChangeView::InsertHandle(r) => Tables { handles: t.handles.push(r), ..t },
        ChangeView::UpdateHandle(i, r) => Tables { handles: t.handles.update(i, r), ..t },
        ChangeView::InsertMessage(r) => Tables { messages: t.messages.push(r), ..t },
        ChangeView::UpdateMessage(i, r) => Tables { messages: t.messages.update(i, r), ..t },
        ChangeView::InsertChunk(r) => Tables { chunks: t.chunks.push(r), ..t },
        ChangeView::UpdateChunk(i, r) => Tables { chunks: t.chunks.update(i, r), ..t },
        ChangeView::DeleteChunk(id) => Tables { chunks: without_chunk(t.chunks, id), ..t },
        ChangeView::InsertEmbedding(r) => Tables { embeddings: t.embeddings.push(r), ..t },
        ChangeView::UpdateEmbedding(i, r) => Tables {
            embeddings: t.embeddings.update(i, r),
            ..t
        },
        ChangeView::DeleteEmbedding(h) => Tables {
            embeddings: without_embedding(t.embeddings, h),
            ..t
        },
        ChangeView::ClearEmbeddings => Tables { embeddings: Seq::empty(), ..t },
        ChangeView::SetWatermark(s) => Tables { watermark: Some(s), ..t },
        ChangeView::SetModel(s) => Tables { model: Some(s), ..t },
        ChangeView::Reset => empty_tables(),
    }
}

/// The tables after a list of changes.
pub open spec fn replayed(t: Tables, cs: Seq<ChangeView>) -> Tables
    decreases cs.len(),
{
    if cs.len() == 0 {
        t
    } else {
        after(replayed(t, cs.drop_last()), cs.last())
    }
}

/// Replaying one change, or none.
pub proof fn lemma_replay_one(t: Tables, c: ChangeView)
    ensures
        replayed(t, seq![c]) == after(t, c),
        replayed(t, Seq::<ChangeView>::empty()) == t,
{
    assert(seq![c].drop_last() =~= Seq::<ChangeView>::empty());
    assert(replayed(t, Seq::<ChangeView>::empty()) == t);
}

/// Replaying one change more.
pub proof fn lemma_replay_push(t: Tables, cs: Seq<ChangeView>, c: ChangeView)
    ensures
        replayed(t, cs.push(c)) == after(replayed(t, cs), c),
{
    assert(cs.push(c).drop_last() =~= cs);
}

/// Replaying two lists of changes in turn is replaying the one after the
/// other.
pub proof fn lemma_replay_concat(t: Tables, a: Seq<ChangeView>, b: Seq<ChangeView>)
    ensures
        replayed(t, a + b) == replayed(replayed(t, a), b),
    decreases b.len(),
{
    if b.len() == 0 {
        assert(a + b =~= a);
    } else {
        lemma_replay_concat(t, a, b.drop_last());
        assert((a + b).drop_last() =~= a + b.drop_last());
    }
}

/// Whether no two chunks have the same id.
pub open spec fn distinct_ids(rows: Seq<ChunkRowView>) -> bool {
    forall|i: int, j: int| 0 <= i < j < rows.len() ==> (#[trigger] rows[i]).id != (#[trigger] rows[j]).id
}

/// Whether no content hash has two vectors.
pub open spec fn distinct_hashes(rows: Seq<EmbeddingView>) -> bool {
    forall|i: int, j: int|
        0 <= i < j < rows.len() ==> (#[trigger] rows[i]).chunk_hash != (#[trigger] rows[j]).chunk_hash
}

/// Whether the keys of the tables that are looked up by them are keys: no two
/// chunks have the same id, and no two vectors the same content hash.
pub open spec fn keyed(t: Tables) -> bool {
    distinct_ids(t.chunks) && distinct_hashes(t.embeddings)
}

} // verus!
