//! MCP (Model Context Protocol) server: JSON-RPC 2.0, tools capability only,
//! strictly read-only against the local index.
//!
//! One JSON message comes in, at most one JSON message goes out. What needs
//! the full-text engine or an embedding model is handed to the caller, which
//! comes back with what was found.
use crate::browse;
use crate::browse::{ChatSummary, RecentMessage, RecentView, Scope, SummaryView, WindowMessage, WindowMessageView};
use crate::config::Config;
use crate::index;
use crate::index::{HitView, IndexDb, SearchHit};
use crate::json;
use crate::json::{get, get_in, i64_at, quote, read, str_at, u64_at, Level, LevelView};
use crate::lists;
use crate::numeric;
use crate::numeric::{decimal_i64, decimal_u64};
use crate::retrieve;
use crate::retrieve::{hybrid_search, Candidate, RetrievalParams};
use crate::search;
use crate::tables::Tables;
use crate::text;
use crate::text::{is_blank, str_eq};
use crate::time;
use crate::time::{format_range, when_text};
use vstd::prelude::*;
use vstd::string::*;

verus! {

/// The newest protocol revision this server knows.
pub const NEWEST_PROTOCOL: &'static str = "2025-06-18";

/// The name under which the server introduces itself.
pub const SERVER_NAME: &'static str = "ai-imessage";

/// The version of this package.
pub const VERSION: &'static str = "0.1.0";

/// What the server says of itself to a client.
pub const INSTRUCTIONS: &'static str =
    "Read-only search over the local Apple Messages index. Use search_messages to find conversations, get_conversation to expand a chunk with surrounding context, and list_chats to browse chats.";

/// The tools, as a client sees them.
pub const TOOL_DEFINITIONS: &'static str =
    "[{\"description\":\"Search the local Apple Messages history. Returns matching conversation chunks with their chunk ids, chat, date range, and full text. Default mode fuses keyword and semantic ranking.\",\"inputSchema\":{\"properties\":{\"limit\":{\"description\":\"Max results (default from config, max 50)\",\"type\":\"integer\"},\"mode\":{\"description\":\"Retrieval mode (default hybrid)\",\"enum\":[\"hybrid\",\"keyword\",\"semantic\"],\"type\":\"string\"},\"query\":{\"description\":\"What to search for\",\"type\":\"string\"}},\"required\":[\"query\"],\"type\":\"object\"},\"name\":\"search_messages\"},{\"description\":\"Expand a search hit: the messages of one chunk plus surrounding messages from the same chat, in order.\",\"inputSchema\":{\"properties\":{\"after\":{\"description\":\"Context messages after (default from config, max 100)\",\"type\":\"integer\"},\"before\":{\"description\":\"Context messages before (default from config, max 100)\",\"type\":\"integer\"},\"chunk_id\":{\"description\":\"Chunk id from search_messages\",\"type\":\"integer\"}},\"required\":[\"chunk_id\"],\"type\":\"object\"},\"name\":\"get_conversation\"},{\"description\":\"List chats in the index, most recently active first, with message counts.\",\"inputSchema\":{\"properties\":{\"filter\":{\"description\":\"Case-insensitive substring of the chat name/handle\",\"type\":\"string\"},\"limit\":{\"description\":\"Max chats (default 25, max 200)\",\"type\":\"integer\"}},\"type\":\"object\"},\"name\":\"list_chats\"}]";

/// The revision that answers a client's: the client's own when it is
/// supported, else the newest.
pub open spec fn revision_for(requested: Seq<char>) -> Seq<char> {
    if requested == "2025-06-18"@ || requested == "2025-03-26"@ || requested == "2024-11-05"@ {
        requested
    } else {
        NEWEST_PROTOCOL@
    }
}

/// The protocol revision that answers a client's.
pub fn negotiate(requested: &str) -> (r: String)
    ensures
        r@ == revision_for(requested@),
{
    if str_eq(requested, "2025-06-18") || str_eq(requested, "2025-03-26") || str_eq(
        requested,
        "2024-11-05",
    ) {
        requested.to_owned()
    } else {
        NEWEST_PROTOCOL.to_owned()
    }
}

/// A successful answer.
pub open spec fn result_text(id: Seq<char>, result: Seq<char>) -> Seq<char> {
    "{\"id\":"@ + id + ",\"jsonrpc\":\"2.0\",\"result\":"@ + result + "}"@
}

/// An answer that names an error.
pub open spec fn error_text(id: Seq<char>, code: int, message: Seq<char>) -> Seq<char> {
    "{\"error\":{\"code\":"@ + numeric::decimal_int(code) + ",\"message\":"@
        + json::json_string(message) + "},\"id\":"@ + id + ",\"jsonrpc\":\"2.0\"}"@
}

/// What a tool hands back.
pub open spec fn content_text(text: Seq<char>, failed: bool) -> Seq<char> {
    "{\"content\":[{\"text\":"@ + json::json_string(text) + ",\"type\":\"text\"}],\"isError\":"@
        + (if failed {
        "true"@
    } else {
        "false"@
    }) + "}"@
}

fn rpc_result(id: &str, result: &str) -> (r: String)
    ensures
        r@ == result_text(id@, result@),
{
    let mut s = "{\"id\":".to_owned();
    s.append(id);
    s.append(",\"jsonrpc\":\"2.0\",\"result\":");
    s.append(result);
    s.append("}");
    s
}

/// An answer that names an error. `id` is the JSON text of the request's id.
pub fn rpc_error(id: &str, code: i64, message: &str) -> (r: String)
    ensures
        r@ == error_text(id@, code as int, message@),
{
    let mut s = "{\"error\":{\"code\":".to_owned();
    s.append(decimal_i64(code).as_str());
    s.append(",\"message\":");
    s.append(quote(message).as_str());
    s.append("},\"id\":");
    s.append(id);
    s.append(",\"jsonrpc\":\"2.0\"}");
    s
}

fn tool_content(text: &str, failed: bool) -> (r: String)
    ensures
        r@ == content_text(text@, failed),
{
    let mut s = "{\"content\":[{\"text\":".to_owned();
    s.append(quote(text).as_str());
    s.append(",\"type\":\"text\"}],\"isError\":");
    if failed {
        s.append("true");
    } else {
        s.append("false");
    }
    s.append("}");
    s
}

/// What the server answers to `initialize`.
pub open spec fn introduction(requested: Seq<char>) -> Seq<char> {
    "{\"capabilities\":{\"tools\":{}},\"instructions\":"@ + json::json_string(INSTRUCTIONS@)
        + ",\"protocolVersion\":"@ + json::json_string(revision_for(requested))
        + ",\"serverInfo\":{\"name\":"@ + json::json_string(SERVER_NAME@) + ",\"version\":"@
        + json::json_string(VERSION@) + "}}"@
}

fn initialize(requested: &str) -> (r: String)
    ensures
        r@ == introduction(requested@),
{
    let mut s = "{\"capabilities\":{\"tools\":{}},\"instructions\":".to_owned();
    s.append(quote(INSTRUCTIONS).as_str());
    s.append(",\"protocolVersion\":");
    s.append(quote(negotiate(requested).as_str()).as_str());
    s.append(",\"serverInfo\":{\"name\":");
    s.append(quote(SERVER_NAME).as_str());
    s.append(",\"version\":");
    s.append(quote(VERSION).as_str());
    s.append("}}");
    s
}

/// A JSON-RPC message as far as the server reads it.
#[derive(Debug, Clone, PartialEq, Eq)]
pub struct Request {
    /// The id as JSON text; none for a notification.
    pub id: Option<String>,
    /// Empty when there is none.
    pub method: String,
    /// The parameters as JSON text.
    pub params: String,
}

/// The contents of a [`Request`].
pub struct RequestView {
    pub id: Option<Seq<char>>,
    pub method: Seq<char>,
    pub params: Seq<char>,
}

impl View for Request {
    type V = RequestView;

    open spec fn view(&self) -> RequestView {
        RequestView { id: text::opt_view(self.id), method: self.method@, params: self.params@ }
    }
}

/// A text, or another where there is none.
pub open spec fn text_or(s: Option<Seq<char>>, other: Seq<char>) -> Seq<char> {
    match s {
        Some(s) => s,
        None => other,
    }
}

fn or_text(s: Option<String>, other: &str) -> (r: String)
    ensures
        r@ == text_or(text::opt_view(s), other@),
{
    match s {
        Some(s) => s,
        None => other.to_owned(),
    }
}

/// What a message asks, given what was read of it.
pub open spec fn request_in(l: Result<LevelView, Seq<char>>) -> RequestView {
    RequestView {
        id: match json::member_in(l, "id"@) {
            Some(id) => if json::reading(id) == Ok::<LevelView, Seq<char>>(LevelView::Null) {
                None
            } else {
                Some(id)
            },
            None => None,
        },
        method: text_or(
            match json::member_in(l, "method"@) {
                Some(m) => json::string_of(m),
                None => None,
            },
            ""@,
        ),
        params: text_or(json::member_in(l, "params"@), "null"@),
    }
}

/// Reads a message; the error says why it is no JSON.
pub fn read_request(message: &str) -> (r: Result<Request, String>)
    ensures
        match (r, json::reading(message@)) {
            (Ok(q), Ok(l)) => q@ == request_in(Ok(l)),
            (Err(e), Err(why)) => e@ == why,
            _ => false,
        },
{
    let level = read(message);
    match &level {
        Ok(_) => {},
        Err(e) => {
            return Err(e.clone());
        },
    }
    let id = match get_in(&level, "id") {
        Some(id) => match read(id.as_str()) {
            Ok(Level::Null) => None,
            _ => Some(id),
        },
        None => None,
    };
    let method = match get_in(&level, "method") {
        Some(m) => json::as_str(m.as_str()),
        None => None,
    };
    let params = or_text(get_in(&level, "params"), "null");
    Ok(Request { id, method: or_text(method, ""), params })
}

/// The arguments that the tools know.
#[derive(Debug, Clone, PartialEq, Eq, Default)]
pub struct Args {
    pub query: Option<String>,
    pub mode: Option<String>,
    pub filter: Option<String>,
    pub contact: Option<String>,
    pub chat: Option<String>,
    pub limit: Option<u64>,
    pub chunk_id: Option<i64>,
    pub before: Option<u64>,
    pub after: Option<u64>,
}

/// The contents of [`Args`].
pub struct ArgsView {
    pub query: Option<Seq<char>>,
    pub mode: Option<Seq<char>>,
    pub filter: Option<Seq<char>>,
    pub contact: Option<Seq<char>>,
    pub chat: Option<Seq<char>>,
    pub limit: Option<u64>,
    pub chunk_id: Option<i64>,
    pub before: Option<u64>,
    pub after: Option<u64>,
}

impl View for Args {
    type V = ArgsView;

    open spec fn view(&self) -> ArgsView {
        ArgsView {
            query: text::opt_view(self.query),
            mode: text::opt_view(self.mode),
            filter: text::opt_view(self.filter),
            contact: text::opt_view(self.contact),
            chat: text::opt_view(self.chat),
            limit: self.limit,
            chunk_id: self.chunk_id,
            before: self.before,
            after: self.after,
        }
    }
}

/// The arguments that a JSON text holds.
pub open spec fn args_in(s: Seq<char>) -> ArgsView {
    ArgsView {
        query: json::string_at(s, "query"@),
        mode: json::string_at(s, "mode"@),
        filter: json::string_at(s, "filter"@),
        contact: json::string_at(s, "contact"@),
        chat: json::string_at(s, "chat"@),
        limit: json::unsigned_at(s, "limit"@),
        chunk_id: json::signed_at(s, "chunk_id"@),
        before: json::unsigned_at(s, "before"@),
        after: json::unsigned_at(s, "after"@),
    }
}

/// Reads the arguments of a tool.
pub fn read_args(s: &str) -> (r: Args)
    ensures
        r@ == args_in(s@),
{
    Args {
        query: str_at(s, "query"),
        mode: str_at(s, "mode"),
        filter: str_at(s, "filter"),
        contact: str_at(s, "contact"),
        chat: str_at(s, "chat"),
        limit: u64_at(s, "limit"),
        chunk_id: i64_at(s, "chunk_id"),
        before: u64_at(s, "before"),
        after: u64_at(s, "after"),
    }
}

/// How results are found.
#[derive(Debug, Clone, Copy, PartialEq, Eq, Structural)]
pub enum Mode {
    Hybrid,
    Keyword,
    Semantic,
}

/// A search that a tool asks for.
#[derive(Debug, Clone, PartialEq, Eq)]
pub struct SearchRequest {
    pub query: String,
    pub limit: u32,
    pub mode: Mode,
    /// Whether the query has to be embedded.
    pub embed: bool,
}

/// The contents of a [`SearchRequest`].
pub struct SearchView {
    pub query: Seq<char>,
    pub limit: u32,
    pub mode: Mode,
    pub embed: bool,
}

impl View for SearchRequest {
    type V = SearchView;

    open spec fn view(&self) -> SearchView {
        SearchView { query: self.query@, limit: self.limit, mode: self.mode, embed: self.embed }
    }
}

/// What a tool comes to.
#[derive(Debug, Clone, PartialEq, Eq)]
pub enum Outcome {
    Text(String),
    /// The tool failed; the model is meant to read why.
    Failure(String),
    Search(SearchRequest),
    UnknownTool,
}

/// The contents of an [`Outcome`].
pub enum OutcomeView {
    Text(Seq<char>),
    Failure(Seq<char>),
    Search(SearchView),
    UnknownTool,
}

impl View for Outcome {
    type V = OutcomeView;

    open spec fn view(&self) -> OutcomeView {
        match *self {
            Outcome::Text(s) => OutcomeView::Text(s@),
            Outcome::Failure(s) => OutcomeView::Failure(s@),
            Outcome::Search(q) => OutcomeView::Search(q@),
            Outcome::UnknownTool => OutcomeView::UnknownTool,
        }
    }
}

/// A number held between two others.
pub open spec fn clamped(n: u64, low: u64, high: u64) -> u32 {
    if n < low {
        low as u32
    } else if n > high {
        high as u32
    } else {
        n as u32
    }
}

fn clamp(n: u64, low: u64, high: u64) -> (r: u32)
    requires
        low <= high <= u32::MAX,
    ensures
        r == clamped(n, low, high),
{
    if n < low {
        low as u32
    } else if n > high {
        high as u32
    } else {
        n as u32
    }
}

/// A number held between two others, or another where there is none.
pub open spec fn limit_or(n: Option<u64>, low: u64, high: u64, other: u32) -> u32 {
    match n {
        Some(n) => clamped(n, low, high),
        None => other,
    }
}

fn or_limit(n: Option<u64>, low: u64, high: u64, other: u32) -> (r: u32)
    requires
        low <= high <= u32::MAX,
    ensures
        r == limit_or(n, low, high, other),
{
    match n {
        Some(n) => clamp(n, low, high),
        None => other,
    }
}

/// An argument that is there and not blank.
pub open spec fn given(s: Option<Seq<char>>) -> Option<Seq<char>> {
    match s {
        Some(s) => if text::blank(s) {
            None
        } else {
            Some(s)
        },
        None => None,
    }
}

fn given_text(s: &Option<String>) -> (r: Option<&str>)
    ensures
        text::opt_str(r) == given(text::opt_view(*s)),
{
    match s {
        Some(s) => {
            if is_blank(s.as_str()) {
                None
            } else {
                Some(s.as_str())
            }
        },
        None => None,
    }
}

/// How many results a search may bring at most.
pub const MAX_RESULTS: u64 = 50;

/// How many messages of context may be asked for at most.
pub const MAX_CONTEXT: u64 = 100;

/// How many chats are listed unless asked otherwise, and at most.
pub const DEFAULT_CHATS: u32 = 25;

pub const MAX_CHATS: u64 = 200;

/// How many recent messages are shown unless asked otherwise, and at most.
pub const DEFAULT_RECENT: u32 = 20;

pub const MAX_RECENT: u64 = 100;

/// What a search asks for. `embeds` says whether there are vectors to
/// compare a query with.
pub open spec fn search_outcome(config: Config, embeds: bool, args: ArgsView) -> OutcomeView {
    match given(args.query) {
        None => OutcomeView::Failure("'query' (non-empty string) is required"@),
        Some(query) => {
            let limit = limit_or(args.limit, 1, MAX_RESULTS, config.retrieval.result_limit);
            let mode = text_or(args.mode, "hybrid"@);
            if mode == "keyword"@ {
                OutcomeView::Search(
                    SearchView { query, limit, mode: Mode::Keyword, embed: false },
                )
            } else if mode == "semantic"@ {
                if embeds {
                    OutcomeView::Search(
                        SearchView { query, limit, mode: Mode::Semantic, embed: true },
                    )
                } else {
                    OutcomeView::Failure("no embeddings in the index; run `ai-imessage etl`"@)
                }
            } else if mode == "hybrid"@ {
                OutcomeView::Search(
                    SearchView { query, limit, mode: Mode::Hybrid, embed: embeds },
                )
            } else {
                OutcomeView::Failure(
                    "unknown mode \""@ + mode + "\" (hybrid, keyword, or semantic)"@,
                )
            }
        },
    }
}

/// One result of a search, as a model reads it: the full text of the chunk
/// where it is still there, else the snippet.
pub open spec fn hit_text(t: Tables, h: HitView) -> Seq<char> {
    "\n[chunk "@ + numeric::decimal_int(h.chunk_id as int) + "] "@ + h.chat_label + " — "@
        + time::range(h.started_at_ms, h.ended_at_ms) + " ("@ + numeric::decimal_int(
        h.message_count as int,
    ) + " messages)\n"@ + text_or(search::text_of_chunk(t, h.chunk_id), h.snippet) + "\n"@
}

/// Some results of a search, one after the other.
pub open spec fn hit_texts(t: Tables, hits: Seq<HitView>) -> Seq<char>
    decreases hits.len(),
{
    if hits.len() == 0 {
        Seq::empty()
    } else {
        hit_texts(t, hits.drop_last()) + hit_text(t, hits.last())
    }
}

/// The results of a search, as a model reads them.
pub open spec fn results_text(t: Tables, query: Seq<char>, hits: Seq<HitView>) -> Seq<char> {
    if hits.len() == 0 {
        "No matches for \""@ + query + "\"."@
    } else {
        numeric::decimal(hits.len()) + " result(s) for \""@ + query + "\"\n"@ + hit_texts(t, hits)
    }
}

/// One message of a conversation, as a model reads it.
pub open spec fn window_line(m: WindowMessageView) -> Seq<char> {
    "["@ + time::when(m.sent_at_ms) + "] "@ + m.sender + ": "@ + m.text + (if m.in_span {
        ""@
    } else {
        "  (context)"@
    }) + "\n"@
}

/// Some messages of a conversation, one after the other.
pub open spec fn window_lines(ms: Seq<WindowMessageView>) -> Seq<char>
    decreases ms.len(),
{
    if ms.len() == 0 {
        Seq::empty()
    } else {
        window_lines(ms.drop_last()) + window_line(ms.last())
    }
}

/// The conversation around a chunk.
pub open spec fn conversation_outcome(t: Tables, config: Config, args: ArgsView) -> OutcomeView {
    match args.chunk_id {
        None => OutcomeView::Failure("'chunk_id' (integer) is required"@),
        Some(id) => {
            let before = limit_or(args.before, 0, MAX_CONTEXT, config.retrieval.context_before);
            let after = limit_or(args.after, 0, MAX_CONTEXT, config.retrieval.context_after);
            match browse::chunk_with_chat(t, id) {
                Some((c, chat)) => OutcomeView::Text(
                    search::chat_label(t, chat) + " — conversation around chunk "@
                        + numeric::decimal_int(id as int) + "\n"@ + window_lines(
                        browse::window(t, c, before as nat, after as nat),
                    ),
                ),
                None => OutcomeView::Failure("no chunk with id "@ + numeric::decimal_int(id as int)),
            }
        },
    }
}

/// What sort of chat it is.
pub open spec fn kind_of(is_group: Option<bool>) -> Seq<char> {
    match is_group {
        Some(true) => "group"@,
        Some(false) => "direct"@,
        None => "unknown"@,
    }
}

/// One chat, as a model reads it.
pub open spec fn chat_line(c: SummaryView) -> Seq<char> {
    "- "@ + c.label + " ("@ + kind_of(c.is_group) + ", "@ + numeric::decimal(
        c.message_count as nat,
    ) + " messages, last "@ + time::when(c.last_message_ms) + ")\n"@
}

/// Some chats, one after the other.
pub open spec fn chat_lines(cs: Seq<SummaryView>) -> Seq<char>
    decreases cs.len(),
{
    if cs.len() == 0 {
        Seq::empty()
    } else {
        chat_lines(cs.drop_last()) + chat_line(cs.last())
    }
}

/// The list of chats.
pub open spec fn chats_outcome(t: Tables, args: ArgsView) -> OutcomeView {
    let limit = limit_or(args.limit, 1, MAX_CHATS, DEFAULT_CHATS);
    let chats = browse::chat_list(t, given(args.filter), limit as nat);
    if chats.len() == 0 {
        OutcomeView::Text("No chats match."@)
    } else {
        OutcomeView::Text(
            numeric::decimal(chats.len()) + " chat(s), most recent first\n"@ + chat_lines(chats),
        )
    }
}

/// One recent message, as a model reads it.
pub open spec fn recent_line(m: RecentView) -> Seq<char> {
    "["@ + time::when(m.sent_at_ms) + "] "@ + m.sender + ": "@ + m.text + "\n"@
}

/// Some recent messages, one after the other.
pub open spec fn recent_lines(ms: Seq<RecentView>) -> Seq<char>
    decreases ms.len(),
{
    if ms.len() == 0 {
        Seq::empty()
    } else {
        recent_lines(ms.drop_last()) + recent_line(ms.last())
    }
}

/// The newest messages of a list, under a line that counts them.
pub open spec fn newest(ms: Seq<RecentView>, limit: nat) -> Seq<char> {
    let shown = browse::last_of(ms, limit);
    "\n"@ + numeric::decimal(shown.len()) + " most recent message(s), oldest to newest:\n"@
        + recent_lines(shown)
}

/// The last message of a list that the user sent, or that someone else did.
pub open spec fn last_from(ms: Seq<RecentView>, mine: bool) -> Option<RecentView>
    decreases ms.len(),
{
    if ms.len() == 0 {
        None
    } else if ms.last().is_from_me == mine {
        Some(ms.last())
    } else {
        last_from(ms.drop_last(), mine)
    }
}

/// When a message was sent and what it says.
pub open spec fn headline(m: Option<RecentView>) -> Seq<char> {
    match m {
        Some(m) => "["@ + time::when(m.sent_at_ms) + "] "@ + m.text,
        None => "none"@,
    }
}

/// When the user and a contact last wrote to each other, and what.
pub open spec fn contact_text(label: Seq<char>, ms: Seq<RecentView>, limit: nat) -> Seq<char> {
    "Contact: "@ + label + "\nLast message from them: "@ + headline(last_from(ms, false))
        + "\nLast message from you to them: "@ + headline(last_from(ms, true)) + "\n"@ + newest(
        ms,
        limit,
    )
}

/// The newest messages: of a contact, of the most recently active chat of a
/// name, or of all.
pub open spec fn recent_outcome(t: Tables, args: ArgsView) -> OutcomeView {
    let limit = limit_or(args.limit, 1, MAX_RECENT, DEFAULT_RECENT) as nat;
    match given(args.contact) {
        Some(contact) => match browse::contact_label(t, contact) {
            Some(label) => OutcomeView::Text(
                contact_text(label, browse::recents(t, browse::exchange(t, label)), limit),
            ),
            None => OutcomeView::Text(
                "No contact or handle matching \""@ + contact + "\"."@,
            ),
        },
        None => match given(args.chat) {
            Some(name) => {
                let chats = browse::chat_list(t, Some(name), 1);
                if chats.len() == 0 {
                    OutcomeView::Text("No chat matching \""@ + name + "\"."@)
                } else {
                    OutcomeView::Text(
                        "Chat: "@ + chats[0].label + "\n"@ + newest(
                            browse::recents(t, browse::ScopeView::Chat(chats[0].id)),
                            limit,
                        ),
                    )
                }
            },
            None => OutcomeView::Text(
                "All chats\n"@ + newest(
                    browse::recents(t, browse::ScopeView::Everything),
                    limit,
                ),
            ),
        },
    }
}

/// What a tool comes to.
pub open spec fn tool_outcome(
    t: Tables,
    config: Config,
    embeds: bool,
    name: Seq<char>,
    args: ArgsView,
) -> OutcomeView {
    if name == "search_messages"@ {
        search_outcome(config, embeds, args)
    } else if name == "get_conversation"@ {
        conversation_outcome(t, config, args)
    } else if name == "list_chats"@ {
        chats_outcome(t, args)
    } else if name == "get_recent_messages"@ {
        recent_outcome(t, args)
    } else {
        OutcomeView::UnknownTool
    }
}

/// What the server does next.
#[derive(Debug, Clone, PartialEq, Eq)]
pub enum Action {
    /// Nothing is sent back.
    Silence,
    /// This JSON text is sent back.
    Reply(String),
    /// A search is run, and its results are sent back under the id.
    Search { id: String, request: SearchRequest },
}

/// The contents of an [`Action`].
pub enum ActionView {
    Silence,
    Reply(Seq<char>),
    Search { id: Seq<char>, request: SearchView },
}

impl View for Action {
    type V = ActionView;

    open spec fn view(&self) -> ActionView {
        match *self {
            Action::Silence => ActionView::Silence,
            Action::Reply(s) => ActionView::Reply(s@),
            Action::Search { id, request } => ActionView::Search { id: id@, request: request@ },
        }
    }
}

/// What is sent back for what a tool came to. Tool failures are results, not
/// protocol errors.
pub open spec fn tool_action(id: Seq<char>, name: Seq<char>, outcome: OutcomeView) -> ActionView {
    match outcome {
        OutcomeView::Text(s) => ActionView::Reply(result_text(id, content_text(s, false))),
        OutcomeView::Failure(s) => ActionView::Reply(
            result_text(id, content_text("error: "@ + s, true)),
        ),
        OutcomeView::Search(request) => ActionView::Search { id, request },
        OutcomeView::UnknownTool => ActionView::Reply(
            error_text(id, -32602, "unknown tool: "@ + name),
        ),
    }
}

/// What the server does about a message. Notifications never get an answer,
/// whatever the method.
pub open spec fn action_for(t: Tables, config: Config, embeds: bool, q: RequestView) -> ActionView {
    match q.id {
        None => ActionView::Silence,
        Some(id) => if q.method == "initialize"@ {
            ActionView::Reply(
                result_text(
                    id,
                    introduction(text_or(json::string_at(q.params, "protocolVersion"@), ""@)),
                ),
            )
        } else if q.method == "ping"@ {
            ActionView::Reply(result_text(id, "{}"@))
        } else if q.method == "tools/list"@ {
            ActionView::Reply(result_text(id, "{\"tools\":"@ + TOOL_DEFINITIONS@ + "}"@))
        } else if q.method == "tools/call"@ {
            let name = text_or(json::string_at(q.params, "name"@), ""@);
            let args = args_in(text_or(json::member(q.params, "arguments"@), "{}"@));
            tool_action(id, name, tool_outcome(t, config, embeds, name, args))
        } else if q.method == ""@ {
            ActionView::Reply(error_text(id, -32600, "missing method"@))
        } else {
            ActionView::Reply(error_text(id, -32601, "method not found: "@ + q.method))
        },
    }
}

/// What a search found: results, or candidates that have yet to be ranked.
#[derive(Debug, Clone, PartialEq, Eq)]
pub enum Found {
    Hits(Vec<SearchHit>),
    Candidates(Vec<Candidate>),
}

/// The server: an index and a configuration, neither of which it changes.
pub struct McpServer {
    pub index: IndexDb,
    pub config: Config,
    /// Whether an embedder was already made.
    pub embedder_ready: bool,
}

impl McpServer {
    /// A server over an index.
    pub fn new(index: IndexDb, config: Config) -> (r: McpServer)
        ensures
            r.index == index,
            r.config == config,
            !r.embedder_ready,
    {
        McpServer { index, config, embedder_ready: false }
    }

    /// Whether there are vectors to compare a query with.
    pub open spec fn embeds(self) -> bool {
        self.embedder_ready || self.index@.embeddings.len() > 0
    }

    /// Answers one incoming JSON-RPC message, given as text. A text that is
    /// no JSON is answered with a parse error.
    pub fn receive(&self, message: &str) -> (r: Result<Action, String>)
        ensures
            match (r, json::reading(message@)) {
                (Ok(a), Ok(l)) => a@ == action_for(
                    self.index@,
                    self.config,
                    self.embeds(),
                    request_in(Ok(l)),
                ),
                (Err(e), Err(why)) => e@ == error_text("null"@, -32700, "parse error: "@ + why),
                _ => false,
            },
    {
        match read_request(message) {
            Ok(q) => Ok(self.handle(&q)),
            Err(why) => {
                let mut s = "parse error: ".to_owned();
                s.append(why.as_str());
                Err(rpc_error("null", -32700, s.as_str()))
            },
        }
    }

    /// Answers one incoming message.
    pub fn handle(&self, q: &Request) -> (r: Action)
        ensures
            r@ == action_for(self.index@, self.config, self.embeds(), q@),
    {
        let id = match &q.id {
            Some(id) => id.as_str(),
            None => {
                return Action::Silence;
            },
        };
        let method = q.method.as_str();
        if str_eq(method, "initialize") {
            let requested = or_text(str_at(q.params.as_str(), "protocolVersion"), "");
            return Action::Reply(rpc_result(id, initialize(requested.as_str()).as_str()));
        }
        if str_eq(method, "ping") {
            return Action::Reply(rpc_result(id, "{}"));
        }
        if str_eq(method, "tools/list") {
            let mut s = "{\"tools\":".to_owned();
            s.append(TOOL_DEFINITIONS);
            s.append("}");
            return Action::Reply(rpc_result(id, s.as_str()));
        }
        if str_eq(method, "tools/call") {
            return self.tools_call(id, q.params.as_str());
        }
        if str_eq(method, "") {
            return Action::Reply(rpc_error(id, -32600, "missing method"));
        }
        let mut s = "method not found: ".to_owned();
        s.append(method);
        Action::Reply(rpc_error(id, -32601, s.as_str()))
    }

    fn tools_call(&self, id: &str, params: &str) -> (r: Action)
        ensures
            r@ == tool_action(
                id@,
                text_or(json::string_at(params@, "name"@), ""@),
                tool_outcome(
                    self.index@,
                    self.config,
                    self.embeds(),
                    text_or(json::string_at(params@, "name"@), ""@),
                    args_in(text_or(json::member(params@, "arguments"@), "{}"@)),
                ),
            ),
    {
        let name = or_text(str_at(params, "name"), "");
        let arguments = or_text(get(params, "arguments"), "{}");
        let args = read_args(arguments.as_str());
        match self.run_tool(name.as_str(), &args) {
            Outcome::Text(s) => Action::Reply(tool_reply(id, s.as_str())),
            Outcome::Failure(s) => Action::Reply(tool_failure(id, s.as_str())),
            Outcome::Search(request) => Action::Search { id: id.to_owned(), request },
            Outcome::UnknownTool => {
                let mut s = "unknown tool: ".to_owned();
                s.append(name.as_str());
                Action::Reply(rpc_error(id, -32602, s.as_str()))
            },
        }
    }

    /// Runs a tool, or says what search it needs.
    pub fn run_tool(&self, name: &str, args: &Args) -> (r: Outcome)
        ensures
            r@ == tool_outcome(self.index@, self.config, self.embeds(), name@, args@),
    {
        if str_eq(name, "search_messages") {
            self.tool_search(args)
        } else if str_eq(name, "get_conversation") {
            self.tool_conversation(args)
        } else if str_eq(name, "list_chats") {
            self.tool_list_chats(args)
        } else if str_eq(name, "get_recent_messages") {
            self.tool_recent(args)
        } else {
            Outcome::UnknownTool
        }
    }

    fn tool_search(&self, args: &Args) -> (r: Outcome)
        ensures
            r@ == search_outcome(self.config, self.embeds(), args@),
    {
        let query = match given_text(&args.query) {
            Some(q) => q.to_owned(),
            None => {
                return Outcome::Failure("'query' (non-empty string) is required".to_owned());
            },
        };
        let limit = or_limit(args.limit, 1, MAX_RESULTS, self.config.retrieval.result_limit);
        let mode = match &args.mode {
            Some(m) => m.clone(),
            None => "hybrid".to_owned(),
        };
        let embeds = self.embedder_ready || self.index.embedding_count() > 0;
        if str_eq(mode.as_str(), "keyword") {
            return Outcome::Search(
                SearchRequest { query, limit, mode: Mode::Keyword, embed: false },
            );
        }
        if str_eq(mode.as_str(), "semantic") {
            if !embeds {
                return Outcome::Failure(
                    "no embeddings in the index; run `ai-imessage etl`".to_owned(),
                );
            }
            return Outcome::Search(
                SearchRequest { query, limit, mode: Mode::Semantic, embed: true },
            );
        }
        if str_eq(mode.as_str(), "hybrid") {
            return Outcome::Search(
                SearchRequest { query, limit, mode: Mode::Hybrid, embed: embeds },
            );
        }
        let mut s = "unknown mode \"".to_owned();
        s.append(mode.as_str());
        s.append("\" (hybrid, keyword, or semantic)");
        Outcome::Failure(s)
    }

    /// How many full-text matches a search needs at most.
    pub fn keyword_limit(&self, request: &SearchRequest) -> (r: u32)
        ensures
            r == match request.mode {
                Mode::Keyword => request.limit,
                Mode::Semantic => 0,
                Mode::Hybrid => self.config.retrieval.fts_candidates,
            },
    {
        match request.mode {
            Mode::Keyword => request.limit,
            Mode::Semantic => 0,
            Mode::Hybrid => self.config.retrieval.fts_candidates,
        }
    }

    /// What a search found, given the full-text matches of its query and,
    /// where the query was embedded, the similarity of each embedded chunk.
    pub fn find(
        &self,
        request: &SearchRequest,
        matches: &[(i64, String)],
        scores: Option<&[(i64, u32)]>,
    ) -> (r: Found)
        ensures
            match request.mode {
                Mode::Keyword => r matches Found::Hits(h) && index::hit_views(h@)
                    == search::first_of(
                    search::keyword_results(self.index@, search::match_views(matches@)),
                    request.limit as nat,
                ),
                Mode::Semantic => r matches Found::Hits(h) && index::hit_views(h@)
                    == search::vector_results(
                    self.index@,
                    search::ranked(
                        match scores {
                            Some(s) => s@,
                            None => Seq::empty(),
                        },
                        request.limit as nat,
                    ),
                ),
                Mode::Hybrid => r matches Found::Candidates(c) && retrieve::candidate_views(c@)
                    == retrieve::hybrid(
                    self.index@,
                    search::match_views(matches@),
                    match scores {
                        Some(s) => Some(s@),
                        None => None,
                    },
                    (RetrievalParams {
                        fts_candidates: self.config.retrieval.fts_candidates,
                        vector_candidates: self.config.retrieval.vector_candidates,
                        limit: request.limit,
                    }),
                ),
            },
    {
        match request.mode {
            Mode::Keyword => Found::Hits(self.index.search(matches, request.limit)),
            Mode::Semantic => match scores {
                Some(s) => Found::Hits(self.index.vector_search(s, request.limit)),
                None => {
                    let none: Vec<(i64, u32)> = Vec::new();
                    proof {
                        assert(none@ =~= Seq::<(i64, u32)>::empty());
                    }
                    Found::Hits(self.index.vector_search(&none, request.limit))
                },
            },
            Mode::Hybrid => {
                let params = RetrievalParams {
                    fts_candidates: self.config.retrieval.fts_candidates,
                    vector_candidates: self.config.retrieval.vector_candidates,
                    limit: request.limit,
                };
                Found::Candidates(hybrid_search(&self.index, matches, scores, &params))
            },
        }
    }

    /// The results of a search, as a model reads them.
    pub fn search_text(&self, query: &str, hits: &[SearchHit]) -> (r: String)
        ensures
            r@ == results_text(self.index@, query@, index::hit_views(hits@)),
    {
        let ghost all = index::hit_views(hits@);
        if hits.len() == 0 {
            let mut s = "No matches for \"".to_owned();
            s.append(query);
            s.append("\".");
            return s;
        }
        let mut s = decimal_u64(hits.len() as u64);
        s.append(" result(s) for \"");
        s.append(query);
        s.append("\"\n");
        let ghost head = s@;
        let mut i: usize = 0;
        proof {
            assert(head + hit_texts(self.index@, all.take(0)) =~= head);
        }
        while i < hits.len()
            invariant
                i <= hits@.len(),
                all == index::hit_views(hits@),
                s@ == head + hit_texts(self.index@, all.take(i as int)),
            decreases hits@.len() - i,
        {
            let h = &hits[i];
            proof {
                assert(all[i as int] == h@);
                assert(all.take(i + 1).drop_last() =~= all.take(i as int));
            }
            let mut line = "\n[chunk ".to_owned();
            line.append(decimal_i64(h.chunk_id).as_str());
            line.append("] ");
            line.append(h.chat_label.as_str());
            line.append(" — ");
            line.append(format_range(h.started_at_ms, h.ended_at_ms).as_str());
            line.append(" (");
            line.append(decimal_i64(h.message_count).as_str());
            line.append(" messages)\n");
            match self.index.chunk_text(h.chunk_id) {
                Some(t) => line.append(t.as_str()),
                None => line.append(h.snippet.as_str()),
            }
            line.append("\n");
            let ghost before = s@;
            s.append(line.as_str());
            proof {
                assert(line@ == hit_text(self.index@, h@));
                assert(before + line@ =~= head + (hit_texts(self.index@, all.take(i as int))
                    + line@));
            }
            i = i + 1;
        }
        proof {
            assert(all.take(i as int) =~= all);
        }
        s
    }

    fn tool_conversation(&self, args: &Args) -> (r: Outcome)
        ensures
            r@ == conversation_outcome(self.index@, self.config, args@),
    {
        let id: i64 = match args.chunk_id {
            Some(id) => id,
            None => {
                return Outcome::Failure("'chunk_id' (integer) is required".to_owned());
            },
        };
        let before = or_limit(args.before, 0, MAX_CONTEXT, self.config.retrieval.context_before);
        let after = or_limit(args.after, 0, MAX_CONTEXT, self.config.retrieval.context_after);
        match self.index.conversation_window(id, before, after) {
            Some(w) => {
                let mut s = w.chat_label;
                s.append(" — conversation around chunk ");
                s.append(decimal_i64(id).as_str());
                s.append("\n");
                s.append(window_text(&w.messages).as_str());
                Outcome::Text(s)
            },
            None => {
                let mut s = "no chunk with id ".to_owned();
                s.append(decimal_i64(id).as_str());
                Outcome::Failure(s)
            },
        }
    }

    fn tool_list_chats(&self, args: &Args) -> (r: Outcome)
        ensures
            r@ == chats_outcome(self.index@, args@),
    {
        let limit = or_limit(args.limit, 1, MAX_CHATS, DEFAULT_CHATS);
        let chats = self.index.list_chats(given_text(&args.filter), limit);
        proof {
            assert(browse::summary_views(chats@).len() == chats@.len());
        }
        if chats.len() == 0 {
            return Outcome::Text("No chats match.".to_owned());
        }
        let mut s = decimal_u64(chats.len() as u64);
        s.append(" chat(s), most recent first\n");
        s.append(chats_text(&chats).as_str());
        Outcome::Text(s)
    }

    fn tool_recent(&self, args: &Args) -> (r: Outcome)
        ensures
            r@ == recent_outcome(self.index@, args@),
    {
        let limit: usize = or_limit(args.limit, 1, MAX_RECENT, DEFAULT_RECENT) as usize;
        match given_text(&args.contact) {
            Some(contact) => {
                return match self.index.find_contact(contact) {
                    Some(label) => {
                        let scope = self.index.exchange_with(label.as_str());
                        let ms = self.index.recent_messages(&scope, usize::MAX);
                        Outcome::Text(exchange_text(label.as_str(), &ms, limit))
                    },
                    None => {
                        let mut s = "No contact or handle matching \"".to_owned();
                        s.append(contact);
                        s.append("\".");
                        Outcome::Text(s)
                    },
                };
            },
            None => {},
        }
        match given_text(&args.chat) {
            Some(name) => {
                let chats = self.index.list_chats(Some(name), 1);
                proof {
                    assert(browse::summary_views(chats@).len() == chats@.len());
                }
                if chats.len() == 0 {
                    let mut s = "No chat matching \"".to_owned();
                    s.append(name);
                    s.append("\".");
                    return Outcome::Text(s);
                }
                proof {
                    assert(browse::summary_views(chats@)[0] == chats@[0]@);
                }
                let ms = self.index.recent_messages(&Scope::Chat(chats[0].id), usize::MAX);
                let mut s = "Chat: ".to_owned();
                s.append(chats[0].label.as_str());
                s.append("\n");
                s.append(newest_text(&ms, limit).as_str());
                Outcome::Text(s)
            },
            None => {
                let ms = self.index.recent_messages(&Scope::Everything, usize::MAX);
                let mut s = "All chats\n".to_owned();
                s.append(newest_text(&ms, limit).as_str());
                Outcome::Text(s)
            },
        }
    }
}

/// What is sent back when a tool comes to a text.
pub fn tool_reply(id: &str, text: &str) -> (r: String)
    ensures
        r@ == result_text(id@, content_text(text@, false)),
{
    rpc_result(id, tool_content(text, false).as_str())
}

/// What is sent back when a tool fails.
pub fn tool_failure(id: &str, why: &str) -> (r: String)
    ensures
        r@ == result_text(id@, content_text("error: "@ + why@, true)),
{
    let mut s = "error: ".to_owned();
    s.append(why);
    rpc_result(id, tool_content(s.as_str(), true).as_str())
}

fn window_text(ms: &Vec<WindowMessage>) -> (r: String)
    ensures
        r@ == window_lines(browse::window_views(ms@)),
{
    let ghost all = browse::window_views(ms@);
    let mut s = String::new();
    let mut i: usize = 0;
    while i < ms.len()
        invariant
            i <= ms@.len(),
            all == browse::window_views(ms@),
            s@ == window_lines(all.take(i as int)),
        decreases ms@.len() - i,
    {
        let m = &ms[i];
        proof {
            assert(all[i as int] == m@);
            assert(all.take(i + 1).drop_last() =~= all.take(i as int));
        }
        let mut line = "[".to_owned();
        line.append(when_text(m.sent_at_ms).as_str());
        line.append("] ");
        line.append(m.sender.as_str());
        line.append(": ");
        line.append(m.text.as_str());
        if m.in_span {
            line.append("");
        } else {
            line.append("  (context)");
        }
        line.append("\n");
        s.append(line.as_str());
        i = i + 1;
    }
    proof {
        assert(all.take(i as int) =~= all);
    }
    s
}

fn chats_text(cs: &Vec<ChatSummary>) -> (r: String)
    ensures
        r@ == chat_lines(browse::summary_views(cs@)),
{
    let ghost all = browse::summary_views(cs@);
    let mut s = String::new();
    let mut i: usize = 0;
    while i < cs.len()
        invariant
            i <= cs@.len(),
            all == browse::summary_views(cs@),
            s@ == chat_lines(all.take(i as int)),
        decreases cs@.len() - i,
    {
        let c = &cs[i];
        proof {
            assert(all[i as int] == c@);
            assert(all.take(i + 1).drop_last() =~= all.take(i as int));
        }
        let mut line = "- ".to_owned();
        line.append(c.label.as_str());
        line.append(" (");
        match c.is_group {
            Some(true) => line.append("group"),
            Some(false) => line.append("direct"),
            None => line.append("unknown"),
        }
        line.append(", ");
        line.append(decimal_u64(c.message_count).as_str());
        line.append(" messages, last ");
        line.append(when_text(c.last_message_ms).as_str());
        line.append(")\n");
        s.append(line.as_str());
        i = i + 1;
    }
    proof {
        assert(all.take(i as int) =~= all);
    }
    s
}

fn newest_text(ms: &Vec<RecentMessage>, limit: usize) -> (r: String)
    ensures
        r@ == newest(browse::recent_views(ms@), limit as nat),
{
    let ghost all = browse::recent_views(ms@);
    let ghost shown = browse::last_of(all, limit as nat);
    let start: usize = if ms.len() > limit {
        ms.len() - limit
    } else {
        0
    };
    proof {
        assert(all.len() == ms@.len());
        assert(shown =~= all.skip(start as int));
    }
    let mut s = "\n".to_owned();
    s.append(decimal_u64((ms.len() - start) as u64).as_str());
    s.append(" most recent message(s), oldest to newest:\n");
    let ghost head = s@;
    let mut i: usize = start;
    proof {
        assert(head + recent_lines(shown.take(0)) =~= head);
    }
    while i < ms.len()
        invariant
            start <= i <= ms@.len(),
            all == browse::recent_views(ms@),
            shown == all.skip(start as int),
            s@ == head + recent_lines(shown.take(i - start)),
        decreases ms@.len() - i,
    {
        let m = &ms[i];
        proof {
            assert(all[i as int] == m@);
            assert(shown[i - start] == m@);
            assert(shown.take(i + 1 - start).drop_last() =~= shown.take(i - start));
        }
        let mut line = "[".to_owned();
        line.append(when_text(m.sent_at_ms).as_str());
        line.append("] ");
        line.append(m.sender.as_str());
        line.append(": ");
        line.append(m.text.as_str());
        line.append("\n");
        let ghost before = s@;
        s.append(line.as_str());
        proof {
            assert(line@ == recent_line(m@));
            assert(before + line@ =~= head + (recent_lines(shown.take(i - start)) + line@));
        }
        i = i + 1;
    }
    proof {
        assert(shown.take(i - start) =~= shown);
    }
    s
}

fn last_headline(ms: &Vec<RecentMessage>, mine: bool) -> (r: String)
    ensures
        r@ == headline(last_from(browse::recent_views(ms@), mine)),
{
    let ghost all = browse::recent_views(ms@);
    let mut n: usize = ms.len();
    proof {
        assert(all.take(n as int) =~= all);
    }
    while n > 0
        invariant
            n <= ms@.len(),
            all == browse::recent_views(ms@),
            last_from(all, mine) == last_from(all.take(n as int), mine),
        decreases n,
    {
        let m = &ms[n - 1];
        proof {
            assert(all[n - 1] == m@);
            assert(all.take(n as int).last() == m@);
            assert(all.take(n as int).drop_last() =~= all.take(n - 1));
        }
        if m.is_from_me == mine {
            let mut s = "[".to_owned();
            s.append(when_text(m.sent_at_ms).as_str());
            s.append("] ");
            s.append(m.text.as_str());
            return s;
        }
        n = n - 1;
    }
    "none".to_owned()
}

fn exchange_text(label: &str, ms: &Vec<RecentMessage>, limit: usize) -> (r: String)
    ensures
        r@ == contact_text(label@, browse::recent_views(ms@), limit as nat),
{
    let mut s = "Contact: ".to_owned();
    s.append(label);
    s.append("\nLast message from them: ");
    s.append(last_headline(ms, false).as_str());
    s.append("\nLast message from you to them: ");
    s.append(last_headline(ms, true).as_str());
    s.append("\n");
    s.append(newest_text(ms, limit).as_str());
    s
}

/// Every request with an id is answered, and no notification is.
pub proof fn law_requests_are_answered(t: Tables, config: Config, embeds: bool, q: RequestView)
    ensures
        action_for(t, config, embeds, q) is Silence <==> q.id is None,
        action_for(t, config, embeds, q) matches ActionView::Search { id, .. } ==> q.id == Some(id),
{
}

/// No search brings more results than may be asked for, whatever the
/// arguments, unless the configuration says so.
pub proof fn law_search_limit(config: Config, embeds: bool, args: ArgsView)
    ensures
        search_outcome(config, embeds, args) matches OutcomeView::Search(q) ==> (q.limit
            == config.retrieval.result_limit || 1 <= q.limit <= MAX_RESULTS),
{
}

/// Whether an argument is there and holds more than white space.
pub open spec fn is_given(s: Option<Seq<char>>) -> bool {
    s is Some && exists|i: int| 0 <= i < s->0.len() && !text::is_white(#[trigger] s->0[i])
}

proof fn lemma_given(s: Option<Seq<char>>)
    ensures
        is_given(s) ==> given(s) == s,
        !is_given(s) ==> given(s) is None,
{
    if s is Some {
        text::lemma_blank(s->0);
    }
}

/// Whether a number is the one that was asked for, where that lies within its
/// limits; the nearest limit, where it does not; and another where none was
/// asked for.
pub open spec fn is_limit(r: int, asked: Option<u64>, low: int, high: int, other: int) -> bool {
    match asked {
        Some(n) => low <= r <= high && (low <= n <= high ==> r == n) && (n < low ==> r == low) && (n
            > high ==> r == high),
        None => r == other,
    }
}

/// What a search asks for. It needs a query that is not blank, which it takes as
/// it is. It brings as many results as asked for, from 1 to 50, and as many as the
/// configuration says unless asked. It runs by keywords alone only where asked to,
/// by meaning alone only where asked to and where there are vectors, and else by
/// both; the query is embedded wherever its meaning is looked for and there are
/// vectors. Any other mode fails.
pub proof fn law_what_a_search_asks_for(config: Config, embeds: bool, args: ArgsView)
    ensures
        ({
            let o = search_outcome(config, embeds, args);
            let keyword = args.mode == Some("keyword"@);
            let semantic = args.mode == Some("semantic"@);
            let hybrid = args.mode is None || args.mode == Some("hybrid"@);
            &&& o is Search || o is Failure
            &&& o is Search <==> is_given(args.query) && (keyword || hybrid || (semantic && embeds))
            &&& o matches OutcomeView::Search(q) ==> {
                &&& Some(q.query) == args.query
                &&& is_limit(
                    q.limit as int,
                    args.limit,
                    1,
                    50,
                    config.retrieval.result_limit as int,
                )
                &&& q.mode == Mode::Keyword <==> keyword
                &&& q.mode == Mode::Semantic <==> semantic
                &&& q.mode == Mode::Hybrid <==> hybrid
                &&& q.embed <==> embeds && !keyword
            }
        }),
{
    lemma_given(args.query);
    reveal_strlit("keyword");
    reveal_strlit("semantic");
    reveal_strlit("hybrid");
    assert("keyword"@.len() == 7 && "semantic"@.len() == 8 && "hybrid"@.len() == 6);
}

/// Which conversation is shown: that around the chunk with the id, with as many
/// messages before and after it as asked for, up to 100, and as many as the
/// configuration says unless asked, under what its chat goes by. Without an id,
/// or where the chunk or its chat is not in the index, the tool fails.
pub proof fn law_which_conversation_is_shown(
    t: Tables,
    config: Config,
    args: ArgsView,
    i: int,
    j: int,
) -> (r: (int, int))
    requires
        args.chunk_id is Some ==> search::is_chunk_of(t, args.chunk_id->0, i, j),
    ensures
        ({
            let o = conversation_outcome(t, config, args);
            let (before, after) = r;
            &&& o is Failure <==> args.chunk_id is None
            &&& is_limit(before, args.before, 0, 100, config.retrieval.context_before as int)
            &&& is_limit(after, args.after, 0, 100, config.retrieval.context_after as int)
            &&& before >= 0
            &&& after >= 0
            &&& args.chunk_id is Some ==> o == OutcomeView::Text(
                search::chat_label(t, t.chats[j]) + " — conversation around chunk "@
                    + numeric::decimal_int(args.chunk_id->0 as int) + "\n"@ + window_lines(
                    browse::window(t, t.chunks[i], before as nat, after as nat),
                ),
            )
        }),
{
    if args.chunk_id is Some {
        let id = args.chunk_id->0;
        lists::lemma_is_first_index(t.chunks, search::chunk_has_id(id), i);
        lists::lemma_is_first_index(t.chats, search::chat_has_id(t.chunks[i].chat_id), j);
    }
    (
        limit_or(args.before, 0, MAX_CONTEXT, config.retrieval.context_before) as int,
        limit_or(args.after, 0, MAX_CONTEXT, config.retrieval.context_after) as int,
    )
}

/// Which chats are listed: at most as many as asked for, from 1 to 200, and 25
/// unless asked; those of a filter, where one is given that is not blank.
pub proof fn law_which_chats_are_listed(t: Tables, args: ArgsView) -> (n: int)
    ensures
        is_limit(n, args.limit, 1, 200, 25),
        n >= 0,
        ({
            let filter = if is_given(args.filter) {
                args.filter
            } else {
                None
            };
            let chats = browse::chat_list(t, filter, n as nat);
            chats_outcome(t, args) == OutcomeView::Text(
                if chats == Seq::<SummaryView>::empty() {
                    "No chats match."@
                } else {
                    numeric::decimal(chats.len()) + " chat(s), most recent first\n"@ + chat_lines(
                        chats,
                    )
                },
            )
        }),
{
    lemma_given(args.filter);
    let n = limit_or(args.limit, 1, MAX_CHATS, DEFAULT_CHATS) as int;
    let chats = browse::chat_list(t, given(args.filter), n as nat);
    if chats.len() == 0 {
        assert(chats =~= Seq::<SummaryView>::empty());
    }
    n
}

/// Whose recent messages are shown: those exchanged with a contact, where one is
/// given that is not blank; else those of the most recently active chat of a
/// name, where one is given; else all. At most as many as asked for, from 1 to
/// 100, and 20 unless asked.
pub proof fn law_whose_recent_messages_are_shown(t: Tables, args: ArgsView) -> (n: int)
    ensures
        is_limit(n, args.limit, 1, 100, 20),
        n >= 0,
        ({
            let o = recent_outcome(t, args);
            &&& is_given(args.contact) ==> match browse::contact_label(t, args.contact->0) {
                Some(label) => o == OutcomeView::Text(
                    contact_text(
                        label,
                        browse::recents(t, browse::exchange(t, label)),
                        n as nat,
                    ),
                ),
                None => o == OutcomeView::Text(
                    "No contact or handle matching \""@ + args.contact->0 + "\"."@,
                ),
            }
            &&& !is_given(args.contact) && is_given(args.chat) ==> ({
                let chats = browse::chat_list(t, args.chat, 1);
                if chats.len() == 0 {
                    o == OutcomeView::Text("No chat matching \""@ + args.chat->0 + "\"."@)
                } else {
                    o == OutcomeView::Text(
                        "Chat: "@ + chats[0].label + "\n"@ + newest(
                            browse::recents(t, browse::ScopeView::Chat(chats[0].id)),
                            n as nat,
                        ),
                    )
                }
            })
            &&& !is_given(args.contact) && !is_given(args.chat) ==> o == OutcomeView::Text(
                "All chats\n"@ + newest(
                    browse::recents(t, browse::ScopeView::Everything),
                    n as nat,
                ),
            )
        }),
{
    lemma_given(args.contact);
    lemma_given(args.chat);
    limit_or(args.limit, 1, MAX_RECENT, DEFAULT_RECENT) as int
}

/// Of two people the last message of either is the last of the list that goes in
/// that direction, at the place `k`; there is none where none does.
pub proof fn law_last_message_of_a_side(ms: Seq<RecentView>, mine: bool) -> (k: int)
    ensures
        last_from(ms, mine) is Some ==> 0 <= k < ms.len() && last_from(ms, mine) == Some(ms[k])
            && ms[k].is_from_me == mine,
        last_from(ms, mine) is None ==> k == -1,
        forall|j: int| k < j < ms.len() ==> (#[trigger] ms[j]).is_from_me != mine,
    decreases ms.len(),
{
    let n = ms.len() - 1;
    if ms.len() == 0 {
        -1
    } else if ms[n].is_from_me == mine {
        n
    } else {
        let f = ms.drop_last();
        let k = law_last_message_of_a_side(f, mine);
        assert forall|j: int| k < j < ms.len() implies (#[trigger] ms[j]).is_from_me != mine by {
            if j < n {
                assert(f[j] == ms[j]);
            }
        }
        k
    }
}

/// A message shown around a chunk takes one line: when it was sent, who sent it
/// and what it says; a note marks one that is not of the chunk. Messages one
/// after the other take their lines one after the other.
pub proof fn law_lines_of_a_conversation(a: Seq<WindowMessageView>, m: WindowMessageView)
    ensures
        window_lines(Seq::empty()) == Seq::<char>::empty(),
        window_lines(a.push(m)) == window_lines(a) + ("["@ + time::when(m.sent_at_ms) + "] "@
            + m.sender + ": "@ + m.text + (if m.in_span {
            ""@
        } else {
            "  (context)"@
        }) + "\n"@),
{
    assert(a.push(m).drop_last() =~= a);
}

/// A recent message takes one line: when it was sent, who sent it and what it
/// says. Messages one after the other take their lines one after the other.
pub proof fn law_lines_of_recent_messages(a: Seq<RecentView>, m: RecentView)
    ensures
        recent_lines(Seq::empty()) == Seq::<char>::empty(),
        recent_lines(a.push(m)) == recent_lines(a) + ("["@ + time::when(m.sent_at_ms) + "] "@
            + m.sender + ": "@ + m.text + "\n"@),
{
    assert(a.push(m).drop_last() =~= a);
}

/// A chat takes one line: what it goes by, its kind, how many messages it holds
/// and when the last came. Chats one after the other take their lines one after
/// the other.
pub proof fn law_lines_of_chats(a: Seq<SummaryView>, c: SummaryView)
    ensures
        chat_lines(Seq::empty()) == Seq::<char>::empty(),
        chat_lines(a.push(c)) == chat_lines(a) + ("- "@ + c.label + " ("@ + (if c.is_group is None {
            "unknown"@
        } else if c.is_group->0 {
            "group"@
        } else {
            "direct"@
        }) + ", "@ + numeric::decimal(c.message_count as nat) + " messages, last "@ + time::when(
            c.last_message_ms,
        ) + ")\n"@),
{
    assert(a.push(c).drop_last() =~= a);
}

/// A result shows the whole text of its chunk while the index has the chunk, and
/// the snippet where it no longer does. Results follow each other in their order.
pub proof fn law_what_a_result_shows(t: Tables, a: Seq<HitView>, h: HitView)
    ensures
        hit_texts(t, Seq::empty()) == Seq::<char>::empty(),
        hit_texts(t, a.push(h)) == hit_texts(t, a) + ("\n[chunk "@ + numeric::decimal_int(
            h.chunk_id as int,
        ) + "] "@ + h.chat_label + " — "@ + time::range(h.started_at_ms, h.ended_at_ms) + " ("@
            + numeric::decimal_int(h.message_count as int) + " messages)\n"@ + (
        if search::text_of_chunk(t, h.chunk_id) is Some {
            search::text_of_chunk(t, h.chunk_id)->0
        } else {
            h.snippet
        }) + "\n"@),
{
    assert(a.push(h).drop_last() =~= a);
}

/// The server speaks the revision that the client asks for where it knows it,
/// which is one of three, and else the newest of them.
pub proof fn law_which_revision_is_spoken(requested: Seq<char>)
    ensures
        ({
            let known = seq!["2024-11-05"@, "2025-03-26"@, "2025-06-18"@];
            &&& known.contains(requested) ==> revision_for(requested) == requested
            &&& !known.contains(requested) ==> revision_for(requested) == "2025-06-18"@
        }),
{
    let known = seq!["2024-11-05"@, "2025-03-26"@, "2025-06-18"@];
    assert(known[0] == "2024-11-05"@ && known[1] == "2025-03-26"@ && known[2] == "2025-06-18"@);
}

/// A message whose id is missing, or null, is a notification, and gets no answer.
/// What is not an object has neither an id nor a method.
pub proof fn law_what_a_message_asks(o: Seq<(Seq<char>, Seq<char>)>, k: int)
    requires
        0 <= k < o.len(),
        forall|j: int| 0 <= j < k ==> (#[trigger] o[j]).0 != o[k].0,
    ensures
        ({
            let q = request_in(Ok(LevelView::Object(o)));
            &&& o[k].0 == "id"@ ==> q.id == (if json::reading(o[k].1) == Ok::<
                LevelView,
                Seq<char>,
            >(LevelView::Null) {
                None
            } else {
                Some(o[k].1)
            })
            &&& o[k].0 == "method"@ ==> q.method == (match json::reading(o[k].1) {
                Ok(LevelView::Text(s)) => s,
                _ => ""@,
            })
            &&& o[k].0 == "params"@ ==> q.params == o[k].1
            &&& (forall|j: int| 0 <= j < o.len() ==> (#[trigger] o[j]).0 != "id"@) ==> q.id is None
        }),
{
    lists::lemma_is_first_index(o, json::has_key(o[k].0), k);
    if forall|j: int| 0 <= j < o.len() ==> (#[trigger] o[j]).0 != "id"@ {
        lists::lemma_no_first_index(o, json::has_key("id"@));
    }
}

/// Every method but four is refused, and so is a request without one; of the
/// tools, every one but four is.
pub proof fn law_what_is_refused(t: Tables, config: Config, embeds: bool, q: RequestView)
    requires
        q.id is Some,
    ensures
        ({
            let r = action_for(t, config, embeds, q);
            let name = match json::string_at(q.params, "name"@) {
                Some(s) => s,
                None => ""@,
            };
            &&& q.method == ""@ ==> r == ActionView::Reply(
                error_text(q.id->0, -32600, "missing method"@),
            )
            &&& q.method != ""@ && q.method != "initialize"@ && q.method != "ping"@ && q.method
                != "tools/list"@ && q.method != "tools/call"@ ==> r == ActionView::Reply(
                error_text(q.id->0, -32601, "method not found: "@ + q.method),
            )
            &&& q.method == "tools/call"@ && name != "search_messages"@ && name
                != "get_conversation"@ && name != "list_chats"@ && name != "get_recent_messages"@
                ==> r == ActionView::Reply(
                error_text(q.id->0, -32602, "unknown tool: "@ + name),
            )
        }),
{
    reveal_strlit("");
    reveal_strlit("initialize");
    reveal_strlit("ping");
    reveal_strlit("tools/list");
    reveal_strlit("tools/call");
    assert(""@.len() == 0 && "initialize"@.len() == 10 && "ping"@.len() == 4);
    assert("tools/list"@.len() == 10 && "tools/call"@.len() == 10);
    assert("initialize"@[0] == 'i' && "tools/list"@[6] == 'l' && "tools/call"@[6] == 'c');
}

/// Where the arguments of a tool are taken from: each from the member of its own
/// name.
pub proof fn law_where_arguments_come_from(s: Seq<char>)
    ensures
        args_in(s).query == json::string_at(s, "query"@),
        args_in(s).mode == json::string_at(s, "mode"@),
        args_in(s).filter == json::string_at(s, "filter"@),
        args_in(s).contact == json::string_at(s, "contact"@),
        args_in(s).chat == json::string_at(s, "chat"@),
        args_in(s).limit == json::unsigned_at(s, "limit"@),
        args_in(s).chunk_id == json::signed_at(s, "chunk_id"@),
        args_in(s).before == json::unsigned_at(s, "before"@),
        args_in(s).after == json::unsigned_at(s, "after"@),
{
}

/// Which tool a call runs, and what is made of what it comes to: a text is the
/// answer, a failure an answer that says so, and a search is run before it is
/// answered.
pub proof fn law_what_a_call_runs(t: Tables, config: Config, embeds: bool, q: RequestView)
    requires
        q.id is Some,
        q.method == "tools/call"@,
    ensures
        ({
            let name = json::string_at(q.params, "name"@);
            let args = args_in(
                if json::member(q.params, "arguments"@) is Some {
                    json::member(q.params, "arguments"@)->0
                } else {
                    "{}"@
                },
            );
            let r = action_for(t, config, embeds, q);
            let o = if name == Some("search_messages"@) {
                search_outcome(config, embeds, args)
            } else if name == Some("get_conversation"@) {
                conversation_outcome(t, config, args)
            } else if name == Some("list_chats"@) {
                chats_outcome(t, args)
            } else if name == Some("get_recent_messages"@) {
                recent_outcome(t, args)
            } else {
                OutcomeView::UnknownTool
            };
            match o {
                OutcomeView::Text(s) => r == ActionView::Reply(
                    "{\"id\":"@ + q.id->0 + ",\"jsonrpc\":\"2.0\",\"result\":"@ + (
                    "{\"content\":[{\"text\":"@ + json::json_string(s)
                        + ",\"type\":\"text\"}],\"isError\":"@ + "false"@ + "}"@) + "}"@,
                ),
                OutcomeView::Failure(s) => r == ActionView::Reply(
                    "{\"id\":"@ + q.id->0 + ",\"jsonrpc\":\"2.0\",\"result\":"@ + (
                    "{\"content\":[{\"text\":"@ + json::json_string("error: "@ + s)
                        + ",\"type\":\"text\"}],\"isError\":"@ + "true"@ + "}"@) + "}"@,
                ),
                OutcomeView::Search(request) => r == (ActionView::Search {
                    id: q.id->0,
                    request,
                }),
                OutcomeView::UnknownTool => r is Reply,
            }
        }),
{
    reveal_strlit("");
    reveal_strlit("initialize");
    reveal_strlit("ping");
    reveal_strlit("tools/list");
    reveal_strlit("tools/call");
    reveal_strlit("search_messages");
    reveal_strlit("get_conversation");
    reveal_strlit("list_chats");
    reveal_strlit("get_recent_messages");
    assert("initialize"@[0] == 'i' && "ping"@[0] == 'p' && "tools/list"@[6] == 'l'
        && "tools/call"@[6] == 'c' && "tools/call"@[0] == 't');
    assert("search_messages"@.len() == 15 && "get_conversation"@.len() == 16 && "list_chats"@.len()
        == 10 && "get_recent_messages"@.len() == 19 && ""@.len() == 0);
}

/// What is said of a search: how many results there are for which query, and then
/// the results; or that there are none.
pub proof fn law_what_is_said_of_a_search(t: Tables, query: Seq<char>, hits: Seq<HitView>)
    ensures
        results_text(t, query, Seq::empty()) == "No matches for \""@ + query + "\"."@,
        hits.len() > 0 ==> results_text(t, query, hits) == numeric::decimal(hits.len())
            + " result(s) for \""@ + query + "\"\n"@ + hit_texts(t, hits),
{
}

/// What is said of an exchange: with whom, what came last from either side and
/// when, and then as many of the newest messages as asked for.
pub proof fn law_what_is_said_of_an_exchange(label: Seq<char>, ms: Seq<RecentView>, limit: nat)
    ensures
        ({
            let line = |m: Option<RecentView>|
                if m is Some {
                    "["@ + time::when(m->0.sent_at_ms) + "] "@ + m->0.text
                } else {
                    "none"@
                };
            let shown = if ms.len() > limit {
                ms.skip(ms.len() - limit)
            } else {
                ms
            };
            contact_text(label, ms, limit) == "Contact: "@ + label
                + "\nLast message from them: "@ + line(last_from(ms, false))
                + "\nLast message from you to them: "@ + line(last_from(ms, true)) + "\n"@ + (
            "\n"@ + numeric::decimal(shown.len()) + " most recent message(s), oldest to newest:\n"@
                + recent_lines(shown))
        }),
{
}

} // verus!
