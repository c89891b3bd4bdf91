//! From a synthetic Messages database to search results: no test ever touches
//! a real `chat.db`.
use ai_imessage::browse::Scope;
use ai_imessage::chunk::ChunkParams;
use ai_imessage::cli::debug_text;
use ai_imessage::config::Config;
use ai_imessage::contacts::{ContactBook, DatabaseRead, NameRow};
use ai_imessage::dryrun::{build_report, text_samples, DryRunReport};
use ai_imessage::embed::{debug_hash_counts, vector_to_blob};
use ai_imessage::etl::{self, has_room, scan_start, EmbedReport, EmbedRun, SyncReport};
use ai_imessage::extract::{
    check_tables, count_of, row_to_message, select_sql, ChatStats, RawRow, SchemaCaps, SourceError,
    CHAT_STATS_SQL,
};
use ai_imessage::http::{parse_head, refuse, status_of};
use ai_imessage::index::{
    check_schema_version, IndexDb, IndexError, SearchHit, SCHEMA_SQL, SCHEMA_VERSION,
};
use ai_imessage::mcp::{tool_failure, tool_reply, Action, Found, McpServer, SearchRequest};
use ai_imessage::model::{
    ExtractedMessage, TextSource, CHAT_STYLE_DIRECT, CHAT_STYLE_GROUP,
};
use ai_imessage::retrieve::fuse;
use ai_imessage::search::{keyword_query, KEYWORD_SQL};
use ai_imessage::tables::{Change, MessageRow};
use ai_imessage::time::UtcTime;
use ai_imessage::typedstream;
use chrono::TimeZone;
use rusqlite::Connection;
use serde_json::Value;

const OVERLAP: u32 = 100;
const CHUNKING: ChunkParams = ChunkParams {
    gap_minutes: 45,
    target_tokens: 750,
    overlap_messages: 3,
};

#[derive(Debug, Clone, Copy, PartialEq, Eq)]
enum SchemaVariant {
    /// attributedBody, edits, retractions, replies.
    Modern,
    /// Plain text column only, second-resolution timestamps, none of the
    /// newer columns.
    Legacy,
}

struct Fixture {
    conn: Connection,
    variant: SchemaVariant,
}

struct MessageSpec<'a> {
    guid: &'a str,
    text: Option<&'a str>,
    /// Encoded into a real typedstream blob in `attributedBody`.
    attributed_text: Option<&'a str>,
    /// `handle.ROWID` of the sender; `None` for messages from me.
    handle_id: Option<i64>,
    is_from_me: bool,
    /// Raw value for `message.date` (nanoseconds on Modern, seconds on Legacy).
    date: i64,
    service: Option<&'a str>,
    date_edited: Option<i64>,
    date_retracted: Option<i64>,
    thread_originator_guid: Option<&'a str>,
    item_type: i64,
    associated_message_type: i64,
}

fn message<'a>(guid: &'a str) -> MessageSpec<'a> {
    MessageSpec {
        guid,
        text: None,
        attributed_text: None,
        handle_id: None,
        is_from_me: false,
        date: 0,
        service: Some("iMessage"),
        date_edited: None,
        date_retracted: None,
        thread_originator_guid: None,
        item_type: 0,
        associated_message_type: 0,
    }
}

const MODERN_SQL: &str = "
    CREATE TABLE handle (
      ROWID INTEGER PRIMARY KEY AUTOINCREMENT, id TEXT NOT NULL, service TEXT);
    CREATE TABLE chat (
      ROWID INTEGER PRIMARY KEY AUTOINCREMENT, guid TEXT NOT NULL, style INTEGER,
      display_name TEXT);
    CREATE TABLE message (
      ROWID INTEGER PRIMARY KEY AUTOINCREMENT, guid TEXT NOT NULL, text TEXT,
      attributedBody BLOB, handle_id INTEGER DEFAULT 0, is_from_me INTEGER DEFAULT 0,
      date INTEGER DEFAULT 0, service TEXT, date_edited INTEGER DEFAULT 0,
      date_retracted INTEGER DEFAULT 0, thread_originator_guid TEXT,
      item_type INTEGER DEFAULT 0, associated_message_type INTEGER DEFAULT 0);
    CREATE TABLE chat_message_join (
      chat_id INTEGER, message_id INTEGER, message_date INTEGER DEFAULT 0);
    CREATE TABLE chat_handle_join (chat_id INTEGER, handle_id INTEGER);";

const LEGACY_SQL: &str = "
    CREATE TABLE handle (
      ROWID INTEGER PRIMARY KEY AUTOINCREMENT, id TEXT NOT NULL, service TEXT);
    CREATE TABLE chat (
      ROWID INTEGER PRIMARY KEY AUTOINCREMENT, guid TEXT NOT NULL, style INTEGER,
      display_name TEXT);
    CREATE TABLE message (
      ROWID INTEGER PRIMARY KEY AUTOINCREMENT, guid TEXT NOT NULL, text TEXT,
      handle_id INTEGER DEFAULT 0, is_from_me INTEGER DEFAULT 0, date INTEGER DEFAULT 0,
      service TEXT, item_type INTEGER DEFAULT 0);
    CREATE TABLE chat_message_join (chat_id INTEGER, message_id INTEGER);
    CREATE TABLE chat_handle_join (chat_id INTEGER, handle_id INTEGER);";

impl Fixture {
    fn new(variant: SchemaVariant) -> Self {
        let conn = Connection::open_in_memory().unwrap();
        conn.execute_batch(match variant {
            SchemaVariant::Modern => MODERN_SQL,
            SchemaVariant::Legacy => LEGACY_SQL,
        })
        .unwrap();
        Fixture { conn, variant }
    }

    fn add_handle(&self, id: &str) -> i64 {
        self.conn
            .execute(
                "INSERT INTO handle (id, service) VALUES (?1, 'iMessage')",
                [id],
            )
            .unwrap();
        self.conn.last_insert_rowid()
    }

    fn add_chat(&self, guid: &str, style: i64, display_name: Option<&str>) -> i64 {
        self.conn
            .execute(
                "INSERT INTO chat (guid, style, display_name) VALUES (?1, ?2, ?3)",
                (guid, style, display_name),
            )
            .unwrap();
        self.conn.last_insert_rowid()
    }

    fn add_message(&self, spec: &MessageSpec) -> i64 {
        let blob = spec.attributed_text.map(typedstream::encode_text);
        match self.variant {
            SchemaVariant::Modern => {
                self.conn
                    .execute(
                        "INSERT INTO message
                           (guid, text, attributedBody, handle_id, is_from_me, date, service,
                            date_edited, date_retracted, thread_originator_guid,
                            item_type, associated_message_type)
                         VALUES (?1, ?2, ?3, ?4, ?5, ?6, ?7, ?8, ?9, ?10, ?11, ?12)",
                        (
                            spec.guid,
                            spec.text,
                            blob,
                            spec.handle_id.unwrap_or(0),
                            spec.is_from_me as i64,
                            spec.date,
                            spec.service,
                            spec.date_edited.unwrap_or(0),
                            spec.date_retracted.unwrap_or(0),
                            spec.thread_originator_guid,
                            spec.item_type,
                            spec.associated_message_type,
                        ),
                    )
                    .unwrap();
            }
            SchemaVariant::Legacy => {
                self.conn
                    .execute(
                        "INSERT INTO message
                           (guid, text, handle_id, is_from_me, date, service, item_type)
                         VALUES (?1, ?2, ?3, ?4, ?5, ?6, ?7)",
                        (
                            spec.guid,
                            spec.text,
                            spec.handle_id.unwrap_or(0),
                            spec.is_from_me as i64,
                            spec.date,
                            spec.service,
                            spec.item_type,
                        ),
                    )
                    .unwrap();
            }
        }
        self.conn.last_insert_rowid()
    }

    /// An in-place edit: the body is replaced and `date_edited` set.
    fn edit_message(&self, guid: &str, new_attributed_text: &str, date_edited: i64) {
        let blob = typedstream::encode_text(new_attributed_text);
        self.conn
            .execute(
                "UPDATE message SET text = NULL, attributedBody = ?2, date_edited = ?3
                 WHERE guid = ?1",
                (guid, blob, date_edited),
            )
            .unwrap();
    }

    /// A retraction: the body is cleared and `date_retracted` set.
    fn retract_message(&self, guid: &str, date_retracted: i64) {
        self.conn
            .execute(
                "UPDATE message SET text = NULL, attributedBody = NULL, date_retracted = ?2
                 WHERE guid = ?1",
                (guid, date_retracted),
            )
            .unwrap();
    }

    fn link_chat_message(&self, chat_id: i64, message_id: i64) {
        self.conn
            .execute(
                "INSERT INTO chat_message_join (chat_id, message_id) VALUES (?1, ?2)",
                [chat_id, message_id],
            )
            .unwrap();
    }

    fn link_chat_handle(&self, chat_id: i64, handle_id: i64) {
        self.conn
            .execute(
                "INSERT INTO chat_handle_join (chat_id, handle_id) VALUES (?1, ?2)",
                [chat_id, handle_id],
            )
            .unwrap();
    }

    fn names(&self, sql: &str) -> Vec<String> {
        let mut stmt = self.conn.prepare(sql).unwrap();
        let rows = stmt.query_map([], |r| r.get::<_, String>(0)).unwrap();
        rows.map(|r| r.unwrap()).collect()
    }

    fn caps(&self) -> SchemaCaps {
        let tables = self.names("SELECT name FROM sqlite_master WHERE type = 'table'");
        assert_eq!(check_tables("/chat.db", &tables), Ok(()));
        SchemaCaps::of_columns(&self.names("SELECT name FROM pragma_table_info('message')"))
    }

    fn collect_messages(&self, min_rowid: i64) -> Vec<ExtractedMessage> {
        let mut stmt = self.conn.prepare(&select_sql(&self.caps())).unwrap();
        let rows = stmt
            .query_map([min_rowid], |r| {
                Ok(RawRow {
                    rowid: r.get(0)?,
                    guid: r.get(1)?,
                    text: r.get(2)?,
                    attributed_body: r.get(3)?,
                    is_from_me: r.get(4)?,
                    date: r.get(5)?,
                    service: r.get(6)?,
                    date_edited: r.get(7)?,
                    date_retracted: r.get(8)?,
                    reply_to_guid: r.get(9)?,
                    item_type: r.get(10)?,
                    associated_type: r.get(11)?,
                    sender_handle: r.get(12)?,
                    chat_guid: r.get(13)?,
                    chat_style: r.get(14)?,
                    chat_display_name: r.get(15)?,
                })
            })
            .unwrap();
        rows.map(|r| row_to_message(r.unwrap())).collect()
    }

    fn chat_stats(&self) -> ChatStats {
        self.conn
            .query_row(CHAT_STATS_SQL, [], |r| {
                Ok(ChatStats::of_counts(r.get(0)?, r.get(1)?, r.get(2)?))
            })
            .unwrap()
    }

    fn message_count(&self) -> u64 {
        count_of(
            self.conn
                .query_row("SELECT COUNT(*) FROM message", [], |r| r.get(0))
                .unwrap(),
        )
    }

    fn report(&self) -> DryRunReport {
        let stats = self.chat_stats();
        assert!(stats.direct + stats.group <= stats.total);
        build_report("/chat.db", &self.collect_messages(0), &stats)
    }

    fn sync(&self, index: &mut IndexDb, overlap: u32, book: Option<&ContactBook>) -> SyncReport {
        let msgs = self.collect_messages(scan_start(index.watermark(), overlap));
        assert!(has_room(index, msgs.len()));
        etl::sync(&msgs, index, overlap, &CHUNKING, book, "/index.sqlite")
    }
}

/// An RFC 3339 timestamp in Apple nanoseconds (modern `message.date`).
fn apple_ns(rfc3339: &str) -> i64 {
    apple_secs(rfc3339) * 1_000_000_000
}

/// An RFC 3339 timestamp in Apple seconds (legacy `message.date`).
fn apple_secs(rfc3339: &str) -> i64 {
    let dt = chrono::DateTime::parse_from_rfc3339(rfc3339).unwrap();
    dt.timestamp() - 978_307_200
}

fn row<'a>(index: &'a IndexDb, guid: &str) -> &'a MessageRow {
    index.messages().iter().find(|m| m.guid == guid).unwrap()
}

/// The full-text side of an index: its chunks in a real FTS5 table.
fn full_text(index: &IndexDb, query: &str, limit: u32) -> Vec<(i64, String)> {
    let fts_query = match keyword_query(query) {
        Some(q) => q,
        None => return Vec::new(),
    };
    let conn = Connection::open_in_memory().unwrap();
    conn.execute_batch("PRAGMA foreign_keys = OFF;").unwrap();
    conn.execute_batch(SCHEMA_SQL).unwrap();
    for c in index.chunks() {
        conn.execute(
            "INSERT INTO chunks (id, chat_id, seq, message_count, text, content_hash)
             VALUES (?1, ?2, ?3, ?4, ?5, ?6)",
            (c.id, c.chat_id, c.seq, c.message_count, &c.text, &c.content_hash),
        )
        .unwrap();
        conn.execute(
            "INSERT INTO chunks_fts (rowid, text) VALUES (?1, ?2)",
            (c.id, &c.text),
        )
        .unwrap();
    }
    let mut stmt = conn.prepare(KEYWORD_SQL).unwrap();
    let rows = stmt
        .query_map((fts_query, limit), |r| Ok((r.get(0)?, r.get(1)?)))
        .unwrap();
    rows.map(|r| r.unwrap()).collect()
}

fn search(index: &IndexDb, query: &str, limit: u32) -> Vec<SearchHit> {
    index.search(&full_text(index, query, limit), limit)
}

/// The debug provider: counts at length one.
fn debug_vector(text: &str) -> Vec<f32> {
    let v: Vec<f32> = debug_hash_counts(text).iter().map(|n| *n as f32).collect();
    let norm = v.iter().map(|x| x * x).sum::<f32>().sqrt();
    v.iter().map(|x| if norm > 0.0 { x / norm } else { *x }).collect()
}

fn cosine(a: &[f32], b: &[f32]) -> f32 {
    if a.len() != b.len() || a.is_empty() {
        return 0.0;
    }
    let (mut dot, mut na, mut nb) = (0f32, 0f32, 0f32);
    for (x, y) in a.iter().zip(b) {
        dot += x * y;
        na += x * x;
        nb += y * y;
    }
    if na == 0.0 || nb == 0.0 {
        0.0
    } else {
        dot / (na.sqrt() * nb.sqrt())
    }
}

fn embed(index: &mut IndexDb) -> EmbedReport {
    let mut run = EmbedRun::begin(index, "debug-hash");
    loop {
        let texts = run.next_batch();
        if texts.is_empty() {
            return run.finish(index);
        }
        let vectors: Vec<Vec<u8>> = texts
            .iter()
            .map(|t| {
                let bits: Vec<u32> = debug_vector(t).iter().map(|x| x.to_bits()).collect();
                vector_to_blob(&bits)
            })
            .collect();
        run.store(index, &vectors);
    }
}

fn similarities(index: &IndexDb, query: &str) -> Vec<(i64, u32)> {
    let q = debug_vector(query);
    index
        .embedded_vectors()
        .iter()
        .map(|(id, bits)| {
            let v: Vec<f32> = bits.iter().map(|b| f32::from_bits(*b)).collect();
            (*id, cosine(&q, &v).to_bits())
        })
        .collect()
}

/// What a program around the server does: sends, searches when asked to, and
/// returns what comes back.
fn exchange(s: &McpServer, message: &str) -> Option<Value> {
    let text = match s.receive(message).unwrap() {
        Action::Silence => return None,
        Action::Reply(text) => text,
        Action::Search { id, request } => match hits(s, &request) {
            Ok(hits) => tool_reply(&id, &s.search_text(&request.query, &hits)),
            Err(why) => tool_failure(&id, &why),
        },
    };
    Some(serde_json::from_str(&text).unwrap())
}

fn hits(s: &McpServer, request: &SearchRequest) -> Result<Vec<SearchHit>, String> {
    let matches = full_text(&s.index, &request.query, s.keyword_limit(request));
    let scores = if request.embed {
        Some(similarities(&s.index, &request.query))
    } else {
        None
    };
    Ok(match s.find(request, &matches, scores.as_deref()) {
        Found::Hits(h) => h,
        Found::Candidates(found) => {
            let sums: Vec<u32> = found
                .iter()
                .map(|c| {
                    let mut sum = 0f32;
                    for rank in &c.ranks {
                        sum += 1.0 / (60.0 + *rank as f32 + 1.0);
                    }
                    sum.to_bits()
                })
                .collect();
            fuse(&found, &sums, request.limit as usize)
        }
    })
}

fn call(server: &McpServer, tool: &str, args: &str) -> Value {
    let message = format!(
        r#"{{"jsonrpc":"2.0","id":1,"method":"tools/call","params":{{"name":"{tool}","arguments":{args}}}}}"#
    );
    exchange(server, &message).unwrap()["result"].clone()
}

fn text_of(result: &Value) -> String {
    result["content"][0]["text"].as_str().unwrap().to_string()
}

fn debug_config() -> Config {
    let mut c = Config::default();
    c.embeddings.provider = "debug-hash".into();
    c
}

fn contact(first: &str, last: &str, value: &str) -> NameRow {
    NameRow {
        first: Some(first.into()),
        last: Some(last.into()),
        organization: None,
        value: value.into(),
    }
}

fn book(phones: Vec<NameRow>, emails: Vec<NameRow>) -> ContactBook {
    ContactBook::load("/contacts", &[DatabaseRead::Complete { phones, emails }]).unwrap()
}

// ------------------------------------------------------------- extraction

/// Direct and group chats, sent and received messages, plain text,
/// typedstream-only bodies, tapbacks, system events, edits, and replies.
fn populated_fixture() -> Fixture {
    let f = Fixture::new(SchemaVariant::Modern);
    let alice = f.add_handle("+15550100001");
    let bob = f.add_handle("bob@example.com");

    let direct = f.add_chat("iMessage;-;+15550100001", CHAT_STYLE_DIRECT, None);
    let group = f.add_chat("chat831264;+;group", CHAT_STYLE_GROUP, Some("The Crew"));
    f.link_chat_handle(direct, alice);
    f.link_chat_handle(group, alice);
    f.link_chat_handle(group, bob);

    // m1: received, plain text column.
    let m1 = f.add_message(&MessageSpec {
        text: Some("Hello Tim"),
        handle_id: Some(alice),
        date: apple_ns("2026-07-01T09:14:00Z"),
        ..message("m1")
    });
    f.link_chat_message(direct, m1);

    // m2: sent by me, body only in attributedBody (modern macOS pattern).
    let m2 = f.add_message(&MessageSpec {
        attributed_text: Some("Recovered from typedstream 🎉"),
        is_from_me: true,
        date: apple_ns("2026-07-01T09:16:30Z"),
        ..message("m2")
    });
    f.link_chat_message(direct, m2);

    // m3: a tapback with no text.
    let m3 = f.add_message(&MessageSpec {
        handle_id: Some(alice),
        date: apple_ns("2026-07-01T09:17:00Z"),
        associated_message_type: 2000,
        ..message("m3")
    });
    f.link_chat_message(direct, m3);

    // m4: a group-membership system event.
    let m4 = f.add_message(&MessageSpec {
        date: apple_ns("2026-07-02T10:00:00Z"),
        item_type: 2,
        ..message("m4")
    });
    f.link_chat_message(group, m4);

    // m5: group reply from bob, later edited.
    let m5 = f.add_message(&MessageSpec {
        text: Some("Replying in the group"),
        handle_id: Some(bob),
        date: apple_ns("2026-07-02T10:05:00Z"),
        date_edited: Some(apple_ns("2026-07-02T10:06:00Z")),
        thread_originator_guid: Some("m1"),
        service: Some("SMS"),
        ..message("m5")
    });
    f.link_chat_message(group, m5);

    // m6: both text column and blob — the column must win.
    let m6 = f.add_message(&MessageSpec {
        text: Some("column text"),
        attributed_text: Some("blob text"),
        handle_id: Some(alice),
        date: apple_ns("2026-07-03T08:00:00Z"),
        ..message("m6")
    });
    f.link_chat_message(direct, m6);

    // m7: empty text column, valid blob — blob must be used.
    let m7 = f.add_message(&MessageSpec {
        text: Some(""),
        attributed_text: Some("only in the blob"),
        handle_id: Some(alice),
        date: apple_ns("2026-07-03T08:01:00Z"),
        ..message("m7")
    });
    f.link_chat_message(direct, m7);

    // m8: orphan — no chat link, no timestamp. Must still extract.
    f.add_message(&MessageSpec {
        text: Some("orphaned message"),
        ..message("m8")
    });

    f
}

#[test]
fn extracts_all_messages_in_rowid_order() {
    let f = populated_fixture();
    let messages = f.collect_messages(0);
    assert_eq!(messages.len(), 8);
    let guids: Vec<&str> = messages.iter().map(|m| m.guid.as_str()).collect();
    assert_eq!(guids, ["m1", "m2", "m3", "m4", "m5", "m6", "m7", "m8"]);
    let rowids: Vec<i64> = messages.iter().map(|m| m.rowid).collect();
    let mut sorted = rowids.clone();
    sorted.sort_unstable();
    assert_eq!(rowids, sorted);
}

#[test]
fn plain_text_message_fields_are_correct() {
    let f = populated_fixture();
    let messages = f.collect_messages(0);
    let m1 = &messages[0];

    assert_eq!(m1.text.as_deref(), Some("Hello Tim"));
    assert_eq!(m1.text_source, TextSource::TextColumn);
    assert_eq!(m1.sender_handle.as_deref(), Some("+15550100001"));
    assert!(!m1.is_from_me);
    assert_eq!(m1.chat_guid.as_deref(), Some("iMessage;-;+15550100001"));
    assert_eq!(m1.is_group_chat(), Some(false));
    assert_eq!(m1.service.as_deref(), Some("iMessage"));
    assert_eq!(
        m1.sent_at.unwrap().to_rfc3339(),
        "2026-07-01T09:14:00+00:00"
    );
    assert!(!m1.is_tapback);
    assert!(!m1.is_system_event);
    assert_eq!(m1.edited_at, None);
    assert_eq!(m1.retracted_at, None);
}

#[test]
fn typedstream_only_message_is_recovered() {
    let f = populated_fixture();
    let messages = f.collect_messages(0);
    let m2 = &messages[1];

    assert_eq!(m2.text.as_deref(), Some("Recovered from typedstream 🎉"));
    assert_eq!(m2.text_source, TextSource::AttributedBody);
    assert!(m2.is_from_me);
    assert_eq!(m2.sender_handle, None);
}

#[test]
fn tapbacks_and_system_events_are_flagged() {
    let f = populated_fixture();
    let messages = f.collect_messages(0);

    let m3 = &messages[2];
    assert!(m3.is_tapback);
    assert_eq!(m3.text, None);
    assert_eq!(m3.text_source, TextSource::Absent);

    let m4 = &messages[3];
    assert!(m4.is_system_event);
    assert!(!m4.is_tapback);
}

#[test]
fn group_reply_with_edit_carries_metadata() {
    let f = populated_fixture();
    let messages = f.collect_messages(0);
    let m5 = &messages[4];

    assert_eq!(m5.chat_display_name.as_deref(), Some("The Crew"));
    assert_eq!(m5.is_group_chat(), Some(true));
    assert_eq!(m5.sender_handle.as_deref(), Some("bob@example.com"));
    assert_eq!(m5.reply_to_guid.as_deref(), Some("m1"));
    assert_eq!(m5.service.as_deref(), Some("SMS"));
    assert_eq!(
        m5.edited_at.unwrap().to_rfc3339(),
        "2026-07-02T10:06:00+00:00"
    );
}

#[test]
fn text_column_wins_over_blob_and_empty_column_falls_back() {
    let f = populated_fixture();
    let messages = f.collect_messages(0);

    let m6 = &messages[5];
    assert_eq!(m6.text.as_deref(), Some("column text"));
    assert_eq!(m6.text_source, TextSource::TextColumn);

    let m7 = &messages[6];
    assert_eq!(m7.text.as_deref(), Some("only in the blob"));
    assert_eq!(m7.text_source, TextSource::AttributedBody);
}

#[test]
fn orphan_message_without_chat_or_date_still_extracts() {
    let f = populated_fixture();
    let messages = f.collect_messages(0);
    let m8 = &messages[7];

    assert_eq!(m8.chat_guid, None);
    assert_eq!(m8.is_group_chat(), None);
    assert_eq!(m8.sent_at, None);
    assert_eq!(m8.text.as_deref(), Some("orphaned message"));
}

#[test]
fn rowid_watermark_skips_already_seen_messages() {
    let f = populated_fixture();
    let all = f.collect_messages(0);
    let after = f.collect_messages(all[2].rowid);
    assert_eq!(after.len(), 5);
    assert_eq!(after[0].guid, "m4");
}

#[test]
fn message_in_multiple_chats_is_extracted_once() {
    let f = populated_fixture();
    // Link m1 into the group chat as well (simulates a chat merge).
    f.link_chat_message(2, 1);
    let messages = f.collect_messages(0);
    assert_eq!(
        messages.len(),
        8,
        "duplicate join rows must not duplicate messages"
    );
    assert_eq!(messages.iter().filter(|m| m.guid == "m1").count(), 1);
}

#[test]
fn chat_stats_count_by_style() {
    let f = populated_fixture();
    let stats = f.chat_stats();
    assert_eq!(stats.direct, 1);
    assert_eq!(stats.group, 1);
    assert_eq!(stats.total, 2);
}

#[test]
fn message_count_matches_scan() {
    let f = populated_fixture();
    assert_eq!(f.message_count(), 8);
}

#[test]
fn empty_database_extracts_nothing() {
    let f = Fixture::new(SchemaVariant::Modern);
    assert_eq!(f.collect_messages(0).len(), 0);
    assert_eq!(f.message_count(), 0);
    assert_eq!(f.chat_stats().total, 0);
}

#[test]
fn modern_schema_caps_are_detected() {
    let f = Fixture::new(SchemaVariant::Modern);
    let caps = f.caps();
    assert!(caps.has_attributed_body);
    assert!(caps.has_date_edited);
    assert!(caps.has_date_retracted);
    assert!(caps.has_thread_originator_guid);
    assert!(caps.has_item_type);
    assert!(caps.has_associated_message_type);
}

#[test]
fn content_hash_reflects_edits_across_scans() {
    let f = populated_fixture();
    let before = f.collect_messages(0);
    let m1_before = before
        .iter()
        .find(|m| m.guid == "m1")
        .unwrap()
        .content_hash();

    // Simulate an edit landing in the source database.
    f.conn
        .execute(
            "UPDATE message SET text = 'Hello Tim (edited)', date_edited = ?1 WHERE guid = 'm1'",
            [apple_ns("2026-07-01T09:30:00Z")],
        )
        .unwrap();

    let after = f.collect_messages(0);
    let m1_after = after
        .iter()
        .find(|m| m.guid == "m1")
        .unwrap()
        .content_hash();
    assert_ne!(m1_before, m1_after, "edits must change the content hash");
}

fn legacy_fixture() -> Fixture {
    let f = Fixture::new(SchemaVariant::Legacy);
    let carol = f.add_handle("carol@example.com");
    let chat = f.add_chat("iMessage;-;carol@example.com", CHAT_STYLE_DIRECT, None);
    f.link_chat_handle(chat, carol);

    let m1 = f.add_message(&MessageSpec {
        text: Some("Sent long ago"),
        handle_id: Some(carol),
        date: apple_secs("2015-03-10T18:30:00Z"),
        ..message("legacy-1")
    });
    f.link_chat_message(chat, m1);

    let m2 = f.add_message(&MessageSpec {
        is_from_me: true,
        date: apple_secs("2015-03-10T18:31:00Z"),
        ..message("legacy-2")
    });
    f.link_chat_message(chat, m2);
    f
}

#[test]
fn legacy_schema_caps_are_all_absent() {
    let f = legacy_fixture();
    let caps = f.caps();
    assert!(!caps.has_attributed_body);
    assert!(!caps.has_date_edited);
    assert!(!caps.has_date_retracted);
    assert!(!caps.has_thread_originator_guid);
    assert!(!caps.has_associated_message_type);
    assert!(caps.has_item_type);
}

#[test]
fn legacy_messages_extract_with_second_timestamps() {
    let f = legacy_fixture();
    let messages = f.collect_messages(0);
    assert_eq!(messages.len(), 2);

    let m1 = &messages[0];
    assert_eq!(m1.text.as_deref(), Some("Sent long ago"));
    assert_eq!(m1.text_source, TextSource::TextColumn);
    assert_eq!(
        m1.sent_at.unwrap().to_rfc3339(),
        "2015-03-10T18:30:00+00:00"
    );
}

#[test]
fn missing_modern_columns_degrade_to_none() {
    let f = legacy_fixture();
    let messages = f.collect_messages(0);
    for m in &messages {
        assert_eq!(m.edited_at, None);
        assert_eq!(m.retracted_at, None);
        assert_eq!(m.reply_to_guid, None);
        assert!(!m.is_tapback);
    }
}

#[test]
fn legacy_message_without_text_has_no_source() {
    let f = legacy_fixture();
    let messages = f.collect_messages(0);
    let m2 = &messages[1];
    assert_eq!(m2.text, None);
    assert_eq!(m2.text_source, TextSource::Absent);
    assert!(m2.is_from_me);
}

// ---------------------------------------------------------------- dry run

fn dry_run_fixture() -> Fixture {
    let f = Fixture::new(SchemaVariant::Modern);
    let alice = f.add_handle("+15550100001");
    let direct = f.add_chat("direct-chat", CHAT_STYLE_DIRECT, None);
    let group = f.add_chat("group-chat", CHAT_STYLE_GROUP, Some("Group"));
    // A chat with an unknown style must land in "other".
    f.add_chat("weird-chat", 99, None);

    let m1 = f.add_message(&MessageSpec {
        text: Some("plain text body"),
        handle_id: Some(alice),
        date: apple_ns("2020-01-05T00:00:00Z"),
        ..message("r1")
    });
    f.link_chat_message(direct, m1);

    let m2 = f.add_message(&MessageSpec {
        attributed_text: Some("typedstream body"),
        is_from_me: true,
        date: apple_ns("2026-07-10T12:00:00Z"),
        ..message("r2")
    });
    f.link_chat_message(direct, m2);

    let m3 = f.add_message(&MessageSpec {
        associated_message_type: 2001,
        handle_id: Some(alice),
        date: apple_ns("2023-06-15T08:00:00Z"),
        ..message("r3")
    });
    f.link_chat_message(direct, m3);

    let m4 = f.add_message(&MessageSpec {
        item_type: 1,
        date: apple_ns("2024-02-20T09:00:00Z"),
        ..message("r4")
    });
    f.link_chat_message(group, m4);

    f
}

#[test]
fn report_counts_are_correct() {
    let r = dry_run_fixture().report();

    assert_eq!(r.total_messages, 4);
    assert_eq!(r.with_text_column, 1);
    assert_eq!(r.recovered_from_typedstream, 1);
    assert_eq!(r.without_text, 2);
    assert_eq!(r.tapbacks_without_text, 1);
    assert_eq!(r.system_events, 1);
    assert_eq!(r.direct_chats, 1);
    assert_eq!(r.group_chats, 1);
    assert_eq!(r.other_chats, 1);
}

#[test]
fn report_time_range_spans_earliest_to_latest() {
    let r = dry_run_fixture().report();
    assert_eq!(
        r.earliest.unwrap().to_rfc3339(),
        "2020-01-05T00:00:00+00:00"
    );
    assert_eq!(r.latest.unwrap().to_rfc3339(), "2026-07-10T12:00:00+00:00");
}

#[test]
fn report_display_never_contains_message_bodies() {
    let rendered = dry_run_fixture().report().render();
    assert!(!rendered.contains("plain text body"));
    assert!(!rendered.contains("typedstream body"));
}

#[test]
fn empty_database_produces_zeroed_report() {
    let r = Fixture::new(SchemaVariant::Modern).report();
    assert_eq!(r.total_messages, 0);
    assert_eq!(r.earliest, None);
    assert_eq!(r.latest, None);
}

#[test]
fn text_samples_respect_the_limit() {
    let f = dry_run_fixture();
    let samples = text_samples(&f.collect_messages(0), 1);
    assert_eq!(samples.len(), 1);
    assert!(samples[0].contains("plain text body"));
}

#[test]
fn text_samples_skip_textless_messages() {
    let f = dry_run_fixture();
    let samples = text_samples(&f.collect_messages(0), 10);
    // Only two messages have any text.
    assert_eq!(samples.len(), 2);
}

#[test]
fn text_samples_truncate_long_bodies() {
    let f = Fixture::new(SchemaVariant::Modern);
    let long_text = "x".repeat(500);
    f.add_message(&MessageSpec {
        text: Some(&long_text),
        date: apple_ns("2026-01-01T00:00:00Z"),
        ..message("long")
    });
    let samples = text_samples(&f.collect_messages(0), 1);
    assert!(samples[0].chars().count() < 200);
    assert!(samples[0].ends_with('…'));
}

#[test]
fn display_shows_na_for_empty_time_range() {
    let r = DryRunReport::default();
    let text = r.render();
    assert!(text.contains("Earliest: n/a"));
    assert!(text.contains("Latest:   n/a"));
}

#[test]
fn display_hides_other_chats_when_zero() {
    let mut r = DryRunReport::default();
    assert!(!r.render().contains("Other:"));
    r.other_chats = 2;
    assert!(r.render().contains("Other:  2"));
}

fn utc(y: i32, mo: u32, d: u32, h: u32, mi: u32, s: u32) -> UtcTime {
    let t = chrono::Utc.with_ymd_and_hms(y, mo, d, h, mi, s).unwrap();
    UtcTime::from_timestamp(t.timestamp(), 0).unwrap()
}

#[test]
fn display_formats_timestamps_as_utc_rfc3339() {
    let r = DryRunReport {
        earliest: Some(utc(2014, 5, 1, 12, 0, 0)),
        latest: Some(utc(2026, 7, 22, 9, 30, 0)),
        ..DryRunReport::default()
    };
    let text = r.render();
    assert!(text.contains("2014-05-01T12:00:00Z"));
    assert!(text.contains("2026-07-22T09:30:00Z"));
}

#[test]
fn dry_run_reports_counts_without_message_bodies() {
    let text = cli_fixture().report().render();
    assert!(text.contains("Total readable:             2"));
    assert!(text.contains("With plain text:            1"));
    assert!(text.contains("Recovered from typedstream: 1"));
    assert!(text.contains("Direct: 1"));
    assert!(text.contains("2026-07-01T09:14:00Z"));
    assert!(text.contains("2026-07-02T10:00:00Z"));
    assert!(!text.contains("SECRET BODY"));
}

#[test]
fn dry_run_debug_flag_shows_bodies_with_warning() {
    let messages = cli_fixture().collect_messages(0);
    let shown = debug_text(&messages, Some(5)).unwrap();
    assert!(shown.samples.contains("SECRET BODY ONE"));
    assert!(shown.samples.contains("SECRET BODY TWO"));
    assert!(shown.warning.contains("private message content"));
    assert_eq!(debug_text(&messages, None), None);
}

fn cli_fixture() -> Fixture {
    let f = Fixture::new(SchemaVariant::Modern);
    let alice = f.add_handle("+15550100001");
    let chat = f.add_chat("direct-chat", CHAT_STYLE_DIRECT, None);
    let m1 = f.add_message(&MessageSpec {
        text: Some("SECRET BODY ONE"),
        handle_id: Some(alice),
        date: apple_ns("2026-07-01T09:14:00Z"),
        ..message("cli-1")
    });
    f.link_chat_message(chat, m1);
    let m2 = f.add_message(&MessageSpec {
        attributed_text: Some("SECRET BODY TWO"),
        is_from_me: true,
        date: apple_ns("2026-07-02T10:00:00Z"),
        ..message("cli-2")
    });
    f.link_chat_message(chat, m2);
    f
}

// ------------------------------------------------------------------- sync

struct World {
    fixture: Fixture,
    index: IndexDb,
}

impl World {
    fn new() -> Self {
        World {
            fixture: Fixture::new(SchemaVariant::Modern),
            index: IndexDb::new(),
        }
    }

    fn sync(&mut self) -> SyncReport {
        self.sync_with_overlap(OVERLAP)
    }

    fn sync_with_overlap(&mut self, overlap: u32) -> SyncReport {
        self.fixture.sync(&mut self.index, overlap, None)
    }

    /// Loads the rows of the index anew, as opening it again does.
    fn reopen(&mut self) {
        let i = &self.index;
        let fresh = IndexDb::from_rows(
            i.chats().clone(),
            i.handles().clone(),
            i.messages().clone(),
            i.chunks().clone(),
            i.embeddings().clone(),
            Some(i.watermark().to_string()),
            None,
        );
        self.index = fresh;
    }
}

fn populate(w: &World) {
    let f = &w.fixture;
    let alice = f.add_handle("+15550100001");
    let bob = f.add_handle("bob@example.com");
    // Real chat.db stores an empty string, not NULL, for unnamed chats;
    // labels must still fall back to a participant handle.
    let direct = f.add_chat("direct-chat", CHAT_STYLE_DIRECT, Some(""));
    let group = f.add_chat("group-chat", CHAT_STYLE_GROUP, Some("The Group"));

    let m1 = f.add_message(&MessageSpec {
        text: Some("hello from alice"),
        handle_id: Some(alice),
        date: apple_ns("2026-07-01T09:00:00Z"),
        ..message("m1")
    });
    f.link_chat_message(direct, m1);

    let m2 = f.add_message(&MessageSpec {
        attributed_text: Some("reply from me"),
        is_from_me: true,
        date: apple_ns("2026-07-01T09:05:00Z"),
        ..message("m2")
    });
    f.link_chat_message(direct, m2);

    let m3 = f.add_message(&MessageSpec {
        attributed_text: Some("Loved “reply from me”"),
        associated_message_type: 2000,
        handle_id: Some(bob),
        date: apple_ns("2026-07-01T09:06:00Z"),
        ..message("m3")
    });
    f.link_chat_message(group, m3);
}

#[test]
fn first_run_ingests_everything() {
    let mut w = World::new();
    populate(&w);
    let r = w.sync();

    assert_eq!(r.scanned, 3);
    assert_eq!(r.inserted, 3);
    assert_eq!(r.updated, 0);
    assert_eq!(r.unchanged, 0);
    assert_eq!(r.watermark_before, 0);
    assert_eq!(r.watermark_after, 3);
    assert_eq!(r.total_messages, 3);
    assert_eq!(r.total_chats, 2);
    assert_eq!(r.total_handles, 2);
}

#[test]
fn normalized_rows_join_correctly() {
    let mut w = World::new();
    populate(&w);
    w.sync();
    let index = &w.index;

    // Sender resolution through the handles table.
    let m1 = row(index, "m1");
    let sender = index
        .handles()
        .iter()
        .find(|h| Some(h.id) == m1.sender_id)
        .unwrap();
    assert_eq!(sender.handle, "+15550100001");

    // From-me messages have no sender handle.
    let m2 = row(index, "m2");
    assert!(m2.is_from_me);
    assert_eq!(m2.sender_id, None);

    // Chat resolution, group flag, and display name.
    let m3 = row(index, "m3");
    let chat = index
        .chats()
        .iter()
        .find(|c| Some(c.id) == m3.chat_id)
        .unwrap();
    assert_eq!(chat.guid, "group-chat");
    assert_eq!(chat.is_group, Some(true));
    assert_eq!(chat.display_name.as_deref(), Some("The Group"));

    // Tapback classification carries through with its raw kind.
    assert!(m3.is_tapback);
    assert_eq!(m3.associated_type, Some(2000));

    // Timestamps land as unix millis.
    assert_eq!(
        m1.sent_at_ms,
        Some(
            chrono::DateTime::parse_from_rfc3339("2026-07-01T09:00:00Z")
                .unwrap()
                .timestamp_millis()
        )
    );
}

#[test]
fn second_run_is_idempotent() {
    let mut w = World::new();
    populate(&w);
    w.sync();
    let r = w.sync();

    assert_eq!(r.inserted, 0);
    assert_eq!(r.updated, 0);
    // Overlap rescans the tail; everything in it is unchanged.
    assert_eq!(r.unchanged, 3);
    assert_eq!(r.total_messages, 3);
    assert_eq!(r.watermark_after, 3);
}

#[test]
fn a_second_sync_changes_nothing() {
    let mut w = World::new();
    populate(&w);
    w.sync();
    let i = &w.index;
    let before = (
        i.chats().clone(),
        i.handles().clone(),
        i.messages().clone(),
        i.chunks().clone(),
        i.embeddings().clone(),
        i.watermark(),
    );
    let r = w.sync();
    assert_eq!(r.rechunked_chats, 0);
    let i = &w.index;
    assert_eq!(*i.chats(), before.0);
    assert_eq!(*i.handles(), before.1);
    assert_eq!(*i.messages(), before.2);
    assert_eq!(*i.chunks(), before.3);
    assert_eq!(*i.embeddings(), before.4);
    assert_eq!(i.watermark(), before.5);
}

#[test]
fn a_second_report_repeats_the_totals() {
    let mut w = World::new();
    populate(&w);
    let a = w.sync();
    let b = w.sync();
    assert_eq!((b.inserted, b.updated, b.unchanged), (0, 0, b.scanned));
    assert_eq!(b.watermark_before, a.watermark_after);
    assert_eq!(b.watermark_after, a.watermark_after);
    assert_eq!(b.total_messages, a.total_messages);
    assert_eq!(b.total_chats, a.total_chats);
    assert_eq!(b.total_handles, a.total_handles);
    assert_eq!(b.total_chunks, a.total_chunks);
}

#[test]
fn rows_that_disagree_on_a_chat_add_none_the_second_time() {
    let mut w = World::new();
    populate(&w);
    let mut msgs = w.fixture.collect_messages(0);
    msgs[1].chat_display_name = Some("another name".into());
    etl::sync(&msgs, &mut w.index, OVERLAP, &CHUNKING, None, "");
    assert_eq!(w.index.chats().len(), 2);
    etl::sync(&msgs, &mut w.index, OVERLAP, &CHUNKING, None, "");
    assert_eq!(w.index.chats().len(), 2);
}

#[test]
fn cutting_a_chat_again_keeps_every_row() {
    let mut w = World::new();
    let f = &w.fixture;
    let alice = f.add_handle("+15550100001");
    let chat = f.add_chat("direct-chat", CHAT_STYLE_DIRECT, None);
    // Three conversations of one chat, each a lull apart.
    for (guid, text, day) in [("a", "same", 1), ("b", "other", 2), ("c", "same", 3)] {
        let m = f.add_message(&MessageSpec {
            text: Some(text),
            handle_id: Some(alice),
            date: apple_ns(&format!("2026-07-0{day}T09:00:00Z")),
            ..message(guid)
        });
        f.link_chat_message(chat, m);
    }
    w.sync();
    let id = w.index.chats()[0].id;
    let ids = |index: &IndexDb| -> Vec<(i64, String)> {
        let rows = index.chunks().iter();
        rows.map(|c| (c.id, c.content_hash.clone())).collect()
    };
    let rows = w.index.chunks().clone();
    let before = ids(&w.index);
    assert_eq!(rows.len(), 3);
    assert_eq!(w.index.rechunk_chat(id, &CHUNKING), (3, 0, 0));
    assert_eq!(ids(&w.index), before);

    // A row whose hash is wanted no more often gives way to a new one.
    let mut doubled = rows.clone();
    doubled[1].content_hash = doubled[0].content_hash.clone();
    let i = &w.index;
    let mut index = IndexDb::from_rows(
        i.chats().clone(),
        i.handles().clone(),
        i.messages().clone(),
        doubled,
        i.embeddings().clone(),
        Some(i.watermark().to_string()),
        None,
    );
    assert_eq!(index.rechunk_chat(id, &CHUNKING), (2, 1, 1));
    let kept = ids(&index);
    for (i, row) in kept.iter().enumerate() {
        assert!(kept[..i].iter().all(|other| other.0 != row.0));
    }
    assert_eq!(index.rechunk_chat(id, &CHUNKING), (3, 0, 0));
    assert_eq!(ids(&index), kept);
}

#[test]
fn a_sync_recuts_the_chats_it_touched_and_no_others() {
    let mut w = World::new();
    populate(&w);
    w.sync();
    let other = w.index.chunks()[1].clone();
    w.fixture
        .edit_message("m1", "changed", apple_ns("2026-07-01T10:00:00Z"));
    let r = w.sync();
    assert_eq!(r.rechunked_chats, 1);
    let texts: Vec<&str> = w
        .index
        .chunks()
        .iter()
        .filter(|c| c.chat_id != other.chat_id)
        .map(|c| c.text.as_str())
        .collect();
    assert_eq!(texts, vec!["+15550100001: changed\nMe: reply from me"]);
    assert!(w.index.chunks().contains(&other));
}

#[test]
fn new_messages_are_picked_up_incrementally() {
    let mut w = World::new();
    populate(&w);
    w.sync();

    let f = &w.fixture;
    let m4 = f.add_message(&MessageSpec {
        text: Some("a new message"),
        date: apple_ns("2026-07-02T08:00:00Z"),
        is_from_me: true,
        ..message("m4")
    });
    f.link_chat_message(1, m4);

    let r = w.sync();
    assert_eq!(r.inserted, 1);
    assert_eq!(r.unchanged, 3);
    assert_eq!(r.total_messages, 4);
    assert_eq!(r.watermark_after, 4);
}

#[test]
fn edits_inside_the_overlap_window_are_applied() {
    let mut w = World::new();
    populate(&w);
    w.sync();

    w.fixture.edit_message(
        "m1",
        "hello from alice (edited)",
        apple_ns("2026-07-01T10:00:00Z"),
    );

    let r = w.sync();
    assert_eq!(r.inserted, 0);
    assert_eq!(r.updated, 1);
    assert_eq!(r.unchanged, 2);

    let m1 = row(&w.index, "m1");
    assert_eq!(m1.text.as_deref(), Some("hello from alice (edited)"));
    assert!(m1.edited_at_ms.is_some());
}

#[test]
fn retractions_clear_the_stored_body() {
    let mut w = World::new();
    populate(&w);
    w.sync();

    w.fixture
        .retract_message("m2", apple_ns("2026-07-01T11:00:00Z"));

    let r = w.sync();
    assert_eq!(r.updated, 1);

    let m2 = row(&w.index, "m2");
    assert_eq!(m2.text, None);
    assert!(m2.retracted_at_ms.is_some());
}

#[test]
fn edits_outside_the_overlap_window_are_missed_by_design() {
    let mut w = World::new();
    populate(&w);
    w.sync_with_overlap(0);

    w.fixture
        .edit_message("m1", "sneaky late edit", apple_ns("2026-07-01T10:00:00Z"));

    // Overlap 0 means only rows past the watermark are scanned; the edit
    // mutated an already-ingested row, so this run cannot see it.
    let r = w.sync_with_overlap(0);
    assert_eq!(r.scanned, 0);
    assert_eq!(r.updated, 0);

    // A later run WITH overlap catches it.
    let r = w.sync();
    assert_eq!(r.updated, 1);
}

#[test]
fn reset_then_sync_reingests_from_scratch() {
    let mut w = World::new();
    populate(&w);
    w.sync();

    w.index.reset();
    let r = w.sync();

    assert_eq!(r.watermark_before, 0);
    assert_eq!(r.inserted, 3);
    assert_eq!(r.total_messages, 3);
}

#[test]
fn legacy_schema_syncs_without_modern_columns() {
    let fixture = Fixture::new(SchemaVariant::Legacy);
    let alice = fixture.add_handle("+15550100001");
    let chat = fixture.add_chat("legacy-chat", CHAT_STYLE_DIRECT, None);
    let m1 = fixture.add_message(&MessageSpec {
        text: Some("old message"),
        handle_id: Some(alice),
        date: apple_secs("2015-03-01T12:00:00Z"),
        ..message("l1")
    });
    fixture.link_chat_message(chat, m1);

    let mut index = IndexDb::new();
    let r = fixture.sync(&mut index, OVERLAP, None);

    assert_eq!(r.inserted, 1);
    assert_eq!(r.total_messages, 1);
}

#[test]
fn sync_builds_chunks_for_each_chat() {
    let mut w = World::new();
    populate(&w);
    let r = w.sync();

    // All three fixture messages are minutes apart within their chat, so
    // each chat collapses into one chunk.
    assert_eq!(r.rechunked_chats, 2);
    assert_eq!(r.total_chunks, 2);

    let direct = w
        .index
        .chats()
        .iter()
        .find(|c| c.guid == "direct-chat")
        .unwrap();
    let chunk = w
        .index
        .chunks()
        .iter()
        .find(|k| k.chat_id == direct.id)
        .unwrap();
    assert_eq!(
        chunk.text,
        "+15550100001: hello from alice\nMe: reply from me"
    );
}

#[test]
fn appending_a_message_reuses_untouched_chunks() {
    let mut w = World::new();
    populate(&w);
    w.sync();

    let old: Vec<(i64, String)> = w
        .index
        .chunks()
        .iter()
        .map(|c| (c.id, c.content_hash.clone()))
        .collect();

    // A new message lands in the group chat after a long lull: the direct
    // chat's chunk and the group chat's old chunk both keep their identity.
    let f = &w.fixture;
    let m4 = f.add_message(&MessageSpec {
        text: Some("late reply in the group"),
        date: apple_ns("2026-07-02T18:00:00Z"),
        is_from_me: true,
        ..message("m4")
    });
    f.link_chat_message(2, m4);

    let r = w.sync();
    assert_eq!(r.rechunked_chats, 1);
    assert_eq!(r.total_chunks, 3);

    let new: Vec<(i64, String)> = w
        .index
        .chunks()
        .iter()
        .map(|c| (c.id, c.content_hash.clone()))
        .collect();
    for h in &old {
        assert!(new.contains(h), "pre-existing chunk must survive");
    }
}

#[test]
fn an_index_with_messages_but_no_chunks_gets_a_full_chunking_pass() {
    let mut w = World::new();
    populate(&w);
    w.sync();

    // An index that was synced before there were chunks.
    let i = &w.index;
    let bare = IndexDb::from_rows(
        i.chats().clone(),
        i.handles().clone(),
        i.messages().clone(),
        Vec::new(),
        Vec::new(),
        Some(i.watermark().to_string()),
        None,
    );
    w.index = bare;

    let r = w.sync();
    assert_eq!(r.inserted, 0);
    // Every chat is rechunked even though no message changed.
    assert_eq!(r.rechunked_chats, 2);
    assert_eq!(r.total_chunks, 2);
}

#[test]
fn search_finds_messages_by_keyword() {
    let mut w = World::new();
    populate(&w);
    w.sync();

    let hits = search(&w.index, "alice hello", 10);
    assert_eq!(hits.len(), 1);
    assert!(hits[0].snippet.contains("«hello»"));
    assert!(hits[0].snippet.contains("«alice»"));
    assert_eq!(hits[0].message_count, 2);
    // Direct chat has no display name: label falls back to a handle.
    assert_eq!(hits[0].chat_label, "+15550100001");

    // Group chats surface their display name.
    let hits = search(&w.index, "Loved", 10);
    assert_eq!(hits.len(), 1);
    assert_eq!(hits[0].chat_label, "The Group");
}

#[test]
fn search_tolerates_fts_operator_syntax_in_queries() {
    let mut w = World::new();
    populate(&w);
    w.sync();

    // None of these may error; sanitization quotes each term.
    for q in ["hello AND", "\"unbalanced", "a* NOT (b", "   "] {
        search(&w.index, q, 10);
    }
}

#[test]
fn edits_update_the_searchable_text() {
    let mut w = World::new();
    populate(&w);
    w.sync();

    w.fixture.edit_message(
        "m1",
        "totally rewritten xylophone content",
        apple_ns("2026-07-01T10:00:00Z"),
    );
    w.sync();

    assert_eq!(search(&w.index, "xylophone", 10).len(), 1);
    assert!(search(&w.index, "hello", 10).is_empty());
}

#[test]
fn report_display_contains_no_message_bodies() {
    let mut w = World::new();
    populate(&w);
    let rendered = w.sync().render();
    assert!(!rendered.contains("hello from alice"));
    assert!(!rendered.contains("reply from me"));
}

#[test]
fn report_display_mentions_initial_sync_when_no_watermark() {
    let r = SyncReport::default();
    assert!(r.render().contains("initial full sync"));
}

#[test]
fn etl_ingests_into_the_index_without_printing_bodies() {
    let f = cli_fixture();
    let mut index = IndexDb::new();
    let text = f.sync(&mut index, 5000, None).render();
    assert!(text.contains("initial full sync"));
    assert!(text.contains("Inserted:  2"));
    assert!(text.contains("Messages:  2"));
    assert!(!text.contains("SECRET BODY"));

    // A second run is incremental and changes nothing.
    let text = f.sync(&mut index, 5000, None).render();
    assert!(text.contains("incremental"));
    assert!(text.contains("Inserted:  0"));
    assert!(text.contains("Unchanged: 2"));

    // Starting over begins with an empty index.
    index.reset();
    let text = f.sync(&mut index, 5000, None).render();
    assert!(text.contains("initial full sync"));
    assert!(text.contains("Inserted:  2"));
}

// ------------------------------------------------------------------ index

#[test]
fn open_creates_schema_and_parent_directory() {
    let conn = Connection::open_in_memory().unwrap();
    conn.execute_batch(SCHEMA_SQL).unwrap();
    // Opening it again finds everything in place.
    conn.execute_batch(SCHEMA_SQL).unwrap();
    let db = IndexDb::new();
    assert_eq!(db.message_count(), 0);
    assert_eq!(db.chat_count(), 0);
    assert_eq!(db.handle_count(), 0);
}

#[test]
fn watermark_defaults_to_zero_and_roundtrips() {
    let mut db = IndexDb::new();
    assert_eq!(db.watermark(), 0);
    db.set_watermark(42);
    assert_eq!(db.watermark(), 42);
}

#[test]
fn watermark_survives_reopen() {
    let mut w = World::new();
    w.index.set_watermark(7);
    w.reopen();
    assert_eq!(w.index.watermark(), 7);
    // A value that is no number counts as none.
    let odd = IndexDb::from_rows(
        Vec::new(),
        Vec::new(),
        Vec::new(),
        Vec::new(),
        Vec::new(),
        Some("seven".into()),
        None,
    );
    assert_eq!(odd.watermark(), 0);
}

#[test]
fn newer_schema_version_is_refused() {
    match check_schema_version("/index.sqlite", SCHEMA_VERSION + 1) {
        Err(IndexError::NewerSchema { found, .. }) => {
            assert_eq!(found, SCHEMA_VERSION + 1);
        }
        other => panic!("expected NewerSchema, got {other:?}"),
    }
    assert_eq!(check_schema_version("/index.sqlite", SCHEMA_VERSION), Ok(()));
    assert_eq!(check_schema_version("/index.sqlite", 0), Ok(()));
}

#[test]
fn reset_clears_data_and_watermark() {
    let mut db = IndexDb::new();
    db.upsert_handle("+15550100001");
    db.set_watermark(9);

    db.reset();
    assert_eq!(db.handle_count(), 0);
    assert_eq!(db.watermark(), 0);
}

#[test]
fn upsert_chat_is_idempotent_and_refreshes_name() {
    let mut db = IndexDb::new();
    let a = db.upsert_chat("c1", Some(false), None);
    let b = db.upsert_chat("c1", Some(true), Some("Renamed".into()));
    assert_eq!(a, b);
    assert_eq!(db.chat_count(), 1);
    assert_eq!(db.chats()[0].is_group, Some(true));
    assert_eq!(db.chats()[0].display_name.as_deref(), Some("Renamed"));
}

#[test]
fn upsert_handle_is_idempotent() {
    let mut db = IndexDb::new();
    let a = db.upsert_handle("+15550100001");
    let b = db.upsert_handle("+15550100001");
    assert_eq!(a, b);
    assert_eq!(db.handle_count(), 1);
}

#[test]
fn the_journal_holds_every_change_once() {
    let mut db = IndexDb::new();
    db.upsert_handle("a");
    db.upsert_handle("a");
    db.set_watermark(3);
    let journal = db.take_journal();
    assert_eq!(journal.len(), 2);
    assert!(matches!(&journal[0], Change::InsertHandle(h) if h.handle == "a" && h.id == 1));
    assert!(matches!(&journal[1], Change::SetWatermark(w) if w == "3"));
    assert!(db.take_journal().is_empty());
}

#[test]
fn error_messages_name_what_went_wrong() {
    for (e, expected) in [
        (
            IndexError::CreateDir {
                path: "/d".into(),
                source: "x".into(),
            },
            "could not create index directory /d: x",
        ),
        (
            IndexError::Open {
                path: "/d".into(),
                source: "x".into(),
            },
            "could not open index database /d: x",
        ),
        (
            IndexError::NewerSchema {
                path: "/d".into(),
                found: 4,
                supported: 3,
            },
            "index database /d has schema version 4, newer than this binary supports (3) — upgrade ai-imessage",
        ),
        (
            IndexError::Query("x".into()),
            "index database query failed: x",
        ),
        (
            IndexError::Permissions {
                path: "/d".into(),
                source: "x".into(),
            },
            "could not restrict permissions on /d: x",
        ),
    ] {
        assert_eq!(e.message(), expected);
    }
    assert_eq!(
        etl::EtlError::Embedding("x".into()).message(),
        "embedding failed: x"
    );
    let index = IndexError::Query("x".into());
    assert_eq!(
        etl::EtlError::Index(index).message(),
        "index database query failed: x"
    );
    let source = SourceError::Query("x".into());
    assert_eq!(
        etl::EtlError::Source(source.clone()).message(),
        source.message()
    );
}

// ------------------------------------------------------------- embeddings

fn populate_for_embedding(w: &World) {
    let f = &w.fixture;
    let alice = f.add_handle("+15550100001");
    let chat = f.add_chat("direct-chat", CHAT_STYLE_DIRECT, Some(""));
    let m1 = f.add_message(&MessageSpec {
        text: Some("we should order pizza for dinner tonight"),
        handle_id: Some(alice),
        date: apple_ns("2026-07-01T18:00:00Z"),
        ..message("e1")
    });
    f.link_chat_message(chat, m1);
    // A different conversation after a lull → second chunk.
    let m2 = f.add_message(&MessageSpec {
        text: Some("the quarterly budget review moved to Friday"),
        handle_id: Some(alice),
        date: apple_ns("2026-07-02T09:00:00Z"),
        ..message("e2")
    });
    f.link_chat_message(chat, m2);
}

#[test]
fn embedding_covers_all_chunks_and_is_idempotent() {
    let mut w = World::new();
    populate_for_embedding(&w);
    w.sync();

    let r = embed(&mut w.index);
    assert_eq!(r.model, "debug-hash");
    assert_eq!(r.embedded, 2);
    assert_eq!(r.total, 2);

    let again = embed(&mut w.index);
    assert_eq!(again.embedded, 0);
    assert_eq!(again.total, 2);
    assert_eq!(again.render(), "Embeddings (debug-hash)\n  Added:  0\n  Total:  2");
}

#[test]
fn vector_search_ranks_the_semantically_closer_chunk_first() {
    let mut w = World::new();
    populate_for_embedding(&w);
    w.sync();
    embed(&mut w.index);

    let hits = w
        .index
        .vector_search(&similarities(&w.index, "pizza dinner"), 10);
    assert_eq!(hits.len(), 2);
    assert!(hits[0].snippet.contains("pizza"));
    assert!(
        f32::from_bits(hits[0].score.unwrap()) > f32::from_bits(hits[1].score.unwrap())
    );

    let hits = w
        .index
        .vector_search(&similarities(&w.index, "budget review"), 10);
    assert!(hits[0].snippet.contains("budget"));
}

#[test]
fn appended_messages_only_embed_new_chunks() {
    let mut w = World::new();
    populate_for_embedding(&w);
    w.sync();
    embed(&mut w.index);

    // A new conversation after a lull adds one chunk; the two existing
    // chunk embeddings are reused, not recomputed.
    let f = &w.fixture;
    let m3 = f.add_message(&MessageSpec {
        text: Some("running late, be there in ten"),
        is_from_me: true,
        date: apple_ns("2026-07-03T12:00:00Z"),
        ..message("e3")
    });
    f.link_chat_message(1, m3);
    w.sync();

    let r = embed(&mut w.index);
    assert_eq!(r.embedded, 1);
    assert_eq!(r.total, 3);
    assert_eq!(r.pruned, 0);
}

#[test]
fn edits_reembed_only_the_affected_chunk_and_prune_the_stale_vector() {
    let mut w = World::new();
    populate_for_embedding(&w);
    w.sync();
    embed(&mut w.index);

    w.fixture.edit_message(
        "e1",
        "we should order sushi for dinner tonight",
        apple_ns("2026-07-01T19:00:00Z"),
    );
    w.sync();

    let r = embed(&mut w.index);
    // The edited chunk got a new hash: its old vector is pruned and one
    // new embedding is computed. The untouched chunk keeps its vector.
    assert_eq!(r.pruned, 1);
    assert_eq!(r.embedded, 1);
    assert_eq!(r.total, 2);
}

#[test]
fn switching_models_wipes_and_rebuilds_embeddings() {
    let mut w = World::new();
    populate_for_embedding(&w);
    w.sync();
    embed(&mut w.index);

    assert!(w.index.ensure_embedding_model("other-model"));
    assert_eq!(w.index.embedding_count(), 0);

    // Back on the original model, everything re-embeds.
    let r = embed(&mut w.index);
    assert_eq!(r.embedded, 2);
}

#[test]
fn long_runs_are_stored_in_batches() {
    let mut w = World::new();
    let f = &w.fixture;
    let alice = f.add_handle("+15550100001");
    for i in 0..300 {
        let chat = f.add_chat(&format!("c{i}"), CHAT_STYLE_DIRECT, None);
        let text = format!("message number {i}");
        let guid = format!("g{i}");
        let m = f.add_message(&MessageSpec {
            text: Some(&text),
            handle_id: Some(alice),
            date: apple_ns("2026-07-01T18:00:00Z"),
            ..message(&guid)
        });
        f.link_chat_message(chat, m);
    }
    w.sync();
    let mut run = EmbedRun::begin(&mut w.index, "debug-hash");
    assert_eq!(run.progress(), (0, 300));
    let mut seen = Vec::new();
    loop {
        let n = run.next_batch().len();
        if n == 0 {
            break;
        }
        let vectors: Vec<Vec<u8>> = (0..n).map(|_| vector_to_blob(&[1])).collect();
        run.store(&mut w.index, &vectors);
        seen.push(run.progress());
    }
    assert_eq!(seen, vec![(256, 300), (300, 300)]);
    let r = run.finish(&w.index);
    assert_eq!((r.embedded, r.pruned, r.total), (300, 0, 300));
    assert!(w.index.missing_embeddings().is_empty());
    let again = embed(&mut w.index);
    assert_eq!((again.embedded, again.pruned, again.total), (0, 0, 300));
}

// ---------------------------------------------------------- contact names

fn populate_contacts(f: &Fixture) {
    let alice = f.add_handle("+19165550100");
    let bob = f.add_handle("bob@example.com");
    let chat_a = f.add_chat("chat-alice", CHAT_STYLE_DIRECT, Some(""));
    let chat_b = f.add_chat("chat-bob", CHAT_STYLE_DIRECT, Some(""));

    let m1 = f.add_message(&MessageSpec {
        text: Some("lunch on thursday?"),
        handle_id: Some(alice),
        date: apple_ns("2026-07-01T09:00:00Z"),
        ..message("c1")
    });
    f.link_chat_message(chat_a, m1);

    let m2 = f.add_message(&MessageSpec {
        text: Some("sending over the contract now"),
        handle_id: Some(bob),
        date: apple_ns("2026-07-01T10:00:00Z"),
        ..message("c2")
    });
    f.link_chat_message(chat_b, m2);
}

#[test]
fn names_land_in_handles_chunks_and_labels() {
    let f = Fixture::new(SchemaVariant::Modern);
    populate_contacts(&f);
    let book = book(
        vec![contact("Alice", "Smith", "(916) 555-0100")],
        vec![contact("Bob", "Jones", "Bob@Example.com")],
    );
    let mut index = IndexDb::new();
    f.sync(&mut index, 100, Some(&book));

    // Chunk text bakes the name in — retrieval by name works.
    let chat = index.chats().iter().find(|c| c.guid == "chat-alice").unwrap();
    let chunk = index.chunks().iter().find(|k| k.chat_id == chat.id).unwrap();
    assert_eq!(chunk.text, "Alice Smith: lunch on thursday?");

    // Keyword search finds people by name, and the hit label is the name.
    let hits = search(&index, "Alice thursday", 10);
    assert_eq!(hits.len(), 1);
    assert_eq!(hits[0].chat_label, "Alice Smith");

    // Chat listing and conversation windows use names too.
    let chats = index.list_chats(None, 10);
    let labels: Vec<&str> = chats.iter().map(|c| c.label.as_str()).collect();
    assert!(labels.contains(&"Alice Smith"));
    assert!(labels.contains(&"Bob Jones"));

    let window = index.conversation_window(hits[0].chunk_id, 5, 5).unwrap();
    assert_eq!(window.messages[0].sender, "Alice Smith");
}

#[test]
fn syncing_without_contacts_keeps_raw_handles() {
    let f = Fixture::new(SchemaVariant::Modern);
    populate_contacts(&f);
    let mut index = IndexDb::new();
    f.sync(&mut index, 100, None);

    let hits = search(&index, "thursday", 10);
    assert_eq!(hits[0].chat_label, "+19165550100");
}

#[test]
fn a_rename_rechunks_only_that_contacts_chats() {
    let f = Fixture::new(SchemaVariant::Modern);
    populate_contacts(&f);
    let mut index = IndexDb::new();
    let v1 = book(
        vec![contact("Alice", "Smith", "(916) 555-0100")],
        vec![contact("Bob", "Jones", "bob@example.com")],
    );
    f.sync(&mut index, 100, Some(&v1));

    // Alice marries and changes her name; Bob is untouched.
    let v2 = book(
        vec![contact("Alice", "Nguyen", "(916) 555-0100")],
        vec![contact("Bob", "Jones", "bob@example.com")],
    );
    let report = f.sync(&mut index, 100, Some(&v2));

    // Only Alice's chat re-chunked; nothing was inserted or updated.
    assert_eq!(report.inserted, 0);
    assert_eq!(report.updated, 0);
    assert_eq!(report.rechunked_chats, 1);
    assert_eq!(report.named_handles, 2);

    let hits = search(&index, "thursday", 10);
    assert_eq!(hits[0].chat_label, "Alice Nguyen");
}

#[test]
fn names_arriving_later_backfill_an_existing_index() {
    // First sync with no contacts (e.g. a denied AddressBook read), second
    // sync with them: chunks upgrade.
    let f = Fixture::new(SchemaVariant::Modern);
    populate_contacts(&f);
    let mut index = IndexDb::new();
    f.sync(&mut index, 100, None);

    let late = book(vec![contact("Alice", "Smith", "+1 916 555 0100")], Vec::new());
    f.sync(&mut index, 100, Some(&late));

    let hits = search(&index, "Alice", 10);
    assert_eq!(hits.len(), 1, "name is searchable after backfill");
    assert_eq!(hits[0].chat_label, "Alice Smith");
}

// ------------------------------------------------------------- MCP server

/// Two chats and three separate conversations, synced, chunked, and embedded.
fn server() -> McpServer {
    let f = Fixture::new(SchemaVariant::Modern);
    let alice = f.add_handle("+15550100001");
    let direct = f.add_chat("direct-chat", CHAT_STYLE_DIRECT, Some(""));
    let group = f.add_chat("group-chat", CHAT_STYLE_GROUP, Some("Ski Trip"));

    for (i, (text, minute)) in [
        ("morning! how did the interview go", 0i64),
        ("really well, they want a second round", 2),
        ("that's fantastic news", 3),
    ]
    .iter()
    .enumerate()
    {
        let guid = format!("d{i}");
        let m = f.add_message(&MessageSpec {
            text: Some(text),
            handle_id: (i % 2 == 0).then_some(alice),
            is_from_me: i % 2 == 1,
            date: apple_ns("2026-07-01T09:00:00Z") + minute * 60 * 1_000_000_000,
            ..message(&guid)
        });
        f.link_chat_message(direct, m);
    }
    // A later conversation in the same chat (past the 45-minute gap).
    let late = f.add_message(&MessageSpec {
        text: Some("lunch tomorrow?"),
        handle_id: Some(alice),
        date: apple_ns("2026-07-01T15:00:00Z"),
        ..message("d-late")
    });
    f.link_chat_message(direct, late);

    let g = f.add_message(&MessageSpec {
        text: Some("cabin is booked for the ski weekend"),
        handle_id: Some(alice),
        date: apple_ns("2026-07-02T20:00:00Z"),
        ..message("g0")
    });
    f.link_chat_message(group, g);

    let mut index = IndexDb::new();
    f.sync(&mut index, 100, None);
    embed(&mut index);
    McpServer::new(index, debug_config())
}

#[test]
fn search_messages_returns_full_chunk_text_with_chunk_ids() {
    let s = server();
    let result = call(&s, "search_messages", r#"{"query": "interview"}"#);
    assert_eq!(result["isError"], false);
    let text = text_of(&result);
    assert!(text.contains("[chunk "));
    assert!(text.contains("how did the interview go"));
    // Full chunk text, not just the matching line.
    assert!(text.contains("second round"));
}

#[test]
fn search_messages_modes_and_bad_mode() {
    let s = server();
    for mode in ["hybrid", "keyword", "semantic"] {
        let result = call(
            &s,
            "search_messages",
            &format!(r#"{{"query": "ski cabin booked", "mode": "{mode}"}}"#),
        );
        assert_eq!(result["isError"], false, "mode {mode}");
        assert!(text_of(&result).contains("Ski Trip"), "mode {mode}");
    }
    let result = call(
        &s,
        "search_messages",
        r#"{"query": "x", "mode": "psychic"}"#,
    );
    assert_eq!(result["isError"], true);
}

#[test]
fn get_conversation_expands_a_hit_with_context() {
    let s = server();
    let hit_text = text_of(&call(&s, "search_messages", r#"{"query": "interview"}"#));
    let chunk_id: i64 = hit_text
        .split("[chunk ")
        .nth(1)
        .unwrap()
        .split(']')
        .next()
        .unwrap()
        .parse()
        .unwrap();

    let result = call(
        &s,
        "get_conversation",
        &format!(r#"{{"chunk_id": {chunk_id}, "after": 5}}"#),
    );
    assert_eq!(result["isError"], false);
    let text = text_of(&result);
    // The chunk's own messages, in order, plus the later conversation as
    // trailing context.
    assert!(text.contains("interview"));
    assert!(text.contains("fantastic"));
    assert!(text.contains("lunch tomorrow?  (context)"));
    assert_eq!(
        text,
        format!(
            "+15550100001 — conversation around chunk {chunk_id}\n\
             [2026-07-01 09:00] +15550100001: morning! how did the interview go\n\
             [2026-07-01 09:02] Me: really well, they want a second round\n\
             [2026-07-01 09:03] +15550100001: that's fantastic news\n\
             [2026-07-01 15:00] +15550100001: lunch tomorrow?  (context)\n"
        )
    );
}

#[test]
fn list_chats_orders_by_recency_and_filters() {
    let s = server();
    let text = text_of(&call(&s, "list_chats", "{}"));
    let ski = text.find("Ski Trip").unwrap();
    let direct = text.find("+15550100001").unwrap();
    assert!(ski < direct, "most recent chat first:\n{text}");
    assert!(text.contains("(group, 1 messages"));

    let text = text_of(&call(&s, "list_chats", r#"{"filter": "ski"}"#));
    assert!(text.contains("Ski Trip"));
    assert!(!text.contains("+15550100001"));
}

/// A contact with an OLD direct conversation and NEWER activity elsewhere:
/// the exact shape that made relevance-ranked search misreport "when did I
/// last talk to her".
fn recency_server() -> McpServer {
    let f = Fixture::new(SchemaVariant::Modern);
    let jaina = f.add_handle("+19165550142");
    let other = f.add_handle("+14155550107");
    let direct = f.add_chat("direct-jaina", CHAT_STYLE_DIRECT, Some(""));
    let group = f.add_chat("group-trip", CHAT_STYLE_GROUP, Some("Trip Crew"));
    let noise = f.add_chat("direct-other", CHAT_STYLE_DIRECT, Some(""));

    // An old, keyword-rich direct conversation (what search would find).
    let m1 = f.add_message(&MessageSpec {
        text: Some("happy birthday!! hope the party is great"),
        handle_id: Some(jaina),
        date: apple_ns("2025-07-10T18:00:00Z"),
        ..message("r1")
    });
    f.link_chat_message(direct, m1);

    // A group message from her...
    let m2 = f.add_message(&MessageSpec {
        text: Some("flights are booked!"),
        handle_id: Some(jaina),
        date: apple_ns("2026-05-24T09:00:00Z"),
        ..message("r2")
    });
    f.link_chat_message(group, m2);

    // ...then the true last direct exchange: her message and my reply.
    let m3 = f.add_message(&MessageSpec {
        text: Some("the robocalls are out of control lately"),
        handle_id: Some(jaina),
        date: apple_ns("2026-05-25T10:12:00Z"),
        ..message("r3")
    });
    f.link_chat_message(direct, m3);
    let m4 = f.add_message(&MessageSpec {
        text: Some("same!! three today already"),
        is_from_me: true,
        date: apple_ns("2026-05-25T10:30:00Z"),
        ..message("r4")
    });
    f.link_chat_message(direct, m4);

    // NEWER third-party traffic in her group — the noise that previously
    // became the headline ("Josie laughed at ...").
    let m5 = f.add_message(&MessageSpec {
        text: Some("Laughed at “Or someone dresses up as the hot nurse”"),
        handle_id: Some(other),
        associated_message_type: 2003,
        date: apple_ns("2026-06-21T01:24:00Z"),
        ..message("r5")
    });
    f.link_chat_message(group, m5);

    // My own message in the group: addressed to the group, not to her.
    let m6 = f.add_message(&MessageSpec {
        text: Some("who is bringing snacks"),
        is_from_me: true,
        date: apple_ns("2026-06-22T12:00:00Z"),
        ..message("r6")
    });
    f.link_chat_message(group, m6);

    // Unrelated newer traffic that must NOT leak into Jaina's scope.
    let m7 = f.add_message(&MessageSpec {
        text: Some("totally unrelated chatter"),
        handle_id: Some(other),
        date: apple_ns("2026-07-01T12:00:00Z"),
        ..message("r7")
    });
    f.link_chat_message(noise, m7);

    let names = book(
        vec![
            contact("Jaina", "Proudmoore", "(916) 555-0142"),
            contact("Somebody", "Else", "(415) 555-0107"),
        ],
        Vec::new(),
    );
    let mut index = IndexDb::new();
    f.sync(&mut index, 100, Some(&names));
    embed(&mut index);
    McpServer::new(index, debug_config())
}

#[test]
fn recent_messages_reports_the_true_last_exchange_not_group_noise() {
    let s = recency_server();
    let result = call(&s, "get_recent_messages", r#"{"contact": "Jaina"}"#);
    assert_eq!(result["isError"], false);
    let text = text_of(&result);

    // Headline facts answer "when did I last talk to her" directly: her
    // last message and my last reply, both from the 5/25 direct exchange.
    assert!(text.contains("Contact: Jaina Proudmoore"), "{text}");
    assert!(
        text.contains("Last message from them: [2026-05-25 10:12]"),
        "{text}"
    );
    assert!(text.contains("robocalls"), "{text}");
    assert!(
        text.contains("Last message from you to them: [2026-05-25 10:30]"),
        "{text}"
    );

    // Her group messages count as her talking; third-party group traffic
    // and my group messages do not appear at all.
    assert!(text.contains("flights are booked!"));
    assert!(!text.contains("hot nurse"), "{text}");
    assert!(!text.contains("who is bringing snacks"), "{text}");
    assert!(!text.contains("unrelated chatter"));

    // Oldest-to-newest ordering for readability — checked within the
    // message list, since the header quotes the newest texts first.
    let list = text.split("oldest to newest:").nth(1).unwrap();
    let birthday = list.find("happy birthday").unwrap();
    let latest = list.find("three today already").unwrap();
    assert!(birthday < latest);
}

#[test]
fn recent_messages_scopes_by_chat_and_handles_unknowns() {
    let s = recency_server();

    let text = text_of(&call(
        &s,
        "get_recent_messages",
        r#"{"chat": "Trip Crew", "limit": 10}"#,
    ));
    assert!(text.contains("flights are booked!"));
    assert!(!text.contains("happy birthday"));

    let text = text_of(&call(&s, "get_recent_messages", r#"{"contact": "Thrall"}"#));
    assert!(text.contains("No contact or handle matching"));

    // No scope at all: newest message in the whole index leads.
    let text = text_of(&call(&s, "get_recent_messages", r#"{"limit": 2}"#));
    assert!(text.contains("unrelated chatter"));
}

#[test]
fn recent_messages_stop_at_the_limit_and_keep_the_newest() {
    let s = recency_server();
    let newest = s.index.recent_messages(&Scope::Everything, 2);
    let texts: Vec<&str> = newest.iter().map(|m| m.text.as_str()).collect();
    assert_eq!(
        texts,
        vec!["who is bringing snacks", "totally unrelated chatter"]
    );
    assert_eq!(s.index.find_contact("nobody"), None);
    assert_eq!(
        s.index.find_contact("PROUD").as_deref(),
        Some("Jaina Proudmoore")
    );
    let text = text_of(&call(&s, "get_recent_messages", r#"{"chat": "no such"}"#));
    assert_eq!(text, "No chat matching \"no such\".");
}

#[test]
fn full_handshake_then_tool_call_round_trip() {
    let s = server();
    let init = exchange(
        &s,
        r#"{"jsonrpc": "2.0", "id": 0, "method": "initialize",
            "params": {"protocolVersion": "2025-06-18"}}"#,
    )
    .unwrap();
    assert_eq!(
        init["result"]["capabilities"]["tools"],
        serde_json::from_str::<Value>("{}").unwrap()
    );
    assert!(exchange(
        &s,
        r#"{"jsonrpc": "2.0", "method": "notifications/initialized"}"#
    )
    .is_none());
    let result = call(&s, "search_messages", r#"{"query": "cabin"}"#);
    assert!(text_of(&result).contains("cabin is booked"));
}

#[test]
fn http_transport_speaks_mcp_with_bearer_auth() {
    let f = Fixture::new(SchemaVariant::Modern);
    let alice = f.add_handle("+15550100001");
    let chat = f.add_chat("direct-chat", CHAT_STYLE_DIRECT, None);
    let m = f.add_message(&MessageSpec {
        text: Some("the SECRET launch is thursday"),
        handle_id: Some(alice),
        date: apple_ns("2026-07-01T09:00:00Z"),
        ..message("h1")
    });
    f.link_chat_message(chat, m);
    let mut index = IndexDb::new();
    f.sync(&mut index, OVERLAP, None);
    embed(&mut index);
    let s = McpServer::new(index, debug_config());
    let token = "test-http-token";
    let post = |method: &str, path: &str, auth: Option<&str>, body: &str| -> (u16, Value) {
        let mut head = format!("{method} {path} HTTP/1.1\r\nHost: localhost\r\n");
        if let Some(token) = auth {
            head.push_str(&format!("Authorization: Bearer {token}\r\n"));
        }
        let head = parse_head(&head).unwrap();
        if let Some(status) = refuse(&head, token) {
            return (status, Value::Null);
        }
        match s.receive(body) {
            Err(text) => (
                status_of(false, true),
                serde_json::from_str(&text).unwrap(),
            ),
            Ok(_) => {
                let answer = exchange(&s, body);
                (
                    status_of(true, answer.is_some()),
                    answer.unwrap_or(Value::Null),
                )
            }
        }
    };
    let ping = r#"{"jsonrpc":"2.0","id":1,"method":"ping"}"#;

    // Wrong or missing token: 401, and no protocol details leak.
    assert_eq!(post("POST", "/mcp", None, ping).0, 401);
    assert_eq!(post("POST", "/mcp", Some("wrong-token"), ping).0, 401);

    // Handshake.
    let (status, resp) = post(
        "POST",
        "/mcp",
        Some(token),
        r#"{"jsonrpc":"2.0","id":0,"method":"initialize",
            "params":{"protocolVersion":"2025-06-18"}}"#,
    );
    assert_eq!(status, 200);
    assert_eq!(resp["result"]["serverInfo"]["name"], "ai-imessage");

    // Notifications are accepted with no body.
    let (status, _) = post(
        "POST",
        "/mcp",
        Some(token),
        r#"{"jsonrpc":"2.0","method":"notifications/initialized"}"#,
    );
    assert_eq!(status, 202);

    // A real tool call round-trips.
    let (status, resp) = post(
        "POST",
        "/mcp",
        Some(token),
        r#"{"jsonrpc":"2.0","id":2,"method":"tools/call",
            "params":{"name":"search_messages","arguments":{"query":"SECRET"}}}"#,
    );
    assert_eq!(status, 200);
    assert_eq!(resp["result"]["isError"], false);
    assert!(text_of(&resp["result"]).contains("SECRET launch"));

    // Malformed JSON is a -32700, not a crash.
    let (status, resp) = post("POST", "/mcp", Some(token), "not json");
    assert_eq!(status, 400);
    assert_eq!(resp["error"]["code"], -32700);

    // GET is not supported (no server-initiated streams).
    assert_eq!(post("GET", "/mcp", Some(token), "").0, 405);

    // Unknown paths 404.
    assert_eq!(post("POST", "/other", Some(token), "{}").0, 404);
}

#[test]
fn a_window_is_cut_to_what_was_asked_for() {
    let s = server();
    let chunk = s
        .index
        .chunks()
        .iter()
        .find(|c| c.text.contains("lunch tomorrow"))
        .unwrap();
    let w = s.index.conversation_window(chunk.id, 1, 9).unwrap();
    let shown: Vec<(&str, bool)> = w
        .messages
        .iter()
        .map(|m| (m.text.as_str(), m.in_span))
        .collect();
    assert_eq!(
        shown,
        vec![("that's fantastic news", false), ("lunch tomorrow?", true)]
    );
    assert!(s.index.conversation_window(9999, 1, 1).is_none());
    assert_eq!(s.index.chunk_text(9999), None);
    assert_eq!(
        s.index.chunk_text(chunk.id).as_deref(),
        Some("+15550100001: lunch tomorrow?")
    );
}
