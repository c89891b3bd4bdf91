use ai_imessage::extract::{
    check_file, check_tables, classify_open_error, resolve_text, row_to_message, select_sql,
    FileProbe, RawRow, SchemaCaps, SourceError,
};
use ai_imessage::model::TextSource;
use ai_imessage::typedstream;
use rusqlite::Connection;

fn minimal_db() -> Connection {
    let conn = Connection::open_in_memory().unwrap();
    conn.execute_batch(
        "CREATE TABLE message (ROWID INTEGER PRIMARY KEY, guid TEXT, text TEXT,
           handle_id INTEGER, is_from_me INTEGER, date INTEGER, service TEXT);
         CREATE TABLE chat (ROWID INTEGER PRIMARY KEY, guid TEXT, style INTEGER,
           display_name TEXT);
         CREATE TABLE handle (ROWID INTEGER PRIMARY KEY, id TEXT);
         CREATE TABLE chat_message_join (chat_id INTEGER, message_id INTEGER);",
    )
    .unwrap();
    conn
}

fn names(conn: &Connection, sql: &str) -> Vec<String> {
    let mut stmt = conn.prepare(sql).unwrap();
    let rows = stmt.query_map([], |r| r.get::<_, String>(0)).unwrap();
    rows.map(|r| r.unwrap()).collect()
}

const TABLES: &str = "SELECT name FROM sqlite_master WHERE type = 'table'";
const COLUMNS: &str = "SELECT name FROM pragma_table_info('message')";

#[test]
fn source_connection_cannot_write() {
    let conn = minimal_db();
    conn.execute_batch("PRAGMA query_only = ON;").unwrap();
    let err = conn
        .execute("CREATE TABLE should_never_exist (x INTEGER)", [])
        .unwrap_err();
    let msg = err.to_string();
    assert!(
        msg.contains("readonly") || msg.contains("read-only"),
        "expected a read-only error, got: {msg}"
    );
}

#[test]
fn stat_ok_but_open_denied_classifies_as_permission_denied() {
    let err = classify_open_error("/chat.db", true, true, "unable to open database file");
    assert!(
        matches!(err, SourceError::PermissionDenied(_)),
        "expected PermissionDenied, got {err:?}"
    );
    assert!(err.message().contains("Full Disk Access"));
    let err = classify_open_error("/chat.db", true, false, "unable to open");
    assert!(matches!(err, SourceError::Open { .. }));
    assert!(matches!(
        check_file("/chat.db", &FileProbe::Denied),
        Err(SourceError::PermissionDenied(_))
    ));
}

#[test]
fn missing_file_is_not_found() {
    let err = check_file("/nope.db", &FileProbe::Missing).unwrap_err();
    assert!(matches!(err, SourceError::NotFound(_)));
    assert_eq!(err.message(), "no Messages database found at /nope.db");
    assert_eq!(check_file("/x", &FileProbe::Present), Ok(()));
    let err = check_file("/x", &FileProbe::Failed("odd".into())).unwrap_err();
    assert!(matches!(err, SourceError::Io { .. }));
    assert_eq!(err.message(), "could not inspect /x: odd");
}

#[test]
fn non_messages_database_is_rejected() {
    let conn = Connection::open_in_memory().unwrap();
    conn.execute_batch("CREATE TABLE unrelated (x INTEGER);")
        .unwrap();
    let err = check_tables("/other.db", &names(&conn, TABLES)).unwrap_err();
    match err {
        SourceError::UnexpectedSchema { missing, .. } => {
            assert!(missing.contains("message"));
            assert!(missing.contains("chat"));
        }
        other => panic!("expected UnexpectedSchema, got {other:?}"),
    }
}

#[test]
fn caps_are_all_false_on_minimal_schema() {
    let conn = minimal_db();
    assert_eq!(check_tables("/chat.db", &names(&conn, TABLES)), Ok(()));
    let caps = SchemaCaps::of_columns(&names(&conn, COLUMNS));
    assert!(!caps.has_attributed_body);
    assert!(!caps.has_date_edited);
    assert!(!caps.has_date_retracted);
    assert!(!caps.has_thread_originator_guid);
    // The query for these columns runs against such a database.
    assert!(conn.prepare(&select_sql(&caps)).is_ok());
}

#[test]
fn caps_summary_mentions_each_capability() {
    let s = SchemaCaps::default().summary();
    for key in ["attributedBody", "edits", "retractions", "replies"] {
        assert!(s.contains(key), "summary missing {key}: {s}");
    }
}

#[test]
fn select_sql_substitutes_null_for_missing_columns() {
    let none = select_sql(&SchemaCaps::default());
    assert!(!none.contains("attributedBody"));
    assert!(!none.contains("date_edited"));
    let all = select_sql(&SchemaCaps {
        has_attributed_body: true,
        has_date_edited: true,
        has_date_retracted: true,
        has_thread_originator_guid: true,
        has_item_type: true,
        has_associated_message_type: true,
    });
    assert!(all.contains("m.attributedBody"));
    assert!(all.contains("m.date_edited"));
    assert!(all.contains("m.thread_originator_guid"));
}

#[test]
fn resolve_text_prefers_text_column() {
    let blob = typedstream::encode_text("from blob");
    let (text, src) = resolve_text(Some("from column".into()), Some(&blob));
    assert_eq!(text.as_deref(), Some("from column"));
    assert_eq!(src, TextSource::TextColumn);
}

#[test]
fn resolve_text_falls_back_to_blob_on_empty_column() {
    let blob = typedstream::encode_text("from blob");
    for col in [None, Some(String::new()), Some("   ".to_string())] {
        let (text, src) = resolve_text(col, Some(&blob));
        assert_eq!(text.as_deref(), Some("from blob"));
        assert_eq!(src, TextSource::AttributedBody);
    }
}

#[test]
fn resolve_text_handles_total_absence() {
    let (text, src) = resolve_text(None, None);
    assert_eq!(text, None);
    assert_eq!(src, TextSource::Absent);
    let (text, src) = resolve_text(None, Some(b"garbage"));
    assert_eq!(text, None);
    assert_eq!(src, TextSource::Absent);
}

#[test]
fn a_row_without_a_guid_gets_a_stand_in() {
    let m = row_to_message(RawRow {
        rowid: 12,
        ..Default::default()
    });
    assert_eq!(m.guid, "missing-guid:12");
    assert!(!m.is_tapback && !m.is_system_event && !m.is_from_me);
}

#[test]
fn reactions_are_told_by_their_type() {
    for (t, expected) in [(1999, false), (2000, true), (3999, true), (4000, false)] {
        let m = row_to_message(RawRow {
            associated_type: Some(t),
            ..Default::default()
        });
        assert_eq!(m.is_tapback, expected, "{t}");
        assert_eq!(m.associated_type, Some(t));
    }
    let m = row_to_message(RawRow {
        associated_type: Some(0),
        ..Default::default()
    });
    assert_eq!(m.associated_type, None);
}
