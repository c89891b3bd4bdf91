//! Read-only extraction from the Apple Messages database.
//!
//! The schema is probed, not supposed: columns added in newer macOS releases
//! (`date_edited`, `thread_originator_guid`, ...) are read as NULL when they
//! are absent.
use crate::appledate;
use crate::appledate::apple_time_to_utc;
use crate::contacts;
use crate::model;
use crate::model::{ExtractedMessage, TextSource};
use crate::numeric;
use crate::numeric::decimal_i64;
use crate::text;
use crate::text::{is_blank, join, str_eq, to_ascii_lowercase};
use crate::time::UtcTime;
use crate::typedstream;
use crate::typedstream::extract_text;
use vstd::prelude::*;
use vstd::string::*;

verus! {

/// Why the source database could not be read.
#[derive(Debug, Clone, PartialEq, Eq)]
pub enum SourceError {
    NotFound(String),
    PermissionDenied(String),
    Io { path: String, source: String },
    Open { path: String, source: String },
    UnexpectedSchema { path: String, missing: String },
    Query(String),
}

impl SourceError {
    /// What the error says.
    pub open spec fn text(self) -> Seq<char> {
        match self {
            SourceError::NotFound(path) => "no Messages database found at "@ + path@,
            SourceError::PermissionDenied(path) => "permission denied reading "@ + path@
                + " — this process does not have Full Disk Access"@,
            SourceError::Io { path, source } => "could not inspect "@ + path@ + ": "@ + source@,
            SourceError::Open { path, source } => "could not open "@ + path@ + " read-only: "@
                + source@,
            SourceError::UnexpectedSchema { path, missing } => path@
                + " does not look like a Messages database (missing tables: "@ + missing@ + ")"@,
            SourceError::Query(source) => "query against the source database failed: "@ + source@,
        }
    }

    /// What the error says.
    pub fn message(&self) -> (r: String)
        ensures
            r@ == self.text(),
    {
        match self {
            SourceError::NotFound(path) => {
                let mut s = "no Messages database found at ".to_owned();
                s.append(path.as_str());
                s
            },
            SourceError::PermissionDenied(path) => {
                let mut s = "permission denied reading ".to_owned();
                s.append(path.as_str());
                s.append(" — this process does not have Full Disk Access");
                s
            },
            SourceError::Io { path, source } => {
                let mut s = "could not inspect ".to_owned();
                s.append(path.as_str());
                s.append(": ");
                s.append(source.as_str());
                s
            },
            SourceError::Open { path, source } => {
                let mut s = "could not open ".to_owned();
                s.append(path.as_str());
                s.append(" read-only: ");
                s.append(source.as_str());
                s
            },
            SourceError::UnexpectedSchema { path, missing } => {
                let mut s = path.clone();
                s.append(" does not look like a Messages database (missing tables: ");
                s.append(missing.as_str());
                s.append(")");
                s
            },
            SourceError::Query(source) => {
                let mut s = "query against the source database failed: ".to_owned();
                s.append(source.as_str());
                s
            },
        }
    }
}

/// What looking at a file gave.
#[derive(Debug, Clone, PartialEq, Eq)]
pub enum FileProbe {
    Present,
    Missing,
    Denied,
    Failed(String),
}

/// Whether the file can be opened at all, and if not why.
pub fn check_file(path: &str, probe: &FileProbe) -> (r: Result<(), SourceError>)
    ensures
        match probe {
            FileProbe::Present => r is Ok,
            FileProbe::Missing => r matches Err(SourceError::NotFound(p)) && p@ == path@,
            FileProbe::Denied => r matches Err(SourceError::PermissionDenied(p)) && p@ == path@,
            FileProbe::Failed(why) => r matches Err(SourceError::Io { path: p, source }) && p@
                == path@ && source@ == why@,
        },
{
    match probe {
        FileProbe::Present => Ok(()),
        FileProbe::Missing => Err(SourceError::NotFound(path.to_owned())),
        FileProbe::Denied => Err(SourceError::PermissionDenied(path.to_owned())),
        FileProbe::Failed(why) => Err(
            SourceError::Io { path: path.to_owned(), source: why.clone() },
        ),
    }
}

/// Turns a failure to open the database into the most actionable error.
///
/// Without Full Disk Access macOS may let a file be inspected but not opened,
/// and SQLite then says only that it cannot open it (`cannot_open`). Whether
/// a plain open of the file is denied too (`denied`) tells that case apart.
pub fn classify_open_error(path: &str, cannot_open: bool, denied: bool, source: &str) -> (r:
    SourceError)
    ensures
        if cannot_open && denied {
            r matches SourceError::PermissionDenied(p) && p@ == path@
        } else {
            r matches SourceError::Open { path: p, source: s } && p@ == path@ && s@ == source@
        },
{
    if cannot_open && denied {
        SourceError::PermissionDenied(path.to_owned())
    } else {
        SourceError::Open { path: path.to_owned(), source: source.to_owned() }
    }
}

/// Optional columns detected in this database's `message` table.
#[derive(Debug, Clone, Copy, Default, PartialEq, Eq, Structural)]
pub struct SchemaCaps {
    pub has_attributed_body: bool,
    pub has_date_edited: bool,
    pub has_date_retracted: bool,
    pub has_thread_originator_guid: bool,
    pub has_item_type: bool,
    pub has_associated_message_type: bool,
}

/// Whether a list of column names holds a name, whatever the case of its
/// letters.
pub open spec fn has_column(columns: Seq<String>, name: Seq<char>) -> bool {
    exists|i: int| 0 <= i < columns.len() && text::lowered((#[trigger] columns[i])@) == name
}

fn find_column(columns: &[String], name: &str) -> (r: bool)
    ensures
        r == has_column(columns@, name@),
{
    let mut i: usize = 0;
    while i < columns.len()
        invariant
            i <= columns@.len(),
            forall|j: int|
                0 <= j < i ==> text::lowered((#[trigger] columns@[j])@) != name@,
        decreases columns@.len() - i,
    {
        let c = to_ascii_lowercase(columns[i].as_str());
        if str_eq(c.as_str(), name) {
            assert(text::lowered(columns@[i as int]@) == name@);
            return true;
        }
        i = i + 1;
    }
    false
}

/// The word for a capability.
pub open spec fn yes_no(v: bool) -> Seq<char> {
    if v {
        "yes"@
    } else {
        "no"@
    }
}

fn yn(v: bool) -> (r: &'static str)
    ensures
        r@ == yes_no(v),
{
    if v {
        "yes"
    } else {
        "no"
    }
}

impl SchemaCaps {
    /// What a `message` table with these columns can give.
    pub fn of_columns(columns: &[String]) -> (r: SchemaCaps)
        ensures
            r.has_attributed_body == has_column(columns@, "attributedbody"@),
            r.has_date_edited == has_column(columns@, "date_edited"@),
            r.has_date_retracted == has_column(columns@, "date_retracted"@),
            r.has_thread_originator_guid == has_column(columns@, "thread_originator_guid"@),
            r.has_item_type == has_column(columns@, "item_type"@),
            r.has_associated_message_type == has_column(columns@, "associated_message_type"@),
    {
        SchemaCaps {
            has_attributed_body: find_column(columns, "attributedbody"),
            has_date_edited: find_column(columns, "date_edited"),
            has_date_retracted: find_column(columns, "date_retracted"),
            has_thread_originator_guid: find_column(columns, "thread_originator_guid"),
            has_item_type: find_column(columns, "item_type"),
            has_associated_message_type: find_column(columns, "associated_message_type"),
        }
    }

    /// The capabilities in words.
    pub open spec fn words(self) -> Seq<char> {
        "attributedBody="@ + yes_no(self.has_attributed_body) + ", edits="@ + yes_no(
            self.has_date_edited,
        ) + ", retractions="@ + yes_no(self.has_date_retracted) + ", replies="@ + yes_no(
            self.has_thread_originator_guid,
        )
    }

    /// The capabilities in words.
    pub fn summary(&self) -> (r: String)
        ensures
            r@ == self.words(),
    {
        let mut s = "attributedBody=".to_owned();
        s.append(yn(self.has_attributed_body));
        s.append(", edits=");
        s.append(yn(self.has_date_edited));
        s.append(", retractions=");
        s.append(yn(self.has_date_retracted));
        s.append(", replies=");
        s.append(yn(self.has_thread_originator_guid));
        s
    }
}

/// Chats by style.
#[derive(Debug, Clone, Copy, Default, PartialEq, Eq, Structural)]
pub struct ChatStats {
    pub direct: u64,
    pub group: u64,
    pub total: u64,
}

/// A count as a database gives it, never below zero.
pub open spec fn at_least_zero(n: i64) -> nat {
    if n < 0 {
        0
    } else {
        n as nat
    }
}

/// A count as a database gives it, never below zero.
pub fn count_of(n: i64) -> (r: u64)
    ensures
        r == at_least_zero(n),
{
    if n < 0 {
        0
    } else {
        n as u64
    }
}

/// Counts the chats of each style.
pub const CHAT_STATS_SQL: &'static str = "SELECT COALESCE(SUM(CASE WHEN style = 45 THEN 1 ELSE 0 END), 0), COALESCE(SUM(CASE WHEN style = 43 THEN 1 ELSE 0 END), 0), COUNT(*) FROM chat";

impl ChatStats {
    /// The statistics that the counts of direct, group and all chats give.
    pub fn of_counts(direct: i64, group: i64, total: i64) -> (r: ChatStats)
        ensures
            r.direct == at_least_zero(direct),
            r.group == at_least_zero(group),
            r.total == at_least_zero(total),
    {
        ChatStats { direct: count_of(direct), group: count_of(group), total: count_of(total) }
    }
}

/// The tables a Messages database has.
pub open spec fn required_tables() -> Seq<Seq<char>> {
    seq!["message"@, "chat"@, "handle"@, "chat_message_join"@]
}

/// The names of `wanted` that are not among `tables`, in order.
pub open spec fn absent(wanted: Seq<Seq<char>>, tables: Seq<Seq<char>>) -> Seq<Seq<char>>
    decreases wanted.len(),
{
    if wanted.len() == 0 {
        Seq::empty()
    } else if tables.contains(wanted.last()) {
        absent(wanted.drop_last(), tables)
    } else {
        absent(wanted.drop_last(), tables).push(wanted.last())
    }
}

fn has_table(tables: &[String], name: &str) -> (r: bool)
    ensures
        r == text::views(tables@).contains(name@),
{
    let mut i: usize = 0;
    while i < tables.len()
        invariant
            i <= tables@.len(),
            forall|j: int| 0 <= j < i ==> (#[trigger] tables@[j])@ != name@,
        decreases tables@.len() - i,
    {
        if str_eq(tables[i].as_str(), name) {
            assert(text::views(tables@)[i as int] == name@);
            return true;
        }
        i = i + 1;
    }
    proof {
        assert forall|j: int| 0 <= j < tables@.len() implies text::views(tables@)[j] != name@ by {
            assert(text::views(tables@)[j] == tables@[j]@);
        }
    }
    false
}

fn note_absent(missing: &mut Vec<String>, tables: &[String], name: &str)
    ensures
        text::views(final(missing)@) == (if text::views(tables@).contains(name@) {
            text::views(old(missing)@)
        } else {
            text::views(old(missing)@).push(name@)
        }),
{
    let ghost before = text::views(missing@);
    if !has_table(tables, name) {
        missing.push(name.to_owned());
        proof {
            assert(text::views(missing@) =~= before.push(name@));
        }
    }
}

/// Whether a database with these tables is a Messages database; else the
/// error names the tables it lacks.
pub fn check_tables(path: &str, tables: &[String]) -> (r: Result<(), SourceError>)
    ensures
        r is Ok <==> absent(required_tables(), text::views(tables@)).len() == 0,
        r matches Err(e) ==> (e matches SourceError::UnexpectedSchema { path: p, missing } && p@
            == path@ && missing@ == text::joined(
            absent(required_tables(), text::views(tables@)),
            ", "@,
        )),
{
    let mut missing: Vec<String> = Vec::new();
    note_absent(&mut missing, tables, "message");
    note_absent(&mut missing, tables, "chat");
    note_absent(&mut missing, tables, "handle");
    note_absent(&mut missing, tables, "chat_message_join");
    proof {
        let t = text::views(tables@);
        let w = required_tables();
        let w3 = w.drop_last();
        let w2 = w3.drop_last();
        let w1 = w2.drop_last();
        assert(w1.drop_last() =~= Seq::<Seq<char>>::empty());
        assert(absent(w1.drop_last(), t) =~= Seq::<Seq<char>>::empty());
        assert(w1.last() == "message"@ && w2.last() == "chat"@ && w3.last() == "handle"@ && w.last()
            == "chat_message_join"@);
        assert(absent(w1, t) == (if t.contains("message"@) {
            absent(w1.drop_last(), t)
        } else {
            absent(w1.drop_last(), t).push("message"@)
        }));
        assert(absent(w2, t) == (if t.contains("chat"@) {
            absent(w1, t)
        } else {
            absent(w1, t).push("chat"@)
        }));
        assert(absent(w3, t) == (if t.contains("handle"@) {
            absent(w2, t)
        } else {
            absent(w2, t).push("handle"@)
        }));
        assert(text::views(missing@) =~= absent(w, t));
    }
    if missing.len() == 0 {
        Ok(())
    } else {
        Err(SourceError::UnexpectedSchema { path: path.to_owned(), missing: join(&missing, ", ") })
    }
}

/// A column, or NULL when the database does not have it.
pub open spec fn column_or_null(present: bool, column: Seq<char>) -> Seq<char> {
    if present {
        column
    } else {
        "NULL"@
    }
}

fn opt(present: bool, column: &'static str) -> (r: &'static str)
    ensures
        r@ == column_or_null(present, column@),
{
    if present {
        column
    } else {
        "NULL"
    }
}

/// The first columns of the extraction query.
pub const SELECT_HEAD: &'static str = "SELECT m.ROWID, m.guid, m.text, ";

/// The columns of the extraction query that every database has.
pub const SELECT_FIXED: &'static str = ", m.is_from_me, m.date, m.service, ";

/// The tables and the order of the extraction query. A message linked to
/// several chats (rare, but real after chat merges) is attributed to one chat
/// so that it never appears twice.
pub const SELECT_TAIL: &'static str = ", h.id, c.guid, c.style, c.display_name FROM message m LEFT JOIN handle h ON h.ROWID = m.handle_id LEFT JOIN ( SELECT message_id, MIN(chat_id) AS chat_id FROM chat_message_join GROUP BY message_id ) cmj ON cmj.message_id = m.ROWID LEFT JOIN chat c ON c.ROWID = cmj.chat_id WHERE m.ROWID > ?1 ORDER BY m.ROWID ASC";

/// The extraction query for a database with the given columns.
pub open spec fn select_query(caps: SchemaCaps) -> Seq<char> {
    SELECT_HEAD@ + column_or_null(caps.has_attributed_body, "m.attributedBody"@) + SELECT_FIXED@
        + column_or_null(caps.has_date_edited, "m.date_edited"@) + ", "@ + column_or_null(
        caps.has_date_retracted,
        "m.date_retracted"@,
    ) + ", "@ + column_or_null(caps.has_thread_originator_guid, "m.thread_originator_guid"@) + ", "@
        + column_or_null(caps.has_item_type, "m.item_type"@) + ", "@ + column_or_null(
        caps.has_associated_message_type,
        "m.associated_message_type"@,
    ) + SELECT_TAIL@
}

/// Builds the extraction query: all messages past a ROWID, in ROWID order,
/// with NULL for columns this database version does not have.
pub fn select_sql(caps: &SchemaCaps) -> (r: String)
    ensures
        r@ == select_query(*caps),
{
    let mut s = SELECT_HEAD.to_owned();
    s.append(opt(caps.has_attributed_body, "m.attributedBody"));
    s.append(SELECT_FIXED);
    s.append(opt(caps.has_date_edited, "m.date_edited"));
    s.append(", ");
    s.append(opt(caps.has_date_retracted, "m.date_retracted"));
    s.append(", ");
    s.append(opt(caps.has_thread_originator_guid, "m.thread_originator_guid"));
    s.append(", ");
    s.append(opt(caps.has_item_type, "m.item_type"));
    s.append(", ");
    s.append(opt(caps.has_associated_message_type, "m.associated_message_type"));
    s.append(SELECT_TAIL);
    s
}

/// One row of the extraction query, column by column.
#[derive(Debug, Clone, Default)]
pub struct RawRow {
    pub rowid: i64,
    pub guid: Option<String>,
    pub text: Option<String>,
    pub attributed_body: Option<Vec<u8>>,
    pub is_from_me: Option<i64>,
    pub date: Option<i64>,
    pub service: Option<String>,
    pub date_edited: Option<i64>,
    pub date_retracted: Option<i64>,
    pub reply_to_guid: Option<String>,
    pub item_type: Option<i64>,
    pub associated_type: Option<i64>,
    pub sender_handle: Option<String>,
    pub chat_guid: Option<String>,
    pub chat_style: Option<i64>,
    pub chat_display_name: Option<String>,
}

/// The text of a message and where it comes from: the text column unless it
/// is blank, else the body in the blob unless that is blank.
pub open spec fn resolved(column: Option<Seq<char>>, blob: Option<Seq<u8>>) -> (
    Option<Seq<char>>,
    TextSource,
) {
    if column is Some && !text::blank(column->0) {
        (column, TextSource::TextColumn)
    } else if blob is Some && typedstream::body_of(blob->0) is Some && !text::blank(
        typedstream::body_of(blob->0)->0,
    ) {
        (typedstream::body_of(blob->0), TextSource::AttributedBody)
    } else {
        (None, TextSource::Absent)
    }
}

/// The bytes of an optional blob.
pub open spec fn blob_view(blob: Option<&[u8]>) -> Option<Seq<u8>> {
    match blob {
        Some(b) => Some(b@),
        None => None,
    }
}

/// Picks the message text: the plain `text` column wins; otherwise it is
/// recovered from the typedstream blob. Text that is white space only counts
/// as absent.
pub fn resolve_text(column: Option<String>, blob: Option<&[u8]>) -> (r: (
    Option<String>,
    TextSource,
))
    ensures
        text::opt_view(r.0) == resolved(text::opt_view(column), blob_view(blob)).0,
        r.1 == resolved(text::opt_view(column), blob_view(blob)).1,
{
    match column {
        Some(t) => {
            if !is_blank(t.as_str()) {
                return (Some(t), TextSource::TextColumn);
            }
        },
        None => {},
    }
    match blob {
        Some(b) => {
            match extract_text(b) {
                Some(t) => {
                    if !is_blank(t.as_str()) {
                        return (Some(t), TextSource::AttributedBody);
                    }
                },
                None => {},
            }
        },
        None => {},
    }
    (None, TextSource::Absent)
}

/// The blob of a row.
pub open spec fn row_blob(row: RawRow) -> Option<Seq<u8>> {
    match row.attributed_body {
        Some(b) => Some(b@),
        None => None,
    }
}

/// Whether `t` is the instant of an optional raw timestamp.
pub open spec fn is_time_of(raw: Option<i64>, t: Option<UtcTime>) -> bool {
    match raw {
        Some(raw) => appledate::is_apple_time(raw, t),
        None => t is None,
    }
}

/// The guid of a row; a row without one gets a stand-in made from its ROWID.
pub open spec fn guid_of(row: RawRow) -> Seq<char> {
    match row.guid {
        Some(g) => g@,
        None => "missing-guid:"@ + numeric::decimal_int(row.rowid as int),
    }
}

/// Whether a number is present and not zero.
pub open spec fn is_set(n: Option<i64>) -> bool {
    n matches Some(n) && n != 0
}

/// Whether an associated type is that of a tapback or reaction.
pub open spec fn is_reaction(t: Option<i64>) -> bool {
    t matches Some(t) && 2000 <= t < 4000
}

/// Whether `m` is the message that a row stands for.
pub open spec fn is_message_of(row: RawRow, m: ExtractedMessage) -> bool {
    let found = resolved(text::opt_view(row.text), row_blob(row));
    &&& m.rowid == row.rowid
    &&& m.guid@ == guid_of(row)
    &&& m.chat_guid == row.chat_guid
    &&& m.chat_style == row.chat_style
    &&& m.chat_display_name == row.chat_display_name
    &&& m.sender_handle == row.sender_handle
    &&& m.is_from_me == is_set(row.is_from_me)
    &&& is_time_of(row.date, m.sent_at)
    &&& text::opt_view(m.text) == found.0
    &&& m.text_source == found.1
    &&& m.service == row.service
    &&& m.reply_to_guid == row.reply_to_guid
    &&& is_time_of(row.date_edited, m.edited_at)
    &&& is_time_of(row.date_retracted, m.retracted_at)
    &&& m.is_tapback == is_reaction(row.associated_type)
    &&& m.associated_type == (if is_set(row.associated_type) {
        row.associated_type
    } else {
        None
    })
    &&& m.is_system_event == is_set(row.item_type)
}

fn time_of(raw: Option<i64>) -> (r: Option<UtcTime>)
    ensures
        is_time_of(raw, r),
{
    match raw {
        Some(raw) => apple_time_to_utc(raw),
        None => None,
    }
}

fn set(n: Option<i64>) -> (r: bool)
    ensures
        r == is_set(n),
{
    match n {
        Some(n) => n != 0,
        None => false,
    }
}

/// The message that a row of the extraction query stands for.
pub fn row_to_message(row: RawRow) -> (m: ExtractedMessage)
    ensures
        is_message_of(row, m),
{
    let guid = match &row.guid {
        Some(g) => g.clone(),
        None => {
            let mut s = "missing-guid:".to_owned();
            let n = decimal_i64(row.rowid);
            s.append(n.as_str());
            s
        },
    };
    let found = match &row.attributed_body {
        Some(b) => resolve_text(text::clone_opt(&row.text), Some(b.as_slice())),
        None => resolve_text(text::clone_opt(&row.text), None),
    };
    let is_tapback = match row.associated_type {
        Some(t) => 2000 <= t && t < 4000,
        None => false,
    };
    let associated_type = if set(row.associated_type) {
        row.associated_type
    } else {
        None
    };
    ExtractedMessage {
        rowid: row.rowid,
        guid,
        chat_guid: row.chat_guid,
        chat_style: row.chat_style,
        chat_display_name: row.chat_display_name,
        sender_handle: row.sender_handle,
        is_from_me: set(row.is_from_me),
        sent_at: time_of(row.date),
        text: found.0,
        text_source: found.1,
        service: row.service,
        reply_to_guid: row.reply_to_guid,
        edited_at: time_of(row.date_edited),
        retracted_at: time_of(row.date_retracted),
        is_tapback,
        associated_type,
        is_system_event: set(row.item_type),
    }
}

/// A message has a text exactly when it says where the text comes from, and
/// a text is never blank.
pub proof fn law_text_and_source_agree(row: RawRow, m: ExtractedMessage)
    requires
        is_message_of(row, m),
    ensures
        m.text is Some <==> m.text_source != TextSource::Absent,
        m.text matches Some(t) ==> !text::blank(t@),
{
}

/// A body that was encoded into the blob of a row without a text column is
/// the text of the message.
pub proof fn law_encoded_body_is_recovered(row: RawRow, m: ExtractedMessage, body: Seq<char>)
    requires
        is_message_of(row, m),
        row.text is None,
        row_blob(row) == Some(typedstream::encoded(body)),
        vstd::utf8::encode_utf8(body).len() <= u32::MAX,
        !text::blank(body),
    ensures
        m.text matches Some(t) && t@ == body,
        m.text_source == TextSource::AttributedBody,
{
    typedstream::law_round_trip(body);
}

/// Whether an optional text holds a character other than white space.
pub open spec fn has_words(s: Option<Seq<char>>) -> bool {
    s is Some && exists|i: int| 0 <= i < s->0.len() && !text::is_white(#[trigger] s->0[i])
}

/// Whether an instant is that of a raw timestamp, which counts seconds from the
/// start of 2001 up to a hundred thousand million, and else nanoseconds.
pub open spec fn is_instant_of(raw: Option<i64>, t: Option<UtcTime>) -> bool {
    &&& t is Some <==> raw is Some && raw->0 > 0
    &&& t is Some && raw->0 <= 100_000_000_000 ==> t->0.secs() - 978_307_200 == raw->0
        && t->0.nanos() == 0
    &&& t is Some && raw->0 > 100_000_000_000 ==> (t->0.secs() - 978_307_200) * 1_000_000_000
        + t->0.nanos() == raw->0 && t->0.nanos() < 1_000_000_000
}

/// What is read from a row. Its text column wins, whatever the blob holds; the
/// blob speaks where the column holds no words; where neither does there is no
/// text. A number other than zero makes a message the user's own, or a system
/// event. An associated type from 2000 to 3999 makes it a tapback; a type of zero
/// is none. The rest is taken over as it is.
pub proof fn law_what_a_row_says(row: RawRow, m: ExtractedMessage)
    requires
        is_message_of(row, m),
    ensures
        m.rowid == row.rowid,
        row.guid is Some ==> m.guid@ == row.guid->0@,
        m.chat_guid == row.chat_guid,
        m.chat_style == row.chat_style,
        m.chat_display_name == row.chat_display_name,
        m.sender_handle == row.sender_handle,
        m.service == row.service,
        m.reply_to_guid == row.reply_to_guid,
        !m.is_from_me <==> row.is_from_me is None || row.is_from_me == Some(0i64),
        !m.is_system_event <==> row.item_type is None || row.item_type == Some(0i64),
        m.is_tapback <==> row.associated_type is Some && 2000 <= row.associated_type->0 <= 3999,
        row.associated_type is None || row.associated_type == Some(0i64) ==> m.associated_type
            is None,
        row.associated_type is Some && row.associated_type->0 != 0 ==> m.associated_type
            == row.associated_type,
        is_instant_of(row.date, m.sent_at),
        is_instant_of(row.date_edited, m.edited_at),
        is_instant_of(row.date_retracted, m.retracted_at),
        has_words(text::opt_view(row.text)) ==> text::opt_view(m.text) == Some(row.text->0@)
            && m.text_source == TextSource::TextColumn,
        !has_words(text::opt_view(row.text)) && row.attributed_body is Some && has_words(
            typedstream::body_of(row.attributed_body->0@),
        ) ==> text::opt_view(m.text) == typedstream::body_of(row.attributed_body->0@)
            && m.text_source == TextSource::AttributedBody,
        !has_words(text::opt_view(row.text)) && !(row.attributed_body is Some && has_words(
            typedstream::body_of(row.attributed_body->0@),
        )) ==> m.text is None && m.text_source == TextSource::Absent,
{
    if row.text is Some {
        text::lemma_blank(row.text->0@);
    }
    if row.attributed_body is Some && typedstream::body_of(row.attributed_body->0@) is Some {
        text::lemma_blank(typedstream::body_of(row.attributed_body->0@)->0);
    }
    lemma_instant_of(row.date, m.sent_at);
    lemma_instant_of(row.date_edited, m.edited_at);
    lemma_instant_of(row.date_retracted, m.retracted_at);
}

proof fn lemma_instant_of(raw: Option<i64>, t: Option<UtcTime>)
    requires
        is_time_of(raw, t),
    ensures
        is_instant_of(raw, t),
{
    match raw {
        Some(raw) => appledate::law_apple_time(raw, t),
        None => {},
    }
}

/// Rows without a guid are told apart by their ROWIDs.
pub proof fn law_stand_in_guids_differ(a: RawRow, b: RawRow, m: ExtractedMessage, n: ExtractedMessage)
    requires
        is_message_of(a, m),
        is_message_of(b, n),
        a.guid is None,
        b.guid is None,
        a.rowid != b.rowid,
    ensures
        m.guid@ != n.guid@,
{
    numeric::law_decimal_round_trip(a.rowid);
    numeric::law_decimal_round_trip(b.rowid);
    let p = "missing-guid:"@;
    let x = numeric::decimal_int(a.rowid as int);
    let y = numeric::decimal_int(b.rowid as int);
    if p + x == p + y {
        assert((p + x).skip(p.len() as int) =~= x);
        assert((p + y).skip(p.len() as int) =~= y);
    }
}

/// A Messages database has the tables `message`, `chat`, `handle` and
/// `chat_message_join`: what a database lacks are those of them that it has not,
/// in that order.
pub proof fn law_tables_of_a_messages_database(tables: Seq<Seq<char>>)
    ensures
        absent(required_tables(), tables) == seq![
            "message"@,
            "chat"@,
            "handle"@,
            "chat_message_join"@,
        ].filter(|t: Seq<char>| !tables.contains(t)),
{
    lemma_absent(required_tables(), tables);
}

proof fn lemma_absent(wanted: Seq<Seq<char>>, tables: Seq<Seq<char>>)
    ensures
        absent(wanted, tables) == wanted.filter(|t: Seq<char>| !tables.contains(t)),
    decreases wanted.len(),
{
    reveal(Seq::filter);
    if wanted.len() > 0 {
        lemma_absent(wanted.drop_last(), tables);
    } else {
        assert(absent(wanted, tables) =~= wanted.filter(|t: Seq<char>| !tables.contains(t)));
    }
}

/// Whether a list of columns holds one of a name, the case of its letters aside,
/// where the name is in lower case.
pub proof fn law_which_columns_are_there(columns: Seq<String>, name: Seq<char>)
    requires
        forall|i: int| 0 <= i < name.len() ==> !('A' <= #[trigger] name[i] && name[i] <= 'Z'),
    ensures
        has_column(columns, name) <==> exists|i: int|
            0 <= i < columns.len() && contacts::same_but_case((#[trigger] columns[i])@, name),
{
    assert forall|i: int| 0 <= i < columns.len() implies (text::lowered((#[trigger] columns[i])@)
        == name <==> contacts::same_but_case(columns[i]@, name)) by {
        let c = columns[i]@;
        let l = text::lowered(c);
        if l == name {
            assert forall|k: int| 0 <= k < c.len() implies c[k] == name[k] || ('A' <= c[k] && c[k]
                <= 'Z' && name[k] as int == c[k] as int + 32) by {
                assert(l[k] == text::lower_char(c[k]));
            }
        }
        if contacts::same_but_case(c, name) {
            assert forall|k: int| 0 <= k < c.len() implies l[k] == name[k] by {
                assert(l[k] == text::lower_char(c[k]));
                assert(!('A' <= name[k] && name[k] <= 'Z'));
                assert(c[k] == c[k]);
            }
            assert(l =~= name);
        }
    }
}

/// A column that a database lacks is read as NULL, in its place, and changes
/// nothing else of the query: whatever the other columns, `r.0` stands before it
/// and `r.1` behind it.
pub proof fn law_absent_columns_are_null(caps: SchemaCaps, which: int) -> (r: (Seq<char>, Seq<char>))
    requires
        0 <= which < 6,
    ensures
        ({
            let with = SchemaCaps {
                has_attributed_body: caps.has_attributed_body || which == 0,
                has_date_edited: caps.has_date_edited || which == 1,
                has_date_retracted: caps.has_date_retracted || which == 2,
                has_thread_originator_guid: caps.has_thread_originator_guid || which == 3,
                has_item_type: caps.has_item_type || which == 4,
                has_associated_message_type: caps.has_associated_message_type || which == 5,
            };
            let without = SchemaCaps {
                has_attributed_body: caps.has_attributed_body && which != 0,
                has_date_edited: caps.has_date_edited && which != 1,
                has_date_retracted: caps.has_date_retracted && which != 2,
                has_thread_originator_guid: caps.has_thread_originator_guid && which != 3,
                has_item_type: caps.has_item_type && which != 4,
                has_associated_message_type: caps.has_associated_message_type && which != 5,
            };
            let column = if which == 0 {
                "m.attributedBody"@
            } else if which == 1 {
                "m.date_edited"@
            } else if which == 2 {
                "m.date_retracted"@
            } else if which == 3 {
                "m.thread_originator_guid"@
            } else if which == 4 {
                "m.item_type"@
            } else {
                "m.associated_message_type"@
            };
            &&& select_query(with) == r.0 + column + r.1
            &&& select_query(without) == r.0 + "NULL"@ + r.1
        }),
{
    let a = column_or_null(caps.has_attributed_body, "m.attributedBody"@);
    let b = column_or_null(caps.has_date_edited, "m.date_edited"@);
    let c = column_or_null(caps.has_date_retracted, "m.date_retracted"@);
    let d = column_or_null(caps.has_thread_originator_guid, "m.thread_originator_guid"@);
    let e = column_or_null(caps.has_item_type, "m.item_type"@);
    let f = column_or_null(caps.has_associated_message_type, "m.associated_message_type"@);
    let p0 = SELECT_HEAD@;
    let p1 = p0 + a + SELECT_FIXED@;
    let p2 = p1 + b + ", "@;
    let p3 = p2 + c + ", "@;
    let p4 = p3 + d + ", "@;
    let p5 = p4 + e + ", "@;
    let s1 = ", "@ + c + from_fourth(d, e, f);
    if which == 0 {
        let s0 = SELECT_FIXED@ + b + s1;
        lemma_from_second(p0 + "m.attributedBody"@, b, c, d, e, f);
        lemma_from_second(p0 + "NULL"@, b, c, d, e, f);
        (p0, s0)
    } else if which == 1 {
        lemma_from_third(p1 + "m.date_edited"@, c, d, e, f);
        lemma_from_third(p1 + "NULL"@, c, d, e, f);
        (p1, s1)
    } else if which == 2 {
        lemma_from_fourth(p2 + "m.date_retracted"@, d, e, f);
        lemma_from_fourth(p2 + "NULL"@, d, e, f);
        (p2, from_fourth(d, e, f))
    } else if which == 3 {
        lemma_from_fifth(p3 + "m.thread_originator_guid"@, e, f);
        lemma_from_fifth(p3 + "NULL"@, e, f);
        (p3, from_fifth(e, f))
    } else if which == 4 {
        lemma_from_sixth(p4 + "m.item_type"@, f);
        lemma_from_sixth(p4 + "NULL"@, f);
        (p4, from_sixth(f))
    } else {
        (p5, SELECT_TAIL@)
    }
}

/// The end of the query, from the comma before its sixth column on.
spec fn from_sixth(f: Seq<char>) -> Seq<char> {
    ", "@ + f + SELECT_TAIL@
}

/// The end of the query, from the comma before its fifth column on.
spec fn from_fifth(e: Seq<char>, f: Seq<char>) -> Seq<char> {
    ", "@ + e + from_sixth(f)
}

/// The end of the query, from the comma before its fourth column on.
spec fn from_fourth(d: Seq<char>, e: Seq<char>, f: Seq<char>) -> Seq<char> {
    ", "@ + d + from_fifth(e, f)
}

proof fn lemma_from_sixth(z: Seq<char>, f: Seq<char>)
    ensures
        z + ", "@ + f + SELECT_TAIL@ == z + from_sixth(f),
{
    assert(z + ", "@ + f + SELECT_TAIL@ =~= z + from_sixth(f));
}

proof fn lemma_from_fifth(z: Seq<char>, e: Seq<char>, f: Seq<char>)
    ensures
        z + ", "@ + e + ", "@ + f + SELECT_TAIL@ == z + from_fifth(e, f),
{
    let rest = from_sixth(f);
    lemma_from_sixth(z + ", "@ + e, f);
    assert(z + ", "@ + e + rest =~= z + (", "@ + e + rest));
}

proof fn lemma_from_fourth(z: Seq<char>, d: Seq<char>, e: Seq<char>, f: Seq<char>)
    ensures
        z + ", "@ + d + ", "@ + e + ", "@ + f + SELECT_TAIL@ == z + from_fourth(d, e, f),
{
    let rest = from_fifth(e, f);
    lemma_from_fifth(z + ", "@ + d, e, f);
    assert(z + ", "@ + d + rest =~= z + (", "@ + d + rest));
}

proof fn lemma_from_third(z: Seq<char>, c: Seq<char>, d: Seq<char>, e: Seq<char>, f: Seq<char>)
    ensures
        z + ", "@ + c + ", "@ + d + ", "@ + e + ", "@ + f + SELECT_TAIL@ == z + (", "@ + c
            + from_fourth(d, e, f)),
{
    let rest = from_fourth(d, e, f);
    lemma_from_fourth(z + ", "@ + c, d, e, f);
    assert(z + ", "@ + c + rest =~= z + (", "@ + c + rest));
}

proof fn lemma_from_second(
    z: Seq<char>,
    b: Seq<char>,
    c: Seq<char>,
    d: Seq<char>,
    e: Seq<char>,
    f: Seq<char>,
)
    ensures
        z + SELECT_FIXED@ + b + ", "@ + c + ", "@ + d + ", "@ + e + ", "@ + f + SELECT_TAIL@ == z + (
        SELECT_FIXED@ + b + (", "@ + c + from_fourth(d, e, f))),
{
    let rest = ", "@ + c + from_fourth(d, e, f);
    lemma_from_third(z + SELECT_FIXED@ + b, c, d, e, f);
    assert(z + SELECT_FIXED@ + b + rest =~= z + (SELECT_FIXED@ + b + rest));
}

/// A count below zero counts as none, and any other as itself.
pub proof fn law_counts_are_not_negative(n: i64)
    ensures
        n <= 0 ==> at_least_zero(n) == 0,
        n >= 0 ==> at_least_zero(n) == n,
{
}

} // verus!
