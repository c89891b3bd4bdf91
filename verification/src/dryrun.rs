//! The `etl --dry-run` report: read and count, write nothing.
use crate::extract::ChatStats;
use crate::model::{ExtractedMessage, TextSource};
use crate::numeric;
use crate::numeric::decimal_u64;
use crate::text;
use crate::text::shorten;
use crate::time;
use crate::time::UtcTime;
use vstd::prelude::*;
use vstd::string::*;

verus! {

/// What a full scan of the source database counts. Message bodies are never
/// part of it.
#[derive(Debug, Default, PartialEq)]
pub struct DryRunReport {
    pub source_path: String,
    pub total_messages: u64,
    pub with_text_column: u64,
    pub recovered_from_typedstream: u64,
    pub without_text: u64,
    /// Subset of `without_text` that are tapbacks and reactions.
    pub tapbacks_without_text: u64,
    /// Group-membership changes and similar items that are no messages.
    pub system_events: u64,
    pub direct_chats: u64,
    pub group_chats: u64,
    pub other_chats: u64,
    pub earliest: Option<UtcTime>,
    pub latest: Option<UtcTime>,
}

/// How many messages of a list satisfy a condition.
pub open spec fn count(
    msgs: Seq<ExtractedMessage>,
    p: spec_fn(ExtractedMessage) -> bool,
) -> nat
    decreases msgs.len(),
{
    if msgs.len() == 0 {
        0
    } else {
        count(msgs.drop_last(), p) + one_if(p(msgs.last()))
    }
}

/// One where a condition holds, else none.
pub open spec fn one_if(b: bool) -> nat {
    if b {
        1
    } else {
        0
    }
}

/// The earlier of two instants that may be unknown.
pub open spec fn earlier(a: Option<UtcTime>, b: Option<UtcTime>) -> Option<UtcTime> {
    match (a, b) {
        (Some(a), Some(b)) => Some(if b.before(a) { b } else { a }),
        (None, b) => b,
        (a, None) => a,
    }
}

/// The later of two instants that may be unknown.
pub open spec fn later(a: Option<UtcTime>, b: Option<UtcTime>) -> Option<UtcTime> {
    match (a, b) {
        (Some(a), Some(b)) => Some(if a.before(b) { b } else { a }),
        (None, b) => b,
        (a, None) => a,
    }
}

/// The earliest instant at which a message of a list was sent.
pub open spec fn earliest(msgs: Seq<ExtractedMessage>) -> Option<UtcTime>
    decreases msgs.len(),
{
    if msgs.len() == 0 {
        None
    } else {
        earlier(earliest(msgs.drop_last()), msgs.last().sent_at)
    }
}

/// The latest instant at which a message of a list was sent.
pub open spec fn latest(msgs: Seq<ExtractedMessage>) -> Option<UtcTime>
    decreases msgs.len(),
{
    if msgs.len() == 0 {
        None
    } else {
        later(latest(msgs.drop_last()), msgs.last().sent_at)
    }
}

/// Whether the message counts and times of a report are those of a list of
/// messages.
pub open spec fn reports(r: DryRunReport, msgs: Seq<ExtractedMessage>) -> bool {
    &&& r.total_messages == msgs.len()
    &&& r.with_text_column == count(
        msgs,
        |m: ExtractedMessage| m.text_source == TextSource::TextColumn,
    )
    &&& r.recovered_from_typedstream == count(
        msgs,
        |m: ExtractedMessage| m.text_source == TextSource::AttributedBody,
    )
    &&& r.without_text == count(msgs, |m: ExtractedMessage| m.text_source == TextSource::Absent)
    &&& r.tapbacks_without_text == count(
        msgs,
        |m: ExtractedMessage| m.text_source == TextSource::Absent && m.is_tapback,
    )
    &&& r.system_events == count(msgs, |m: ExtractedMessage| m.is_system_event)
    &&& r.earliest == earliest(msgs)
    &&& r.latest == latest(msgs)
}

/// Counts never pass the length of the list.
pub proof fn lemma_count_bound(
    msgs: Seq<ExtractedMessage>,
    p: spec_fn(ExtractedMessage) -> bool,
)
    ensures
        count(msgs, p) <= msgs.len(),
    decreases msgs.len(),
{
    if msgs.len() > 0 {
        lemma_count_bound(msgs.drop_last(), p);
    }
}

impl DryRunReport {
    /// A report on no message.
    fn new(source_path: &str) -> (r: DryRunReport)
        ensures
            r.source_path@ == source_path@,
            reports(r, Seq::<ExtractedMessage>::empty()),
            r.direct_chats == 0,
            r.group_chats == 0,
            r.other_chats == 0,
    {
        DryRunReport {
            source_path: source_path.to_owned(),
            total_messages: 0,
            with_text_column: 0,
            recovered_from_typedstream: 0,
            without_text: 0,
            tapbacks_without_text: 0,
            system_events: 0,
            direct_chats: 0,
            group_chats: 0,
            other_chats: 0,
            earliest: None,
            latest: None,
        }
    }

    /// Whether the chat counts and the path of a report are those of another.
    pub open spec fn same_frame(self, other: DryRunReport) -> bool {
        &&& self.source_path == other.source_path
        &&& self.direct_chats == other.direct_chats
        &&& self.group_chats == other.group_chats
        &&& self.other_chats == other.other_chats
    }

    /// Counts one more message. Whatever list of messages the report stood
    /// for, it then stands for that list and the message.
    fn observe(&mut self, m: &ExtractedMessage)
        requires
            old(self).total_messages < u64::MAX,
            old(self).with_text_column < u64::MAX,
            old(self).recovered_from_typedstream < u64::MAX,
            old(self).without_text < u64::MAX,
            old(self).tapbacks_without_text < u64::MAX,
            old(self).system_events < u64::MAX,
        ensures
            final(self).same_frame(*old(self)),
            final(self).total_messages == old(self).total_messages + 1,
            final(self).with_text_column == old(self).with_text_column + one_if(
                m.text_source == TextSource::TextColumn,
            ),
            final(self).recovered_from_typedstream == old(self).recovered_from_typedstream + one_if(
                m.text_source == TextSource::AttributedBody,
            ),
            final(self).without_text == old(self).without_text + one_if(
                m.text_source == TextSource::Absent,
            ),
            final(self).tapbacks_without_text == old(self).tapbacks_without_text + one_if(
                m.text_source == TextSource::Absent && m.is_tapback,
            ),
            final(self).system_events == old(self).system_events + one_if(m.is_system_event),
            final(self).earliest == earlier(old(self).earliest, m.sent_at),
            final(self).latest == later(old(self).latest, m.sent_at),
            forall|msgs: Seq<ExtractedMessage>| #[trigger]
                reports(*old(self), msgs) ==> reports(*final(self), msgs.push(*m)),
    {
        self.total_messages = self.total_messages + 1;
        match m.text_source {
            TextSource::TextColumn => {
                self.with_text_column = self.with_text_column + 1;
            },
            TextSource::AttributedBody => {
                self.recovered_from_typedstream = self.recovered_from_typedstream + 1;
            },
            TextSource::Absent => {
                self.without_text = self.without_text + 1;
                if m.is_tapback {
                    self.tapbacks_without_text = self.tapbacks_without_text + 1;
                }
            },
        }
        if m.is_system_event {
            self.system_events = self.system_events + 1;
        }
        match m.sent_at {
            Some(t) => {
                self.earliest = match self.earliest {
                    Some(e) => if t.is_before(&e) {
                        Some(t)
                    } else {
                        Some(e)
                    },
                    None => Some(t),
                };
                self.latest = match self.latest {
                    Some(l) => if l.is_before(&t) {
                        Some(t)
                    } else {
                        Some(l)
                    },
                    None => Some(t),
                };
            },
            None => {},
        }
        proof {
            assert forall|msgs: Seq<ExtractedMessage>| #[trigger]
                reports(*old(self), msgs) implies reports(*self, msgs.push(*m)) by {
                assert(msgs.push(*m).drop_last() =~= msgs);
            }
        }
    }

    /// Sets the chat counts.
    fn set_chats(&mut self, chats: &ChatStats)
        requires
            chats.direct + chats.group <= chats.total,
        ensures
            final(self).direct_chats == chats.direct,
            final(self).group_chats == chats.group,
            final(self).other_chats == chats.total - chats.direct - chats.group,
            final(self).source_path == old(self).source_path,
            forall|msgs: Seq<ExtractedMessage>| #[trigger]
                reports(*old(self), msgs) ==> reports(*final(self), msgs),
    {
        self.direct_chats = chats.direct;
        self.group_chats = chats.group;
        self.other_chats = chats.total - chats.direct - chats.group;
    }

    /// The report in words.
    pub open spec fn words(self) -> Seq<char> {
        "Source database: "@ + self.source_path@ + " (opened read-only)\n\nMessages\n"@
            + "  Total readable:             "@ + numeric::decimal(self.total_messages as nat)
            + "\n  With plain text:            "@ + numeric::decimal(self.with_text_column as nat)
            + "\n  Recovered from typedstream: "@ + numeric::decimal(
            self.recovered_from_typedstream as nat,
        ) + "\n  No text content:            "@ + numeric::decimal(self.without_text as nat)
            + "\n    of which tapbacks:        "@ + numeric::decimal(
            self.tapbacks_without_text as nat,
        ) + "\n  System events (non-chat):   "@ + numeric::decimal(self.system_events as nat)
            + "\n\nChats\n  Direct: "@ + numeric::decimal(self.direct_chats as nat)
            + "\n  Group:  "@ + numeric::decimal(self.group_chats as nat) + (if self.other_chats > 0 {
            "\n  Other:  "@ + numeric::decimal(self.other_chats as nat)
        } else {
            Seq::empty()
        }) + "\n\nTime range\n  Earliest: "@ + instant_or_na(self.earliest) + "\n  Latest:   "@
            + instant_or_na(self.latest)
    }

    /// The report as it is printed.
    pub fn render(&self) -> (r: String)
        ensures
            r@ == self.words(),
    {
        let mut s = "Source database: ".to_owned();
        s.append(self.source_path.as_str());
        s.append(" (opened read-only)\n\nMessages\n");
        s.append("  Total readable:             ");
        s.append(decimal_u64(self.total_messages).as_str());
        s.append("\n  With plain text:            ");
        s.append(decimal_u64(self.with_text_column).as_str());
        s.append("\n  Recovered from typedstream: ");
        s.append(decimal_u64(self.recovered_from_typedstream).as_str());
        s.append("\n  No text content:            ");
        s.append(decimal_u64(self.without_text).as_str());
        s.append("\n    of which tapbacks:        ");
        s.append(decimal_u64(self.tapbacks_without_text).as_str());
        s.append("\n  System events (non-chat):   ");
        s.append(decimal_u64(self.system_events).as_str());
        s.append("\n\nChats\n  Direct: ");
        s.append(decimal_u64(self.direct_chats).as_str());
        s.append("\n  Group:  ");
        s.append(decimal_u64(self.group_chats).as_str());
        let mut other = String::new();
        if self.other_chats > 0 {
            other = "\n  Other:  ".to_owned();
            other.append(decimal_u64(self.other_chats).as_str());
        }
        s.append(other.as_str());
        s.append("\n\nTime range\n  Earliest: ");
        s.append(fmt_ts(&self.earliest).as_str());
        s.append("\n  Latest:   ");
        s.append(fmt_ts(&self.latest).as_str());
        s
    }
}

/// The text of an optional instant.
pub open spec fn instant_or_na(t: Option<UtcTime>) -> Seq<char> {
    match t {
        Some(t) => time::rfc3339_seconds(t.secs(), t.nanos()),
        None => "n/a"@,
    }
}

fn fmt_ts(t: &Option<UtcTime>) -> (r: String)
    ensures
        r@ == instant_or_na(*t),
{
    match t {
        Some(t) => t.to_rfc3339_seconds(),
        None => "n/a".to_owned(),
    }
}

/// Counts a whole source database: its messages, given in order, and its
/// chats.
pub fn build_report(
    source_path: &str,
    msgs: &[ExtractedMessage],
    chats: &ChatStats,
) -> (r: DryRunReport)
    requires
        chats.direct + chats.group <= chats.total,
    ensures
        r.source_path@ == source_path@,
        reports(r, msgs@),
        r.direct_chats == chats.direct,
        r.group_chats == chats.group,
        r.other_chats == chats.total - chats.direct - chats.group,
{
    let mut r = DryRunReport::new(source_path);
    let mut i: usize = 0;
    proof {
        assert(msgs@.take(0) =~= Seq::<ExtractedMessage>::empty());
    }
    while i < msgs.len()
        invariant
            i <= msgs@.len(),
            reports(r, msgs@.take(i as int)),
            r.source_path@ == source_path@,
        decreases msgs@.len() - i,
    {
        proof {
            let done = msgs@.take(i as int);
            lemma_count_bound(done, |m: ExtractedMessage| m.text_source == TextSource::TextColumn);
            lemma_count_bound(
                done,
                |m: ExtractedMessage| m.text_source == TextSource::AttributedBody,
            );
            lemma_count_bound(done, |m: ExtractedMessage| m.text_source == TextSource::Absent);
            lemma_count_bound(
                done,
                |m: ExtractedMessage| m.text_source == TextSource::Absent && m.is_tapback,
            );
            lemma_count_bound(done, |m: ExtractedMessage| m.is_system_event);
            assert(done.push(msgs@[i as int]) =~= msgs@.take(i + 1));
        }
        r.observe(&msgs[i]);
        i = i + 1;
    }
    proof {
        assert(msgs@.take(i as int) =~= msgs@);
    }
    r.set_chats(chats);
    r
}

/// The longest part of a text that a sample shows.
pub const SAMPLE_CHARS: usize = 120;

/// Who sent a message, as a sample shows it.
pub open spec fn sample_sender(m: ExtractedMessage) -> Seq<char> {
    if m.is_from_me {
        "me"@
    } else {
        match m.sender_handle {
            Some(h) => h@,
            None => "unknown"@,
        }
    }
}

/// When a message was sent, as a sample shows it.
pub open spec fn sample_time(m: ExtractedMessage) -> Seq<char> {
    match m.sent_at {
        Some(t) => time::rfc3339_seconds(t.secs(), t.nanos()),
        None => "unknown-time"@,
    }
}

/// The sample of a message with a text.
pub open spec fn sample_of(m: ExtractedMessage) -> Seq<char> {
    "["@ + sample_time(m) + "] "@ + sample_sender(m) + ": "@ + text::shortened(
        m.text->0@,
        SAMPLE_CHARS as nat,
    )
}

/// The samples of the first messages that have a text, at most `limit`.
pub open spec fn samples(msgs: Seq<ExtractedMessage>, limit: nat) -> Seq<Seq<char>>
    decreases msgs.len(),
{
    if msgs.len() == 0 {
        Seq::empty()
    } else {
        let before = samples(msgs.drop_last(), limit);
        if before.len() < limit && msgs.last().text is Some {
            before.push(sample_of(msgs.last()))
        } else {
            before
        }
    }
}

fn sample(m: &ExtractedMessage, body: &String) -> (r: String)
    requires
        m.text == Some(*body),
    ensures
        r@ == sample_of(*m),
{
    let when = match &m.sent_at {
        Some(t) => t.to_rfc3339_seconds(),
        None => "unknown-time".to_owned(),
    };
    let mut s = "[".to_owned();
    s.append(when.as_str());
    s.append("] ");
    if m.is_from_me {
        s.append("me");
    } else {
        match &m.sender_handle {
            Some(h) => {
                s.append(h.as_str());
            },
            None => {
                s.append("unknown");
            },
        }
    }
    s.append(": ");
    s.append(shorten(body.as_str(), SAMPLE_CHARS).as_str());
    s
}

/// First `limit` message texts, shortened, for explicit debugging only. The
/// caller warns the user before printing these.
pub fn text_samples(msgs: &[ExtractedMessage], limit: usize) -> (r: Vec<String>)
    ensures
        text::views(r@) == samples(msgs@, limit as nat),
        r@.len() <= limit,
{
    let mut out: Vec<String> = Vec::new();
    let mut i: usize = 0;
    proof {
        assert(text::views(out@) =~= samples(msgs@.take(0), limit as nat));
    }
    while i < msgs.len()
        invariant
            i <= msgs@.len(),
            text::views(out@) == samples(msgs@.take(i as int), limit as nat),
            out@.len() <= limit,
        decreases msgs@.len() - i,
    {
        proof {
            assert(msgs@.take(i + 1).drop_last() =~= msgs@.take(i as int));
        }
        match &msgs[i].text {
            Some(body) => {
                if out.len() < limit {
                    let s = sample(&msgs[i], body);
                    let ghost before = text::views(out@);
                    out.push(s);
                    proof {
                        assert(text::views(out@) =~= before.push(s@));
                    }
                }
            },
            None => {},
        }
        i = i + 1;
    }
    proof {
        assert(msgs@.take(i as int) =~= msgs@);
    }
    out
}

/// Every message is counted under exactly one source of text.
pub proof fn law_sources_add_up(r: DryRunReport, msgs: Seq<ExtractedMessage>)
    requires
        reports(r, msgs),
    ensures
        r.total_messages == r.with_text_column + r.recovered_from_typedstream + r.without_text,
        r.tapbacks_without_text <= r.without_text,
{
    lemma_sources(msgs);
}

proof fn lemma_sources(msgs: Seq<ExtractedMessage>)
    ensures
        msgs.len() == count(msgs, |m: ExtractedMessage| m.text_source == TextSource::TextColumn)
            + count(msgs, |m: ExtractedMessage| m.text_source == TextSource::AttributedBody) + count(
            msgs,
            |m: ExtractedMessage| m.text_source == TextSource::Absent,
        ),
        count(msgs, |m: ExtractedMessage| m.text_source == TextSource::Absent && m.is_tapback)
            <= count(msgs, |m: ExtractedMessage| m.text_source == TextSource::Absent),
    decreases msgs.len(),
{
    if msgs.len() > 0 {
        lemma_sources(msgs.drop_last());
    }
}

/// The printed report depends on the counts and times alone: two scans that
/// count alike print alike, so no message body can show.
pub proof fn law_report_shows_no_bodies(
    a: DryRunReport,
    b: DryRunReport,
    x: Seq<ExtractedMessage>,
    y: Seq<ExtractedMessage>,
)
    requires
        reports(a, x),
        reports(b, y),
        a.same_frame(b),
        x.len() == y.len(),
        forall|i: int|
            0 <= i < x.len() ==> (#[trigger] x[i]).text_source == y[i].text_source
                && x[i].is_tapback == y[i].is_tapback && x[i].is_system_event
                == y[i].is_system_event && x[i].sent_at == y[i].sent_at,
    ensures
        a.words() == b.words(),
{
    lemma_same_counts(x, y);
}

proof fn lemma_same_counts(x: Seq<ExtractedMessage>, y: Seq<ExtractedMessage>)
    requires
        x.len() == y.len(),
        forall|i: int|
            0 <= i < x.len() ==> (#[trigger] x[i]).text_source == y[i].text_source
                && x[i].is_tapback == y[i].is_tapback && x[i].is_system_event
                == y[i].is_system_event && x[i].sent_at == y[i].sent_at,
    ensures
        count(x, |m: ExtractedMessage| m.text_source == TextSource::TextColumn) == count(
            y,
            |m: ExtractedMessage| m.text_source == TextSource::TextColumn,
        ),
        count(x, |m: ExtractedMessage| m.text_source == TextSource::AttributedBody) == count(
            y,
            |m: ExtractedMessage| m.text_source == TextSource::AttributedBody,
        ),
        count(x, |m: ExtractedMessage| m.text_source == TextSource::Absent) == count(
            y,
            |m: ExtractedMessage| m.text_source == TextSource::Absent,
        ),
        count(x, |m: ExtractedMessage| m.text_source == TextSource::Absent && m.is_tapback)
            == count(
            y,
            |m: ExtractedMessage| m.text_source == TextSource::Absent && m.is_tapback,
        ),
        count(x, |m: ExtractedMessage| m.is_system_event) == count(
            y,
            |m: ExtractedMessage| m.is_system_event,
        ),
        earliest(x) == earliest(y),
        latest(x) == latest(y),
    decreases x.len(),
{
    if x.len() > 0 {
        let a = x.drop_last();
        let b = y.drop_last();
        assert forall|i: int| 0 <= i < a.len() implies (#[trigger] a[i]).text_source
            == b[i].text_source && a[i].is_tapback == b[i].is_tapback && a[i].is_system_event
            == b[i].is_system_event && a[i].sent_at == b[i].sent_at by {
            assert(a[i] == x[i] && b[i] == y[i]);
        }
        lemma_same_counts(a, b);
        assert(x.last() == x[x.len() - 1] && y.last() == y[y.len() - 1]);
    }
}

proof fn lemma_count_filter(msgs: Seq<ExtractedMessage>, p: spec_fn(ExtractedMessage) -> bool)
    ensures
        count(msgs, p) == msgs.filter(p).len(),
    decreases msgs.len(),
{
    reveal(Seq::filter);
    if msgs.len() > 0 {
        lemma_count_filter(msgs.drop_last(), p);
    }
}

/// Whether an instant is no later than another: by the second, and within a
/// second by the nanosecond.
pub open spec fn no_later(a: UtcTime, b: UtcTime) -> bool {
    a.secs() < b.secs() || (a.secs() == b.secs() && a.nanos() <= b.nanos())
}

proof fn lemma_range(msgs: Seq<ExtractedMessage>)
    ensures
        forall|i: int|
            0 <= i < msgs.len() && (#[trigger] msgs[i]).sent_at is Some ==> earliest(msgs) is Some
                && latest(msgs) is Some && no_later(earliest(msgs)->0, msgs[i].sent_at->0)
                && no_later(msgs[i].sent_at->0, latest(msgs)->0),
        earliest(msgs) is Some ==> exists|i: int|
            0 <= i < msgs.len() && (#[trigger] msgs[i]).sent_at == earliest(msgs),
        latest(msgs) is Some ==> exists|i: int|
            0 <= i < msgs.len() && (#[trigger] msgs[i]).sent_at == latest(msgs),
    decreases msgs.len(),
{
    if msgs.len() > 0 {
        let f = msgs.drop_last();
        let n = msgs.len() - 1;
        lemma_range(f);
        assert forall|i: int| 0 <= i < msgs.len() && (#[trigger] msgs[i]).sent_at is Some implies earliest(
            msgs,
        ) is Some && latest(msgs) is Some && no_later(earliest(msgs)->0, msgs[i].sent_at->0)
            && no_later(msgs[i].sent_at->0, latest(msgs)->0) by {
            if i < n {
                assert(f[i] == msgs[i]);
            }
        }
        if earliest(msgs) is Some {
            if earliest(f) is Some && earliest(msgs) == earliest(f) {
                let i = choose|i: int| 0 <= i < f.len() && (#[trigger] f[i]).sent_at == earliest(f);
                assert(msgs[i].sent_at == earliest(msgs));
            } else {
                assert(msgs[n].sent_at == earliest(msgs));
            }
        }
        if latest(msgs) is Some {
            if latest(f) is Some && latest(msgs) == latest(f) {
                let i = choose|i: int| 0 <= i < f.len() && (#[trigger] f[i]).sent_at == latest(f);
                assert(msgs[i].sent_at == latest(msgs));
            } else {
                assert(msgs[n].sent_at == latest(msgs));
            }
        }
    }
}

/// What a report counts: every message once; by where its text comes from; among
/// those without a text the tapbacks; and the system events, whatever their text.
/// Its times are those of a message, and no message was sent outside them.
pub proof fn law_what_a_report_counts(r: DryRunReport, msgs: Seq<ExtractedMessage>)
    requires
        reports(r, msgs),
    ensures
        r.total_messages == msgs.len(),
        r.with_text_column == msgs.filter(
            |m: ExtractedMessage| m.text_source == TextSource::TextColumn,
        ).len(),
        r.recovered_from_typedstream == msgs.filter(
            |m: ExtractedMessage| m.text_source == TextSource::AttributedBody,
        ).len(),
        r.without_text == msgs.filter(
            |m: ExtractedMessage| m.text_source == TextSource::Absent,
        ).len(),
        r.tapbacks_without_text == msgs.filter(
            |m: ExtractedMessage| m.text_source == TextSource::Absent && m.is_tapback,
        ).len(),
        r.system_events == msgs.filter(|m: ExtractedMessage| m.is_system_event).len(),
        forall|i: int|
            0 <= i < msgs.len() && (#[trigger] msgs[i]).sent_at is Some ==> r.earliest is Some
                && r.latest is Some && no_later(r.earliest->0, msgs[i].sent_at->0) && no_later(
                msgs[i].sent_at->0,
                r.latest->0,
            ),
        r.earliest is Some ==> exists|i: int|
            0 <= i < msgs.len() && (#[trigger] msgs[i]).sent_at == r.earliest,
        r.latest is Some ==> exists|i: int|
            0 <= i < msgs.len() && (#[trigger] msgs[i]).sent_at == r.latest,
{
    lemma_count_filter(msgs, |m: ExtractedMessage| m.text_source == TextSource::TextColumn);
    lemma_count_filter(msgs, |m: ExtractedMessage| m.text_source == TextSource::AttributedBody);
    lemma_count_filter(msgs, |m: ExtractedMessage| m.text_source == TextSource::Absent);
    lemma_count_filter(
        msgs,
        |m: ExtractedMessage| m.text_source == TextSource::Absent && m.is_tapback,
    );
    lemma_count_filter(msgs, |m: ExtractedMessage| m.is_system_event);
    lemma_range(msgs);
}

/// Which samples are shown: those of the first messages that have a text, in
/// their order, at most as many as asked for. A sample shows at most 120
/// characters of the text, with an ellipsis where there are more, behind who sent
/// it: the user, the handle, or nobody known.
pub proof fn law_which_samples_are_shown(msgs: Seq<ExtractedMessage>, limit: nat) -> (o: Seq<int>)
    ensures
        ({
            let shown = samples(msgs, limit);
            &&& o.len() == shown.len()
            &&& o.len() <= limit
            &&& forall|n: int|
                0 <= n < o.len() ==> 0 <= #[trigger] o[n] < msgs.len() && ({
                    let m = msgs[o[n]];
                    &&& m.text is Some
                    &&& shown[n] == "["@ + (if m.sent_at is Some {
                        time::rfc3339_seconds(m.sent_at->0.secs(), m.sent_at->0.nanos())
                    } else {
                        "unknown-time"@
                    }) + "] "@ + (if m.is_from_me {
                        "me"@
                    } else if m.sender_handle is Some {
                        m.sender_handle->0@
                    } else {
                        "unknown"@
                    }) + ": "@ + (if m.text->0@.len() > 120 {
                        m.text->0@.take(120).push('…')
                    } else {
                        m.text->0@
                    })
                })
            &&& forall|a: int, b: int|
                0 <= a < b < o.len() ==> #[trigger] o[a] < #[trigger] o[b]
            &&& forall|k: int|
                0 <= k < msgs.len() && (#[trigger] msgs[k]).text is Some ==> o.contains(k) || (
                o.len() == limit && forall|n: int| 0 <= n < o.len() ==> #[trigger] o[n] < k)
        }),
    decreases msgs.len(),
{
    if msgs.len() == 0 {
        Seq::empty()
    } else {
        let f = msgs.drop_last();
        let n = msgs.len() - 1;
        let o = law_which_samples_are_shown(f, limit);
        let r = if o.len() < limit && msgs[n].text is Some {
            o.push(n)
        } else {
            o
        };
        assert forall|a: int| 0 <= a < r.len() implies 0 <= #[trigger] r[a] < msgs.len()
            && msgs[r[a]].text is Some && samples(msgs, limit)[a] == sample_of(msgs[r[a]]) by {
            if a < o.len() {
                assert(r[a] == o[a]);
                assert(f[o[a]] == msgs[o[a]]);
            }
        }
        assert forall|a: int, b: int| 0 <= a < b < r.len() implies #[trigger] r[a] < #[trigger] r[b] by {
            assert(r[a] == o[a]);
            if b < o.len() {
                assert(r[b] == o[b]);
            }
        }
        assert forall|k: int| 0 <= k < msgs.len() && (
        #[trigger] msgs[k]).text is Some implies r.contains(k) || (r.len() == limit && forall|a: int|
            0 <= a < r.len() ==> #[trigger] r[a] < k) by {
            if k < n {
                assert(f[k] == msgs[k]);
                if o.contains(k) {
                    let x = choose|x: int| 0 <= x < o.len() && o[x] == k;
                    assert(r[x] == k);
                } else {
                    assert(r == o);
                }
            } else if o.len() < limit {
                assert(r[o.len() as int] == k);
            }
        }
        r
    }
}

} // verus!
