//! Browsing the index: the list of chats, the conversation around a chunk,
//! and the newest messages.
use crate::contacts;
use crate::index;
use crate::index::IndexDb;
use crate::lists;
use crate::order;
use crate::search;
use crate::tables;
use crate::tables::{ChatView, ChunkRowView, HandleView, MessageRow, MessageView, Tables};
use crate::text;
use crate::text::{contains, str_eq, to_ascii_lowercase};
use vstd::prelude::*;
use vstd::string::*;

verus! {

/// A chat, as a list of chats shows it.
#[derive(Debug, Clone, PartialEq, Eq)]
pub struct ChatSummary {
    pub id: i64,
    pub label: String,
    pub is_group: Option<bool>,
    pub message_count: u64,
    pub last_message_ms: Option<i64>,
}

/// The contents of a [`ChatSummary`].
pub struct SummaryView {
    pub id: i64,
    pub label: Seq<char>,
    pub is_group: Option<bool>,
    pub message_count: u64,
    pub last_message_ms: Option<i64>,
}

impl View for ChatSummary {
    type V = SummaryView;

    open spec fn view(&self) -> SummaryView {
        SummaryView {
            id: self.id,
            label: self.label@,
            is_group: self.is_group,
            message_count: self.message_count,
            last_message_ms: self.last_message_ms,
        }
    }
}

/// The contents of a list of summaries.
pub open spec fn summary_views(s: Seq<ChatSummary>) -> Seq<SummaryView> {
    s.map_values(|c: ChatSummary| c@)
}

/// The condition that a message belongs to a chat.
pub open spec fn in_chat(chat_id: i64) -> spec_fn(MessageView) -> bool {
    |m: MessageView| m.chat_id == Some(chat_id)
}

/// The latest time of some messages.
pub open spec fn latest(rows: Seq<MessageView>) -> Option<i64>
    decreases rows.len(),
{
    if rows.len() == 0 {
        None
    } else {
        later(latest(rows.drop_last()), rows.last().sent_at_ms)
    }
}

/// The later of two times, if there is any.
pub open spec fn later(a: Option<i64>, b: Option<i64>) -> Option<i64> {
    match (a, b) {
        (Some(x), Some(y)) => if y > x {
            Some(y)
        } else {
            Some(x)
        },
        (None, _) => b,
        (_, None) => a,
    }
}

/// How a list of chats shows a chat.
pub open spec fn summary(t: Tables, c: ChatView) -> SummaryView {
    let own = lists::chosen(t.messages, in_chat(c.id));
    SummaryView {
        id: c.id,
        label: search::chat_label(t, c),
        is_group: c.is_group,
        message_count: own.len() as u64,
        last_message_ms: latest(own),
    }
}

/// Whether a text holds another, letter case aside.
pub open spec fn mentions(s: Seq<char>, part: Seq<char>) -> bool {
    text::has_part(text::lowered(s), text::lowered(part))
}

/// Whether a text holds another, letter case aside (ASCII letters only).
fn mentions_text(s: &str, part: &str) -> (r: bool)
    ensures
        r == mentions(s@, part@),
{
    contains(to_ascii_lowercase(s).as_str(), to_ascii_lowercase(part).as_str())
}

/// The condition that a chat's label passes a filter.
pub open spec fn passes(filter: Option<Seq<char>>) -> spec_fn(SummaryView) -> bool {
    |s: SummaryView|
        match filter {
            Some(f) => mentions(s.label, f),
            None => true,
        }
}

/// The sort key of a chat: the most recently active first, those without a
/// dated message last.
pub open spec fn recency_key(s: SummaryView) -> (i128, i128) {
    match s.last_message_ms {
        Some(t) => (-(t as int) as i128, 0),
        None => (NEVER, 0),
    }
}

/// Later than every time.
pub const NEVER: i128 = 0x1_0000_0000_0000_0000;

/// The list of chats whose label passes a filter, most recently active first,
/// at most `limit`.
pub open spec fn chat_list(t: Tables, filter: Option<Seq<char>>, limit: nat) -> Seq<SummaryView> {
    let kept = lists::chosen(t.chats.map_values(|c: ChatView| summary(t, c)), passes(filter));
    search::first_of(
        order::arranged(kept, kept.map_values(|s: SummaryView| recency_key(s))),
        limit,
    )
}

/// One message of a conversation.
#[derive(Debug, Clone, PartialEq, Eq)]
pub struct WindowMessage {
    pub sent_at_ms: Option<i64>,
    pub sender: String,
    pub text: String,
    /// Whether the message belongs to the chunk itself, and is not context.
    pub in_span: bool,
}

/// The contents of a [`WindowMessage`].
pub struct WindowMessageView {
    pub sent_at_ms: Option<i64>,
    pub sender: Seq<char>,
    pub text: Seq<char>,
    pub in_span: bool,
}

impl View for WindowMessage {
    type V = WindowMessageView;

    open spec fn view(&self) -> WindowMessageView {
        WindowMessageView {
            sent_at_ms: self.sent_at_ms,
            sender: self.sender@,
            text: self.text@,
            in_span: self.in_span,
        }
    }
}

/// A chunk's messages with some of those around them.
#[derive(Debug, Clone, PartialEq, Eq)]
pub struct ConversationWindow {
    pub chat_label: String,
    pub messages: Vec<WindowMessage>,
}

/// The contents of a list of window messages.
pub open spec fn window_views(s: Seq<WindowMessage>) -> Seq<WindowMessageView> {
    s.map_values(|m: WindowMessage| m@)
}

/// The time of a message or of a chunk's end; an unknown one counts as zero.
pub open spec fn moment(t: Option<i64>) -> i64 {
    match t {
        Some(t) => t,
        None => 0,
    }
}

fn moment_of(t: Option<i64>) -> (r: i64)
    ensures
        r == moment(t),
{
    match t {
        Some(t) => t,
        None => 0,
    }
}

/// The condition that a message was sent before a chunk began.
pub open spec fn before_span(c: ChunkRowView) -> spec_fn(MessageView) -> bool {
    |m: MessageView| moment(m.sent_at_ms) < moment(c.started_at_ms)
}

/// The condition that a message was sent while a chunk lasted.
pub open spec fn within_span(c: ChunkRowView) -> spec_fn(MessageView) -> bool {
    |m: MessageView|
        moment(c.started_at_ms) <= moment(m.sent_at_ms) <= moment(c.ended_at_ms)
}

/// A message as a window shows it.
pub open spec fn window_message(t: Tables, c: ChunkRowView, m: MessageView) -> WindowMessageView {
    WindowMessageView {
        sent_at_ms: m.sent_at_ms,
        sender: index::sender_label(t.handles, m),
        text: m.text->0,
        in_span: within_span(c)(m),
    }
}

/// Where a window begins in a chat's messages.
pub open spec fn window_start(rows: Seq<MessageView>, c: ChunkRowView, before: nat) -> int {
    let first = lists::chosen(rows, before_span(c)).len();
    if first > before {
        first - before
    } else {
        0
    }
}

/// Where a window ends in a chat's messages.
pub open spec fn window_end(rows: Seq<MessageView>, c: ChunkRowView, after: nat) -> int {
    let past = lists::chosen(rows, before_span(c)).len() + lists::chosen(
        rows,
        within_span(c),
    ).len();
    if past + after < rows.len() {
        (past + after) as int
    } else {
        rows.len() as int
    }
}

/// The messages around a chunk: those sent while it lasted, `before` ahead
/// of them and `after` behind them.
pub open spec fn window(t: Tables, c: ChunkRowView, before: nat, after: nat) -> Seq<
    WindowMessageView,
> {
    let rows = index::timeline(t, c.chat_id);
    rows.subrange(window_start(rows, c, before), window_end(rows, c, after)).map_values(
        |m: MessageView| window_message(t, c, m),
    )
}

/// One of the newest messages.
#[derive(Debug, Clone, PartialEq, Eq)]
pub struct RecentMessage {
    pub sent_at_ms: Option<i64>,
    pub sender: String,
    pub text: String,
    pub is_from_me: bool,
}

/// The contents of a [`RecentMessage`].
pub struct RecentView {
    pub sent_at_ms: Option<i64>,
    pub sender: Seq<char>,
    pub text: Seq<char>,
    pub is_from_me: bool,
}

impl View for RecentMessage {
    type V = RecentView;

    open spec fn view(&self) -> RecentView {
        RecentView {
            sent_at_ms: self.sent_at_ms,
            sender: self.sender@,
            text: self.text@,
            is_from_me: self.is_from_me,
        }
    }
}

/// The contents of a list of recent messages.
pub open spec fn recent_views(s: Seq<RecentMessage>) -> Seq<RecentView> {
    s.map_values(|m: RecentMessage| m@)
}

/// Which messages count as recent activity.
#[derive(Debug, Clone, PartialEq, Eq)]
pub enum Scope {
    /// Those of a chat.
    Chat(i64),
    /// Those that come from some handles, and the user's own in some chats.
    Exchange { handles: Vec<i64>, chats: Vec<i64> },
    /// All of them.
    Everything,
}

/// The contents of a [`Scope`].
pub enum ScopeView {
    Chat(i64),
    Exchange { handles: Seq<i64>, chats: Seq<i64> },
    Everything,
}

impl View for Scope {
    type V = ScopeView;

    open spec fn view(&self) -> ScopeView {
        match *self {
            Scope::Chat(id) => ScopeView::Chat(id),
            Scope::Exchange { handles, chats } => ScopeView::Exchange {
                handles: handles@,
                chats: chats@,
            },
            Scope::Everything => ScopeView::Everything,
        }
    }
}

/// Whether a message comes from one of some handles.
pub open spec fn comes_from(m: MessageView, handles: Seq<i64>) -> bool {
    !m.is_from_me && m.sender_id is Some && handles.contains(m.sender_id->0)
}

/// The condition that a message has a text, is no system event, and is in a
/// scope.
pub open spec fn in_scope(scope: ScopeView) -> spec_fn(MessageView) -> bool {
    |m: MessageView|
        m.text is Some && !m.is_system_event && match scope {
            ScopeView::Chat(id) => m.chat_id == Some(id),
            ScopeView::Exchange { handles, chats } => comes_from(m, handles) || (m.is_from_me
                && m.chat_id is Some && chats.contains(m.chat_id->0)),
            ScopeView::Everything => true,
        }
}

/// The messages of a scope, oldest first.
pub open spec fn thread(t: Tables, scope: ScopeView) -> Seq<MessageView> {
    index::in_time_order(lists::chosen(t.messages, in_scope(scope)))
}

/// A message as a list of recent messages shows it.
pub open spec fn recent_message(t: Tables, m: MessageView) -> RecentView {
    RecentView {
        sent_at_ms: m.sent_at_ms,
        sender: index::sender_label(t.handles, m),
        text: m.text->0,
        is_from_me: m.is_from_me,
    }
}

/// The messages of a scope as a list of recent messages shows them, oldest
/// first.
pub open spec fn recents(t: Tables, scope: ScopeView) -> Seq<RecentView> {
    thread(t, scope).map_values(|m: MessageView| recent_message(t, m))
}

/// The condition that a handle, or the name it goes by, holds a text.
pub open spec fn handle_mentions(wanted: Seq<char>) -> spec_fn(HandleView) -> bool {
    |h: HandleView| mentions(index::handle_label(h), wanted) || mentions(h.handle, wanted)
}

/// The name of the contact that a text stands for: that of the first handle
/// which holds it.
pub open spec fn contact_label(t: Tables, wanted: Seq<char>) -> Option<Seq<char>> {
    match lists::first_index(t.handles, handle_mentions(wanted)) {
        Some(i) => Some(index::handle_label(t.handles[i])),
        None => None,
    }
}

/// The condition that a handle goes by a name.
pub open spec fn goes_by(label: Seq<char>) -> spec_fn(HandleView) -> bool {
    |h: HandleView| index::handle_label(h) == label
}

/// The ids of the handles that go by a name.
pub open spec fn handles_of(t: Tables, label: Seq<char>) -> Seq<i64> {
    lists::chosen(t.handles, goes_by(label)).map_values(|h: HandleView| h.id)
}

/// The condition that a message of a chat comes from one of some handles.
pub open spec fn written_by(chat_id: i64, handles: Seq<i64>) -> spec_fn(MessageView) -> bool {
    |m: MessageView| m.chat_id == Some(chat_id) && comes_from(m, handles)
}

/// The condition that a chat is a direct one in which one of some handles
/// has written.
pub open spec fn direct_with(
    messages: Seq<MessageView>,
    handles: Seq<i64>,
) -> spec_fn(ChatView) -> bool {
    |c: ChatView|
        c.is_group == Some(false) && lists::first_index(
            messages,
            written_by(c.id, handles),
        ) is Some
}

/// The ids of the direct chats in which one of some handles has written.
pub open spec fn direct_chats(t: Tables, handles: Seq<i64>) -> Seq<i64> {
    lists::chosen(t.chats, direct_with(t.messages, handles)).map_values(|c: ChatView| c.id)
}

/// What was said between the user and a contact: the contact's messages, and
/// the user's own in direct chats with them.
pub open spec fn exchange(t: Tables, label: Seq<char>) -> ScopeView {
    let handles = handles_of(t, label);
    ScopeView::Exchange { handles, chats: direct_chats(t, handles) }
}

fn holds_id(ids: &Vec<i64>, id: i64) -> (r: bool)
    ensures
        r == ids@.contains(id),
{
    let mut i: usize = 0;
    while i < ids.len()
        invariant
            i <= ids@.len(),
            forall|j: int| 0 <= j < i ==> ids@[j] != id,
        decreases ids@.len() - i,
    {
        if ids[i] == id {
            assert(ids@[i as int] == id);
            return true;
        }
        i = i + 1;
    }
    false
}

fn is_from(m: &MessageRow, handles: &Vec<i64>) -> (r: bool)
    ensures
        r == comes_from(m@, handles@),
{
    if m.is_from_me {
        return false;
    }
    match m.sender_id {
        Some(id) => holds_id(handles, id),
        None => false,
    }
}

impl Scope {
    /// Whether a message has a text, is no system event, and is in the scope.
    fn holds(&self, m: &MessageRow) -> (r: bool)
        ensures
            r == in_scope(self@)(m@),
    {
        if m.text.is_none() || m.is_system_event {
            return false;
        }
        match self {
            Scope::Chat(id) => m.chat_id == Some(*id),
            Scope::Exchange { handles, chats } => {
                if is_from(m, handles) {
                    return true;
                }
                if !m.is_from_me {
                    return false;
                }
                match m.chat_id {
                    Some(id) => holds_id(chats, id),
                    None => false,
                }
            },
            Scope::Everything => true,
        }
    }
}

impl IndexDb {
    fn summary_of(&self, i: usize) -> (r: ChatSummary)
        requires
            i < self@.chats.len(),
        ensures
            r@ == summary(self@, self@.chats[i as int]),
    {
        let label = self.label_of_chat(i);
        let chats = self.chats();
        assert(tables::chat_views(chats@)[i as int] == chats@[i as int]@);
        let id: i64 = chats[i].id;
        let ghost p = in_chat(id);
        let rows = self.messages();
        let ghost all = self@.messages;
        let mut count: u64 = 0;
        let mut last: Option<i64> = None;
        let mut k: usize = 0;
        while k < rows.len()
            invariant
                k <= rows@.len(),
                p == in_chat(id),
                all == self@.messages,
                tables::message_views(rows@) == all,
                count <= k,
                count == lists::chosen(all.take(k as int), p).len(),
                last == latest(lists::chosen(all.take(k as int), p)),
            decreases rows@.len() - k,
        {
            proof {
                assert(tables::message_views(rows@)[k as int] == rows@[k as int]@);
                assert(all.take(k + 1).drop_last() =~= all.take(k as int));
            }
            if rows[k].chat_id == Some(id) {
                proof {
                    assert(lists::chosen(all.take(k + 1), p).drop_last() =~= lists::chosen(
                        all.take(k as int),
                        p,
                    ));
                }
                count = count + 1;
                match rows[k].sent_at_ms {
                    Some(t) => match last {
                        Some(best) => {
                            if t > best {
                                last = Some(t);
                            }
                        },
                        None => {
                            last = Some(t);
                        },
                    },
                    None => {},
                }
            }
            k = k + 1;
        }
        proof {
            assert(all.take(k as int) =~= all);
        }
        ChatSummary {
            id,
            label,
            is_group: chats[i].is_group,
            message_count: count,
            last_message_ms: last,
        }
    }

    /// The chats whose label holds `filter` (letter case aside), most
    /// recently active first.
    pub fn list_chats(&self, filter: Option<&str>, limit: u32) -> (r: Vec<ChatSummary>)
        ensures
            summary_views(r@) == chat_list(self@, text::opt_str(filter), limit as nat),
    {
        let ghost p = passes(text::opt_str(filter));
        let ghost all = self@.chats.map_values(|c: ChatView| summary(self@, c));
        let mut kept: Vec<ChatSummary> = Vec::new();
        let mut keys: Vec<(i128, i128)> = Vec::new();
        let n: usize = self.chats().len();
        let mut i: usize = 0;
        proof {
            assert(summary_views(kept@) =~= lists::chosen(all.take(0), p));
            assert(keys@ =~= summary_views(kept@).map_values(|s: SummaryView| recency_key(s)));
        }
        while i < n
            invariant
                i <= n == self@.chats.len(),
                p == passes(text::opt_str(filter)),
                all == self@.chats.map_values(|c: ChatView| summary(self@, c)),
                summary_views(kept@) == lists::chosen(all.take(i as int), p),
                keys@ == summary_views(kept@).map_values(|s: SummaryView| recency_key(s)),
            decreases n - i,
        {
            let s = self.summary_of(i);
            proof {
                assert(all[i as int] == s@);
                assert(all.take(i + 1).drop_last() =~= all.take(i as int));
            }
            let keep = match filter {
                Some(f) => mentions_text(s.label.as_str(), f),
                None => true,
            };
            if keep {
                let key: i128 = match s.last_message_ms {
                    Some(t) => -(t as i128),
                    None => NEVER,
                };
                let ghost before = summary_views(kept@);
                let ghost shown = s@;
                kept.push(s);
                keys.push((key, 0));
                proof {
                    assert(summary_views(kept@) =~= before.push(shown));
                    assert(before.push(shown).map_values(|s: SummaryView| recency_key(s))
                        =~= before.map_values(|s: SummaryView| recency_key(s)).push(
                        recency_key(shown),
                    ));
                }
            }
            i = i + 1;
        }
        proof {
            assert(all.take(i as int) =~= all);
            assert(summary_views(kept@).len() == kept@.len());
        }
        let ord = order::order(&keys);
        let ghost want = order::arranged(summary_views(kept@), keys@);
        let mut r: Vec<ChatSummary> = Vec::new();
        let mut k: usize = 0;
        proof {
            assert(summary_views(r@) =~= want.take(0));
        }
        while k < ord.len() && (k as u64) < limit as u64
            invariant
                k <= ord@.len(),
                k <= limit,
                ord@.len() == kept@.len() == keys@.len(),
                lists::ints(ord@) == order::order_of(keys@),
                want == order::arranged(summary_views(kept@), keys@),
                forall|k: int| 0 <= k < ord@.len() ==> (#[trigger] ord@[k]) < keys@.len(),
                summary_views(r@) == want.take(k as int),
            decreases ord@.len() - k,
        {
            let c = &kept[ord[k]];
            let s = ChatSummary {
                id: c.id,
                label: c.label.clone(),
                is_group: c.is_group,
                message_count: c.message_count,
                last_message_ms: c.last_message_ms,
            };
            let ghost before = summary_views(r@);
            let ghost shown = s@;
            r.push(s);
            proof {
                assert(lists::ints(ord@)[k as int] == ord@[k as int]);
                assert(want[k as int] == summary_views(kept@)[ord@[k as int] as int]);
                assert(summary_views(r@) =~= before.push(shown));
                assert(want.take(k + 1) =~= want.take(k as int).push(want[k as int]));
            }
            k = k + 1;
        }
        proof {
            assert(lists::ints(ord@).len() == ord@.len());
            assert(summary_views(r@) =~= search::first_of(want, limit as nat));
        }
        r
    }

    /// A chunk's messages with `before` and `after` messages of the same chat
    /// around them; nothing when there is no such chunk.
    pub fn conversation_window(&self, chunk_id: i64, before: u32, after: u32) -> (r: Option<
        ConversationWindow,
    >)
        ensures
            r is Some <==> chunk_with_chat(self@, chunk_id) is Some,
            r matches Some(w) ==> {
                let (c, chat) = chunk_with_chat(self@, chunk_id)->0;
                &&& w.chat_label@ == search::chat_label(self@, chat)
                &&& window_views(w.messages@) == window(self@, c, before as nat, after as nat)
            },
    {
        let ci = match self.find_chunk_id(chunk_id) {
            Some(i) => i,
            None => {
                return None;
            },
        };
        let chunks = self.chunks();
        let c = &chunks[ci];
        proof {
            assert(tables::chunk_row_views(chunks@)[ci as int] == c@);
        }
        let label = match self.find_chat_id(c.chat_id) {
            Some(j) => self.label_of_chat(j),
            None => {
                return None;
            },
        };
        let from: i64 = moment_of(c.started_at_ms);
        let to: i64 = moment_of(c.ended_at_ms);
        let at = self.timeline_of(c.chat_id);
        let rows = self.messages();
        let ghost all = index::timeline(self@, c.chat_id);
        let ghost ahead = before_span(c@);
        let ghost inside = within_span(c@);
        let mut first: usize = 0;
        let mut own: usize = 0;
        let mut k: usize = 0;
        while k < at.len()
            invariant
                k <= at@.len(),
                all == lists::picked(self@.messages, at@),
                tables::message_views(rows@) == self@.messages,
                forall|k: int| 0 <= k < at@.len() ==> (#[trigger] at@[k]) < rows@.len(),
                ahead == before_span(c@),
                inside == within_span(c@),
                from == moment(c@.started_at_ms),
                to == moment(c@.ended_at_ms),
                first == lists::chosen(all.take(k as int), ahead).len(),
                own == lists::chosen(all.take(k as int), inside).len(),
                first + own <= k,
            decreases at@.len() - k,
        {
            let m = &rows[at[k]];
            proof {
                assert(tables::message_views(rows@)[at@[k as int] as int] == m@);
                assert(all[k as int] == m@);
                assert(all.take(k + 1).drop_last() =~= all.take(k as int));
            }
            let t: i64 = moment_of(m.sent_at_ms);
            if t < from {
                first = first + 1;
            } else if t <= to {
                own = own + 1;
            }
            k = k + 1;
        }
        proof {
            assert(all.take(k as int) =~= all);
            assert(all.len() == at@.len());
            lemma_timeline_is_shown(self@, c.chat_id);
        }
        let start: usize = if (first as u64) > before as u64 {
            first - before as usize
        } else {
            0
        };
        let left: usize = at.len() - (first + own);
        let end: usize = if (after as u64) < left as u64 {
            first + own + after as usize
        } else {
            at.len()
        };
        let ghost shown = all.subrange(
            window_start(all, c@, before as nat),
            window_end(all, c@, after as nat),
        );
        let ghost want = shown.map_values(|m: MessageView| window_message(self@, c@, m));
        let mut messages: Vec<WindowMessage> = Vec::new();
        let mut j: usize = start;
        proof {
            assert(window_views(messages@) =~= want.take(0));
        }
        while j < end
            invariant
                start <= j <= end <= at@.len(),
                all == lists::picked(self@.messages, at@),
                all.len() == at@.len(),
                tables::message_views(rows@) == self@.messages,
                forall|k: int| 0 <= k < at@.len() ==> (#[trigger] at@[k]) < rows@.len(),
                forall|k: int|
                    0 <= k < all.len() ==> (#[trigger] all[k]).text is Some,
                from == moment(c@.started_at_ms),
                to == moment(c@.ended_at_ms),
                shown == all.subrange(start as int, end as int),
                want == shown.map_values(|m: MessageView| window_message(self@, c@, m)),
                window_views(messages@) == want.take(j - start),
            decreases end - j,
        {
            let p: usize = at[j];
            let m = &rows[p];
            proof {
                assert(tables::message_views(rows@)[p as int] == m@);
                assert(all[j as int] == m@);
            }
            let t: i64 = moment_of(m.sent_at_ms);
            let text = match &m.text {
                Some(s) => s.clone(),
                None => String::new(),
            };
            let w = WindowMessage {
                sent_at_ms: m.sent_at_ms,
                sender: self.sender_of(p),
                text,
                in_span: from <= t && t <= to,
            };
            let ghost before_push = window_views(messages@);
            let ghost seen = w@;
            messages.push(w);
            proof {
                assert(want[j - start] == seen);
                assert(window_views(messages@) =~= before_push.push(seen));
                assert(want.take(j + 1 - start) =~= want.take(j - start).push(want[j - start]));
            }
            j = j + 1;
        }
        proof {
            assert(want.take(j - start) =~= want);
        }
        Some(ConversationWindow { chat_label: label, messages })
    }

    /// The messages of a scope, oldest first.
    fn thread_of(&self, scope: &Scope) -> (r: Vec<usize>)
        ensures
            forall|k: int| 0 <= k < r@.len() ==> (#[trigger] r@[k]) < self@.messages.len(),
            lists::picked(self@.messages, r@) == thread(self@, scope@),
            self@.messages.len() <= usize::MAX,
    {
        let ghost p = in_scope(scope@);
        let ghost all = self@.messages;
        let rows = self.messages();
        let mut at: Vec<usize> = Vec::new();
        let mut i: usize = 0;
        proof {
            assert(lists::picked(all, at@) =~= lists::chosen(all.take(0), p));
        }
        while i < rows.len()
            invariant
                i <= rows@.len() == all.len(),
                p == in_scope(scope@),
                all == self@.messages,
                tables::message_views(rows@) == all,
                forall|k: int| 0 <= k < at@.len() ==> (#[trigger] at@[k]) < i,
                lists::picked(all, at@) == lists::chosen(all.take(i as int), p),
            decreases rows@.len() - i,
        {
            proof {
                assert(tables::message_views(rows@)[i as int] == rows@[i as int]@);
                assert(all.take(i + 1).drop_last() =~= all.take(i as int));
            }
            if scope.holds(&rows[i]) {
                let ghost before = at@;
                at.push(i);
                proof {
                    assert(lists::picked(all, at@) =~= lists::picked(all, before).push(
                        all[i as int],
                    ));
                }
            }
            i = i + 1;
        }
        proof {
            assert(all.take(i as int) =~= all);
        }
        self.sort_by_time(&at)
    }

    /// The newest messages of a scope, oldest first, at most `limit`.
    pub fn recent_messages(&self, scope: &Scope, limit: usize) -> (r: Vec<RecentMessage>)
        ensures
            recent_views(r@) == last_of(recents(self@, scope@), limit as nat),
            recents(self@, scope@).len() <= usize::MAX,
    {
        let at = self.thread_of(scope);
        let rows = self.messages();
        let ghost all = thread(self@, scope@);
        let ghost want = recents(self@, scope@);
        proof {
            assert(all.len() == at@.len());
            lemma_thread_is_in_scope(self@, scope@);
        }
        let start: usize = if at.len() > limit {
            at.len() - limit
        } else {
            0
        };
        let ghost tail = want.skip(start as int);
        let mut r: Vec<RecentMessage> = Vec::new();
        let mut j: usize = start;
        proof {
            assert(recent_views(r@) =~= tail.take(0));
        }
        while j < at.len()
            invariant
                start <= j <= at@.len(),
                all == lists::picked(self@.messages, at@),
                all.len() == at@.len(),
                tables::message_views(rows@) == self@.messages,
                forall|k: int| 0 <= k < at@.len() ==> (#[trigger] at@[k]) < rows@.len(),
                forall|k: int|
                    0 <= k < all.len() ==> (#[trigger] all[k]).text is Some,
                want == all.map_values(|m: MessageView| recent_message(self@, m)),
                tail == want.skip(start as int),
                recent_views(r@) == tail.take(j - start),
            decreases at@.len() - j,
        {
            let p: usize = at[j];
            let m = &rows[p];
            proof {
                assert(tables::message_views(rows@)[p as int] == m@);
                assert(all[j as int] == m@);
            }
            let text = match &m.text {
                Some(s) => s.clone(),
                None => String::new(),
            };
            let x = RecentMessage {
                sent_at_ms: m.sent_at_ms,
                sender: self.sender_of(p),
                text,
                is_from_me: m.is_from_me,
            };
            let ghost before = recent_views(r@);
            let ghost seen = x@;
            r.push(x);
            proof {
                assert(tail[j - start] == seen);
                assert(recent_views(r@) =~= before.push(seen));
                assert(tail.take(j + 1 - start) =~= tail.take(j - start).push(tail[j - start]));
            }
            j = j + 1;
        }
        proof {
            assert(tail.take(j - start) =~= tail);
            assert(tail =~= last_of(want, limit as nat));
        }
        r
    }

    /// The name of the contact that a text stands for, if any handle or name
    /// holds it.
    pub fn find_contact(&self, wanted: &str) -> (r: Option<String>)
        ensures
            text::opt_view(r) == contact_label(self@, wanted@),
    {
        let ghost p = handle_mentions(wanted@);
        let rows = self.handles();
        let mut i: usize = 0;
        while i < rows.len()
            invariant
                i <= rows@.len(),
                tables::handle_views(rows@) == self@.handles,
                p == handle_mentions(wanted@),
                forall|j: int| 0 <= j < i ==> !p(#[trigger] self@.handles[j]),
            decreases rows@.len() - i,
        {
            assert(tables::handle_views(rows@)[i as int] == rows@[i as int]@);
            let label = self.label_of_handle(i);
            if mentions_text(label.as_str(), wanted) || mentions_text(
                rows[i].handle.as_str(),
                wanted,
            ) {
                proof {
                    lists::lemma_is_first_index(self@.handles, p, i as int);
                }
                return Some(label);
            }
            i = i + 1;
        }
        proof {
            lists::lemma_no_first_index(self@.handles, p);
        }
        None
    }

    fn ids_of(&self, label: &str) -> (r: Vec<i64>)
        ensures
            r@ == handles_of(self@, label@),
    {
        let ghost p = goes_by(label@);
        let ghost all = self@.handles;
        let rows = self.handles();
        let mut r: Vec<i64> = Vec::new();
        let mut i: usize = 0;
        proof {
            assert(r@ =~= lists::chosen(all.take(0), p).map_values(|h: HandleView| h.id));
        }
        while i < rows.len()
            invariant
                i <= rows@.len() == all.len(),
                all == self@.handles,
                tables::handle_views(rows@) == all,
                p == goes_by(label@),
                r@ == lists::chosen(all.take(i as int), p).map_values(|h: HandleView| h.id),
            decreases rows@.len() - i,
        {
            proof {
                assert(tables::handle_views(rows@)[i as int] == rows@[i as int]@);
                assert(all.take(i + 1).drop_last() =~= all.take(i as int));
            }
            if str_eq(self.label_of_handle(i).as_str(), label) {
                let ghost before = lists::chosen(all.take(i as int), p);
                r.push(rows[i].id);
                proof {
                    assert(before.push(all[i as int]).map_values(|h: HandleView| h.id)
                        =~= before.map_values(|h: HandleView| h.id).push(all[i as int].id));
                }
            }
            i = i + 1;
        }
        proof {
            assert(all.take(i as int) =~= all);
        }
        r
    }

    fn has_written(&self, chat_id: i64, handles: &Vec<i64>) -> (r: bool)
        ensures
            r == lists::first_index(self@.messages, written_by(chat_id, handles@)) is Some,
    {
        let ghost p = written_by(chat_id, handles@);
        let rows = self.messages();
        let mut i: usize = 0;
        while i < rows.len()
            invariant
                i <= rows@.len(),
                tables::message_views(rows@) == self@.messages,
                p == written_by(chat_id, handles@),
                forall|j: int| 0 <= j < i ==> !p(#[trigger] self@.messages[j]),
            decreases rows@.len() - i,
        {
            assert(tables::message_views(rows@)[i as int] == rows@[i as int]@);
            if rows[i].chat_id == Some(chat_id) && is_from(&rows[i], handles) {
                proof {
                    lists::lemma_is_first_index(self@.messages, p, i as int);
                }
                return true;
            }
            i = i + 1;
        }
        proof {
            lists::lemma_no_first_index(self@.messages, p);
        }
        false
    }

    /// What was said between the user and the contact of a name: the
    /// contact's messages, and the user's own in direct chats with them.
    pub fn exchange_with(&self, label: &str) -> (r: Scope)
        ensures
            r@ == exchange(self@, label@),
    {
        let handles = self.ids_of(label);
        let ghost p = direct_with(self@.messages, handles@);
        let ghost all = self@.chats;
        let rows = self.chats();
        let mut chats: Vec<i64> = Vec::new();
        let mut i: usize = 0;
        proof {
            assert(chats@ =~= lists::chosen(all.take(0), p).map_values(|c: ChatView| c.id));
        }
        while i < rows.len()
            invariant
                i <= rows@.len() == all.len(),
                all == self@.chats,
                tables::chat_views(rows@) == all,
                p == direct_with(self@.messages, handles@),
                chats@ == lists::chosen(all.take(i as int), p).map_values(|c: ChatView| c.id),
            decreases rows@.len() - i,
        {
            proof {
                assert(tables::chat_views(rows@)[i as int] == rows@[i as int]@);
                assert(all.take(i + 1).drop_last() =~= all.take(i as int));
            }
            if rows[i].is_group == Some(false) && self.has_written(rows[i].id, &handles) {
                let ghost before = lists::chosen(all.take(i as int), p);
                chats.push(rows[i].id);
                proof {
                    assert(before.push(all[i as int]).map_values(|c: ChatView| c.id)
                        =~= before.map_values(|c: ChatView| c.id).push(all[i as int].id));
                }
            }
            i = i + 1;
        }
        proof {
            assert(all.take(i as int) =~= all);
        }
        Scope::Exchange { handles, chats }
    }
}

/// The last elements of a list.
pub open spec fn last_of<T>(s: Seq<T>, limit: nat) -> Seq<T> {
    if s.len() > limit {
        s.skip(s.len() - limit)
    } else {
        s
    }
}

/// A chunk and its chat, when both are in the index.
pub open spec fn chunk_with_chat(t: Tables, chunk_id: i64) -> Option<(ChunkRowView, ChatView)> {
    match lists::first_index(t.chunks, search::chunk_has_id(chunk_id)) {
        Some(i) => match lists::first_index(t.chats, search::chat_has_id(t.chunks[i].chat_id)) {
            Some(j) => Some((t.chunks[i], t.chats[j])),
            None => None,
        },
        None => None,
    }
}

/// Putting messages in time order keeps exactly the same messages.
pub proof fn lemma_time_order_keeps(rows: Seq<MessageView>, k: int)
    requires
        rows.len() <= usize::MAX,
        0 <= k < index::in_time_order(rows).len(),
    ensures
        index::in_time_order(rows).len() == rows.len(),
        rows.contains(index::in_time_order(rows)[k]),
{
    let keys = rows.map_values(|m: MessageView| index::time_key(m));
    order::lemma_order_is_permutation(keys);
    let o = order::order_of(keys);
    assert(index::in_time_order(rows)[k] == rows[o[k]]);
}

/// Every message of a timeline is one that the chat shows.
pub proof fn lemma_timeline_is_shown(t: Tables, chat_id: i64)
    requires
        t.messages.len() <= usize::MAX,
    ensures
        forall|k: int|
            0 <= k < index::timeline(t, chat_id).len() ==> index::shown_in(chat_id)(
                #[trigger] index::timeline(t, chat_id)[k],
            ) && index::timeline(t, chat_id)[k].text is Some,
{
    let p = index::shown_in(chat_id);
    let rows = lists::chosen(t.messages, p);
    let all = index::timeline(t, chat_id);
    lists::lemma_chosen(t.messages, p);
    assert forall|k: int| 0 <= k < all.len() implies p(#[trigger] all[k]) && all[k].text is Some by {
        lemma_time_order_keeps(rows, k);
        let i = choose|i: int| 0 <= i < rows.len() && rows[i] == all[k];
        assert(p(rows[i]));
    }
}

/// Every message of a thread is in its scope.
pub proof fn lemma_thread_is_in_scope(t: Tables, scope: ScopeView)
    requires
        t.messages.len() <= usize::MAX,
    ensures
        forall|k: int|
            0 <= k < thread(t, scope).len() ==> in_scope(scope)(#[trigger] thread(t, scope)[k])
                && thread(t, scope)[k].text is Some,
{
    let rows = lists::chosen(t.messages, in_scope(scope));
    lists::lemma_chosen(t.messages, in_scope(scope));
    assert forall|k: int| 0 <= k < thread(t, scope).len() implies in_scope(scope)(
        #[trigger] thread(t, scope)[k],
    ) && thread(t, scope)[k].text is Some by {
        lemma_time_order_keeps(rows, k);
        let i = choose|i: int| 0 <= i < rows.len() && rows[i] == thread(t, scope)[k];
        assert(in_scope(scope)(rows[i]));
    }
}

/// A window is in time order, and its messages of the chunk stand together:
/// what comes ahead of them was sent before the chunk began, what comes behind
/// them after it ended, and there are no more of either than asked for.
pub proof fn law_window(t: Tables, c: ChunkRowView, before: nat, after: nat)
    requires
        t.messages.len() <= usize::MAX,
    ensures
        ({
            let rows = index::timeline(t, c.chat_id);
            let first = lists::chosen(rows, before_span(c)).len() as int;
            let past = first + lists::chosen(rows, within_span(c)).len();
            let start = window_start(rows, c, before);
            let end = window_end(rows, c, after);
            &&& 0 <= start <= first <= past <= end <= rows.len()
            &&& first - start <= before
            &&& end - past <= after
            &&& window(t, c, before, after).len() == end - start
            &&& forall|k: int|
                start <= k < end ==> (#[trigger] window(t, c, before, after)[k - start])
                    == window_message(t, c, rows[k])
            &&& forall|k: int| 0 <= k < first ==> before_span(c)(#[trigger] rows[k])
            &&& forall|k: int| first <= k < past ==> within_span(c)(#[trigger] rows[k])
            &&& forall|k: int|
                past <= k < rows.len() ==> moment((#[trigger] rows[k]).sent_at_ms) > moment(
                    c.ended_at_ms,
                ) && moment(rows[k].sent_at_ms) >= moment(c.started_at_ms)
        }),
{
    let rows = index::timeline(t, c.chat_id);
    lists::lemma_chosen(t.messages, index::shown_in(c.chat_id));
    lemma_time_order_sorts(lists::chosen(t.messages, index::shown_in(c.chat_id)));
    lemma_split(rows, c);
    let start = window_start(rows, c, before);
    let end = window_end(rows, c, after);
    assert forall|k: int| start <= k < end implies (#[trigger] window(t, c, before, after)[k
        - start]) == window_message(t, c, rows[k]) by {
        assert(rows.subrange(start, end)[k - start] == rows[k]);
    }
}

/// Whether messages are in time order.
pub open spec fn sorted(rows: Seq<MessageView>) -> bool {
    forall|i: int, j: int|
        0 <= i < j < rows.len() ==> moment((#[trigger] rows[i]).sent_at_ms) <= moment(
            (#[trigger] rows[j]).sent_at_ms,
        )
}

/// Messages put in time order are in time order.
proof fn lemma_time_order_sorts(rows: Seq<MessageView>)
    requires
        rows.len() <= usize::MAX,
    ensures
        sorted(index::in_time_order(rows)),
{
    let keys = rows.map_values(|m: MessageView| index::time_key(m));
    order::lemma_order_is_permutation(keys);
    let o = order::order_of(keys);
    let s = index::in_time_order(rows);
    assert forall|i: int, j: int| 0 <= i < j < s.len() implies moment(
        (#[trigger] s[i]).sent_at_ms,
    ) <= moment((#[trigger] s[j]).sent_at_ms) by {
        order::law_order_sorts(keys, i, j);
        assert(s[i] == rows[o[i]] && s[j] == rows[o[j]]);
        assert(keys[o[i]] == index::time_key(rows[o[i]]));
        assert(keys[o[j]] == index::time_key(rows[o[j]]));
    }
}

/// How the messages of a sorted list lie about a span: those before it, those
/// within it, those after it.
proof fn lemma_split(rows: Seq<MessageView>, c: ChunkRowView)
    requires
        sorted(rows),
    ensures
        ({
            let first = lists::chosen(rows, before_span(c)).len() as int;
            let past = first + lists::chosen(rows, within_span(c)).len();
            &&& first <= past <= rows.len()
            &&& forall|k: int| 0 <= k < first ==> before_span(c)(#[trigger] rows[k])
            &&& forall|k: int| first <= k < past ==> within_span(c)(#[trigger] rows[k])
            &&& forall|k: int|
                past <= k < rows.len() ==> moment((#[trigger] rows[k]).sent_at_ms) > moment(
                    c.ended_at_ms,
                ) && moment(rows[k].sent_at_ms) >= moment(c.started_at_ms)
        }),
    decreases rows.len(),
{
    if rows.len() > 0 {
        let front = rows.drop_last();
        assert forall|i: int, j: int| 0 <= i < j < front.len() implies moment(
            (#[trigger] front[i]).sent_at_ms,
        ) <= moment((#[trigger] front[j]).sent_at_ms) by {
            assert(front[i] == rows[i] && front[j] == rows[j]);
        }
        lemma_split(front, c);
        let n = rows.len() - 1;
        let last = rows[n];
        assert(last == rows.last());
        let f = lists::chosen(front, before_span(c)).len() as int;
        let p = f + lists::chosen(front, within_span(c)).len();
        assert forall|k: int| 0 <= k < front.len() implies front[k] == rows[k] && moment(
            (#[trigger] rows[k]).sent_at_ms,
        ) <= moment(last.sent_at_ms) by {}
        if before_span(c)(last) {
            if f < n {
                assert(rows[f] == front[f]);
                assert(false);
            }
        } else if within_span(c)(last) {
            if p < n {
                assert(rows[p] == front[p]);
                assert(false);
            }
        }
        let first = lists::chosen(rows, before_span(c)).len() as int;
        let past = first + lists::chosen(rows, within_span(c)).len();
        assert forall|k: int| 0 <= k < first implies before_span(c)(#[trigger] rows[k]) by {
            if k < f {
                assert(front[k] == rows[k]);
            }
        }
        assert forall|k: int| first <= k < past implies within_span(c)(#[trigger] rows[k]) by {
            if k < p {
                assert(front[k] == rows[k]);
            }
        }
        assert forall|k: int| past <= k < rows.len() implies moment(
            (#[trigger] rows[k]).sent_at_ms,
        ) > moment(c.ended_at_ms) && moment(rows[k].sent_at_ms) >= moment(c.started_at_ms) by {
            if k < n {
                assert(front[k] == rows[k]);
            }
        }
    }
}

/// An exchange with a contact holds their messages, and the user's own in
/// direct chats that they have written in, and nothing else; and no message
/// of theirs is newer than the last of the exchange.
pub proof fn law_exchange(t: Tables, label: Seq<char>, k: int)
    requires
        t.messages.len() <= usize::MAX,
        0 <= k < t.messages.len(),
    ensures
        forall|i: int|
            0 <= i < thread(t, exchange(t, label)).len() ==> ({
                let m = #[trigger] thread(t, exchange(t, label))[i];
                ||| comes_from(m, handles_of(t, label))
                ||| m.is_from_me && m.chat_id is Some && direct_chats(
                    t,
                    handles_of(t, label),
                ).contains(m.chat_id->0)
            }),
        ({
            let m = t.messages[k];
            comes_from(m, handles_of(t, label)) && m.text is Some && !m.is_system_event ==> {
                let all = thread(t, exchange(t, label));
                all.contains(m) && moment(m.sent_at_ms) <= moment(all.last().sent_at_ms)
            }
        }),
{
    let scope = exchange(t, label);
    lemma_thread_is_in_scope(t, scope);
    let m = t.messages[k];
    if comes_from(m, handles_of(t, label)) && m.text is Some && !m.is_system_event {
        lemma_thread_is_complete(t, scope, k);
    }
}

/// Every message that a scope holds is in its thread, and none is newer than
/// the thread's last.
pub proof fn lemma_thread_is_complete(t: Tables, scope: ScopeView, k: int)
    requires
        t.messages.len() <= usize::MAX,
        0 <= k < t.messages.len(),
        in_scope(scope)(t.messages[k]),
    ensures
        thread(t, scope).contains(t.messages[k]),
        moment(t.messages[k].sent_at_ms) <= moment(thread(t, scope).last().sent_at_ms),
{
    let p = in_scope(scope);
    let rows = lists::chosen(t.messages, p);
    lists::lemma_chosen(t.messages, p);
    lists::lemma_chosen_complete(t.messages, p, k);
    let keys = rows.map_values(|m: MessageView| index::time_key(m));
    order::lemma_order_is_permutation(keys);
    let o = order::order_of(keys);
    let all = thread(t, scope);
    let i = choose|i: int| 0 <= i < rows.len() && rows[i] == t.messages[k];
    assert(o.contains(i));
    let j = choose|j: int| 0 <= j < o.len() && o[j] == i;
    assert(all[j] == rows[o[j]]);
    lemma_time_order_sorts(rows);
    if j < all.len() - 1 {
        assert(moment(all[j].sent_at_ms) <= moment(all[all.len() - 1].sent_at_ms));
    }
}

/// A list of chats never passes its limit, holds only chats that pass its
/// filter, and puts no chat behind one that was active less recently.
pub proof fn law_chat_list(t: Tables, filter: Option<Seq<char>>, limit: nat, i: int, j: int)
    requires
        t.chats.len() <= usize::MAX,
        0 <= i < j < chat_list(t, filter, limit).len(),
    ensures
        chat_list(t, filter, limit).len() <= limit,
        chat_list(t, filter, limit)[j].last_message_ms is Some ==> chat_list(
            t,
            filter,
            limit,
        )[i].last_message_ms is Some && chat_list(t, filter, limit)[i].last_message_ms->0
            >= chat_list(t, filter, limit)[j].last_message_ms->0,
        passes(filter)(chat_list(t, filter, limit)[i]),
{
    let all = t.chats.map_values(|c: ChatView| summary(t, c));
    let kept = lists::chosen(all, passes(filter));
    lists::lemma_chosen(all, passes(filter));
    let keys = kept.map_values(|s: SummaryView| recency_key(s));
    order::lemma_order_is_permutation(keys);
    let o = order::order_of(keys);
    let r = chat_list(t, filter, limit);
    order::law_order_sorts(keys, i, j);
    assert(r[i] == kept[o[i]] && r[j] == kept[o[j]]);
    assert(keys[o[i]] == recency_key(kept[o[i]]) && keys[o[j]] == recency_key(kept[o[j]]));
    assert(passes(filter)(kept[o[i]]));
}

/// What a scope shows. A message is in the thread of a scope if and only if the
/// index has it, it has a text and is no system event, and the scope covers it:
/// a chat covers every message of the chat, whoever sent it, and no message of
/// another; an exchange covers what others sent from one of its handles, in any
/// chat, and what the user sent in one of its chats; and everything covers all.
/// The thread holds each as often as the index does.
pub proof fn law_thread_is_what_the_scope_covers(t: Tables, scope: ScopeView, m: MessageView)
    requires
        t.messages.len() <= usize::MAX,
    ensures
        thread(t, scope).contains(m) <==> t.messages.contains(m) && m.text is Some
            && !m.is_system_event && match scope {
            ScopeView::Chat(id) => m.chat_id == Some(id),
            ScopeView::Exchange { handles, chats } => if m.is_from_me {
                m.chat_id is Some && chats.contains(m.chat_id->0)
            } else {
                m.sender_id is Some && handles.contains(m.sender_id->0)
            },
            ScopeView::Everything => true,
        },
        thread(t, scope).to_multiset() == t.messages.filter(
            |m: MessageView|
                m.text is Some && !m.is_system_event && match scope {
                    ScopeView::Chat(id) => m.chat_id == Some(id),
                    ScopeView::Exchange { handles, chats } => if m.is_from_me {
                        m.chat_id is Some && chats.contains(m.chat_id->0)
                    } else {
                        m.sender_id is Some && handles.contains(m.sender_id->0)
                    },
                    ScopeView::Everything => true,
                },
        ).to_multiset(),
{
    let p = in_scope(scope);
    let q = |m: MessageView|
        m.text is Some && !m.is_system_event && match scope {
            ScopeView::Chat(id) => m.chat_id == Some(id),
            ScopeView::Exchange { handles, chats } => if m.is_from_me {
                m.chat_id is Some && chats.contains(m.chat_id->0)
            } else {
                m.sender_id is Some && handles.contains(m.sender_id->0)
            },
            ScopeView::Everything => true,
        };
    let rows = lists::chosen(t.messages, p);
    lists::lemma_chosen(t.messages, p);
    lists::lemma_chosen_filter(t.messages, p);
    index::law_time_order(rows);
    assert(p =~= q);
    if t.messages.contains(m) && p(m) {
        let i = choose|i: int| 0 <= i < t.messages.len() && t.messages[i] == m;
        lists::lemma_chosen_complete(t.messages, p, i);
    }
    if rows.contains(m) {
        let i = choose|i: int| 0 <= i < rows.len() && rows[i] == m;
        assert(p(rows[i]));
    }
}

/// The newest messages of a scope: as many as there are, up to the limit, the
/// oldest first, and the last of the thread. Each shows the time, the text and
/// the direction of its message, and who it is from; and no message of the
/// thread that is not shown was sent after one that is.
pub proof fn law_recent_messages(t: Tables, scope: ScopeView, limit: nat)
    requires
        t.messages.len() <= usize::MAX,
    ensures
        ({
            let all = thread(t, scope);
            let r = last_of(recents(t, scope), limit);
            let skipped = all.len() - r.len();
            &&& r.len() == (if all.len() < limit {
                all.len()
            } else {
                limit
            })
            &&& forall|k: int|
                0 <= k < r.len() ==> (#[trigger] r[k]).sent_at_ms == all[skipped + k].sent_at_ms
                    && Some(r[k].text) == all[skipped + k].text && r[k].is_from_me == all[skipped
                    + k].is_from_me && r[k].sender == index::sender_label(
                    t.handles,
                    all[skipped + k],
                )
            &&& forall|i: int, j: int|
                0 <= i < j < all.len() ==> ({
                    let x = #[trigger] all[i];
                    let y = #[trigger] all[j];
                    let a = if x.sent_at_ms is Some {
                        x.sent_at_ms->0
                    } else {
                        0
                    };
                    let b = if y.sent_at_ms is Some {
                        y.sent_at_ms->0
                    } else {
                        0
                    };
                    a < b || (a == b && x.id <= y.id)
                })
        }),
{
    let all = thread(t, scope);
    let r = last_of(recents(t, scope), limit);
    let skipped = all.len() - r.len();
    let rows = lists::chosen(t.messages, in_scope(scope));
    lists::lemma_chosen(t.messages, in_scope(scope));
    index::law_time_order(rows);
    lemma_thread_is_in_scope(t, scope);
    assert forall|k: int| 0 <= k < r.len() implies (#[trigger] r[k]).sent_at_ms == all[skipped
        + k].sent_at_ms && Some(r[k].text) == all[skipped + k].text && r[k].is_from_me
        == all[skipped + k].is_from_me && r[k].sender == index::sender_label(
        t.handles,
        all[skipped + k],
    ) by {
        assert(r[k] == recents(t, scope)[skipped + k]);
        assert(recents(t, scope)[skipped + k] == recent_message(t, all[skipped + k]));
    }
}

/// Whether a handle goes by a name: its contact name, or the handle itself where
/// it has none.
pub open spec fn is_called(h: HandleView, label: Seq<char>) -> bool {
    if h.name is Some {
        h.name->0 == label
    } else {
        h.handle == label
    }
}

/// Whether a message was sent by someone, other than the user, who goes by a
/// name.
pub open spec fn sent_by(handles: Seq<HandleView>, m: MessageView, label: Seq<char>) -> bool {
    !m.is_from_me && m.sender_id is Some && exists|i: int|
        0 <= i < handles.len() && (#[trigger] handles[i]).id == m.sender_id->0 && is_called(
            handles[i],
            label,
        )
}

proof fn lemma_handles_of(t: Tables, label: Seq<char>, id: i64)
    ensures
        handles_of(t, label).contains(id) <==> exists|i: int|
            0 <= i < t.handles.len() && (#[trigger] t.handles[i]).id == id && is_called(
                t.handles[i],
                label,
            ),
{
    let p = goes_by(label);
    let rows = lists::chosen(t.handles, p);
    let ids = handles_of(t, label);
    lists::lemma_chosen(t.handles, p);
    if ids.contains(id) {
        let k = choose|k: int| 0 <= k < ids.len() && ids[k] == id;
        assert(p(rows[k]) && t.handles.contains(rows[k]));
        let i = choose|i: int| 0 <= i < t.handles.len() && t.handles[i] == rows[k];
        assert(t.handles[i].id == id);
    }
    if exists|i: int|
        0 <= i < t.handles.len() && (#[trigger] t.handles[i]).id == id && is_called(
            t.handles[i],
            label,
        ) {
        let i = choose|i: int|
            0 <= i < t.handles.len() && (#[trigger] t.handles[i]).id == id && is_called(
                t.handles[i],
                label,
            );
        assert(p(t.handles[i]));
        lists::lemma_chosen_complete(t.handles, p, i);
        let k = choose|k: int| 0 <= k < rows.len() && rows[k] == t.handles[i];
        assert(ids[k] == id);
    }
}

/// Whether a chat is a direct one, and someone who goes by a name has written in
/// it.
pub open spec fn is_direct_chat_with(t: Tables, chat_id: i64, label: Seq<char>) -> bool {
    &&& exists|i: int|
        0 <= i < t.chats.len() && (#[trigger] t.chats[i]).id == chat_id && t.chats[i].is_group
            == Some(false)
    &&& exists|k: int|
        0 <= k < t.messages.len() && (#[trigger] t.messages[k]).chat_id == Some(chat_id)
            && sent_by(t.handles, t.messages[k], label)
}

proof fn lemma_direct_chats(t: Tables, label: Seq<char>, chat_id: i64)
    ensures
        direct_chats(t, handles_of(t, label)).contains(chat_id) <==> is_direct_chat_with(
            t,
            chat_id,
            label,
        ),
{
    let handles = handles_of(t, label);
    let p = direct_with(t.messages, handles);
    let rows = lists::chosen(t.chats, p);
    let ids = direct_chats(t, handles);
    let q = written_by(chat_id, handles);
    lists::lemma_chosen(t.chats, p);
    lists::lemma_first_index(t.messages, q);
    assert forall|m: MessageView| #[trigger] comes_from(m, handles) <==> sent_by(
        t.handles,
        m,
        label,
    ) by {
        if m.sender_id is Some {
            lemma_handles_of(t, label, m.sender_id->0);
        }
    }
    if ids.contains(chat_id) {
        let k = choose|k: int| 0 <= k < ids.len() && ids[k] == chat_id;
        assert(p(rows[k]) && t.chats.contains(rows[k]));
        let i = choose|i: int| 0 <= i < t.chats.len() && t.chats[i] == rows[k];
        assert(t.chats[i].id == chat_id);
        let w = lists::first_index(t.messages, q)->0;
        assert(q(t.messages[w]));
        assert(comes_from(t.messages[w], handles));
    }
    if is_direct_chat_with(t, chat_id, label) {
        let i = choose|i: int|
            0 <= i < t.chats.len() && (#[trigger] t.chats[i]).id == chat_id && t.chats[i].is_group
                == Some(false);
        let k = choose|k: int|
            0 <= k < t.messages.len() && (#[trigger] t.messages[k]).chat_id == Some(chat_id)
                && sent_by(t.handles, t.messages[k], label);
        assert(comes_from(t.messages[k], handles));
        assert(q(t.messages[k]));
        assert(p(t.chats[i]));
        lists::lemma_chosen_complete(t.chats, p, i);
        let n = choose|n: int| 0 <= n < rows.len() && rows[n] == t.chats[i];
        assert(ids[n] == chat_id);
    }
}

/// What an exchange with a contact holds: every message that the contact sent,
/// from whichever of their handles and in whichever chat, and every message that
/// the user sent in a direct chat in which the contact has written; with a text,
/// and no system event; and nothing else.
pub proof fn law_exchange_is_both_sides(t: Tables, label: Seq<char>, m: MessageView)
    requires
        t.messages.len() <= usize::MAX,
    ensures
        thread(t, exchange(t, label)).contains(m) <==> t.messages.contains(m) && m.text is Some
            && !m.is_system_event && (sent_by(t.handles, m, label) || (m.is_from_me
            && m.chat_id is Some && is_direct_chat_with(t, m.chat_id->0, label))),
{
    law_thread_is_what_the_scope_covers(t, exchange(t, label), m);
    if m.sender_id is Some {
        lemma_handles_of(t, label, m.sender_id->0);
    }
    if m.chat_id is Some {
        lemma_direct_chats(t, label, m.chat_id->0);
    }
}

/// A text is held by another, letter case aside, if and only if it stands
/// somewhere in it, each letter in either case.
pub proof fn law_mentions(s: Seq<char>, part: Seq<char>)
    ensures
        mentions(s, part) <==> exists|i: int|
            0 <= i && i + part.len() <= s.len() && contacts::same_but_case(
                #[trigger] s.subrange(i, i + part.len()),
                part,
            ),
{
    let a = text::lowered(s);
    let b = text::lowered(part);
    if mentions(s, part) {
        let i = choose|i: int| #[trigger] text::part_at(a, b, i);
        let w = s.subrange(i, i + part.len());
        assert forall|k: int| 0 <= k < part.len() implies w[k] == part[k] || ('A' <= w[k] && w[k]
            <= 'Z' && part[k] as int == w[k] as int + 32) || ('A' <= part[k] && part[k] <= 'Z'
            && w[k] as int == part[k] as int + 32) by {
            assert(a.subrange(i, i + b.len())[k] == b[k]);
            assert(a[i + k] == text::lower_char(s[i + k]));
            assert(w[k] == s[i + k]);
        }
        assert(contacts::same_but_case(w, part));
    }
    if exists|i: int|
        0 <= i && i + part.len() <= s.len() && contacts::same_but_case(
            #[trigger] s.subrange(i, i + part.len()),
            part,
        ) {
        let i = choose|i: int|
            0 <= i && i + part.len() <= s.len() && contacts::same_but_case(
                #[trigger] s.subrange(i, i + part.len()),
                part,
            );
        let w = s.subrange(i, i + part.len());
        let v = a.subrange(i, i + b.len());
        assert forall|k: int| 0 <= k < b.len() implies v[k] == b[k] by {
            assert(w[k] == s[i + k]);
            let x = w[k];
            let y = part[k];
        }
        assert(v =~= b);
        assert(text::part_at(a, b, i));
    }
}

/// Who a text stands for: the first handle that holds it, in its contact name or
/// in the handle itself, letter case aside; nobody where none does.
pub proof fn law_who_a_text_stands_for(t: Tables, wanted: Seq<char>)
    ensures
        contact_label(t, wanted) is None <==> forall|i: int|
            0 <= i < t.handles.len() ==> !mentions((#[trigger] t.handles[i]).handle, wanted) && !(
            t.handles[i].name is Some && mentions(t.handles[i].name->0, wanted)),
        forall|i: int|
            0 <= i < t.handles.len() && (mentions((#[trigger] t.handles[i]).handle, wanted) || (
            t.handles[i].name is Some && mentions(t.handles[i].name->0, wanted))) && (forall|
                j: int,
            |
                0 <= j < i ==> !mentions((#[trigger] t.handles[j]).handle, wanted) && !(
                t.handles[j].name is Some && mentions(t.handles[j].name->0, wanted)))
                ==> contact_label(t, wanted) == Some(
                if t.handles[i].name is Some {
                    t.handles[i].name->0
                } else {
                    t.handles[i].handle
                },
            ),
{
    let p = handle_mentions(wanted);
    let hs = t.handles;
    lists::lemma_first_index(hs, p);
    assert forall|i: int| 0 <= i < hs.len() implies (p(#[trigger] hs[i]) <==> (mentions(
        hs[i].handle,
        wanted,
    ) || (hs[i].name is Some && mentions(hs[i].name->0, wanted)))) by {}
    match lists::first_index(hs, p) {
        Some(k) => {
            assert(p(hs[k]));
        },
        None => {},
    }
}

proof fn lemma_latest(rows: Seq<MessageView>)
    ensures
        forall|i: int|
            0 <= i < rows.len() && (#[trigger] rows[i]).sent_at_ms is Some ==> latest(rows) is Some
                && rows[i].sent_at_ms->0 <= latest(rows)->0,
        latest(rows) is Some ==> exists|i: int|
            0 <= i < rows.len() && (#[trigger] rows[i]).sent_at_ms == latest(rows),
    decreases rows.len(),
{
    if rows.len() > 0 {
        let front = rows.drop_last();
        let n = rows.len() - 1;
        lemma_latest(front);
        assert forall|i: int| 0 <= i < rows.len() && (#[trigger] rows[i]).sent_at_ms is Some implies latest(
            rows,
        ) is Some && rows[i].sent_at_ms->0 <= latest(rows)->0 by {
            if i < n {
                assert(front[i] == rows[i]);
            }
        }
        if latest(rows) is Some && rows[n].sent_at_ms != latest(rows) {
            let i = choose|i: int|
                0 <= i < front.len() && (#[trigger] front[i]).sent_at_ms == latest(front);
            assert(rows[i] == front[i]);
        }
    }
}

/// What a list of chats says of a chat: its id, its kind and its name, how many
/// messages of the index are in it, and when the latest of them was sent.
pub proof fn law_what_is_said_of_a_chat(t: Tables, c: ChatView)
    requires
        t.messages.len() <= u64::MAX,
    ensures
        summary(t, c).id == c.id,
        summary(t, c).is_group == c.is_group,
        summary(t, c).label == search::chat_label(t, c),
        summary(t, c).message_count == t.messages.filter(
            |m: MessageView| m.chat_id == Some(c.id),
        ).len(),
        forall|i: int|
            0 <= i < t.messages.len() && (#[trigger] t.messages[i]).chat_id == Some(c.id)
                && t.messages[i].sent_at_ms is Some ==> summary(t, c).last_message_ms is Some
                && t.messages[i].sent_at_ms->0 <= summary(t, c).last_message_ms->0,
        summary(t, c).last_message_ms is Some ==> exists|i: int|
            0 <= i < t.messages.len() && (#[trigger] t.messages[i]).chat_id == Some(c.id)
                && t.messages[i].sent_at_ms == summary(t, c).last_message_ms,
{
    let p = in_chat(c.id);
    let own = lists::chosen(t.messages, p);
    lists::lemma_chosen(t.messages, p);
    lists::lemma_chosen_filter(t.messages, p);
    lemma_latest(own);
    assert forall|i: int|
        0 <= i < t.messages.len() && (#[trigger] t.messages[i]).chat_id == Some(c.id)
            && t.messages[i].sent_at_ms is Some implies latest(own) is Some
        && t.messages[i].sent_at_ms->0 <= latest(own)->0 by {
        assert(p(t.messages[i]));
        lists::lemma_chosen_complete(t.messages, p, i);
        let k = choose|k: int| 0 <= k < own.len() && own[k] == t.messages[i];
        assert(own[k].sent_at_ms is Some);
    }
    if latest(own) is Some {
        let k = choose|k: int| 0 <= k < own.len() && (#[trigger] own[k]).sent_at_ms == latest(own);
        assert(p(own[k]) && t.messages.contains(own[k]));
        let i = choose|i: int| 0 <= i < t.messages.len() && t.messages[i] == own[k];
        assert(t.messages[i].chat_id == Some(c.id));
    }
}

/// The list of chats holds the chats at the places `o`, all different: every
/// chat whose name holds the filter, letter case aside, or every chat without
/// one, up to the limit; the most recently active first, those without a dated
/// message last, and those that were active at the same time in the order the
/// index has them. No chat that is left out for the limit was active after one
/// that is listed.
pub proof fn law_list_of_chats(t: Tables, filter: Option<Seq<char>>, limit: nat) -> (o: Seq<int>)
    requires
        t.chats.len() <= usize::MAX,
    ensures
        ({
            let r = chat_list(t, filter, limit);
            &&& r.len() == o.len()
            &&& o.len() <= limit
            &&& o.no_duplicates()
            &&& forall|a: int|
                0 <= a < o.len() ==> 0 <= #[trigger] o[a] < t.chats.len() && r[a] == summary(
                    t,
                    t.chats[o[a]],
                ) && (filter is Some ==> mentions(r[a].label, filter->0))
            &&& forall|a: int, b: int|
                0 <= a < b < o.len() ==> ({
                    let x = #[trigger] r[a];
                    let y = #[trigger] r[b];
                    ||| y.last_message_ms is None && x.last_message_ms is Some
                    ||| x.last_message_ms is Some && y.last_message_ms is Some
                        && x.last_message_ms->0 > y.last_message_ms->0
                    ||| x.last_message_ms == y.last_message_ms && o[a] < o[b]
                })
            &&& forall|j: int|
                0 <= j < t.chats.len() && !o.contains(j) && (filter is Some ==> mentions(
                    summary(t, #[trigger] t.chats[j]).label,
                    filter->0,
                )) ==> o.len() == limit && forall|a: int|
                    0 <= a < o.len() ==> summary(t, t.chats[j]).last_message_ms is None || ((
                    #[trigger] r[a]).last_message_ms is Some && r[a].last_message_ms->0 >= summary(
                        t,
                        t.chats[j],
                    ).last_message_ms->0)
        }),
{
    let all = t.chats.map_values(|c: ChatView| summary(t, c));
    let p = passes(filter);
    let kept = lists::chosen(all, p);
    let at = lists::chosen_at(all, p);
    lists::lemma_chosen_at(all, p);
    let keys = kept.map_values(|s: SummaryView| recency_key(s));
    order::lemma_order_is_permutation(keys);
    let q = order::order_of(keys);
    let r = chat_list(t, filter, limit);
    let n = r.len() as int;
    let o = Seq::new(r.len(), |a: int| at[q[a]]);
    assert forall|a: int| 0 <= a < n implies r[a] == kept[q[a]] && 0 <= #[trigger] o[a]
        < t.chats.len() && r[a] == summary(t, t.chats[o[a]]) && (filter is Some ==> mentions(
        r[a].label,
        filter->0,
    )) by {
        assert(order::arranged(kept, keys)[a] == kept[q[a]]);
        assert(kept[q[a]] == all[at[q[a]]]);
        assert(p(kept[q[a]]));
    }
    assert(o.no_duplicates()) by {
        assert forall|a: int, b: int| 0 <= a < n && 0 <= b < n && a != b implies o[a] != o[b] by {
            assert(q[a] != q[b]);
            if q[a] < q[b] {
                assert(at[q[a]] < at[q[b]]);
            } else {
                assert(at[q[b]] < at[q[a]]);
            }
        }
    }
    assert forall|a: int, b: int| 0 <= a < b < n implies ({
        let x = #[trigger] r[a];
        let y = #[trigger] r[b];
        ||| y.last_message_ms is None && x.last_message_ms is Some
        ||| x.last_message_ms is Some && y.last_message_ms is Some && x.last_message_ms->0
            > y.last_message_ms->0
        ||| x.last_message_ms == y.last_message_ms && o[a] < o[b]
    }) by {
        order::law_order_sorts(keys, a, b);
        assert(o[a] == at[q[a]] && o[b] == at[q[b]]);
        assert(r[a] == kept[q[a]] && r[b] == kept[q[b]]);
        assert(keys[q[a]] == recency_key(kept[q[a]]) && keys[q[b]] == recency_key(kept[q[b]]));
    }
    assert forall|j: int|
        0 <= j < t.chats.len() && !o.contains(j) && (filter is Some ==> mentions(
            summary(t, #[trigger] t.chats[j]).label,
            filter->0,
        )) implies o.len() == limit && forall|a: int|
        0 <= a < o.len() ==> summary(t, t.chats[j]).last_message_ms is None || ((
        #[trigger] r[a]).last_message_ms is Some && r[a].last_message_ms->0 >= summary(
            t,
            t.chats[j],
        ).last_message_ms->0) by {
        assert(all[j] == summary(t, t.chats[j]));
        assert(p(all[j]));
        assert(at.contains(j));
        let k = choose|k: int| 0 <= k < at.len() && at[k] == j;
        assert(q.contains(k));
        let b = choose|b: int| 0 <= b < q.len() && q[b] == k;
        if b < n {
            assert(o[b] == j);
        }
        assert forall|a: int| 0 <= a < o.len() implies summary(
            t,
            t.chats[j],
        ).last_message_ms is None || ((#[trigger] r[a]).last_message_ms is Some
            && r[a].last_message_ms->0 >= summary(t, t.chats[j]).last_message_ms->0) by {
            order::law_order_sorts(keys, a, b);
            assert(r[a] == kept[q[a]]);
            assert(keys[q[a]] == recency_key(kept[q[a]]) && keys[q[b]] == recency_key(kept[q[b]]));
        }
    }
    o
}

/// What a window around a chunk holds. It shows every message of the chunk's
/// chat that was sent while the chunk lasted, marked as such, and around these
/// the `before` that came last before the chunk began and the `after` that came
/// first after it ended, or as many as there are, not marked; all in time order.
/// An unknown time counts as zero.
pub proof fn law_window_around_a_chunk(t: Tables, c: ChunkRowView, before: nat, after: nat) -> (r:
    (int, int, int, int))
    requires
        t.messages.len() <= usize::MAX,
    ensures
        ({
            let rows = index::timeline(t, c.chat_id);
            let w = window(t, c, before, after);
            let (start, first, past, end) = r;
            let from = if c.started_at_ms is Some {
                c.started_at_ms->0
            } else {
                0
            };
            let to = if c.ended_at_ms is Some {
                c.ended_at_ms->0
            } else {
                0
            };
            &&& 0 <= start <= first <= past <= end <= rows.len()
            &&& w.len() == end - start
            &&& first - start == (if first < before {
                first
            } else {
                before as int
            })
            &&& end - past == (if rows.len() - past < after {
                rows.len() - past
            } else {
                after as int
            })
            &&& forall|k: int|
                0 <= k < rows.len() ==> ({
                    let m = #[trigger] rows[k];
                    let at = if m.sent_at_ms is Some {
                        m.sent_at_ms->0
                    } else {
                        0
                    };
                    &&& k < first <==> at < from
                    &&& first <= k < past <==> from <= at <= to
                })
            &&& forall|k: int|
                start <= k < end ==> ({
                    let m = #[trigger] rows[k];
                    &&& w[k - start].sent_at_ms == m.sent_at_ms
                    &&& Some(w[k - start].text) == m.text
                    &&& w[k - start].sender == index::sender_label(t.handles, m)
                    &&& w[k - start].in_span == (first <= k < past)
                })
        }),
{
    let rows = index::timeline(t, c.chat_id);
    law_window(t, c, before, after);
    lemma_timeline_is_shown(t, c.chat_id);
    let first = lists::chosen(rows, before_span(c)).len() as int;
    let past = first + lists::chosen(rows, within_span(c)).len();
    let start = window_start(rows, c, before);
    let end = window_end(rows, c, after);
    let w = window(t, c, before, after);
    assert forall|k: int| 0 <= k < rows.len() implies (before_span(c)(#[trigger] rows[k]) <==> k
        < first) && (within_span(c)(rows[k]) <==> first <= k < past) by {}
    assert forall|k: int| start <= k < end implies w[k - start] == window_message(
        t,
        c,
        #[trigger] rows[k],
    ) by {}
    (start, first, past, end)
}

} // verus!
