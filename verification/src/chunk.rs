//! Conversation chunking: a chat's message stream cut into retrieval-sized
//! windows.
//!
//! A chunk boundary falls at a conversational lull (`gap_minutes` without a
//! message) or where the chunk has reached `target_tokens`. Size splits carry
//! the last `overlap_messages` messages into the next chunk so that context is
//! not cut mid-exchange; gap splits do not, since the lull itself is the
//! context break.
use crate::digest;
use crate::digest::{hex_digest, push_terminated};
use crate::numeric;
use crate::text;
use vstd::prelude::*;
use vstd::string::*;
use vstd::utf8::*;

verus! {

/// How a chat is cut into chunks.
#[derive(Debug, Clone, Copy)]
pub struct ChunkParams {
    pub gap_minutes: u32,
    pub target_tokens: u32,
    pub overlap_messages: u32,
}

/// One message as chunking sees it: who said it, what, and when.
#[derive(Debug, Clone)]
pub struct ChunkInput {
    pub sender: String,
    pub text: String,
    pub sent_at_ms: Option<i64>,
}

/// A message as chunking sees it.
pub struct InputView {
    pub sender: Seq<char>,
    pub text: Seq<char>,
    pub sent_at_ms: Option<i64>,
}

impl View for ChunkInput {
    type V = InputView;

    open spec fn view(&self) -> InputView {
        InputView { sender: self.sender@, text: self.text@, sent_at_ms: self.sent_at_ms }
    }
}

/// The contents of a list of messages.
pub open spec fn input_views(msgs: Seq<ChunkInput>) -> Seq<InputView> {
    msgs.map_values(|m: ChunkInput| m@)
}

/// A window of a conversation.
#[derive(Debug, Clone, PartialEq)]
pub struct Chunk {
    /// One `sender: text` line per message.
    pub text: String,
    pub started_at_ms: Option<i64>,
    pub ended_at_ms: Option<i64>,
    pub message_count: u32,
    /// Stable identity of the chunk's exact content; embeddings are kept by
    /// it, and so survive a new chunking of the chat.
    pub content_hash: String,
}

/// A chunk's contents.
pub struct ChunkView {
    pub text: Seq<char>,
    pub started_at_ms: Option<i64>,
    pub ended_at_ms: Option<i64>,
    pub message_count: u32,
    pub content_hash: Seq<char>,
}

impl View for Chunk {
    type V = ChunkView;

    open spec fn view(&self) -> ChunkView {
        ChunkView {
            text: self.text@,
            started_at_ms: self.started_at_ms,
            ended_at_ms: self.ended_at_ms,
            message_count: self.message_count,
            content_hash: self.content_hash@,
        }
    }
}

/// The contents of a list of chunks.
pub open spec fn chunk_views(chunks: Seq<Chunk>) -> Seq<ChunkView> {
    chunks.map_values(|c: Chunk| c@)
}

/// A message as a line of a chunk.
pub open spec fn line_of(m: InputView) -> Seq<char> {
    m.sender + ": "@ + m.text
}

/// Rough token estimate: about four bytes to a token.
pub open spec fn tokens_of(s: Seq<char>) -> nat {
    encode_utf8(s).len() / 4 + 1
}

/// The token estimate of a run of messages.
pub open spec fn total_tokens(msgs: Seq<InputView>) -> nat
    decreases msgs.len(),
{
    if msgs.len() == 0 {
        0
    } else {
        total_tokens(msgs.drop_last()) + tokens_of(line_of(msgs.last()))
    }
}

/// The lines of a run of messages.
pub open spec fn lines_of(msgs: Seq<InputView>) -> Seq<Seq<char>> {
    msgs.map_values(|m: InputView| line_of(m))
}

/// The earliest time in a run of messages.
pub open spec fn earliest(msgs: Seq<InputView>) -> Option<i64>
    decreases msgs.len(),
{
    if msgs.len() == 0 {
        None
    } else {
        match (earliest(msgs.drop_last()), msgs.last().sent_at_ms) {
            (Some(a), Some(b)) => Some(if b < a { b } else { a }),
            (None, b) => b,
            (a, None) => a,
        }
    }
}

/// The latest time in a run of messages.
pub open spec fn latest(msgs: Seq<InputView>) -> Option<i64>
    decreases msgs.len(),
{
    if msgs.len() == 0 {
        None
    } else {
        match (latest(msgs.drop_last()), msgs.last().sent_at_ms) {
            (Some(a), Some(b)) => Some(if b > a { b } else { a }),
            (None, b) => b,
            (a, None) => a,
        }
    }
}

/// A signed 64-bit number as an unsigned one in two's complement.
pub open spec fn two_complement(n: i64) -> int {
    if n < 0 {
        n + 0x1_0000_0000_0000_0000
    } else {
        n as int
    }
}

/// The low `n` bytes of a number, the lowest first.
pub open spec fn low_bytes(u: int, n: nat) -> Seq<u8>
    decreases n,
{
    if n == 0 {
        Seq::empty()
    } else {
        seq![(u % 256) as u8] + low_bytes(u / 256, (n - 1) as nat)
    }
}

/// The eight bytes of a number, little-endian.
pub open spec fn le_bytes(n: i64) -> Seq<u8> {
    low_bytes(two_complement(n), 8)
}

/// The time of a message; 0 when it has none.
pub open spec fn time_or_zero(m: InputView) -> i64 {
    match m.sent_at_ms {
        Some(t) => t,
        None => 0,
    }
}

/// The bytes that stand for a run of messages in a content hash: each line,
/// a zero byte, and the time.
pub open spec fn message_bytes(msgs: Seq<InputView>) -> Seq<u8>
    decreases msgs.len(),
{
    if msgs.len() == 0 {
        Seq::empty()
    } else {
        message_bytes(msgs.drop_last()) + encode_utf8(line_of(msgs.last())) + seq![0u8] + le_bytes(
            time_or_zero(msgs.last()),
        )
    }
}

/// The bytes whose hash is a chunk's content hash.
pub open spec fn chunk_bytes(scope: Seq<char>, msgs: Seq<InputView>) -> Seq<u8> {
    encode_utf8(scope) + seq![0u8] + message_bytes(msgs)
}

/// The chunk made of a run of messages.
pub open spec fn chunk_of(scope: Seq<char>, msgs: Seq<InputView>) -> ChunkView {
    ChunkView {
        text: text::joined(lines_of(msgs), "\n"@),
        started_at_ms: earliest(msgs),
        ended_at_ms: latest(msgs),
        message_count: msgs.len() as u32,
        content_hash: digest::hex_digest_of(chunk_bytes(scope, msgs)),
    }
}

/// Whether there is a lull before message `i`.
pub open spec fn lull_before(msgs: Seq<InputView>, p: ChunkParams, i: int) -> bool {
    match (msgs[i - 1].sent_at_ms, msgs[i].sent_at_ms) {
        (Some(prev), Some(now)) => now - prev > p.gap_minutes * 60_000,
        _ => false,
    }
}

/// Whether the messages `from..to` have reached the target size.
pub open spec fn is_full(msgs: Seq<InputView>, p: ChunkParams, from: int, to: int) -> bool {
    total_tokens(msgs.subrange(from, to)) >= p.target_tokens
}

/// Whether a chunk that holds the messages `from..i` ends before message `i`.
pub open spec fn ends_before(msgs: Seq<InputView>, p: ChunkParams, from: int, i: int) -> bool {
    from < i && (lull_before(msgs, p, i) || is_full(msgs, p, from, i))
}

/// How many messages of a chunk that was full are carried into the next: the
/// overlap, but never the whole chunk.
pub open spec fn carried(p: ChunkParams, size: int) -> int {
    if p.overlap_messages < size {
        p.overlap_messages as int
    } else {
        size - 1
    }
}

/// Where the chunk begins that follows the chunk `from..i`.
pub open spec fn next_from(msgs: Seq<InputView>, p: ChunkParams, from: int, i: int) -> int {
    if lull_before(msgs, p, i) {
        i
    } else {
        i - carried(p, i - from)
    }
}

/// The windows that a chat is cut into, when a window that begins at `from`
/// holds all messages before `i`.
pub open spec fn windows_from(
    msgs: Seq<InputView>,
    p: ChunkParams,
    from: int,
    i: int,
) -> Seq<(int, int)>
    decreases msgs.len() - i,
{
    if i >= msgs.len() {
        if from < i {
            seq![(from, i)]
        } else {
            Seq::empty()
        }
    } else if ends_before(msgs, p, from, i) {
        seq![(from, i)] + windows_from(msgs, p, next_from(msgs, p, from, i), i + 1)
    } else {
        windows_from(msgs, p, from, i + 1)
    }
}

/// The windows that a chat is cut into: pairs of a first index and one past
/// the last.
pub open spec fn windows(msgs: Seq<InputView>, p: ChunkParams) -> Seq<(int, int)> {
    windows_from(msgs, p, 0, 0)
}

/// The chunks of a list of windows.
pub open spec fn chunks_of(
    scope: Seq<char>,
    msgs: Seq<InputView>,
    w: Seq<(int, int)>,
) -> Seq<ChunkView> {
    w.map_values(|r: (int, int)| chunk_of(scope, msgs.subrange(r.0, r.1)))
}

/// The chunks of a chat.
pub open spec fn chunking(scope: Seq<char>, msgs: Seq<InputView>, p: ChunkParams) -> Seq<
    ChunkView,
> {
    chunks_of(scope, msgs, windows(msgs, p))
}

fn est_tokens(s: &str) -> (r: u64)
    ensures
        r == tokens_of(s@),
        r <= 0x4000_0000_0000_0000,
{
    (s.as_bytes().len() / 4) as u64 + 1
}

fn line(m: &ChunkInput) -> (r: String)
    ensures
        r@ == line_of(m@),
{
    let mut s = m.sender.clone();
    s.append(": ");
    s.append(m.text.as_str());
    s
}

fn push_le_bytes(out: &mut Vec<u8>, n: i64)
    ensures
        final(out)@ == old(out)@ + le_bytes(n),
{
    let ghost before = out@;
    let mut u: u64 = if n < 0 {
        (n as i128 + 0x1_0000_0000_0000_0000) as u64
    } else {
        n as u64
    };
    let mut left: u8 = 8;
    while left > 0
        invariant
            before + le_bytes(n) == out@ + low_bytes(u as int, left as nat),
        decreases left,
    {
        let ghost was = out@;
        out.push((u % 256) as u8);
        proof {
            let rest = low_bytes(u as int / 256, (left - 1) as nat);
            assert(was + (seq![(u % 256) as u8] + rest) =~= out@ + rest);
        }
        u = u / 256;
        left = left - 1;
    }
    proof {
        assert(out@ + Seq::<u8>::empty() =~= out@);
    }
}

/// The chunk made of the messages `from..to`.
fn build_chunk(scope: &str, msgs: &[ChunkInput], from: usize, to: usize) -> (r: Chunk)
    requires
        from <= to <= msgs@.len(),
    ensures
        r@ == chunk_of(scope@, input_views(msgs@).subrange(from as int, to as int)),
        digest::is_hash(r.content_hash@),
{
    let mut lines: Vec<String> = Vec::new();
    let mut started: Option<i64> = None;
    let mut ended: Option<i64> = None;
    let mut bytes: Vec<u8> = Vec::new();
    push_terminated(&mut bytes, scope);
    let ghost head = bytes@;
    let ghost run = input_views(msgs@).subrange(from as int, to as int);
    let mut i: usize = from;
    proof {
        assert(run.take(0) =~= Seq::<InputView>::empty());
        assert(text::views(lines@) =~= lines_of(run.take(0)));
        assert(head =~= encode_utf8(scope@) + seq![0u8]);
        assert(bytes@ =~= head + message_bytes(run.take(0)));
    }
    while i < to
        invariant
            from <= i <= to <= msgs@.len(),
            run == input_views(msgs@).subrange(from as int, to as int),
            text::views(lines@) == lines_of(run.take(i - from)),
            started == earliest(run.take(i - from)),
            ended == latest(run.take(i - from)),
            bytes@ == head + message_bytes(run.take(i - from)),
        decreases to - i,
    {
        let m = &msgs[i];
        let ghost before = run.take(i - from);
        let ghost after = run.take(i + 1 - from);
        let ghost bytes_before = bytes@;
        proof {
            assert(after.drop_last() =~= before);
            assert(after.last() == m@);
        }
        let l = line(m);
        push_terminated(&mut bytes, l.as_str());
        let t: i64 = match m.sent_at_ms {
            Some(t) => t,
            None => 0,
        };
        push_le_bytes(&mut bytes, t);
        match m.sent_at_ms {
            Some(t) => {
                started = match started {
                    Some(a) => if t < a {
                        Some(t)
                    } else {
                        Some(a)
                    },
                    None => Some(t),
                };
                ended = match ended {
                    Some(a) => if t > a {
                        Some(t)
                    } else {
                        Some(a)
                    },
                    None => Some(t),
                };
            },
            None => {},
        }
        let ghost lines_before = text::views(lines@);
        lines.push(l);
        proof {
            assert(text::views(lines@) =~= lines_before.push(line_of(m@)));
            assert(lines_of(after) =~= lines_of(before).push(line_of(m@)));
            assert(bytes@ =~= head + message_bytes(after));
        }
        i = i + 1;
    }
    proof {
        assert(run.take(i - from) =~= run);
    }
    let n: usize = to - from;
    Chunk {
        text: text::join(&lines, "\n"),
        started_at_ms: started,
        ended_at_ms: ended,
        message_count: n as u32,
        content_hash: hex_digest(&bytes),
    }
}

proof fn lemma_total_tokens_push(msgs: Seq<InputView>, from: int, i: int)
    requires
        0 <= from <= i < msgs.len(),
    ensures
        total_tokens(msgs.subrange(from, i + 1)) == total_tokens(msgs.subrange(from, i))
            + tokens_of(line_of(msgs[i])),
{
    assert(msgs.subrange(from, i + 1).drop_last() =~= msgs.subrange(from, i));
}

proof fn lemma_tokens_bound(n: u128, m: u128)
    by (nonlinear_arith)
    requires
        n <= m,
        m <= 0x1_0000_0000_0000_0000,
    ensures
        n * 0x4000_0000_0000_0000 <= m * 0x4000_0000_0000_0000,
        m * 0x4000_0000_0000_0000 <= 0x4000_0000_0000_0000_0000_0000_0000_0000,
{
}

/// The token estimate of the messages `from..to`.
fn count_tokens(msgs: &[ChunkInput], from: usize, to: usize) -> (r: u128)
    requires
        from <= to <= msgs@.len(),
    ensures
        r == total_tokens(input_views(msgs@).subrange(from as int, to as int)),
        r <= (to - from) * 0x4000_0000_0000_0000,
{
    let mut sum: u128 = 0;
    let mut i: usize = from;
    proof {
        assert(input_views(msgs@).subrange(from as int, from as int) =~= Seq::<InputView>::empty());
    }
    while i < to
        invariant
            from <= i <= to <= msgs@.len(),
            sum == total_tokens(input_views(msgs@).subrange(from as int, i as int)),
            sum <= (i - from) * 0x4000_0000_0000_0000,
        decreases to - i,
    {
        proof {
            lemma_total_tokens_push(input_views(msgs@), from as int, i as int);
            lemma_tokens_bound((i - from) as u128, 0x1_0000_0000_0000_0000);
        }
        let l = line(&msgs[i]);
        sum = sum + est_tokens(l.as_str()) as u128;
        i = i + 1;
    }
    sum
}

/// Cuts one chat's messages, given in chronological order, into chunks.
/// `scope` is any stable identifier of the chat, mixed into each chunk's
/// content hash so that identical exchanges in different chats never collide.
pub fn chunk_messages(scope: &str, msgs: &[ChunkInput], p: &ChunkParams) -> (r: Vec<Chunk>)
    ensures
        chunk_views(r@) == chunking(scope@, input_views(msgs@), *p),
        forall|k: int| 0 <= k < r@.len() ==> digest::is_hash((#[trigger] r@[k]).content_hash@),
{
    let gap_ms: i128 = p.gap_minutes as i128 * 60_000;
    let mut chunks: Vec<Chunk> = Vec::new();
    let mut from: usize = 0;
    let mut tokens: u128 = 0;
    let mut i: usize = 0;
    proof {
        assert(input_views(msgs@).subrange(0, 0) =~= Seq::<InputView>::empty());
        assert(chunk_views(chunks@) + chunking(scope@, input_views(msgs@), *p) =~= chunking(scope@, input_views(msgs@), *p));
    }
    while i < msgs.len()
        invariant
            from <= i <= msgs@.len(),
            gap_ms == p.gap_minutes * 60_000,
            tokens == total_tokens(input_views(msgs@).subrange(from as int, i as int)),
            tokens <= i * 0x4000_0000_0000_0000,
            forall|k: int|
                0 <= k < chunks@.len() ==> digest::is_hash((#[trigger] chunks@[k]).content_hash@),
            chunking(scope@, input_views(msgs@), *p) == chunk_views(chunks@) + chunks_of(
                scope@, input_views(msgs@),
                windows_from(input_views(msgs@), *p, from as int, i as int),
            ),
        decreases msgs@.len() - i,
    {
        let lull = if i == 0 {
            false
        } else {
            match (msgs[i - 1].sent_at_ms, msgs[i].sent_at_ms) {
                (Some(prev), Some(now)) => now as i128 - prev as i128 > gap_ms,
                _ => false,
            }
        };
        let full = tokens >= p.target_tokens as u128;
        if from < i && (lull || full) {
            let ghost before = chunk_views(chunks@);
            let ghost old_from = from as int;
            let c = build_chunk(scope, msgs, from, i);
            chunks.push(c);
            let size: usize = i - from;
            from = if lull {
                i
            } else if (p.overlap_messages as u64) < size as u64 {
                i - p.overlap_messages as usize
            } else {
                from + 1
            };
            tokens = count_tokens(msgs, from, i);
            proof {
                assert(from == next_from(input_views(msgs@), *p, old_from, i as int));
                let head = (old_from, i as int);
                let rest = windows_from(input_views(msgs@), *p, from as int, i + 1);
                assert(chunk_views(chunks@) =~= before.push(c@));
                assert(chunks_of(scope@, input_views(msgs@), seq![head] + rest) =~= seq![c@] + chunks_of(
                    scope@, input_views(msgs@),
                    rest,
                ));
                assert(before + (seq![c@] + chunks_of(scope@, input_views(msgs@), rest)) =~= before.push(c@)
                    + chunks_of(scope@, input_views(msgs@), rest));
                lemma_tokens_bound((i - from) as u128, i as u128);
            }
        }
        proof {
            lemma_total_tokens_push(input_views(msgs@), from as int, i as int);
            lemma_tokens_bound(i as u128, 0x1_0000_0000_0000_0000);
        }
        let l = line(&msgs[i]);
        tokens = tokens + est_tokens(l.as_str()) as u128;
        i = i + 1;
    }
    if from < i {
        let ghost before = chunk_views(chunks@);
        let c = build_chunk(scope, msgs, from, i);
        chunks.push(c);
        proof {
            assert(chunk_views(chunks@) =~= before.push(c@));
            assert(chunks_of(scope@, input_views(msgs@), seq![(from as int, i as int)]) =~= seq![c@]);
            assert(before + seq![c@] =~= before.push(c@));
        }
    } else {
        proof {
            let none = Seq::<(int, int)>::empty();
            assert(chunks_of(scope@, input_views(msgs@), none) =~= Seq::<ChunkView>::empty());
            assert(chunk_views(chunks@) + Seq::<ChunkView>::empty() =~= chunk_views(chunks@));
        }
    }
    chunks
}

/// Whether window `k` follows from the one before it.
spec fn follows(msgs: Seq<InputView>, p: ChunkParams, w: Seq<(int, int)>, k: int) -> bool {
    &&& w[k].0 == next_from(msgs, p, w[k - 1].0, w[k - 1].1)
    &&& w[k - 1].1 < w[k].1
    &&& ends_before(msgs, p, w[k - 1].0, w[k - 1].1)
}

/// What holds of the windows that follow when a window that begins at `from`
/// holds the messages before `i`.
spec fn well_cut(msgs: Seq<InputView>, p: ChunkParams, from: int, i: int, w: Seq<(int, int)>) -> bool {
    &&& w.len() > 0 ==> w[0].0 == from && w.last().1 == msgs.len()
    &&& w.len() == 0 <==> from == msgs.len()
    &&& forall|k: int| 0 <= k < w.len() ==> from <= (#[trigger] w[k]).0 < w[k].1 && i <= w[k].1
        <= msgs.len()
    &&& forall|k: int| 0 < k < w.len() ==> #[trigger] follows(msgs, p, w, k)
}

proof fn lemma_well_cut(msgs: Seq<InputView>, p: ChunkParams, from: int, i: int)
    requires
        0 <= from <= i <= msgs.len(),
        i > 0 ==> from < i,
    ensures
        well_cut(msgs, p, from, i, windows_from(msgs, p, from, i)),
    decreases msgs.len() - i,
{
    let w = windows_from(msgs, p, from, i);
    if i < msgs.len() {
        if ends_before(msgs, p, from, i) {
            let next = next_from(msgs, p, from, i);
            lemma_well_cut(msgs, p, next, i + 1);
            let rest = windows_from(msgs, p, next, i + 1);
            assert(w =~= seq![(from, i)] + rest);
            assert(rest.len() > 0);
            assert forall|k: int| 0 < k < w.len() implies #[trigger] follows(msgs, p, w, k) by {
                assert(w[k] == rest[k - 1]);
                if k > 1 {
                    assert(w[k - 1] == rest[k - 2]);
                    assert(follows(msgs, p, rest, k - 1));
                }
            }
            assert forall|k: int| 0 <= k < w.len() implies from <= (#[trigger] w[k]).0 < w[k].1
                && i <= w[k].1 <= msgs.len() by {
                if k > 0 {
                    assert(w[k] == rest[k - 1]);
                }
            }
            assert(w.last() == rest.last());
        } else {
            lemma_well_cut(msgs, p, from, i + 1);
        }
    }
}

/// How a chat is cut: no message, no window; else the windows are non-empty,
/// the first begins with the first message and the last ends with the last.
pub proof fn law_windows(msgs: Seq<InputView>, p: ChunkParams)
    ensures
        windows(msgs, p).len() == 0 <==> msgs.len() == 0,
        windows(msgs, p).len() > 0 ==> windows(msgs, p)[0].0 == 0 && windows(msgs, p).last().1
            == msgs.len(),
        forall|k: int|
            0 <= k < windows(msgs, p).len() ==> 0 <= (#[trigger] windows(msgs, p)[k]).0 < windows(
                msgs,
                p,
            )[k].1 <= msgs.len(),
{
    lemma_well_cut(msgs, p, 0, 0);
}

/// Where a chat is cut: each window but the last ends where a lull follows or
/// the target size has been reached. After a lull the next window begins
/// where the one before ended; after a full window it begins with the
/// overlap, which is part of the window before and never all of it.
pub proof fn law_boundaries(msgs: Seq<InputView>, p: ChunkParams, k: int)
    requires
        0 < k < windows(msgs, p).len(),
    ensures
        ({
            let before = windows(msgs, p)[k - 1];
            let this = windows(msgs, p)[k];
            &&& lull_before(msgs, p, before.1) || is_full(msgs, p, before.0, before.1)
            &&& this.0 == (if lull_before(msgs, p, before.1) {
                before.1
            } else {
                before.1 - carried(p, before.1 - before.0)
            })
            &&& before.0 < this.0 <= before.1 < this.1
        }),
{
    lemma_well_cut(msgs, p, 0, 0);
    assert(follows(msgs, p, windows(msgs, p), k));
}

proof fn lemma_covered(msgs: Seq<InputView>, p: ChunkParams, from: int, i: int, j: int) -> (k: int)
    requires
        0 <= from <= i <= msgs.len(),
        i > 0 ==> from < i,
        from <= j < msgs.len(),
    ensures
        0 <= k < windows_from(msgs, p, from, i).len(),
        windows_from(msgs, p, from, i)[k].0 <= j < windows_from(msgs, p, from, i)[k].1,
    decreases msgs.len() - i,
{
    let w = windows_from(msgs, p, from, i);
    if i >= msgs.len() {
        0
    } else if ends_before(msgs, p, from, i) {
        let next = next_from(msgs, p, from, i);
        let rest = windows_from(msgs, p, next, i + 1);
        if j < i {
            assert(w[0] == (from, i));
            0
        } else {
            let k = lemma_covered(msgs, p, next, i + 1, j);
            assert(w[k + 1] == rest[k]);
            k + 1
        }
    } else {
        lemma_covered(msgs, p, from, i + 1, j)
    }
}

/// Every message is part of a chunk.
pub proof fn law_every_message_is_covered(msgs: Seq<InputView>, p: ChunkParams, j: int)
    requires
        0 <= j < msgs.len(),
    ensures
        exists|k: int|
            0 <= k < windows(msgs, p).len() && (#[trigger] windows(msgs, p)[k]).0 <= j < windows(
                msgs,
                p,
            )[k].1,
{
    let k = lemma_covered(msgs, p, 0, 0, j);
    assert(windows(msgs, p)[k].0 <= j < windows(msgs, p)[k].1);
}

proof fn lemma_no_lull(
    msgs: Seq<InputView>,
    p: ChunkParams,
    from: int,
    i: int,
    k: int,
    j: int,
)
    requires
        0 <= from <= i <= msgs.len(),
        i > 0 ==> from < i,
        forall|x: int| from < x < i ==> !lull_before(msgs, p, x),
        0 <= k < windows_from(msgs, p, from, i).len(),
        windows_from(msgs, p, from, i)[k].0 < j < windows_from(msgs, p, from, i)[k].1,
    ensures
        !lull_before(msgs, p, j),
    decreases msgs.len() - i,
{
    let w = windows_from(msgs, p, from, i);
    if i < msgs.len() {
        if ends_before(msgs, p, from, i) {
            let next = next_from(msgs, p, from, i);
            let rest = windows_from(msgs, p, next, i + 1);
            if k == 0 {
                assert(w[0] == (from, i));
            } else {
                assert(w[k] == rest[k - 1]);
                assert forall|x: int| next < x < i + 1 implies !lull_before(msgs, p, x) by {}
                lemma_no_lull(msgs, p, next, i + 1, k - 1, j);
            }
        } else {
            lemma_no_lull(msgs, p, from, i + 1, k, j);
        }
    }
}

/// There is no lull inside a chunk.
pub proof fn law_no_lull_inside(msgs: Seq<InputView>, p: ChunkParams, k: int, j: int)
    requires
        0 <= k < windows(msgs, p).len(),
        windows(msgs, p)[k].0 < j < windows(msgs, p)[k].1,
    ensures
        !lull_before(msgs, p, j),
{
    lemma_no_lull(msgs, p, 0, 0, k, j);
}

proof fn lemma_append(
    msgs: Seq<InputView>,
    more: Seq<InputView>,
    p: ChunkParams,
    from: int,
    i: int,
)
    requires
        0 <= from <= i <= msgs.len(),
        i > 0 ==> from < i,
    ensures
        windows_from(msgs, p, from, i).len() > 0 ==> windows_from(
            msgs,
            p,
            from,
            i,
        ).drop_last().is_prefix_of(windows_from(msgs + more, p, from, i)),
    decreases msgs.len() - i,
{
    let all = msgs + more;
    let w = windows_from(msgs, p, from, i);
    let v = windows_from(all, p, from, i);
    if i < msgs.len() {
        assert(all.subrange(from, i) =~= msgs.subrange(from, i));
        if from < i {
            assert(lull_before(all, p, i) == lull_before(msgs, p, i));
        }
        if ends_before(msgs, p, from, i) {
            let next = next_from(msgs, p, from, i);
            lemma_append(msgs, more, p, next, i + 1);
            lemma_well_cut(msgs, p, next, i + 1);
            let rest = windows_from(msgs, p, next, i + 1);
            let rest_all = windows_from(all, p, next, i + 1);
            assert(w.drop_last() =~= seq![(from, i)] + rest.drop_last());
            assert(v =~= seq![(from, i)] + rest_all);
            assert forall|k: int| 0 <= k < w.len() - 1 implies w.drop_last()[k] == v[k] by {
                if k > 0 {
                    assert(rest.drop_last()[k - 1] == rest_all[k - 1]);
                }
            }
        } else {
            lemma_append(msgs, more, p, from, i + 1);
        }
    } else if w.len() > 0 {
        assert(w.drop_last() =~= Seq::<(int, int)>::empty());
    }
}

/// Messages that arrive later leave every earlier chunk but the last exactly
/// as it was, so that its hash, and any embedding kept by it, survives. A
/// chunk that a lull has closed survives too.
pub proof fn law_appending_keeps_chunks(
    scope: Seq<char>,
    msgs: Seq<InputView>,
    more: Seq<InputView>,
    p: ChunkParams,
)
    requires
        msgs.len() > 0,
    ensures
        chunking(scope, msgs, p).drop_last().is_prefix_of(chunking(scope, msgs + more, p)),
        more.len() > 0 && lull_before(msgs + more, p, msgs.len() as int) ==> chunking(
            scope,
            msgs,
            p,
        ).is_prefix_of(chunking(scope, msgs + more, p)),
{
    let all = msgs + more;
    let w = windows(msgs, p);
    let v = windows(all, p);
    lemma_append(msgs, more, p, 0, 0);
    law_windows(msgs, p);
    assert forall|k: int| 0 <= k < w.len() - 1 implies chunking(scope, msgs, p)[k] == chunking(
        scope,
        all,
        p,
    )[k] by {
        assert(w.drop_last()[k] == v[k]);
        assert(w[k] == v[k]);
        assert(all.subrange(v[k].0, v[k].1) =~= msgs.subrange(w[k].0, w[k].1));
    }
    if more.len() > 0 && lull_before(all, p, msgs.len() as int) {
        lemma_lull_closes(msgs, more, p, 0, 0);
        assert forall|k: int| 0 <= k < w.len() implies chunking(scope, msgs, p)[k] == chunking(
            scope,
            all,
            p,
        )[k] by {
            assert(w[k] == v[k]);
            assert(all.subrange(v[k].0, v[k].1) =~= msgs.subrange(w[k].0, w[k].1));
        }
    }
}

proof fn lemma_lull_closes(
    msgs: Seq<InputView>,
    more: Seq<InputView>,
    p: ChunkParams,
    from: int,
    i: int,
)
    requires
        0 <= from <= i <= msgs.len(),
        i > 0 ==> from < i,
        msgs.len() > 0,
        more.len() > 0,
        lull_before(msgs + more, p, msgs.len() as int),
    ensures
        windows_from(msgs, p, from, i).is_prefix_of(windows_from(msgs + more, p, from, i)),
    decreases msgs.len() - i,
{
    let all = msgs + more;
    let w = windows_from(msgs, p, from, i);
    let v = windows_from(all, p, from, i);
    if i < msgs.len() {
        assert(all.subrange(from, i) =~= msgs.subrange(from, i));
        if from < i {
            assert(lull_before(all, p, i) == lull_before(msgs, p, i));
        }
        if ends_before(msgs, p, from, i) {
            let next = next_from(msgs, p, from, i);
            lemma_lull_closes(msgs, more, p, next, i + 1);
            let rest = windows_from(msgs, p, next, i + 1);
            let rest_all = windows_from(all, p, next, i + 1);
            assert(w =~= seq![(from, i)] + rest);
            assert(v =~= seq![(from, i)] + rest_all);
            assert forall|k: int| 0 <= k < w.len() implies w[k] == v[k] by {
                if k > 0 {
                    assert(rest[k - 1] == rest_all[k - 1]);
                }
            }
        } else {
            lemma_lull_closes(msgs, more, p, from, i + 1);
        }
    } else {
        assert(w =~= seq![(from, i)]);
        assert(v[0] == (from, i));
    }
}

/// Whether a number fits in `n` bytes.
spec fn fits(u: int, n: nat) -> bool
    decreases n,
{
    if n == 0 {
        u == 0
    } else {
        fits(u / 256, (n - 1) as nat)
    }
}

proof fn lemma_low_bytes_injective(u: int, v: int, n: nat)
    requires
        fits(u, n),
        fits(v, n),
        low_bytes(u, n) == low_bytes(v, n),
    ensures
        u == v,
    decreases n,
{
    if n > 0 {
        let x = low_bytes(u, n);
        let y = low_bytes(v, n);
        assert(x[0] == y[0]);
        assert(low_bytes(u / 256, (n - 1) as nat) =~= x.drop_first());
        assert(low_bytes(v / 256, (n - 1) as nat) =~= y.drop_first());
        lemma_low_bytes_injective(u / 256, v / 256, (n - 1) as nat);
    }
}

proof fn lemma_low_bytes_len(u: int, n: nat)
    ensures
        low_bytes(u, n).len() == n,
    decreases n,
{
    if n > 0 {
        lemma_low_bytes_len(u / 256, (n - 1) as nat);
    }
}

proof fn lemma_le_bytes_injective(a: i64, b: i64)
    requires
        le_bytes(a) == le_bytes(b),
    ensures
        a == b,
{
    reveal_with_fuel(fits, 9);
    lemma_low_bytes_injective(two_complement(a), two_complement(b), 8);
}

/// The bytes of a message in a content hash.
pub open spec fn entry_bytes(m: InputView) -> Seq<u8> {
    encode_utf8(line_of(m)) + seq![0u8] + le_bytes(time_or_zero(m))
}

proof fn lemma_message_bytes_first(msgs: Seq<InputView>)
    requires
        msgs.len() > 0,
    ensures
        message_bytes(msgs) == entry_bytes(msgs[0]) + message_bytes(msgs.drop_first()),
    decreases msgs.len(),
{
    let init = msgs.drop_last();
    let tail = msgs.drop_first();
    let last = entry_bytes(msgs.last());
    if msgs.len() == 1 {
        assert(init =~= Seq::<InputView>::empty());
        assert(tail =~= Seq::<InputView>::empty());
        assert(message_bytes(msgs) =~= entry_bytes(msgs[0]) + message_bytes(tail));
    } else {
        lemma_message_bytes_first(init);
        assert(tail.drop_last() =~= init.drop_first());
        assert(message_bytes(tail) =~= message_bytes(tail.drop_last()) + last);
        assert(message_bytes(msgs) =~= message_bytes(init) + last);
        assert(message_bytes(msgs) =~= entry_bytes(msgs[0]) + message_bytes(tail));
    }
}

proof fn lemma_entry_split(a: InputView, ra: Seq<u8>, b: InputView, rb: Seq<u8>)
    requires
        !line_of(a).contains('\0'),
        !line_of(b).contains('\0'),
        entry_bytes(a) + ra == entry_bytes(b) + rb,
    ensures
        line_of(a) == line_of(b),
        time_or_zero(a) == time_or_zero(b),
        ra == rb,
{
    let la = encode_utf8(line_of(a));
    let lb = encode_utf8(line_of(b));
    let ta = le_bytes(time_or_zero(a));
    let tb = le_bytes(time_or_zero(b));
    digest::lemma_no_zero_byte(line_of(a));
    digest::lemma_no_zero_byte(line_of(b));
    assert(entry_bytes(a) + ra =~= la + seq![0u8] + (ta + ra));
    assert(entry_bytes(b) + rb =~= lb + seq![0u8] + (tb + rb));
    digest::lemma_split_at_zero(la, ta + ra, lb, tb + rb);
    text::lemma_encode_injective(line_of(a), line_of(b));
    lemma_low_bytes_len(two_complement(time_or_zero(a)), 8);
    lemma_low_bytes_len(two_complement(time_or_zero(b)), 8);
    assert(ta =~= (ta + ra).take(8));
    assert(tb =~= (tb + rb).take(8));
    assert(ra =~= (ta + ra).skip(8));
    assert(rb =~= (tb + rb).skip(8));
    lemma_le_bytes_injective(time_or_zero(a), time_or_zero(b));
}

/// The times of a run of messages, 0 for a message without one.
pub open spec fn times_of(msgs: Seq<InputView>) -> Seq<i64> {
    msgs.map_values(|m: InputView| time_or_zero(m))
}

/// Whether no line of a run of messages holds a NUL.
pub open spec fn free_of_nul(msgs: Seq<InputView>) -> bool {
    forall|i: int| 0 <= i < msgs.len() ==> !line_of(#[trigger] msgs[i]).contains('\0')
}

proof fn lemma_message_bytes_injective(a: Seq<InputView>, b: Seq<InputView>)
    requires
        free_of_nul(a),
        free_of_nul(b),
        message_bytes(a) == message_bytes(b),
    ensures
        lines_of(a) == lines_of(b),
        times_of(a) == times_of(b),
    decreases a.len(),
{
    if a.len() == 0 && b.len() == 0 {
        assert(lines_of(a) =~= lines_of(b));
        assert(times_of(a) =~= times_of(b));
    } else if a.len() == 0 {
        lemma_message_bytes_first(b);
        assert(message_bytes(a).len() == 0);
        assert(entry_bytes(b[0])[encode_utf8(line_of(b[0])).len() as int] == 0u8);
        assert(false);
    } else if b.len() == 0 {
        lemma_message_bytes_first(a);
        assert(message_bytes(b).len() == 0);
        assert(entry_bytes(a[0])[encode_utf8(line_of(a[0])).len() as int] == 0u8);
        assert(false);
    } else {
        let ta = a.drop_first();
        let tb = b.drop_first();
        lemma_message_bytes_first(a);
        lemma_message_bytes_first(b);
        lemma_entry_split(a[0], message_bytes(ta), b[0], message_bytes(tb));
        assert(free_of_nul(ta)) by {
            assert(forall|i: int| 0 <= i < ta.len() ==> ta[i] == a[i + 1]);
        }
        assert(free_of_nul(tb)) by {
            assert(forall|i: int| 0 <= i < tb.len() ==> tb[i] == b[i + 1]);
        }
        lemma_message_bytes_injective(ta, tb);
        assert(lines_of(a) =~= seq![line_of(a[0])] + lines_of(ta));
        assert(lines_of(b) =~= seq![line_of(b[0])] + lines_of(tb));
        assert(times_of(a) =~= seq![time_or_zero(a[0])] + times_of(ta));
        assert(times_of(b) =~= seq![time_or_zero(b[0])] + times_of(tb));
    }
}

/// The bytes that are hashed tell chunks apart: where no scope and no line
/// holds a NUL, equal bytes mean the same chat, the same lines and the same
/// times. So identical exchanges in different chats are hashed differently,
/// and so is a chunk in which a message has changed.
pub proof fn law_hashed_bytes_tell_chunks(
    scope_a: Seq<char>,
    a: Seq<InputView>,
    scope_b: Seq<char>,
    b: Seq<InputView>,
)
    requires
        !scope_a.contains('\0'),
        !scope_b.contains('\0'),
        free_of_nul(a),
        free_of_nul(b),
        chunk_bytes(scope_a, a) == chunk_bytes(scope_b, b),
    ensures
        scope_a == scope_b,
        lines_of(a) == lines_of(b),
        times_of(a) == times_of(b),
{
    digest::lemma_no_zero_byte(scope_a);
    digest::lemma_no_zero_byte(scope_b);
    digest::lemma_split_at_zero(
        encode_utf8(scope_a),
        message_bytes(a),
        encode_utf8(scope_b),
        message_bytes(b),
    );
    text::lemma_encode_injective(scope_a, scope_b);
    lemma_message_bytes_injective(a, b);
}

proof fn lemma_window_count(msgs: Seq<InputView>, p: ChunkParams, from: int, i: int)
    requires
        0 <= from <= i <= msgs.len(),
        i > 0 ==> from < i,
    ensures
        windows_from(msgs, p, from, i).len() <= msgs.len() - i + (if from < i {
            1int
        } else {
            0int
        }),
    decreases msgs.len() - i,
{
    if i < msgs.len() {
        if ends_before(msgs, p, from, i) {
            lemma_window_count(msgs, p, next_from(msgs, p, from, i), i + 1);
        } else {
            lemma_window_count(msgs, p, from, i + 1);
        }
    }
}

/// A chat has no more chunks than messages.
pub proof fn law_no_more_chunks_than_messages(
    scope: Seq<char>,
    msgs: Seq<InputView>,
    p: ChunkParams,
)
    ensures
        chunking(scope, msgs, p).len() <= msgs.len(),
{
    lemma_window_count(msgs, p, 0, 0);
}

/// The token estimate of a run of messages is the sum, over its lines, of a
/// quarter of the line's bytes, rounded down, and one.
proof fn lemma_tokens_are_bytes(msgs: Seq<InputView>)
    ensures
        total_tokens(msgs) == msgs.fold_left(
            0int,
            |sum: int, m: InputView| sum + encode_utf8(m.sender + ": "@ + m.text).len() / 4 + 1,
        ),
    decreases msgs.len(),
{
    if msgs.len() > 0 {
        lemma_tokens_are_bytes(msgs.drop_last());
    }
}

proof fn lemma_not_full_inside(
    msgs: Seq<InputView>,
    p: ChunkParams,
    from: int,
    i: int,
    checked: int,
    k: int,
    j: int,
)
    requires
        0 <= from <= checked <= i <= msgs.len(),
        i > 0 ==> from < i,
        forall|x: int| checked < x < i ==> !is_full(msgs, p, from, x),
        0 <= k < windows_from(msgs, p, from, i).len(),
        (if k == 0 {
            checked
        } else {
            windows_from(msgs, p, from, i)[k - 1].1
        }) < j < windows_from(msgs, p, from, i)[k].1,
    ensures
        !is_full(msgs, p, windows_from(msgs, p, from, i)[k].0, j),
    decreases msgs.len() - i,
{
    let w = windows_from(msgs, p, from, i);
    if i < msgs.len() {
        if ends_before(msgs, p, from, i) {
            let next = next_from(msgs, p, from, i);
            let rest = windows_from(msgs, p, next, i + 1);
            if k == 0 {
                assert(w[0] == (from, i));
            } else {
                assert(w[k] == rest[k - 1]);
                if k > 1 {
                    assert(w[k - 1] == rest[k - 2]);
                } else {
                    assert(w[0] == (from, i));
                }
                lemma_not_full_inside(msgs, p, next, i + 1, i, k - 1, j);
            }
        } else {
            lemma_not_full_inside(msgs, p, from, i + 1, checked, k, j);
        }
    }
}

/// No chunk goes on past the target size. Beyond what it was given of the chunk
/// before it, a chunk ends with the message that brings it to `target_tokens`,
/// where a line counts a quarter of its bytes, rounded down, and one. So four
/// times as many bytes, or as many messages as the target has tokens, always
/// force a cut.
pub proof fn law_no_chunk_passes_the_target(msgs: Seq<InputView>, p: ChunkParams, k: int, j: int)
    requires
        0 <= k < windows(msgs, p).len(),
        (if k == 0 {
            0
        } else {
            windows(msgs, p)[k - 1].1
        }) < j < windows(msgs, p)[k].1,
    ensures
        msgs.subrange(windows(msgs, p)[k].0, j).fold_left(
            0int,
            |sum: int, m: InputView| sum + encode_utf8(m.sender + ": "@ + m.text).len() / 4 + 1,
        ) < p.target_tokens,
        j - windows(msgs, p)[k].0 < p.target_tokens,
{
    lemma_not_full_inside(msgs, p, 0, 0, 0, k, j);
    let run = msgs.subrange(windows(msgs, p)[k].0, j);
    lemma_tokens_are_bytes(run);
    law_windows(msgs, p);
    if k > 0 {
        law_boundaries(msgs, p, k);
    }
    lemma_a_token_at_least(run);
}

proof fn lemma_a_token_at_least(msgs: Seq<InputView>)
    ensures
        total_tokens(msgs) >= msgs.len(),
    decreases msgs.len(),
{
    if msgs.len() > 0 {
        lemma_a_token_at_least(msgs.drop_last());
    }
}

/// Why a chunk ends, and where the next begins. A chunk that is not the last
/// ends because the next message came more than `gap_minutes` after its last
/// one, or because its lines had reached `target_tokens`. After a lull the next
/// chunk begins with the next message. Without one it begins `overlap_messages`
/// earlier, or, where the chunk has no more than these, with its second message.
pub proof fn law_why_a_chunk_ends(msgs: Seq<InputView>, p: ChunkParams, k: int)
    requires
        0 < k < windows(msgs, p).len(),
    ensures
        ({
            let (a, b) = windows(msgs, p)[k - 1];
            let lull = msgs[b - 1].sent_at_ms is Some && msgs[b].sent_at_ms is Some
                && msgs[b].sent_at_ms->0 - msgs[b - 1].sent_at_ms->0 > p.gap_minutes * 60_000;
            let full = msgs.subrange(a, b).fold_left(
                0int,
                |sum: int, m: InputView|
                    sum + encode_utf8(m.sender + ": "@ + m.text).len() / 4 + 1,
            ) >= p.target_tokens;
            &&& 0 <= a < b < msgs.len()
            &&& lull || full
            &&& lull ==> windows(msgs, p)[k].0 == b
            &&& !lull && p.overlap_messages < b - a ==> windows(msgs, p)[k].0 == b
                - p.overlap_messages
            &&& !lull && p.overlap_messages >= b - a ==> windows(msgs, p)[k].0 == a + 1
            &&& windows(msgs, p)[k].1 > b
        }),
{
    law_boundaries(msgs, p, k);
    law_windows(msgs, p);
    let (a, b) = windows(msgs, p)[k - 1];
    assert(windows(msgs, p)[k].1 <= msgs.len());
    lemma_tokens_are_bytes(msgs.subrange(a, b));
}

/// Messages of one chunk follow each other without a lull: no two in a row lie
/// more than `gap_minutes` apart.
pub proof fn law_no_gap_inside_a_chunk(msgs: Seq<InputView>, p: ChunkParams, k: int, j: int)
    requires
        0 <= k < windows(msgs, p).len(),
        windows(msgs, p)[k].0 < j < windows(msgs, p)[k].1,
        msgs[j - 1].sent_at_ms is Some,
        msgs[j].sent_at_ms is Some,
    ensures
        msgs[j].sent_at_ms->0 - msgs[j - 1].sent_at_ms->0 <= p.gap_minutes * 60_000,
{
    law_no_lull_inside(msgs, p, k, j);
}

proof fn lemma_times(msgs: Seq<InputView>)
    ensures
        forall|i: int|
            0 <= i < msgs.len() && (#[trigger] msgs[i]).sent_at_ms is Some ==> earliest(msgs) is Some
                && latest(msgs) is Some && earliest(msgs)->0 <= msgs[i].sent_at_ms->0 <= latest(
                msgs,
            )->0,
        earliest(msgs) is Some ==> exists|i: int|
            0 <= i < msgs.len() && (#[trigger] msgs[i]).sent_at_ms == earliest(msgs),
        latest(msgs) is Some ==> exists|i: int|
            0 <= i < msgs.len() && (#[trigger] msgs[i]).sent_at_ms == latest(msgs),
    decreases msgs.len(),
{
    if msgs.len() > 0 {
        let front = msgs.drop_last();
        let n = msgs.len() - 1;
        lemma_times(front);
        assert forall|i: int|
            0 <= i < msgs.len() && (#[trigger] msgs[i]).sent_at_ms is Some implies earliest(
            msgs,
        ) is Some && latest(msgs) is Some && earliest(msgs)->0 <= msgs[i].sent_at_ms->0 <= latest(
            msgs,
        )->0 by {
            if i < n {
                assert(front[i] == msgs[i]);
            }
        }
        if earliest(msgs) is Some {
            if msgs[n].sent_at_ms != earliest(msgs) {
                let i = choose|i: int|
                    0 <= i < front.len() && (#[trigger] front[i]).sent_at_ms == earliest(front);
                assert(msgs[i] == front[i]);
            }
        }
        if latest(msgs) is Some {
            if msgs[n].sent_at_ms != latest(msgs) {
                let i = choose|i: int|
                    0 <= i < front.len() && (#[trigger] front[i]).sent_at_ms == latest(front);
                assert(msgs[i] == front[i]);
            }
        }
    }
}

proof fn lemma_joined_lines(msgs: Seq<InputView>)
    requires
        msgs.len() > 0,
    ensures
        text::joined(lines_of(msgs), "\n"@) + "\n"@ == msgs.fold_left(
            Seq::<char>::empty(),
            |t: Seq<char>, m: InputView| t + (m.sender + ": "@ + m.text) + "\n"@,
        ),
    decreases msgs.len(),
{
    let front = msgs.drop_last();
    let f = |t: Seq<char>, m: InputView| t + (m.sender + ": "@ + m.text) + "\n"@;
    let ls = lines_of(msgs);
    assert(ls.drop_last() =~= lines_of(front));
    assert(ls.last() == line_of(msgs.last()));
    if front.len() == 0 {
        assert(front.fold_left(Seq::<char>::empty(), f) == Seq::<char>::empty());
        assert(Seq::<char>::empty() + line_of(msgs.last()) =~= line_of(msgs.last()));
    } else {
        lemma_joined_lines(front);
    }
}

/// What a chunk holds: the lines `sender: text` of its messages, in order and
/// each on a line of its own; how many they are; and the times of the earliest
/// and the latest of them.
pub proof fn law_what_a_chunk_holds(scope: Seq<char>, msgs: Seq<InputView>, p: ChunkParams, k: int)
    requires
        0 <= k < windows(msgs, p).len(),
        msgs.len() <= u32::MAX,
    ensures
        chunking(scope, msgs, p).len() == windows(msgs, p).len(),
        ({
            let c = chunking(scope, msgs, p)[k];
            let (a, b) = windows(msgs, p)[k];
            &&& c.text + "\n"@ == msgs.subrange(a, b).fold_left(
                Seq::<char>::empty(),
                |t: Seq<char>, m: InputView| t + (m.sender + ": "@ + m.text) + "\n"@,
            )
            &&& c.message_count == b - a
            &&& forall|i: int|
                a <= i < b && (#[trigger] msgs[i]).sent_at_ms is Some ==> c.started_at_ms is Some
                    && c.ended_at_ms is Some && c.started_at_ms->0 <= msgs[i].sent_at_ms->0
                    <= c.ended_at_ms->0
            &&& c.started_at_ms is Some ==> exists|i: int|
                a <= i < b && (#[trigger] msgs[i]).sent_at_ms == c.started_at_ms
            &&& c.ended_at_ms is Some ==> exists|i: int|
                a <= i < b && (#[trigger] msgs[i]).sent_at_ms == c.ended_at_ms
        }),
{
    law_windows(msgs, p);
    let c = chunking(scope, msgs, p)[k];
    let (a, b) = windows(msgs, p)[k];
    let run = msgs.subrange(a, b);
    lemma_joined_lines(run);
    lemma_times(run);
    assert forall|i: int|
        a <= i < b && (#[trigger] msgs[i]).sent_at_ms is Some implies c.started_at_ms is Some
        && c.ended_at_ms is Some && c.started_at_ms->0 <= msgs[i].sent_at_ms->0
        <= c.ended_at_ms->0 by {
        assert(run[i - a] == msgs[i]);
    }
    if c.started_at_ms is Some {
        let i = choose|i: int|
            0 <= i < run.len() && (#[trigger] run[i]).sent_at_ms == earliest(run);
        assert(msgs[a + i] == run[i]);
    }
    if c.ended_at_ms is Some {
        let i = choose|i: int| 0 <= i < run.len() && (#[trigger] run[i]).sent_at_ms == latest(run);
        assert(msgs[a + i] == run[i]);
    }
}

/// Whether two runs of messages read the same and were sent at the same times; an
/// unknown time counts as zero.
pub open spec fn same_run(a: Seq<InputView>, b: Seq<InputView>) -> bool {
    a.len() == b.len() && forall|i: int|
        #![trigger a[i]]
        #![trigger b[i]]
        0 <= i < a.len() ==> a[i].sender + ": "@ + a[i].text == b[i].sender + ": "@ + b[i].text && (
        if a[i].sent_at_ms is Some {
            a[i].sent_at_ms->0
        } else {
            0
        }) == (if b[i].sent_at_ms is Some {
            b[i].sent_at_ms->0
        } else {
            0
        })
}

proof fn lemma_same_run_bytes(a: Seq<InputView>, b: Seq<InputView>)
    requires
        same_run(a, b),
    ensures
        message_bytes(a) == message_bytes(b),
    decreases a.len(),
{
    if a.len() > 0 {
        let n = a.len() - 1;
        let x = a.drop_last();
        let y = b.drop_last();
        assert forall|i: int| 0 <= i < x.len() implies x[i] == a[i] && y[i] == b[i] by {}
        lemma_same_run_bytes(x, y);
        assert(line_of(a[n]) == line_of(b[n]));
        assert(time_or_zero(a[n]) == time_or_zero(b[n]));
    }
}

/// Two chunks have one content hash exactly when they are of one chat, read the
/// same and were sent at the same times, where no chat and no line holds a NUL and
/// their bytes do not collide under SHA-256.
pub proof fn law_chunk_hash_tells_content(
    scope_a: Seq<char>,
    a: Seq<InputView>,
    scope_b: Seq<char>,
    b: Seq<InputView>,
)
    requires
        !scope_a.contains('\0'),
        !scope_b.contains('\0'),
        free_of_nul(a),
        free_of_nul(b),
        digest::sha256(chunk_bytes(scope_a, a)) == digest::sha256(chunk_bytes(scope_b, b))
            ==> chunk_bytes(scope_a, a) == chunk_bytes(scope_b, b),
    ensures
        chunk_of(scope_a, a).content_hash == chunk_of(scope_b, b).content_hash <==> scope_a
            == scope_b && same_run(a, b),
{
    let x = chunk_bytes(scope_a, a);
    let y = chunk_bytes(scope_b, b);
    if chunk_of(scope_a, a).content_hash == chunk_of(scope_b, b).content_hash {
        numeric::lemma_hex_injective(digest::sha256(x), digest::sha256(y));
        law_hashed_bytes_tell_chunks(scope_a, a, scope_b, b);
        assert(a.len() == lines_of(a).len() && b.len() == lines_of(b).len());
        assert forall|i: int| 0 <= i < a.len() implies line_of(a[i]) == line_of(b[i])
            && time_or_zero(a[i]) == time_or_zero(b[i]) by {
            assert(lines_of(a)[i] == line_of(a[i]) && lines_of(b)[i] == line_of(b[i]));
            assert(times_of(a)[i] == time_or_zero(a[i]) && times_of(b)[i] == time_or_zero(b[i]));
        }
    }
    if scope_a == scope_b && same_run(a, b) {
        lemma_same_run_bytes(a, b);
    }
}

} // verus!
