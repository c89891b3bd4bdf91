//! Searching the index: what is asked of the full-text engine, how vectors
//! are ranked, and how a result is shown.
use crate::embed;
use crate::embed::blob_to_vector;
use crate::index;
use crate::index::{HitView, IndexDb, SearchHit};
use crate::lists;
use crate::order;
use crate::tables;
use crate::tables::{ChatView, ChunkRowView, HandleView, MessageView, Tables};
use crate::text;
use crate::text::{join, replace_char, shorten, split_whitespace};
use vstd::prelude::*;
use vstd::string::*;

verus! {

/// Finds the chunks that match a full-text query, best first, each with a
/// snippet in which the matches stand in «guillemets».
pub const KEYWORD_SQL: &'static str =
    "SELECT c.id, snippet(chunks_fts, 0, '«', '»', ' … ', 24) FROM chunks_fts JOIN chunks c ON c.id = chunks_fts.rowid WHERE chunks_fts MATCH ?1 ORDER BY rank LIMIT ?2";

/// How much of a chunk a vector-search result shows.
pub const SNIPPET_CHARS: usize = 200;

/// The start of a text, as a vector-search result shows it.
pub fn truncate_snippet(s: &str) -> (r: String)
    ensures
        r@ == text::shortened(s@, SNIPPET_CHARS as nat),
{
    shorten(s, SNIPPET_CHARS)
}

/// A term in quotes, with the quotes in it doubled.
pub open spec fn quoted(term: Seq<char>) -> Seq<char> {
    "\""@ + text::replaced(term, '"', "\"\""@) + "\""@
}

/// A query of quoted terms.
pub open spec fn fts_query(query: Seq<char>) -> Seq<char> {
    text::joined(text::words(query).map_values(|t: Seq<char>| quoted(t)), " "@)
}

/// Quotes every term, separated by white space, so that user input is always
/// a valid full-text query: all terms must occur, and operators lose their
/// meaning.
pub fn sanitize_fts_query(query: &str) -> (r: String)
    ensures
        r@ == fts_query(query@),
{
    let terms = split_whitespace(query);
    let ghost want = text::words(query@).map_values(|t: Seq<char>| quoted(t));
    let mut out: Vec<String> = Vec::new();
    let mut i: usize = 0;
    proof {
        assert(text::views(out@) =~= want.take(0));
    }
    while i < terms.len()
        invariant
            i <= terms@.len(),
            text::views(terms@) == text::words(query@),
            want == text::words(query@).map_values(|t: Seq<char>| quoted(t)),
            text::views(out@) == want.take(i as int),
        decreases terms@.len() - i,
    {
        let mut s = "\"".to_owned();
        s.append(replace_char(terms[i].as_str(), '"', "\"\"").as_str());
        s.append("\"");
        let ghost before = text::views(out@);
        proof {
            assert(text::views(terms@)[i as int] == terms@[i as int]@);
        }
        out.push(s);
        proof {
            assert(text::views(out@) =~= before.push(s@));
            assert(want.take(i + 1) =~= want.take(i as int).push(want[i as int]));
        }
        i = i + 1;
    }
    proof {
        assert(want.take(i as int) =~= want);
    }
    join(&out, " ")
}

/// The query to hand to the full-text engine; none when the text has no
/// terms.
pub fn keyword_query(query: &str) -> (r: Option<String>)
    ensures
        r is Some <==> !text::blank(query@),
        r matches Some(q) ==> q@ == fts_query(query@),
{
    let q = sanitize_fts_query(query);
    proof {
        law_blank_query_is_empty(query@);
    }
    if q.as_str().is_empty() {
        None
    } else {
        Some(q)
    }
}

/// The query of a text is empty exactly when the text is blank.
pub proof fn law_blank_query_is_empty(query: Seq<char>)
    ensures
        fts_query(query).len() == 0 <==> text::blank(query),
{
    let terms = text::words(query).map_values(|t: Seq<char>| quoted(t));
    text::lemma_no_words(query);
    reveal_strlit("\"");
    if terms.len() > 0 {
        assert(terms.last() == quoted(text::words(query).last()));
        assert(terms.last().len() > 0);
        if terms.len() == 1 {
            assert(terms[0] == terms.last());
        }
    }
}

/// The quotes of a query always pair up: whatever the text, no term is left
/// open.
pub proof fn law_query_quotes_pair_up(query: Seq<char>)
    ensures
        text::count(fts_query(query), '"') % 2 == 0,
{
    let terms = text::words(query).map_values(|t: Seq<char>| quoted(t));
    assert forall|i: int| 0 <= i < terms.len() implies text::count(#[trigger] terms[i], '"') % 2
        == 0 by {
        lemma_quoted_pairs_up(text::words(query)[i]);
    }
    reveal_strlit(" ");
    assert(text::count(" "@, '"') == 0) by {
        reveal_with_fuel(text::count, 2);
    }
    lemma_joined_pairs_up(terms, " "@);
}

proof fn lemma_joined_pairs_up(parts: Seq<Seq<char>>, sep: Seq<char>)
    requires
        forall|i: int| 0 <= i < parts.len() ==> text::count(#[trigger] parts[i], '"') % 2 == 0,
        text::count(sep, '"') == 0,
    ensures
        text::count(text::joined(parts, sep), '"') % 2 == 0,
    decreases parts.len(),
{
    if parts.len() > 1 {
        let front = parts.drop_last();
        assert forall|i: int| 0 <= i < front.len() implies text::count(#[trigger] front[i], '"') % 2
            == 0 by {
            assert(front[i] == parts[i]);
        }
        lemma_joined_pairs_up(front, sep);
        let a = text::joined(front, sep);
        text::lemma_count_concat(a, sep, '"');
        text::lemma_count_concat(a + sep, parts.last(), '"');
        assert(parts.last() == parts[parts.len() - 1]);
    }
}

proof fn lemma_quoted_pairs_up(term: Seq<char>)
    ensures
        text::count(quoted(term), '"') % 2 == 0,
{
    reveal_strlit("\"");
    reveal_strlit("\"\"");
    lemma_doubled(term);
    let inner = text::replaced(term, '"', "\"\""@);
    text::lemma_count_concat("\""@, inner, '"');
    text::lemma_count_concat("\""@ + inner, "\""@, '"');
}

proof fn lemma_doubled(term: Seq<char>)
    ensures
        text::count(text::replaced(term, '"', "\"\""@), '"') == 2 * text::count(term, '"'),
    decreases term.len(),
{
    if term.len() > 0 {
        lemma_doubled(term.drop_last());
        reveal_strlit("\"\"");
        let front = text::replaced(term.drop_last(), '"', "\"\""@);
        if term.last() == '"' {
            text::lemma_count_concat(front, "\"\""@, '"');
            reveal_with_fuel(text::count, 3);
        } else {
            assert(front.push(term.last()).drop_last() =~= front);
        }
    }
}

/// The condition that a chat has an id.
pub open spec fn chat_has_id(id: i64) -> spec_fn(ChatView) -> bool {
    |c: ChatView| c.id == id
}

/// The condition that a chunk has an id.
pub open spec fn chunk_has_id(id: i64) -> spec_fn(ChunkRowView) -> bool {
    |c: ChunkRowView| c.id == id
}

/// The condition that a message of a chat comes from a known handle.
pub open spec fn from_participant(
    handles: Seq<HandleView>,
    chat_id: i64,
) -> spec_fn(MessageView) -> bool {
    |m: MessageView|
        m.chat_id == Some(chat_id) && m.sender_id is Some && lists::first_index(
            handles,
            index::handle_has_id(m.sender_id->0),
        ) is Some
}

/// What the first known sender of a chat is called.
pub open spec fn participant(t: Tables, chat_id: i64) -> Option<Seq<char>> {
    match lists::first_index(t.messages, from_participant(t.handles, chat_id)) {
        Some(i) => Some(index::sender_label_of(t.handles, t.messages[i].sender_id->0)),
        None => None,
    }
}

/// What a chat is called: its display name (Messages stores an empty one for
/// none), else its first known sender, else its guid.
pub open spec fn chat_label(t: Tables, c: ChatView) -> Seq<char> {
    if c.display_name is Some && c.display_name->0.len() > 0 {
        c.display_name->0
    } else {
        match participant(t, c.id) {
            Some(name) => name,
            None => c.guid,
        }
    }
}

/// The result that a chunk gives: none when the chunk or its chat is not in
/// the index.
pub open spec fn hit_for(
    t: Tables,
    chunk_id: i64,
    snippet: Option<Seq<char>>,
    score: Option<u32>,
) -> Option<HitView> {
    match lists::first_index(t.chunks, chunk_has_id(chunk_id)) {
        Some(i) => match lists::first_index(t.chats, chat_has_id(t.chunks[i].chat_id)) {
            Some(j) => Some(
                HitView {
                    chunk_id,
                    chat_label: chat_label(t, t.chats[j]),
                    started_at_ms: t.chunks[i].started_at_ms,
                    ended_at_ms: t.chunks[i].ended_at_ms,
                    message_count: t.chunks[i].message_count as i64,
                    snippet: match snippet {
                        Some(s) => s,
                        None => text::shortened(t.chunks[i].text, SNIPPET_CHARS as nat),
                    },
                    score,
                },
            ),
            None => None,
        },
        None => None,
    }
}

/// The results of a list of matching chunks, each with its snippet.
pub open spec fn keyword_results(t: Tables, matches: Seq<(i64, Seq<char>)>) -> Seq<HitView>
    decreases matches.len(),
{
    if matches.len() == 0 {
        Seq::empty()
    } else {
        let before = keyword_results(t, matches.drop_last());
        match hit_for(t, matches.last().0, Some(matches.last().1), None) {
            Some(h) => before.push(h),
            None => before,
        }
    }
}

/// The results of some matches are the first results of more.
proof fn lemma_keyword_results_grow(t: Tables, matches: Seq<(i64, Seq<char>)>, n: int)
    requires
        0 <= n <= matches.len(),
    ensures
        keyword_results(t, matches.take(n)).len() <= keyword_results(t, matches).len(),
        keyword_results(t, matches.take(n)) == keyword_results(t, matches).take(
            keyword_results(t, matches.take(n)).len() as int,
        ),
    decreases matches.len(),
{
    if n == matches.len() {
        assert(matches.take(n) =~= matches);
    } else {
        let front = matches.drop_last();
        lemma_keyword_results_grow(t, front, n);
        assert(front.take(n) =~= matches.take(n));
    }
}

/// The contents of a list of matches.
pub open spec fn match_views(matches: Seq<(i64, String)>) -> Seq<(i64, Seq<char>)> {
    matches.map_values(|m: (i64, String)| (m.0, m.1@))
}

/// The bits of the largest positive single-precision number, infinity.
pub const INFINITY_BITS: u32 = 0x7f80_0000;

/// The condition that the bits of a score are those of a positive number.
pub open spec fn is_positive_score() -> spec_fn((i64, u32)) -> bool {
    |s: (i64, u32)| 0 < s.1 <= INFINITY_BITS
}

/// The sort key of a score: the best first.
pub open spec fn score_key(s: (i64, u32)) -> (i128, i128) {
    ((-(s.1 as int)) as i128, 0)
}

/// The first elements of a list.
pub open spec fn first_of<T>(s: Seq<T>, limit: nat) -> Seq<T> {
    if s.len() > limit {
        s.take(limit as int)
    } else {
        s
    }
}

/// The positive scores, best first, equal ones in the order they had, at most
/// `limit`. Vectors orthogonal or opposed to the query share no signal with
/// it: the "nearest" among those is noise, not a result.
pub open spec fn ranked(scores: Seq<(i64, u32)>, limit: nat) -> Seq<(i64, u32)> {
    let kept = lists::chosen(scores, is_positive_score());
    first_of(
        order::arranged(kept, kept.map_values(|s: (i64, u32)| score_key(s))),
        limit,
    )
}

/// The results of a list of chunks with their scores.
pub open spec fn vector_results(t: Tables, ranked: Seq<(i64, u32)>) -> Seq<HitView>
    decreases ranked.len(),
{
    if ranked.len() == 0 {
        Seq::empty()
    } else {
        let before = vector_results(t, ranked.drop_last());
        match hit_for(t, ranked.last().0, None, Some(ranked.last().1)) {
            Some(h) => before.push(h),
            None => before,
        }
    }
}

/// Ranks the scores of chunks: the positive ones, best first.
pub fn rank_scores(scores: &[(i64, u32)], limit: u32) -> (r: Vec<(i64, u32)>)
    ensures
        r@ == ranked(scores@, limit as nat),
{
    let ghost p = is_positive_score();
    let ghost want = lists::chosen(scores@, p);
    let mut kept: Vec<(i64, u32)> = Vec::new();
    let mut keys: Vec<(i128, i128)> = Vec::new();
    let mut i: usize = 0;
    proof {
        assert(kept@ =~= lists::chosen(scores@.take(0), p));
        assert(keys@ =~= kept@.map_values(|s: (i64, u32)| score_key(s)));
    }
    while i < scores.len()
        invariant
            i <= scores@.len(),
            p == is_positive_score(),
            kept@ == lists::chosen(scores@.take(i as int), p),
            keys@ == kept@.map_values(|s: (i64, u32)| score_key(s)),
        decreases scores@.len() - i,
    {
        let s = scores[i];
        proof {
            assert(scores@.take(i + 1).drop_last() =~= scores@.take(i as int));
        }
        if 0 < s.1 && s.1 <= INFINITY_BITS {
            let ghost before = kept@;
            kept.push(s);
            keys.push((-(s.1 as i128), 0));
            proof {
                assert(kept@.map_values(|s: (i64, u32)| score_key(s)) =~= before.map_values(
                    |s: (i64, u32)| score_key(s),
                ).push(score_key(s)));
            }
        }
        i = i + 1;
    }
    proof {
        assert(scores@.take(i as int) =~= scores@);
    }
    let ord = order::order(&keys);
    let ghost all = order::arranged(kept@, keys@);
    let mut r: Vec<(i64, u32)> = Vec::new();
    let mut k: usize = 0;
    while k < ord.len() && (k as u64) < limit as u64
        invariant
            k <= ord@.len(),
            k <= limit,
            ord@.len() == kept@.len() == keys@.len(),
            lists::ints(ord@) == order::order_of(keys@),
            all == order::arranged(kept@, keys@),
            forall|k: int| 0 <= k < ord@.len() ==> (#[trigger] ord@[k]) < keys@.len(),
            r@ == all.take(k as int),
        decreases ord@.len() - k,
    {
        r.push(kept[ord[k]]);
        proof {
            assert(lists::ints(ord@)[k as int] == ord@[k as int]);
            assert(all[k as int] == kept@[ord@[k as int] as int]);
            assert(all.take(k + 1) =~= all.take(k as int).push(all[k as int]));
        }
        k = k + 1;
    }
    proof {
        assert(all.len() == ord@.len()) by {
            assert(lists::ints(ord@).len() == ord@.len());
        }
        assert(r@ =~= first_of(all, limit as nat));
    }
    r
}

impl IndexDb {
    pub(crate) fn find_chat_id(&self, id: i64) -> (r: Option<usize>)
        ensures
            r is Some <==> lists::first_index(self@.chats, chat_has_id(id)) is Some,
            r matches Some(i) ==> i < self@.chats.len() && lists::first_index(
                self@.chats,
                chat_has_id(id),
            ) == Some(i as int),
    {
        let ghost p = chat_has_id(id);
        let rows = self.chats();
        let mut i: usize = 0;
        while i < rows.len()
            invariant
                i <= rows@.len(),
                tables::chat_views(rows@) == self@.chats,
                p == chat_has_id(id),
                forall|j: int| 0 <= j < i ==> !p(#[trigger] self@.chats[j]),
            decreases rows@.len() - i,
        {
            assert(tables::chat_views(rows@)[i as int] == rows@[i as int]@);
            if rows[i].id == id {
                proof {
                    lists::lemma_is_first_index(self@.chats, p, i as int);
                }
                return Some(i);
            }
            i = i + 1;
        }
        proof {
            lists::lemma_no_first_index(self@.chats, p);
        }
        None
    }

    pub(crate) fn find_chunk_id(&self, id: i64) -> (r: Option<usize>)
        ensures
            r is Some <==> lists::first_index(self@.chunks, chunk_has_id(id)) is Some,
            r matches Some(i) ==> i < self@.chunks.len() && lists::first_index(
                self@.chunks,
                chunk_has_id(id),
            ) == Some(i as int),
    {
        let ghost p = chunk_has_id(id);
        let rows = self.chunks();
        let mut i: usize = 0;
        while i < rows.len()
            invariant
                i <= rows@.len(),
                tables::chunk_row_views(rows@) == self@.chunks,
                p == chunk_has_id(id),
                forall|j: int| 0 <= j < i ==> !p(#[trigger] self@.chunks[j]),
            decreases rows@.len() - i,
        {
            assert(tables::chunk_row_views(rows@)[i as int] == rows@[i as int]@);
            if rows[i].id == id {
                proof {
                    lists::lemma_is_first_index(self@.chunks, p, i as int);
                }
                return Some(i);
            }
            i = i + 1;
        }
        proof {
            lists::lemma_no_first_index(self@.chunks, p);
        }
        None
    }

    fn participant_of(&self, chat_id: i64) -> (r: Option<String>)
        ensures
            text::opt_view(r) == participant(self@, chat_id),
    {
        let ghost p = from_participant(self@.handles, chat_id);
        let rows = self.messages();
        let mut i: usize = 0;
        while i < rows.len()
            invariant
                i <= rows@.len(),
                tables::message_views(rows@) == self@.messages,
                p == from_participant(self@.handles, chat_id),
                forall|j: int| 0 <= j < i ==> !p(#[trigger] self@.messages[j]),
            decreases rows@.len() - i,
        {
            assert(tables::message_views(rows@)[i as int] == rows@[i as int]@);
            let m = &rows[i];
            if m.chat_id == Some(chat_id) {
                match m.sender_id {
                    Some(sender) => match self.find_handle_id(sender) {
                        Some(h) => {
                            proof {
                                lists::lemma_is_first_index(self@.messages, p, i as int);
                            }
                            return Some(self.label_of_handle(h));
                        },
                        None => {},
                    },
                    None => {},
                }
            }
            i = i + 1;
        }
        proof {
            lists::lemma_no_first_index(self@.messages, p);
        }
        None
    }

    /// What a chat is called.
    pub(crate) fn label_of_chat(&self, i: usize) -> (r: String)
        requires
            i < self@.chats.len(),
        ensures
            r@ == chat_label(self@, self@.chats[i as int]),
    {
        let rows = self.chats();
        let c = &rows[i];
        assert(tables::chat_views(rows@)[i as int] == c@);
        match &c.display_name {
            Some(name) => {
                if !name.as_str().is_empty() {
                    return name.clone();
                }
            },
            None => {},
        }
        match self.participant_of(c.id) {
            Some(name) => name,
            None => c.guid.clone(),
        }
    }

    fn hit(&self, chunk_id: i64, snippet: Option<&String>, score: Option<u32>) -> (r: Option<
        SearchHit,
    >)
        ensures
            r is Some <==> hit_for(self@, chunk_id, snippet_view(snippet), score) is Some,
            r matches Some(h) ==> hit_for(self@, chunk_id, snippet_view(snippet), score) == Some(h@),
    {
        match self.find_chunk_id(chunk_id) {
            Some(i) => {
                let rows = self.chunks();
                let c = &rows[i];
                proof {
                    assert(tables::chunk_row_views(rows@)[i as int] == c@);
                }
                match self.find_chat_id(c.chat_id) {
                    Some(j) => Some(
                        SearchHit {
                            chunk_id,
                            chat_label: self.label_of_chat(j),
                            started_at_ms: c.started_at_ms,
                            ended_at_ms: c.ended_at_ms,
                            message_count: c.message_count as i64,
                            snippet: match snippet {
                                Some(s) => s.clone(),
                                None => truncate_snippet(c.text.as_str()),
                            },
                            score,
                        },
                    ),
                    None => None,
                }
            },
            None => None,
        }
    }

    /// The results of a keyword search, given the chunks that match it, best
    /// first, each with its snippet.
    pub fn search(&self, matches: &[(i64, String)], limit: u32) -> (r: Vec<SearchHit>)
        ensures
            index::hit_views(r@) == first_of(
                keyword_results(self@, match_views(matches@)),
                limit as nat,
            ),
    {
        let ghost all = match_views(matches@);
        let mut r: Vec<SearchHit> = Vec::new();
        let mut i: usize = 0;
        proof {
            assert(index::hit_views(r@) =~= keyword_results(self@, all.take(0)));
        }
        while i < matches.len()
            invariant
                i <= matches@.len(),
                all == match_views(matches@),
                r@.len() <= limit,
                index::hit_views(r@) == keyword_results(self@, all.take(i as int)),
            decreases matches@.len() - i,
        {
            if r.len() as u64 == limit as u64 {
                proof {
                    lemma_keyword_results_grow(self@, all, i as int);
                    assert(index::hit_views(r@).len() == r@.len());
                    assert(index::hit_views(r@) =~= keyword_results(self@, all).take(limit as int));
                }
                return r;
            }
            proof {
                assert(all.take(i + 1).drop_last() =~= all.take(i as int));
                assert(all[i as int] == (matches@[i as int].0, matches@[i as int].1@));
            }
            let ghost before = index::hit_views(r@);
            match self.hit(matches[i].0, Some(&matches[i].1), None) {
                Some(h) => {
                    r.push(h);
                    proof {
                        assert(index::hit_views(r@) =~= before.push(h@));
                    }
                },
                None => {},
            }
            i = i + 1;
        }
        proof {
            assert(all.take(i as int) =~= all);
            assert(index::hit_views(r@).len() == r@.len());
        }
        r
    }

    /// The results of a vector search, given the similarity of each embedded
    /// chunk with the query as the bits of a single-precision number.
    pub fn vector_search(&self, scores: &[(i64, u32)], limit: u32) -> (r: Vec<SearchHit>)
        ensures
            index::hit_views(r@) == vector_results(self@, ranked(scores@, limit as nat)),
    {
        let best = rank_scores(scores, limit);
        let ghost all = best@;
        let mut r: Vec<SearchHit> = Vec::new();
        let mut i: usize = 0;
        proof {
            assert(index::hit_views(r@) =~= vector_results(self@, all.take(0)));
        }
        while i < best.len()
            invariant
                i <= best@.len(),
                all == best@,
                index::hit_views(r@) == vector_results(self@, all.take(i as int)),
            decreases best@.len() - i,
        {
            proof {
                assert(all.take(i + 1).drop_last() =~= all.take(i as int));
            }
            let ghost before = index::hit_views(r@);
            match self.hit(best[i].0, None, Some(best[i].1)) {
                Some(h) => {
                    r.push(h);
                    proof {
                        assert(index::hit_views(r@) =~= before.push(h@));
                    }
                },
                None => {},
            }
            i = i + 1;
        }
        proof {
            assert(all.take(i as int) =~= all);
        }
        r
    }

    /// The chunks that have a vector, each with the bits of its numbers.
    pub fn embedded_vectors(&self) -> (r: Vec<(i64, Vec<u32>)>)
        ensures
            scored_views(r@) == embedded(self@, self@.chunks),
    {
        let rows = self.chunks();
        let ghost all = self@.chunks;
        let mut r: Vec<(i64, Vec<u32>)> = Vec::new();
        let mut i: usize = 0;
        proof {
            assert(scored_views(r@) =~= embedded(self@, all.take(0)));
        }
        while i < rows.len()
            invariant
                i <= rows@.len(),
                all == self@.chunks,
                tables::chunk_row_views(rows@) == all,
                scored_views(r@) == embedded(self@, all.take(i as int)),
            decreases rows@.len() - i,
        {
            proof {
                assert(tables::chunk_row_views(rows@)[i as int] == rows@[i as int]@);
                assert(all.take(i + 1).drop_last() =~= all.take(i as int));
            }
            match self.find_embedding(rows[i].content_hash.as_str()) {
                Some(k) => {
                    let es = self.embeddings();
                    assert(tables::embedding_views(es@)[k as int] == es@[k as int]@);
                    let v = blob_to_vector(&es[k].vector);
                    let ghost before = scored_views(r@);
                    let ghost shown = (rows@[i as int].id, v@);
                    r.push((rows[i].id, v));
                    proof {
                        assert(scored_views(r@) =~= before.push(shown));
                    }
                },
                None => {},
            }
            i = i + 1;
        }
        proof {
            assert(all.take(i as int) =~= all);
        }
        r
    }

    /// The full text of a chunk.
    pub fn chunk_text(&self, chunk_id: i64) -> (r: Option<String>)
        ensures
            text::opt_view(r) == text_of_chunk(self@, chunk_id),
    {
        match self.find_chunk_id(chunk_id) {
            Some(i) => {
                let rows = self.chunks();
                assert(tables::chunk_row_views(rows@)[i as int] == rows@[i as int]@);
                Some(rows[i].text.clone())
            },
            None => None,
        }
    }
}

/// The contents of a list of chunks with vectors.
pub open spec fn scored_views(s: Seq<(i64, Vec<u32>)>) -> Seq<(i64, Seq<u32>)> {
    s.map_values(|x: (i64, Vec<u32>)| (x.0, x.1@))
}

/// Those of some chunks that have a vector, each with it.
pub open spec fn embedded(t: Tables, chunks: Seq<ChunkRowView>) -> Seq<(i64, Seq<u32>)>
    decreases chunks.len(),
{
    if chunks.len() == 0 {
        Seq::empty()
    } else {
        let before = embedded(t, chunks.drop_last());
        match lists::first_index(
            t.embeddings,
            index::embeds(chunks.last().content_hash),
        ) {
            Some(k) => before.push(
                (chunks.last().id, embed::vector_of(t.embeddings[k].vector)),
            ),
            None => before,
        }
    }
}

/// The full text of a chunk.
pub open spec fn text_of_chunk(t: Tables, chunk_id: i64) -> Option<Seq<char>> {
    match lists::first_index(t.chunks, chunk_has_id(chunk_id)) {
        Some(i) => Some(t.chunks[i].text),
        None => None,
    }
}

/// The text of an optional snippet.
pub open spec fn snippet_view(s: Option<&String>) -> Option<Seq<char>> {
    match s {
        Some(s) => Some(s@),
        None => None,
    }
}

/// A ranking holds positive scores only, as many as there are up to its limit;
/// it puts no better score behind a worse one, and leaves none out that is
/// better than one it holds.
pub proof fn law_ranking(scores: Seq<(i64, u32)>, limit: nat)
    requires
        scores.len() <= usize::MAX,
    ensures
        ranked(scores, limit).len() <= limit,
        ranked(scores, limit).len() == {
            let positive = lists::chosen(scores, is_positive_score()).len();
            if positive < limit {
                positive
            } else {
                limit
            }
        },
        forall|k: int|
            0 <= k < scores.len() && 0 < (#[trigger] scores[k]).1 <= INFINITY_BITS
                ==> ranked(scores, limit).contains(scores[k]) || forall|i: int|
                0 <= i < ranked(scores, limit).len() ==> (#[trigger] ranked(scores, limit)[i]).1
                    >= scores[k].1,
        forall|i: int|
            0 <= i < ranked(scores, limit).len() ==> 0 < (#[trigger] ranked(scores, limit)[i]).1
                <= INFINITY_BITS && scores.contains(ranked(scores, limit)[i]),
        forall|i: int, j: int|
            0 <= i < j < ranked(scores, limit).len() ==> (#[trigger] ranked(scores, limit)[i]).1 >= (
            #[trigger] ranked(scores, limit)[j]).1,
{
    let kept = lists::chosen(scores, is_positive_score());
    let keys = kept.map_values(|s: (i64, u32)| score_key(s));
    lists::lemma_chosen(scores, is_positive_score());
    order::lemma_order_is_permutation(keys);
    let r = ranked(scores, limit);
    let o = order::order_of(keys);
    assert forall|i: int| 0 <= i < r.len() implies 0 < (#[trigger] r[i]).1 <= INFINITY_BITS
        && scores.contains(r[i]) by {
        assert(r[i] == kept[o[i]]);
        assert(is_positive_score()(kept[o[i]]));
    }
    assert forall|i: int, j: int| 0 <= i < j < r.len() implies (#[trigger] r[i]).1 >= (
    #[trigger] r[j]).1 by {
        order::law_order_sorts(keys, i, j);
        assert(r[i] == kept[o[i]] && r[j] == kept[o[j]]);
    }
    assert forall|k: int| 0 <= k < scores.len() && 0 < (#[trigger] scores[k]).1
        <= INFINITY_BITS implies r.contains(scores[k]) || forall|i: int|
        0 <= i < r.len() ==> (#[trigger] r[i]).1 >= scores[k].1 by {
        assert(is_positive_score()(scores[k]));
        lists::lemma_chosen_complete(scores, is_positive_score(), k);
        let q = choose|q: int| 0 <= q < kept.len() && kept[q] == scores[k];
        assert(o.contains(q));
        let m = choose|m: int| 0 <= m < o.len() && o[m] == q;
        if m < r.len() {
            assert(r[m] == kept[o[m]]);
        } else {
            assert forall|i: int| 0 <= i < r.len() implies (#[trigger] r[i]).1 >= scores[k].1 by {
                order::law_order_sorts(keys, i, m);
                assert(r[i] == kept[o[i]]);
            }
        }
    }
}

/// Whether a message of a chat has a known sender: the handle at `k` is the
/// first with the id that the message at `i` gives.
pub open spec fn is_known_sender(t: Tables, chat: i64, i: int, k: int) -> bool {
    &&& 0 <= i < t.messages.len()
    &&& 0 <= k < t.handles.len()
    &&& t.messages[i].chat_id == Some(chat)
    &&& t.messages[i].sender_id == Some(t.handles[k].id)
    &&& forall|j: int| 0 <= j < k ==> (#[trigger] t.handles[j]).id != t.handles[k].id
}

/// Whether a text is what a chat goes by: its display name, where it has one
/// that is not empty; else the name of the first of its senders that is known,
/// or the handle where the sender has no name; else its guid.
pub open spec fn goes_by(t: Tables, c: ChatView, label: Seq<char>) -> bool {
    if c.display_name is Some && c.display_name->0 != Seq::<char>::empty() {
        label == c.display_name->0
    } else {
        ||| (forall|i: int, k: int| !#[trigger] is_known_sender(t, c.id, i, k)) && label == c.guid
        ||| exists|i: int, k: int| #[trigger]
            is_known_sender(t, c.id, i, k) && (forall|a: int, b: int|
                a < i ==> !#[trigger] is_known_sender(t, c.id, a, b)) && label == (
            if t.handles[k].name is Some {
                t.handles[k].name->0
            } else {
                t.handles[k].handle
            })
    }
}

/// What a chat goes by.
pub proof fn law_what_a_chat_goes_by(t: Tables, c: ChatView)
    ensures
        goes_by(t, c, chat_label(t, c)),
{
    let p = from_participant(t.handles, c.id);
    lists::lemma_first_index(t.messages, p);
    assert forall|a: int, b: int| #[trigger] is_known_sender(t, c.id, a, b) implies p(
        t.messages[a],
    ) by {
        let q = index::handle_has_id(t.messages[a].sender_id->0);
        assert(q(t.handles[b]));
        lists::lemma_first_index(t.handles, q);
    }
    match lists::first_index(t.messages, p) {
        Some(i) => {
            let id = t.messages[i].sender_id->0;
            let q = index::handle_has_id(id);
            lists::lemma_first_index(t.handles, q);
            assert(p(t.messages[i]));
            let k = lists::first_index(t.handles, q)->0;
            assert(q(t.handles[k]));
            assert forall|j: int| 0 <= j < k implies (#[trigger] t.handles[j]).id
                != t.handles[k].id by {
                assert(!q(t.handles[j]));
            }
            assert(is_known_sender(t, c.id, i, k));
            assert forall|a: int, b: int| a < i implies !#[trigger] is_known_sender(
                t,
                c.id,
                a,
                b,
            ) by {
                if is_known_sender(t, c.id, a, b) {
                    assert(p(t.messages[a]));
                }
            }
        },
        None => {},
    }
    if c.display_name is Some && c.display_name->0.len() == 0 {
        assert(c.display_name->0 =~= Seq::<char>::empty());
    }
}

/// Whether a chunk and its chat are in the index: the chunk at `i` is the first
/// with the id, and the chat at `j` the first with the chunk's chat id.
pub open spec fn is_chunk_of(t: Tables, id: i64, i: int, j: int) -> bool {
    &&& 0 <= i < t.chunks.len()
    &&& 0 <= j < t.chats.len()
    &&& t.chunks[i].id == id
    &&& t.chats[j].id == t.chunks[i].chat_id
    &&& forall|k: int| 0 <= k < i ==> (#[trigger] t.chunks[k]).id != id
    &&& forall|k: int| 0 <= k < j ==> (#[trigger] t.chats[k]).id != t.chunks[i].chat_id
}

/// Whether a result shows a chunk: what its chat goes by, its times and how many
/// messages it holds.
pub open spec fn shows(t: Tables, h: HitView, id: i64) -> bool {
    h.chunk_id == id && exists|i: int, j: int| #[trigger]
        is_chunk_of(t, id, i, j) && goes_by(t, t.chats[j], h.chat_label) && h.started_at_ms
            == t.chunks[i].started_at_ms && h.ended_at_ms == t.chunks[i].ended_at_ms
            && h.message_count == t.chunks[i].message_count as i64
}

proof fn lemma_hit_for(t: Tables, id: i64, snippet: Option<Seq<char>>, score: Option<u32>)
    ensures
        ({
            let h = hit_for(t, id, snippet, score);
            &&& h is None <==> forall|i: int, j: int| !#[trigger] is_chunk_of(t, id, i, j)
            &&& h is Some ==> shows(t, h->0, id) && h->0.score == score
            &&& h is Some && snippet is Some ==> h->0.snippet == snippet->0
            &&& h is Some && snippet is None ==> forall|i: int, j: int| #[trigger]
                is_chunk_of(t, id, i, j) ==> h->0.snippet == text::shortened(t.chunks[i].text, 200)
        }),
{
    let p = chunk_has_id(id);
    lists::lemma_first_index(t.chunks, p);
    let h = hit_for(t, id, snippet, score);
    match lists::first_index(t.chunks, p) {
        Some(i) => {
            assert(p(t.chunks[i]));
            let q = chat_has_id(t.chunks[i].chat_id);
            lists::lemma_first_index(t.chats, q);
            assert forall|a: int, b: int| #[trigger] is_chunk_of(t, id, a, b) implies a == i && q(
                t.chats[b],
            ) by {
                assert(p(t.chunks[a]));
                if i < a {
                    assert(t.chunks[i].id != id);
                }
            }
            match lists::first_index(t.chats, q) {
                Some(j) => {
                    assert(q(t.chats[j]));
                    assert forall|k: int| 0 <= k < i implies (#[trigger] t.chunks[k]).id != id by {
                        assert(!p(t.chunks[k]));
                    }
                    assert forall|k: int| 0 <= k < j implies (#[trigger] t.chats[k]).id
                        != t.chunks[i].chat_id by {
                        assert(!q(t.chats[k]));
                    }
                    assert(is_chunk_of(t, id, i, j));
                    law_what_a_chat_goes_by(t, t.chats[j]);
                },
                None => {},
            }
        },
        None => {
            assert forall|a: int, b: int| !#[trigger] is_chunk_of(t, id, a, b) by {
                if is_chunk_of(t, id, a, b) {
                    assert(p(t.chunks[a]));
                }
            }
        },
    }
}

/// Whether the chunk with an id, and its chat, are in the index.
pub open spec fn has_chunk(t: Tables, id: i64) -> bool {
    exists|i: int, j: int| #[trigger] is_chunk_of(t, id, i, j)
}

/// The places, in a list of matches, of those that give a result.
proof fn lemma_keyword_places(t: Tables, matches: Seq<(i64, Seq<char>)>) -> (o: Seq<int>)
    ensures
        ({
            let found = keyword_results(t, matches);
            &&& o.len() == found.len()
            &&& forall|n: int|
                0 <= n < o.len() ==> 0 <= #[trigger] o[n] < matches.len() && shows(
                    t,
                    found[n],
                    matches[o[n]].0,
                ) && found[n].snippet == matches[o[n]].1 && found[n].score is None
            &&& forall|a: int, b: int|
                0 <= a < b < o.len() ==> #[trigger] o[a] < #[trigger] o[b]
            &&& forall|k: int|
                0 <= k < matches.len() && has_chunk(t, (#[trigger] matches[k]).0) ==> o.contains(k)
        }),
    decreases matches.len(),
{
    if matches.len() == 0 {
        Seq::empty()
    } else {
        let front = matches.drop_last();
        let last = matches.last();
        let o = lemma_keyword_places(t, front);
        lemma_hit_for(t, last.0, Some(last.1), None);
        let n = matches.len() - 1;
        let before = keyword_results(t, front);
        let found = keyword_results(t, matches);
        let r = if found.len() > before.len() {
            o.push(n)
        } else {
            o
        };
        assert forall|a: int| 0 <= a < r.len() implies 0 <= #[trigger] r[a] < matches.len()
            && shows(t, found[a], matches[r[a]].0) && found[a].snippet == matches[r[a]].1
            && found[a].score is None by {
            if a < o.len() {
                assert(r[a] == o[a]);
                assert(found[a] == before[a]);
                assert(front[o[a]] == matches[o[a]]);
            }
        }
        assert forall|a: int, b: int| 0 <= a < b < r.len() implies #[trigger] r[a] < #[trigger] r[b] by {
            assert(r[a] == o[a]);
            if b < o.len() {
                assert(r[b] == o[b]);
            }
        }
        assert forall|k: int| 0 <= k < matches.len() && has_chunk(
            t,
            (#[trigger] matches[k]).0,
        ) implies r.contains(k) by {
            if k < n {
                assert(front[k] == matches[k]);
                assert(o.contains(k));
                let x = choose|x: int| 0 <= x < o.len() && o[x] == k;
                assert(r[x] == k);
            } else {
                assert(r[o.len() as int] == k);
            }
        }
        r
    }
}

/// What a keyword search returns: the matches at the places `o`, in the order of
/// the engine, each with its own snippet and without a score; at most as many as
/// asked for. None that is in the index is passed over for a later one, and none
/// is left out while there is room.
pub proof fn law_search_results(t: Tables, matches: Seq<(i64, Seq<char>)>, limit: nat) -> (o: Seq<
    int,
>)
    ensures
        ({
            let found = first_of(keyword_results(t, matches), limit);
            &&& o.len() == found.len()
            &&& o.len() <= limit
            &&& forall|n: int|
                0 <= n < o.len() ==> 0 <= #[trigger] o[n] < matches.len() && shows(
                    t,
                    found[n],
                    matches[o[n]].0,
                ) && found[n].snippet == matches[o[n]].1 && found[n].score is None
            &&& forall|a: int, b: int|
                0 <= a < b < o.len() ==> #[trigger] o[a] < #[trigger] o[b]
            &&& forall|k: int|
                0 <= k < matches.len() && has_chunk(t, (#[trigger] matches[k]).0) ==> o.contains(k)
                    || (o.len() == limit && forall|n: int|
                    0 <= n < o.len() ==> #[trigger] o[n] < k)
        }),
{
    let all = lemma_keyword_places(t, matches);
    let n: int = if all.len() > limit {
        limit as int
    } else {
        all.len() as int
    };
    let o = all.take(n);
    let found = first_of(keyword_results(t, matches), limit);
    assert forall|a: int| 0 <= a < o.len() implies 0 <= #[trigger] o[a] < matches.len() && shows(
        t,
        found[a],
        matches[o[a]].0,
    ) && found[a].snippet == matches[o[a]].1 && found[a].score is None by {
        assert(o[a] == all[a]);
    }
    assert forall|k: int| 0 <= k < matches.len() && has_chunk(
        t,
        (#[trigger] matches[k]).0,
    ) implies o.contains(k) || (o.len() == limit && forall|a: int|
        0 <= a < o.len() ==> #[trigger] o[a] < k) by {
        assert(all.contains(k));
        let x = choose|x: int| 0 <= x < all.len() && all[x] == k;
        if x < n {
            assert(o[x] == k);
        } else {
            assert forall|a: int| 0 <= a < o.len() implies #[trigger] o[a] < k by {
                assert(all[a] < all[x]);
            }
        }
    }
    o
}

/// What a ranking holds: the scores at the places `o`, all different, and all of
/// them positive numbers, which are those whose bits lie above zero and up to
/// infinity's. They fall; equal ones keep their order. There are as many as there
/// are positive scores, up to the limit, and none that is left out is better.
pub proof fn law_best_scores(scores: Seq<(i64, u32)>, limit: nat) -> (o: Seq<int>)
    requires
        scores.len() <= usize::MAX,
    ensures
        o.len() == ranked(scores, limit).len(),
        o.no_duplicates(),
        ({
            let n = scores.filter(|s: (i64, u32)| 0 < s.1 <= 0x7f80_0000).len();
            o.len() == if n < limit {
                n
            } else {
                limit
            }
        }),
        forall|a: int|
            0 <= a < o.len() ==> 0 <= #[trigger] o[a] < scores.len() && ranked(scores, limit)[a]
                == scores[o[a]] && 0 < scores[o[a]].1 <= 0x7f80_0000,
        forall|a: int, b: int|
            0 <= a < b < o.len() ==> scores[#[trigger] o[a]].1 > scores[#[trigger] o[b]].1 || (
            scores[o[a]].1 == scores[o[b]].1 && o[a] < o[b]),
        forall|a: int, j: int|
            0 <= a < o.len() && 0 <= j < scores.len() && 0 < (#[trigger] scores[j]).1 <= 0x7f80_0000
                && !o.contains(j) ==> scores[#[trigger] o[a]].1 >= scores[j].1,
{
    let p = is_positive_score();
    assert(p =~= |s: (i64, u32)| 0 < s.1 <= 0x7f80_0000);
    lists::lemma_chosen_filter(scores, p);
    lists::lemma_chosen_at(scores, p);
    let at = lists::chosen_at(scores, p);
    let kept = lists::chosen(scores, p);
    let keys = kept.map_values(|s: (i64, u32)| score_key(s));
    order::lemma_order_is_permutation(keys);
    let all = order::order_of(keys);
    let n: int = if kept.len() < limit {
        kept.len() as int
    } else {
        limit as int
    };
    let o = Seq::new(n as nat, |a: int| at[all[a]]);
    assert forall|a: int| 0 <= a < o.len() implies 0 <= #[trigger] o[a] < scores.len() && ranked(
        scores,
        limit,
    )[a] == scores[o[a]] && 0 < scores[o[a]].1 <= 0x7f80_0000 by {
        assert(kept[all[a]] == scores[at[all[a]]]);
        assert(order::arranged(kept, keys)[a] == kept[all[a]]);
        assert(p(kept[all[a]]));
    }
    assert forall|a: int, b: int| 0 <= a < b < o.len() implies scores[#[trigger] o[a]].1
        > scores[#[trigger] o[b]].1 || (scores[o[a]].1 == scores[o[b]].1 && o[a] < o[b]) by {
        order::law_order_sorts(keys, a, b);
        assert(kept[all[a]] == scores[at[all[a]]]);
        assert(kept[all[b]] == scores[at[all[b]]]);
        if all[a] < all[b] {
            assert(at[all[a]] < at[all[b]]);
        }
    }
    assert forall|a: int, j: int|
        0 <= a < o.len() && 0 <= j < scores.len() && 0 < (#[trigger] scores[j]).1 <= 0x7f80_0000
            && !o.contains(j) implies scores[#[trigger] o[a]].1 >= scores[j].1 by {
        assert(p(scores[j]));
        assert(at.contains(j));
        let q = choose|q: int| 0 <= q < at.len() && at[q] == j;
        assert(all.contains(q));
        let b = choose|b: int| 0 <= b < all.len() && all[b] == q;
        if b < n {
            assert(o[b] == j);
        }
        order::law_order_sorts(keys, a, b);
        assert(kept[all[a]] == scores[at[all[a]]]);
        assert(kept[q] == scores[j]);
    }
    assert forall|a: int, b: int| 0 <= a < o.len() && 0 <= b < o.len() && a != b implies o[a]
        != o[b] by {
        assert(all[a] != all[b]);
        if all[a] < all[b] {
            assert(at[all[a]] < at[all[b]]);
        } else {
            assert(at[all[b]] < at[all[a]]);
        }
    }
    o
}

/// What a vector search shows of a ranking: the chunks at the places `o`, in the
/// order of the ranking, each with its score; of a chunk's text the first 200
/// characters, with an ellipsis where there are more. Every chunk of the ranking
/// that is in the index is shown.
pub proof fn law_vector_results(t: Tables, best: Seq<(i64, u32)>) -> (o: Seq<int>)
    ensures
        ({
            let found = vector_results(t, best);
            &&& o.len() == found.len()
            &&& forall|n: int|
                0 <= n < o.len() ==> 0 <= #[trigger] o[n] < best.len() && shows(
                    t,
                    found[n],
                    best[o[n]].0,
                ) && found[n].score == Some(best[o[n]].1)
            &&& forall|n: int, i: int, j: int|
                0 <= n < o.len() && #[trigger] is_chunk_of(t, best[#[trigger] o[n]].0, i, j) ==> if t.chunks[i].text.len()
                    > 200 {
                    found[n].snippet == t.chunks[i].text.take(200).push('…')
                } else {
                    found[n].snippet == t.chunks[i].text
                }
            &&& forall|a: int, b: int|
                0 <= a < b < o.len() ==> #[trigger] o[a] < #[trigger] o[b]
            &&& forall|k: int|
                0 <= k < best.len() && has_chunk(t, (#[trigger] best[k]).0) ==> o.contains(k)
        }),
    decreases best.len(),
{
    if best.len() == 0 {
        Seq::empty()
    } else {
        let front = best.drop_last();
        let last = best.last();
        let o = law_vector_results(t, front);
        lemma_hit_for(t, last.0, None, Some(last.1));
        let n = best.len() - 1;
        let before = vector_results(t, front);
        let found = vector_results(t, best);
        let r = if found.len() > before.len() {
            o.push(n)
        } else {
            o
        };
        assert forall|a: int| 0 <= a < r.len() implies 0 <= #[trigger] r[a] < best.len() && shows(
            t,
            found[a],
            best[r[a]].0,
        ) && found[a].score == Some(best[r[a]].1) by {
            if a < o.len() {
                assert(r[a] == o[a]);
                assert(found[a] == before[a]);
                assert(front[o[a]] == best[o[a]]);
            }
        }
        assert forall|a: int, i: int, j: int|
            0 <= a < r.len() && #[trigger] is_chunk_of(t, best[#[trigger] r[a]].0, i, j) implies if t.chunks[i].text.len()
            > 200 {
            found[a].snippet == t.chunks[i].text.take(200).push('…')
        } else {
            found[a].snippet == t.chunks[i].text
        } by {
            if a < o.len() {
                assert(r[a] == o[a]);
                assert(found[a] == before[a]);
                assert(front[o[a]] == best[o[a]]);
                assert(is_chunk_of(t, front[o[a]].0, i, j));
            }
        }
        assert forall|a: int, b: int| 0 <= a < b < r.len() implies #[trigger] r[a] < #[trigger] r[b] by {
            assert(r[a] == o[a]);
            if b < o.len() {
                assert(r[b] == o[b]);
            }
        }
        assert forall|k: int| 0 <= k < best.len() && has_chunk(
            t,
            (#[trigger] best[k]).0,
        ) implies r.contains(k) by {
            if k < n {
                assert(front[k] == best[k]);
                assert(o.contains(k));
                let x = choose|x: int| 0 <= x < o.len() && o[x] == k;
                assert(r[x] == k);
            } else {
                assert(r[o.len() as int] == k);
            }
        }
        r
    }
}

/// The vectors that a search compares: those of the chunks at the places `o`,
/// which are all that have one, in their order, each with the first vector that
/// is stored for the hash of the chunk's text.
pub proof fn law_vectors_of_chunks(t: Tables, chunks: Seq<ChunkRowView>) -> (o: Seq<int>)
    ensures
        ({
            let found = embedded(t, chunks);
            &&& o.len() == found.len()
            &&& forall|n: int|
                0 <= n < o.len() ==> 0 <= #[trigger] o[n] < chunks.len() && found[n].0
                    == chunks[o[n]].id && exists|k: int|
                    0 <= k < t.embeddings.len() && (#[trigger] t.embeddings[k]).chunk_hash
                        == chunks[o[n]].content_hash && found[n].1 == embed::vector_of(
                        t.embeddings[k].vector,
                    ) && forall|x: int|
                        0 <= x < k ==> (#[trigger] t.embeddings[x]).chunk_hash
                            != chunks[o[n]].content_hash
            &&& forall|a: int, b: int|
                0 <= a < b < o.len() ==> #[trigger] o[a] < #[trigger] o[b]
            &&& forall|c: int, k: int|
                0 <= c < chunks.len() && 0 <= k < t.embeddings.len() && (
                #[trigger] t.embeddings[k]).chunk_hash == (#[trigger] chunks[c]).content_hash
                    ==> o.contains(c)
        }),
    decreases chunks.len(),
{
    if chunks.len() == 0 {
        Seq::empty()
    } else {
        let front = chunks.drop_last();
        let last = chunks.last();
        let o = law_vectors_of_chunks(t, front);
        let n = chunks.len() - 1;
        let p = index::embeds(last.content_hash);
        lists::lemma_first_index(t.embeddings, p);
        let before = embedded(t, front);
        let found = embedded(t, chunks);
        let r = if lists::first_index(t.embeddings, p) is Some {
            o.push(n)
        } else {
            o
        };
        assert forall|a: int| 0 <= a < r.len() implies 0 <= #[trigger] r[a] < chunks.len()
            && found[a].0 == chunks[r[a]].id && exists|k: int|
            0 <= k < t.embeddings.len() && (#[trigger] t.embeddings[k]).chunk_hash
                == chunks[r[a]].content_hash && found[a].1 == embed::vector_of(
                t.embeddings[k].vector,
            ) && forall|x: int|
                0 <= x < k ==> (#[trigger] t.embeddings[x]).chunk_hash
                    != chunks[r[a]].content_hash by {
            if a < o.len() {
                assert(r[a] == o[a]);
                assert(found[a] == before[a]);
                assert(front[o[a]] == chunks[o[a]]);
            } else {
                let k = lists::first_index(t.embeddings, p)->0;
                assert(p(t.embeddings[k]));
                assert forall|x: int| 0 <= x < k implies (#[trigger] t.embeddings[x]).chunk_hash
                    != chunks[r[a]].content_hash by {
                    assert(!p(t.embeddings[x]));
                }
                assert(t.embeddings[k].chunk_hash == chunks[r[a]].content_hash);
            }
        }
        assert forall|a: int, b: int| 0 <= a < b < r.len() implies #[trigger] r[a] < #[trigger] r[b] by {
            assert(r[a] == o[a]);
            if b < o.len() {
                assert(r[b] == o[b]);
            }
        }
        assert forall|c: int, k: int|
            0 <= c < chunks.len() && 0 <= k < t.embeddings.len() && (
            #[trigger] t.embeddings[k]).chunk_hash == (
            #[trigger] chunks[c]).content_hash implies r.contains(c) by {
            if c < n {
                assert(front[c] == chunks[c]);
                assert(o.contains(c));
                let x = choose|x: int| 0 <= x < o.len() && o[x] == c;
                assert(r[x] == c);
            } else {
                assert(p(t.embeddings[k]));
                assert(r[o.len() as int] == c);
            }
        }
        r
    }
}

/// The full text of a chunk is that of the first chunk with its id; there is
/// none where no chunk has it.
pub proof fn law_text_of_a_chunk(t: Tables, i: int)
    requires
        0 <= i < t.chunks.len(),
        forall|k: int| 0 <= k < i ==> (#[trigger] t.chunks[k]).id != t.chunks[i].id,
    ensures
        text_of_chunk(t, t.chunks[i].id) == Some(t.chunks[i].text),
{
    lists::lemma_is_first_index(t.chunks, chunk_has_id(t.chunks[i].id), i);
}

/// A word between quotes, each quote in it written twice.
pub open spec fn in_quotes(word: Seq<char>) -> Seq<char> {
    seq!['"'] + word.fold_left(
        Seq::<char>::empty(),
        |acc: Seq<char>, c: char|
            if c == '"' {
                acc + seq!['"', '"']
            } else {
                acc.push(c)
            },
    ) + seq!['"']
}

/// What the full-text engine is asked: every word of the text, in order, each
/// between quotes, with one space between them. So none of them is left out, and
/// none of them can be read as an operator.
pub proof fn law_what_the_engine_is_asked(query: Seq<char>)
    ensures
        text::words(query).len() == 0 ==> fts_query(query) == Seq::<char>::empty(),
        text::words(query).len() > 0 ==> ({
            let parts = text::words(query).map_values(|w: Seq<char>| in_quotes(w));
            fts_query(query) == parts.drop_first().fold_left(
                parts[0],
                |acc: Seq<char>, p: Seq<char>| acc + " "@ + p,
            )
        }),
{
    let ws = text::words(query);
    let parts = ws.map_values(|w: Seq<char>| in_quotes(w));
    let terms = ws.map_values(|t: Seq<char>| quoted(t));
    reveal_strlit("\"");
    reveal_strlit("\"\"");
    assert("\""@ =~= seq!['"']);
    assert("\"\""@ =~= seq!['"', '"']);
    assert forall|i: int| 0 <= i < ws.len() implies parts[i] == terms[i] by {
        text::law_replacing(ws[i], '"', "\"\""@);
        assert((|acc: Seq<char>, x: char|
            if x == '"' {
                acc + "\"\""@
            } else {
                acc.push(x)
            }) =~= (|acc: Seq<char>, c: char|
            if c == '"' {
                acc + seq!['"', '"']
            } else {
                acc.push(c)
            }));
    }
    assert(parts =~= terms);
    if ws.len() > 0 {
        text::law_joining(terms, " "@);
    }
}

} // verus!
