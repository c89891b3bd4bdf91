//! Messages in normalized form, independent of Apple's database schema.
use crate::digest;
use crate::digest::{hex_digest, push_terminated};
use crate::numeric;
use crate::time;
use crate::time::UtcTime;
use vstd::prelude::*;
use vstd::utf8::*;

verus! {

/// Where a message's text came from during extraction.
#[derive(Debug, Clone, Copy, PartialEq, Eq, Structural)]
pub enum TextSource {
    /// The plain `message.text` column.
    TextColumn,
    /// Recovered from the `message.attributedBody` typedstream blob.
    AttributedBody,
    /// No text was found in either location.
    Absent,
}

/// The style of a group chat.
pub const CHAT_STYLE_GROUP: i64 = 43;

/// The style of a direct chat.
pub const CHAT_STYLE_DIRECT: i64 = 45;

/// A message extracted from the Apple Messages database.
#[derive(Debug, Clone)]
pub struct ExtractedMessage {
    pub rowid: i64,
    pub guid: String,
    pub chat_guid: Option<String>,
    pub chat_style: Option<i64>,
    pub chat_display_name: Option<String>,
    pub sender_handle: Option<String>,
    pub is_from_me: bool,
    pub sent_at: Option<UtcTime>,
    pub text: Option<String>,
    pub text_source: TextSource,
    pub service: Option<String>,
    pub reply_to_guid: Option<String>,
    pub edited_at: Option<UtcTime>,
    pub retracted_at: Option<UtcTime>,
    /// True for tapbacks and reactions (associated types 2000 to 3999).
    pub is_tapback: bool,
    /// The raw `associated_message_type`, when present and non-zero. Tells
    /// the kinds of reaction (2000 loved, 2001 liked, ...) and their removals
    /// (3000 and up) apart.
    pub associated_type: Option<i64>,
    /// True for items that are no messages, such as group membership changes.
    pub is_system_event: bool,
}

/// The text of an optional string; empty when there is none.
pub open spec fn text_or_empty(s: Option<String>) -> Seq<char> {
    match s {
        Some(s) => s@,
        None => Seq::empty(),
    }
}

/// The RFC 3339 text of an optional instant; empty when there is none.
pub open spec fn time_or_empty(t: Option<UtcTime>) -> Seq<char> {
    match t {
        Some(t) => t.text(),
        None => Seq::empty(),
    }
}

/// Whether an optional instant, if it is there, is told from every other by its
/// text.
pub open spec fn time_spelled(t: Option<UtcTime>) -> bool {
    t matches Some(t) ==> t.spelled()
}

fn push_time(out: &mut Vec<u8>, t: &Option<UtcTime>)
    ensures
        time_spelled(*t),
        final(out)@ == old(out)@ + encode_utf8(time_or_empty(*t)) + seq![0u8],
{
    match t {
        Some(t) => {
            let s = t.to_rfc3339();
            push_terminated(out, s.as_str());
        },
        None => {
            let s = String::new();
            push_terminated(out, s.as_str());
        },
    }
}

impl ExtractedMessage {
    /// The fields that make up a message's content.
    pub open spec fn content(self) -> Seq<Seq<char>> {
        seq![
            self.guid@,
            text_or_empty(self.text),
            time_or_empty(self.edited_at),
            time_or_empty(self.retracted_at),
        ]
    }

    /// Whether the message belongs to a group chat; `None` when it is not
    /// linked to a chat or the style is unknown.
    pub open spec fn group(self) -> Option<bool> {
        if self.chat_style == Some(CHAT_STYLE_GROUP) {
            Some(true)
        } else if self.chat_style == Some(CHAT_STYLE_DIRECT) {
            Some(false)
        } else {
            None
        }
    }

    /// `Some(true)` for group chats, `Some(false)` for direct chats, `None`
    /// when the message is not linked to a chat or the style is unknown.
    pub fn is_group_chat(&self) -> (r: Option<bool>)
        ensures
            r == self.group(),
    {
        match self.chat_style {
            Some(style) => if style == CHAT_STYLE_GROUP {
                Some(true)
            } else if style == CHAT_STYLE_DIRECT {
                Some(false)
            } else {
                None
            },
            None => None,
        }
    }

    /// Whether the times of the message are told from every other by their
    /// texts.
    pub open spec fn spelled(self) -> bool {
        time_spelled(self.edited_at) && time_spelled(self.retracted_at)
    }

    /// Stable hash of the message content, by which edits and retractions are
    /// noticed without comparing full bodies.
    pub fn content_hash(&self) -> (r: String)
        ensures
            r@ == digest::hex_digest_of(digest::terminated(self.content())),
            digest::is_hash(r@),
            self.spelled(),
    {
        let mut bytes: Vec<u8> = Vec::new();
        push_terminated(&mut bytes, self.guid.as_str());
        match &self.text {
            Some(t) => push_terminated(&mut bytes, t.as_str()),
            None => {
                let empty = String::new();
                push_terminated(&mut bytes, empty.as_str())
            },
        }
        push_time(&mut bytes, &self.edited_at);
        push_time(&mut bytes, &self.retracted_at);
        proof {
            let c = self.content();
            lemma_terminated_four(c[0], c[1], c[2], c[3]);
            assert(c =~= seq![c[0], c[1], c[2], c[3]]);
            assert(bytes@ =~= digest::terminated(c));
        }
        hex_digest(&bytes)
    }
}

proof fn lemma_terminated_four(a: Seq<char>, b: Seq<char>, c: Seq<char>, d: Seq<char>)
    ensures
        digest::terminated(seq![a, b, c, d]) == encode_utf8(a) + seq![0u8] + encode_utf8(b)
            + seq![0u8] + encode_utf8(c) + seq![0u8] + encode_utf8(d) + seq![0u8],
{
    let s4 = seq![a, b, c, d];
    let s3 = seq![b, c, d];
    let s2 = seq![c, d];
    let s1 = seq![d];
    assert(s4.drop_first() =~= s3);
    assert(s3.drop_first() =~= s2);
    assert(s2.drop_first() =~= s1);
    assert(s1.drop_first() =~= Seq::<Seq<char>>::empty());
    assert(digest::terminated(Seq::<Seq<char>>::empty()) =~= Seq::<u8>::empty());
    assert(digest::terminated(s1) =~= encode_utf8(d) + seq![0u8]);
    assert(digest::terminated(s2) =~= encode_utf8(c) + seq![0u8] + encode_utf8(d) + seq![0u8]);
    assert(digest::terminated(s3) =~= encode_utf8(b) + seq![0u8] + encode_utf8(c) + seq![0u8]
        + encode_utf8(d) + seq![0u8]);
    assert(digest::terminated(s4) =~= encode_utf8(a) + seq![0u8] + encode_utf8(b) + seq![0u8]
        + encode_utf8(c) + seq![0u8] + encode_utf8(d) + seq![0u8]);
}

/// Messages with the same content have the same hash, whatever their other
/// fields.
pub proof fn law_content_hash_is_stable(a: ExtractedMessage, b: ExtractedMessage)
    requires
        a.guid@ == b.guid@,
        text_or_empty(a.text) == text_or_empty(b.text),
        a.edited_at == b.edited_at,
        a.retracted_at == b.retracted_at,
    ensures
        digest::terminated(a.content()) == digest::terminated(b.content()),
{
}

/// The bytes that are hashed tell messages apart: where no field holds a NUL,
/// equal bytes mean equal guids, texts, edit times and retraction times. So a
/// changed text, edit time or retraction time always changes what is hashed,
/// and field boundaries cannot collide.
pub proof fn law_hashed_bytes_tell_content(a: ExtractedMessage, b: ExtractedMessage)
    requires
        forall|i: int| 0 <= i < 4 ==> !(#[trigger] a.content()[i]).contains('\0'),
        forall|i: int| 0 <= i < 4 ==> !(#[trigger] b.content()[i]).contains('\0'),
        digest::terminated(a.content()) == digest::terminated(b.content()),
    ensures
        a.guid@ == b.guid@,
        text_or_empty(a.text) == text_or_empty(b.text),
        time_or_empty(a.edited_at) == time_or_empty(b.edited_at),
        time_or_empty(a.retracted_at) == time_or_empty(b.retracted_at),
{
    digest::law_terminated_injective(a.content(), b.content());
    assert(a.content()[0] == b.content()[0]);
    assert(a.content()[1] == b.content()[1]);
    assert(a.content()[2] == b.content()[2]);
    assert(a.content()[3] == b.content()[3]);
}

/// Two messages have the same hash exactly when their guids, texts, edit times
/// and retraction times are the same, where neither guid nor text holds a NUL
/// and their bytes do not collide under SHA-256. That times are told by their
/// texts holds of every message that was hashed.
pub proof fn law_content_hash_tells_content(a: ExtractedMessage, b: ExtractedMessage)
    requires
        a.spelled(),
        b.spelled(),
        !a.guid@.contains('\0'),
        !b.guid@.contains('\0'),
        !text_or_empty(a.text).contains('\0'),
        !text_or_empty(b.text).contains('\0'),
        digest::sha256(digest::terminated(a.content())) == digest::sha256(
            digest::terminated(b.content()),
        ) ==> digest::terminated(a.content()) == digest::terminated(b.content()),
    ensures
        digest::hex_digest_of(digest::terminated(a.content())) == digest::hex_digest_of(
            digest::terminated(b.content()),
        ) <==> {
            &&& a.guid@ == b.guid@
            &&& text_or_empty(a.text) == text_or_empty(b.text)
            &&& a.edited_at == b.edited_at
            &&& a.retracted_at == b.retracted_at
        },
{
    let x = digest::terminated(a.content());
    let y = digest::terminated(b.content());
    lemma_no_nul(a);
    lemma_no_nul(b);
    if digest::hex_digest_of(x) == digest::hex_digest_of(y) {
        numeric::lemma_hex_injective(digest::sha256(x), digest::sha256(y));
        law_hashed_bytes_tell_content(a, b);
        lemma_same_time(a.edited_at, b.edited_at);
        lemma_same_time(a.retracted_at, b.retracted_at);
    }
}

proof fn lemma_no_nul(m: ExtractedMessage)
    requires
        m.spelled(),
        !m.guid@.contains('\0'),
        !text_or_empty(m.text).contains('\0'),
    ensures
        forall|i: int| 0 <= i < 4 ==> !(#[trigger] m.content()[i]).contains('\0'),
{
    assert(!time_or_empty(m.edited_at).contains('\0'));
    assert(!time_or_empty(m.retracted_at).contains('\0'));
}

proof fn lemma_same_time(a: Option<UtcTime>, b: Option<UtcTime>)
    requires
        time_spelled(a),
        time_spelled(b),
        time_or_empty(a) == time_or_empty(b),
    ensures
        a == b,
{
    match (a, b) {
        (Some(s), Some(t)) => time::law_instants_differ_in_text(s, t),
        _ => {},
    }
}

/// Whether two texts are the same; no text counts as an empty one.
pub open spec fn same_text(a: Option<String>, b: Option<String>) -> bool {
    match (a, b) {
        (Some(s), Some(t)) => s@ == t@,
        (Some(s), None) => s@ == Seq::<char>::empty(),
        (None, Some(t)) => t@ == Seq::<char>::empty(),
        (None, None) => true,
    }
}

/// An edit and a retraction change the hash, and nothing else does: two states of
/// one message have the same hash exactly when text, edit time and retraction time
/// are the same, whatever has become of its row, its chat, its sender, its service
/// or its flags, where neither guid nor text holds a NUL and their bytes do not
/// collide under SHA-256.
pub proof fn law_what_changes_the_hash(a: ExtractedMessage, b: ExtractedMessage)
    requires
        a.spelled(),
        b.spelled(),
        a.guid@ == b.guid@,
        !a.guid@.contains('\0'),
        a.text is Some ==> !a.text->0@.contains('\0'),
        b.text is Some ==> !b.text->0@.contains('\0'),
        digest::sha256(digest::terminated(a.content())) == digest::sha256(
            digest::terminated(b.content()),
        ) ==> digest::terminated(a.content()) == digest::terminated(b.content()),
    ensures
        digest::hex_digest_of(digest::terminated(a.content())) == digest::hex_digest_of(
            digest::terminated(b.content()),
        ) <==> same_text(a.text, b.text) && a.edited_at == b.edited_at && a.retracted_at
            == b.retracted_at,
{
    law_content_hash_tells_content(a, b);
    if same_text(a.text, b.text) {
        assert(text_or_empty(a.text) =~= text_or_empty(b.text));
    }
}

/// Which chats are groups: those of style 43; those of style 45 are direct, and of
/// any other nothing is known.
pub proof fn law_which_chats_are_groups(m: ExtractedMessage)
    ensures
        m.group() == Some(true) <==> m.chat_style == Some(43i64),
        m.group() == Some(false) <==> m.chat_style == Some(45i64),
{
}

} // verus!
