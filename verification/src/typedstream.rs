//! Message text in Apple `typedstream` blobs.
//!
//! Recent versions of Messages often leave the `message.text` column empty
//! and keep the body only in `message.attributedBody`, an attributed string
//! serialized in the NeXT-era typedstream format. The body is the first
//! `NSString` (or `NSMutableString`) value of the stream: the class
//! declaration is followed, within a few bytes, by the string marker `+`, a
//! length, and that many bytes of UTF-8. Everything after it is ignored.
//!
//! A length is one byte below 0x80, or 0x81 and a little-endian u16, or 0x82
//! and a little-endian u32.
use crate::text::from_utf8;
use vstd::prelude::*;
use vstd::slice::*;
use vstd::utf8::*;

verus! {

/// Every typedstream blob starts with a version byte (4) and the
/// length-prefixed ASCII string "streamtyped".
pub const STREAMTYPED_HEADER: [u8; 13] = [
    0x04, 0x0b, 0x73, 0x74, 0x72, 0x65, 0x61, 0x6d, 0x74, 0x79, 0x70, 0x65, 0x64,
];

/// `+`, which precedes a length-prefixed string.
pub const STRING_VALUE_MARKER: u8 = 0x2b;

/// How far past the class name the string value marker is looked for.
pub const MARKER_SCAN_WINDOW: usize = 24;

/// "NSString"
pub const STRING_CLASS: [u8; 8] = [
    0x4e, 0x53, 0x53, 0x74, 0x72, 0x69, 0x6e, 0x67,
];

/// "NSMutableString"
pub const MUTABLE_STRING_CLASS: [u8; 15] = [
    0x4e, 0x53, 0x4d, 0x75, 0x74, 0x61, 0x62, 0x6c, 0x65, 0x53, 0x74, 0x72, 0x69, 0x6e, 0x67,
];

/// What stands before the length in an encoded body: the header, the
/// declarations of `NSAttributedString` and `NSObject`, that of `NSString`,
/// and the string value marker.
pub const PREAMBLE: [u8; 73] = [
    0x04, 0x0b, 0x73, 0x74, 0x72, 0x65, 0x61, 0x6d, 0x74, 0x79, 0x70, 0x65, 0x64, 0x81, 0xe8,
    0x03, 0x84, 0x01, 0x40, 0x84, 0x84, 0x84, 0x12, 0x4e, 0x53, 0x41, 0x74, 0x74, 0x72, 0x69,
    0x62, 0x75, 0x74, 0x65, 0x64, 0x53, 0x74, 0x72, 0x69, 0x6e, 0x67, 0x00, 0x84, 0x84, 0x08,
    0x4e, 0x53, 0x4f, 0x62, 0x6a, 0x65, 0x63, 0x74, 0x00, 0x85, 0x92, 0x84, 0x84, 0x84, 0x08,
    0x4e, 0x53, 0x53, 0x74, 0x72, 0x69, 0x6e, 0x67, 0x01, 0x94, 0x84, 0x01, 0x2b,
];

/// What stands after the text in an encoded body: the start of its attribute
/// runs.
pub const TRAILER: [u8; 5] = [0x86, 0x84, 0x02, 0x69, 0x49];

/// Whether `needle` stands in `haystack` at index `i`.
pub open spec fn occurs_at(haystack: Seq<u8>, needle: Seq<u8>, i: int) -> bool {
    0 <= i && i + needle.len() <= haystack.len() && haystack.subrange(i, i + needle.len())
        == needle
}

/// Whether `i` is the first index at which `needle` stands in `haystack`.
pub open spec fn occurs_first_at(haystack: Seq<u8>, needle: Seq<u8>, i: int) -> bool {
    occurs_at(haystack, needle, i) && forall|j: int| j < i ==> !occurs_at(haystack, needle, j)
}

/// The first index at which `needle` stands in `haystack`.
pub open spec fn first_occurrence(haystack: Seq<u8>, needle: Seq<u8>) -> Option<int> {
    if exists|i: int| occurs_first_at(haystack, needle, i) {
        Some(choose|i: int| occurs_first_at(haystack, needle, i))
    } else {
        None
    }
}

/// The number that `lo` and the bytes above it stand for, little-endian.
pub open spec fn u16_le(lo: u8, hi: u8) -> nat {
    (lo + 256 * hi) as nat
}

/// A little-endian 32-bit number.
pub open spec fn u32_le(b0: u8, b1: u8, b2: u8, b3: u8) -> nat {
    (b0 + 256 * b1 + 65536 * b2 + 16777216 * b3) as nat
}

/// The length that `bytes` begin with, and how many bytes it takes.
pub open spec fn length_of(bytes: Seq<u8>) -> Option<(nat, nat)> {
    if bytes.len() >= 1 && bytes[0] < 0x80 {
        Some((bytes[0] as nat, 1))
    } else if bytes.len() >= 3 && bytes[0] == 0x81 {
        Some((u16_le(bytes[1], bytes[2]), 3))
    } else if bytes.len() >= 5 && bytes[0] == 0x82 {
        Some((u32_le(bytes[1], bytes[2], bytes[3], bytes[4]), 5))
    } else {
        None
    }
}

/// Where the name of the string's class ends.
pub open spec fn class_end(blob: Seq<u8>) -> Option<int> {
    match first_occurrence(blob, STRING_CLASS@) {
        Some(i) => Some(i + 8),
        None => match first_occurrence(blob, MUTABLE_STRING_CLASS@) {
            Some(i) => Some(i + 15),
            None => None,
        },
    }
}

/// Whether `m` is the first string value marker in the scan window that
/// begins at `from`.
pub open spec fn marks_value(blob: Seq<u8>, from: int, m: int) -> bool {
    &&& from <= m < from + MARKER_SCAN_WINDOW
    &&& m < blob.len()
    &&& blob[m] == STRING_VALUE_MARKER
    &&& forall|j: int| from <= j < m ==> blob[j] != STRING_VALUE_MARKER
}

/// The text that follows the string value marker at `m`.
pub open spec fn value_text(blob: Seq<u8>, m: int) -> Option<Seq<char>> {
    match length_of(blob.skip(m + 1)) {
        Some((len, used)) => {
            let start = m + 1 + used;
            if start + len <= blob.len() && valid_utf8(blob.subrange(start, start + len)) {
                Some(decode_utf8(blob.subrange(start, start + len)))
            } else {
                None
            }
        },
        None => None,
    }
}

/// The body that a blob holds.
pub open spec fn body_of(blob: Seq<u8>) -> Option<Seq<char>> {
    if !(STREAMTYPED_HEADER@.is_prefix_of(blob)) {
        None
    } else {
        match class_end(blob) {
            Some(from) => if exists|m: int| marks_value(blob, from, m) {
                value_text(blob, choose|m: int| marks_value(blob, from, m))
            } else {
                None
            },
            None => None,
        }
    }
}

/// The bytes of a length as the encoder writes it; of a length that takes
/// more than 32 bits, the low 32.
pub open spec fn length_bytes(len: nat) -> Seq<u8> {
    if len < 0x80 {
        seq![len as u8]
    } else if len <= 0xffff {
        seq![0x81u8, (len % 256) as u8, (len / 256) as u8]
    } else {
        seq![
            0x82u8,
            (len % 256) as u8,
            (len / 256 % 256) as u8,
            (len / 65536 % 256) as u8,
            (len / 16777216 % 256) as u8,
        ]
    }
}

/// The blob that holds the body `s`.
pub open spec fn encoded(s: Seq<char>) -> Seq<u8> {
    PREAMBLE@ + length_bytes(encode_utf8(s).len()) + encode_utf8(s) + TRAILER@
}

/// A first occurrence is unique.
proof fn lemma_first_occurrence(haystack: Seq<u8>, needle: Seq<u8>, i: int)
    requires
        occurs_first_at(haystack, needle, i),
    ensures
        first_occurrence(haystack, needle) == Some(i),
{
    let k = choose|k: int| occurs_first_at(haystack, needle, k);
    assert(occurs_first_at(haystack, needle, k));
    if k < i {
        assert(!occurs_at(haystack, needle, k));
    }
    if i < k {
        assert(!occurs_at(haystack, needle, i));
    }
}

fn matches_at(haystack: &[u8], needle: &[u8], at: usize) -> (r: bool)
    requires
        at + needle@.len() <= haystack@.len(),
    ensures
        r == occurs_at(haystack@, needle@, at as int),
{
    let size: usize = haystack.len();
    let mut k: usize = 0;
    while k < needle.len()
        invariant
            k <= needle@.len(),
            at + needle@.len() <= haystack@.len() == size,
            forall|j: int| 0 <= j < k ==> haystack@[at + j] == needle@[j],
        decreases needle@.len() - k,
    {
        if haystack[at + k] != needle[k] {
            proof {
                assert(haystack@.subrange(at as int, at + needle@.len())[k as int] != needle@[k as int]);
            }
            return false;
        }
        k = k + 1;
    }
    proof {
        assert(haystack@.subrange(at as int, at + needle@.len()) =~= needle@);
    }
    true
}

/// The first index at which `needle` stands in `haystack`.
pub fn find_subsequence(haystack: &[u8], needle: &[u8]) -> (r: Option<usize>)
    requires
        needle@.len() > 0,
    ensures
        r is Some <==> first_occurrence(haystack@, needle@) is Some,
        r matches Some(i) ==> first_occurrence(haystack@, needle@) == Some(i as int)
            && occurs_first_at(haystack@, needle@, i as int),
{
    let mut i: usize = 0;
    while i < haystack.len()
        invariant
            i <= haystack@.len(),
            forall|j: int| j < i ==> !occurs_at(haystack@, needle@, j),
        decreases haystack@.len() - i,
    {
        if haystack.len() - i >= needle.len() && matches_at(haystack, needle, i) {
            proof {
                lemma_first_occurrence(haystack@, needle@, i as int);
            }
            return Some(i);
        }
        i = i + 1;
    }
    proof {
        assert forall|j: int| !occurs_first_at(haystack@, needle@, j) by {
            if occurs_at(haystack@, needle@, j) {
                assert(j < i);
            }
        }
    }
    None
}

/// Reads the length that `bytes` begin with: the length, and how many bytes
/// it takes. `None` for a reserved marker or a length that is cut short.
pub fn decode_length(bytes: &[u8]) -> (r: Option<(usize, usize)>)
    ensures
        r is Some <==> length_of(bytes@) is Some,
        r matches Some((len, used)) ==> length_of(bytes@) == Some((len as nat, used as nat)),
{
    if bytes.len() == 0 {
        return None;
    }
    let first: u8 = bytes[0];
    if first < 0x80 {
        Some((first as usize, 1))
    } else if first == 0x81 && bytes.len() >= 3 {
        Some((bytes[1] as usize + 256 * bytes[2] as usize, 3))
    } else if first == 0x82 && bytes.len() >= 5 {
        Some((
            bytes[1] as usize + 256 * bytes[2] as usize + 65536 * bytes[3] as usize + 16777216
                * bytes[4] as usize,
            5,
        ))
    } else {
        None
    }
}

/// Extracts the plain-text body from an `attributedBody` typedstream blob.
///
/// `None` if the blob is not a typedstream, contains no string, or is
/// malformed or truncated.
pub fn extract_text(blob: &[u8]) -> (r: Option<String>)
    ensures
        r is Some <==> body_of(blob@) is Some,
        r matches Some(s) ==> body_of(blob@) == Some(s@),
{
    if blob.len() < STREAMTYPED_HEADER.len() || !matches_at(blob, &STREAMTYPED_HEADER, 0) {
        proof {
            if STREAMTYPED_HEADER@.is_prefix_of(blob@) {
                assert(blob@.subrange(0, 13) =~= STREAMTYPED_HEADER@);
            }
        }
        return None;
    }
    proof {
        assert(STREAMTYPED_HEADER@.is_prefix_of(blob@)) by {
            assert(blob@.subrange(0, 13) == STREAMTYPED_HEADER@);
            assert forall|k: int| 0 <= k < 13 implies STREAMTYPED_HEADER@[k] == blob@[k] by {
                assert(blob@.subrange(0, 13)[k] == blob@[k]);
            }
        }
    }
    let from: usize = match find_subsequence(blob, &STRING_CLASS) {
        Some(i) => i + 8,
        None => match find_subsequence(blob, &MUTABLE_STRING_CLASS) {
            Some(i) => i + 15,
            None => {
                return None;
            },
        },
    };
    assert(class_end(blob@) == Some(from as int));
    assert(from <= blob@.len());
    let window_end: usize = if blob.len() - from < MARKER_SCAN_WINDOW {
        blob.len()
    } else {
        from + MARKER_SCAN_WINDOW
    };
    let mut marker: usize = from;
    while marker < window_end && blob[marker] != STRING_VALUE_MARKER
        invariant
            from <= marker <= window_end <= blob@.len(),
            forall|j: int| from <= j < marker ==> blob@[j] != STRING_VALUE_MARKER,
        decreases window_end - marker,
    {
        marker = marker + 1;
    }
    if marker == window_end {
        assert(forall|m: int| !marks_value(blob@, from as int, m));
        return None;
    }
    proof {
        assert(marks_value(blob@, from as int, marker as int));
        let m = choose|m: int| marks_value(blob@, from as int, m);
        assert(marks_value(blob@, from as int, m));
        assert(m == marker);
    }
    let rest = slice_subrange(blob, marker + 1, blob.len());
    proof {
        assert(rest@ =~= blob@.skip(marker + 1));
    }
    match decode_length(rest) {
        None => None,
        Some((len, used)) => {
            let start: usize = marker + 1 + used;
            if len > blob.len() - start {
                return None;
            }
            let bytes = slice_subrange(blob, start, start + len);
            let r = from_utf8(bytes);
            proof {
                if r is Some {
                    encode_utf8_decode_utf8(r->0@);
                }
            }
            r
        },
    }
}

/// Appends the bytes of a length.
fn encode_length(len: usize, out: &mut Vec<u8>)
    ensures
        final(out)@ == old(out)@ + length_bytes(len as nat),
{
    let ghost before = out@;
    let n: u64 = len as u64;
    if n < 0x80 {
        out.push(n as u8);
    } else if n <= 0xffff {
        out.push(0x81);
        out.push((n % 256) as u8);
        out.push((n / 256) as u8);
    } else {
        out.push(0x82);
        out.push((n % 256) as u8);
        out.push((n / 256 % 256) as u8);
        out.push((n / 65536 % 256) as u8);
        out.push((n / 16777216 % 256) as u8);
    }
    proof {
        assert(out@ =~= before + length_bytes(len as nat));
    }
}

/// Encodes a message body as a typedstream blob with the layout that
/// `attributedBody` blobs have; the counterpart of [`extract_text`].
pub fn encode_text(body: &str) -> (r: Vec<u8>)
    ensures
        r@ == encoded(body@),
{
    let mut out: Vec<u8> = Vec::new();
    out.extend_from_slice(&PREAMBLE);
    encode_length(body.as_bytes().len(), &mut out);
    out.extend_from_slice(body.as_bytes());
    out.extend_from_slice(&TRAILER);
    proof {
        assert(out@ =~= encoded(body@));
    }
    out
}

/// A length written by the encoder reads back, whatever follows it.
pub proof fn law_length_round_trip(len: nat, rest: Seq<u8>)
    requires
        len <= u32::MAX,
    ensures
        length_of(length_bytes(len) + rest) == Some((len, length_bytes(len).len())),
{
    let b = length_bytes(len) + rest;
    if len < 0x80 {
        assert(b[0] == len as u8);
    } else if len <= 0xffff {
        assert(b[0] == 0x81 && b[1] == (len % 256) as u8 && b[2] == (len / 256) as u8);
    } else {
        assert(b[0] == 0x82 && b[1] == (len % 256) as u8 && b[2] == (len / 256 % 256) as u8 && b[3]
            == (len / 65536 % 256) as u8 && b[4] == (len / 16777216 % 256) as u8);
    }
}

/// In an encoded body "NSString" first stands right before the five bytes
/// that end the preamble.
proof fn lemma_class_in_encoded(blob: Seq<u8>)
    requires
        PREAMBLE@.is_prefix_of(blob),
    ensures
        occurs_first_at(blob, STRING_CLASS@, 60),
{
    let p = PREAMBLE@;
    assert(forall|j: int| 0 <= j < 73 ==> blob[j] == #[trigger] p[j]);
    assert(blob.subrange(60, 68) =~= STRING_CLASS@);
    assert forall|j: int| j < 60 implies !occurs_at(blob, STRING_CLASS@, j) by {
        if occurs_at(blob, STRING_CLASS@, j) {
            let w = blob.subrange(j, j + 8);
            assert(w[0] == blob[j] && w[2] == blob[j + 2]);
            assert(p[j] == 0x4e && p[j + 2] == 0x53);
        }
    }
}

/// What a blob that begins as the encoder begins it leads to: the string value
/// marker that ends the preamble, and what follows that.
proof fn lemma_after_preamble(blob: Seq<u8>)
    requires
        PREAMBLE@.is_prefix_of(blob),
    ensures
        body_of(blob) == value_text(blob, 72),
{
    let p = PREAMBLE@;
    assert(forall|j: int| 0 <= j < 73 ==> blob[j] == #[trigger] p[j]);
    assert(STREAMTYPED_HEADER@.is_prefix_of(blob)) by {
        assert(forall|j: int| 0 <= j < 13 ==> STREAMTYPED_HEADER@[j] == p[j]);
    }
    lemma_class_in_encoded(blob);
    lemma_first_occurrence(blob, STRING_CLASS@, 60);
    assert(p[68] == 0x01 && p[69] == 0x94 && p[70] == 0x84 && p[71] == 0x01 && p[72] == 0x2b);
    assert(marks_value(blob, 68, 72));
    let m = choose|m: int| marks_value(blob, 68, m);
    assert(marks_value(blob, 68, m));
    assert(m == 72);
}

/// What follows the string in a blob is ignored: whatever it is, the body is
/// the one that was encoded.
pub proof fn law_what_follows_is_ignored(s: Seq<char>, tail: Seq<u8>)
    requires
        encode_utf8(s).len() <= u32::MAX,
    ensures
        body_of(PREAMBLE@ + length_bytes(encode_utf8(s).len()) + encode_utf8(s) + tail) == Some(s),
{
    let utf8 = encode_utf8(s);
    let len = utf8.len();
    let blob = PREAMBLE@ + length_bytes(len) + utf8 + tail;
    assert(PREAMBLE@.is_prefix_of(blob));
    lemma_after_preamble(blob);
    let rest = utf8 + tail;
    assert(blob.skip(73) =~= length_bytes(len) + rest);
    law_length_round_trip(len, rest);
    let start = 73 + length_bytes(len).len();
    assert(blob.subrange(start as int, (start + len) as int) =~= utf8);
    encode_utf8_valid_utf8(s);
    encode_utf8_decode_utf8(s);
}

/// The body encoded into a blob is the body extracted from it, for every text
/// whose length the format can hold.
pub proof fn law_round_trip(s: Seq<char>)
    requires
        encode_utf8(s).len() <= u32::MAX,
    ensures
        body_of(encoded(s)) == Some(s),
{
    law_what_follows_is_ignored(s, TRAILER@);
}

/// An encoded body that is cut short anywhere before the end of its string
/// gives no body, never a part of one.
pub proof fn law_cut_short_gives_nothing(s: Seq<char>, n: int)
    requires
        encode_utf8(s).len() <= u32::MAX,
        0 <= n < PREAMBLE@.len() + length_bytes(encode_utf8(s).len()).len() + encode_utf8(s).len(),
    ensures
        body_of(encoded(s).take(n)) is None,
{
    let utf8 = encode_utf8(s);
    let p = PREAMBLE@;
    let whole = encoded(s);
    let blob = whole.take(n);
    assert(p.len() == 73);
    assert(p.is_prefix_of(whole));
    if n < 73 {
        assert forall|j: int| 0 <= j < n implies blob[j] == #[trigger] p[j] by {
            assert(whole[j] == p[j]);
        }
        lemma_cut_preamble(blob, n);
    } else {
        assert(p.is_prefix_of(blob));
        lemma_after_preamble(blob);
        lemma_behind_preamble(p, length_bytes(utf8.len()), utf8, TRAILER@, n);
        lemma_cut_value(blob, utf8, n - 73);
    }
}

proof fn lemma_behind_preamble(p: Seq<u8>, b: Seq<u8>, utf8: Seq<u8>, tail: Seq<u8>, n: int)
    requires
        p.len() == 73,
        73 <= n < 73 + b.len() + utf8.len(),
    ensures
        (p + b + utf8 + tail).take(n).skip(73) == (b + utf8).take(n - 73),
{
    assert((p + b + utf8 + tail).take(n).skip(73) =~= (b + utf8).take(n - 73));
}

/// A string that is cut short has no text.
proof fn lemma_cut_value(blob: Seq<u8>, utf8: Seq<u8>, k: int)
    requires
        utf8.len() <= u32::MAX,
        0 <= k < length_bytes(utf8.len()).len() + utf8.len(),
        blob.len() == 73 + k,
        blob.skip(73) == (length_bytes(utf8.len()) + utf8).take(k),
    ensures
        value_text(blob, 72) is None,
{
    let b = length_bytes(utf8.len());
    let rest = blob.skip(73);
    if k < b.len() {
        assert(rest.len() == k);
        if k > 0 {
            assert(rest[0] == b[0]);
        }
    } else {
        let shown = utf8.take(k - b.len());
        assert(rest =~= b + shown);
        law_length_round_trip(utf8.len(), shown);
    }
}

/// A preamble that is cut short leads to no string.
proof fn lemma_cut_preamble(blob: Seq<u8>, n: int)
    requires
        0 <= n < 73,
        blob.len() == n,
        forall|j: int| 0 <= j < n ==> blob[j] == #[trigger] PREAMBLE@[j],
    ensures
        body_of(blob) is None,
{
    let p = PREAMBLE@;
    assert(p.len() == 73);
    lemma_class_in_encoded(p);
    if n < 68 {
        assert forall|j: int| !occurs_at(blob, STRING_CLASS@, j) by {
            if occurs_at(blob, STRING_CLASS@, j) {
                assert(p.subrange(j, j + 8) =~= blob.subrange(j, j + 8));
                assert(occurs_at(p, STRING_CLASS@, j));
            }
        }
        assert forall|j: int| !occurs_at(blob, MUTABLE_STRING_CLASS@, j) by {
            if occurs_at(blob, MUTABLE_STRING_CLASS@, j) {
                let w = blob.subrange(j, j + 15);
                let c = MUTABLE_STRING_CLASS@;
                assert(w[0] == blob[j] && w[2] == blob[j + 2] && w[9] == blob[j + 9]);
                assert(c[0] == 0x4e && c[2] == 0x4d && c[9] == 0x53);
                assert(p[j] == 0x4e && p[j + 2] == 0x4d && p[j + 9] == 0x53);
            }
        }
        assert(class_end(blob) is None);
    } else {
        assert(occurs_first_at(blob, STRING_CLASS@, 60)) by {
            assert(blob.subrange(60, 68) =~= p.subrange(60, 68));
            assert forall|j: int| j < 60 implies !occurs_at(blob, STRING_CLASS@, j) by {
                if occurs_at(blob, STRING_CLASS@, j) {
                    assert(p.subrange(j, j + 8) =~= blob.subrange(j, j + 8));
                    assert(occurs_at(p, STRING_CLASS@, j));
                }
            }
        }
        lemma_first_occurrence(blob, STRING_CLASS@, 60);
        assert(p[68] == 0x01 && p[69] == 0x94 && p[70] == 0x84 && p[71] == 0x01);
        assert forall|m: int| !marks_value(blob, 68, m) by {}
    }
}

/// How a length is read: a byte up to 127 is one; behind a byte of 129 two bytes
/// are, behind 130 four, the lowest first. Any other byte begins no length.
pub proof fn law_how_lengths_are_read(b: Seq<u8>)
    ensures
        b.len() >= 1 && b[0] <= 127 ==> length_of(b) == Some((b[0] as nat, 1nat)),
        b.len() >= 3 && b[0] == 129 ==> length_of(b) == Some(
            ((b[1] + 0x100 * b[2]) as nat, 3nat),
        ),
        b.len() >= 5 && b[0] == 130 ==> length_of(b) == Some(
            ((b[1] + 0x100 * b[2] + 0x1_0000 * b[3] + 0x100_0000 * b[4]) as nat, 5nat),
        ),
        b.len() == 0 || (b[0] > 127 && b[0] != 129 && b[0] != 130) || (b[0] == 129 && b.len() < 3)
            || (b[0] == 130 && b.len() < 5) ==> length_of(b) is None,
{
}

/// Where a body stands: behind the first `+` within 24 bytes of the first
/// `NSString`, or, where there is no such class, of the first `NSMutableString`;
/// and nowhere in a blob that does not begin as a stream does.
pub proof fn law_where_a_body_stands(blob: Seq<u8>, class: Seq<u8>, i: int, m: int)
    requires
        blob.len() >= 13,
        blob.take(13) == seq![
            4u8,
            11u8,
            115u8,
            116u8,
            114u8,
            101u8,
            97u8,
            109u8,
            116u8,
            121u8,
            112u8,
            101u8,
            100u8,
        ],
        class == STRING_CLASS@ || (class == MUTABLE_STRING_CLASS@ && forall|j: int|
            !#[trigger] occurs_at(blob, STRING_CLASS@, j)),
        occurs_first_at(blob, class, i),
        i + class.len() <= m < i + class.len() + 24,
        m < blob.len(),
        blob[m] == 43u8,
        forall|j: int| i + class.len() <= j < m ==> (#[trigger] blob[j]) != 43u8,
    ensures
        body_of(blob) == value_text(blob, m),
{
    let head = STREAMTYPED_HEADER@;
    assert(head.is_prefix_of(blob)) by {
        assert(blob.take(13) =~= head);
        assert forall|j: int| 0 <= j < 13 implies head[j] == blob[j] by {
            assert(blob.take(13)[j] == blob[j]);
        }
        assert(head =~= blob.subrange(0, 13));
    }
    lemma_first_occurrence(blob, class, i);
    assert(STRING_CLASS@.len() == 8 && MUTABLE_STRING_CLASS@.len() == 15);
    if class != STRING_CLASS@ {
        assert(first_occurrence(blob, STRING_CLASS@) is None) by {
            assert forall|j: int| !occurs_first_at(blob, STRING_CLASS@, j) by {
                assert(!occurs_at(blob, STRING_CLASS@, j));
            }
        }
    }
    let from = i + class.len();
    assert(class_end(blob) == Some(from));
    assert(marks_value(blob, from, m));
    let n = choose|n: int| marks_value(blob, from, n);
    assert(marks_value(blob, from, n));
    if n < m {
        assert(blob[n] != 43u8);
    }
    if m < n {
        assert(blob[m] != 43u8);
    }
}

/// The text of a value: the bytes behind its length, as many as that says, read as
/// UTF-8; none where the blob ends before them.
pub proof fn law_text_of_a_value(before: Seq<u8>, s: Seq<char>, rest: Seq<u8>)
    requires
        encode_utf8(s).len() <= u32::MAX,
    ensures
        value_text(
            before.push(43u8) + length_bytes(encode_utf8(s).len()) + encode_utf8(s) + rest,
            before.len() as int,
        ) == Some(s),
{
    let utf8 = encode_utf8(s);
    let len = utf8.len();
    let m = before.len() as int;
    let blob = before.push(43u8) + length_bytes(len) + utf8 + rest;
    assert(blob.skip(m + 1) =~= length_bytes(len) + (utf8 + rest));
    law_length_round_trip(len, utf8 + rest);
    let start = m + 1 + length_bytes(len).len();
    assert(blob.subrange(start, start + len) =~= utf8);
    encode_utf8_valid_utf8(s);
    encode_utf8_decode_utf8(s);
}

} // verus!
