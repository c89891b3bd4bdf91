//! Content hashes: SHA-256 in hexadecimal.
use crate::numeric;
use crate::text;
use crate::numeric::hex_text;
use sha2::{Digest, Sha256};
use vstd::prelude::*;
use vstd::utf8::*;

verus! {

/// The SHA-256 digest of a byte string.
pub uninterp spec fn sha256(bytes: Seq<u8>) -> Seq<u8>;

/// `Sha256::digest`: the digest is a function of the bytes alone and has
/// 32 bytes.
#[verifier::external_body]
fn sha256_of(bytes: &[u8]) -> (r: Vec<u8>)
    ensures
        r@ == sha256(bytes@),
        r@.len() == 32,
{
    Sha256::digest(bytes).to_vec()
}

/// The digest of `bytes` in lower-case hexadecimal.
pub open spec fn hex_digest_of(bytes: Seq<u8>) -> Seq<char> {
    numeric::hex(sha256(bytes))
}

/// Whether a text has the form of a hash: 64 lower-case hexadecimal digits.
pub open spec fn is_hash(s: Seq<char>) -> bool {
    &&& s.len() == 64
    &&& forall|i: int|
        0 <= i < s.len() ==> text::is_digit(#[trigger] s[i]) || ('a' <= s[i] && s[i] <= 'f')
}

/// The SHA-256 digest of `bytes`, as 64 lower-case hexadecimal digits.
pub fn hex_digest(bytes: &[u8]) -> (r: String)
    ensures
        r@ == hex_digest_of(bytes@),
        is_hash(r@),
{
    let d = sha256_of(bytes);
    proof {
        numeric::lemma_hex(d@);
    }
    hex_text(&d)
}

/// The SHA-256 digest of `bytes`, as 32 bytes.
pub fn digest_bytes(bytes: &[u8]) -> (r: Vec<u8>)
    ensures
        r@ == sha256(bytes@),
        r@.len() == 32,
{
    sha256_of(bytes)
}

/// The texts of a list in UTF-8, each followed by a zero byte.
pub open spec fn terminated(parts: Seq<Seq<char>>) -> Seq<u8>
    decreases parts.len(),
{
    if parts.len() == 0 {
        Seq::empty()
    } else {
        encode_utf8(parts[0]) + seq![0u8] + terminated(parts.drop_first())
    }
}

/// Appends a text in UTF-8 and a zero byte.
pub fn push_terminated(out: &mut Vec<u8>, s: &str)
    ensures
        final(out)@ == old(out)@ + encode_utf8(s@) + seq![0u8],
{
    let ghost before = out@;
    out.extend_from_slice(s.as_bytes());
    out.push(0);
    proof {
        assert(out@ =~= before + encode_utf8(s@) + seq![0u8]);
    }
}

proof fn lemma_scalar_bytes(v: u32)
    by (bit_vector)
    requires
        0 < v <= 0x10ffff,
    ensures
        v <= 0x7f ==> ((v & 0x7F) as u8) != 0,
        (0xC0 | ((v >> 6) & 0x1F) as u8) != 0u8,
        (0xE0 | ((v >> 12) & 0x0F) as u8) != 0u8,
        (0xF0 | ((v >> 18) & 0x7) as u8) != 0u8,
        (0x80 | (v & 0x3F) as u8) != 0u8,
        (0x80 | ((v >> 6) & 0x3F) as u8) != 0u8,
        (0x80 | ((v >> 12) & 0x3F) as u8) != 0u8,
{
}

/// A text without NUL has no zero byte in UTF-8.
pub proof fn lemma_no_zero_byte(s: Seq<char>)
    requires
        !s.contains('\0'),
    ensures
        !encode_utf8(s).contains(0u8),
    decreases s.len(),
{
    if s.len() > 0 {
        let tail = s.drop_first();
        assert forall|i: int| 0 <= i < tail.len() implies tail[i] != '\0' by {
            assert(tail[i] == s[i + 1]);
        }
        lemma_no_zero_byte(tail);
        assert(s[0] != '\0');
        let v = s[0] as u32;
        char_is_scalar(s[0]);
        assert(v != 0) by {
            if v == 0 {
                char_u32_cast(s[0], 0u32);
            }
        }
        lemma_scalar_bytes(v);
        let head = encode_scalar(v);
        assert(forall|i: int| 0 <= i < head.len() ==> head[i] != 0u8);
        assert forall|i: int| 0 <= i < encode_utf8(s).len() implies encode_utf8(s)[i] != 0u8 by {
            if i >= head.len() {
                assert(encode_utf8(s)[i] == encode_utf8(tail)[i - head.len()]);
            }
        }
    }
}

/// Two byte strings that run to their first zero byte agree up to it and
/// after it.
pub proof fn lemma_split_at_zero(a: Seq<u8>, x: Seq<u8>, b: Seq<u8>, y: Seq<u8>)
    requires
        !a.contains(0u8),
        !b.contains(0u8),
        a + seq![0u8] + x == b + seq![0u8] + y,
    ensures
        a == b,
        x == y,
{
    let l = a + seq![0u8] + x;
    let r = b + seq![0u8] + y;
    assert(l[a.len() as int] == 0u8);
    assert(r[b.len() as int] == 0u8);
    if a.len() < b.len() {
        assert(r[a.len() as int] == b[a.len() as int]);
        assert(b.contains(0u8));
    }
    if b.len() < a.len() {
        assert(l[b.len() as int] == a[b.len() as int]);
        assert(a.contains(0u8));
    }
    assert(a =~= l.take(a.len() as int));
    assert(b =~= r.take(b.len() as int));
    assert(x =~= l.skip(a.len() as int + 1));
    assert(y =~= r.skip(b.len() as int + 1));
}

/// Fields without NUL keep their boundaries: two lists of as many fields have
/// the same bytes only when they are equal.
pub proof fn law_terminated_injective(a: Seq<Seq<char>>, b: Seq<Seq<char>>)
    requires
        a.len() == b.len(),
        forall|i: int| 0 <= i < a.len() ==> !(#[trigger] a[i]).contains('\0'),
        forall|i: int| 0 <= i < b.len() ==> !(#[trigger] b[i]).contains('\0'),
        terminated(a) == terminated(b),
    ensures
        a == b,
    decreases a.len(),
{
    if a.len() > 0 {
        lemma_no_zero_byte(a[0]);
        lemma_no_zero_byte(b[0]);
        lemma_split_at_zero(
            encode_utf8(a[0]),
            terminated(a.drop_first()),
            encode_utf8(b[0]),
            terminated(b.drop_first()),
        );
        text::lemma_encode_injective(a[0], b[0]);
        assert forall|i: int| 0 <= i < a.len() - 1 implies !(#[trigger] a.drop_first()[i]).contains(
            '\0',
        ) by {
            assert(a.drop_first()[i] == a[i + 1]);
        }
        assert forall|i: int| 0 <= i < b.len() - 1 implies !(#[trigger] b.drop_first()[i]).contains(
            '\0',
        ) by {
            assert(b.drop_first()[i] == b[i + 1]);
        }
        law_terminated_injective(a.drop_first(), b.drop_first());
        assert(a =~= seq![a[0]] + a.drop_first());
        assert(b =~= seq![b[0]] + b.drop_first());
    } else {
        assert(a =~= b);
    }
}

} // verus!
