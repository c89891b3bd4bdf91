//! Text as sequences of characters: the string operations the rest of the
//! library is written with, each with its mathematical meaning.
use vstd::prelude::*;
use vstd::string::*;
use vstd::utf8::*;

verus! {

broadcast use vstd::string::group_string_axioms;

/// `String::push` appends one character to the end of the string.
pub assume_specification[ String::push ](s: &mut String, ch: char)
    ensures
        final(s)@ == old(s)@.push(ch),
;

/// The views of a list of strings.
pub open spec fn views(v: Seq<String>) -> Seq<Seq<char>> {
    v.map_values(|s: String| s@)
}

/// The characters of a string, in order.
pub fn chars_of(s: &str) -> (r: Vec<char>)
    ensures
        r@ == s@,
{
    let mut v: Vec<char> = Vec::new();
    for c in it: s.chars()
        invariant
            v@ == it.seq().take(it.index() as int),
            it.seq() == s@,
    {
        v.push(c);
    }
    v
}

/// The string made of the characters `chars[from..to]`.
pub fn substring(chars: &[char], from: usize, to: usize) -> (r: String)
    requires
        from <= to <= chars@.len(),
    ensures
        r@ == chars@.subrange(from as int, to as int),
{
    let mut s = String::new();
    let mut i: usize = from;
    while i < to
        invariant
            from <= i <= to <= chars@.len(),
            s@ == chars@.subrange(from as int, i as int),
        decreases to - i,
    {
        s.push(chars[i]);
        i = i + 1;
    }
    s
}

/// Two texts with the same UTF-8 encoding are the same text.
pub proof fn lemma_encode_injective(a: Seq<char>, b: Seq<char>)
    requires
        encode_utf8(a) == encode_utf8(b),
    ensures
        a == b,
{
    encode_utf8_decode_utf8(a);
    encode_utf8_decode_utf8(b);
}

/// Whether two strings hold the same characters.
pub fn str_eq(a: &str, b: &str) -> (r: bool)
    ensures
        r == (a@ == b@),
{
    let x = a.as_bytes();
    let y = b.as_bytes();
    if x.len() != y.len() {
        return false;
    }
    let mut i: usize = 0;
    while i < x.len()
        invariant
            x@ == encode_utf8(a@),
            y@ == encode_utf8(b@),
            x@.len() == y@.len(),
            i <= x@.len(),
            x@.take(i as int) == y@.take(i as int),
        decreases x@.len() - i,
    {
        if x[i] != y[i] {
            return false;
        }
        proof {
            assert(x@.take(i + 1) =~= x@.take(i as int).push(x@[i as int]));
            assert(y@.take(i + 1) =~= y@.take(i as int).push(y@[i as int]));
        }
        i = i + 1;
    }
    proof {
        assert(x@.take(i as int) =~= x@);
        assert(y@.take(i as int) =~= y@);
        lemma_encode_injective(a@, b@);
    }
    true
}

/// Unicode's `White_Space` property.
pub open spec fn is_white(c: char) -> bool {
    let n = c as u32;
    ||| 0x09 <= n <= 0x0d
    ||| n == 0x20
    ||| n == 0x85
    ||| n == 0xa0
    ||| n == 0x1680
    ||| 0x2000 <= n <= 0x200a
    ||| n == 0x2028
    ||| n == 0x2029
    ||| n == 0x202f
    ||| n == 0x205f
    ||| n == 0x3000
}

/// Whether a character is white space.
pub fn is_whitespace(c: char) -> (r: bool)
    ensures
        r == is_white(c),
{
    let n: u32 = c as u32;
    (0x09 <= n && n <= 0x0d) || n == 0x20 || n == 0x85 || n == 0xa0 || n == 0x1680 || (0x2000 <= n
        && n <= 0x200a) || n == 0x2028 || n == 0x2029 || n == 0x202f || n == 0x205f || n == 0x3000
}

/// `s` without its leading white space.
pub open spec fn trim_start(s: Seq<char>) -> Seq<char>
    decreases s.len(),
{
    if s.len() > 0 && is_white(s[0]) {
        trim_start(s.drop_first())
    } else {
        s
    }
}

/// `s` without its trailing white space.
pub open spec fn trim_end(s: Seq<char>) -> Seq<char>
    decreases s.len(),
{
    if s.len() > 0 && is_white(s.last()) {
        trim_end(s.drop_last())
    } else {
        s
    }
}

/// `s` without white space on either side.
pub open spec fn trimmed(s: Seq<char>) -> Seq<char> {
    trim_end(trim_start(s))
}

proof fn lemma_trim_start(s: Seq<char>, k: int)
    requires
        0 <= k <= s.len(),
        forall|i: int| 0 <= i < k ==> is_white(#[trigger] s[i]),
        k == s.len() || !is_white(s[k]),
    ensures
        trim_start(s) == s.skip(k),
    decreases k,
{
    if k > 0 {
        lemma_trim_start(s.drop_first(), k - 1);
        assert(s.drop_first().skip(k - 1) =~= s.skip(k));
    } else {
        assert(s.skip(0) =~= s);
    }
}

proof fn lemma_trim_end(s: Seq<char>, k: int)
    requires
        0 <= k <= s.len(),
        forall|i: int| k <= i < s.len() ==> is_white(#[trigger] s[i]),
        k == 0 || !is_white(s[k - 1]),
    ensures
        trim_end(s) == s.take(k),
    decreases s.len() - k,
{
    if k < s.len() {
        lemma_trim_end(s.drop_last(), k);
        assert(s.drop_last().take(k) =~= s.take(k));
    } else {
        assert(s.take(k) =~= s);
    }
}

/// The text without leading and trailing white space.
pub fn trim(s: &str) -> (r: String)
    ensures
        r@ == trimmed(s@),
{
    let chars = chars_of(s);
    let n: usize = chars.len();
    let mut lo: usize = 0;
    while lo < n && is_whitespace(chars[lo])
        invariant
            lo <= n == chars@.len(),
            forall|i: int| 0 <= i < lo ==> is_white(#[trigger] chars@[i]),
        decreases n - lo,
    {
        lo = lo + 1;
    }
    let mut hi: usize = n;
    while hi > lo && is_whitespace(chars[hi - 1])
        invariant
            lo <= hi <= n == chars@.len(),
            forall|i: int| hi <= i < n ==> is_white(#[trigger] chars@[i]),
        decreases hi,
    {
        hi = hi - 1;
    }
    proof {
        lemma_trim_start(s@, lo as int);
        let t = s@.skip(lo as int);
        assert forall|i: int| hi - lo <= i < t.len() implies is_white(#[trigger] t[i]) by {
            assert(t[i] == chars@[i + lo]);
        }
        lemma_trim_end(t, hi - lo);
        assert(t.take(hi - lo) =~= chars@.subrange(lo as int, hi as int));
    }
    substring(&chars, lo, hi)
}

/// Text that is empty or white space only.
pub open spec fn blank(s: Seq<char>) -> bool {
    trimmed(s).len() == 0
}

/// Whether the text is empty or white space only.
pub fn is_blank(s: &str) -> (r: bool)
    ensures
        r == blank(s@),
{
    trim(s).as_str().is_empty()
}

/// A text is blank exactly when each of its characters is white space.
pub proof fn lemma_blank(s: Seq<char>)
    ensures
        blank(s) <==> forall|i: int| 0 <= i < s.len() ==> is_white(#[trigger] s[i]),
{
    if forall|i: int| 0 <= i < s.len() ==> is_white(#[trigger] s[i]) {
        lemma_trim_start(s, s.len() as int);
    } else {
        let k = choose|i: int| 0 <= i < s.len() && !is_white(#[trigger] s[i]);
        lemma_trim_keeps(s, k);
    }
}

proof fn lemma_trim_keeps(s: Seq<char>, k: int)
    requires
        0 <= k < s.len(),
        !is_white(s[k]),
    ensures
        trimmed(s).len() > 0,
    decreases s.len(),
{
    if is_white(s[0]) {
        lemma_trim_keeps(s.drop_first(), k - 1);
    } else {
        lemma_trim_end_keeps(s, k);
    }
}

proof fn lemma_trim_end_keeps(s: Seq<char>, k: int)
    requires
        0 <= k < s.len(),
        !is_white(s[k]),
    ensures
        trim_end(s).len() > 0,
    decreases s.len(),
{
    if is_white(s.last()) {
        lemma_trim_end_keeps(s.drop_last(), k);
    }
}

/// The white-space separated words of `s`, after the characters `cur` of a
/// word already begun.
pub open spec fn words_from(cur: Seq<char>, s: Seq<char>) -> Seq<Seq<char>>
    decreases s.len(),
{
    if s.len() == 0 {
        if cur.len() == 0 {
            Seq::empty()
        } else {
            seq![cur]
        }
    } else if is_white(s[0]) {
        if cur.len() == 0 {
            words_from(Seq::empty(), s.drop_first())
        } else {
            seq![cur] + words_from(Seq::empty(), s.drop_first())
        }
    } else {
        words_from(cur.push(s[0]), s.drop_first())
    }
}

/// The maximal runs of characters other than white space, in order.
pub open spec fn words(s: Seq<char>) -> Seq<Seq<char>> {
    words_from(Seq::empty(), s)
}

/// The white-space separated words of a text.
pub fn split_whitespace(s: &str) -> (r: Vec<String>)
    ensures
        views(r@) == words(s@),
{
    let chars = chars_of(s);
    let mut out: Vec<String> = Vec::new();
    let mut cur = String::new();
    let mut i: usize = 0;
    proof {
        assert(s@.skip(0) =~= s@);
        assert(views(out@) + words(s@) =~= words(s@));
    }
    while i < chars.len()
        invariant
            i <= chars@.len(),
            chars@ == s@,
            words(s@) == views(out@) + words_from(cur@, s@.skip(i as int)),
        decreases chars@.len() - i,
    {
        let c = chars[i];
        proof {
            assert(s@.skip(i as int).drop_first() =~= s@.skip(i + 1));
        }
        if is_whitespace(c) {
            if !cur.as_str().is_empty() {
                let ghost before = views(out@);
                let ghost word = cur@;
                out.push(cur);
                cur = String::new();
                proof {
                    assert(views(out@) =~= before.push(word));
                    assert(before + (seq![word] + words_from(Seq::empty(), s@.skip(i + 1)))
                        =~= before.push(word) + words_from(Seq::empty(), s@.skip(i + 1)));
                }
            } else {
                proof {
                    assert(cur@ =~= Seq::<char>::empty());
                }
            }
        } else {
            cur.push(c);
        }
        i = i + 1;
    }
    let ghost before = views(out@);
    if !cur.as_str().is_empty() {
        let ghost word = cur@;
        out.push(cur);
        proof {
            assert(views(out@) =~= before.push(word));
            assert(before + seq![word] =~= before.push(word));
        }
    } else {
        proof {
            assert(before + Seq::<Seq<char>>::empty() =~= before);
        }
    }
    out
}

/// A line without the carriage return that ended it.
pub open spec fn strip_cr(s: Seq<char>) -> Seq<char> {
    if s.len() > 0 && s.last() == '\r' {
        s.drop_last()
    } else {
        s
    }
}

/// The lines of `s`, after the characters `cur` of a line already begun.
pub open spec fn lines_from(cur: Seq<char>, s: Seq<char>) -> Seq<Seq<char>>
    decreases s.len(),
{
    if s.len() == 0 {
        if cur.len() == 0 {
            Seq::empty()
        } else {
            seq![cur]
        }
    } else if s[0] == '\n' {
        seq![strip_cr(cur)] + lines_from(Seq::empty(), s.drop_first())
    } else {
        lines_from(cur.push(s[0]), s.drop_first())
    }
}

/// The lines of a text: each ends at a line feed or at the end of the text,
/// and loses a carriage return that stands before its line feed.
pub open spec fn lines_of(s: Seq<char>) -> Seq<Seq<char>> {
    lines_from(Seq::empty(), s)
}

/// The lines of a text.
pub fn lines(s: &str) -> (r: Vec<String>)
    ensures
        views(r@) == lines_of(s@),
{
    let chars = chars_of(s);
    let mut out: Vec<String> = Vec::new();
    let mut start: usize = 0;
    let mut i: usize = 0;
    proof {
        assert(s@.skip(0) =~= s@);
        assert(s@.subrange(0, 0) =~= Seq::<char>::empty());
        assert(views(out@) + lines_of(s@) =~= lines_of(s@));
    }
    while i < chars.len()
        invariant
            start <= i <= chars@.len(),
            chars@ == s@,
            lines_of(s@) == views(out@) + lines_from(
                s@.subrange(start as int, i as int),
                s@.skip(i as int),
            ),
        decreases chars@.len() - i,
    {
        let ghost cur = s@.subrange(start as int, i as int);
        proof {
            assert(s@.skip(i as int).drop_first() =~= s@.skip(i + 1));
        }
        if chars[i] == '\n' {
            let mut end: usize = i;
            if start < i && chars[i - 1] == '\r' {
                end = i - 1;
            }
            let line = substring(&chars, start, end);
            let ghost before = views(out@);
            out.push(line);
            proof {
                assert(line@ =~= strip_cr(cur));
                assert(views(out@) =~= before.push(strip_cr(cur)));
                assert(s@.subrange(i + 1, i + 1) =~= Seq::<char>::empty());
                let rest = lines_from(Seq::empty(), s@.skip(i + 1));
                assert(before + (seq![strip_cr(cur)] + rest) =~= before.push(strip_cr(cur)) + rest);
            }
            start = i + 1;
        } else {
            proof {
                assert(s@.subrange(start as int, i + 1) =~= cur.push(s@[i as int]));
            }
        }
        i = i + 1;
    }
    let ghost before = views(out@);
    if start < i {
        let line = substring(&chars, start, i);
        out.push(line);
        proof {
            assert(views(out@) =~= before.push(line@));
            assert(before + seq![line@] =~= before.push(line@));
        }
    } else {
        proof {
            assert(before + Seq::<Seq<char>>::empty() =~= before);
        }
    }
    out
}

/// The parts of a list with `sep` between each two neighbours.
pub open spec fn joined(parts: Seq<Seq<char>>, sep: Seq<char>) -> Seq<char>
    decreases parts.len(),
{
    if parts.len() == 0 {
        Seq::empty()
    } else if parts.len() == 1 {
        parts[0]
    } else {
        joined(parts.drop_last(), sep) + sep + parts.last()
    }
}

/// Joins strings with a separator.
pub fn join(parts: &[String], sep: &str) -> (r: String)
    ensures
        r@ == joined(views(parts@), sep@),
{
    let mut out = String::new();
    let mut i: usize = 0;
    while i < parts.len()
        invariant
            i <= parts@.len(),
            out@ == joined(views(parts@.take(i as int)), sep@),
        decreases parts@.len() - i,
    {
        proof {
            let next = views(parts@.take(i + 1));
            assert(next.drop_last() =~= views(parts@.take(i as int)));
            assert(next.last() == parts@[i as int]@);
            if i == 0 {
                assert(out@ + next.last() =~= next[0]);
            }
        }
        if i > 0 {
            out.append(sep);
        }
        out.append(parts[i].as_str());
        i = i + 1;
    }
    proof {
        assert(parts@.take(i as int) =~= parts@);
    }
    out
}

/// An ASCII letter in lower case; any other character unchanged.
pub open spec fn lower_char(c: char) -> char {
    if 'A' <= c && c <= 'Z' {
        ((c as u8) + 32) as char
    } else {
        c
    }
}

/// A text with its ASCII letters in lower case.
pub open spec fn lowered(s: Seq<char>) -> Seq<char> {
    s.map_values(|c: char| lower_char(c))
}

/// The text with its ASCII letters in lower case.
pub fn to_ascii_lowercase(s: &str) -> (r: String)
    ensures
        r@ == lowered(s@),
{
    let chars = chars_of(s);
    let mut out = String::new();
    let mut i: usize = 0;
    while i < chars.len()
        invariant
            i <= chars@.len(),
            chars@ == s@,
            out@ == lowered(s@.take(i as int)),
        decreases chars@.len() - i,
    {
        let c = chars[i];
        proof {
            assert(lowered(s@.take(i + 1)) =~= lowered(s@.take(i as int)).push(lower_char(c)));
        }
        if 'A' <= c && c <= 'Z' {
            out.push(((c as u8) + 32) as char);
        } else {
            out.push(c);
        }
        i = i + 1;
    }
    proof {
        assert(s@.take(i as int) =~= s@);
    }
    out
}

/// Whether a character occurs in a text.
pub fn contains_char(s: &str, c: char) -> (r: bool)
    ensures
        r == s@.contains(c),
{
    let chars = chars_of(s);
    let mut i: usize = 0;
    while i < chars.len()
        invariant
            i <= chars@.len(),
            chars@ == s@,
            forall|j: int| 0 <= j < i ==> s@[j] != c,
        decreases chars@.len() - i,
    {
        if chars[i] == c {
            assert(s@[i as int] == c);
            return true;
        }
        i = i + 1;
    }
    false
}

/// Whether `s` begins with `prefix`.
pub open spec fn has_prefix(s: Seq<char>, prefix: Seq<char>) -> bool {
    prefix.len() <= s.len() && s.take(prefix.len() as int) == prefix
}

/// Whether a text begins with another.
pub fn starts_with(s: &str, prefix: &str) -> (r: bool)
    ensures
        r == has_prefix(s@, prefix@),
{
    let a = chars_of(s);
    let b = chars_of(prefix);
    if b.len() > a.len() {
        return false;
    }
    let mut i: usize = 0;
    while i < b.len()
        invariant
            i <= b@.len() <= a@.len(),
            a@ == s@,
            b@ == prefix@,
            a@.take(i as int) == b@.take(i as int),
        decreases b@.len() - i,
    {
        if a[i] != b[i] {
            assert(s@.take(b@.len() as int)[i as int] != prefix@[i as int]);
            return false;
        }
        proof {
            assert(a@.take(i + 1) =~= a@.take(i as int).push(a@[i as int]));
            assert(b@.take(i + 1) =~= b@.take(i as int).push(b@[i as int]));
        }
        i = i + 1;
    }
    proof {
        assert(b@.take(i as int) =~= b@);
    }
    true
}

/// What follows `prefix` in `s`, when `s` begins with it.
pub fn strip_prefix(s: &str, prefix: &str) -> (r: Option<String>)
    ensures
        r is Some <==> has_prefix(s@, prefix@),
        r matches Some(rest) ==> rest@ == s@.skip(prefix@.len() as int),
{
    if !starts_with(s, prefix) {
        return None;
    }
    let chars = chars_of(s);
    let n: usize = chars_of(prefix).len();
    let rest = substring(&chars, n, chars.len());
    proof {
        assert(rest@ =~= s@.skip(prefix@.len() as int));
    }
    Some(rest)
}

/// `s` without the run of `c` at its end.
pub open spec fn without_trailing(s: Seq<char>, c: char) -> Seq<char>
    decreases s.len(),
{
    if s.len() > 0 && s.last() == c {
        without_trailing(s.drop_last(), c)
    } else {
        s
    }
}

/// The text without the run of `c` at its end.
pub fn trim_end_char(s: &str, c: char) -> (r: String)
    ensures
        r@ == without_trailing(s@, c),
{
    let chars = chars_of(s);
    let mut hi: usize = chars.len();
    proof {
        assert(s@.take(hi as int) =~= s@);
    }
    while hi > 0 && chars[hi - 1] == c
        invariant
            hi <= chars@.len(),
            chars@ == s@,
            without_trailing(s@, c) == without_trailing(s@.take(hi as int), c),
        decreases hi,
    {
        proof {
            assert(s@.take(hi as int).drop_last() =~= s@.take(hi - 1));
        }
        hi = hi - 1;
    }
    proof {
        assert(s@.subrange(0, hi as int) =~= s@.take(hi as int));
    }
    substring(&chars, 0, hi)
}

/// Whether a character is an ASCII digit.
pub open spec fn is_digit(c: char) -> bool {
    '0' <= c && c <= '9'
}

/// The ASCII digits of a text, in order.
pub open spec fn digits_of(s: Seq<char>) -> Seq<char>
    decreases s.len(),
{
    if s.len() == 0 {
        Seq::empty()
    } else if is_digit(s.last()) {
        digits_of(s.drop_last()).push(s.last())
    } else {
        digits_of(s.drop_last())
    }
}

/// The ASCII digits of a text, in order.
pub fn ascii_digits(s: &str) -> (r: String)
    ensures
        r@ == digits_of(s@),
{
    let chars = chars_of(s);
    let mut out = String::new();
    let mut i: usize = 0;
    while i < chars.len()
        invariant
            i <= chars@.len(),
            chars@ == s@,
            out@ == digits_of(s@.take(i as int)),
        decreases chars@.len() - i,
    {
        let c = chars[i];
        proof {
            assert(s@.take(i + 1).drop_last() =~= s@.take(i as int));
        }
        if '0' <= c && c <= '9' {
            out.push(c);
        }
        i = i + 1;
    }
    proof {
        assert(s@.take(i as int) =~= s@);
    }
    out
}

/// Which characters the digits of a text are: those from `0` to `9`, in order.
pub proof fn lemma_digits_filter(s: Seq<char>)
    ensures
        digits_of(s) == s.filter(|c: char| '0' <= c && c <= '9'),
    decreases s.len(),
{
    reveal(Seq::filter);
    if s.len() > 0 {
        lemma_digits_filter(s.drop_last());
    } else {
        assert(digits_of(s) =~= s.filter(|c: char| '0' <= c && c <= '9'));
    }
}

proof fn lemma_digits_first(s: Seq<char>)
    requires
        s.len() > 0,
        !is_digit(s[0]),
    ensures
        digits_of(s.drop_first()) == digits_of(s),
    decreases s.len(),
{
    if s.len() == 1 {
        assert(s.drop_first() =~= Seq::<char>::empty());
        assert(s.drop_last() =~= Seq::<char>::empty());
    } else {
        lemma_digits_first(s.drop_last());
        assert(s.drop_first().drop_last() =~= s.drop_last().drop_first());
    }
}

proof fn lemma_trim_start_keeps_char(s: Seq<char>, c: char)
    requires
        !is_white(c),
    ensures
        digits_of(trim_start(s)) == digits_of(s),
        trim_start(s).contains(c) <==> s.contains(c),
    decreases s.len(),
{
    if s.len() > 0 && is_white(s[0]) {
        lemma_trim_start_keeps_char(s.drop_first(), c);
        lemma_digits_first(s);
        let t = s.drop_first();
        if s.contains(c) {
            let k = choose|k: int| 0 <= k < s.len() && s[k] == c;
            assert(t[k - 1] == c);
        }
        if t.contains(c) {
            let k = choose|k: int| 0 <= k < t.len() && t[k] == c;
            assert(s[k + 1] == c);
        }
    }
}

proof fn lemma_trim_end_keeps_char(s: Seq<char>, c: char)
    requires
        !is_white(c),
    ensures
        digits_of(trim_end(s)) == digits_of(s),
        trim_end(s).contains(c) <==> s.contains(c),
    decreases s.len(),
{
    if s.len() > 0 && is_white(s.last()) {
        lemma_trim_end_keeps_char(s.drop_last(), c);
        let t = s.drop_last();
        if s.contains(c) {
            let k = choose|k: int| 0 <= k < s.len() && s[k] == c;
            assert(t[k] == c);
        }
        if t.contains(c) {
            let k = choose|k: int| 0 <= k < t.len() && t[k] == c;
            assert(s[k] == c);
        }
    }
}

/// Trimming takes away no digit, and no other character that is not white.
pub proof fn lemma_trimming_keeps(s: Seq<char>, c: char)
    requires
        !is_white(c),
    ensures
        digits_of(trimmed(s)) == digits_of(s),
        trimmed(s).contains(c) <==> s.contains(c),
{
    lemma_trim_start_keeps_char(s, c);
    lemma_trim_end_keeps_char(trim_start(s), c);
}

/// Collecting digits yields digits only.
pub proof fn lemma_digits_are_digits(s: Seq<char>)
    ensures
        forall|i: int| 0 <= i < digits_of(s).len() ==> is_digit(#[trigger] digits_of(s)[i]),
        digits_of(s).len() <= s.len(),
    decreases s.len(),
{
    if s.len() > 0 {
        lemma_digits_are_digits(s.drop_last());
    }
}

/// Collecting the digits of a text made of digits changes nothing.
pub proof fn lemma_digits_fixed(s: Seq<char>)
    requires
        forall|i: int| 0 <= i < s.len() ==> is_digit(#[trigger] s[i]),
    ensures
        digits_of(s) == s,
    decreases s.len(),
{
    if s.len() > 0 {
        lemma_digits_fixed(s.drop_last());
        assert(s.drop_last().push(s.last()) =~= s);
    } else {
        assert(digits_of(s) =~= s);
    }
}

/// The first `max` characters of a text, with an ellipsis when it is longer.
pub open spec fn shortened(s: Seq<char>, max: nat) -> Seq<char> {
    if s.len() <= max {
        s
    } else {
        s.take(max as int).push('…')
    }
}

/// The first `max` characters of a text, with an ellipsis when it is longer.
pub fn shorten(s: &str, max: usize) -> (r: String)
    ensures
        r@ == shortened(s@, max as nat),
{
    let chars = chars_of(s);
    if chars.len() <= max {
        return s.to_owned();
    }
    let mut out = substring(&chars, 0, max);
    proof {
        assert(s@.subrange(0, max as int) =~= s@.take(max as int));
    }
    out.push('…');
    out
}

/// `std::str::from_utf8`: the text that `bytes` encode in UTF-8, and `None`
/// exactly when they are not UTF-8.
#[verifier::external_body]
fn decode(bytes: &[u8]) -> (r: Option<&str>)
    ensures
        r is Some <==> valid_utf8(bytes@),
        r matches Some(s) ==> encode_utf8(s@) == bytes@,
{
    std::str::from_utf8(bytes).ok()
}

/// The text that `bytes` encode in UTF-8, if they are UTF-8.
pub fn from_utf8(bytes: &[u8]) -> (r: Option<String>)
    ensures
        r is Some <==> valid_utf8(bytes@),
        r matches Some(s) ==> encode_utf8(s@) == bytes@,
{
    match decode(bytes) {
        Some(s) => Some(s.to_owned()),
        None => None,
    }
}

/// Whether a text neither begins nor ends with white space.
pub open spec fn tight(s: Seq<char>) -> bool {
    s.len() > 0 ==> !is_white(s[0]) && !is_white(s.last())
}

/// Trimming leaves a part of the text that has no white space at its ends.
pub proof fn lemma_trimmed(s: Seq<char>) -> (r: (int, int))
    ensures
        0 <= r.0 <= r.1 <= s.len(),
        trimmed(s) == s.subrange(r.0, r.1),
        tight(trimmed(s)),
    decreases s.len(),
{
    if s.len() > 0 && is_white(s[0]) {
        let t = s.drop_first();
        let q = lemma_trimmed(t);
        assert(t.subrange(q.0, q.1) =~= s.subrange(q.0 + 1, q.1 + 1));
        (q.0 + 1, q.1 + 1)
    } else {
        let k = lemma_trim_end_part(s);
        assert(s.take(k) =~= s.subrange(0, k));
        (0, k)
    }
}

proof fn lemma_trim_end_part(s: Seq<char>) -> (k: int)
    ensures
        0 <= k <= s.len(),
        trim_end(s) == s.take(k),
        k > 0 ==> !is_white(s[k - 1]),
    decreases s.len(),
{
    if s.len() > 0 && is_white(s.last()) {
        let k = lemma_trim_end_part(s.drop_last());
        assert(s.drop_last().take(k) =~= s.take(k));
        k
    } else {
        assert(s.take(s.len() as int) =~= s);
        s.len() as int
    }
}

/// A text without white space at its ends is its own trimming.
pub proof fn lemma_trim_tight(s: Seq<char>)
    requires
        tight(s),
    ensures
        trimmed(s) == s,
{
}

/// The view of an optional string.
pub open spec fn opt_view(s: Option<String>) -> Option<Seq<char>> {
    match s {
        Some(s) => Some(s@),
        None => None,
    }
}

/// A copy of an optional string.
pub fn clone_opt(s: &Option<String>) -> (r: Option<String>)
    ensures
        r == *s,
{
    match s {
        Some(s) => Some(s.clone()),
        None => None,
    }
}

/// The last `n` characters of a text, or all of them.
pub open spec fn last_chars(s: Seq<char>, n: int) -> Seq<char> {
    if s.len() > n {
        s.skip(s.len() - n)
    } else {
        s
    }
}

/// A text in which each `from` is replaced by `to`.
pub open spec fn replaced(s: Seq<char>, from: char, to: Seq<char>) -> Seq<char>
    decreases s.len(),
{
    if s.len() == 0 {
        Seq::empty()
    } else if s.last() == from {
        replaced(s.drop_last(), from, to) + to
    } else {
        replaced(s.drop_last(), from, to).push(s.last())
    }
}

/// Replaces each `from` by `to`.
pub fn replace_char(s: &str, from: char, to: &str) -> (r: String)
    ensures
        r@ == replaced(s@, from, to@),
{
    let chars = chars_of(s);
    let mut out = String::new();
    let mut i: usize = 0;
    while i < chars.len()
        invariant
            i <= chars@.len(),
            chars@ == s@,
            out@ == replaced(s@.take(i as int), from, to@),
        decreases chars@.len() - i,
    {
        proof {
            assert(s@.take(i + 1).drop_last() =~= s@.take(i as int));
        }
        if chars[i] == from {
            out.append(to);
        } else {
            out.push(chars[i]);
        }
        i = i + 1;
    }
    proof {
        assert(s@.take(i as int) =~= s@);
    }
    out
}

/// Whether a text stands in another.
pub open spec fn has_part(s: Seq<char>, part: Seq<char>) -> bool {
    exists|i: int| #[trigger] part_at(s, part, i)
}

/// Whether a text stands in another at an index.
pub open spec fn part_at(s: Seq<char>, part: Seq<char>, i: int) -> bool {
    0 <= i && i + part.len() <= s.len() && s.subrange(i, i + part.len()) == part
}

/// Whether a text stands in another.
pub fn contains(s: &str, part: &str) -> (r: bool)
    ensures
        r == has_part(s@, part@),
{
    let a = chars_of(s);
    let b = chars_of(part);
    let n: usize = a.len();
    if b.len() > n {
        return false;
    }
    let last: usize = n - b.len();
    let mut i: usize = 0;
    loop
        invariant
            i <= last,
            a@ == s@,
            b@ == part@,
            n == a@.len(),
            last + b@.len() == n,
            forall|j: int| 0 <= j < i ==> !part_at(s@, part@, j),
        decreases last - i,
    {
        let mut k: usize = 0;
        while k < b.len() && a[i + k] == b[k]
            invariant
                k <= b@.len(),
                i + b@.len() <= a@.len() == n,
                forall|j: int| 0 <= j < k ==> a@[i + j] == b@[j],
            decreases b@.len() - k,
        {
            k = k + 1;
        }
        if k == b.len() {
            proof {
                assert(s@.subrange(i as int, i + part@.len()) =~= part@);
                assert(part_at(s@, part@, i as int));
            }
            return true;
        }
        proof {
            assert(!part_at(s@, part@, i as int)) by {
                if part_at(s@, part@, i as int) {
                    assert(s@.subrange(i as int, i + part@.len())[k as int] == a@[i + k]);
                }
            }
        }
        if i == last {
            proof {
                assert forall|j: int| !(#[trigger] part_at(s@, part@, j)) by {
                    if part_at(s@, part@, j) {
                        assert(j <= last);
                    }
                }
            }
            return false;
        }
        i = i + 1;
    }
}

/// A text has no words exactly when it is blank.
pub proof fn lemma_no_words(s: Seq<char>)
    ensures
        words(s).len() == 0 <==> blank(s),
{
    lemma_blank(s);
    lemma_words_from(Seq::empty(), s);
}

proof fn lemma_words_from(cur: Seq<char>, s: Seq<char>)
    ensures
        words_from(cur, s).len() == 0 <==> (cur.len() == 0 && forall|i: int|
            0 <= i < s.len() ==> is_white(#[trigger] s[i])),
    decreases s.len(),
{
    if s.len() > 0 {
        let rest = s.drop_first();
        if is_white(s[0]) {
            lemma_words_from(Seq::empty(), rest);
        } else {
            lemma_words_from(cur.push(s[0]), rest);
        }
        assert forall|i: int| 0 <= i < rest.len() implies rest[i] == s[i + 1] by {}
        if forall|i: int| 0 <= i < rest.len() ==> is_white(#[trigger] rest[i]) {
            assert forall|i: int| 1 <= i < s.len() implies is_white(#[trigger] s[i]) by {
                assert(rest[i - 1] == s[i]);
            }
        }
    }
}

/// How often a character occurs in a text.
pub open spec fn count(s: Seq<char>, c: char) -> nat
    decreases s.len(),
{
    if s.len() == 0 {
        0
    } else {
        count(s.drop_last(), c) + if s.last() == c {
            1nat
        } else {
            0
        }
    }
}

/// A character occurs in two texts in a row as often as in both.
pub proof fn lemma_count_concat(a: Seq<char>, b: Seq<char>, c: char)
    ensures
        count(a + b, c) == count(a, c) + count(b, c),
    decreases b.len(),
{
    if b.len() == 0 {
        assert(a + b =~= a);
    } else {
        lemma_count_concat(a, b.drop_last(), c);
        assert((a + b).drop_last() =~= a + b.drop_last());
    }
}

/// The first place at or behind an index where a text stands in another.
pub open spec fn found_from(s: Seq<char>, part: Seq<char>, i: int) -> Option<int>
    decreases s.len() - i + 1,
{
    if i < 0 || i + part.len() > s.len() {
        None
    } else if part_at(s, part, i) {
        Some(i)
    } else {
        found_from(s, part, i + 1)
    }
}

/// The first place where a text stands in another.
pub open spec fn found(s: Seq<char>, part: Seq<char>) -> Option<int> {
    found_from(s, part, 0)
}

/// The first place where some characters stand among others.
pub fn find(chars: &[char], part: &[char]) -> (r: Option<usize>)
    ensures
        r is Some <==> found(chars@, part@) is Some,
        r matches Some(i) ==> found(chars@, part@) == Some(i as int) && i + part@.len()
            <= chars@.len(),
{
    let mut i: usize = 0;
    while part.len() <= chars.len() - i
        invariant
            i <= chars@.len(),
            found(chars@, part@) == found_from(chars@, part@, i as int),
        decreases chars@.len() - i,
    {
        let mut k: usize = 0;
        while k < part.len() && chars[i + k] == part[k]
            invariant
                k <= part@.len(),
                i + part@.len() <= chars@.len() <= usize::MAX,
                forall|j: int| 0 <= j < k ==> chars@[i + j] == part@[j],
            decreases part@.len() - k,
        {
            k = k + 1;
        }
        if k == part.len() {
            proof {
                assert(chars@.subrange(i as int, i + part@.len()) =~= part@);
                assert(part_at(chars@, part@, i as int));
            }
            return Some(i);
        }
        proof {
            assert(!part_at(chars@, part@, i as int)) by {
                if part_at(chars@, part@, i as int) {
                    assert(chars@.subrange(i as int, i + part@.len())[k as int] == chars@[i + k]);
                }
            }
        }
        if i == chars.len() {
            return None;
        }
        i = i + 1;
    }
    None
}

/// How many characters stand before the first that is one of `stops`.
pub open spec fn run_until(s: Seq<char>, stops: Seq<char>) -> int
    decreases s.len(),
{
    if s.len() == 0 || stops.contains(s[0]) {
        0
    } else {
        1 + run_until(s.drop_first(), stops)
    }
}

/// The characters before the first that is one of `stops`.
pub open spec fn until(s: Seq<char>, stops: Seq<char>) -> Seq<char> {
    s.take(run_until(s, stops))
}

/// A run ends within the text: before one of the stops or at the end, and holds
/// none of them.
pub proof fn lemma_run_until(s: Seq<char>, stops: Seq<char>)
    ensures
        0 <= run_until(s, stops) <= s.len(),
        forall|i: int| 0 <= i < run_until(s, stops) ==> !stops.contains(#[trigger] s[i]),
        run_until(s, stops) < s.len() ==> stops.contains(s[run_until(s, stops)]),
    decreases s.len(),
{
    if s.len() > 0 && !stops.contains(s[0]) {
        let t = s.drop_first();
        lemma_run_until(t, stops);
        assert forall|i: int| 0 <= i < run_until(s, stops) implies !stops.contains(
            #[trigger] s[i],
        ) by {
            if i > 0 {
                assert(t[i - 1] == s[i]);
            }
        }
    }
}

/// A run goes on through a text that holds no stop.
pub proof fn lemma_run_until_concat(a: Seq<char>, b: Seq<char>, stops: Seq<char>)
    requires
        forall|i: int| 0 <= i < a.len() ==> !stops.contains(#[trigger] a[i]),
    ensures
        run_until(a + b, stops) == a.len() + run_until(b, stops),
    decreases a.len(),
{
    if a.len() == 0 {
        assert(a + b =~= b);
    } else {
        let t = a.drop_first();
        assert forall|i: int| 0 <= i < t.len() implies !stops.contains(#[trigger] t[i]) by {
            assert(t[i] == a[i + 1]);
        }
        lemma_run_until_concat(t, b, stops);
        assert((a + b).drop_first() =~= t + b);
        assert((a + b)[0] == a[0]);
    }
}

/// The characters before the first that is one of `stops`.
pub fn take_until(chars: &[char], stops: &[char]) -> (r: String)
    ensures
        r@ == until(chars@, stops@),
{
    let mut i: usize = 0;
    proof {
        assert(chars@.skip(0) =~= chars@);
    }
    loop
        invariant
            i <= chars@.len(),
            run_until(chars@, stops@) == i + run_until(chars@.skip(i as int), stops@),
        ensures
            i <= chars@.len(),
            i == run_until(chars@, stops@),
        decreases chars@.len() - i,
    {
        if i == chars.len() {
            break;
        }
        let c: char = chars[i];
        let mut k: usize = 0;
        while k < stops.len() && stops[k] != c
            invariant
                k <= stops@.len(),
                forall|j: int| 0 <= j < k ==> stops@[j] != c,
            decreases stops@.len() - k,
        {
            k = k + 1;
        }
        proof {
            assert(chars@.skip(i as int)[0] == c);
            if k < stops@.len() {
                assert(stops@[k as int] == c);
            } else {
                assert(!stops@.contains(c));
                assert(chars@.skip(i as int).drop_first() =~= chars@.skip(i + 1));
            }
        }
        if k < stops.len() {
            break;
        }
        i = i + 1;
    }
    proof {
        assert(chars@.subrange(0, i as int) =~= chars@.take(i as int));
    }
    substring(chars, 0, i)
}

/// The Unicode lower-case form of a text.
pub uninterp spec fn lowercase(s: Seq<char>) -> Seq<char>;

/// `str::to_lowercase`: the result is a function of the text alone.
#[verifier::external_body]
pub(crate) fn to_lowercase(s: &str) -> (r: String)
    ensures
        r@ == lowercase(s@),
{
    s.to_lowercase()
}

/// The last index at which a character stands.
pub open spec fn last_index(s: Seq<char>, c: char) -> Option<int>
    decreases s.len(),
{
    if s.len() == 0 {
        None
    } else if s.last() == c {
        Some(s.len() - 1)
    } else {
        last_index(s.drop_last(), c)
    }
}

/// The last index at which a character stands lies within the text, and the
/// character does not stand behind it; where it stands nowhere there is none.
pub proof fn lemma_last_index(s: Seq<char>, c: char)
    ensures
        last_index(s, c) matches Some(i) ==> 0 <= i < s.len() && s[i] == c && forall|j: int|
            i < j < s.len() ==> (#[trigger] s[j]) != c,
        last_index(s, c) is None <==> !s.contains(c),
    decreases s.len(),
{
    if s.len() > 0 {
        let f = s.drop_last();
        lemma_last_index(f, c);
        if s.last() == c {
            assert(s[s.len() - 1] == c);
        } else if s.contains(c) {
            let k = choose|k: int| 0 <= k < s.len() && s[k] == c;
            assert(f[k] == c);
        } else if f.contains(c) {
            let k = choose|k: int| 0 <= k < f.len() && f[k] == c;
            assert(s[k] == c);
        }
        assert(last_index(s, c) matches Some(i) ==> forall|j: int|
            i < j < f.len() ==> f[j] == s[j]);
    }
}

/// The last index at which a character stands, behind a place where it stands.
pub proof fn lemma_last_index_concat(a: Seq<char>, c: char, b: Seq<char>)
    ensures
        last_index(a + seq![c] + b, c) == match last_index(b, c) {
            Some(i) => Some(a.len() + 1 + i),
            None => Some(a.len() as int),
        },
        last_index(b, c) matches Some(i) ==> 0 <= i < b.len(),
    decreases b.len(),
{
    lemma_last_index(b, c);
    let all = a + seq![c] + b;
    if b.len() == 0 {
        assert(all.last() == c);
    } else {
        lemma_last_index_concat(a, c, b.drop_last());
        assert(all.last() == b.last());
        assert(all.drop_last() =~= a + seq![c] + b.drop_last());
    }
}

/// Splits a text at the last place where a character stands, which is
/// dropped.
pub fn split_at_last(s: &str, c: char) -> (r: Option<(String, String)>)
    ensures
        r is Some <==> last_index(s@, c) is Some,
        r matches Some((a, b)) ==> ({
            let i = last_index(s@, c)->0;
            a@ == s@.take(i) && b@ == s@.skip(i + 1)
        }),
{
    let chars = chars_of(s);
    let mut n: usize = chars.len();
    proof {
        assert(s@.take(n as int) =~= s@);
    }
    while n > 0
        invariant
            n <= chars@.len(),
            chars@ == s@,
            last_index(s@, c) == last_index(s@.take(n as int), c),
        decreases n,
    {
        proof {
            assert(s@.take(n as int).last() == s@[n - 1]);
            assert(s@.take(n as int).drop_last() =~= s@.take(n - 1));
        }
        if chars[n - 1] == c {
            let a = substring(&chars, 0, n - 1);
            let b = substring(&chars, n, chars.len());
            proof {
                assert(s@.subrange(0, n - 1) =~= s@.take(n - 1));
                assert(s@.subrange(n as int, s@.len() as int) =~= s@.skip(n as int));
            }
            return Some((a, b));
        }
        n = n - 1;
    }
    None
}

/// The text of an optional string slice.
pub open spec fn opt_str(s: Option<&str>) -> Option<Seq<char>> {
    match s {
        Some(s) => Some(s@),
        None => None,
    }
}

/// An optional text as a slice.
pub fn as_deref(s: &Option<String>) -> (r: Option<&str>)
    ensures
        opt_str(r) == opt_view(*s),
{
    match s {
        Some(s) => Some(s.as_str()),
        None => None,
    }
}

/// The first place of a character that does not stand before it.
pub proof fn lemma_found_char(before: Seq<char>, c: char, after: Seq<char>)
    requires
        !before.contains(c),
    ensures
        found(before + seq![c] + after, seq![c]) == Some(before.len() as int),
{
    lemma_found_char_from(before, c, after, 0);
}

proof fn lemma_found_char_from(before: Seq<char>, c: char, after: Seq<char>, i: int)
    requires
        !before.contains(c),
        0 <= i <= before.len(),
    ensures
        found_from(before + seq![c] + after, seq![c], i) == Some(before.len() as int),
    decreases before.len() - i,
{
    let s = before + seq![c] + after;
    if i < before.len() {
        assert(s.subrange(i, i + 1)[0] == before[i]);
        assert(before.contains(before[i]));
        assert(seq![c][0] == c);
        lemma_found_char_from(before, c, after, i + 1);
    } else {
        assert(s.subrange(i, i + 1) =~= seq![c]);
    }
}

/// White space is what Unicode calls so: tab, line feed, vertical tab, form feed,
/// carriage return, space, next line, the no-break space, and the wider ones.
pub proof fn law_what_is_white(c: char)
    ensures
        is_white(c) <==> seq![
            '\t',
            '\n',
            '\u{b}',
            '\u{c}',
            '\r',
            ' ',
            '\u{85}',
            '\u{a0}',
            '\u{1680}',
            '\u{2000}',
            '\u{2001}',
            '\u{2002}',
            '\u{2003}',
            '\u{2004}',
            '\u{2005}',
            '\u{2006}',
            '\u{2007}',
            '\u{2008}',
            '\u{2009}',
            '\u{200a}',
            '\u{2028}',
            '\u{2029}',
            '\u{202f}',
            '\u{205f}',
            '\u{3000}',
        ].contains(c),
{
    let s = seq![
        '\t',
        '\n',
        '\u{b}',
        '\u{c}',
        '\r',
        ' ',
        '\u{85}',
        '\u{a0}',
        '\u{1680}',
        '\u{2000}',
        '\u{2001}',
        '\u{2002}',
        '\u{2003}',
        '\u{2004}',
        '\u{2005}',
        '\u{2006}',
        '\u{2007}',
        '\u{2008}',
        '\u{2009}',
        '\u{200a}',
        '\u{2028}',
        '\u{2029}',
        '\u{202f}',
        '\u{205f}',
        '\u{3000}',
    ];
    let n = c as u32;
    if is_white(c) {
        let k: int = if n <= 0x0d {
            n - 9
        } else if n == 0x20 {
            5
        } else if n == 0x85 {
            6
        } else if n == 0xa0 {
            7
        } else if n == 0x1680 {
            8
        } else if n <= 0x200a {
            n - 0x2000 + 9
        } else if n == 0x2028 {
            20
        } else if n == 0x2029 {
            21
        } else if n == 0x202f {
            22
        } else if n == 0x205f {
            23
        } else {
            24
        };
        assert(s[k] == c);
    }
}

/// Words are the longest runs of characters that are not white space: word `i`
/// stands at `o[i]`, white space or an end of the text is on either side of it, and
/// every character that is not white space is in one of them.
pub proof fn law_words(s: Seq<char>) -> (o: Seq<int>)
    ensures
        o.len() == words(s).len(),
        forall|i: int|
            0 <= i < o.len() ==> is_word_at(s, #[trigger] o[i], words(s)[i]),
        forall|i: int, j: int|
            0 <= i < j < o.len() ==> #[trigger] o[i] + words(s)[i].len() < #[trigger] o[j],
        forall|k: int|
            0 <= k < s.len() && !is_white(#[trigger] s[k]) ==> exists|i: int|
                0 <= i < o.len() && #[trigger] o[i] <= k < o[i] + words(s)[i].len(),
{
    assert(s.subrange(0, 0) =~= Seq::<char>::empty());
    assert(s.skip(0) =~= s);
    lemma_word_places(s, 0, 0)
}

/// Whether a word stands at a place of a text, and goes no further on either side.
pub open spec fn is_word_at(s: Seq<char>, at: int, w: Seq<char>) -> bool {
    &&& 0 <= at
    &&& w.len() > 0
    &&& at + w.len() <= s.len()
    &&& s.subrange(at, at + w.len()) == w
    &&& forall|k: int| 0 <= k < w.len() ==> !is_white(#[trigger] w[k])
    &&& at > 0 ==> is_white(s[at - 1])
    &&& at + w.len() < s.len() ==> is_white(s[at + w.len()])
}

proof fn lemma_word_places(s: Seq<char>, from: int, i: int) -> (o: Seq<int>)
    requires
        0 <= from <= i <= s.len(),
        from > 0 ==> is_white(s[from - 1]),
        forall|k: int| from <= k < i ==> !is_white(#[trigger] s[k]),
    ensures
        ({
            let ws = words_from(s.subrange(from, i), s.skip(i));
            &&& o.len() == ws.len()
            &&& forall|n: int| 0 <= n < o.len() ==> is_word_at(s, #[trigger] o[n], ws[n]) && o[n]
                >= from
            &&& forall|a: int, b: int|
                0 <= a < b < o.len() ==> #[trigger] o[a] + ws[a].len() < #[trigger] o[b]
            &&& forall|k: int|
                from <= k < s.len() && !is_white(#[trigger] s[k]) ==> exists|n: int|
                    0 <= n < o.len() && #[trigger] o[n] <= k < o[n] + ws[n].len()
        }),
    decreases s.len() - i,
{
    let cur = s.subrange(from, i);
    let rest = s.skip(i);
    let ws = words_from(cur, rest);
    if i == s.len() {
        if cur.len() == 0 {
            Seq::empty()
        } else {
            let o = seq![from];
            assert(is_word_at(s, o[0], ws[0]));
            assert forall|k: int| from <= k < s.len() && !is_white(#[trigger] s[k]) implies exists|
                n: int,
            |
                0 <= n < o.len() && #[trigger] o[n] <= k < o[n] + ws[n].len() by {
                assert(o[0] <= k);
            }
            o
        }
    } else {
        assert(rest[0] == s[i]);
        assert(rest.drop_first() =~= s.skip(i + 1));
        if is_white(s[i]) {
            assert(s.subrange(i + 1, i + 1) =~= Seq::<char>::empty());
            let r = lemma_word_places(s, i + 1, i + 1);
            let rs = words_from(Seq::empty(), s.skip(i + 1));
            if cur.len() == 0 {
                r
            } else {
                let o = seq![from] + r;
                assert(is_word_at(s, from, cur));
                assert forall|n: int| 0 <= n < o.len() implies is_word_at(s, #[trigger] o[n], ws[n])
                    && o[n] >= from by {
                    if n > 0 {
                        assert(o[n] == r[n - 1]);
                        assert(ws[n] == rs[n - 1]);
                    }
                }
                assert forall|a: int, b: int| 0 <= a < b < o.len() implies #[trigger] o[a]
                    + ws[a].len() < #[trigger] o[b] by {
                    assert(o[b] == r[b - 1]);
                    if a > 0 {
                        assert(o[a] == r[a - 1]);
                        assert(ws[a] == rs[a - 1]);
                    }
                }
                assert forall|k: int| from <= k < s.len() && !is_white(
                    #[trigger] s[k],
                ) implies exists|n: int|
                    0 <= n < o.len() && #[trigger] o[n] <= k < o[n] + ws[n].len() by {
                    if k < i {
                        assert(o[0] <= k < o[0] + ws[0].len());
                    } else {
                        let n = choose|n: int|
                            0 <= n < r.len() && #[trigger] r[n] <= k < r[n] + rs[n].len();
                        assert(o[n + 1] == r[n]);
                        assert(ws[n + 1] == rs[n]);
                    }
                }
                o
            }
        } else {
            assert(s.subrange(from, i + 1) =~= cur.push(s[i]));
            lemma_word_places(s, from, i + 1)
        }
    }
}

/// Parts are joined in their order, with the separator between each two.
pub proof fn law_joining(parts: Seq<Seq<char>>, sep: Seq<char>)
    requires
        parts.len() > 0,
    ensures
        joined(Seq::empty(), sep) == Seq::<char>::empty(),
        joined(parts, sep) == parts.drop_first().fold_left(
            parts[0],
            |acc: Seq<char>, p: Seq<char>| acc + sep + p,
        ),
    decreases parts.len(),
{
    let f = |acc: Seq<char>, p: Seq<char>| acc + sep + p;
    let rest = parts.drop_first();
    if parts.len() > 1 {
        law_joining(parts.drop_last(), sep);
        assert(parts.drop_last().drop_first() =~= rest.drop_last());
        assert(rest.last() == parts.last());
        reveal(Seq::fold_left);
    } else {
        reveal(Seq::fold_left);
    }
}

/// A character is replaced wherever it stands, and nothing else is.
pub proof fn law_replacing(s: Seq<char>, c: char, with: Seq<char>)
    ensures
        replaced(s, c, with) == s.fold_left(
            Seq::<char>::empty(),
            |acc: Seq<char>, x: char|
                if x == c {
                    acc + with
                } else {
                    acc.push(x)
                },
        ),
    decreases s.len(),
{
    reveal(Seq::fold_left);
    if s.len() > 0 {
        law_replacing(s.drop_last(), c, with);
    }
}

/// A text in lower case has the same characters, but for the letters from `A` to
/// `Z`, which stand 32 places further on.
pub proof fn law_lower_case(s: Seq<char>, i: int)
    requires
        0 <= i < s.len(),
    ensures
        lowered(s).len() == s.len(),
        'A' <= s[i] && s[i] <= 'Z' ==> lowered(s)[i] as int == s[i] as int + 32,
        !('A' <= s[i] && s[i] <= 'Z') ==> lowered(s)[i] == s[i],
{
}

/// What trimming takes away: the white space before `r.0` and from `r.1` on, and
/// nothing else; what is left neither begins nor ends with white space.
pub proof fn law_trimming(s: Seq<char>) -> (r: (int, int))
    ensures
        0 <= r.0 <= r.1 <= s.len(),
        trimmed(s) == s.subrange(r.0, r.1),
        forall|i: int| 0 <= i < r.0 || r.1 <= i < s.len() ==> is_white(#[trigger] s[i]),
        r.0 < r.1 ==> !is_white(s[r.0]) && !is_white(s[r.1 - 1]),
    decreases s.len(),
{
    if s.len() > 0 && is_white(s[0]) {
        let t = s.drop_first();
        let q = law_trimming(t);
        assert(t.subrange(q.0, q.1) =~= s.subrange(q.0 + 1, q.1 + 1));
        assert forall|i: int| 0 <= i < q.0 + 1 || q.1 + 1 <= i < s.len() implies is_white(
            #[trigger] s[i],
        ) by {
            if i > 0 {
                assert(t[i - 1] == s[i]);
            }
        }
        (q.0 + 1, q.1 + 1)
    } else {
        let k = lemma_trim_end_whole(s);
        assert(s.take(k) =~= s.subrange(0, k));
        (0, k)
    }
}

proof fn lemma_trim_end_whole(s: Seq<char>) -> (k: int)
    ensures
        0 <= k <= s.len(),
        trim_end(s) == s.take(k),
        k > 0 ==> !is_white(s[k - 1]),
        forall|i: int| k <= i < s.len() ==> is_white(#[trigger] s[i]),
    decreases s.len(),
{
    if s.len() > 0 && is_white(s.last()) {
        let f = s.drop_last();
        let k = lemma_trim_end_whole(f);
        assert(f.take(k) =~= s.take(k));
        assert forall|i: int| k <= i < s.len() implies is_white(#[trigger] s[i]) by {
            if i < f.len() {
                assert(f[i] == s[i]);
            }
        }
        k
    } else {
        assert(s.take(s.len() as int) =~= s);
        s.len() as int
    }
}

/// Lines put back together: where a text holds no carriage return, its lines, each
/// with a line feed behind it, are the text, or the text and one line feed. No
/// line holds a line feed.
pub proof fn law_lines(s: Seq<char>)
    requires
        !s.contains('\r'),
    ensures
        ({
            let whole = lines_of(s).fold_left(
                Seq::<char>::empty(),
                |acc: Seq<char>, l: Seq<char>| acc + l + seq!['\n'],
            );
            whole == s || whole == s.push('\n')
        }),
        forall|i: int| 0 <= i < lines_of(s).len() ==> !(#[trigger] lines_of(s)[i]).contains('\n'),
{
    let f = |acc: Seq<char>, l: Seq<char>| acc + l + seq!['\n'];
    lemma_lines_from(Seq::empty(), s, Seq::empty());
    let whole = lines_of(s).fold_left(Seq::<char>::empty(), f);
    assert(Seq::<char>::empty() + Seq::<char>::empty() + s =~= s);
}

proof fn lemma_lines_from(cur: Seq<char>, s: Seq<char>, acc: Seq<char>)
    requires
        !s.contains('\r'),
        !cur.contains('\r'),
        !cur.contains('\n'),
    ensures
        ({
            let whole = lines_from(cur, s).fold_left(
                acc,
                |acc: Seq<char>, l: Seq<char>| acc + l + seq!['\n'],
            );
            whole == acc + cur + s || whole == (acc + cur + s).push('\n')
        }),
        forall|i: int|
            0 <= i < lines_from(cur, s).len() ==> !(#[trigger] lines_from(cur, s)[i]).contains(
                '\n',
            ),
    decreases s.len(),
{
    let f = |acc: Seq<char>, l: Seq<char>| acc + l + seq!['\n'];
    let ls = lines_from(cur, s);
    if s.len() == 0 {
        if cur.len() == 0 {
            reveal(Seq::fold_left);
            assert(acc + cur + s =~= acc);
        } else {
            lemma_fold_first(ls, acc, f);
            assert(ls.drop_first() =~= Seq::<Seq<char>>::empty());
            reveal(Seq::fold_left);
            assert(acc + cur + seq!['\n'] =~= (acc + cur + s).push('\n'));
        }
    } else {
        let rest = s.drop_first();
        assert forall|i: int| 0 <= i < rest.len() implies rest[i] != '\r' by {
            assert(s[i + 1] != '\r');
        }
        assert(s[0] != '\r');
        if s[0] == '\n' {
            assert(strip_cr(cur) == cur) by {
                if cur.len() > 0 {
                    assert(cur[cur.len() - 1] != '\r');
                }
            }
            let next = acc + cur + seq!['\n'];
            lemma_lines_from(Seq::empty(), rest, next);
            lemma_fold_first(ls, acc, f);
            assert(ls.drop_first() =~= lines_from(Seq::empty(), rest));
            assert(next + Seq::<char>::empty() + rest =~= acc + cur + s);
            assert forall|i: int| 0 <= i < ls.len() implies !(#[trigger] ls[i]).contains(
                '\n',
            ) by {
                if i > 0 {
                    assert(ls[i] == lines_from(Seq::empty(), rest)[i - 1]);
                }
            }
        } else {
            let more = cur.push(s[0]);
            assert forall|i: int| 0 <= i < more.len() implies more[i] != '\r' && more[i]
                != '\n' by {
                if i < cur.len() {
                    assert(cur[i] == more[i]);
                }
            }
            lemma_lines_from(more, rest, acc);
            assert(acc + more + rest =~= acc + cur + s);
        }
    }
}

proof fn lemma_fold_first(
    ls: Seq<Seq<char>>,
    acc: Seq<char>,
    f: spec_fn(Seq<char>, Seq<char>) -> Seq<char>,
)
    requires
        ls.len() > 0,
    ensures
        ls.fold_left(acc, f) == ls.drop_first().fold_left(f(acc, ls[0]), f),
    decreases ls.len(),
{
    reveal_with_fuel(Seq::fold_left, 2);
    if ls.len() > 1 {
        lemma_fold_first(ls.drop_last(), acc, f);
        assert(ls.drop_last().drop_first() =~= ls.drop_first().drop_last());
        assert(ls.drop_first().last() == ls.last());
    } else {
        assert(ls.drop_last() =~= Seq::<Seq<char>>::empty());
        assert(ls.drop_first() =~= Seq::<Seq<char>>::empty());
    }
}

} // verus!
