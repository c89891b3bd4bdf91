//! Numbers written as text: decimal and hexadecimal.
use vstd::prelude::*;
use vstd::string::*;
use crate::text;
use crate::text::chars_of;

verus! {

/// The character of a decimal digit.
pub open spec fn digit_char(d: nat) -> char {
    ((48 + d) as u8) as char
}

/// The decimal numeral of a natural number, without leading zeros.
pub open spec fn decimal(n: nat) -> Seq<char>
    decreases n,
{
    if n < 10 {
        seq![digit_char(n)]
    } else {
        decimal(n / 10).push(digit_char(n % 10))
    }
}

/// The decimal numeral of an integer, with a minus sign when negative.
pub open spec fn decimal_int(n: int) -> Seq<char> {
    if n < 0 {
        seq!['-'] + decimal((-n) as nat)
    } else {
        decimal(n as nat)
    }
}

/// The decimal numeral of a number.
pub fn decimal_u64(n: u64) -> (r: String)
    ensures
        r@ == decimal(n as nat),
    decreases n,
{
    if n < 10 {
        let mut s = String::new();
        s.push((48 + n as u8) as char);
        proof {
            assert(s@ =~= decimal(n as nat));
        }
        s
    } else {
        let mut s = decimal_u64(n / 10);
        s.push((48 + (n % 10) as u8) as char);
        s
    }
}

/// The decimal numeral of a signed number.
pub fn decimal_i64(n: i64) -> (r: String)
    ensures
        r@ == decimal_int(n as int),
{
    if n < 0 {
        let magnitude: u64 = (-(n + 1)) as u64 + 1;
        let mut s = String::new();
        s.push('-');
        proof {
            assert(s@ =~= seq!['-']);
        }
        let digits = decimal_u64(magnitude);
        s.append(digits.as_str());
        s
    } else {
        decimal_u64(n as u64)
    }
}

/// The value of a run of decimal digits.
pub open spec fn value_of(s: Seq<char>) -> nat
    decreases s.len(),
{
    if s.len() == 0 {
        0
    } else {
        value_of(s.drop_last()) * 10 + ((s.last() as u8) - 48) as nat
    }
}

/// Whether a text is made of one or more decimal digits.
pub open spec fn is_numeral(s: Seq<char>) -> bool {
    s.len() > 0 && forall|i: int| 0 <= i < s.len() ==> text::is_digit(#[trigger] s[i])
}

/// The integer a text denotes: an optional sign and at least one decimal
/// digit, nothing else.
pub open spec fn parsed_int(s: Seq<char>) -> Option<int> {
    if s.len() > 0 && s[0] == '-' && is_numeral(s.skip(1)) {
        Some(-(value_of(s.skip(1)) as int))
    } else if s.len() > 0 && s[0] == '+' && is_numeral(s.skip(1)) {
        Some(value_of(s.skip(1)) as int)
    } else if is_numeral(s) {
        Some(value_of(s) as int)
    } else {
        None
    }
}

/// The 64-bit integer a text denotes, when it denotes one.
pub open spec fn parsed_i64(s: Seq<char>) -> Option<i64> {
    match parsed_int(s) {
        Some(n) => if i64::MIN <= n <= i64::MAX {
            Some(n as i64)
        } else {
            None
        },
        None => None,
    }
}

proof fn lemma_value_grows(s: Seq<char>, k: int)
    requires
        0 <= k <= s.len(),
        forall|i: int| 0 <= i < s.len() ==> text::is_digit(#[trigger] s[i]),
    ensures
        value_of(s.take(k)) <= value_of(s),
    decreases s.len() - k,
{
    if k < s.len() {
        lemma_value_grows(s.drop_last(), k);
        assert(s.drop_last().take(k) =~= s.take(k));
    } else {
        assert(s.take(k) =~= s);
    }
}

/// Reads a signed 64-bit integer written in decimal.
pub fn parse_i64(s: &str) -> (r: Option<i64>)
    ensures
        r == parsed_i64(s@),
{
    let chars = chars_of(s);
    let n: usize = chars.len();
    if n == 0 {
        return None;
    }
    let negative = chars[0] == '-';
    let signed = negative || chars[0] == '+';
    let start: usize = if signed {
        1
    } else {
        0
    };
    let ghost digits = s@.skip(start as int);
    proof {
        assert(s@.skip(0) =~= s@);
    }
    if start == n {
        return None;
    }
    let mut acc: u128 = 0;
    let mut too_big = false;
    let mut i: usize = start;
    proof {
        assert(digits.take(0) =~= Seq::<char>::empty());
    }
    while i < n
        invariant
            start <= i <= n == chars@.len(),
            chars@ == s@,
            signed == (s@[0] == '-' || s@[0] == '+'),
            start == (if signed { 1int } else { 0int }),
            digits == s@.skip(start as int),
            forall|j: int| 0 <= j < i - start ==> text::is_digit(#[trigger] digits[j]),
            !too_big ==> acc == value_of(digits.take(i - start)) && acc <= 0x1_0000_0000_0000_0000,
            too_big ==> value_of(digits.take(i - start)) > 0x1_0000_0000_0000_0000,
        decreases n - i,
    {
        let c = chars[i];
        assert(c == digits[i - start]);
        if !('0' <= c && c <= '9') {
            assert(!text::is_digit(digits[i - start]));
            assert(!is_numeral(digits));
            assert(s@.skip(0) =~= s@);
            if signed {
                assert(!text::is_digit(s@[0]));
                assert(!is_numeral(s@));
            }
            return None;
        }
        proof {
            assert(digits.take(i + 1 - start).drop_last() =~= digits.take(i - start));
        }
        if !too_big {
            acc = acc * 10 + ((c as u8) - 48) as u128;
            if acc > 0x1_0000_0000_0000_0000 {
                too_big = true;
            }
        }
        i = i + 1;
    }
    proof {
        assert(digits.take(n - start) =~= digits);
        if signed {
            assert(!text::is_digit(s@[0]));
            assert(!is_numeral(s@));
        }
    }
    if too_big {
        return None;
    }
    if negative {
        if acc <= 0x8000_0000_0000_0000 {
            Some((-(acc as i128)) as i64)
        } else {
            None
        }
    } else if acc <= 0x7fff_ffff_ffff_ffff {
        Some(acc as i64)
    } else {
        None
    }
}

/// A numeral is made of digits and denotes the number it was made from.
pub proof fn lemma_decimal(n: nat)
    ensures
        is_numeral(decimal(n)),
        value_of(decimal(n)) == n,
    decreases n,
{
    if n < 10 {
        assert(decimal(n).drop_last() =~= Seq::<char>::empty());
        assert(value_of(Seq::<char>::empty()) == 0);
    } else {
        lemma_decimal(n / 10);
        assert(decimal(n).drop_last() =~= decimal(n / 10));
    }
}

/// Reading back the numeral of a number gives the number.
pub proof fn law_decimal_round_trip(n: i64)
    ensures
        parsed_i64(decimal_int(n as int)) == Some(n),
{
    let s = decimal_int(n as int);
    if n < 0 {
        lemma_decimal((-n) as nat);
        assert(s.skip(1) =~= decimal((-n) as nat));
    } else {
        lemma_decimal(n as nat);
        assert(text::is_digit(s[0]));
    }
}

/// The lower-case hexadecimal digit of a number below sixteen.
pub open spec fn hex_char(d: u8) -> char {
    if d < 10 {
        ((48 + d) as u8) as char
    } else {
        ((87 + d) as u8) as char
    }
}

/// Bytes in lower-case hexadecimal, two digits each.
pub open spec fn hex(bytes: Seq<u8>) -> Seq<char>
    decreases bytes.len(),
{
    if bytes.len() == 0 {
        Seq::empty()
    } else {
        hex(bytes.drop_last()).push(hex_char(bytes.last() / 16)).push(hex_char(bytes.last() % 16))
    }
}

fn hex_digit(d: u8) -> (r: char)
    requires
        d < 16,
    ensures
        r == hex_char(d),
{
    if d < 10 {
        (48 + d) as char
    } else {
        (87 + d) as char
    }
}

/// Bytes in lower-case hexadecimal, two digits each.
pub fn hex_text(bytes: &[u8]) -> (r: String)
    ensures
        r@ == hex(bytes@),
{
    let mut out = String::new();
    let mut i: usize = 0;
    while i < bytes.len()
        invariant
            i <= bytes@.len(),
            out@ == hex(bytes@.take(i as int)),
        decreases bytes@.len() - i,
    {
        proof {
            assert(bytes@.take(i + 1).drop_last() =~= bytes@.take(i as int));
        }
        out.push(hex_digit(bytes[i] / 16));
        out.push(hex_digit(bytes[i] % 16));
        i = i + 1;
    }
    proof {
        assert(bytes@.take(i as int) =~= bytes@);
    }
    out
}

/// Hexadecimal text has two characters per byte, each a lower-case
/// hexadecimal digit.
pub proof fn lemma_hex(bytes: Seq<u8>)
    ensures
        hex(bytes).len() == 2 * bytes.len(),
        forall|i: int|
            0 <= i < hex(bytes).len() ==> text::is_digit(#[trigger] hex(bytes)[i]) || ('a' <= hex(bytes)[i]
                && hex(bytes)[i] <= 'f'),
    decreases bytes.len(),
{
    if bytes.len() > 0 {
        lemma_hex(bytes.drop_last());
    }
}

/// Different bytes have different hexadecimal texts.
pub proof fn lemma_hex_injective(a: Seq<u8>, b: Seq<u8>)
    requires
        hex(a) == hex(b),
    ensures
        a == b,
    decreases a.len(),
{
    lemma_hex(a);
    lemma_hex(b);
    if a.len() > 0 {
        let x = hex(a);
        let y = hex(b);
        assert(x[x.len() - 1] == hex_char(a.last() % 16));
        assert(y[y.len() - 1] == hex_char(b.last() % 16));
        assert(x[x.len() - 2] == hex_char(a.last() / 16));
        assert(y[y.len() - 2] == hex_char(b.last() / 16));
        assert(a.last() == b.last());
        assert(hex(a.drop_last()) =~= x.take(x.len() - 2));
        assert(hex(b.drop_last()) =~= y.take(y.len() - 2));
        lemma_hex_injective(a.drop_last(), b.drop_last());
        assert(a =~= a.drop_last().push(a.last()));
        assert(b =~= b.drop_last().push(b.last()));
    } else {
        assert(a =~= b);
    }
}

/// How numbers are read: digits count in tens, a sign before them is heeded, and a
/// text that is not digits, but for a sign, is no number; nor is one that 64 bits
/// cannot hold.
pub proof fn law_how_numbers_are_read(digits: Seq<char>, d: char)
    requires
        '0' <= d && d <= '9',
    ensures
        parsed_int(seq![d]) == Some(d as int - '0' as int),
        (digits.len() > 0 && forall|i: int|
            0 <= i < digits.len() ==> '0' <= #[trigger] digits[i] && digits[i] <= '9') ==> {
            &&& parsed_int(digits) is Some
            &&& parsed_int(digits.push(d)) == Some(
                10 * parsed_int(digits)->0 + (d as int - '0' as int),
            )
            &&& parsed_int(seq!['+'] + digits) == parsed_int(digits)
            &&& parsed_int(seq!['-'] + digits) == Some(-parsed_int(digits)->0)
        },
        parsed_int(digits) is Some ==> digits.len() > 0 && forall|i: int|
            1 <= i < digits.len() ==> '0' <= #[trigger] digits[i] && digits[i] <= '9',
        parsed_i64(digits) == (if parsed_int(digits) is Some && -0x8000_0000_0000_0000
            <= parsed_int(digits)->0 <= 0x7fff_ffff_ffff_ffff {
            Some(parsed_int(digits)->0 as i64)
        } else {
            None
        }),
{
    let one = seq![d];
    assert(one.drop_last() =~= Seq::<char>::empty());
    assert(one[0] == d);
    assert(value_of(Seq::<char>::empty()) == 0);
    assert(is_numeral(one));
    if digits.len() > 0 && forall|i: int|
        0 <= i < digits.len() ==> '0' <= #[trigger] digits[i] && digits[i] <= '9' {
        let more = digits.push(d);
        assert(is_numeral(digits));
        assert forall|i: int| 0 <= i < more.len() implies text::is_digit(#[trigger] more[i]) by {
            if i < digits.len() {
                assert(more[i] == digits[i]);
            }
        }
        assert(more.drop_last() =~= digits);
        assert(digits[0] != '-' && digits[0] != '+');
        assert(more[0] == digits[0]);
        assert((seq!['+'] + digits).skip(1) =~= digits);
        assert((seq!['-'] + digits).skip(1) =~= digits);
    }
    if parsed_int(digits) is Some {
        assert forall|i: int| 1 <= i < digits.len() implies '0' <= #[trigger] digits[i] && digits[i]
            <= '9' by {
            if !is_numeral(digits) {
                assert(digits.skip(1)[i - 1] == digits[i]);
            }
        }
    }
}

/// A byte is written as two digits to the base sixteen, the higher first and
/// letters in lower case; bytes follow each other in their order.
pub proof fn law_how_bytes_are_written(bytes: Seq<u8>, i: int)
    requires
        0 <= i < bytes.len(),
    ensures
        hex(bytes).len() == 2 * bytes.len(),
        hex(bytes)[2 * i] == "0123456789abcdef"@[bytes[i] as int / 16],
        hex(bytes)[2 * i + 1] == "0123456789abcdef"@[bytes[i] as int % 16],
    decreases bytes.len(),
{
    reveal_strlit("0123456789abcdef");
    lemma_hex(bytes);
    if i < bytes.len() - 1 {
        law_how_bytes_are_written(bytes.drop_last(), i);
    }
}

} // verus!
