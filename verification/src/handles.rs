//! Messages handles (phone numbers and email addresses) in normal form.
use crate::contacts;
use crate::text;
use crate::text::{ascii_digits, contains_char, starts_with, to_ascii_lowercase, trim};
use vstd::prelude::*;
use vstd::string::*;

verus! {

/// The normal form of a handle: an address trimmed and in lower case; a
/// number as its digits, with the `+` it began with; anything else trimmed.
pub open spec fn normalized(raw: Seq<char>) -> Seq<char> {
    let t = text::trimmed(raw);
    let digits = text::digits_of(t);
    if t.contains('@') {
        text::lowered(t)
    } else if digits.len() == 0 {
        t
    } else if t[0] == '+' {
        seq!['+'] + digits
    } else {
        digits
    }
}

/// Normalizes a raw handle for comparison and grouping.
///
/// - Email addresses are trimmed and lowercased.
/// - Phone numbers keep a leading `+` and lose all formatting characters.
/// - Short codes and anything without digits pass through trimmed.
///
/// No country code is inferred: to suppose a region would silently corrupt
/// numbers of another, so `5550100` and `+15550100` remain distinct.
pub fn normalize_handle(raw: &str) -> (r: String)
    ensures
        r@ == normalized(raw@),
{
    let trimmed = trim(raw);
    if contains_char(trimmed.as_str(), '@') {
        return to_ascii_lowercase(trimmed.as_str());
    }
    let digits = ascii_digits(trimmed.as_str());
    if digits.as_str().is_empty() {
        return trimmed;
    }
    let plus = starts_with(trimmed.as_str(), "+");
    proof {
        reveal_strlit("+");
        text::lemma_digits_are_digits(trimmed@);
        assert("+"@ =~= seq!['+']);
        assert(trimmed@.take(1) =~= seq![trimmed@[0]]);
        assert(seq![trimmed@[0]][0] == trimmed@[0]);
        assert(plus == (trimmed@[0] == '+'));
    }
    if plus {
        let mut s = "+".to_owned();
        s.append(digits.as_str());
        s
    } else {
        digits
    }
}

/// Normalizing a handle in normal form changes nothing.
pub proof fn law_normalizing_is_idempotent(raw: Seq<char>)
    ensures
        normalized(normalized(raw)) == normalized(raw),
{
    let t = text::trimmed(raw);
    let n = normalized(raw);
    let _ = text::lemma_trimmed(raw);
    text::lemma_digits_are_digits(t);
    let digits = text::digits_of(t);
    if t.contains('@') {
        let k = choose|k: int| 0 <= k < t.len() && t[k] == '@';
        assert(n[k] == '@');
        assert(text::tight(n));
        text::lemma_trim_tight(n);
        assert(text::lowered(n) =~= n);
    } else if digits.len() == 0 {
        text::lemma_trim_tight(t);
    } else if t[0] == '+' {
        text::lemma_trim_tight(n);
        assert(!n.contains('@'));
        assert(n =~= seq!['+'] + digits);
        lemma_digits_after_plus(digits);
    } else {
        text::lemma_trim_tight(n);
        text::lemma_digits_fixed(n);
        assert(!n.contains('@'));
    }
}

/// A `+` in front of digits is no digit.
pub proof fn lemma_digits_after_plus(digits: Seq<char>)
    requires
        forall|i: int| 0 <= i < digits.len() ==> text::is_digit(#[trigger] digits[i]),
    ensures
        text::digits_of(seq!['+'] + digits) == digits,
    decreases digits.len(),
{
    let s = seq!['+'] + digits;
    if digits.len() == 0 {
        assert(s.drop_last() =~= Seq::<char>::empty());
        assert(text::digits_of(Seq::<char>::empty()) =~= digits);
    } else {
        lemma_digits_after_plus(digits.drop_last());
        assert(s.drop_last() =~= seq!['+'] + digits.drop_last());
        assert(digits.drop_last().push(digits.last()) =~= digits);
    }
}

/// What a handle in normal form keeps. An address keeps its `@` and no letter in
/// upper case; anything else keeps exactly its digits, in order, and, where it
/// began with one, its `+`.
pub proof fn law_normal_form_keeps_the_digits(raw: Seq<char>)
    ensures
        normalized(raw).contains('@') <==> raw.contains('@'),
        normalized(raw).contains('@') ==> forall|i: int|
            0 <= i < normalized(raw).len() ==> !('A' <= #[trigger] normalized(raw)[i]
                && normalized(raw)[i] <= 'Z'),
        !raw.contains('@') ==> normalized(raw).filter(|c: char| '0' <= c && c <= '9')
            == raw.filter(|c: char| '0' <= c && c <= '9'),
        !raw.contains('@') && raw.filter(|c: char| '0' <= c && c <= '9').len() > 0 ==> ({
            let n = normalized(raw);
            let digits = raw.filter(|c: char| '0' <= c && c <= '9');
            n == if text::trimmed(raw)[0] == '+' {
                seq!['+'] + digits
            } else {
                digits
            }
        }),
{
    let t = text::trimmed(raw);
    let n = normalized(raw);
    let digits = text::digits_of(t);
    text::lemma_trimming_keeps(raw, '@');
    text::lemma_digits_filter(raw);
    text::lemma_digits_filter(n);
    text::lemma_digits_are_digits(t);
    if t.contains('@') {
        let k = choose|k: int| 0 <= k < t.len() && t[k] == '@';
        assert(n[k] == '@');
        assert(n.contains('@'));
    } else if digits.len() == 0 {
    } else if t[0] == '+' {
        lemma_digits_after_plus(digits);
        assert(!n.contains('@'));
    } else {
        text::lemma_digits_fixed(digits);
        assert(!n.contains('@'));
    }
}

/// What normalizing changes: of an address the spaces around it and the case of its
/// letters; of a text without digits the spaces around it. Nothing else of either.
pub proof fn law_what_normalizing_changes(raw: Seq<char>)
    ensures
        raw.contains('@') ==> contacts::same_but_case(normalized(raw), text::trimmed(raw)),
        !raw.contains('@') && raw.filter(|c: char| '0' <= c && c <= '9').len() == 0
            ==> normalized(raw) == text::trimmed(raw),
{
    text::lemma_trimming_keeps(raw, '@');
    text::lemma_digits_filter(raw);
    let t = text::trimmed(raw);
    if t.contains('@') {
        let n = normalized(raw);
        assert forall|i: int| 0 <= i < n.len() implies n[i] == t[i] || ('A' <= t[i] && t[i] <= 'Z'
            && n[i] as int == t[i] as int + 32) by {}
    }
}

} // verus!
