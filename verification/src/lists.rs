//! Finding and counting in lists.
use vstd::prelude::*;

verus! {

/// The elements of a list at some positions.
pub open spec fn picked<T>(s: Seq<T>, at: Seq<usize>) -> Seq<T> {
    at.map_values(|i: usize| s[i as int])
}

/// Positions as numbers.
pub open spec fn ints(at: Seq<usize>) -> Seq<int> {
    at.map_values(|i: usize| i as int)
}

/// The first index of a list at which a condition holds.
pub open spec fn first_index<T>(s: Seq<T>, p: spec_fn(T) -> bool) -> Option<int>
    decreases s.len(),
{
    if s.len() == 0 {
        None
    } else {
        match first_index(s.drop_last(), p) {
            Some(i) => Some(i),
            None => if p(s.last()) {
                Some(s.len() - 1)
            } else {
                None
            },
        }
    }
}

/// What the first index at which a condition holds is: the condition holds
/// there and at none before; and where there is none, the condition holds
/// nowhere.
pub proof fn lemma_first_index<T>(s: Seq<T>, p: spec_fn(T) -> bool)
    ensures
        match first_index(s, p) {
            Some(i) => 0 <= i < s.len() && p(s[i]) && forall|j: int| 0 <= j < i ==> !p(
                #[trigger] s[j],
            ),
            None => forall|j: int| 0 <= j < s.len() ==> !p(#[trigger] s[j]),
        },
    decreases s.len(),
{
    if s.len() > 0 {
        let t = s.drop_last();
        lemma_first_index(t, p);
        assert forall|j: int| 0 <= j < t.len() implies t[j] == s[j] by {}
        match first_index(t, p) {
            Some(i) => {
                assert(p(s[i]));
                assert forall|j: int| 0 <= j < i implies !p(#[trigger] s[j]) by {
                    assert(t[j] == s[j]);
                }
            },
            None => {
                assert forall|j: int| 0 <= j < t.len() implies !p(#[trigger] s[j]) by {
                    assert(t[j] == s[j]);
                }
            },
        }
    }
}

/// An index at which a condition holds and before which it does not is the
/// first.
pub proof fn lemma_is_first_index<T>(s: Seq<T>, p: spec_fn(T) -> bool, i: int)
    requires
        0 <= i < s.len(),
        p(s[i]),
        forall|j: int| 0 <= j < i ==> !p(#[trigger] s[j]),
    ensures
        first_index(s, p) == Some(i),
{
    lemma_first_index(s, p);
}

/// A condition that holds nowhere has no first index.
pub proof fn lemma_no_first_index<T>(s: Seq<T>, p: spec_fn(T) -> bool)
    requires
        forall|j: int| 0 <= j < s.len() ==> !p(#[trigger] s[j]),
    ensures
        first_index(s, p) is None,
{
    lemma_first_index(s, p);
}

/// The elements of a list at which a condition holds, in order.
pub open spec fn chosen<T>(s: Seq<T>, p: spec_fn(T) -> bool) -> Seq<T>
    decreases s.len(),
{
    if s.len() == 0 {
        Seq::empty()
    } else if p(s.last()) {
        chosen(s.drop_last(), p).push(s.last())
    } else {
        chosen(s.drop_last(), p)
    }
}

/// Every chosen element satisfies the condition and stands in the list; there
/// are no more of them than elements.
pub proof fn lemma_chosen<T>(s: Seq<T>, p: spec_fn(T) -> bool)
    ensures
        chosen(s, p).len() <= s.len(),
        forall|i: int|
            0 <= i < chosen(s, p).len() ==> p(#[trigger] chosen(s, p)[i]) && s.contains(
                chosen(s, p)[i],
            ),
    decreases s.len(),
{
    if s.len() > 0 {
        let t = s.drop_last();
        lemma_chosen(t, p);
        assert forall|i: int| 0 <= i < chosen(s, p).len() implies p(#[trigger] chosen(s, p)[i])
            && s.contains(chosen(s, p)[i]) by {
            if i < chosen(t, p).len() {
                assert(chosen(s, p)[i] == chosen(t, p)[i]);
                assert(t.contains(chosen(t, p)[i]));
                let k = choose|k: int| 0 <= k < t.len() && t[k] == chosen(t, p)[i];
                assert(s[k] == chosen(s, p)[i]);
            } else {
                assert(s[s.len() - 1] == chosen(s, p)[i]);
            }
        }
    }
}

/// Every element of the list that satisfies the condition is chosen.
pub proof fn lemma_chosen_complete<T>(s: Seq<T>, p: spec_fn(T) -> bool, i: int)
    requires
        0 <= i < s.len(),
        p(s[i]),
    ensures
        chosen(s, p).contains(s[i]),
    decreases s.len(),
{
    let t = s.drop_last();
    if i < t.len() {
        lemma_chosen_complete(t, p, i);
        assert(t[i] == s[i]);
        let k = choose|k: int| 0 <= k < chosen(t, p).len() && chosen(t, p)[k] == s[i];
        assert(chosen(s, p)[k] == s[i]);
    } else {
        assert(chosen(s, p)[chosen(t, p).len() as int] == s[i]);
    }
}

/// To choose elements is to filter a list.
pub proof fn lemma_chosen_filter<T>(s: Seq<T>, p: spec_fn(T) -> bool)
    ensures
        chosen(s, p) == s.filter(p),
    decreases s.len(),
{
    reveal(Seq::filter);
    if s.len() > 0 {
        lemma_chosen_filter(s.drop_last(), p);
    } else {
        assert(chosen(s, p) =~= s.filter(p));
    }
}

/// The positions of the elements at which a condition holds, in order.
pub open spec fn chosen_at<T>(s: Seq<T>, p: spec_fn(T) -> bool) -> Seq<int>
    decreases s.len(),
{
    if s.len() == 0 {
        Seq::empty()
    } else if p(s.last()) {
        chosen_at(s.drop_last(), p).push(s.len() - 1)
    } else {
        chosen_at(s.drop_last(), p)
    }
}

/// The chosen elements stand at the chosen positions, which rise, and which are
/// all at which the condition holds.
pub proof fn lemma_chosen_at<T>(s: Seq<T>, p: spec_fn(T) -> bool)
    ensures
        chosen_at(s, p).len() == chosen(s, p).len(),
        chosen(s, p).len() <= s.len(),
        forall|k: int|
            0 <= k < chosen_at(s, p).len() ==> 0 <= (#[trigger] chosen_at(s, p)[k]) < s.len()
                && chosen(s, p)[k] == s[chosen_at(s, p)[k]] && p(chosen(s, p)[k]),
        forall|k: int, l: int|
            0 <= k < l < chosen_at(s, p).len() ==> (#[trigger] chosen_at(s, p)[k]) < (
            #[trigger] chosen_at(s, p)[l]),
        forall|i: int|
            0 <= i < s.len() && p(#[trigger] s[i]) ==> chosen_at(s, p).contains(i),
    decreases s.len(),
{
    if s.len() > 0 {
        let t = s.drop_last();
        lemma_chosen_at(t, p);
        let a = chosen_at(t, p);
        let b = chosen_at(s, p);
        assert forall|k: int| 0 <= k < b.len() implies 0 <= (#[trigger] b[k]) < s.len() && chosen(
            s,
            p,
        )[k] == s[b[k]] && p(chosen(s, p)[k]) by {
            if k < a.len() {
                assert(b[k] == a[k]);
                assert(t[a[k]] == s[a[k]]);
            }
        }
        assert forall|k: int, l: int| 0 <= k < l < b.len() implies (#[trigger] b[k]) < (
        #[trigger] b[l]) by {
            assert(b[k] == a[k]);
            if l < a.len() {
                assert(b[l] == a[l]);
            }
        }
        assert forall|i: int| 0 <= i < s.len() && p(#[trigger] s[i]) implies b.contains(i) by {
            if i < t.len() {
                assert(t[i] == s[i]);
                assert(a.contains(i));
                let k = choose|k: int| 0 <= k < a.len() && a[k] == i;
                assert(b[k] == i);
            } else {
                assert(b[a.len() as int] == i);
            }
        }
    }
}

} // verus!
