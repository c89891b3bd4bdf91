//! Putting things in order by pairs of numbers.
use crate::lists;
use vstd::prelude::*;
use vstd::relations::*;
use vstd::seq_lib::*;

verus! {

/// A pair of sort keys and the position they belong to.
pub type Entry = (i128, i128, usize);

/// The entry order: by the first key, then the second, then the position.
pub open spec fn entry_leq(a: Entry, b: Entry) -> bool {
    a.0 < b.0 || (a.0 == b.0 && (a.1 < b.1 || (a.1 == b.1 && a.2 <= b.2)))
}

/// The entries of a list of key pairs.
pub open spec fn entries(keys: Seq<(i128, i128)>) -> Seq<Entry> {
    Seq::new(keys.len(), |i: int| (keys[i].0, keys[i].1, i as usize))
}

/// The positions of a list of key pairs in the order of the pairs; positions
/// with equal pairs stay in the order they had.
pub open spec fn order_of(keys: Seq<(i128, i128)>) -> Seq<int> {
    entries(keys).sort_by(|a: Entry, b: Entry| entry_leq(a, b)).map_values(|e: Entry| e.2 as int)
}

/// The elements of a list taken in the order of their key pairs.
pub open spec fn arranged<T>(s: Seq<T>, keys: Seq<(i128, i128)>) -> Seq<T> {
    order_of(keys).map_values(|i: int| s[i])
}

proof fn lemma_total()
    ensures
        total_ordering(|a: Entry, b: Entry| entry_leq(a, b)),
{
}

fn leq(a: &Entry, b: &Entry) -> (r: bool)
    ensures
        r == entry_leq(*a, *b),
{
    a.0 < b.0 || (a.0 == b.0 && (a.1 < b.1 || (a.1 == b.1 && a.2 <= b.2)))
}

spec fn is_sorted(s: Seq<Entry>) -> bool {
    forall|i: int, j: int| 0 <= i < j < s.len() ==> entry_leq(#[trigger] s[i], #[trigger] s[j])
}

/// Merges two sorted lists.
fn merge(a: &Vec<Entry>, b: &Vec<Entry>) -> (r: Vec<Entry>)
    requires
        is_sorted(a@),
        is_sorted(b@),
    ensures
        is_sorted(r@),
        r@.to_multiset() == (a@ + b@).to_multiset(),
{
    let mut r: Vec<Entry> = Vec::new();
    let mut i: usize = 0;
    let mut j: usize = 0;
    proof {
        assert(a@.take(0) + b@.take(0) =~= r@);
    }
    while i < a.len() || j < b.len()
        invariant
            i <= a@.len(),
            j <= b@.len(),
            is_sorted(a@),
            is_sorted(b@),
            is_sorted(r@),
            r@.to_multiset() == (a@.take(i as int) + b@.take(j as int)).to_multiset(),
            forall|k: int, m: int|
                0 <= k < r@.len() && i <= m < a@.len() ==> entry_leq(
                    #[trigger] r@[k],
                    #[trigger] a@[m],
                ),
            forall|k: int, m: int|
                0 <= k < r@.len() && j <= m < b@.len() ==> entry_leq(
                    #[trigger] r@[k],
                    #[trigger] b@[m],
                ),
        decreases a@.len() - i + b@.len() - j,
    {
        let ghost before = r@;
        let ghost x = a@.take(i as int);
        let ghost y = b@.take(j as int);
        if j >= b.len() || (i < a.len() && leq(&a[i], &b[j])) {
            r.push(a[i]);
            proof {
                let e = a@[i as int];
                assert(a@.take(i + 1) =~= x.push(e));
                lemma_push_left(x, y, e);
                lemma_push_right(before, e);
            }
            i = i + 1;
        } else {
            r.push(b[j]);
            proof {
                let e = b@[j as int];
                assert(b@.take(j + 1) =~= y.push(e));
                assert(x + y.push(e) =~= (x + y).push(e));
                lemma_push_right(x + y, e);
                lemma_push_right(before, e);
            }
            j = j + 1;
        }
    }
    proof {
        assert(a@.take(i as int) =~= a@);
        assert(b@.take(j as int) =~= b@);
    }
    r
}

proof fn lemma_push_right(x: Seq<Entry>, e: Entry)
    ensures
        x.push(e).to_multiset() == x.to_multiset().insert(e),
{
    broadcast use group_to_multiset_ensures;

}

proof fn lemma_push_left(x: Seq<Entry>, y: Seq<Entry>, e: Entry)
    ensures
        (x.push(e) + y).to_multiset() == (x + y).to_multiset().insert(e),
{
    broadcast use group_to_multiset_ensures;

    lemma_multiset_commutative(x.push(e), y);
    lemma_multiset_commutative(x, y);
    assert(x.push(e).to_multiset() =~= x.to_multiset().insert(e));
    assert((x.push(e) + y).to_multiset() =~= (x + y).to_multiset().insert(e));
}

/// Sorts the entries `from..to`.
fn sort(v: &Vec<Entry>, from: usize, to: usize) -> (r: Vec<Entry>)
    requires
        from <= to <= v@.len(),
    ensures
        is_sorted(r@),
        r@.to_multiset() == v@.subrange(from as int, to as int).to_multiset(),
    decreases to - from,
{
    if to - from <= 1 {
        let mut r: Vec<Entry> = Vec::new();
        if from < to {
            r.push(v[from]);
        }
        proof {
            assert(r@ =~= v@.subrange(from as int, to as int));
        }
        return r;
    }
    let mid: usize = from + (to - from) / 2;
    let a = sort(v, from, mid);
    let b = sort(v, mid, to);
    let r = merge(&a, &b);
    proof {
        let l = v@.subrange(from as int, mid as int);
        let h = v@.subrange(mid as int, to as int);
        assert(v@.subrange(from as int, to as int) =~= l + h);
        lemma_multiset_commutative(a@, b@);
        lemma_multiset_commutative(l, h);
    }
    r
}

/// The positions of a list of key pairs in the order of the pairs.
pub fn order(keys: &Vec<(i128, i128)>) -> (r: Vec<usize>)
    ensures
        lists::ints(r@) == order_of(keys@),
        forall|k: int| 0 <= k < r@.len() ==> (#[trigger] r@[k]) < keys@.len(),
        r@.len() == keys@.len(),
{
    let mut v: Vec<Entry> = Vec::new();
    let mut i: usize = 0;
    while i < keys.len()
        invariant
            i <= keys@.len(),
            v@ == entries(keys@).take(i as int),
        decreases keys@.len() - i,
    {
        let k = keys[i];
        v.push((k.0, k.1, i));
        proof {
            assert(entries(keys@).take(i + 1) =~= entries(keys@).take(i as int).push(
                entries(keys@)[i as int],
            ));
        }
        i = i + 1;
    }
    proof {
        assert(v@ =~= entries(keys@));
        assert(v@.subrange(0, v@.len() as int) =~= v@);
    }
    let s = sort(&v, 0, v.len());
    let mut r: Vec<usize> = Vec::new();
    let mut i: usize = 0;
    while i < s.len()
        invariant
            i <= s@.len(),
            r@ == s@.take(i as int).map_values(|e: Entry| e.2),
        decreases s@.len() - i,
    {
        r.push(s[i].2);
        proof {
            assert(s@.take(i + 1) =~= s@.take(i as int).push(s@[i as int]));
            assert(s@.take(i + 1).map_values(|e: Entry| e.2) =~= s@.take(i as int).map_values(
                |e: Entry| e.2,
            ).push(s@[i as int].2));
        }
        i = i + 1;
    }
    proof {
        let f = |a: Entry, b: Entry| entry_leq(a, b);
        lemma_total();
        entries(keys@).lemma_sort_by_ensures(f);
        lemma_sorted_unique(s@, entries(keys@).sort_by(f), f);
        assert(s@.take(i as int) =~= s@);
        assert(lists::ints(r@) =~= order_of(keys@));
        lemma_order_is_permutation(keys@);
        assert forall|k: int| 0 <= k < r@.len() implies (#[trigger] r@[k]) < keys@.len() by {
            assert(lists::ints(r@)[k] == order_of(keys@)[k]);
        }
    }
    r
}

/// The order of a list names each position once.
pub proof fn lemma_order_is_permutation(keys: Seq<(i128, i128)>)
    requires
        keys.len() <= usize::MAX,
    ensures
        order_of(keys).len() == keys.len(),
        forall|k: int| 0 <= k < keys.len() ==> 0 <= (#[trigger] order_of(keys)[k]) < keys.len(),
        forall|i: int| 0 <= i < keys.len() ==> #[trigger] order_of(keys).contains(i),
        order_of(keys).no_duplicates(),
{
    broadcast use group_to_multiset_ensures;

    let f = |a: Entry, b: Entry| entry_leq(a, b);
    let e = entries(keys);
    let s = e.sort_by(f);
    lemma_total();
    e.lemma_sort_by_ensures(f);
    assert(s.len() == e.len()) by {
        assert(s.to_multiset().len() == e.to_multiset().len());
    }
    assert forall|k: int| 0 <= k < s.len() implies exists|i: int|
        0 <= i < keys.len() && (#[trigger] s[k]) == e[i] by {
        assert(s.contains(s[k]));
        assert(e.contains(s[k]));
    }
    assert forall|i: int| 0 <= i < keys.len() implies #[trigger] order_of(keys).contains(i) by {
        assert(e.contains(e[i]));
        assert(e.to_multiset().count(e[i]) > 0);
        assert(s.to_multiset().count(e[i]) > 0);
        assert(s.contains(e[i]));
        let k = choose|k: int| 0 <= k < s.len() && s[k] == e[i];
        assert(order_of(keys)[k] == i);
    }
    assert(e.no_duplicates()) by {
        assert forall|i: int, j: int| 0 <= i < e.len() && 0 <= j < e.len() && i != j implies e[i]
            != e[j] by {
            assert(e[i].2 == i && e[j].2 == j);
        }
    }
    e.lemma_multiset_has_no_duplicates();
    s.lemma_multiset_has_no_duplicates_conv();
    assert forall|i: int, j: int|
        0 <= i < keys.len() && 0 <= j < keys.len() && i != j implies order_of(keys)[i] != order_of(
        keys,
    )[j] by {
        assert(s[i] != s[j]);
        let a = choose|a: int| 0 <= a < keys.len() && s[i] == e[a];
        let b = choose|b: int| 0 <= b < keys.len() && s[j] == e[b];
        assert(a != b);
    }
}

/// In the order of a list the keys never fall, and where they are equal the
/// positions rise.
pub proof fn law_order_sorts(keys: Seq<(i128, i128)>, a: int, b: int)
    requires
        keys.len() <= usize::MAX,
        0 <= a < b < keys.len(),
    ensures
        ({
            let i = order_of(keys)[a];
            let j = order_of(keys)[b];
            keys[i].0 < keys[j].0 || (keys[i].0 == keys[j].0 && (keys[i].1 < keys[j].1 || (
            keys[i].1 == keys[j].1 && i < j)))
        }),
{
    broadcast use group_to_multiset_ensures;

    let f = |a: Entry, b: Entry| entry_leq(a, b);
    let e = entries(keys);
    let s = e.sort_by(f);
    lemma_total();
    e.lemma_sort_by_ensures(f);
    lemma_order_is_permutation(keys);
    let i = order_of(keys)[a];
    let j = order_of(keys)[b];
    assert(s.len() == e.len()) by {
        assert(s.to_multiset().len() == e.to_multiset().len());
    }
    assert(e.contains(s[a])) by {
        assert(s.contains(s[a]));
    }
    assert(e.contains(s[b])) by {
        assert(s.contains(s[b]));
    }
    let p = choose|p: int| 0 <= p < e.len() && e[p] == s[a];
    let q = choose|q: int| 0 <= q < e.len() && e[q] == s[b];
    assert(i == p && j == q);
    assert(f(s[a], s[b]));
    assert(i != j);
}

/// Arranging a list keeps its elements, each as often as it is there.
pub proof fn lemma_arranged_multiset<T>(s: Seq<T>, keys: Seq<(i128, i128)>)
    requires
        keys.len() <= usize::MAX,
        keys.len() == s.len(),
    ensures
        arranged(s, keys).to_multiset() == s.to_multiset(),
{
    lemma_order_is_permutation(keys);
    lemma_picked_multiset(s, order_of(keys));
}

proof fn lemma_picked_multiset<T>(s: Seq<T>, o: Seq<int>)
    requires
        o.len() == s.len(),
        o.no_duplicates(),
        forall|k: int| 0 <= k < o.len() ==> 0 <= (#[trigger] o[k]) < s.len(),
        forall|i: int| 0 <= i < s.len() ==> #[trigger] o.contains(i),
    ensures
        o.map_values(|i: int| s[i]).to_multiset() == s.to_multiset(),
    decreases s.len(),
{
    broadcast use group_to_multiset_ensures;

    let a = o.map_values(|i: int| s[i]);
    if s.len() == 0 {
        assert(a =~= s);
    } else {
        let n = s.len() - 1;
        assert(o.contains(n));
        let k = choose|k: int| 0 <= k < o.len() && o[k] == n;
        let p = o.remove(k);
        let t = s.drop_last();
        assert forall|j: int| 0 <= j < p.len() implies 0 <= (#[trigger] p[j]) < t.len() by {
            let q: int = if j < k {
                j
            } else {
                j + 1
            };
            assert(p[j] == o[q]);
            assert(o[q] != o[k]);
        }
        assert forall|i: int| 0 <= i < t.len() implies #[trigger] p.contains(i) by {
            assert(o.contains(i));
            let q = choose|q: int| 0 <= q < o.len() && o[q] == i;
            let j: int = if q < k {
                q
            } else {
                q - 1
            };
            assert(p[j] == i);
        }
        assert(p.no_duplicates()) by {
            assert forall|x: int, y: int|
                0 <= x < p.len() && 0 <= y < p.len() && x != y implies p[x] != p[y] by {
                let u: int = if x < k {
                    x
                } else {
                    x + 1
                };
                let v: int = if y < k {
                    y
                } else {
                    y + 1
                };
                assert(p[x] == o[u] && p[y] == o[v]);
            }
        }
        lemma_picked_multiset(t, p);
        let b = p.map_values(|i: int| t[i]);
        assert(b =~= a.remove(k));
        assert(a =~= a.remove(k).insert(k, a[k]));
        assert(a.remove(k).to_multiset() == a.to_multiset().remove(a[k]));
        assert(s =~= t.push(s.last()));
        assert(a.contains(a[k]));
        assert(a.to_multiset() =~= b.to_multiset().insert(s.last()));
    }
}

} // verus!
