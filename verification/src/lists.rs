//! Lists of identifiers: membership, intersection, sorting and the removal
//! of repetitions.

use crate::model::ProductId;
use vstd::prelude::*;
use vstd::seq_lib::*;

verus! {

/// Ascending order, equal neighbours allowed.
pub open spec fn ascending(s: Seq<ProductId>) -> bool {
    forall|i: int, j: int| 0 <= i < j < s.len() ==> s[i] <= s[j]
}

/// Ascending order without repetition.
pub open spec fn strictly_ascending(s: Seq<ProductId>) -> bool {
    forall|i: int, j: int| 0 <= i < j < s.len() ==> s[i] < s[j]
}

/// Two strictly ascending sequences with the same elements are the same
/// sequence: an answer is fixed by the set of identifiers in it.
pub proof fn lemma_strictly_ascending_unique(a: Seq<ProductId>, b: Seq<ProductId>)
    requires
        strictly_ascending(a),
        strictly_ascending(b),
        forall|x: ProductId| a.contains(x) <==> b.contains(x),
    ensures
        a == b,
    decreases a.len(),
{
    if a.len() == 0 {
        if b.len() > 0 {
            assert(b.contains(b[0]));
        }
        assert(a =~= b);
    } else {
        let x = a.last();
        assert(a.contains(x));
        assert(b.contains(x));
        let k = choose|k: int| 0 <= k < b.len() && b[k] == x;
        let y = b.last();
        assert(b.contains(y));
        let l = choose|l: int| 0 <= l < a.len() && a[l] == y;
        assert(k == b.len() - 1) by {
            if k < b.len() - 1 {
                assert(b[k] < y);
                assert(a[l] <= x);
            }
        }
        let a0 = a.drop_last();
        let b0 = b.drop_last();
        assert forall|z: ProductId| a0.contains(z) <==> b0.contains(z) by {
            if a0.contains(z) {
                let i = choose|i: int| 0 <= i < a0.len() && a0[i] == z;
                assert(a[i] == z && a[i] < x);
                assert(a.contains(z));
                let j = choose|j: int| 0 <= j < b.len() && b[j] == z;
                assert(b0[j] == z);
            }
            if b0.contains(z) {
                let j = choose|j: int| 0 <= j < b0.len() && b0[j] == z;
                assert(b[j] == z && b[j] < x);
                assert(b.contains(z));
                let i = choose|i: int| 0 <= i < a.len() && a[i] == z;
                assert(a0[i] == z);
            }
        }
        assert(strictly_ascending(a0)) by {
            assert forall|i: int, j: int| 0 <= i < j < a0.len() implies a0[i] < a0[j] by {
                assert(a[i] < a[j]);
            }
        }
        assert(strictly_ascending(b0)) by {
            assert forall|i: int, j: int| 0 <= i < j < b0.len() implies b0[i] < b0[j] by {
                assert(b[i] < b[j]);
            }
        }
        lemma_strictly_ascending_unique(a0, b0);
        assert(a =~= a0.push(x));
        assert(b =~= b0.push(x));
    }
}

pub(crate) fn list_contains(list: &Vec<ProductId>, x: ProductId) -> (found: bool)
    ensures
        found == list@.contains(x),
{
    let mut i: usize = 0;
    while i < list.len()
        invariant
            i <= list.len(),
            forall|k: int| 0 <= k < i ==> list@[k] != x,
        decreases list.len() - i,
    {
        if list[i] == x {
            return true;
        }
        i += 1;
    }
    false
}

pub(crate) fn copy_list(list: &Vec<ProductId>) -> (out: Vec<ProductId>)
    ensures
        out@ == list@,
{
    let mut out: Vec<ProductId> = Vec::new();
    let mut i: usize = 0;
    while i < list.len()
        invariant
            i <= list.len(),
            out@ == list@.take(i as int),
        decreases list.len() - i,
    {
        out.push(list[i]);
        proof {
            assert(list@.take(i + 1) =~= list@.take(i as int).push(list@[i as int]));
        }
        i += 1;
    }
    assert(list@.take(list.len() as int) =~= list@);
    out
}

/// The predicate that keeps the identifiers that occur in `list`.
pub open spec fn member_of(list: Seq<ProductId>) -> spec_fn(ProductId) -> bool {
    |x: ProductId| list.contains(x)
}

/// The elements of `prev` that also occur in `list`, in the order of `prev`.
pub(crate) fn retain_common(prev: &Vec<ProductId>, list: &Vec<ProductId>) -> (out: Vec<ProductId>)
    ensures
        out@ == prev@.filter(member_of(list@)),
{
    let ghost pred = member_of(list@);
    let mut out: Vec<ProductId> = Vec::new();
    let mut i: usize = 0;
    proof {
        reveal(Seq::filter);
        assert(prev@.take(0).filter(pred) =~= out@);
    }
    while i < prev.len()
        invariant
            i <= prev.len(),
            pred == member_of(list@),
            out@ == prev@.take(i as int).filter(pred),
        decreases prev.len() - i,
    {
        let x = prev[i];
        proof {
            assert(prev@.take(i + 1) =~= prev@.take(i as int).push(x));
            prev@.take(i as int).lemma_filter_push(x, pred);
        }
        if list_contains(list, x) {
            out.push(x);
        }
        i += 1;
    }
    assert(prev@.take(prev.len() as int) =~= prev@);
    out
}

/// Sorts a list into ascending order; every identifier keeps its number of
/// occurrences.
pub(crate) fn sort_ascending(list: &Vec<ProductId>) -> (out: Vec<ProductId>)
    ensures
        ascending(out@),
        out@.to_multiset() == list@.to_multiset(),
{
    let mut out: Vec<ProductId> = Vec::new();
    let mut i: usize = 0;
    proof {
        assert(list@.take(0) =~= out@);
    }
    while i < list.len()
        invariant
            i <= list.len(),
            out.len() == i,
            ascending(out@),
            out@.to_multiset() == list@.take(i as int).to_multiset(),
        decreases list.len() - i,
    {
        let x = list[i];
        let mut p: usize = 0;
        while p < out.len() && out[p] <= x
            invariant
                p <= out.len(),
                forall|k: int| 0 <= k < p ==> out@[k] <= x,
            decreases out.len() - p,
        {
            p += 1;
        }
        let ghost before = out@;
        out.insert(p, x);
        proof {
            let left = before.subrange(0, p as int);
            let right = before.subrange(p as int, before.len() as int);
            assert(before =~= left + right);
            assert(out@ =~= left.push(x) + right);
            lemma_multiset_commutative(left, right);
            lemma_multiset_commutative(left.push(x), right);
            to_multiset_build(left, x);
            assert(out@.to_multiset() =~= before.to_multiset().insert(x));
            assert(list@.take(i + 1) =~= list@.take(i as int).push(x));
            to_multiset_build(list@.take(i as int), x);
            assert forall|a: int, b: int| 0 <= a < b < out@.len() implies out@[a] <= out@[b] by {
                if b < p {
                    assert(out@[a] == before[a] && out@[b] == before[b]);
                } else if b == p {
                    assert(out@[a] == before[a]);
                } else if a < p {
                    assert(out@[a] == before[a] && out@[b] == before[b - 1]);
                    assert(before[p as int] > x);
                    assert(before[p as int] <= before[b - 1]);
                } else if a == p {
                    assert(out@[b] == before[b - 1]);
                    assert(before[p as int] <= before[b - 1]);
                } else {
                    assert(out@[a] == before[a - 1] && out@[b] == before[b - 1]);
                }
            }
        }
        i += 1;
    }
    assert(list@.take(list.len() as int) =~= list@);
    out
}

/// Removes adjacent repetitions from an ascending list.
pub(crate) fn dedup_adjacent(list: &Vec<ProductId>) -> (out: Vec<ProductId>)
    requires
        ascending(list@),
    ensures
        strictly_ascending(out@),
        forall|x: ProductId| out@.contains(x) <==> list@.contains(x),
{
    let mut out: Vec<ProductId> = Vec::new();
    let mut i: usize = 0;
    while i < list.len()
        invariant
            i <= list.len(),
            ascending(list@),
            strictly_ascending(out@),
            forall|x: ProductId| out@.contains(x) <==> list@.take(i as int).contains(x),
            i > 0 ==> out@.len() > 0 && out@.last() == list@[i - 1],
            i == 0 ==> out@.len() == 0,
        decreases list.len() - i,
    {
        let x = list[i];
        let ghost before = out@;
        let ghost seen = list@.take(i as int);
        proof {
            assert(list@.take(i + 1) =~= seen.push(x));
        }
        if i == 0 || out[out.len() - 1] != x {
            out.push(x);
            proof {
                assert forall|a: int, b: int| 0 <= a < b < out@.len() implies out@[a] < out@[b] by {
                    if b == out@.len() - 1 {
                        assert(before.contains(before[a]));
                        assert(seen.contains(before[a]));
                        let k = choose|k: int| 0 <= k < seen.len() && seen[k] == before[a];
                        assert(list@[k] <= list@[i - 1]);
                        assert(before[a] <= before.last());
                        assert(list@[i - 1] <= x);
                        if a < before.len() - 1 {
                            assert(before[a] < before.last());
                        }
                    } else {
                        assert(out@[a] == before[a] && out@[b] == before[b]);
                    }
                }
                assert forall|y: ProductId| out@.contains(y) <==> seen.push(x).contains(y) by {
                    lemma_seq_contains_after_push(before, x, y);
                    lemma_seq_contains_after_push(seen, x, y);
                }
            }
        } else {
            proof {
                assert forall|y: ProductId| out@.contains(y) <==> seen.push(x).contains(y) by {
                    lemma_seq_contains_after_push(seen, x, y);
                    assert(out@.contains(out@.last()));
                }
            }
        }
        i += 1;
    }
    assert(list@.take(list.len() as int) =~= list@);
    out
}


/// Leaving identifiers out of a list without repetition in ascending order
/// leaves such a list.
pub proof fn lemma_filter_keeps_order(s: Seq<ProductId>, keep: spec_fn(ProductId) -> bool)
    requires
        strictly_ascending(s),
    ensures
        strictly_ascending(s.filter(keep)),
    decreases s.len(),
{
    reveal(Seq::filter);
    if s.len() > 0 {
        let front = s.drop_last();
        assert(strictly_ascending(front)) by {
            assert forall|i: int, j: int| 0 <= i < j < front.len() implies front[i] < front[j] by {
                assert(front[i] == s[i] && front[j] == s[j]);
            }
        }
        lemma_filter_keeps_order(front, keep);
        let out = s.filter(keep);
        let inner = front.filter(keep);
        assert forall|i: int, j: int| 0 <= i < j < out.len() implies out[i] < out[j] by {
            if j < inner.len() {
                assert(out[i] == inner[i] && out[j] == inner[j]);
            } else {
                assert(out[i] == inner[i]);
                assert(inner.contains(inner[i]));
                front.lemma_filter_contains_rev(keep, inner[i]);
                let k = choose|k: int| 0 <= k < front.len() && front[k] == inner[i];
                assert(s[k] < s[s.len() - 1]);
            }
        }
    }
}

} // verus!
