//! The ranking of a node's neighbours: by descending weight, neighbours of
//! equal weight in the order in which they are given.

use crate::model::ProductId;
use crate::scalar::{rank, rank_of};
use vstd::prelude::*;
use vstd::seq_lib::*;

verus! {

/// A neighbour with the weight of the edge that leads to it.
pub type Neighbor = (ProductId, u32);

/// `sorted` with `x` put behind every entry that does not rank below it.
pub open spec fn place(sorted: Seq<Neighbor>, x: Neighbor) -> Seq<Neighbor>
    decreases sorted.len(),
{
    if sorted.len() == 0 {
        seq![x]
    } else if rank(sorted.last().1) >= rank(x.1) {
        sorted.push(x)
    } else {
        place(sorted.drop_last(), x).push(sorted.last())
    }
}

/// The neighbours `s` by descending weight; neighbours of equal weight keep
/// the order they have in `s`.  Weights are held against each other by their
/// rank, so a weight that is not a number has its place too: beyond the
/// infinite weight of its sign.
pub open spec fn ranked(s: Seq<Neighbor>) -> Seq<Neighbor>
    decreases s.len(),
{
    if s.len() == 0 {
        s
    } else {
        place(ranked(s.drop_last()), s.last())
    }
}

/// The identifiers of the first `n` neighbours of `s`, or of all of them
/// where `s` has fewer.
pub open spec fn top_ids(s: Seq<Neighbor>, n: nat) -> Seq<ProductId> {
    s.take(
        if n <= s.len() {
            n as int
        } else {
            s.len() as int
        },
    ).map_values(|e: Neighbor| e.0)
}

/// Weights never rise along a sequence.
pub open spec fn descending(s: Seq<Neighbor>) -> bool {
    forall|i: int, j: int|
        0 <= i < j < s.len() ==> rank((#[trigger] s[i]).1) >= rank((#[trigger] s[j]).1)
}

/// The predicate that keeps the neighbours whose weight has the rank `r`.
pub open spec fn of_rank(r: int) -> spec_fn(Neighbor) -> bool {
    |e: Neighbor| rank(e.1) == r
}

/// The neighbours in `list` by descending weight, ties in the order of
/// `list`.
pub(crate) fn rank_neighbors(list: &Vec<Neighbor>) -> (out: Vec<Neighbor>)
    ensures
        out@ == ranked(list@),
{
    let mut out: Vec<Neighbor> = Vec::new();
    let mut i: usize = 0;
    proof {
        assert(list@.take(0) =~= out@);
    }
    while i < list.len()
        invariant
            i <= list.len(),
            out.len() == i,
            out@ == ranked(list@.take(i as int)),
        decreases list.len() - i,
    {
        let x = list[i];
        let mut p: usize = out.len();
        while p > 0 && rank_of(out[p - 1].1) < rank_of(x.1)
            invariant
                p <= out.len(),
                forall|k: int| p <= k < out.len() ==> rank((#[trigger] out@[k]).1) < rank(x.1),
            decreases p,
        {
            p -= 1;
        }
        proof {
            lemma_place_is_insert(out@, x, p as int);
            assert(list@.take(i + 1).drop_last() =~= list@.take(i as int));
            assert(list@.take(i + 1).last() == x);
        }
        out.insert(p, x);
        i += 1;
    }
    assert(list@.take(list.len() as int) =~= list@);
    out
}

/// Putting `x` behind the entries that do not rank below it is an insertion
/// at the place where the entries that rank below it begin.
proof fn lemma_place_is_insert(sorted: Seq<Neighbor>, x: Neighbor, p: int)
    requires
        0 <= p <= sorted.len(),
        forall|k: int| p <= k < sorted.len() ==> rank((#[trigger] sorted[k]).1) < rank(x.1),
        p == 0 || rank(sorted[p - 1].1) >= rank(x.1),
    ensures
        place(sorted, x) == sorted.insert(p, x),
    decreases sorted.len(),
{
    if sorted.len() == 0 {
        assert(sorted.insert(p, x) =~= seq![x]);
    } else if rank(sorted.last().1) >= rank(x.1) {
        if p < sorted.len() {
            assert(rank(sorted[sorted.len() - 1].1) < rank(x.1));
        }
        assert(sorted.insert(p, x) =~= sorted.push(x));
    } else {
        let front = sorted.drop_last();
        assert(p < sorted.len());
        assert forall|k: int| p <= k < front.len() implies rank((#[trigger] front[k]).1) < rank(
            x.1,
        ) by {
            assert(front[k] == sorted[k]);
        }
        if p > 0 {
            assert(front[p - 1] == sorted[p - 1]);
        }
        lemma_place_is_insert(front, x, p);
        assert(front.insert(p, x).push(sorted.last()) =~= sorted.insert(p, x));
    }
}

/// Ranking keeps every neighbour: the ranked sequence is a rearrangement of
/// the given one.
pub proof fn lemma_ranked_permutes(s: Seq<Neighbor>)
    ensures
        ranked(s).len() == s.len(),
        ranked(s).to_multiset() == s.to_multiset(),
    decreases s.len(),
{
    if s.len() > 0 {
        let front = s.drop_last();
        lemma_ranked_permutes(front);
        lemma_place_permutes(ranked(front), s.last());
        assert(s =~= front.push(s.last()));
        to_multiset_build(front, s.last());
    }
}

proof fn lemma_place_permutes(sorted: Seq<Neighbor>, x: Neighbor)
    ensures
        place(sorted, x).len() == sorted.len() + 1,
        place(sorted, x).to_multiset() == sorted.to_multiset().insert(x),
    decreases sorted.len(),
{
    if sorted.len() == 0 {
        assert(seq![x] =~= sorted.push(x));
        to_multiset_build(sorted, x);
    } else if rank(sorted.last().1) >= rank(x.1) {
        to_multiset_build(sorted, x);
    } else {
        let front = sorted.drop_last();
        lemma_place_permutes(front, x);
        to_multiset_build(place(front, x), sorted.last());
        assert(sorted =~= front.push(sorted.last()));
        to_multiset_build(front, sorted.last());
        assert(front.to_multiset().insert(x).insert(sorted.last()) =~= front.to_multiset().insert(
            sorted.last(),
        ).insert(x));
    }
}

/// A ranked sequence is in descending order of weight.
pub proof fn lemma_ranked_descending(s: Seq<Neighbor>)
    ensures
        descending(ranked(s)),
    decreases s.len(),
{
    if s.len() > 0 {
        lemma_ranked_descending(s.drop_last());
        lemma_place_descending(ranked(s.drop_last()), s.last());
    }
}

proof fn lemma_place_descending(sorted: Seq<Neighbor>, x: Neighbor)
    requires
        descending(sorted),
    ensures
        descending(place(sorted, x)),
        forall|k: int|
            0 <= k < place(sorted, x).len() ==> (#[trigger] place(sorted, x)[k]) == x || (exists|
                m: int,
            | 0 <= m < sorted.len() && sorted[m] == place(sorted, x)[k]),
    decreases sorted.len(),
{
    let out = place(sorted, x);
    if sorted.len() == 0 {
    } else if rank(sorted.last().1) >= rank(x.1) {
        assert forall|i: int, j: int| 0 <= i < j < out.len() implies rank((#[trigger] out[i]).1)
            >= rank((#[trigger] out[j]).1) by {
            if j == sorted.len() {
                assert(out[i] == sorted[i]);
                if i < sorted.len() - 1 {
                    assert(rank(sorted[i].1) >= rank(sorted[sorted.len() - 1].1));
                }
            } else {
                assert(out[i] == sorted[i] && out[j] == sorted[j]);
            }
        }
        assert forall|k: int| 0 <= k < out.len() implies (#[trigger] out[k]) == x || (exists|m: int|
            0 <= m < sorted.len() && sorted[m] == out[k]) by {
            if k < sorted.len() {
                assert(sorted[k] == out[k]);
            }
        }
    } else {
        let front = sorted.drop_last();
        let last = sorted.last();
        assert(descending(front)) by {
            assert forall|i: int, j: int| 0 <= i < j < front.len() implies rank(
                (#[trigger] front[i]).1,
            ) >= rank((#[trigger] front[j]).1) by {
                assert(front[i] == sorted[i] && front[j] == sorted[j]);
            }
        }
        lemma_place_descending(front, x);
        let inner = place(front, x);
        assert(out == inner.push(last));
        assert forall|k: int| 0 <= k < out.len() implies (#[trigger] out[k]) == x || (exists|m: int|
            0 <= m < sorted.len() && sorted[m] == out[k]) by {
            if k < inner.len() {
                assert(out[k] == inner[k]);
                if inner[k] != x {
                    let m = choose|m: int| 0 <= m < front.len() && front[m] == inner[k];
                    assert(sorted[m] == out[k]);
                }
            } else {
                assert(sorted[sorted.len() - 1] == out[k]);
            }
        }
        assert forall|i: int, j: int| 0 <= i < j < out.len() implies rank((#[trigger] out[i]).1)
            >= rank((#[trigger] out[j]).1) by {
            if j == inner.len() {
                assert(out[i] == inner[i]);
                if inner[i] != x {
                    let m = choose|m: int| 0 <= m < front.len() && front[m] == inner[i];
                    assert(sorted[m] == front[m]);
                    if m < sorted.len() - 1 {
                        assert(rank(sorted[m].1) >= rank(sorted[sorted.len() - 1].1));
                    }
                }
            } else {
                assert(out[i] == inner[i] && out[j] == inner[j]);
            }
        }
    }
}

/// Ranking is stable: the neighbours of any one weight come in the ranking
/// in the order they have in the given sequence.
pub proof fn lemma_ranked_stable(s: Seq<Neighbor>, r: int)
    ensures
        ranked(s).filter(of_rank(r)) == s.filter(of_rank(r)),
    decreases s.len(),
{
    if s.len() > 0 {
        let front = s.drop_last();
        lemma_ranked_stable(front, r);
        lemma_place_stable(ranked(front), s.last(), r);
        assert(s =~= front.push(s.last()));
        front.lemma_filter_push(s.last(), of_rank(r));
    }
}

proof fn lemma_place_stable(sorted: Seq<Neighbor>, x: Neighbor, r: int)
    ensures
        place(sorted, x).filter(of_rank(r)) == if rank(x.1) == r {
            sorted.filter(of_rank(r)).push(x)
        } else {
            sorted.filter(of_rank(r))
        },
    decreases sorted.len(),
{
    let keep = of_rank(r);
    if sorted.len() == 0 {
        assert(seq![x] =~= sorted.push(x));
        sorted.lemma_filter_push(x, keep);
    } else if rank(sorted.last().1) >= rank(x.1) {
        sorted.lemma_filter_push(x, keep);
    } else {
        let front = sorted.drop_last();
        let last = sorted.last();
        lemma_place_stable(front, x, r);
        place(front, x).lemma_filter_push(last, keep);
        assert(sorted =~= front.push(last));
        front.lemma_filter_push(last, keep);
    }
}

proof fn lemma_last_in_filter(s: Seq<Neighbor>, r: int)
    requires
        s.len() > 0,
    ensures
        s.filter(of_rank(r)) == if rank(s.last().1) == r {
            s.drop_last().filter(of_rank(r)).push(s.last())
        } else {
            s.drop_last().filter(of_rank(r))
        },
{
    assert(s =~= s.drop_last().push(s.last()));
    s.drop_last().lemma_filter_push(s.last(), of_rank(r));
}

proof fn lemma_descending_ends_lowest(s: Seq<Neighbor>, r: int)
    requires
        descending(s),
        s.filter(of_rank(r)).len() > 0,
    ensures
        s.len() > 0,
        r >= rank(s.last().1),
{
    let kept = s.filter(of_rank(r));
    let x = kept[0];
    s.lemma_filter_pred(of_rank(r), 0);
    assert(kept.contains(x));
    s.lemma_filter_contains_rev(of_rank(r), x);
    let i = choose|i: int| 0 <= i < s.len() && s[i] == x;
    if i < s.len() - 1 {
        assert(rank(s[i].1) >= rank(s[s.len() - 1].1));
    }
}

proof fn lemma_descending_determined(a: Seq<Neighbor>, b: Seq<Neighbor>)
    requires
        descending(a),
        descending(b),
        forall|r: int| #[trigger] a.filter(of_rank(r)) == b.filter(of_rank(r)),
    ensures
        a == b,
    decreases a.len(),
{
    if a.len() == 0 {
        if b.len() > 0 {
            let r = rank(b[0].1);
            b.lemma_filter_contains(of_rank(r), 0);
            assert(a.filter(of_rank(r)) == b.filter(of_rank(r)));
            a.lemma_filter_len(of_rank(r));
        }
        assert(a =~= b);
    } else {
        let x = a.last();
        let m = rank(x.1);
        lemma_last_in_filter(a, m);
        assert(a.filter(of_rank(m)) == b.filter(of_rank(m)));
        lemma_descending_ends_lowest(b, m);
        let y = b.last();
        let n = rank(y.1);
        lemma_last_in_filter(b, n);
        assert(a.filter(of_rank(n)) == b.filter(of_rank(n)));
        lemma_descending_ends_lowest(a, n);
        assert(m == n);
        assert(x == a.filter(of_rank(m)).last());
        assert(y == b.filter(of_rank(m)).last());
        let a0 = a.drop_last();
        let b0 = b.drop_last();
        assert(descending(a0)) by {
            assert forall|i: int, j: int| 0 <= i < j < a0.len() implies rank((#[trigger] a0[i]).1)
                >= rank((#[trigger] a0[j]).1) by {
                assert(a0[i] == a[i] && a0[j] == a[j]);
            }
        }
        assert(descending(b0)) by {
            assert forall|i: int, j: int| 0 <= i < j < b0.len() implies rank((#[trigger] b0[i]).1)
                >= rank((#[trigger] b0[j]).1) by {
                assert(b0[i] == b[i] && b0[j] == b[j]);
            }
        }
        assert forall|r: int| #[trigger] a0.filter(of_rank(r)) == b0.filter(of_rank(r)) by {
            lemma_last_in_filter(a, r);
            lemma_last_in_filter(b, r);
            assert(a.filter(of_rank(r)) == b.filter(of_rank(r)));
            if r == m {
                assert(a0.filter(of_rank(r)) =~= a.filter(of_rank(r)).drop_last());
                assert(b0.filter(of_rank(r)) =~= b.filter(of_rank(r)).drop_last());
            }
        }
        lemma_descending_determined(a0, b0);
        assert(a =~= a0.push(x));
        assert(b =~= b0.push(y));
    }
}

/// The ranking of `s` is the only arrangement of `s` that is in descending
/// order of weight and keeps the neighbours of each weight in the order they
/// have in `s`.
pub proof fn lemma_ranking_unique(s: Seq<Neighbor>, r: Seq<Neighbor>)
    requires
        descending(r),
        forall|k: int| #[trigger] r.filter(of_rank(k)) == s.filter(of_rank(k)),
    ensures
        r == ranked(s),
{
    lemma_ranked_descending(s);
    assert forall|k: int| #[trigger] r.filter(of_rank(k)) == ranked(s).filter(of_rank(k)) by {
        lemma_ranked_stable(s, k);
    }
    lemma_descending_determined(r, ranked(s));
}

} // verus!
