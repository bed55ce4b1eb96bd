//! Sorting by a total order.

use vstd::prelude::*;
use vstd::relations;

verus! {

/// Items with a total order on their views.
pub trait Ranked: View + Sized {
    /// Whether `a` comes no later than `b`.
    spec fn leq(a: Self::V, b: Self::V) -> bool;

    /// The order is total.
    proof fn leq_is_total()
        ensures
            relations::total_ordering(|a: Self::V, b: Self::V| Self::leq(a, b)),
    ;

    /// Whether this item comes no later than `other`.
    fn no_later(&self, other: &Self) -> (res: bool)
        ensures
            res == Self::leq(self@, other@),
    ;
}

/// The views of a sequence of items.
pub open spec fn item_views<T: View>(items: Seq<T>) -> Seq<T::V> {
    items.map_values(|t: T| t@)
}

/// The views of the items at the places of `order`.
pub open spec fn picked<T: View>(items: Seq<T>, order: Seq<usize>) -> Seq<T::V> {
    order.map_values(|i: usize| items[i as int]@)
}

/// The views of `items`, sorted.
pub open spec fn sorted_views<T: Ranked>(items: Seq<T>) -> Seq<T::V> {
    item_views(items).sort_by(|a: T::V, b: T::V| T::leq(a, b))
}

/// Whether every place of `order` is one of `n` places.
pub open spec fn places(order: Seq<usize>, n: nat) -> bool {
    forall|k: int| 0 <= k < order.len() ==> (#[trigger] order[k]) < n
}

fn merge<T: Ranked>(items: &[T], a: &Vec<usize>, b: &Vec<usize>) -> (res: Vec<usize>)
    requires
        places(a@, items@.len()),
        places(b@, items@.len()),
        relations::sorted_by(picked(items@, a@), |x: T::V, y: T::V| T::leq(x, y)),
        relations::sorted_by(picked(items@, b@), |x: T::V, y: T::V| T::leq(x, y)),
    ensures
        places(res@, items@.len()),
        relations::sorted_by(picked(items@, res@), |x: T::V, y: T::V| T::leq(x, y)),
        picked(items@, res@).to_multiset() == picked(items@, a@).to_multiset().add(
            picked(items@, b@).to_multiset(),
        ),
{
    broadcast use vstd::multiset::group_multiset_axioms;

    let mut out: Vec<usize> = Vec::new();
    let mut i: usize = 0;
    let mut j: usize = 0;
    let ghost leq = |x: T::V, y: T::V| T::leq(x, y);
    let ghost pa = picked(items@, a@);
    let ghost pb = picked(items@, b@);
    proof {
        T::leq_is_total();
        assert(picked(items@, out@) =~= Seq::<T::V>::empty());
        assert(pa.take(0) =~= Seq::<T::V>::empty());
        assert(pb.take(0) =~= Seq::<T::V>::empty());
        let none = Seq::<T::V>::empty();
        none.to_multiset_ensures();
        assert(none.to_multiset() =~= vstd::multiset::Multiset::<T::V>::empty());
        assert(none.to_multiset() =~= none.to_multiset().add(none.to_multiset()));
    }
    while i < a.len() || j < b.len()
        invariant
            i <= a@.len(),
            j <= b@.len(),
            leq == (|x: T::V, y: T::V| T::leq(x, y)),
            relations::total_ordering(leq),
            pa == picked(items@, a@),
            pb == picked(items@, b@),
            places(a@, items@.len()),
            places(b@, items@.len()),
            places(out@, items@.len()),
            relations::sorted_by(pa, leq),
            relations::sorted_by(pb, leq),
            relations::sorted_by(picked(items@, out@), leq),
            forall|k: int, l: int|
                0 <= k < out@.len() && i <= l < pa.len() ==> leq(
                    #[trigger] picked(items@, out@)[k],
                    #[trigger] pa[l],
                ),
            forall|k: int, l: int|
                0 <= k < out@.len() && j <= l < pb.len() ==> leq(
                    #[trigger] picked(items@, out@)[k],
                    #[trigger] pb[l],
                ),
            picked(items@, out@).to_multiset() == pa.take(i as int).to_multiset().add(
                pb.take(j as int).to_multiset(),
            ),
        decreases a@.len() - i + b@.len() - j,
    {
        let from_a: bool = if i < a.len() {
            if j < b.len() {
                items[a[i]].no_later(&items[b[j]])
            } else {
                true
            }
        } else {
            false
        };
        let ghost before = picked(items@, out@);
        proof {
            broadcast use vstd::multiset::group_multiset_axioms;
            broadcast use vstd::seq_lib::group_to_multiset_ensures;

            if from_a {
                let v = pa[i as int];
                assert(picked(items@, out@.push(a@[i as int])) =~= before.push(v));
                assert(pa.take(i + 1) =~= pa.take(i as int).push(v));
                if j < b@.len() {
                    assert forall|l: int| j <= l < pb.len() implies leq(v, #[trigger] pb[l]) by {
                        assert(leq(v, pb[j as int]));
                        if l > j {
                            assert(leq(pb[j as int], pb[l]));
                        }
                    }
                }
                assert forall|l: int| i < l < pa.len() implies leq(v, #[trigger] pa[l]) by {}
            } else {
                let v = pb[j as int];
                assert(picked(items@, out@.push(b@[j as int])) =~= before.push(v));
                assert(pb.take(j + 1) =~= pb.take(j as int).push(v));
                if i < a@.len() {
                    assert forall|l: int| i <= l < pa.len() implies leq(v, #[trigger] pa[l]) by {
                        assert(!leq(pa[i as int], v));
                        assert(leq(v, pa[i as int]));
                        if l > i {
                            assert(leq(pa[i as int], pa[l]));
                        }
                    }
                }
                assert forall|l: int| j < l < pb.len() implies leq(v, #[trigger] pb[l]) by {}
            }
        }
        if from_a {
            out.push(a[i]);
            i = i + 1;
            assert(picked(items@, out@) == before.push(pa[i - 1]));
        } else {
            out.push(b[j]);
            j = j + 1;
            assert(picked(items@, out@) == before.push(pb[j - 1]));
        }
        assert forall|k: int, l: int|
            0 <= k < l < picked(items@, out@).len() implies leq(
            #[trigger] picked(items@, out@)[k],
            #[trigger] picked(items@, out@)[l],
        ) by {
            assert(picked(items@, out@)[k] == before[k]);
        }
    }
    assert(pa.take(pa.len() as int) =~= pa);
    assert(pb.take(pb.len() as int) =~= pb);
    out
}

fn sort_span<T: Ranked>(items: &[T], lo: usize, hi: usize) -> (res: Vec<usize>)
    requires
        lo <= hi <= items@.len(),
    ensures
        places(res@, items@.len()),
        relations::sorted_by(picked(items@, res@), |x: T::V, y: T::V| T::leq(x, y)),
        picked(items@, res@).to_multiset() == item_views(items@).subrange(
            lo as int,
            hi as int,
        ).to_multiset(),
    decreases hi - lo,
{
    let ghost all = item_views(items@);
    if hi - lo < 2 {
        let mut out: Vec<usize> = Vec::new();
        if lo < hi {
            out.push(lo);
        }
        assert(picked(items@, out@) =~= all.subrange(lo as int, hi as int));
        return out;
    }
    let mid: usize = lo + (hi - lo) / 2;
    let a: Vec<usize> = sort_span(items, lo, mid);
    let b: Vec<usize> = sort_span(items, mid, hi);
    proof {
        let x = all.subrange(lo as int, mid as int);
        let y = all.subrange(mid as int, hi as int);
        assert(x + y =~= all.subrange(lo as int, hi as int));
        vstd::seq_lib::lemma_multiset_commutative(x, y);
    }
    merge(items, &a, &b)
}

/// The places of `items` in ascending order of the items.
pub fn sort_order<T: Ranked>(items: &[T]) -> (res: Vec<usize>)
    ensures
        res@.len() == items@.len(),
        places(res@, items@.len()),
        picked(items@, res@) == sorted_views(items@),
{
    let res: Vec<usize> = sort_span(items, 0, items.len());
    proof {
        let all = item_views(items@);
        let leq = |x: T::V, y: T::V| T::leq(x, y);
        T::leq_is_total();
        assert(all.subrange(0, all.len() as int) =~= all);
        all.lemma_sort_by_ensures(leq);
        vstd::seq_lib::lemma_sorted_unique(picked(items@, res@), all.sort_by(leq), leq);
        all.to_multiset_ensures();
        picked(items@, res@).to_multiset_ensures();
    }
    res
}

/// The views of a sequence of items are as many, each that of its item.
pub proof fn views_are_those_of_the_items<T: View>(items: Seq<T>)
    ensures
        item_views(items).len() == items.len(),
        forall|i: int| 0 <= i < items.len() ==> #[trigger] item_views(items)[i] == items[i]@,
{
}

} // verus!
