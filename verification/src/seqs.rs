//! Facts about sequences that several modules use.

use vstd::prelude::*;

verus! {

/// Two predicates that agree on the items of a sequence select the same of them.
pub proof fn lemma_filter_agree<A>(s: Seq<A>, p: spec_fn(A) -> bool, q: spec_fn(A) -> bool)
    requires
        forall|i: int| 0 <= i < s.len() ==> p(#[trigger] s[i]) == q(s[i]),
    ensures
        s.filter(p) == s.filter(q),
    decreases s.len(),
{
    reveal(Seq::filter);
    if s.len() > 0 {
        let t = s.drop_last();
        assert forall|i: int| 0 <= i < t.len() implies p(#[trigger] t[i]) == q(t[i]) by {
            assert(t[i] == s[i]);
        }
        lemma_filter_agree(t, p, q);
        assert(p(s[s.len() - 1]) == q(s[s.len() - 1]));
    }
}

/// A predicate selects nothing exactly when it holds of no item.
pub proof fn lemma_filter_none<A>(s: Seq<A>, p: spec_fn(A) -> bool)
    ensures
        s.filter(p).len() == 0 <==> forall|i: int| 0 <= i < s.len() ==> !p(#[trigger] s[i]),
{
    broadcast use vstd::seq_lib::group_filter_ensures;

    let t = s.filter(p);
    if t.len() > 0 {
        assert(p(t[0]));
        s.lemma_filter_contains_rev(p, t[0]);
        let i = choose|i: int| 0 <= i < s.len() && s[i] == t[0];
        assert(p(s[i]));
    } else {
        assert forall|i: int| 0 <= i < s.len() implies !p(#[trigger] s[i]) by {
            if p(s[i]) {
                assert(t.contains(s[i]));
            }
        }
    }
}

/// A predicate and its complement select all items between them.
pub proof fn lemma_filter_split<A>(s: Seq<A>, p: spec_fn(A) -> bool, q: spec_fn(A) -> bool)
    requires
        forall|f: A| #[trigger] q(f) == !p(f),
    ensures
        s.filter(p).len() + s.filter(q).len() == s.len(),
    decreases s.len(),
{
    reveal(Seq::filter);
    if s.len() > 0 {
        lemma_filter_split(s.drop_last(), p, q);
        assert(q(s.last()) == !p(s.last()));
    }
}

/// A predicate that holds of every item selects the whole sequence.
pub proof fn lemma_filter_all<A>(s: Seq<A>, p: spec_fn(A) -> bool)
    requires
        forall|i: int| 0 <= i < s.len() ==> p(#[trigger] s[i]),
    ensures
        s.filter(p) == s,
    decreases s.len(),
{
    reveal(Seq::filter);
    if s.len() > 0 {
        let t = s.drop_last();
        assert forall|i: int| 0 <= i < t.len() implies p(#[trigger] t[i]) by {
            assert(t[i] == s[i]);
        }
        lemma_filter_all(t, p);
        assert(p(s[s.len() - 1]));
        assert(t.push(s.last()) =~= s);
    }
}

/// What a predicate selects stands in the order of the sequence and comes from it.
pub proof fn lemma_filter_in_order<A>(
    s: Seq<A>,
    p: spec_fn(A) -> bool,
    less: spec_fn(A, A) -> bool,
)
    requires
        forall|i: int, j: int| 0 <= i < j < s.len() ==> less(#[trigger] s[i], #[trigger] s[j]),
    ensures
        forall|i: int, j: int|
            0 <= i < j < s.filter(p).len() ==> less(
                #[trigger] s.filter(p)[i],
                #[trigger] s.filter(p)[j],
            ),
        forall|i: int| 0 <= i < s.filter(p).len() ==> s.contains(#[trigger] s.filter(p)[i]),
    decreases s.len(),
{
    reveal(Seq::filter);
    if s.len() > 0 {
        let t = s.drop_last();
        assert forall|i: int, j: int| 0 <= i < j < t.len() implies less(
            #[trigger] t[i],
            #[trigger] t[j],
        ) by {
            assert(less(s[i], s[j]));
        }
        lemma_filter_in_order(t, p, less);
        let ft = t.filter(p);
        let fs = s.filter(p);
        assert(s[s.len() - 1] == s.last());
        assert forall|i: int| 0 <= i < ft.len() implies less(#[trigger] ft[i], s.last())
            && s.contains(ft[i]) by {
            assert(t.contains(ft[i]));
            let k = choose|k: int| 0 <= k < t.len() && t[k] == ft[i];
            assert(s[k] == ft[i]);
            assert(less(s[k], s[s.len() - 1]));
        }
        assert forall|i: int| 0 <= i < fs.len() implies s.contains(#[trigger] fs[i]) by {
            if i < ft.len() {
                assert(fs[i] == ft[i]);
            }
        }
        assert forall|i: int, j: int| 0 <= i < j < fs.len() implies less(
            #[trigger] fs[i],
            #[trigger] fs[j],
        ) by {
            assert(fs[i] == ft[i]);
            if j < ft.len() {
                assert(fs[j] == ft[j]);
            }
        }
    }
}

/// Filtering never adds items.
pub proof fn lemma_filter_len<A>(s: Seq<A>, p: spec_fn(A) -> bool)
    ensures
        s.filter(p).len() <= s.len(),
    decreases s.len(),
{
    reveal(Seq::filter);
    if s.len() > 0 {
        lemma_filter_len(s.drop_last(), p);
    }
}

} // verus!
