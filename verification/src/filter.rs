//! Facts about filtered sequences.

use vstd::prelude::*;

verus! {

/// What a filter keeps of one element more.
pub proof fn lemma_filter_take<A>(s: Seq<A>, k: int, pred: spec_fn(A) -> bool)
    requires
        0 <= k < s.len(),
    ensures
        s.take(k + 1).filter(pred) == if pred(s[k]) {
            s.take(k).filter(pred).push(s[k])
        } else {
            s.take(k).filter(pred)
        },
{
    reveal(Seq::filter);
    assert(s.take(k + 1).drop_last() =~= s.take(k));
}

/// What two filters keep that have nothing in common is what both together keep.
pub proof fn lemma_filter_split<A>(
    s: Seq<A>,
    p: spec_fn(A) -> bool,
    q: spec_fn(A) -> bool,
    r: spec_fn(A) -> bool,
)
    requires
        forall|x: A| #[trigger] r(x) == (p(x) || q(x)),
        forall|x: A| !(#[trigger] p(x) && q(x)),
    ensures
        s.filter(r).to_multiset() == s.filter(p).to_multiset().add(s.filter(q).to_multiset()),
    decreases s.len(),
{
    broadcast use vstd::seq_lib::group_to_multiset_ensures;

    reveal(Seq::filter);
    if s.len() > 0 {
        lemma_filter_split(s.drop_last(), p, q, r);
        let x = s.last();
        assert(r(x) == (p(x) || q(x)));
        assert(!(p(x) && q(x)));
    }
    assert(s.filter(r).to_multiset() =~= s.filter(p).to_multiset().add(
        s.filter(q).to_multiset(),
    ));
}

/// A filter keeps everything if everything passes it.
pub proof fn lemma_filter_all<A>(s: Seq<A>, p: spec_fn(A) -> bool)
    requires
        forall|i: int| 0 <= i < s.len() ==> p(#[trigger] s[i]),
    ensures
        s.filter(p) == s,
    decreases s.len(),
{
    reveal(Seq::filter);
    if s.len() > 0 {
        let init = s.drop_last();
        assert forall|i: int| 0 <= i < init.len() implies p(#[trigger] init[i]) by {
            assert(p(s[i]));
        }
        lemma_filter_all(init, p);
        assert(p(s[s.len() - 1]));
        assert(init.push(s.last()) =~= s);
    }
}

/// A filter keeps nothing if nothing passes it.
pub proof fn lemma_filter_none<A>(s: Seq<A>, p: spec_fn(A) -> bool)
    requires
        forall|i: int| 0 <= i < s.len() ==> !p(#[trigger] s[i]),
    ensures
        s.filter(p).len() == 0,
    decreases s.len(),
{
    reveal(Seq::filter);
    if s.len() > 0 {
        let init = s.drop_last();
        assert forall|i: int| 0 <= i < init.len() implies !p(#[trigger] init[i]) by {
            assert(!p(s[i]));
        }
        lemma_filter_none(init, p);
        assert(!p(s[s.len() - 1]));
    }
}

/// What a filter keeps of the first elements comes first in what it keeps of all of them.
pub proof fn lemma_filter_prefix<A>(s: Seq<A>, k: int, pred: spec_fn(A) -> bool)
    requires
        0 <= k <= s.len(),
    ensures
        s.filter(pred) == s.take(k).filter(pred) + s.skip(k).filter(pred),
{
    assert(s =~= s.take(k) + s.skip(k));
    Seq::filter_distributes_over_add(s.take(k), s.skip(k), pred);
}

/// Where an element stands among those that a filter keeps.
pub proof fn lemma_filter_rank<A>(s: Seq<A>, p: int, pred: spec_fn(A) -> bool)
    requires
        0 <= p < s.len(),
        pred(s[p]),
    ensures
        s.take(p).filter(pred).len() < s.filter(pred).len(),
        s.filter(pred)[s.take(p).filter(pred).len() as int] == s[p],
{
    lemma_filter_take(s, p, pred);
    lemma_filter_prefix(s, p + 1, pred);
}

/// Of two elements that a filter keeps, the earlier stands earlier among those that it keeps.
pub proof fn lemma_filter_rank_order<A>(s: Seq<A>, p: int, r: int, pred: spec_fn(A) -> bool)
    requires
        0 <= p < r < s.len(),
        pred(s[p]),
    ensures
        s.take(p).filter(pred).len() < s.take(r).filter(pred).len(),
{
    let t = s.take(r);
    lemma_filter_take(s, p, pred);
    lemma_filter_prefix(t, p + 1, pred);
    assert(t.take(p + 1) =~= s.take(p + 1));
}

/// Every place among the elements that a filter keeps is that of some element.
pub proof fn lemma_filter_unrank<A>(s: Seq<A>, n: nat, pred: spec_fn(A) -> bool) -> (p: int)
    requires
        n < s.filter(pred).len(),
    ensures
        0 <= p < s.len(),
        pred(s[p]),
        s.take(p).filter(pred).len() == n,
    decreases s.len(),
{
    reveal(Seq::filter);
    let init = s.drop_last();
    if n < init.filter(pred).len() {
        let p = lemma_filter_unrank(init, n, pred);
        assert(init.take(p) =~= s.take(p));
        p
    } else {
        let p = s.len() - 1;
        assert(s.take(p) =~= init);
        p
    }
}

} // verus!
