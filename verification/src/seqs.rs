//! Small general lemmas about `Seq::filter` that the word-list functions
//! share.

use vstd::prelude::*;

verus! {

/// Filtering after appending one element: the element survives exactly when
/// it satisfies the predicate.
pub proof fn lemma_filter_push<A>(s: Seq<A>, a: A, pred: spec_fn(A) -> bool)
    ensures
        s.push(a).filter(pred) == if pred(a) {
            s.filter(pred).push(a)
        } else {
            s.filter(pred)
        },
{
    reveal(Seq::filter);
    assert(s.push(a).drop_last() =~= s);
}

/// Everything the filter keeps was an element of the source.
pub proof fn lemma_filter_in_source<A>(s: Seq<A>, pred: spec_fn(A) -> bool)
    ensures
        forall|j: int|
            0 <= j < s.filter(pred).len() ==> s.contains(#[trigger] s.filter(pred)[j]),
    decreases s.len(),
{
    reveal(Seq::filter);
    if s.len() > 0 {
        let pre = s.drop_last();
        lemma_filter_in_source(pre, pred);
        assert forall|j: int|
            0 <= j < s.filter(pred).len() implies s.contains(#[trigger] s.filter(pred)[j]) by {
            if j < pre.filter(pred).len() {
                assert(s.filter(pred)[j] == pre.filter(pred)[j]);
                let i = choose|i: int| 0 <= i < pre.len() && pre[i] == pre.filter(pred)[j];
                assert(s[i] == pre.filter(pred)[j]);
            } else {
                assert(s.filter(pred)[j] == s.last());
                assert(s[s.len() - 1] == s.last());
            }
        }
    }
}

/// A filter whose predicate holds of every element keeps the sequence whole.
pub proof fn lemma_filter_all<A>(s: Seq<A>, pred: spec_fn(A) -> bool)
    requires
        forall|i: int| 0 <= i < s.len() ==> pred(#[trigger] s[i]),
    ensures
        s.filter(pred) == s,
    decreases s.len(),
{
    reveal(Seq::filter);
    if s.len() > 0 {
        lemma_filter_all(s.drop_last(), pred);
        assert(s.drop_last().filter(pred).push(s.last()) =~= s);
    }
}

/// A filter whose predicate holds of no element keeps nothing.
pub proof fn lemma_filter_none<A>(s: Seq<A>, pred: spec_fn(A) -> bool)
    requires
        forall|i: int| 0 <= i < s.len() ==> !pred(#[trigger] s[i]),
    ensures
        s.filter(pred) == Seq::<A>::empty(),
    decreases s.len(),
{
    reveal(Seq::filter);
    if s.len() > 0 {
        lemma_filter_none(s.drop_last(), pred);
    }
}

/// A second filter pass with a weaker predicate changes nothing: if
/// everything that satisfies `q` also satisfies `p`, filtering by `p` first
/// does not lose any `q`-element.
pub proof fn lemma_filter_absorb<A>(s: Seq<A>, p: spec_fn(A) -> bool, q: spec_fn(A) -> bool)
    requires
        forall|a: A| #[trigger] q(a) ==> p(a),
    ensures
        s.filter(p).filter(q) == s.filter(q),
    decreases s.len(),
{
    reveal(Seq::filter);
    if s.len() > 0 {
        let pre = s.drop_last();
        lemma_filter_absorb(pre, p, q);
        if p(s.last()) {
            lemma_filter_push(pre.filter(p), s.last(), q);
            assert(pre.filter(p).push(s.last()).drop_last() =~= pre.filter(p));
        }
    }
}

} // verus!
