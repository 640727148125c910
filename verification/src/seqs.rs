//! Facts about sequences that the proofs of the other modules share.

use vstd::prelude::*;

verus! {

/// Everything that `filter` keeps was there before and satisfies the predicate.
pub proof fn lemma_filter_keeps<A>(s: Seq<A>, pred: spec_fn(A) -> bool, i: int)
    requires
        0 <= i < s.filter(pred).len(),
    ensures
        pred(s.filter(pred)[i]),
        s.contains(s.filter(pred)[i]),
    decreases s.len(),
{
    reveal(Seq::filter);
    let kept = s.drop_last().filter(pred);
    if i < kept.len() {
        lemma_filter_keeps(s.drop_last(), pred, i);
        let k = choose|k: int| 0 <= k < s.len() - 1 && s.drop_last()[k] == kept[i];
        assert(s[k] == s.filter(pred)[i]);
    } else {
        assert(s[s.len() - 1] == s.filter(pred)[i]);
    }
}

/// `filter` goes through a sequence from its first element to its last.
pub proof fn lemma_filter_push<A>(s: Seq<A>, x: A, pred: spec_fn(A) -> bool)
    ensures
        s.push(x).filter(pred) == if pred(x) {
            s.filter(pred).push(x)
        } else {
            s.filter(pred)
        },
{
    reveal(Seq::filter);
    assert(s.push(x).drop_last() =~= s);
}

/// Nothing is left of nothing.
pub proof fn lemma_filter_empty<A>(pred: spec_fn(A) -> bool)
    ensures
        Seq::<A>::empty().filter(pred) == Seq::<A>::empty(),
{
    reveal(Seq::filter);
}

/// Nothing is kept exactly if nothing satisfies the predicate.
pub proof fn lemma_filter_none<A>(s: Seq<A>, pred: spec_fn(A) -> bool)
    ensures
        s.filter(pred).len() == 0 <==> forall|i: int| 0 <= i < s.len() ==> !pred(#[trigger] s[i]),
    decreases s.len(),
{
    reveal(Seq::filter);
    if s.len() > 0 {
        let init = s.drop_last();
        lemma_filter_none(init, pred);
        if s.filter(pred).len() == 0 {
            assert forall|i: int| 0 <= i < s.len() implies !pred(#[trigger] s[i]) by {
                if i < init.len() {
                    assert(init[i] == s[i]);
                }
            }
        } else if forall|i: int| 0 <= i < s.len() ==> !pred(#[trigger] s[i]) {
            assert(!pred(s[s.len() - 1]));
            assert forall|i: int| 0 <= i < init.len() implies !pred(#[trigger] init[i]) by {
                assert(init[i] == s[i]);
            }
        }
    }
}

/// Everything is kept if everything satisfies the predicate.
pub proof fn lemma_filter_all<A>(s: Seq<A>, pred: spec_fn(A) -> bool)
    requires
        forall|i: int| 0 <= i < s.len() ==> pred(#[trigger] s[i]),
    ensures
        s.filter(pred) == s,
    decreases s.len(),
{
    reveal(Seq::filter);
    if s.len() > 0 {
        let init = s.drop_last();
        assert forall|i: int| 0 <= i < init.len() implies pred(#[trigger] init[i]) by {
            assert(init[i] == s[i]);
        }
        lemma_filter_all(init, pred);
        assert(init.push(s.last()) =~= s);
        assert(pred(s[s.len() - 1]));
    }
}

/// To keep what satisfies two predicates is to keep what satisfies the one, and of that what
/// satisfies the other.
pub proof fn lemma_filter_twice<A>(
    s: Seq<A>,
    first: spec_fn(A) -> bool,
    second: spec_fn(A) -> bool,
    both: spec_fn(A) -> bool,
)
    requires
        forall|x: A| #[trigger] both(x) <==> first(x) && second(x),
    ensures
        s.filter(first).filter(second) == s.filter(both),
    decreases s.len(),
{
    if s.len() == 0 {
        reveal(Seq::filter);
    } else {
        let init = s.drop_last();
        lemma_filter_twice(init, first, second, both);
        assert(init.push(s.last()) =~= s);
        lemma_filter_push(init, s.last(), first);
        lemma_filter_push(init, s.last(), both);
        lemma_filter_push(init.filter(first), s.last(), second);
    }
}

/// The positions of the elements that `filter` keeps.
pub open spec fn positions<A>(s: Seq<A>, pred: spec_fn(A) -> bool) -> Seq<int>
    decreases s.len(),
{
    if s.len() == 0 {
        Seq::empty()
    } else {
        let before = positions(s.drop_last(), pred);
        if pred(s.last()) {
            before.push(s.len() - 1)
        } else {
            before
        }
    }
}

/// Whether `part` has those elements of `whole` that stand at the positions `at`, in their
/// order.
pub open spec fn picks<A>(whole: Seq<A>, part: Seq<A>, at: Seq<int>) -> bool {
    &&& at.len() == part.len()
    &&& forall|k: int|
        0 <= k < at.len() ==> 0 <= #[trigger] at[k] < whole.len() && part[k] == whole[at[k]]
    &&& forall|k: int, l: int| 0 <= k < l < at.len() ==> #[trigger] at[k] < #[trigger] at[l]
}

/// `filter` keeps, in their order, the elements at the positions where the predicate holds.
pub proof fn lemma_filter_picks<A>(s: Seq<A>, pred: spec_fn(A) -> bool)
    ensures
        picks(s, s.filter(pred), positions(s, pred)),
        forall|i: int| #[trigger]
            positions(s, pred).contains(i) <==> 0 <= i < s.len() && pred(s[i]),
    decreases s.len(),
{
    reveal(Seq::filter);
    if s.len() > 0 {
        let init = s.drop_last();
        let before = positions(init, pred);
        let now = positions(s, pred);
        lemma_filter_picks(init, pred);
        assert forall|i: int| #[trigger] now.contains(i) <==> 0 <= i < s.len() && pred(s[i]) by {
            assert(before.contains(i) <==> 0 <= i < init.len() && pred(init[i]));
            if before.contains(i) {
                assert(now[before.index_of(i)] == i);
            }
            if pred(s.last()) {
                assert(now[before.len() as int] == s.len() - 1);
            }
            if now.contains(i) && now.index_of(i) < before.len() {
                assert(before[now.index_of(i)] == i);
            }
        }
    }
}

} // verus!
