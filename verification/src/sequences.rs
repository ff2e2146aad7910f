//! Facts about sequences that the proofs of the passes share.

use vstd::prelude::*;

verus! {

/// Filtering a sequence with one more element at its end: the element joins
/// the result exactly when it passes the test.
pub proof fn lemma_filter_push<A>(s: Seq<A>, x: A, pred: spec_fn(A) -> bool)
    ensures
        s.push(x).filter(pred) == if pred(x) {
            s.filter(pred).push(x)
        } else {
            s.filter(pred)
        },
{
    reveal(Seq::filter);
    assert(s.push(x).drop_last() =~= s);
    assert(s.push(x).last() == x);
}

/// A prefix that grows by one grows by the element at its end.
pub proof fn lemma_take_next<A>(s: Seq<A>, n: int)
    requires
        0 <= n < s.len(),
    ensures
        s.take(n + 1) == s.take(n).push(s[n]),
        s.take(n + 1).drop_last() == s.take(n),
        s.take(n + 1).last() == s[n],
{
    assert(s.take(n + 1) =~= s.take(n).push(s[n]));
    assert(s.take(n + 1).drop_last() =~= s.take(n));
}

/// Filtering a prefix that grows by one.
pub proof fn lemma_filter_take_next<A>(s: Seq<A>, n: int, pred: spec_fn(A) -> bool)
    requires
        0 <= n < s.len(),
    ensures
        s.take(n + 1).filter(pred) == if pred(s[n]) {
            s.take(n).filter(pred).push(s[n])
        } else {
            s.take(n).filter(pred)
        },
{
    lemma_take_next(s, n);
    lemma_filter_push(s.take(n), s[n], pred);
}

/// Nothing passes through the filter of an empty sequence.
pub proof fn lemma_filter_empty<A>(pred: spec_fn(A) -> bool)
    ensures
        Seq::<A>::empty().filter(pred) == Seq::<A>::empty(),
{
    reveal(Seq::filter);
}

/// A filter that every element passes changes nothing.
pub proof fn lemma_filter_all<A>(s: Seq<A>, pred: spec_fn(A) -> bool)
    requires
        forall|i: int| 0 <= i < s.len() ==> pred(#[trigger] s[i]),
    ensures
        s.filter(pred) == s,
    decreases s.len(),
{
    reveal(Seq::filter);
    if s.len() > 0 {
        assert forall|i: int| 0 <= i < s.drop_last().len() implies pred(
            #[trigger] s.drop_last()[i],
        ) by {
            assert(s.drop_last()[i] == s[i]);
        }
        lemma_filter_all(s.drop_last(), pred);
        assert(s.drop_last().push(s.last()) =~= s);
    }
}

/// A filter that no element passes leaves nothing.
pub proof fn lemma_filter_none<A>(s: Seq<A>, pred: spec_fn(A) -> bool)
    requires
        forall|i: int| 0 <= i < s.len() ==> !pred(#[trigger] s[i]),
    ensures
        s.filter(pred) == Seq::<A>::empty(),
    decreases s.len(),
{
    reveal(Seq::filter);
    if s.len() > 0 {
        assert forall|i: int| 0 <= i < s.drop_last().len() implies !pred(
            #[trigger] s.drop_last()[i],
        ) by {
            assert(s.drop_last()[i] == s[i]);
        }
        lemma_filter_none(s.drop_last(), pred);
    } else {
        assert(s =~= Seq::<A>::empty());
    }
}

/// What a filter lets through passes the test and comes from the sequence;
/// what passes the test gets through.
pub proof fn lemma_filter_members<A>(s: Seq<A>, pred: spec_fn(A) -> bool)
    ensures
        forall|x: A| #[trigger] s.filter(pred).contains(x) == (s.contains(x) && pred(x)),
    decreases s.len(),
{
    reveal(Seq::filter);
    if s.len() > 0 {
        let rest = s.drop_last();
        let last = s.last();
        lemma_filter_members(rest, pred);
        assert forall|x: A| #[trigger] s.filter(pred).contains(x) == (s.contains(x) && pred(
            x,
        )) by {
            let out = s.filter(pred);
            let sub = rest.filter(pred);
            assert(sub.contains(x) == (rest.contains(x) && pred(x)));
            if out.contains(x) {
                let i = choose|i: int| 0 <= i < out.len() && out[i] == x;
                if pred(last) && i == out.len() - 1 {
                    assert(x == last);
                    assert(s[s.len() - 1] == x);
                } else {
                    assert(sub[i] == x);
                    assert(sub.contains(x));
                    let j = choose|j: int| 0 <= j < rest.len() && rest[j] == x;
                    assert(s[j] == x);
                }
            }
            if s.contains(x) && pred(x) {
                let j = choose|j: int| 0 <= j < s.len() && s[j] == x;
                if j == s.len() - 1 {
                    assert(out[out.len() - 1] == x);
                } else {
                    assert(rest[j] == x);
                    assert(rest.contains(x));
                    let i = choose|i: int| 0 <= i < sub.len() && sub[i] == x;
                    assert(out[i] == x);
                }
            }
        }
    } else {
        assert forall|x: A| #[trigger] s.filter(pred).contains(x) == (s.contains(x) && pred(
            x,
        )) by {
            assert(!s.contains(x));
        }
    }
}

/// A filter leaves a sequence without repetitions without repetitions.
pub proof fn lemma_filter_no_duplicates<A>(s: Seq<A>, pred: spec_fn(A) -> bool)
    requires
        s.no_duplicates(),
    ensures
        s.filter(pred).no_duplicates(),
    decreases s.len(),
{
    reveal(Seq::filter);
    if s.len() > 0 {
        let rest = s.drop_last();
        let last = s.last();
        assert(rest.no_duplicates());
        lemma_filter_no_duplicates(rest, pred);
        lemma_filter_members(rest, pred);
        if pred(last) {
            let sub = rest.filter(pred);
            if sub.contains(last) {
                assert(rest.contains(last));
                let j = choose|j: int| 0 <= j < rest.len() && rest[j] == last;
                assert(s[j] == s[s.len() - 1]);
                assert(false);
            }
            assert forall|i: int, j: int|
                0 <= i < sub.push(last).len() && 0 <= j < sub.push(last).len() && i
                    != j implies sub.push(last)[i] != sub.push(last)[j] by {
                if i == sub.len() {
                    assert(sub[j] == sub.push(last)[j]);
                    assert(sub.contains(sub[j]));
                } else if j == sub.len() {
                    assert(sub[i] == sub.push(last)[i]);
                    assert(sub.contains(sub[i]));
                }
            }
        }
    }
}

} // verus!
