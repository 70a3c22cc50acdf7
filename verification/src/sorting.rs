//! Stable sorting of sequences: its definition, and the properties that
//! characterise it.

use vstd::multiset::*;
use vstd::prelude::*;
use vstd::seq_lib::*;

verus! {

/// `leq` relates any two values in at least one direction.
pub open spec fn total<T>(leq: spec_fn(T, T) -> bool) -> bool {
    forall|a: T, b: T| #[trigger] leq(a, b) || leq(b, a)
}

/// `leq` is transitive.
pub open spec fn transitive<T>(leq: spec_fn(T, T) -> bool) -> bool {
    forall|a: T, b: T, c: T| #[trigger] leq(a, b) && #[trigger] leq(b, c) ==> leq(a, c)
}

/// No element of `s` comes before one that `leq` puts in front of it.
pub open spec fn ordered<T>(s: Seq<T>, leq: spec_fn(T, T) -> bool) -> bool {
    forall|i: int, j: int| 0 <= i < j < s.len() ==> leq(#[trigger] s[i], #[trigger] s[j])
}

/// Where `x` goes in the ordered sequence `s`: right behind the last element
/// that `leq` does not put after it.
pub open spec fn insert_position<T>(s: Seq<T>, x: T, leq: spec_fn(T, T) -> bool) -> int
    decreases s.len(),
{
    if s.len() == 0 || leq(s.last(), x) {
        s.len() as int
    } else {
        insert_position(s.drop_last(), x, leq)
    }
}

/// The elements of `s` in the order of `leq`; elements that `leq` does not
/// tell apart stay in the order they had in `s`.
pub open spec fn stable_sort<T>(s: Seq<T>, leq: spec_fn(T, T) -> bool) -> Seq<T>
    decreases s.len(),
{
    if s.len() == 0 {
        s
    } else {
        let front = stable_sort(s.drop_last(), leq);
        front.insert(insert_position(front, s.last(), leq), s.last())
    }
}

/// The insert position lies behind an element that may precede `x`, and in
/// front of all that must follow it.
pub proof fn lemma_insert_position<T>(s: Seq<T>, x: T, leq: spec_fn(T, T) -> bool)
    ensures
        0 <= insert_position(s, x, leq) <= s.len(),
        insert_position(s, x, leq) > 0 ==> leq(s[insert_position(s, x, leq) - 1], x),
        forall|j: int| insert_position(s, x, leq) <= j < s.len() ==> !leq(#[trigger] s[j], x),
    decreases s.len(),
{
    if s.len() == 0 || leq(s.last(), x) {
    } else {
        let front = s.drop_last();
        lemma_insert_position(front, x, leq);
        assert forall|j: int| insert_position(s, x, leq) <= j < s.len() implies !leq(
            #[trigger] s[j],
            x,
        ) by {
            if j < front.len() {
                assert(s[j] == front[j]);
            }
        }
    }
}

/// The insert position is the only place with the properties of
/// [`lemma_insert_position`].
pub proof fn lemma_insert_position_unique<T>(s: Seq<T>, x: T, leq: spec_fn(T, T) -> bool, p: int)
    requires
        0 <= p <= s.len(),
        p > 0 ==> leq(s[p - 1], x),
        forall|j: int| p <= j < s.len() ==> !leq(#[trigger] s[j], x),
    ensures
        p == insert_position(s, x, leq),
    decreases s.len(),
{
    if s.len() == 0 || leq(s.last(), x) {
    } else {
        lemma_insert_position_unique(s.drop_last(), x, leq, p);
    }
}

/// Sorting keeps the length.
pub proof fn lemma_sort_len<T>(s: Seq<T>, leq: spec_fn(T, T) -> bool)
    ensures
        stable_sort(s, leq).len() == s.len(),
    decreases s.len(),
{
    if s.len() > 0 {
        lemma_sort_len(s.drop_last(), leq);
        lemma_insert_position(stable_sort(s.drop_last(), leq), s.last(), leq);
    }
}

/// Sorting rearranges: every value occurs in the result as often as in the
/// input.
pub proof fn lemma_sort_permutes<T>(s: Seq<T>, leq: spec_fn(T, T) -> bool)
    ensures
        stable_sort(s, leq).to_multiset() == s.to_multiset(),
    decreases s.len(),
{
    broadcast use group_to_multiset_ensures;

    if s.len() == 0 {
    } else {
        let front = stable_sort(s.drop_last(), leq);
        lemma_sort_permutes(s.drop_last(), leq);
        lemma_insert_position(front, s.last(), leq);
        assert(s =~= s.drop_last().push(s.last()));
    }
}

/// The result holds exactly the values of the input.
pub proof fn lemma_sort_contains<T>(s: Seq<T>, leq: spec_fn(T, T) -> bool, x: T)
    ensures
        stable_sort(s, leq).contains(x) <==> s.contains(x),
{
    lemma_sort_permutes(s, leq);
    to_multiset_contains(s, x);
    to_multiset_contains(stable_sort(s, leq), x);
}

/// The result is in order.
pub proof fn lemma_sort_ordered<T>(s: Seq<T>, leq: spec_fn(T, T) -> bool)
    requires
        total(leq),
        transitive(leq),
    ensures
        ordered(stable_sort(s, leq), leq),
    decreases s.len(),
{
    if s.len() > 0 {
        let front = stable_sort(s.drop_last(), leq);
        let x = s.last();
        let p = insert_position(front, x, leq);
        lemma_sort_ordered(s.drop_last(), leq);
        lemma_insert_position(front, x, leq);
        let r = front.insert(p, x);
        assert forall|i: int, j: int| 0 <= i < j < r.len() implies leq(#[trigger] r[i], #[trigger] r[j]) by {
            if j < p {
                assert(r[i] == front[i] && r[j] == front[j]);
            } else if j == p {
                assert(r[i] == front[i]);
                if i < p - 1 {
                    assert(leq(front[i], front[p - 1]));
                }
            } else if i < p {
                assert(r[i] == front[i] && r[j] == front[j - 1]);
            } else if i == p {
                assert(r[j] == front[j - 1]);
                assert(!leq(front[j - 1], x));
            } else {
                assert(r[i] == front[i - 1] && r[j] == front[j - 1]);
            }
        }
    }
}

/// Sorting is stable: values that `leq` does not tell apart keep their
/// order. Stated for any set `keep` of values that precede one another, the
/// result restricted to `keep` is the input restricted to `keep`.
pub proof fn lemma_sort_stable<T>(s: Seq<T>, leq: spec_fn(T, T) -> bool, keep: spec_fn(T) -> bool)
    requires
        forall|a: T, b: T| keep(a) && keep(b) ==> #[trigger] leq(a, b),
    ensures
        stable_sort(s, leq).filter(keep) == s.filter(keep),
    decreases s.len(),
{
    if s.len() == 0 {
    } else {
        let front = stable_sort(s.drop_last(), leq);
        let x = s.last();
        let p = insert_position(front, x, leq);
        lemma_sort_stable(s.drop_last(), leq, keep);
        lemma_insert_position(front, x, leq);
        let head = front.take(p);
        let tail = front.skip(p);
        assert(front =~= head + tail);
        assert(front.insert(p, x) =~= head.push(x) + tail);
        Seq::filter_distributes_over_add(head, tail, keep);
        Seq::filter_distributes_over_add(head.push(x), tail, keep);
        head.lemma_filter_push(x, keep);
        s.drop_last().lemma_filter_push(x, keep);
        assert(s =~= s.drop_last().push(x));
        if keep(x) {
            assert forall|j: int| 0 <= j < tail.len() implies !keep(#[trigger] tail[j]) by {
                assert(tail[j] == front[p + j]);
                assert(!leq(front[p + j], x));
            }
            tail.lemma_all_neg_filter_empty(keep);
            assert(tail.filter(keep) =~= Seq::<T>::empty());
        }
    }
}

/// There is one way to put given values in order, where `leq` tells any two
/// different ones of them apart: two ordered arrangements of the same values
/// are then the same sequence.
pub proof fn lemma_ordered_unique<T>(x: Seq<T>, y: Seq<T>, leq: spec_fn(T, T) -> bool)
    requires
        ordered(x, leq),
        ordered(y, leq),
        x.to_multiset() == y.to_multiset(),
        forall|i: int, j: int|
            0 <= i < x.len() && 0 <= j < x.len() && leq(#[trigger] x[i], #[trigger] x[j]) && leq(
                x[j],
                x[i],
            ) ==> x[i] == x[j],
    ensures
        x == y,
    decreases x.len(),
{
    to_multiset_len(x);
    to_multiset_len(y);
    if x.len() == 0 {
        assert(x =~= y);
    } else {
        let n = x.len() - 1;
        to_multiset_contains(x, y[n]);
        to_multiset_contains(y, y[n]);
        to_multiset_contains(x, x[n]);
        to_multiset_contains(y, x[n]);
        assert(y.contains(y[n]));
        assert(x.contains(x[n]));
        let i = choose|i: int| 0 <= i < x.len() && x[i] == y[n];
        let j = choose|j: int| 0 <= j < y.len() && y[j] == x[n];
        if i < n {
            assert(leq(x[i], x[n]));
        }
        if j < n {
            assert(leq(y[j], y[n]));
        }
        assert(x[i] == x[n]);
        let xs = x.drop_last();
        let ys = y.drop_last();
        assert(xs =~= x.remove(n));
        assert(ys =~= y.remove(n));
        to_multiset_remove(x, n);
        to_multiset_remove(y, n);
        assert forall|p: int, q: int|
            0 <= p < xs.len() && 0 <= q < xs.len() && leq(#[trigger] xs[p], #[trigger] xs[q])
                && leq(xs[q], xs[p]) implies xs[p] == xs[q] by {
            assert(xs[p] == x[p] && xs[q] == x[q]);
        }
        assert forall|p: int, q: int| 0 <= p < q < xs.len() implies leq(
            #[trigger] xs[p],
            #[trigger] xs[q],
        ) by {
            assert(xs[p] == x[p] && xs[q] == x[q]);
        }
        assert forall|p: int, q: int| 0 <= p < q < ys.len() implies leq(
            #[trigger] ys[p],
            #[trigger] ys[q],
        ) by {
            assert(ys[p] == y[p] && ys[q] == y[q]);
        }
        lemma_ordered_unique(xs, ys, leq);
        assert(x =~= xs.push(x[n]));
        assert(y =~= ys.push(y[n]));
    }
}

/// Filtering a sequence keeps each value that passes as often as it
/// occurred, and none of the others.
pub proof fn lemma_filter_counts<T>(s: Seq<T>, keep: spec_fn(T) -> bool, x: T)
    ensures
        s.filter(keep).to_multiset().count(x) == if keep(x) {
            s.to_multiset().count(x)
        } else {
            0
        },
    decreases s.len(),
{
    broadcast use {group_to_multiset_ensures, group_multiset_axioms};

    if s.len() == 0 {
        reveal(Seq::filter);
        assert(s.filter(keep) =~= s);
        assert(s.to_multiset() =~= Multiset::<T>::empty());
    } else {
        let front = s.drop_last();
        lemma_filter_counts(front, keep, x);
        front.lemma_filter_push(s.last(), keep);
        assert(s =~= front.push(s.last()));
    }
}

/// Filtering two arrangements of the same values gives two arrangements of
/// the same values.
pub proof fn lemma_filter_permuted<T>(s: Seq<T>, t: Seq<T>, keep: spec_fn(T) -> bool)
    requires
        s.to_multiset() == t.to_multiset(),
    ensures
        s.filter(keep).to_multiset() == t.filter(keep).to_multiset(),
{
    broadcast use group_multiset_axioms;

    assert forall|x: T|
        s.filter(keep).to_multiset().count(x) == t.filter(keep).to_multiset().count(x) by {
        lemma_filter_counts(s, keep, x);
        lemma_filter_counts(t, keep, x);
    }
    assert(s.filter(keep).to_multiset() =~= t.filter(keep).to_multiset());
}

} // verus!
