//! What holds of every resolution, whatever the snapshot and the terms.

use vstd::multiset::*;
use vstd::prelude::*;
use vstd::seq_lib::*;
use vstd::utf8::encode_utf8;
use crate::affinity::{Affinity, AffinityPair};
use crate::monitor::MonitorView;
use crate::resolve::{
    by_name, by_rank, least_key, lemma_by_name_is_order, lemma_least_key, lemma_narrowed_len,
    narrowed, narrowed_by_all, ranked, resolved, tested,
};
use crate::text::{lemma_bytes_le_total, lemma_text_le_antisymmetric};
use crate::sorting::{
    lemma_filter_counts, lemma_filter_permuted, lemma_ordered_unique, lemma_sort_len,
    lemma_sort_ordered, lemma_sort_permutes, ordered, stable_sort,
};

verus! {

/// A single inclusive predicate term selects exactly the monitors of which
/// the predicate holds, ordered by name.
pub proof fn law_inclusive_predicate(c: Affinity, monitors: Seq<MonitorView>)
    requires
        c.predicate(),
    ensures
        resolved(seq![AffinityPair(c, true)], monitors) == stable_sort(
            monitors.filter(|m: MonitorView| c.holds(m)),
            by_name(),
        ),
{
    let terms = seq![AffinityPair(c, true)];
    assert(terms.drop_last() =~= Seq::<AffinityPair>::empty());
    assert(narrowed_by_all(monitors, terms) == narrowed(monitors, AffinityPair(c, true))) by {
        reveal_with_fuel(narrowed_by_all, 2);
    }
    assert(tested(c, true) =~= (|m: MonitorView| c.holds(m)));
}

/// A single exclusive predicate term selects exactly the monitors of which
/// the predicate does not hold, ordered by name.
pub proof fn law_exclusive_predicate(c: Affinity, monitors: Seq<MonitorView>)
    requires
        c.predicate(),
    ensures
        resolved(seq![AffinityPair(c, false)], monitors) == stable_sort(
            monitors.filter(|m: MonitorView| !c.holds(m)),
            by_name(),
        ),
{
    let terms = seq![AffinityPair(c, false)];
    assert(terms.drop_last() =~= Seq::<AffinityPair>::empty());
    assert(narrowed_by_all(monitors, terms) == narrowed(monitors, AffinityPair(c, false))) by {
        reveal_with_fuel(narrowed_by_all, 2);
    }
    assert(tested(c, false) =~= (|m: MonitorView| !c.holds(m)));
}

/// A single inclusive ranking term selects the monitors at the extreme: all
/// that it selects have the least key of the snapshot, and every monitor of
/// the snapshot with a key that is as good is selected, as often as it occurs.
/// It selects nothing else.
pub proof fn law_inclusive_ranking(c: Affinity, monitors: Seq<MonitorView>)
    requires
        c.ranking(),
    ensures
        ({
            let selected = resolved(seq![AffinityPair(c, true)], monitors);
            let best = least_key(c, monitors);
            &&& forall|i: int| 0 <= i < selected.len() ==> c.key(#[trigger] selected[i]) == best
            &&& forall|j: int| 0 <= j < monitors.len() ==> best <= c.key(#[trigger] monitors[j])
            &&& forall|m: MonitorView|
                c.key(m) <= best ==> #[trigger] selected.to_multiset().count(m)
                    == monitors.to_multiset().count(m)
            &&& forall|m: MonitorView|
                c.key(m) != best ==> #[trigger] selected.to_multiset().count(m) == 0
        }),
{
    broadcast use {group_to_multiset_ensures, group_multiset_axioms, group_filter_ensures};

    let term = AffinityPair(c, true);
    let terms = seq![term];
    let best = least_key(c, monitors);
    let keep = ranked(c, best, true);
    let kept = monitors.filter(keep);
    let selected = resolved(terms, monitors);
    assert(terms.drop_last() =~= Seq::<AffinityPair>::empty());
    assert(narrowed_by_all(monitors, terms) == kept) by {
        reveal_with_fuel(narrowed_by_all, 2);
    }
    lemma_sort_permutes(kept, by_name());
    if monitors.len() > 0 {
        lemma_least_key(c, monitors);
    }
    assert forall|m: MonitorView|
        #[trigger] selected.to_multiset().count(m) == if c.key(m) == best {
            monitors.to_multiset().count(m)
        } else {
            0
        } by {
        lemma_filter_counts(monitors, keep, m);
    }
    assert forall|i: int| 0 <= i < selected.len() implies c.key(#[trigger] selected[i])
        == best by {
        assert(selected.contains(selected[i]));
        assert(selected.to_multiset().count(selected[i]) > 0);
    }
    assert forall|m: MonitorView| c.key(m) <= best implies #[trigger] selected.to_multiset().count(
        m,
    ) == monitors.to_multiset().count(m) by {
        if c.key(m) < best {
            if monitors.to_multiset().count(m) > 0 {
                assert(monitors.contains(m));
                let j = choose|j: int| 0 <= j < monitors.len() && monitors[j] == m;
                assert(best <= c.key(monitors[j]));
            }
        }
    }
}

/// A single exclusive ranking term selects the complement of what the
/// inclusive term selects: the two selections together hold every monitor of
/// the snapshot as often as it occurs there, and no monitor of the exclusive
/// selection has the least key.
pub proof fn law_exclusive_ranking(c: Affinity, monitors: Seq<MonitorView>)
    requires
        c.ranking(),
    ensures
        ({
            let inclusive = resolved(seq![AffinityPair(c, true)], monitors);
            let exclusive = resolved(seq![AffinityPair(c, false)], monitors);
            &&& exclusive.to_multiset().add(inclusive.to_multiset()) == monitors.to_multiset()
            &&& forall|i: int|
                0 <= i < exclusive.len() ==> c.key(#[trigger] exclusive[i]) != least_key(c, monitors)
        }),
{
    broadcast use {group_to_multiset_ensures, group_multiset_axioms, group_filter_ensures};

    let best = least_key(c, monitors);
    let with = seq![AffinityPair(c, true)];
    let without = seq![AffinityPair(c, false)];
    let inclusive = resolved(with, monitors);
    let exclusive = resolved(without, monitors);
    let sorted = stable_sort(monitors, by_rank(c));
    let kept = monitors.filter(ranked(c, best, true));
    let others = sorted.filter(ranked(c, best, false));
    assert(with.drop_last() =~= Seq::<AffinityPair>::empty());
    assert(without.drop_last() =~= Seq::<AffinityPair>::empty());
    assert(narrowed_by_all(monitors, with) == kept) by {
        reveal_with_fuel(narrowed_by_all, 2);
    }
    assert(narrowed_by_all(monitors, without) == others) by {
        reveal_with_fuel(narrowed_by_all, 2);
    }
    lemma_sort_permutes(kept, by_name());
    lemma_sort_permutes(others, by_name());
    lemma_sort_permutes(monitors, by_rank(c));
    lemma_filter_permuted(sorted, monitors, ranked(c, best, false));
    assert forall|m: MonitorView|
        exclusive.to_multiset().add(inclusive.to_multiset()).count(m) == monitors.to_multiset().count(
            m,
        ) by {
        lemma_filter_counts(monitors, ranked(c, best, true), m);
        lemma_filter_counts(monitors, ranked(c, best, false), m);
    }
    assert(exclusive.to_multiset().add(inclusive.to_multiset()) =~= monitors.to_multiset());
    assert forall|i: int| 0 <= i < exclusive.len() implies c.key(#[trigger] exclusive[i])
        != best by {
        assert(exclusive.contains(exclusive[i]));
        assert(exclusive.to_multiset().count(exclusive[i]) > 0);
        lemma_filter_counts(monitors, ranked(c, best, false), exclusive[i]);
    }
}

/// An exclusive ranking term leaves nothing of a working set of one monitor:
/// no monitor is "not the largest" among itself.
pub proof fn law_exclusive_ranking_of_one(c: Affinity, working: Seq<MonitorView>)
    requires
        c.ranking(),
        working.len() == 1,
    ensures
        narrowed(working, AffinityPair(c, false)) == Seq::<MonitorView>::empty(),
        resolved(seq![AffinityPair(c, false)], working) == Seq::<MonitorView>::empty(),
{
    broadcast use group_filter_ensures;

    let term = AffinityPair(c, false);
    let terms = seq![term];
    let sorted = stable_sort(working, by_rank(c));
    let left = narrowed(working, term);
    lemma_sort_len(working, by_rank(c));
    assert(sorted.len() == 1);
    assert(sorted =~= working) by {
        reveal_with_fuel(stable_sort, 2);
        assert(working.drop_last() =~= Seq::<MonitorView>::empty());
    }
    if left.len() > 0 {
        assert(ranked(c, least_key(c, working), false)(left[0]));
        assert(left.contains(left[0]));
        sorted.lemma_filter_contains_rev(ranked(c, least_key(c, working), false), left[0]);
        assert(sorted.contains(left[0]));
        let j = choose|j: int| 0 <= j < sorted.len() && sorted[j] == left[0];
        assert(left[0] == working[0]);
    }
    assert(left =~= Seq::<MonitorView>::empty());
    assert(terms.drop_last() =~= Seq::<AffinityPair>::empty());
    assert(narrowed_by_all(working, terms) == left) by {
        reveal_with_fuel(narrowed_by_all, 2);
    }
    assert(stable_sort(Seq::<MonitorView>::empty(), by_name()) =~= Seq::<MonitorView>::empty());
}

/// A term only narrows: what it leaves is drawn from the working set, each
/// monitor at most as often as it occurred there.
pub proof fn law_term_narrows(working: Seq<MonitorView>, term: AffinityPair)
    ensures
        narrowed(working, term).len() <= working.len(),
        narrowed(working, term).to_multiset().subset_of(working.to_multiset()),
{
    broadcast use group_multiset_axioms;

    lemma_narrowed_len(working, term);
    let c = term.0;
    let best = least_key(c, working);
    lemma_sort_permutes(working, by_rank(c));
    lemma_filter_permuted(stable_sort(working, by_rank(c)), working, ranked(c, best, false));
    assert forall|m: MonitorView|
        narrowed(working, term).to_multiset().count(m) <= working.to_multiset().count(m) by {
        lemma_filter_counts(working, tested(c, term.1), m);
        lemma_filter_counts(working, ranked(c, best, true), m);
        lemma_filter_counts(working, ranked(c, best, false), m);
    }
}

/// One more term never selects more: the working set after `terms` and then
/// `term` is no larger than after `terms` alone, and so is the selection.
pub proof fn law_more_terms_narrow(
    monitors: Seq<MonitorView>,
    terms: Seq<AffinityPair>,
    term: AffinityPair,
)
    ensures
        narrowed_by_all(monitors, terms.push(term)).len() <= narrowed_by_all(monitors, terms).len(),
        resolved(terms.push(term), monitors).len() <= resolved(terms, monitors).len(),
        resolved(terms, monitors).len() <= monitors.len(),
    decreases terms.len(),
{
    assert(terms.push(term).drop_last() =~= terms);
    lemma_narrowed_len(narrowed_by_all(monitors, terms), term);
    lemma_sort_len(narrowed_by_all(monitors, terms), by_name());
    lemma_sort_len(narrowed_by_all(monitors, terms.push(term)), by_name());
    if terms.len() > 0 {
        law_more_terms_narrow(monitors, terms.drop_last(), terms.last());
        assert(terms.drop_last().push(terms.last()) =~= terms);
        lemma_sort_len(narrowed_by_all(monitors, terms.drop_last()), by_name());
    }
}

/// Every selection is in the order of the names, whatever the terms, and
/// also where there is none.
pub proof fn law_selection_ordered_by_name(terms: Seq<AffinityPair>, monitors: Seq<MonitorView>)
    ensures
        ordered(resolved(terms, monitors), by_name()),
        terms.len() == 0 ==> resolved(terms, monitors) == stable_sort(monitors, by_name()),
{
    lemma_by_name_is_order();
    lemma_sort_ordered(narrowed_by_all(monitors, terms), by_name());
}

/// The least key is that of the monitors, in whatever order they stand.
pub proof fn lemma_least_key_of_rearranged(c: Affinity, a: Seq<MonitorView>, b: Seq<MonitorView>)
    requires
        a.to_multiset() == b.to_multiset(),
    ensures
        least_key(c, a) == least_key(c, b),
{
    to_multiset_len(a);
    to_multiset_len(b);
    if a.len() > 0 {
        lemma_least_key(c, a);
        lemma_least_key(c, b);
        let i = choose|i: int| 0 <= i < a.len() && c.key(#[trigger] a[i]) == least_key(c, a);
        let j = choose|j: int| 0 <= j < b.len() && c.key(#[trigger] b[j]) == least_key(c, b);
        to_multiset_contains(a, a[i]);
        to_multiset_contains(b, a[i]);
        to_multiset_contains(a, b[j]);
        to_multiset_contains(b, b[j]);
        assert(a.contains(a[i]));
        assert(b.contains(b[j]));
        let p = choose|p: int| 0 <= p < b.len() && b[p] == a[i];
        let q = choose|q: int| 0 <= q < a.len() && a[q] == b[j];
        assert(least_key(c, b) <= c.key(b[p]));
        assert(least_key(c, a) <= c.key(a[q]));
    }
}

/// A term leaves the same monitors of a working set, in whatever order they
/// stand in it.
pub proof fn lemma_narrowed_of_rearranged(
    a: Seq<MonitorView>,
    b: Seq<MonitorView>,
    term: AffinityPair,
)
    requires
        a.to_multiset() == b.to_multiset(),
    ensures
        narrowed(a, term).to_multiset() == narrowed(b, term).to_multiset(),
{
    let c = term.0;
    let best = least_key(c, a);
    lemma_least_key_of_rearranged(c, a, b);
    if c.predicate() {
        lemma_filter_permuted(a, b, tested(c, term.1));
    } else if term.1 {
        lemma_filter_permuted(a, b, ranked(c, best, true));
    } else {
        lemma_sort_permutes(a, by_rank(c));
        lemma_sort_permutes(b, by_rank(c));
        lemma_filter_permuted(
            stable_sort(a, by_rank(c)),
            stable_sort(b, by_rank(c)),
            ranked(c, best, false),
        );
    }
}

/// The terms leave the same monitors of a snapshot, in whatever order they
/// stand in it, and leave only monitors of the snapshot.
pub proof fn lemma_narrowed_by_all_of_rearranged(
    a: Seq<MonitorView>,
    b: Seq<MonitorView>,
    terms: Seq<AffinityPair>,
)
    requires
        a.to_multiset() == b.to_multiset(),
    ensures
        narrowed_by_all(a, terms).to_multiset() == narrowed_by_all(b, terms).to_multiset(),
        narrowed_by_all(a, terms).to_multiset().subset_of(a.to_multiset()),
    decreases terms.len(),
{
    broadcast use group_multiset_axioms;

    if terms.len() > 0 {
        lemma_narrowed_by_all_of_rearranged(a, b, terms.drop_last());
        lemma_narrowed_of_rearranged(
            narrowed_by_all(a, terms.drop_last()),
            narrowed_by_all(b, terms.drop_last()),
            terms.last(),
        );
        law_term_narrows(narrowed_by_all(a, terms.drop_last()), terms.last());
    }
}

/// Where no two monitors have the same name, the selection does not depend
/// on the order in which the snapshot lists them.
pub proof fn law_selection_independent_of_order(
    terms: Seq<AffinityPair>,
    a: Seq<MonitorView>,
    b: Seq<MonitorView>,
)
    requires
        a.to_multiset() == b.to_multiset(),
        forall|i: int, j: int|
            0 <= i < a.len() && 0 <= j < a.len() && (#[trigger] a[i]).name == (#[trigger] a[j]).name
                ==> i == j,
    ensures
        resolved(terms, a) == resolved(terms, b),
{
    broadcast use group_multiset_axioms;

    let left = narrowed_by_all(a, terms);
    let x = resolved(terms, a);
    let y = resolved(terms, b);
    lemma_narrowed_by_all_of_rearranged(a, b, terms);
    lemma_sort_permutes(left, by_name());
    lemma_sort_permutes(narrowed_by_all(b, terms), by_name());
    law_selection_ordered_by_name(terms, a);
    law_selection_ordered_by_name(terms, b);
    assert forall|i: int, j: int|
        0 <= i < x.len() && 0 <= j < x.len() && by_name()(#[trigger] x[i], #[trigger] x[j])
            && by_name()(x[j], x[i]) implies x[i] == x[j] by {
        law_names_order_totally(x[i], x[j]);
        assert(x.contains(x[i]) && x.contains(x[j]));
        to_multiset_contains(x, x[i]);
        to_multiset_contains(x, x[j]);
        to_multiset_contains(a, x[i]);
        to_multiset_contains(a, x[j]);
        let p = choose|p: int| 0 <= p < a.len() && a[p] == x[i];
        let q = choose|q: int| 0 <= q < a.len() && a[q] == x[j];
        assert(a[p].name == a[q].name);
    }
    lemma_ordered_unique(x, y, by_name());
}

/// Names order monitors totally: of two monitors one precedes the other by
/// name, and two that precede each other have the same name.
pub proof fn law_names_order_totally(a: MonitorView, b: MonitorView)
    ensures
        by_name()(a, b) || by_name()(b, a),
        by_name()(a, b) && by_name()(b, a) ==> a.name == b.name,
{
    lemma_bytes_le_total(encode_utf8(a.name), encode_utf8(b.name));
    if by_name()(a, b) && by_name()(b, a) {
        lemma_text_le_antisymmetric(a.name, b.name);
    }
}

} // verus!
