//! The resolution engine: narrowing a snapshot of monitors by an ordered list
//! of affinity terms.

use vstd::prelude::*;
use vstd::seq_lib::*;
use crate::affinity::{Affinity, AffinityPair};
use crate::monitor::{snapshot, Monitor, MonitorView};
use crate::sorting::{
    lemma_insert_position_unique, lemma_sort_contains, lemma_sort_len, lemma_sort_ordered,
    lemma_sort_stable, ordered, stable_sort, total, transitive,
};
use crate::text::{lemma_bytes_le_total, lemma_bytes_le_transitive, text_le, text_precedes};
use vstd::utf8::encode_utf8;

verus! {

/// The order in which a ranking criterion puts monitors: by ascending key.
pub open spec fn by_rank(c: Affinity) -> spec_fn(MonitorView, MonitorView) -> bool {
    |a: MonitorView, b: MonitorView| c.key(a) <= c.key(b)
}

/// The order of monitors by name.
pub open spec fn by_name() -> spec_fn(MonitorView, MonitorView) -> bool {
    |a: MonitorView, b: MonitorView| text_le(a.name, b.name)
}

/// The monitors that a predicate term keeps: those of which the criterion
/// holds, or, for an exclusive term, those of which it does not.
pub open spec fn tested(c: Affinity, inclusive: bool) -> spec_fn(MonitorView) -> bool {
    |m: MonitorView| c.holds(m) == inclusive
}

/// The monitors that a ranking term keeps, given the key `best` of the
/// extreme: those with that key, or, for an exclusive term, those with
/// another.
pub open spec fn ranked(c: Affinity, best: int, inclusive: bool) -> spec_fn(MonitorView) -> bool {
    |m: MonitorView| (c.key(m) == best) == inclusive
}

/// The monitors that `term` keeps, where `best` is the key of the extreme
/// (which a predicate term does not look at).
pub open spec fn wanted(term: AffinityPair, best: int) -> spec_fn(MonitorView) -> bool {
    if term.0.predicate() {
        tested(term.0, term.1)
    } else {
        ranked(term.0, best, term.1)
    }
}

/// The least key that the ranking criterion `c` gives to a monitor of `ws`
/// (0 if there is none).
pub open spec fn least_key(c: Affinity, ws: Seq<MonitorView>) -> int
    decreases ws.len(),
{
    if ws.len() == 0 {
        0
    } else if ws.len() == 1 {
        c.key(ws[0])
    } else {
        let rest = least_key(c, ws.drop_last());
        if c.key(ws.last()) < rest {
            c.key(ws.last())
        } else {
            rest
        }
    }
}

/// The working set `ws` after one term.
///
/// A predicate term keeps the monitors it wants, in their order. An inclusive
/// ranking term keeps the monitors with the least key, in their order. An
/// exclusive ranking term keeps all others, by ascending key, those with the
/// same key in the order they had.
pub open spec fn narrowed(ws: Seq<MonitorView>, term: AffinityPair) -> Seq<MonitorView> {
    if term.0.predicate() {
        ws.filter(tested(term.0, term.1))
    } else if term.1 {
        ws.filter(ranked(term.0, least_key(term.0, ws), true))
    } else {
        stable_sort(ws, by_rank(term.0)).filter(ranked(term.0, least_key(term.0, ws), false))
    }
}

/// The working set `ws` after all of `terms`, applied from first to last.
pub open spec fn narrowed_by_all(ws: Seq<MonitorView>, terms: Seq<AffinityPair>) -> Seq<MonitorView>
    decreases terms.len(),
{
    if terms.len() == 0 {
        ws
    } else {
        narrowed(narrowed_by_all(ws, terms.drop_last()), terms.last())
    }
}

/// The selection that `terms` make among `monitors`: what is left after all
/// terms, ordered by name, monitors of one name in the order in which the
/// terms left them.
pub open spec fn resolved(terms: Seq<AffinityPair>, monitors: Seq<MonitorView>) -> Seq<MonitorView> {
    stable_sort(narrowed_by_all(monitors, terms), by_name())
}

/// The order by key compares any two monitors and is transitive.
pub proof fn lemma_by_rank_is_order(c: Affinity)
    ensures
        total(by_rank(c)),
        transitive(by_rank(c)),
{
}

/// The order by name compares any two monitors and is transitive.
pub proof fn lemma_by_name_is_order()
    ensures
        total(by_name()),
        transitive(by_name()),
{
    assert forall|a: MonitorView, b: MonitorView| #[trigger]
        by_name()(a, b) || by_name()(b, a) by {
        lemma_bytes_le_total(encode_utf8(a.name), encode_utf8(b.name));
    }
    assert forall|a: MonitorView, b: MonitorView, c: MonitorView| #[trigger]
        by_name()(a, b) && #[trigger] by_name()(b, c) implies by_name()(a, c) by {
        lemma_bytes_le_transitive(encode_utf8(a.name), encode_utf8(b.name), encode_utf8(c.name));
    }
}

/// The least key is the key of some monitor, and no monitor has a lesser one.
pub proof fn lemma_least_key(c: Affinity, ws: Seq<MonitorView>)
    requires
        ws.len() > 0,
    ensures
        exists|i: int| 0 <= i < ws.len() && c.key(#[trigger] ws[i]) == least_key(c, ws),
        forall|i: int| 0 <= i < ws.len() ==> least_key(c, ws) <= c.key(#[trigger] ws[i]),
    decreases ws.len(),
{
    if ws.len() == 1 {
        assert(c.key(ws[0]) == least_key(c, ws));
    } else {
        let front = ws.drop_last();
        lemma_least_key(c, front);
        let i = choose|i: int| 0 <= i < front.len() && c.key(#[trigger] front[i]) == least_key(c, front);
        assert(front[i] == ws[i]);
        if c.key(ws.last()) < least_key(c, front) {
            assert(c.key(ws[ws.len() - 1]) == least_key(c, ws));
        } else {
            assert(c.key(ws[i]) == least_key(c, ws));
        }
        assert forall|j: int| 0 <= j < ws.len() implies least_key(c, ws) <= c.key(#[trigger] ws[j]) by {
            if j < front.len() {
                assert(front[j] == ws[j]);
            }
        }
    }
}

/// After sorting by key, the first monitor has the least key.
pub proof fn lemma_first_is_least(c: Affinity, ws: Seq<MonitorView>)
    requires
        ws.len() > 0,
    ensures
        stable_sort(ws, by_rank(c)).len() == ws.len(),
        c.key(stable_sort(ws, by_rank(c))[0]) == least_key(c, ws),
{
    let sorted = stable_sort(ws, by_rank(c));
    lemma_sort_len(ws, by_rank(c));
    lemma_by_rank_is_order(c);
    lemma_sort_ordered(ws, by_rank(c));
    lemma_least_key(c, ws);
    let i = choose|i: int| 0 <= i < ws.len() && c.key(#[trigger] ws[i]) == least_key(c, ws);
    lemma_sort_contains(ws, by_rank(c), ws[i]);
    assert(ws.contains(ws[i]));
    let j = choose|j: int| 0 <= j < sorted.len() && sorted[j] == ws[i];
    if j > 0 {
        assert(by_rank(c)(sorted[0], sorted[j]));
    }
    lemma_sort_contains(ws, by_rank(c), sorted[0]);
    assert(sorted.contains(sorted[0]));
    let k = choose|k: int| 0 <= k < ws.len() && ws[k] == sorted[0];
    assert(least_key(c, ws) <= c.key(ws[k]));
}

/// A term never adds a monitor: the working set does not grow.
pub proof fn lemma_narrowed_len(ws: Seq<MonitorView>, term: AffinityPair)
    ensures
        narrowed(ws, term).len() <= ws.len(),
{
    broadcast use group_filter_ensures;

    lemma_sort_len(ws, by_rank(term.0));
}

/// What a list of monitors is sorted by.
#[derive(Copy, Clone, Debug)]
pub enum SortBy {
    /// The key of a ranking criterion, ascending.
    Rank(Affinity),
    /// The name, ascending.
    Name,
}

impl SortBy {
    /// The order that this stands for.
    pub open spec fn leq(self) -> spec_fn(MonitorView, MonitorView) -> bool {
        match self {
            SortBy::Rank(c) => by_rank(c),
            SortBy::Name => by_name(),
        }
    }

    /// Whether `a` may stand in front of `b`.
    pub fn precedes(self, a: &Monitor, b: &Monitor) -> (r: bool)
        ensures
            r == (self.leq())(a@, b@),
    {
        match self {
            SortBy::Rank(c) => c.key_for(a) <= c.key_for(b),
            SortBy::Name => text_precedes(a.name.as_str(), b.name.as_str()),
        }
    }
}

/// Sorts monitors in place. The sort is stable: monitors that the order does
/// not tell apart keep their places relative to one another.
pub fn sort_monitors(monitors: &mut Vec<Monitor>, by: SortBy)
    ensures
        snapshot(final(monitors)@) == stable_sort(snapshot(old(monitors)@), by.leq()),
{
    let ghost input = snapshot(monitors@);
    let n = monitors.len();
    let mut i: usize = 0;
    assert(input.take(0) =~= Seq::<MonitorView>::empty());
    assert(snapshot(monitors@).take(0) =~= input.take(0));
    while i < n
        invariant
            i <= n,
            n == monitors.len(),
            n == input.len(),
            snapshot(monitors@).take(i as int) == stable_sort(input.take(i as int), by.leq()),
            snapshot(monitors@).skip(i as int) == input.skip(i as int),
        decreases n - i,
    {
        let ghost before = snapshot(monitors@);
        let ghost front = before.take(i as int);
        let moved = monitors.remove(i);
        let ghost rest = snapshot(monitors@);
        let mut p: usize = i;
        while p > 0 && !by.precedes(&monitors[p - 1], &moved)
            invariant
                p <= i,
                i < n,
                monitors.len() == n - 1,
                rest == snapshot(monitors@),
                forall|j: int| p <= j < i ==> !(by.leq())(#[trigger] rest[j], moved@),
            decreases p,
        {
            p -= 1;
        }
        monitors.insert(p, moved);
        proof {
            let after = snapshot(monitors@);
            assert(moved@ == before[i as int]);
            assert(before[i as int] == before.skip(i as int)[0]);
            assert(input[i as int] == input.skip(i as int)[0]);
            assert forall|j: int| p <= j < front.len() implies !(by.leq())(
                #[trigger] front[j],
                moved@,
            ) by {
                assert(front[j] == rest[j]);
            }
            if p > 0 {
                assert(front[p - 1] == rest[p - 1]);
            }
            lemma_insert_position_unique(front, moved@, by.leq(), p as int);
            assert(input.take(i + 1).drop_last() =~= input.take(i as int));
            assert(input.take(i + 1).last() == input[i as int]);
            assert(after.take(i + 1) =~= front.insert(p as int, moved@));
            assert(after.skip(i + 1) =~= input.skip(i + 1)) by {
                let tail = after.skip(i + 1);
                assert forall|j: int| 0 <= j < n - i - 1 implies #[trigger] tail[j] == input.skip(
                    i + 1,
                )[j] by {
                    assert(after[i + 1 + j] == before[i + 1 + j]);
                    assert(before[i + 1 + j] == before.skip(i as int)[j + 1]);
                    assert(input[i + 1 + j] == input.skip(i as int)[j + 1]);
                }
            }
        }
        i += 1;
    }
    assert(snapshot(monitors@).take(n as int) =~= snapshot(monitors@));
    assert(input.take(n as int) =~= input);
}

/// Copies the monitors that `term` wants, in their order, where `best` is
/// the key of the extreme for a ranking term.
pub fn retain_wanted(monitors: &Vec<Monitor>, term: AffinityPair, best: i128) -> (kept: Vec<Monitor>)
    ensures
        snapshot(kept@) == snapshot(monitors@).filter(wanted(term, best as int)),
{
    let ghost all = snapshot(monitors@);
    let mut kept: Vec<Monitor> = Vec::new();
    let mut i: usize = 0;
    assert(all.take(0) =~= Seq::<MonitorView>::empty());
    assert(snapshot(kept@) =~= all.take(0).filter(wanted(term, best as int))) by {
        reveal(Seq::filter);
    }
    while i < monitors.len()
        invariant
            i <= monitors.len(),
            all == snapshot(monitors@),
            snapshot(kept@) == all.take(i as int).filter(wanted(term, best as int)),
        decreases monitors.len() - i,
    {
        let m = &monitors[i];
        let keep = if term.0.is_predicate() {
            term.0.holds_for(m) == term.1
        } else {
            (term.0.key_for(m) == best) == term.1
        };
        let ghost sofar = snapshot(kept@);
        if keep {
            kept.push(m.clone());
        }
        proof {
            assert(all.take(i + 1) =~= all.take(i as int).push(all[i as int]));
            all.take(i as int).lemma_filter_push(all[i as int], wanted(term, best as int));
            assert(keep == wanted(term, best as int)(all[i as int]));
            if keep {
                assert(snapshot(kept@) =~= sofar.push(all[i as int]));
            } else {
                assert(snapshot(kept@) =~= sofar);
            }
        }
        i += 1;
    }
    assert(all.take(i as int) =~= all);
    kept
}

/// Applies one term to the working set.
pub fn narrow(working: Vec<Monitor>, term: AffinityPair) -> (kept: Vec<Monitor>)
    ensures
        snapshot(kept@) == narrowed(snapshot(working@), term),
        kept@.len() <= working@.len(),
{
    let ghost ws = snapshot(working@);
    proof {
        lemma_narrowed_len(ws, term);
    }
    if term.0.is_predicate() {
        return retain_wanted(&working, term, 0);
    }
    if working.len() == 0 {
        proof {
            reveal(Seq::filter);
            assert(stable_sort(ws, by_rank(term.0)) =~= ws);
            assert(narrowed(ws, term) =~= ws);
        }
        return working;
    }
    let mut sorted = working;
    sort_monitors(&mut sorted, SortBy::Rank(term.0));
    proof {
        lemma_first_is_least(term.0, ws);
        assert(snapshot(sorted@).len() == sorted@.len());
    }
    let best = term.0.key_for(&sorted[0]);
    proof {
        assert(snapshot(sorted@)[0] == sorted@[0]@);
        if term.1 {
            lemma_sort_stable(ws, by_rank(term.0), ranked(term.0, best as int, true));
        }
    }
    retain_wanted(&sorted, term, best)
}

/// Selects the monitors that match `affinities`.
///
/// The terms are applied in order, each to what the one before it left. The
/// monitors that are left after the last term are returned ordered by name.
/// No match is no error: the result is then empty.
pub fn get_monitors_for_affinities(affinities: &[AffinityPair], monitors: &[Monitor]) -> (selected:
    Vec<Monitor>)
    ensures
        snapshot(selected@) == resolved(affinities@, snapshot(monitors@)),
        selected@.len() <= monitors@.len(),
        ordered(snapshot(selected@), by_name()),
{
    let mut working: Vec<Monitor> = Vec::new();
    let mut i: usize = 0;
    while i < monitors.len()
        invariant
            i <= monitors.len(),
            snapshot(working@) == snapshot(monitors@).take(i as int),
        decreases monitors.len() - i,
    {
        let ghost sofar = snapshot(working@);
        working.push(monitors[i].clone());
        assert(snapshot(working@) =~= sofar.push(monitors@[i as int]@));
        i += 1;
        assert(snapshot(working@) =~= snapshot(monitors@).take(i as int));
    }
    assert(snapshot(monitors@).take(i as int) =~= snapshot(monitors@));
    let mut t: usize = 0;
    assert(affinities@.take(0) =~= Seq::<AffinityPair>::empty());
    while t < affinities.len()
        invariant
            t <= affinities.len(),
            working@.len() <= monitors@.len(),
            snapshot(working@) == narrowed_by_all(snapshot(monitors@), affinities@.take(t as int)),
        decreases affinities.len() - t,
    {
        working = narrow(working, affinities[t]);
        t += 1;
        assert(affinities@.take(t as int).drop_last() =~= affinities@.take(t - 1));
    }
    assert(affinities@.take(t as int) =~= affinities@);
    sort_monitors(&mut working, SortBy::Name);
    proof {
        lemma_by_name_is_order();
        lemma_sort_ordered(narrowed_by_all(snapshot(monitors@), affinities@), by_name());
        lemma_sort_len(narrowed_by_all(snapshot(monitors@), affinities@), by_name());
    }
    working
}

} // verus!
