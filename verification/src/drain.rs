//! The order in which a `HammingHeap` gives back what was pushed into it.

use vstd::prelude::*;
use vstd::multiset::{lemma_multiset_empty_len, Multiset};
use vstd::seq_lib::{lemma_multiset_commutative, to_multiset_build, to_multiset_len};
use crate::buckets::{
    best_distance, empty_buckets, entries, is_best, lemma_empty_buckets, lemma_entries_len,
    lemma_entries_push, lemma_held_extremes, lemma_nothing_held, lemma_total_update, pop_at,
    push_at, total,
};

verus! {

/// The buckets after the pushes `ps`, each a distance and an item, were
/// made in order into `n` empty buckets.
pub open spec fn pushed<T>(n: nat, ps: Seq<(int, T)>) -> Seq<Seq<T>>
    decreases ps.len(),
{
    if ps.len() == 0 {
        empty_buckets(n)
    } else {
        push_at(pushed(n, ps.drop_last()), ps.last().0, ps.last().1)
    }
}

/// What successive pops return, each a distance and an item, until the
/// buckets `b` hold nothing: a pop takes the newest item at the smallest
/// held distance.
pub open spec fn drained<T>(b: Seq<Seq<T>>) -> Seq<(int, T)>
    decreases total(b),
    via drained_decreases::<T>
{
    if total(b) == 0 {
        Seq::empty()
    } else {
        let d = best_distance(b);
        seq![(d, b[d].last())] + drained(pop_at(b, d))
    }
}

#[via_fn]
proof fn drained_decreases<T>(b: Seq<Seq<T>>) {
    if total(b) != 0 {
        lemma_pop_best(b);
    }
}

/// A pop from buckets that hold something leaves one item less, and
/// nothing below the distance it took from.
pub proof fn lemma_pop_best<T>(b: Seq<Seq<T>>)
    requires
        total(b) > 0,
    ensures
        is_best(b, best_distance(b)),
        total(pop_at(b, best_distance(b))) == total(b) - 1,
        total(pop_at(b, best_distance(b))) > 0 ==> best_distance(b) <= best_distance(
            pop_at(b, best_distance(b)),
        ),
{
    lemma_held_extremes(b);
    let d = best_distance(b);
    let rest = pop_at(b, d);
    lemma_total_update(b, d, b[d].drop_last());
    if total(rest) > 0 {
        lemma_held_extremes(rest);
        let e = best_distance(rest);
        if e < d {
            assert(b[e].len() == 0);
        }
    }
}

/// Nothing can be popped from empty buckets, be they new or emptied.
pub proof fn lemma_drained_empty<T>(n: nat)
    ensures
        drained(empty_buckets::<T>(n)) == Seq::<(int, T)>::empty(),
{
    lemma_empty_buckets::<T>(n, 0);
}

/// Pushes into the buckets of a heap leave as many items as were pushed.
pub proof fn lemma_pushed_total<T>(n: nat, ps: Seq<(int, T)>)
    requires
        forall|i: int| 0 <= i < ps.len() ==> 0 <= (#[trigger] ps[i]).0 < n,
    ensures
        pushed(n, ps).len() == n,
        total(pushed(n, ps)) == ps.len(),
    decreases ps.len(),
{
    if ps.len() == 0 {
        lemma_empty_buckets::<T>(n, 0);
    } else {
        let before = pushed(n, ps.drop_last());
        let d = ps.last().0;
        assert forall|i: int| 0 <= i < ps.drop_last().len() implies
            0 <= (#[trigger] ps.drop_last()[i]).0 < n by {
            assert(ps.drop_last()[i] == ps[i]);
        }
        lemma_pushed_total(n, ps.drop_last());
        lemma_total_update(before, d, before[d].push(ps.last().1));
    }
}

/// Popping until nothing is left gives back every item held, none at a
/// smaller distance than one popped before it.
pub proof fn lemma_drained_ascends<T>(b: Seq<Seq<T>>)
    ensures
        drained(b).len() == total(b),
        total(b) > 0 ==> drained(b)[0].0 == best_distance(b),
        forall|i: int, j: int| 0 <= i <= j < drained(b).len() ==>
            (#[trigger] drained(b)[i]).0 <= (#[trigger] drained(b)[j]).0,
    decreases total(b),
{
    if total(b) > 0 {
        lemma_pop_best(b);
        let d = best_distance(b);
        let rest = pop_at(b, d);
        lemma_drained_ascends(rest);
        let head = seq![(d, b[d].last())];
        assert(drained(b) == head + drained(rest));
        assert forall|i: int, j: int| 0 <= i <= j < drained(b).len() implies
            (#[trigger] drained(b)[i]).0 <= (#[trigger] drained(b)[j]).0 by {
            if i == 0 {
                if j > 0 {
                    assert(drained(b)[j] == drained(rest)[j - 1]);
                    assert(drained(rest)[0].0 <= drained(rest)[j - 1].0);
                }
            } else {
                assert(drained(b)[i] == drained(rest)[i - 1]);
                assert(drained(b)[j] == drained(rest)[j - 1]);
            }
        }
    }
}

/// The buckets of a heap hold what was pushed into them: each item once,
/// at the distance it was pushed at.
pub proof fn lemma_pushed_entries<T>(n: nat, ps: Seq<(int, T)>)
    requires
        forall|i: int| 0 <= i < ps.len() ==> 0 <= (#[trigger] ps[i]).0 < n,
    ensures
        entries(pushed(n, ps)).to_multiset() == ps.to_multiset(),
    decreases ps.len(),
{
    if ps.len() == 0 {
        lemma_nothing_held::<T>(n);
        assert(ps =~= Seq::<(int, T)>::empty());
    } else {
        let qs = ps.drop_last();
        assert forall|i: int| 0 <= i < qs.len() implies 0 <= (#[trigger] qs[i]).0 < n by {
            assert(qs[i] == ps[i]);
        }
        lemma_pushed_entries(n, qs);
        lemma_pushed_total(n, qs);
        lemma_entries_push(pushed(n, qs), ps.last().0, ps.last().1);
        assert(ps =~= qs.push(ps.last()));
        to_multiset_build(qs, ps.last());
    }
}

/// Popping until nothing is left gives back what the buckets held: each
/// item once, with the distance it was held at.
pub proof fn lemma_drained_entries<T>(b: Seq<Seq<T>>)
    ensures
        drained(b).to_multiset() == entries(b).to_multiset(),
    decreases total(b),
{
    broadcast use vstd::multiset::group_multiset_axioms;

    if total(b) == 0 {
        lemma_entries_len(b);
        assert(entries(b) =~= Seq::<(int, T)>::empty());
    } else {
        lemma_pop_best(b);
        let d = best_distance(b);
        let rest = pop_at(b, d);
        let first = (d, b[d].last());
        lemma_drained_entries(rest);
        assert(b[d] =~= b[d].drop_last().push(b[d].last()));
        assert(b =~= push_at(rest, d, b[d].last()));
        lemma_entries_push(rest, d, b[d].last());
        lemma_multiset_commutative(seq![first], drained(rest));
        assert(seq![first] =~= Seq::<(int, T)>::empty().push(first));
        to_multiset_build(Seq::<(int, T)>::empty(), first);
        assert(Seq::<(int, T)>::empty().to_multiset() =~= Multiset::<(int, T)>::empty()) by {
            to_multiset_len(Seq::<(int, T)>::empty());
            lemma_multiset_empty_len(Seq::<(int, T)>::empty().to_multiset());
        }
        assert(drained(b) == seq![first] + drained(rest));
        assert(drained(b).to_multiset() =~= entries(b).to_multiset());
    }
}

/// Whatever is pushed into an empty heap, and in whatever order, popping
/// until nothing is left takes as many pops as there were pushes, the pops
/// give back each item that was pushed once, with the distance it was
/// pushed at, and the distances that they return never decrease.
pub proof fn lemma_pops_follow_pushes<T>(n: nat, ps: Seq<(int, T)>)
    requires
        forall|i: int| 0 <= i < ps.len() ==> 0 <= (#[trigger] ps[i]).0 < n,
    ensures
        drained(pushed(n, ps)).len() == ps.len(),
        drained(pushed(n, ps)).to_multiset() == ps.to_multiset(),
        forall|i: int, j: int|
            0 <= i <= j < ps.len() ==> (#[trigger] drained(pushed(n, ps))[i]).0 <= (
            #[trigger] drained(pushed(n, ps))[j]).0,
{
    lemma_pushed_total(n, ps);
    lemma_pushed_entries(n, ps);
    lemma_drained_entries(pushed(n, ps));
    lemma_drained_ascends(pushed(n, ps));
}

} // verus!
