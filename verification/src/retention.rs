//! What a `FixedHammingHeap` holds after a run of pushes.

use vstd::prelude::*;
use crate::buckets::{
    bounded_push, count_below, empty_buckets, is_worst, least, lemma_count_below_empty_tail,
    lemma_count_below_ends, lemma_count_below_monotone, lemma_count_below_update,
    lemma_empty_buckets, lemma_held_extremes, lemma_take_step, pop_at, push_at, total,
    worst_distance,
};

verus! {

/// The buckets of a heap of capacity `cap` after the pushes `ps`, each a
/// distance and an item, were made in order into `n` empty buckets.
pub open spec fn retained<T>(n: nat, cap: nat, ps: Seq<(int, T)>) -> Seq<Seq<T>>
    decreases ps.len(),
{
    if ps.len() == 0 {
        empty_buckets(n)
    } else {
        bounded_push(retained(n, cap, ps.drop_last()), cap, ps.last().0, ps.last().1)
    }
}

/// The number of pushes among `ps` that were made at a distance below `d`.
pub open spec fn pushed_below<T>(ps: Seq<(int, T)>, d: int) -> nat
    decreases ps.len(),
{
    if ps.len() == 0 {
        0
    } else {
        pushed_below(ps.drop_last(), d) + if ps.last().0 < d {
            1nat
        } else {
            0nat
        }
    }
}

/// The items among `ps` that were pushed at distance `d`, in the order of
/// their pushes.
pub open spec fn pushed_at<T>(ps: Seq<(int, T)>, d: int) -> Seq<T>
    decreases ps.len(),
{
    if ps.len() == 0 {
        Seq::empty()
    } else if ps.last().0 == d {
        pushed_at(ps.drop_last(), d).push(ps.last().1)
    } else {
        pushed_at(ps.drop_last(), d)
    }
}

/// The number of pushes below a distance grows with the distance, and
/// below a distance that none of them reaches it counts them all.
pub proof fn lemma_pushed_below<T>(ps: Seq<(int, T)>, d: int, e: int)
    requires
        d <= e,
    ensures
        pushed_below(ps, d) <= pushed_below(ps, e) <= ps.len(),
        (forall|i: int| 0 <= i < ps.len() ==> (#[trigger] ps[i]).0 < e) ==> pushed_below(ps, e)
            == ps.len(),
    decreases ps.len(),
{
    if ps.len() > 0 {
        lemma_pushed_below(ps.drop_last(), d, e);
        if forall|i: int| 0 <= i < ps.len() ==> (#[trigger] ps[i]).0 < e {
            assert forall|i: int| 0 <= i < ps.drop_last().len() implies (
            #[trigger] ps.drop_last()[i]).0 < e by {
                assert(ps.drop_last()[i] == ps[i]);
            }
        }
    }
}

/// The pushes at distance `d` are those below `d + 1` that are not below
/// `d`.
pub proof fn lemma_pushed_at<T>(ps: Seq<(int, T)>, d: int)
    ensures
        pushed_at(ps, d).len() == pushed_below(ps, d + 1) - pushed_below(ps, d),
    decreases ps.len(),
{
    if ps.len() > 0 {
        lemma_pushed_at(ps.drop_last(), d);
    }
}

/// What a heap of capacity `cap` holds after any run of pushes: below each
/// distance as many items as were pushed below it, up to `cap`; and at each
/// distance the items that were pushed there first.
pub open spec fn holds_best<T>(b: Seq<Seq<T>>, n: nat, cap: nat, ps: Seq<(int, T)>) -> bool {
    &&& b.len() == n
    &&& forall|d: int| 0 <= d <= n ==>
        #[trigger] count_below(b, d) == least(cap, pushed_below(ps, d))
    &&& forall|d: int| 0 <= d < n ==> (#[trigger] b[d]).is_prefix_of(pushed_at(ps, d))
}

/// One more push keeps what `holds_best` says.
proof fn lemma_holds_best_step<T>(
    b: Seq<Seq<T>>,
    n: nat,
    cap: nat,
    ps: Seq<(int, T)>,
    e: int,
    item: T,
)
    requires
        cap > 0,
        0 <= e < n,
        holds_best(b, n, cap, ps),
    ensures
        holds_best(bounded_push(b, cap, e, item), n, cap, ps.push((e, item))),
{
    let after = bounded_push(b, cap, e, item);
    let qs = ps.push((e, item));
    assert(qs.drop_last() =~= ps);
    assert(qs.last() == (e, item));
    lemma_count_below_ends(b);
    assert(count_below(b, n as int) == least(cap, pushed_below(ps, n as int)));
    // Bucket `e` holds all that was pushed at `e` whenever fewer than `cap`
    // items are held below `e + 1`.
    assert(count_below(b, e) == least(cap, pushed_below(ps, e)));
    assert(count_below(b, e + 1) == least(cap, pushed_below(ps, e + 1)));
    lemma_take_step(b, e);
    lemma_pushed_at(ps, e);
    assert(b[e].is_prefix_of(pushed_at(ps, e)));
    if total(b) < cap {
        assert(after == push_at(b, e, item));
        lemma_count_below_monotone(b, e + 1, n as int);
        assert(b[e] =~= pushed_at(ps, e));
        assert forall|d: int| 0 <= d <= n implies #[trigger] count_below(after, d) == least(
            cap,
            pushed_below(qs, d),
        ) by {
            lemma_count_below_update(b, e, b[e].push(item), d);
            lemma_count_below_monotone(b, d, n as int);
            lemma_pushed_below(ps, d, n as int);
            assert(count_below(b, d) == least(cap, pushed_below(ps, d)));
        }
        assert forall|d: int| 0 <= d < n implies
            (#[trigger] after[d]).is_prefix_of(pushed_at(qs, d)) by {
            if d == e {
                assert(after[d].is_prefix_of(pushed_at(qs, d)));
            } else {
                assert(b[d].is_prefix_of(pushed_at(ps, d)));
            }
        }
    } else {
        lemma_held_extremes(b);
        let w = worst_distance(b);
        assert(is_worst(b, w));
        lemma_count_below_empty_tail(b, w + 1);
        lemma_take_step(b, w);
        if e < w {
            let mid = push_at(b, e, item);
            assert(after == pop_at(mid, w));
            lemma_count_below_monotone(b, e + 1, w);
            assert(b[e] =~= pushed_at(ps, e));
            assert forall|d: int| 0 <= d <= n implies #[trigger] count_below(after, d) == least(
                cap,
                pushed_below(qs, d),
            ) by {
                lemma_count_below_update(b, e, b[e].push(item), d);
                lemma_count_below_update(mid, w, mid[w].drop_last(), d);
                assert(count_below(b, d) == least(cap, pushed_below(ps, d)));
                if d <= w {
                    lemma_count_below_monotone(b, d, w);
                } else {
                    lemma_count_below_monotone(b, w + 1, d);
                    lemma_count_below_monotone(b, d, n as int);
                }
            }
            assert forall|d: int| 0 <= d < n implies
                (#[trigger] after[d]).is_prefix_of(pushed_at(qs, d)) by {
                assert(b[d].is_prefix_of(pushed_at(ps, d)));
                if d == e {
                    assert(after[d].is_prefix_of(pushed_at(qs, d)));
                } else if d == w {
                    lemma_pushed_at(ps, w);
                    assert(count_below(b, w) == least(cap, pushed_below(ps, w)));
                    assert(count_below(b, w + 1) == least(cap, pushed_below(ps, w + 1)));
                    assert(b[w].len() <= pushed_at(ps, w).len());
                    assert(after[d].is_prefix_of(pushed_at(qs, d)));
                }
            }
        } else {
            assert(after == b);
            assert forall|d: int| 0 <= d <= n implies #[trigger] count_below(after, d) == least(
                cap,
                pushed_below(qs, d),
            ) by {
                assert(count_below(b, d) == least(cap, pushed_below(ps, d)));
                if d > e {
                    lemma_count_below_monotone(b, w + 1, d);
                    lemma_count_below_monotone(b, d, n as int);
                }
            }
            assert forall|d: int| 0 <= d < n implies
                (#[trigger] after[d]).is_prefix_of(pushed_at(qs, d)) by {
                assert(b[d].is_prefix_of(pushed_at(ps, d)));
                if d == e {
                    assert(b[e].len() <= pushed_at(ps, e).len());
                    assert(pushed_at(qs, e) == pushed_at(ps, e).push(item));
                    assert(after[d].is_prefix_of(pushed_at(qs, d)));
                }
            }
        }
    }
}

/// Whatever is pushed into an empty heap of capacity `cap`, and in whatever
/// order, the heap ends up with the `cap` best of the items pushed, or with
/// all of them if there were fewer. Below each distance it holds as many
/// items as were pushed below that distance, up to `cap`, and at each
/// distance it holds the items that were pushed there first.
pub proof fn lemma_retains_best<T>(n: nat, cap: nat, ps: Seq<(int, T)>)
    requires
        cap > 0,
        forall|i: int| 0 <= i < ps.len() ==> 0 <= (#[trigger] ps[i]).0 < n,
    ensures
        holds_best(retained(n, cap, ps), n, cap, ps),
        total(retained(n, cap, ps)) == least(cap, ps.len()),
    decreases ps.len(),
{
    let b = retained(n, cap, ps);
    if ps.len() == 0 {
        assert forall|d: int| 0 <= d <= n implies #[trigger] count_below(b, d) == least(
            cap,
            pushed_below(ps, d),
        ) by {
            lemma_empty_buckets::<T>(n, d);
        }
        assert forall|d: int| 0 <= d < n implies
            (#[trigger] b[d]).is_prefix_of(pushed_at(ps, d)) by {
        }
    } else {
        let qs = ps.drop_last();
        assert forall|i: int| 0 <= i < qs.len() implies 0 <= (#[trigger] qs[i]).0 < n by {
            assert(qs[i] == ps[i]);
        }
        lemma_retains_best(n, cap, qs);
        lemma_holds_best_step(retained(n, cap, qs), n, cap, qs, ps.last().0, ps.last().1);
        assert(qs.push((ps.last().0, ps.last().1)) =~= ps);
    }
    lemma_count_below_ends(b);
    lemma_pushed_below(ps, n as int, n as int);
    assert(count_below(b, n as int) == least(cap, pushed_below(ps, n as int)));
}

} // verus!
