//! The mathematical model shared by both queues: a sequence of buckets, one
//! per distance, each holding the items currently at that distance.
//!
//! Bucket `d` of a `Seq<Seq<T>>` holds the items at distance `d`, oldest
//! first. Items enter and leave a bucket at its end.

use vstd::prelude::*;
use vstd::seq_lib::{lemma_flatten_concat, lemma_multiset_commutative, to_multiset_build};

verus! {

/// `n` buckets, all of them empty.
pub open spec fn empty_buckets<T>(n: nat) -> Seq<Seq<T>> {
    Seq::new(n, |d: int| Seq::<T>::empty())
}

/// The number of items held in all buckets together.
pub open spec fn total<T>(b: Seq<Seq<T>>) -> nat {
    b.flatten().len()
}

/// The number of items held at distances smaller than `d`.
pub open spec fn count_below<T>(b: Seq<Seq<T>>, d: int) -> nat {
    total(b.take(d))
}

/// The buckets after `item` has been appended to bucket `d`.
pub open spec fn push_at<T>(b: Seq<Seq<T>>, d: int, item: T) -> Seq<Seq<T>> {
    b.update(d, b[d].push(item))
}

/// The buckets after the newest item of bucket `d` has been removed.
pub open spec fn pop_at<T>(b: Seq<Seq<T>>, d: int) -> Seq<Seq<T>> {
    b.update(d, b[d].drop_last())
}

/// `d` is the smallest distance at which an item is held.
pub open spec fn is_best<T>(b: Seq<Seq<T>>, d: int) -> bool {
    &&& 0 <= d < b.len()
    &&& b[d].len() > 0
    &&& forall|e: int| 0 <= e < d ==> (#[trigger] b[e]).len() == 0
}

/// `d` is the largest distance at which an item is held.
pub open spec fn is_worst<T>(b: Seq<Seq<T>>, d: int) -> bool {
    &&& 0 <= d < b.len()
    &&& b[d].len() > 0
    &&& forall|e: int| d < e < b.len() ==> (#[trigger] b[e]).len() == 0
}

/// The smallest distance at which an item is held; arbitrary when no item is held.
pub open spec fn best_distance<T>(b: Seq<Seq<T>>) -> int {
    choose|d: int| is_best(b, d)
}

/// The largest distance at which an item is held; arbitrary when no item is held.
pub open spec fn worst_distance<T>(b: Seq<Seq<T>>) -> int {
    choose|d: int| is_worst(b, d)
}

/// `w` is the eviction threshold of buckets `b` kept under capacity `cap`:
/// the largest held distance once `cap` items are held, and the largest
/// distance there is, `b.len() - 1`, before that.
pub open spec fn is_threshold<T>(b: Seq<Seq<T>>, cap: nat, w: int) -> bool {
    if cap > 0 && total(b) == cap {
        is_worst(b, w)
    } else {
        w == b.len() - 1
    }
}

/// Whether buckets `b` kept under capacity `cap` take in an item pushed at
/// distance `d`: always while fewer than `cap` items are held, and after
/// that only an item better than the worst one held.
pub open spec fn keeps<T>(b: Seq<Seq<T>>, cap: nat, d: int) -> bool {
    total(b) < cap || d < worst_distance(b)
}

/// The buckets kept under capacity `cap` after a push of `item` at distance
/// `d`: the item joins bucket `d` if it is taken in, and once `cap` items
/// are held the newest item of the worst bucket leaves in exchange.
pub open spec fn bounded_push<T>(b: Seq<Seq<T>>, cap: nat, d: int, item: T) -> Seq<Seq<T>> {
    if total(b) < cap {
        push_at(b, d, item)
    } else if d < worst_distance(b) {
        pop_at(push_at(b, d, item), worst_distance(b))
    } else {
        b
    }
}

/// The smaller of two numbers.
pub open spec fn least(a: nat, b: nat) -> nat {
    if a <= b {
        a
    } else {
        b
    }
}

/// `x` limited to the range from `0` to `hi`.
pub open spec fn clip(x: int, hi: int) -> int {
    if x < 0 {
        0
    } else if x > hi {
        hi
    } else {
        x
    }
}

/// The buckets cut down to their `n` best items: an item stays exactly if
/// fewer than `n` items come before it in ascending order of distance, so
/// whole buckets go from the worst end inward and at most one bucket loses
/// only its newest items.
pub open spec fn keep_best<T>(b: Seq<Seq<T>>, n: nat) -> Seq<Seq<T>> {
    Seq::new(b.len(), |d: int| b[d].take(clip(n - count_below(b, d), b[d].len() as int)))
}

/// The buckets with each item paired with its distance.
pub open spec fn tagged<T>(b: Seq<Seq<T>>) -> Seq<Seq<(int, T)>> {
    Seq::new(b.len(), |d: int| b[d].map_values(|item: T| (d, item)))
}

/// The items in ascending order of distance, each paired with its distance.
/// Within a bucket the oldest item comes first.
pub open spec fn entries<T>(b: Seq<Seq<T>>) -> Seq<(int, T)> {
    tagged(b).flatten()
}

/// Buckets `a` and `b` are as many, and each bucket of `a` holds as many
/// items as the bucket of `b` at the same distance.
pub open spec fn same_shape<T>(a: Seq<Seq<T>>, b: Seq<Seq<T>>) -> bool {
    &&& a.len() == b.len()
    &&& forall|d: int| 0 <= d < a.len() ==> (#[trigger] a[d]).len() == b[d].len()
}

/// Flattening the first `d + 1` buckets appends bucket `d` to the first `d`.
pub proof fn lemma_take_step<T>(b: Seq<Seq<T>>, d: int)
    requires
        0 <= d < b.len(),
    ensures
        b.take(d + 1).flatten() == b.take(d).flatten() + b[d],
        count_below(b, d + 1) == count_below(b, d) + b[d].len(),
{
    assert(b.take(d + 1) =~= b.take(d).push(b[d]));
    b.take(d).lemma_flatten_push(b[d]);
}

/// Counting below the number of buckets counts everything.
pub proof fn lemma_count_below_ends<T>(b: Seq<Seq<T>>)
    ensures
        count_below(b, 0) == 0,
        count_below(b, b.len() as int) == total(b),
{
    assert(b.take(b.len() as int) =~= b);
    assert(b.take(0) =~= Seq::<Seq<T>>::empty());
}

/// The count below a distance grows with the distance.
pub proof fn lemma_count_below_monotone<T>(b: Seq<Seq<T>>, d: int, e: int)
    requires
        0 <= d <= e <= b.len(),
    ensures
        count_below(b, d) <= count_below(b, e),
    decreases e - d,
{
    if d < e {
        lemma_count_below_monotone(b, d, e - 1);
        lemma_take_step(b, e - 1);
    }
}

/// Replacing bucket `at` changes the count below `d` by the change in that
/// bucket's length if `at < d`, and not at all otherwise.
pub proof fn lemma_count_below_update<T>(b: Seq<Seq<T>>, at: int, s: Seq<T>, d: int)
    requires
        0 <= at < b.len(),
        0 <= d <= b.len(),
    ensures
        at < d ==> count_below(b.update(at, s), d) == count_below(b, d) + s.len() - b[at].len(),
        at >= d ==> count_below(b.update(at, s), d) == count_below(b, d),
    decreases d,
{
    let c = b.update(at, s);
    if d == 0 {
        lemma_count_below_ends(b);
        lemma_count_below_ends(c);
    } else {
        lemma_count_below_update(b, at, s, d - 1);
        lemma_take_step(b, d - 1);
        lemma_take_step(c, d - 1);
    }
}

/// No item is held below `d` exactly if every bucket below `d` is empty.
pub proof fn lemma_count_below_zero<T>(b: Seq<Seq<T>>, d: int)
    requires
        0 <= d <= b.len(),
    ensures
        count_below(b, d) == 0 <==> forall|e: int| 0 <= e < d ==> (#[trigger] b[e]).len() == 0,
    decreases d,
{
    if d == 0 {
        lemma_count_below_ends(b);
    } else {
        lemma_count_below_zero(b, d - 1);
        lemma_take_step(b, d - 1);
        if count_below(b, d) == 0 {
            assert(b[d - 1].len() == 0);
        }
    }
}

/// When every bucket from `d` on is empty, all items are held below `d`.
pub proof fn lemma_count_below_empty_tail<T>(b: Seq<Seq<T>>, d: int)
    requires
        0 <= d <= b.len(),
        forall|e: int| d <= e < b.len() ==> (#[trigger] b[e]).len() == 0,
    ensures
        count_below(b, d) == total(b),
    decreases b.len() - d,
{
    if d == b.len() {
        lemma_count_below_ends(b);
    } else {
        assert(b[d].len() == 0);
        lemma_take_step(b, d);
        lemma_count_below_empty_tail(b, d + 1);
    }
}

/// Empty buckets hold nothing below any distance.
pub proof fn lemma_empty_buckets<T>(n: nat, d: int)
    requires
        0 <= d <= n,
    ensures
        count_below(empty_buckets::<T>(n), d) == 0,
        total(empty_buckets::<T>(n)) == 0,
{
    let b = empty_buckets::<T>(n);
    lemma_count_below_zero(b, d);
    lemma_count_below_zero(b, n as int);
    lemma_count_below_ends(b);
}

/// Cutting down to `n` items changes nothing when no more than `n` are held.
pub proof fn lemma_keep_best_all<T>(b: Seq<Seq<T>>, n: nat)
    requires
        total(b) <= n,
    ensures
        keep_best(b, n) == b,
{
    let kept = keep_best(b, n);
    assert forall|d: int| 0 <= d < b.len() implies #[trigger] kept[d] == b[d] by {
        lemma_count_below_monotone(b, d + 1, b.len() as int);
        lemma_count_below_ends(b);
        lemma_take_step(b, d);
        assert(kept[d] =~= b[d]);
    }
    assert(kept =~= b);
}

/// Of the buckets cut down to `n` items, the first `d` hold the first `n`
/// of the items that the first `d` held before, or all of them if there
/// were fewer.
pub proof fn lemma_keep_best_upto<T>(b: Seq<Seq<T>>, n: nat, d: int)
    requires
        0 <= d <= b.len(),
    ensures
        keep_best(b, n).take(d).flatten() == b.take(d).flatten().take(
            least(n, count_below(b, d)) as int,
        ),
        count_below(keep_best(b, n), d) == least(n, count_below(b, d)),
    decreases d,
{
    let kept = keep_best(b, n);
    if d == 0 {
        lemma_count_below_ends(b);
        lemma_count_below_ends(kept);
        assert(kept.take(0).flatten() =~= b.take(0).flatten().take(0));
    } else {
        lemma_keep_best_upto(b, n, d - 1);
        lemma_take_step(b, d - 1);
        lemma_take_step(kept, d - 1);
        assert(kept.take(d).flatten() =~= b.take(d).flatten().take(
            least(n, count_below(b, d)) as int,
        ));
    }
}

/// Cutting down to `n` items leaves the first `n` items in ascending order
/// of distance, or all of them if fewer were held: the items that leave are
/// the worst ones.
pub proof fn lemma_keep_best_total<T>(b: Seq<Seq<T>>, n: nat)
    ensures
        total(keep_best(b, n)) == least(n, total(b)),
        keep_best(b, n).flatten() == b.flatten().take(least(n, total(b)) as int),
{
    let kept = keep_best(b, n);
    lemma_keep_best_upto(b, n, b.len() as int);
    lemma_count_below_ends(b);
    lemma_count_below_ends(kept);
    assert(b.take(b.len() as int) =~= b);
    assert(kept.take(b.len() as int) =~= kept);
}

/// Replacing a bucket changes the total by the change in its length.
pub proof fn lemma_total_update<T>(b: Seq<Seq<T>>, at: int, s: Seq<T>)
    requires
        0 <= at < b.len(),
    ensures
        total(b.update(at, s)) == total(b) + s.len() - b[at].len(),
{
    lemma_count_below_update(b, at, s, b.len() as int);
    lemma_count_below_ends(b);
    lemma_count_below_ends(b.update(at, s));
}

/// Some item is held exactly if some bucket is not empty.
pub proof fn lemma_total_zero<T>(b: Seq<Seq<T>>)
    ensures
        total(b) == 0 <==> forall|e: int| 0 <= e < b.len() ==> (#[trigger] b[e]).len() == 0,
{
    lemma_count_below_zero(b, b.len() as int);
    lemma_count_below_ends(b);
}

/// There is at most one smallest held distance.
pub proof fn lemma_best_unique<T>(b: Seq<Seq<T>>, d: int)
    requires
        is_best(b, d),
    ensures
        best_distance(b) == d,
{
    let c = best_distance(b);
    assert(is_best(b, c));
    if c < d {
        assert(b[c].len() == 0);
    } else if d < c {
        assert(b[d].len() == 0);
    }
}

/// There is at most one largest held distance.
pub proof fn lemma_worst_unique<T>(b: Seq<Seq<T>>, d: int)
    requires
        is_worst(b, d),
    ensures
        worst_distance(b) == d,
{
    let c = worst_distance(b);
    assert(is_worst(b, c));
    if c < d {
        assert(b[d].len() == 0);
    } else if d < c {
        assert(b[c].len() == 0);
    }
}

/// The items of the first `d` buckets come first among all items in
/// ascending order of distance.
pub proof fn lemma_flatten_prefix<T>(b: Seq<Seq<T>>, d: int)
    requires
        0 <= d <= b.len(),
    ensures
        count_below(b, d) <= total(b),
        b.take(d).flatten() == b.flatten().take(count_below(b, d) as int),
{
    assert(b =~= b.take(d) + b.skip(d));
    lemma_flatten_concat(b.take(d), b.skip(d));
    assert(b.take(d).flatten() =~= b.flatten().take(count_below(b, d) as int));
}

/// Item `j` of bucket `d` stands, among all items in ascending order of
/// distance, behind those of the buckets below `d` and the `j` before it.
pub proof fn lemma_flatten_index<T>(b: Seq<Seq<T>>, d: int, j: int)
    requires
        0 <= d < b.len(),
        0 <= j < b[d].len(),
    ensures
        count_below(b, d) + j < total(b),
        b.flatten()[count_below(b, d) + j] == b[d][j],
{
    lemma_take_step(b, d);
    lemma_flatten_prefix(b, d + 1);
    let upto = b.take(d + 1).flatten();
    assert(upto[count_below(b, d) + j] == b[d][j]);
}

/// Pairing the items with their distances leaves their number as it is.
pub proof fn lemma_tagged_count<T>(b: Seq<Seq<T>>, d: int)
    requires
        0 <= d <= b.len(),
    ensures
        count_below(tagged(b), d) == count_below(b, d),
    decreases d,
{
    if d == 0 {
        lemma_count_below_ends(b);
        lemma_count_below_ends(tagged(b));
    } else {
        lemma_tagged_count(b, d - 1);
        lemma_take_step(b, d - 1);
        lemma_take_step(tagged(b), d - 1);
    }
}

/// There is one entry for each item held, and item `j` of bucket `d` is
/// the entry behind those of the buckets below `d` and the `j` before it.
pub proof fn lemma_entries_index<T>(b: Seq<Seq<T>>, d: int, j: int)
    requires
        0 <= d < b.len(),
        0 <= j < b[d].len(),
    ensures
        entries(b).len() == total(b),
        count_below(b, d) + j < total(b),
        entries(b)[count_below(b, d) + j] == (d, b[d][j]),
{
    lemma_entries_len(b);
    lemma_tagged_count(b, d);
    lemma_flatten_index(tagged(b), d, j);
}

/// There is one entry for each item held.
pub proof fn lemma_entries_len<T>(b: Seq<Seq<T>>)
    ensures
        entries(b).len() == total(b),
{
    lemma_tagged_count(b, b.len() as int);
    lemma_count_below_ends(b);
    lemma_count_below_ends(tagged(b));
}

/// Where an item is held at distance `d`, there is a smallest held distance,
/// and it is no larger than `d`.
pub proof fn lemma_best_exists<T>(b: Seq<Seq<T>>, d: int)
    requires
        0 <= d < b.len(),
        b[d].len() > 0,
    ensures
        is_best(b, best_distance(b)),
        best_distance(b) <= d,
    decreases d,
{
    if forall|e: int| 0 <= e < d ==> (#[trigger] b[e]).len() == 0 {
        lemma_best_unique(b, d);
    } else {
        let e = choose|e: int| 0 <= e < d && (#[trigger] b[e]).len() > 0;
        lemma_best_exists(b, e);
    }
}

/// Where an item is held at distance `d`, there is a largest held distance,
/// and it is no smaller than `d`.
pub proof fn lemma_worst_exists<T>(b: Seq<Seq<T>>, d: int)
    requires
        0 <= d < b.len(),
        b[d].len() > 0,
    ensures
        is_worst(b, worst_distance(b)),
        worst_distance(b) >= d,
    decreases b.len() - d,
{
    if forall|e: int| d < e < b.len() ==> (#[trigger] b[e]).len() == 0 {
        lemma_worst_unique(b, d);
    } else {
        let e = choose|e: int| d < e < b.len() && (#[trigger] b[e]).len() > 0;
        lemma_worst_exists(b, e);
    }
}

/// Where anything is held, there are a smallest and a largest held distance.
pub proof fn lemma_held_extremes<T>(b: Seq<Seq<T>>)
    requires
        total(b) > 0,
    ensures
        is_best(b, best_distance(b)),
        is_worst(b, worst_distance(b)),
{
    lemma_total_zero(b);
    let d = choose|d: int| 0 <= d < b.len() && (#[trigger] b[d]).len() > 0;
    lemma_best_exists(b, d);
    lemma_worst_exists(b, d);
}

/// Buckets that were emptied are as the buckets of a new heap with as many
/// distances: they hold no item and have none to hand out, cutting them
/// down leaves them as they are, and under any capacity they take in
/// whatever is pushed.
pub proof fn lemma_nothing_held<T>(n: nat)
    ensures
        total(empty_buckets::<T>(n)) == 0,
        empty_buckets::<T>(n).flatten() == Seq::<T>::empty(),
        entries(empty_buckets::<T>(n)) == Seq::<(int, T)>::empty(),
        forall|len: nat| #[trigger] keep_best(empty_buckets::<T>(n), len) == empty_buckets::<T>(n),
        forall|cap: nat, d: int| cap > 0 ==> #[trigger] keeps(empty_buckets::<T>(n), cap, d),
        forall|cap: nat| cap > 0 && n > 0 ==>
            #[trigger] is_threshold(empty_buckets::<T>(n), cap, n - 1),
{
    let b = empty_buckets::<T>(n);
    lemma_empty_buckets::<T>(n, 0);
    lemma_entries_len(b);
    assert(b.flatten() =~= Seq::<T>::empty());
    assert(entries(b) =~= Seq::<(int, T)>::empty());
    assert forall|len: nat| #[trigger] keep_best(b, len) == b by {
        lemma_keep_best_all(b, len);
    }
}

/// Buckets of the same shape hold as many items below each distance.
pub proof fn lemma_same_shape_count<T>(a: Seq<Seq<T>>, b: Seq<Seq<T>>, d: int)
    requires
        same_shape(a, b),
        0 <= d <= a.len(),
    ensures
        count_below(a, d) == count_below(b, d),
    decreases d,
{
    if d == 0 {
        lemma_count_below_ends(a);
        lemma_count_below_ends(b);
    } else {
        lemma_same_shape_count(a, b, d - 1);
        lemma_take_step(a, d - 1);
        lemma_take_step(b, d - 1);
        assert(a[d - 1].len() == b[d - 1].len());
    }
}

/// Buckets of the same shape hold as many items, and have the same
/// eviction threshold under the same capacity.
pub proof fn lemma_same_shape<T>(a: Seq<Seq<T>>, b: Seq<Seq<T>>)
    requires
        same_shape(a, b),
    ensures
        total(a) == total(b),
        forall|cap: nat, w: int| #[trigger] is_threshold(a, cap, w) == is_threshold(b, cap, w),
{
    lemma_same_shape_count(a, b, a.len() as int);
    lemma_count_below_ends(a);
    lemma_count_below_ends(b);
    assert forall|cap: nat, w: int| #[trigger] is_threshold(a, cap, w) == is_threshold(
        b,
        cap,
        w,
    ) by {
        if 0 <= w < a.len() {
            assert(a[w].len() == b[w].len());
        }
        if is_worst(a, w) {
            assert forall|e: int| w < e < b.len() implies (#[trigger] b[e]).len() == 0 by {
                assert(a[e].len() == 0);
            }
        }
        if is_worst(b, w) {
            assert forall|e: int| w < e < a.len() implies (#[trigger] a[e]).len() == 0 by {
                assert(b[e].len() == 0);
            }
        }
    }
}

/// The items in ascending order of distance are those below distance `d`,
/// then those at `d`, then those above it.
pub proof fn lemma_flatten_split<T>(b: Seq<Seq<T>>, d: int)
    requires
        0 <= d < b.len(),
    ensures
        b.flatten() == b.take(d).flatten() + b[d] + b.skip(d + 1).flatten(),
{
    assert(b =~= b.take(d + 1) + b.skip(d + 1));
    lemma_flatten_concat(b.take(d + 1), b.skip(d + 1));
    lemma_take_step(b, d);
}

/// A push adds one entry, the item with its distance, and leaves the
/// others as they are.
pub proof fn lemma_entries_push<T>(b: Seq<Seq<T>>, d: int, item: T)
    requires
        0 <= d < b.len(),
    ensures
        entries(push_at(b, d, item)).to_multiset() == entries(b).to_multiset().insert((d, item)),
{
    broadcast use vstd::multiset::group_multiset_axioms;

    let t = tagged(b);
    let u = tagged(push_at(b, d, item));
    let below = t.take(d).flatten();
    let above = t.skip(d + 1).flatten();
    assert(u[d] =~= t[d].push((d, item)));
    assert(u.take(d) =~= t.take(d));
    assert(u.skip(d + 1) =~= t.skip(d + 1));
    lemma_flatten_split(t, d);
    lemma_flatten_split(u, d);
    lemma_multiset_commutative(below + t[d], above);
    lemma_multiset_commutative(below, t[d]);
    lemma_multiset_commutative(below + u[d], above);
    lemma_multiset_commutative(below, u[d]);
    to_multiset_build(t[d], (d, item));
    assert(entries(push_at(b, d, item)).to_multiset() =~= entries(b).to_multiset().insert(
        (d, item),
    ));
}

/// The entries are the items in ascending order of distance: each entry
/// pairs an item with a distance of the buckets, the items come in the
/// order in which flattening the buckets gives them, and no entry has a
/// smaller distance than one before it.
pub proof fn lemma_entries_ascend<T>(b: Seq<Seq<T>>)
    ensures
        entries(b).len() == total(b),
        forall|i: int| 0 <= i < total(b) ==> 0 <= (#[trigger] entries(b)[i]).0 < b.len(),
        forall|i: int| 0 <= i < total(b) ==> (#[trigger] entries(b)[i]).1 == b.flatten()[i],
        forall|i: int, j: int|
            0 <= i <= j < total(b) ==> (#[trigger] entries(b)[i]).0 <= (#[trigger] entries(b)[j]).0,
    decreases b.len(),
{
    lemma_entries_len(b);
    if b.len() > 0 {
        let n = b.len() - 1;
        let front = b.take(n);
        lemma_entries_ascend(front);
        lemma_take_step(b, n);
        lemma_take_step(tagged(b), n);
        lemma_tagged_count(b, n);
        assert(b.take(n + 1) =~= b);
        assert(tagged(b).take(n + 1) =~= tagged(b));
        assert(tagged(b).take(n) =~= tagged(front));
        assert(entries(b) == entries(front) + tagged(b)[n]);
        assert(b.flatten() == front.flatten() + b[n]);
        assert forall|i: int| 0 <= i < total(b) implies 0 <= (#[trigger] entries(b)[i]).0 < b.len()
            && entries(b)[i].1 == b.flatten()[i] && (i >= total(front) ==> entries(b)[i].0 == n)
            && (i < total(front) ==> entries(b)[i].0 < n) by {
            if i < total(front) {
                assert(entries(b)[i] == entries(front)[i]);
            } else {
                assert(entries(b)[i] == tagged(b)[n][i - total(front)]);
            }
        }
        assert forall|i: int, j: int| 0 <= i <= j < total(b) implies (#[trigger] entries(b)[i]).0 <= (
        #[trigger] entries(b)[j]).0 by {
            if j < total(front) {
                assert(entries(b)[i] == entries(front)[i]);
                assert(entries(b)[j] == entries(front)[j]);
            }
        }
    }
}

} // verus!
