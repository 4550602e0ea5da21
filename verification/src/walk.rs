//! Walking a range of buckets in ascending order of distance.

use vstd::prelude::*;
use crate::buckets::{
    count_below, entries, lemma_count_below_monotone, lemma_entries_index, lemma_take_step,
};

verus! {

/// What a vector of buckets holds: bucket `d` of the result is the
/// sequence of items in `v[d]`.
pub open spec fn contents<T>(v: Seq<Vec<T>>) -> Seq<Seq<T>> {
    Seq::new(v.len(), |d: int| v[d]@)
}

/// The number of items in the buckets `from..to`.
pub open spec fn span<T>(v: Seq<Vec<T>>, from: int, to: int) -> int {
    count_below(contents(v), to) - count_below(contents(v), from)
}

/// Item `i` of the buckets from `from` on, in ascending order of distance,
/// with its distance.
pub open spec fn entry_from<T>(v: Seq<Vec<T>>, from: int, i: int) -> (int, T) {
    entries(contents(v))[count_below(contents(v), from) + i]
}

/// References to the items of the buckets `from..to`, in ascending order
/// of distance, each with the offset of its bucket from `from`.
pub(crate) fn items<T>(buckets: &Vec<Vec<T>>, from: usize, to: usize) -> (r: Vec<(u32, &T)>)
    requires
        from <= to <= buckets@.len() <= u32::MAX,
    ensures
        r@.len() == span(buckets@, from as int, to as int),
        forall|i: int|
            0 <= i < r@.len() ==> (#[trigger] r@[i]).0 == entry_from(buckets@, from as int, i).0
                - from,
        forall|i: int|
            0 <= i < r@.len() ==> *(#[trigger] r@[i]).1 == entry_from(buckets@, from as int, i).1,
{
    let ghost b = contents(buckets@);
    let ghost base = count_below(b, from as int);
    let mut out: Vec<(u32, &T)> = Vec::new();
    let mut d: usize = from;
    while d < to
        invariant
            from <= d <= to <= buckets@.len() <= u32::MAX,
            b == contents(buckets@),
            base == count_below(b, from as int),
            out@.len() == count_below(b, d as int) - base,
            forall|i: int|
                0 <= i < out@.len() ==> (#[trigger] out@[i]).0 == entries(b)[base + i].0 - from,
            forall|i: int| 0 <= i < out@.len() ==> *(#[trigger] out@[i]).1 == entries(b)[base + i].1,
        decreases to - d,
    {
        let bucket = &buckets[d];
        let mut j: usize = 0;
        while j < bucket.len()
            invariant
                from <= d < to <= buckets@.len() <= u32::MAX,
                b == contents(buckets@),
                bucket@ == b[d as int],
                j <= bucket@.len(),
                out@.len() == count_below(b, d as int) - base + j,
                forall|i: int|
                    0 <= i < out@.len() ==> (#[trigger] out@[i]).0 == entries(b)[base + i].0
                        - from,
                forall|i: int|
                    0 <= i < out@.len() ==> *(#[trigger] out@[i]).1 == entries(b)[base + i].1,
            decreases bucket@.len() - j,
        {
            proof {
                lemma_entries_index(b, d as int, j as int);
            }
            out.push(((d - from) as u32, &bucket[j]));
            j += 1;
        }
        proof {
            lemma_take_step(b, d as int);
        }
        d += 1;
    }
    out
}

/// Mutable references to the items of the buckets `from..to`, in ascending
/// order of distance, each with the offset of its bucket from `from`. What
/// is written through a reference takes the item's place in its bucket;
/// nothing else changes.
pub(crate) fn items_mut<T>(buckets: &mut Vec<Vec<T>>, from: usize, to: usize) -> (r: Vec<
    (u32, &mut T),
>)
    requires
        from <= to <= old(buckets)@.len() <= u32::MAX,
    ensures
        r@.len() == span(old(buckets)@, from as int, to as int),
        forall|i: int|
            0 <= i < r@.len() ==> (#[trigger] r@[i]).0 == entry_from(
                old(buckets)@,
                from as int,
                i,
            ).0 - from,
        forall|i: int|
            0 <= i < r@.len() ==> *(#[trigger] r@[i]).1 == entry_from(
                old(buckets)@,
                from as int,
                i,
            ).1,
        final(buckets)@.len() == old(buckets)@.len(),
        forall|d: int|
            0 <= d < old(buckets)@.len() ==> (#[trigger] final(buckets)@[d])@.len()
                == old(buckets)@[d]@.len(),
        forall|d: int|
            0 <= d < from || to <= d < old(buckets)@.len() ==> (#[trigger] final(buckets)@[d])@
                == old(buckets)@[d]@,
        forall|d: int, j: int|
            from <= d < to && 0 <= j < old(buckets)@[d]@.len() ==> #[trigger] final(buckets)@[d]@[j]
                == *final(r@[span(old(buckets)@, from as int, d) + j].1),
{
    let ghost b = contents(buckets@);
    let ghost base = count_below(b, from as int);
    let mut out: Vec<(u32, &mut T)> = Vec::new();
    let whole: &mut [Vec<T>] = buckets.as_mut_slice();
    let ghost gwhole = whole;
    let (upto, beyond) = whole.split_at_mut(to);
    let ghost gupto = upto;
    let ghost gbeyond = beyond;
    let (skipped, ahead) = upto.split_at_mut(from);
    let ghost gskipped = skipped;
    let mut rest = ahead;
    let mut d: usize = from;
    proof {
        assert(final(gwhole)@ == final(gupto)@ + final(gbeyond)@);
        assert(final(gupto)@ == final(gskipped)@ + final(rest)@);
    }
    while rest.len() > 0
        invariant
            from <= d <= to <= b.len() <= u32::MAX,
            b == contents(old(buckets)@),
            base == count_below(b, from as int),
            rest@ == old(buckets)@.subrange(d as int, to as int),
            out@.len() == count_below(b, d as int) - base,
            forall|i: int|
                0 <= i < out@.len() ==> (#[trigger] out@[i]).0 == entries(b)[base + i].0 - from,
            forall|i: int| 0 <= i < out@.len() ==> *(#[trigger] out@[i]).1 == entries(b)[base + i].1,
            final(gupto)@.len() == d + final(rest)@.len(),
            final(gupto)@.skip(d as int) == final(rest)@,
            forall|e: int| from <= e < d ==> (#[trigger] final(gupto)@[e])@.len() == b[e].len(),
            forall|e: int, j: int|
                from <= e < d && 0 <= j < b[e].len() ==> #[trigger] final(gupto)@[e]@[j]
                    == *final(out@[count_below(b, e) - base + j].1),
        decreases rest@.len(),
    {
        let ghost prev_rest = rest;
        let ghost prev_out = out@;
        let (head, tail) = rest.split_at_mut(1);
        let ghost ghead = head;
        let ghost gtail = tail;
        rest = tail;
        let bucket: &mut Vec<T> = &mut head[0];
        let ghost gbucket = bucket;
        let mut items: &mut [T] = bucket.as_mut_slice();
        let ghost gitems = items;
        let ghost start = out@.len() as int;
        let mut j: usize = 0;
        proof {
            assert(b[d as int] == old(buckets)@[d as int]@);
            assert(gbucket@ == b[d as int]);
            assert(gbucket@.len() == gbucket.len());
        }
        while items.len() > 0
            invariant
                from <= d < to <= b.len() <= u32::MAX,
                j + items@.len() == b[d as int].len() <= usize::MAX,
                items@ == b[d as int].skip(j as int),
                0 <= start == count_below(b, d as int) - base,
                out@.len() == start + j,
                out@.take(start) == prev_out,
                forall|i: int|
                    0 <= i < out@.len() ==> (#[trigger] out@[i]).0 == entries(b)[base + i].0
                        - from,
                forall|i: int|
                    0 <= i < out@.len() ==> *(#[trigger] out@[i]).1 == entries(b)[base + i].1,
                final(gitems)@.len() == j + final(items)@.len(),
                final(gitems)@.skip(j as int) == final(items)@,
                forall|i: int|
                    0 <= i < j ==> #[trigger] final(gitems)@[i] == *final(out@[start + i].1),
            decreases items@.len(),
        {
            let ghost prev_items = items;
            let ghost inner_out = out@;
            let (x, more) = items.split_at_mut(1);
            let ghost gx = x;
            let ghost gmore = more;
            items = more;
            let y = &mut x[0];
            let ghost gy = y;
            proof {
                lemma_entries_index(b, d as int, j as int);
                assert(final(prev_items)@ == final(gx)@ + final(gmore)@);
                assert(final(gx)@ == gx@.update(0, *final(gy)));
                assert(final(gitems)@.skip(j as int)[0] == *final(gy));
                assert(final(gitems)@.skip(j as int).skip(1) =~= final(gmore)@);
                assert(final(gitems)@.skip(j + 1) =~= final(gitems)@.skip(j as int).skip(1));
                assert(*gy == b[d as int][j as int]);
            }
            out.push(((d - from) as u32, y));
            proof {
                assert(out@.take(start) =~= prev_out);
                assert forall|i: int| 0 <= i < j + 1 implies #[trigger] final(gitems)@[i]
                    == *final(out@[start + i].1) by {
                    if i < j {
                        assert(out@[start + i] == inner_out[start + i]);
                    }
                }
            }
            j += 1;
        }
        proof {
            lemma_take_step(b, d as int);
            assert(final(prev_rest)@ == final(ghead)@ + final(gtail)@);
            assert(final(ghead)@ == ghead@.update(0, *final(gbucket)));
            assert(final(gitems)@ == final(gbucket)@);
            assert(final(gupto)@.skip(d as int)[0] == *final(gbucket));
            assert(final(gupto)@.skip(d as int).skip(1) =~= final(gtail)@);
            assert(final(gupto)@.skip(d + 1) =~= final(gupto)@.skip(d as int).skip(1));
            assert forall|e: int, k: int|
                from <= e < d + 1 && 0 <= k < b[e].len() implies #[trigger] final(gupto)@[e]@[k]
                == *final(out@[count_below(b, e) - base + k].1) by {
                if e < d {
                    lemma_take_step(b, e);
                    lemma_count_below_monotone(b, e + 1, d as int);
                    lemma_count_below_monotone(b, from as int, e);
                    assert(out@[count_below(b, e) - base + k] == out@.take(start)[count_below(b, e)
                        - base + k]);
                }
            }
        }
        d += 1;
    }
    out
}

} // verus!
