//! The bounded heap that keeps the nearest items pushed so far.

use vstd::prelude::*;
use crate::buckets::{
    bounded_push, count_below, empty_buckets, entries, is_threshold, is_worst, keep_best, keeps,
    least, lemma_count_below_empty_tail, lemma_count_below_ends, lemma_count_below_monotone,
    lemma_empty_buckets, lemma_flatten_index, lemma_keep_best_all, lemma_keep_best_total,
    lemma_same_shape, lemma_take_step, lemma_total_update, lemma_total_zero, lemma_worst_unique,
    pop_at, push_at, same_shape, total,
};
use crate::walk::{contents, items, items_mut};

verus! {

/// Keeps the nearest `cap` items of all that were pushed.
///
/// The heap is not meant to be popped: it holds the best `cap` items while
/// a search runs, and hands them out in ascending order of distance when the
/// search is done. Call `set_distances` and `set_capacity` before use. An
/// `n`-bit key has `n + 1` possible distances.
#[derive(Clone, Debug)]
pub struct FixedHammingHeap<T> {
    cap: usize,
    size: usize,
    worst: u32,
    distances: Vec<Vec<T>>,
}

impl<T> View for FixedHammingHeap<T> {
    type V = Seq<Seq<T>>;

    /// The buckets, indexed by distance.
    closed spec fn view(&self) -> Seq<Seq<T>> {
        contents(self.distances@)
    }
}

impl<T> FixedHammingHeap<T> {
    /// The number of items the heap keeps at most; `0` until it is set.
    pub closed spec fn capacity(&self) -> nat {
        self.cap as nat
    }

    /// The heap's invariant: the length and the threshold it keeps beside
    /// the buckets agree with them, and it holds no more than its capacity.
    pub closed spec fn wf(&self) -> bool {
        &&& self.distances@.len() <= u32::MAX
        &&& self.size == total(self@)
        &&& self.size <= self.cap
        &&& if self.distances@.len() == 0 {
            self.worst == 0
        } else {
            is_threshold(self@, self.cap as nat, self.worst as int)
        }
    }

    /// A heap without buckets and without capacity.
    pub fn new() -> (r: Self)
        ensures
            r.wf(),
            r@ == empty_buckets::<T>(0),
            r.capacity() == 0,
    {
        let r = FixedHammingHeap { cap: 0, size: 0, worst: 0, distances: Vec::new() };
        proof {
            assert(r@ =~= empty_buckets::<T>(0));
            lemma_empty_buckets::<T>(0, 0);
        }
        r
    }

    /// A heap with `distances` empty buckets and no capacity yet.
    pub fn new_distances(distances: usize) -> (r: Self)
        requires
            0 < distances <= u32::MAX,
        ensures
            r.wf(),
            r@ == empty_buckets::<T>(distances as nat),
            r.capacity() == 0,
    {
        let mut s = Self::new();
        s.set_distances(distances);
        s
    }

    /// Sets the number of items the heap keeps at most. A heap that holds
    /// more is cut down to its `cap` best items.
    pub fn set_capacity(&mut self, cap: usize)
        requires
            old(self).wf(),
            old(self)@.len() > 0,
            cap > 0,
        ensures
            final(self).wf(),
            final(self).capacity() == cap,
            final(self)@ == keep_best(old(self)@, cap as nat),
            total(final(self)@) == least(cap as nat, total(old(self)@)),
            final(self)@.flatten() == old(self)@.flatten().take(total(final(self)@) as int),
    {
        self.set_len(cap);
        self.cap = cap;
        self.worst = (self.distances.len() - 1) as u32;
        proof {
            lemma_keep_best_total(old(self)@, cap as nat);
        }
        if self.size == self.cap {
            self.update_worst();
        }
    }

    /// Cuts the heap down to its `len` best items; does nothing when it
    /// holds no more than `len`. Items leave from the worst end inward:
    /// whole buckets first, then the newest items of the bucket at which
    /// the cut falls. A heap that lost items accepts every push until it
    /// is full again.
    pub fn set_len(&mut self, len: usize)
        requires
            old(self).wf(),
        ensures
            final(self).wf(),
            final(self).capacity() == old(self).capacity(),
            final(self)@ == keep_best(old(self)@, len as nat),
            total(final(self)@) == least(len as nat, total(old(self)@)),
            final(self)@.flatten() == old(self)@.flatten().take(total(final(self)@) as int),
    {
        proof {
            lemma_keep_best_total(old(self)@, len as nat);
        }
        if len < self.size {
            proof {
                lemma_total_zero(self@);
            }
            let end = self.end();
            let mut remaining: usize = self.size - len;
            let mut d: usize = end + 1;
            proof {
                assert forall|e: int| d <= e < self@.len() implies
                    (#[trigger] self@[e]).len() == 0 by {
                    assert(self.distances@[e]@.len() == 0);
                }
                lemma_count_below_empty_tail(self@, d as int);
            }
            while remaining > 0
                invariant
                    d <= self.distances@.len(),
                    self@.len() == old(self)@.len(),
                    self.cap == old(self).cap,
                    remaining > 0 ==> count_below(old(self)@, d as int) == len + remaining,
                    remaining == 0 ==> count_below(old(self)@, d as int) <= len,
                    forall|e: int| 0 <= e < d ==> #[trigger] self@[e] == old(self)@[e],
                    forall|e: int|
                        d <= e < self@.len() ==> #[trigger] self@[e] == keep_best(
                            old(self)@,
                            len as nat,
                        )[e],
                decreases d,
            {
                proof {
                    lemma_count_below_ends(old(self)@);
                }
                d -= 1;
                proof {
                    lemma_take_step(old(self)@, d as int);
                }
                assert(self@[d as int] == old(self)@[d as int]);
                let ghost before = self@;
                let held = self.distances[d].len();
                if held >= remaining {
                    self.distances[d].truncate(held - remaining);
                    remaining = 0;
                } else {
                    remaining -= held;
                    self.distances[d].clear();
                }
                proof {
                    let kept = keep_best(old(self)@, len as nat);
                    assert(self@ =~= before.update(d as int, self@[d as int]));
                    assert(self@[d as int] =~= kept[d as int]);
                }
            }
            self.worst = (self.distances.len() - 1) as u32;
            self.size = len;
            proof {
                let kept = keep_best(old(self)@, len as nat);
                assert forall|e: int| 0 <= e < d implies #[trigger] self@[e] == kept[e] by {
                    lemma_count_below_monotone(old(self)@, e + 1, d as int);
                    lemma_take_step(old(self)@, e);
                    assert(kept[e] =~= old(self)@[e]);
                }
                assert(self@ =~= kept);
            }
        } else {
            proof {
                lemma_keep_best_all(self@, len as nat);
            }
        }
    }

    /// The number of items held.
    pub fn len(&self) -> (r: usize)
        requires
            self.wf(),
        ensures
            r == total(self@),
            r <= self.capacity(),
    {
        self.size
    }

    /// Whether no item is held.
    pub fn is_empty(&self) -> (r: bool)
        requires
            self.wf(),
        ensures
            r == (total(self@) == 0),
    {
        self.size == 0
    }

    /// Drops every item. The buckets and the capacity stay.
    pub fn clear(&mut self)
        requires
            old(self).wf(),
            old(self)@.len() > 0,
        ensures
            final(self).wf(),
            final(self)@ == empty_buckets::<T>(old(self)@.len()),
            final(self).capacity() == old(self).capacity(),
    {
        let end = self.end();
        let mut d: usize = 0;
        while d <= end
            invariant
                d <= end + 1,
                end < self.distances@.len() <= u32::MAX,
                self.distances@.len() == old(self).distances@.len(),
                self.cap == old(self).cap,
                forall|e: int| 0 <= e < d ==> (#[trigger] self.distances@[e])@.len() == 0,
                forall|e: int| end < e < self.distances@.len() ==>
                    (#[trigger] self.distances@[e])@.len() == 0,
            decreases end + 1 - d,
        {
            self.distances[d].clear();
            d += 1;
        }
        self.size = 0;
        self.worst = (self.distances.len() - 1) as u32;
        proof {
            let empty = empty_buckets::<T>(old(self)@.len());
            assert forall|e: int| 0 <= e < self@.len() implies #[trigger] self@[e] == empty[e] by {
                assert(self.distances@[e]@.len() == 0);
                assert(self@[e] =~= empty[e]);
            }
            assert(self@ =~= empty);
            lemma_empty_buckets::<T>(old(self)@.len(), 0);
        }
    }

    /// Gives the heap `distances` empty buckets, one per distance, and drops
    /// whatever it held. The capacity stays.
    pub fn set_distances(&mut self, distances: usize)
        requires
            0 < distances <= u32::MAX,
        ensures
            final(self).wf(),
            final(self)@ == empty_buckets::<T>(distances as nat),
            final(self).capacity() == old(self).capacity(),
    {
        self.distances.clear();
        let mut n: usize = 0;
        while n < distances
            invariant
                n <= distances,
                self.distances@.len() == n,
                forall|d: int| 0 <= d < n ==> (#[trigger] self.distances@[d])@ == Seq::<T>::empty(),
                self.cap == old(self).cap,
            decreases distances - n,
        {
            self.distances.push(Vec::new());
            n += 1;
        }
        self.worst = (distances - 1) as u32;
        self.size = 0;
        proof {
            assert(self@ =~= empty_buckets::<T>(distances as nat));
            lemma_empty_buckets::<T>(distances as nat, 0);
        }
    }

    /// Pushes `item` at `distance` and says whether the heap kept it.
    ///
    /// A heap that is not full keeps every item. A full heap keeps an item
    /// only if it is better than the worst one held, and drops the newest
    /// item at the worst distance in exchange; which of several items at
    /// that distance leaves is thus decided by the order of their arrival.
    pub fn push(&mut self, distance: u32, item: T) -> (accepted: bool)
        requires
            old(self).wf(),
            old(self).capacity() > 0,
            distance < old(self)@.len(),
        ensures
            final(self).wf(),
            final(self).capacity() == old(self).capacity(),
            accepted == keeps(old(self)@, old(self).capacity(), distance as int),
            final(self)@ == bounded_push(old(self)@, old(self).capacity(), distance as int, item),
    {
        if self.size != self.cap {
            self.distances[distance as usize].push(item);
            self.size += 1;
            proof {
                assert(self@ =~= push_at(old(self)@, distance as int, item));
                lemma_total_update(old(self)@, distance as int,
                    old(self)@[distance as int].push(item));
            }
            if self.size == self.cap {
                self.update_worst();
            }
            true
        } else {
            self.push_at_cap(distance, item)
        }
    }

    /// `push` for a heap that is known to be full: it spares the test that
    /// `push` makes first, and does the same.
    pub fn push_at_cap(&mut self, distance: u32, item: T) -> (accepted: bool)
        requires
            old(self).wf(),
            old(self).capacity() > 0,
            distance < old(self)@.len(),
            total(old(self)@) == old(self).capacity(),
        ensures
            final(self).wf(),
            final(self).capacity() == old(self).capacity(),
            accepted == keeps(old(self)@, old(self).capacity(), distance as int),
            final(self)@ == bounded_push(old(self)@, old(self).capacity(), distance as int, item),
    {
        proof {
            lemma_worst_unique(self@, self.worst as int);
        }
        if distance < self.worst {
            self.distances[distance as usize].push(item);
            proof {
                assert(self@ =~= push_at(old(self)@, distance as int, item));
                lemma_total_update(old(self)@, distance as int,
                    old(self)@[distance as int].push(item));
                assert forall|e: int| self.worst < e < self@.len() implies
                    (#[trigger] self@[e]).len() == 0 by {
                    assert(old(self)@[e].len() == 0);
                }
                lemma_total_update(self@, self.worst as int, self@[self.worst as int].drop_last());
            }
            self.remove_worst();
            true
        } else {
            false
        }
    }

    /// Copies the best items into `s`, in ascending order of distance, as
    /// many as `s` has room for, and returns the part of `s` that was
    /// written. The heap stays as it is.
    pub fn fill_slice<'a>(&self, s: &'a mut [T]) -> (r: &'a mut [T]) where T: Clone
        requires
            self.wf(),
            self@.len() > 0,
        ensures
            r@.len() == least(old(s)@.len(), total(self@)),
            forall|i: int| 0 <= i < r@.len() ==> cloned(self@.flatten()[i], #[trigger] r@[i]),
            final(s)@ == final(r)@ + old(s)@.skip(r@.len() as int),
    {
        let total_fill = if s.len() <= self.size {
            s.len()
        } else {
            self.size
        };
        let end = self.end();
        let mut ix: usize = 0;
        let mut d: usize = 0;
        proof {
            lemma_count_below_ends(self@);
        }
        while d <= end && ix < total_fill
            invariant
                self.wf(),
                d <= end + 1,
                end < self.distances@.len() <= u32::MAX,
                ix <= total_fill <= s@.len(),
                total_fill <= total(self@),
                s@.len() == old(s)@.len(),
                ix < total_fill ==> ix == count_below(self@, d as int),
                forall|i: int| 0 <= i < ix ==> cloned(self@.flatten()[i], #[trigger] s@[i]),
                forall|i: int| ix <= i < s@.len() ==> #[trigger] s@[i] == old(s)@[i],
            decreases end + 1 - d,
        {
            let bucket = &self.distances[d];
            let mut j: usize = 0;
            while j < bucket.len() && ix < total_fill
                invariant
                    d < self.distances@.len(),
                    *bucket == self.distances@[d as int],
                    j <= bucket@.len(),
                    ix <= total_fill <= s@.len(),
                    total_fill <= total(self@),
                    s@.len() == old(s)@.len(),
                    ix < total_fill ==> ix == count_below(self@, d as int) + j,
                    forall|i: int| 0 <= i < ix ==> cloned(self@.flatten()[i], #[trigger] s@[i]),
                    forall|i: int| ix <= i < s@.len() ==> #[trigger] s@[i] == old(s)@[i],
                decreases bucket@.len() - j,
            {
                proof {
                    assert(self@[d as int] == bucket@);
                    lemma_flatten_index(self@, d as int, j as int);
                }
                s[ix] = bucket[j].clone();
                ix += 1;
                j += 1;
            }
            proof {
                assert(self@[d as int] == bucket@);
                lemma_take_step(self@, d as int);
            }
            d += 1;
        }
        proof {
            if ix < total_fill {
                lemma_count_below_empty_tail(self@, d as int);
            }
        }
        let (head, _) = s.split_at_mut(total_fill);
        head
    }

    /// The eviction threshold: the largest held distance once the heap is
    /// full, and the largest distance there is before that.
    pub fn worst(&self) -> (r: u32)
        requires
            self.wf(),
        ensures
            self@.len() > 0 ==> is_threshold(self@, self.capacity(), r as int),
            self@.len() == 0 ==> r == 0,
    {
        self.worst
    }

    /// Whether the heap holds as many items as it keeps at most.
    pub fn at_cap(&self) -> (r: bool)
        requires
            self.wf(),
        ensures
            r == (total(self@) == self.capacity()),
    {
        self.size == self.cap
    }

    /// The items in ascending order of distance, each with its distance.
    pub fn iter(&self) -> (r: Vec<(u32, &T)>)
        requires
            self.wf(),
            self@.len() > 0,
        ensures
            r@.len() == total(self@),
            forall|i: int|
                0 <= i < r@.len() ==> (#[trigger] r@[i].0 as int, *r@[i].1) == entries(self@)[i],
    {
        let end = self.end();
        proof {
            assert forall|e: int| end < e < self@.len() implies
                (#[trigger] self@[e]).len() == 0 by {
                assert(self.distances@[e]@.len() == 0);
            }
            lemma_count_below_empty_tail(self@, end + 1);
            lemma_count_below_ends(self@);
        }
        items(&self.distances, 0, end + 1)
    }

    /// Mutable references to the items, in the order and with the
    /// distances of `iter`. What is written through a reference takes the
    /// item's place at its distance; the heap holds as many items at each
    /// distance as before.
    pub fn iter_mut(&mut self) -> (r: Vec<(u32, &mut T)>)
        requires
            old(self).wf(),
            old(self)@.len() > 0,
        ensures
            r@.len() == total(old(self)@),
            forall|i: int|
                0 <= i < r@.len() ==>
                    (#[trigger] r@[i].0 as int, *r@[i].1) == entries(old(self)@)[i],
            final(self).wf(),
            final(self).capacity() == old(self).capacity(),
            same_shape(final(self)@, old(self)@),
            forall|d: int, j: int|
                0 <= d < old(self)@.len() && 0 <= j < old(self)@[d].len() ==>
                    #[trigger] final(self)@[d][j]
                    == *final(r@[count_below(old(self)@, d) + j].1),
    {
        let end = self.end();
        proof {
            assert forall|e: int| end < e < self@.len() implies
                (#[trigger] self@[e]).len() == 0 by {
                assert(self.distances@[e]@.len() == 0);
            }
            lemma_count_below_empty_tail(self@, end + 1);
            lemma_count_below_ends(self@);
        }
        let ghost this = self;
        let r = items_mut(&mut self.distances, 0, end + 1);
        proof {
            lemma_same_shape(final(this)@, old(self)@);
        }
        r
    }

    /// The last bucket that may hold an item.
    fn end(&self) -> (r: usize)
        requires
            self.wf(),
            self.distances@.len() > 0,
        ensures
            r < self.distances@.len(),
            forall|e: int| r < e < self.distances@.len() ==>
                (#[trigger] self.distances@[e])@.len() == 0,
    {
        if self.at_cap() {
            proof {
                assert forall|e: int| self.worst < e < self.distances@.len() implies (
                #[trigger] self.distances@[e])@.len() == 0 by {
                    assert(self@[e].len() == 0);
                }
            }
            self.worst as usize
        } else {
            self.distances.len() - 1
        }
    }

    /// Moves the threshold down to the last bucket that holds an item, or
    /// back to the last bucket there is when none does.
    fn update_worst(&mut self)
        requires
            old(self).worst < old(self).distances@.len() <= u32::MAX,
            forall|e: int| old(self).worst < e < old(self)@.len() ==>
                (#[trigger] old(self)@[e]).len() == 0,
        ensures
            final(self).distances == old(self).distances,
            final(self).cap == old(self).cap,
            final(self).size == old(self).size,
            total(final(self)@) > 0 ==> is_worst(final(self)@, final(self).worst as int),
            total(final(self)@) == 0 ==> final(self).worst == final(self)@.len() - 1,
    {
        proof {
            lemma_total_zero(self@);
        }
        let mut w: u32 = self.worst;
        loop
            invariant
                w < self.distances@.len() <= u32::MAX,
                self.distances == old(self).distances,
                self.cap == old(self).cap,
                self.size == old(self).size,
                forall|e: int| w < e < self@.len() ==> (#[trigger] self@[e]).len() == 0,
                total(self@) == 0 <==>
                    forall|e: int| 0 <= e < self@.len() ==> (#[trigger] self@[e]).len() == 0,
            decreases w,
        {
            if !self.distances[w as usize].is_empty() {
                self.worst = w;
                assert(self@[w as int].len() > 0);
                return ;
            }
            assert(self@[w as int].len() == 0);
            if w == 0 {
                self.worst = (self.distances.len() - 1) as u32;
                return ;
            }
            w -= 1;
        }
    }

    /// Drops the newest item of the worst bucket and moves the threshold.
    fn remove_worst(&mut self)
        requires
            old(self).worst < old(self).distances@.len() <= u32::MAX,
            forall|e: int| old(self).worst < e < old(self)@.len() ==>
                (#[trigger] old(self)@[e]).len() == 0,
            old(self)@[old(self).worst as int].len() > 0,
        ensures
            final(self)@ == pop_at(old(self)@, old(self).worst as int),
            final(self).cap == old(self).cap,
            final(self).size == old(self).size,
            total(final(self)@) > 0 ==> is_worst(final(self)@, final(self).worst as int),
            total(final(self)@) == 0 ==> final(self).worst == final(self)@.len() - 1,
    {
        let w = self.worst as usize;
        self.distances[w].pop();
        proof {
            assert(self@ =~= pop_at(old(self)@, w as int));
        }
        self.update_worst();
    }
}

impl<T> Default for FixedHammingHeap<T> {
    /// A heap without buckets and without capacity.
    fn default() -> (r: Self)
        ensures
            r.wf(),
            r@ == empty_buckets::<T>(0),
            r.capacity() == 0,
    {
        FixedHammingHeap::new()
    }
}

} // verus!
