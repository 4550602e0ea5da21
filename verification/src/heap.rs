//! The unbounded queue that yields items in ascending order of distance.

use vstd::prelude::*;
use crate::buckets::{
    count_below, empty_buckets, entries, is_best, least, lemma_count_below_ends,
    lemma_count_below_zero, lemma_total_zero, pop_at, push_at, same_shape, total,
};
use crate::walk::{contents, items, items_mut};

verus! {

/// A min-priority queue over the distances `0..D`, for the frontier of a
/// best-first search.
///
/// There is one bucket per distance, and a cursor that marks the lowest
/// bucket that may hold an item; popping moves the cursor up past empty
/// buckets. Call `set_distances` before use. An `n`-bit key has `n + 1`
/// possible distances.
#[derive(Clone, Debug)]
pub struct HammingHeap<T> {
    distances: Vec<Vec<T>>,
    best: u32,
}

impl<T> View for HammingHeap<T> {
    type V = Seq<Seq<T>>;

    /// The buckets, indexed by distance.
    closed spec fn view(&self) -> Seq<Seq<T>> {
        contents(self.distances@)
    }
}

impl<T> HammingHeap<T> {
    /// The watermark: a distance below which no item is held.
    pub closed spec fn cursor(&self) -> nat {
        self.best as nat
    }

    /// The heap's invariant: the cursor points at a bucket, and every
    /// bucket below it is empty.
    pub open spec fn wf(&self) -> bool {
        &&& self@.len() <= u32::MAX
        &&& if self@.len() == 0 {
            self.cursor() == 0
        } else {
            self.cursor() < self@.len()
        }
        &&& forall|d: int| 0 <= d < self.cursor() ==> (#[trigger] self@[d]).len() == 0
    }

    /// A heap without buckets.
    pub fn new() -> (r: Self)
        ensures
            r.wf(),
            r@ == empty_buckets::<T>(0),
            r.cursor() == 0,
    {
        let r = HammingHeap { distances: Vec::new(), best: 0 };
        assert(r@ =~= empty_buckets::<T>(0));
        r
    }

    /// A heap with `distances` empty buckets.
    pub fn new_distances(distances: usize) -> (r: Self)
        requires
            0 < distances <= u32::MAX,
        ensures
            r.wf(),
            r@ == empty_buckets::<T>(distances as nat),
            r.cursor() == 0,
    {
        let mut s = Self::new();
        s.set_distances(distances);
        s
    }

    /// Drops every item. The buckets stay, so that no memory is allocated
    /// when the heap is filled again.
    pub fn clear(&mut self)
        requires
            old(self).wf(),
        ensures
            final(self).wf(),
            final(self)@ == empty_buckets::<T>(old(self)@.len()),
            final(self).cursor() == 0,
    {
        let n = self.distances.len();
        let mut d: usize = self.best as usize;
        proof {
            assert forall|e: int| 0 <= e < d && e < n implies
                (#[trigger] self.distances@[e])@.len() == 0 by {
                assert(self@[e].len() == 0);
            }
        }
        while d < n
            invariant
                d <= n || n == 0,
                n == self.distances@.len() == old(self).distances@.len(),
                forall|e: int| 0 <= e < d && e < n ==> (#[trigger] self.distances@[e])@.len() == 0,
            decreases n - d,
        {
            self.distances[d].clear();
            d += 1;
        }
        self.best = 0;
        proof {
            let empty = empty_buckets::<T>(old(self)@.len());
            assert forall|e: int| 0 <= e < self@.len() implies #[trigger] self@[e] == empty[e] by {
                assert(self.distances@[e]@.len() == 0);
                assert(self@[e] =~= empty[e]);
            }
            assert(self@ =~= empty);
        }
    }

    /// Gives the heap `distances` empty buckets, one per distance, and drops
    /// whatever it held.
    pub fn set_distances(&mut self, distances: usize)
        requires
            0 < distances <= u32::MAX,
        ensures
            final(self).wf(),
            final(self)@ == empty_buckets::<T>(distances as nat),
            final(self).cursor() == 0,
    {
        self.distances.clear();
        let mut n: usize = 0;
        while n < distances
            invariant
                n <= distances,
                self.distances@.len() == n,
                forall|d: int| 0 <= d < n ==> (#[trigger] self.distances@[d])@ == Seq::<T>::empty(),
            decreases distances - n,
        {
            self.distances.push(Vec::new());
            n += 1;
        }
        self.best = 0;
        assert(self@ =~= empty_buckets::<T>(distances as nat));
    }

    /// Removes an item at the smallest held distance and returns it with
    /// that distance; `None` when the heap holds nothing. Of several items
    /// at that distance the newest leaves first.
    pub fn pop(&mut self) -> (r: Option<(u32, T)>)
        requires
            old(self).wf(),
            old(self)@.len() > 0,
        ensures
            final(self).wf(),
            r.is_some() == (total(old(self)@) > 0),
            (match r {
                Some((d, item)) => {
                    &&& is_best(old(self)@, d as int)
                    &&& item == old(self)@[d as int].last()
                    &&& final(self)@ == pop_at(old(self)@, d as int)
                    &&& final(self).cursor() == d
                },
                None => {
                    &&& final(self)@ == old(self)@
                    &&& final(self).cursor() == old(self)@.len() - 1
                },
            }),
    {
        proof {
            lemma_total_zero(self@);
        }
        loop
            invariant
                self.wf(),
                self@ == old(self)@,
                self@.len() > 0,
                total(self@) == 0 <==>
                    forall|e: int| 0 <= e < self@.len() ==> (#[trigger] self@[e]).len() == 0,
            decreases self.distances@.len() - self.best,
        {
            let d = self.best;
            let ghost before = self@;
            assert(before[d as int] == self.distances@[d as int]@);
            if let Some(node) = self.distances[d as usize].pop() {
                proof {
                    assert(self@ =~= pop_at(before, d as int));
                    assert forall|e: int| 0 <= e < self.cursor() implies
                        (#[trigger] self@[e]).len() == 0 by {
                        assert(before[e].len() == 0);
                    }
                }
                return Some((d, node));
            } else if self.best as usize == self.distances.len() - 1 {
                proof {
                    assert(self@ =~= before);
                }
                return None;
            } else {
                proof {
                    assert(self@ =~= before);
                }
                self.best += 1;
            }
        }
    }

    /// Puts `node` into the bucket of `distance`. The cursor moves down to
    /// `distance` if it stood above it.
    pub fn push(&mut self, distance: u32, node: T)
        requires
            old(self).wf(),
            distance < old(self)@.len(),
        ensures
            final(self).wf(),
            final(self)@ == push_at(old(self)@, distance as int, node),
            final(self).cursor() == least(distance as nat, old(self).cursor()),
    {
        if distance < self.best {
            self.best = distance;
        }
        self.distances[distance as usize].push(node);
        proof {
            assert(self@ =~= push_at(old(self)@, distance as int, node));
            assert forall|d: int| 0 <= d < self.cursor() implies
                (#[trigger] self@[d]).len() == 0 by {
                assert(old(self)@[d].len() == 0);
            }
        }
    }

    /// The smallest distance at which an item is held; `None` when the heap
    /// holds nothing. The heap stays as it is.
    pub fn best(&self) -> (r: Option<u32>)
        requires
            self.wf(),
        ensures
            r.is_some() == (total(self@) > 0),
            r.is_some() ==> is_best(self@, r.unwrap() as int),
    {
        proof {
            lemma_total_zero(self@);
        }
        let n = self.distances.len();
        let mut d: usize = self.best as usize;
        while d < n
            invariant
                d <= n || n == 0,
                n == self.distances@.len() <= u32::MAX,
                forall|e: int| 0 <= e < d && e < n ==> (#[trigger] self@[e]).len() == 0,
            decreases n - d,
        {
            if !self.distances[d].is_empty() {
                proof {
                    assert(self@[d as int].len() > 0);
                    lemma_total_zero(self@);
                }
                return Some(d as u32);
            }
            assert(self@[d as int].len() == 0);
            d += 1;
        }
        None
    }

    /// The items in ascending order of distance. Each comes with the
    /// offset of its bucket from the cursor: its distance less the cursor.
    pub fn iter(&self) -> (r: Vec<(u32, &T)>)
        requires
            self.wf(),
        ensures
            r@.len() == total(self@),
            forall|i: int|
                0 <= i < r@.len() ==> (#[trigger] r@[i]).0 == entries(self@)[i].0 - self.cursor(),
            forall|i: int| 0 <= i < r@.len() ==> *(#[trigger] r@[i]).1 == entries(self@)[i].1,
    {
        proof {
            lemma_count_below_zero(self@, self.cursor() as int);
            lemma_count_below_ends(self@);
        }
        items(&self.distances, self.best as usize, self.distances.len())
    }

    /// Mutable references to the items, in the order and with the offsets
    /// of `iter`. What is written through a reference takes the item's
    /// place at its distance; the heap holds as many items at each
    /// distance as before.
    pub fn iter_mut(&mut self) -> (r: Vec<(u32, &mut T)>)
        requires
            old(self).wf(),
        ensures
            r@.len() == total(old(self)@),
            forall|i: int|
                0 <= i < r@.len() ==> (#[trigger] r@[i]).0
                    == entries(old(self)@)[i].0 - old(self).cursor(),
            forall|i: int| 0 <= i < r@.len() ==> *(#[trigger] r@[i]).1 == entries(old(self)@)[i].1,
            final(self).wf(),
            final(self).cursor() == old(self).cursor(),
            same_shape(final(self)@, old(self)@),
            forall|d: int, j: int|
                0 <= d < old(self)@.len() && 0 <= j < old(self)@[d].len() ==>
                    #[trigger] final(self)@[d][j]
                    == *final(r@[count_below(old(self)@, d) + j].1),
    {
        proof {
            lemma_count_below_zero(self@, self.cursor() as int);
            lemma_count_below_ends(self@);
        }
        let n = self.distances.len();
        let ghost this = self;
        let r = items_mut(&mut self.distances, self.best as usize, n);
        proof {
            assert forall|d: int| 0 <= d < final(this).cursor() implies
                (#[trigger] final(this)@[d]).len() == 0 by {
                assert(old(self)@[d].len() == 0);
            }
        }
        r
    }
}

impl<T> Default for HammingHeap<T> {
    /// A heap without buckets.
    fn default() -> (r: Self)
        ensures
            r.wf(),
            r@ == empty_buckets::<T>(0),
            r.cursor() == 0,
    {
        HammingHeap::new()
    }
}

} // verus!
