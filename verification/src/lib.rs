//! Priority queues for nearest-neighbour search in Hamming space.
//!
//! Distances between fixed-width bit vectors are small bounded integers, so
//! both queues keep one bucket per distance instead of a comparison heap.
//! `HammingHeap` is the frontier of a best-first search: it gives back what
//! was pushed in ascending order of distance. `FixedHammingHeap` collects
//! the result: it keeps the nearest items seen so far, up to a capacity.
//!
//! `buckets` holds the model that the contracts of both are stated over,
//! `drain` and `retention` what follows from those contracts for whole runs
//! of pushes and pops.

pub mod buckets;
pub mod drain;
pub mod retention;
mod fixed_heap;
mod heap;
mod walk;

pub use fixed_heap::FixedHammingHeap;
pub use generic_array;
pub use heap::HammingHeap;
