//! Priority queues keyed by an integer weight, smallest weight first:
//!
//! - [`binary_heap::BinaryHeap`], a min-heap in an array, with a meld that
//!   appends and restores;
//! - [`indexed_binary_heap::IndexedBinaryHeap`], the same heap with a map
//!   from each value to its position, so that the weight of a value can be
//!   changed in place;
//! - [`binomial_heap::BinomialHeap`], a forest of binomial trees that melds
//!   the way binary numbers are added.
//!
//! Every operation is stated twice over: exactly, as a function on the
//! sequence or forest that models the heap ([`heap_order`], [`forest`]), and
//! by what it means for the contents: which items the heap holds afterwards
//! and that the item handed out is one of least weight. The invariants of
//! the three structures are type invariants, so no operation asks its caller
//! for a well-formed heap.
//!
//! Callers that rank their elements by an IEEE 754 double obtain the
//! order-preserving integer weight for it from [`weight::weight_from_bits`].

pub mod ascending;
pub mod binary_heap;
pub mod binomial_heap;
pub mod forest;
pub mod heap_order;
pub mod indexed_binary_heap;
pub mod slice_specs;
pub mod weight;
