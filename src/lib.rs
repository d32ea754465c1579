//! Heap allocators for a freestanding kernel, with their contracts and proofs: a bump
//! allocator, a first-fit free-list allocator and a fixed-size-block allocator on top of it,
//! together with the small pieces of processor setup that are plain computation.
//!
//! The allocators manage addresses and sizes only; they never read or write the heap.

use vstd::prelude::*;

pub mod allocator;
pub mod interrupts;
pub mod memory;
pub mod testing;

verus! {

} // verus!
