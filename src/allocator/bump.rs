//! A bump allocator: hands out the heap upwards and reclaims it only as a whole.

use vstd::layout::valid_layout;
use vstd::prelude::*;

use super::{align_up, lemma_align_up, spec_align_up};

verus! {

/// The state of a bump allocator: the heap bounds, the next free address and the number of
/// live allocations.
#[derive(Clone, Copy, Debug, PartialEq, Eq, Structural)]
pub struct BumpState {
    pub heap_start: usize,
    pub heap_end: usize,
    pub next: usize,
    pub allocations: usize,
}

impl BumpState {
    pub open spec fn wf(self) -> bool {
        self.heap_start <= self.next <= self.heap_end
    }

    /// The state with no live allocation and the whole heap free.
    pub open spec fn reclaimed(self) -> BumpState {
        BumpState { next: self.heap_start, allocations: 0, ..self }
    }

    /// No allocation is live and the whole heap is free.
    pub open spec fn is_fresh(self) -> bool {
        self.allocations == 0 && self.next == self.heap_start
    }
}

/// The state and result after an allocation: the block starts at `next` rounded up to
/// `align` and must end inside the heap.
pub open spec fn bump_alloc(st: BumpState, size: int, align: int) -> (BumpState, Option<usize>) {
    let start = spec_align_up(st.next as int, align);
    let end = start + size;
    if end <= st.heap_end && st.allocations < usize::MAX {
        (
            BumpState { next: end as usize, allocations: (st.allocations + 1) as usize, ..st },
            Some(start as usize),
        )
    } else {
        (st, None)
    }
}

/// The state after a deallocation: one allocation fewer, and the whole heap free again once
/// none is left.
pub open spec fn bump_dealloc(st: BumpState) -> BumpState {
    let count = (st.allocations - 1) as usize;
    if count == 0 {
        st.reclaimed()
    } else {
        BumpState { allocations: count, ..st }
    }
}

/// The state after a series of allocation requests, each a size and an alignment, in order.
pub open spec fn bump_alloc_all(st: BumpState, reqs: Seq<(usize, usize)>) -> BumpState
    decreases reqs.len(),
{
    if reqs.len() == 0 {
        st
    } else {
        let first = bump_alloc(st, reqs[0].0 as int, reqs[0].1 as int).0;
        bump_alloc_all(first, reqs.drop_first())
    }
}

/// The state after `n` deallocations.
pub open spec fn bump_dealloc_n(st: BumpState, n: nat) -> BumpState
    decreases n,
{
    if n == 0 {
        st
    } else {
        bump_dealloc_n(bump_dealloc(st), (n - 1) as nat)
    }
}

/// Allocations from a fresh heap, and as many deallocations, leave the heap fresh again:
/// every such cycle starts from the same state as the first.
pub proof fn lemma_bump_cycle(st: BumpState, reqs: Seq<(usize, usize)>)
    requires
        st.wf(),
        st.is_fresh(),
        forall|i: int| 0 <= i < reqs.len() ==> valid_layout((#[trigger] reqs[i]).0, reqs[i].1),
    ensures
        bump_dealloc_n(bump_alloc_all(st, reqs), bump_alloc_all(st, reqs).allocations as nat)
            == st,
{
    lemma_alloc_all(st, reqs);
    let mid = bump_alloc_all(st, reqs);
    lemma_dealloc_n(mid, mid.allocations as nat);
}

/// Two blocks handed out one after the other never overlap: the second starts at or after
/// the end of the first.
pub proof fn lemma_bump_no_overlap(
    st: BumpState,
    size1: usize,
    align1: usize,
    size2: usize,
    align2: usize,
)
    requires
        st.wf(),
        valid_layout(size1, align1),
        valid_layout(size2, align2),
    ensures
        ({
            let (mid, first) = bump_alloc(st, size1 as int, align1 as int);
            let (_, second) = bump_alloc(mid, size2 as int, align2 as int);
            first is Some && second is Some ==> first->0 + size1 <= second->0
        }),
{
    reveal(vstd::arithmetic::power2::is_pow2);
    let (mid, first) = bump_alloc(st, size1 as int, align1 as int);
    lemma_align_up(mid.next as int, align2 as int);
}

/// A request larger than the whole heap fails and leaves the state as it was.
pub proof fn lemma_bump_too_large_fails(st: BumpState, size: usize, align: usize)
    requires
        st.wf(),
        valid_layout(size, align),
        size > st.heap_end - st.heap_start,
    ensures
        bump_alloc(st, size as int, align as int) == (st, None::<usize>),
{
    reveal(vstd::arithmetic::power2::is_pow2);
    lemma_align_up(st.next as int, align as int);
}

/// Allocations keep the bounds and only add to the count of live allocations.
proof fn lemma_alloc_all(st: BumpState, reqs: Seq<(usize, usize)>)
    requires
        st.wf(),
        forall|i: int| 0 <= i < reqs.len() ==> valid_layout((#[trigger] reqs[i]).0, reqs[i].1),
    ensures
        bump_alloc_all(st, reqs).heap_start == st.heap_start,
        bump_alloc_all(st, reqs).heap_end == st.heap_end,
        bump_alloc_all(st, reqs).wf(),
        bump_alloc_all(st, reqs).allocations >= st.allocations,
        bump_alloc_all(st, reqs).allocations == st.allocations ==> bump_alloc_all(st, reqs)
            == st,
    decreases reqs.len(),
{
    if reqs.len() > 0 {
        let first = bump_alloc(st, reqs[0].0 as int, reqs[0].1 as int).0;
        assert(valid_layout(reqs[0].0, reqs[0].1));
        reveal(vstd::arithmetic::power2::is_pow2);
        lemma_align_up(st.next as int, reqs[0].1 as int);
        let tail = reqs.drop_first();
        assert forall|i: int| 0 <= i < tail.len() implies valid_layout(
            (#[trigger] tail[i]).0,
            tail[i].1,
        ) by {
            assert(tail[i] == reqs[i + 1]);
        }
        lemma_alloc_all(first, tail);
    }
}

/// As many deallocations as there are live allocations leave the heap fresh.
proof fn lemma_dealloc_n(st: BumpState, n: nat)
    requires
        st.allocations == n,
    ensures
        n > 0 ==> bump_dealloc_n(st, n) == st.reclaimed(),
        n == 0 ==> bump_dealloc_n(st, n) == st,
    decreases n,
{
    if n > 0 {
        lemma_dealloc_n(bump_dealloc(st), (n - 1) as nat);
    }
}

/// An allocator that hands out the heap from its start upwards and takes it back only as a
/// whole, once every allocation has been freed.
pub struct BumpAllocator {
    heap_start: usize,
    heap_end: usize,
    next: usize,
    allocations: usize,
}

impl View for BumpAllocator {
    type V = BumpState;

    closed spec fn view(&self) -> BumpState {
        BumpState {
            heap_start: self.heap_start,
            heap_end: self.heap_end,
            next: self.next,
            allocations: self.allocations,
        }
    }
}

impl BumpAllocator {
    /// Creates an empty BumpAllocator.
    pub fn new() -> (r: Self)
        ensures
            r@ == (BumpState { heap_start: 0, heap_end: 0, next: 0, allocations: 0 }),
    {
        BumpAllocator { heap_start: 0, heap_end: 0, next: 0, allocations: 0 }
    }

    /// Initialize the allocator with the given heap bounds. This method must be called only
    /// once, before any allocation.
    pub fn init(&mut self, heap_start: usize, heap_size: usize)
        requires
            heap_start + heap_size <= usize::MAX,
        ensures
            final(self)@ == (BumpState {
                heap_start,
                heap_end: (heap_start + heap_size) as usize,
                next: heap_start,
                allocations: 0,
            }),
    {
        self.heap_start = heap_start;
        self.heap_end = heap_start + heap_size;
        self.next = heap_start;
        self.allocations = 0;
    }

    /// Allocates `size` bytes at alignment `align` at the next free address that is aligned.
    pub fn allocate(&mut self, size: usize, align: usize) -> (r: Option<usize>)
        requires
            old(self)@.wf(),
            valid_layout(size, align),
        ensures
            final(self)@.wf(),
            (final(self)@, r) == bump_alloc(old(self)@, size as int, align as int),
            r is Some ==> r->0 % align == 0,
    {
        proof {
            reveal(vstd::arithmetic::power2::is_pow2);
            lemma_align_up(self.next as int, align as int);
        }
        let rem = self.next % align;
        if rem != 0 && self.next - rem > usize::MAX - align {
            return None;
        }
        let alloc_start = align_up(self.next, align);
        let alloc_end = match alloc_start.checked_add(size) {
            Some(end) => end,
            None => {
                return None;
            },
        };
        if alloc_end > self.heap_end || self.allocations == usize::MAX {
            None
        } else {
            self.next = alloc_end;
            self.allocations = self.allocations + 1;
            Some(alloc_start)
        }
    }

    /// Takes back a block obtained from `allocate`. Only the count of live allocations
    /// changes, until it reaches zero: then the whole heap is free again.
    pub fn deallocate(&mut self, _ptr: usize, _size: usize, _align: usize)
        requires
            old(self)@.wf(),
            old(self)@.allocations > 0,
        ensures
            final(self)@.wf(),
            final(self)@ == bump_dealloc(old(self)@),
    {
        self.allocations = self.allocations - 1;
        if self.allocations == 0 {
            self.next = self.heap_start;
        }
    }
}

} // verus!
