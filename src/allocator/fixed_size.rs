//! A segregated allocator: per-class lists of free blocks of power-of-two sizes, over a
//! first-fit fallback allocator.

use vstd::arithmetic::power2::is_pow2;
use vstd::prelude::*;

use super::linked_list::{
    adjusted_align, adjusted_size, alloc_request, contained_in_some, dealloc_request,
    disjoint_from_all, free_bytes, free_list_wf, layout_ok, lemma_adjusted, lemma_alloc_spec,
    lemma_round_trip, lemma_too_large_fails, ranges_disjoint, region_contains,
    LinkedListAllocator, RegionNode, NODE_ALIGN, NODE_SIZE,
};
use super::{lemma_mod_transitive, lemma_pow2_divides};

verus! {

/// Number of block size classes.
pub const NUM_CLASSES: usize = 9;

/// Size of the blocks of class `i`: 8, 16, 32, and so on up to 2048 bytes.
pub open spec fn block_size(i: int) -> int
    decreases i,
{
    if i <= 0 {
        8
    } else {
        2 * block_size(i - 1)
    }
}

/// Index of the smallest class from `i` on whose blocks hold `required` bytes, or
/// `NUM_CLASSES` when none does.
pub open spec fn class_from(required: int, i: int) -> int
    decreases NUM_CLASSES - i,
{
    if i >= NUM_CLASSES {
        NUM_CLASSES as int
    } else if block_size(i) >= required {
        i
    } else {
        class_from(required, i + 1)
    }
}

/// Bytes a block must hold to serve a request: the larger of its size and its alignment.
pub open spec fn required_block_size(size: int, align: int) -> int {
    if size >= align {
        size
    } else {
        align
    }
}

/// Class that serves a request of `size` bytes at alignment `align`, if any.
pub open spec fn block_class(size: int, align: int) -> Option<int> {
    let c = class_from(required_block_size(size, align), 0);
    if c < NUM_CLASSES {
        Some(c)
    } else {
        None
    }
}

/// The block classes after an allocation from them: the block at the top of class `c`'s
/// list leaves it.
pub open spec fn fixed_alloc_spec(
    lists: Seq<Seq<usize>>,
    fallback: Seq<RegionNode>,
    size: int,
    align: int,
) -> (Seq<Seq<usize>>, Seq<RegionNode>, Option<usize>) {
    match block_class(size, align) {
        None => {
            let (fb, r) = alloc_request(fallback, size, align);
            (lists, fb, r)
        },
        Some(c) => if lists[c].len() > 0 {
            (lists.update(c, lists[c].drop_last()), fallback, Some(lists[c].last()))
        } else {
            let (fb, r) = alloc_request(fallback, block_size(c), block_size(c));
            (lists, fb, r)
        },
    }
}

/// The block classes and the fallback's free list after the block at `ptr` of a request of
/// `size` bytes at alignment `align` is given back: on top of its class's list, or to the
/// fallback allocator.
pub open spec fn fixed_dealloc_spec(
    lists: Seq<Seq<usize>>,
    fallback: Seq<RegionNode>,
    ptr: usize,
    size: int,
    align: int,
) -> (Seq<Seq<usize>>, Seq<RegionNode>) {
    match block_class(size, align) {
        Some(c) => (lists.update(c, lists[c].push(ptr)), fallback),
        None => (lists, dealloc_request(fallback, ptr, size, align)),
    }
}

/// Blocks of one class come back in the reverse order of their release: after `b1` and then
/// `b2` are given back, the next two requests of that class get `b2` and then `b1`.
pub proof fn lemma_reuse_is_lifo(
    lists: Seq<Seq<usize>>,
    fallback: Seq<RegionNode>,
    b1: usize,
    b2: usize,
    size: usize,
    align: usize,
)
    requires
        lists.len() == NUM_CLASSES,
        block_class(size as int, align as int) is Some,
    ensures
        ({
            let (l1, f1) = fixed_dealloc_spec(lists, fallback, b1, size as int, align as int);
            let (l2, f2) = fixed_dealloc_spec(l1, f1, b2, size as int, align as int);
            let (l3, f3, first) = fixed_alloc_spec(l2, f2, size as int, align as int);
            let (l4, f4, second) = fixed_alloc_spec(l3, f3, size as int, align as int);
            &&& first == Some(b2)
            &&& second == Some(b1)
            &&& l4 == lists
            &&& f4 == fallback
        }),
{
    let c = block_class(size as int, align as int)->0;
    lemma_block_class(size as int, align as int);
    let l1 = lists.update(c, lists[c].push(b1));
    let l2 = l1.update(c, l1[c].push(b2));
    let l3 = l2.update(c, l2[c].drop_last());
    assert(l2[c].drop_last() =~= lists[c].push(b1));
    assert(l3 =~= l1);
    assert(l1[c].drop_last() =~= lists[c]);
    assert(l1.update(c, l1[c].drop_last()) =~= lists);
}

/// Allocating a block and giving it straight back can be repeated without end: from the
/// second round on, each round hands out the same block and leaves the allocator as the
/// first round did.
pub proof fn lemma_fixed_round_trip(
    lists: Seq<Seq<usize>>,
    fallback: Seq<RegionNode>,
    size: usize,
    align: usize,
)
    requires
        lists.len() == NUM_CLASSES,
        free_list_wf(fallback),
        layout_ok(size, align),
    ensures
        ({
            let (l1, f1, r) = fixed_alloc_spec(lists, fallback, size as int, align as int);
            r is Some ==> {
                let (l2, f2) = fixed_dealloc_spec(l1, f1, r->0, size as int, align as int);
                let (l3, f3, r2) = fixed_alloc_spec(l2, f2, size as int, align as int);
                &&& r2 == r
                &&& fixed_dealloc_spec(l3, f3, r->0, size as int, align as int) == (l2, f2)
            }
        }),
{
    let (l1, f1, r) = fixed_alloc_spec(lists, fallback, size as int, align as int);
    lemma_block_class(size as int, align as int);
    if r is Some {
        let p = r->0;
        match block_class(size as int, align as int) {
            Some(c) => {
                let l2 = l1.update(c, l1[c].push(p));
                assert(l2[c].drop_last() =~= l1[c]);
                assert(l2.update(c, l2[c].drop_last()) =~= l1);
                assert(l1.update(c, l1[c].push(p)) =~= l2);
            },
            None => {
                lemma_round_trip(fallback, size, align);
            },
        }
    }
}

/// Bytes that a request of `size` at alignment `align` is granted: a whole block of its class,
/// or what the fallback allocator grants.
pub open spec fn granted_size(size: int, align: int) -> int {
    match block_class(size, align) {
        Some(c) => block_size(c),
        None => adjusted_size(size, align),
    }
}

/// The block `[start, start + size)` overlaps no free block of any class and no free region
/// of the fallback allocator.
pub open spec fn free_in(lists: Seq<Seq<usize>>, fallback: Seq<RegionNode>, start: int, size: int) -> bool {
    &&& forall|c: int, k: int|
        0 <= c < lists.len() && 0 <= k < lists[c].len() ==> ranges_disjoint(
            start,
            start + size,
            (#[trigger] lists[c][k]) as int,
            lists[c][k] + block_size(c),
        )
    &&& disjoint_from_all(fallback, start, size)
}

/// One list per class; each free block is aligned to its class's size and overlaps no other
/// free block and no free region of a well-formed fallback allocator.
pub open spec fn fixed_state_wf(lists: Seq<Seq<usize>>, fallback: Seq<RegionNode>) -> bool {
    &&& lists.len() == NUM_CLASSES
    &&& free_list_wf(fallback)
    &&& forall|c: int, k: int|
        0 <= c < NUM_CLASSES && 0 <= k < lists[c].len() ==> {
            let b = #[trigger] lists[c][k];
            &&& (b as int) % block_size(c) == 0
            &&& b + block_size(c) <= usize::MAX
            &&& disjoint_from_all(fallback, b as int, block_size(c))
        }
    &&& forall|c1: int, k1: int, c2: int, k2: int|
        0 <= c1 < NUM_CLASSES && 0 <= k1 < lists[c1].len() && 0 <= c2 < NUM_CLASSES && 0 <= k2
            < lists[c2].len() && (c1 != c2 || k1 != k2) ==> ranges_disjoint(
            (#[trigger] lists[c1][k1]) as int,
            lists[c1][k1] + block_size(c1),
            (#[trigger] lists[c2][k2]) as int,
            lists[c2][k2] + block_size(c2),
        )
}

/// What an allocation does to a well-formed state: the state stays well-formed, and a block
/// handed out overlaps nothing that is free afterwards and lies within what was free before.
pub proof fn lemma_fixed_alloc(
    lists: Seq<Seq<usize>>,
    fallback: Seq<RegionNode>,
    size: usize,
    align: usize,
)
    requires
        fixed_state_wf(lists, fallback),
        layout_ok(size, align),
    ensures
        ({
            let (l, f, r) = fixed_alloc_spec(lists, fallback, size as int, align as int);
            let g = granted_size(size as int, align as int);
            &&& fixed_state_wf(l, f)
            &&& r is Some ==> free_in(l, f, r->0 as int, g)
            &&& r is Some ==> forall|s: int, n: int|
                #[trigger] free_in(lists, fallback, s, n) && n >= 0 ==> ranges_disjoint(
                    s,
                    s + n,
                    r->0 as int,
                    r->0 + g,
                )
        }),
{
    lemma_adjusted(size as int, align as int);
    lemma_block_class(size as int, align as int);
    let (l, f, r) = fixed_alloc_spec(lists, fallback, size as int, align as int);
    let g = granted_size(size as int, align as int);
    match block_class(size as int, align as int) {
        Some(c) => {
            lemma_block_size(c);
            if lists[c].len() > 0 {
                let n = lists[c].len() - 1;
                assert(lists[c].last() == lists[c][n]);
                assert forall|c2: int, k2: int|
                    0 <= c2 < NUM_CLASSES && 0 <= k2 < l[c2].len() implies #[trigger] l[c2][k2]
                    == lists[c2][k2] && (c2 != c || k2 != n) by {
                    if c2 == c {
                        assert(l[c2] == lists[c].drop_last());
                    }
                }
                lemma_fixed_wf_sublists(lists, l, fallback);
            } else {
                let bs = block_size(c);
                lemma_layout_of_block(c);
                lemma_adjusted(bs, bs);
                crate::allocator::lemma_align_up(bs, adjusted_align(bs));
                lemma_fallback_alloc(lists, fallback, bs as usize, bs as usize, bs);
            }
        },
        None => {
            lemma_fallback_alloc(
                lists,
                fallback,
                size,
                align,
                adjusted_size(size as int, align as int),
            );
        },
    }
}

/// Dropping blocks from the class lists keeps the state well-formed.
proof fn lemma_fixed_wf_sublists(
    lists: Seq<Seq<usize>>,
    sub: Seq<Seq<usize>>,
    fallback: Seq<RegionNode>,
)
    requires
        fixed_state_wf(lists, fallback),
        sub.len() == NUM_CLASSES,
        forall|c: int, k: int|
            0 <= c < NUM_CLASSES && 0 <= k < sub[c].len() ==> k < lists[c].len() && #[trigger] sub[c][k]
                == lists[c][k],
    ensures
        fixed_state_wf(sub, fallback),
{
    assert forall|c1: int, k1: int, c2: int, k2: int|
        0 <= c1 < NUM_CLASSES && 0 <= k1 < sub[c1].len() && 0 <= c2 < NUM_CLASSES && 0 <= k2
            < sub[c2].len() && (c1 != c2 || k1 != k2) implies ranges_disjoint(
        (#[trigger] sub[c1][k1]) as int,
        sub[c1][k1] + block_size(c1),
        (#[trigger] sub[c2][k2]) as int,
        sub[c2][k2] + block_size(c2),
    ) by {
        assert(sub[c1][k1] == lists[c1][k1]);
        assert(sub[c2][k2] == lists[c2][k2]);
    }
    assert forall|c: int, k: int| 0 <= c < NUM_CLASSES && 0 <= k < sub[c].len() implies {
        let b = #[trigger] sub[c][k];
        &&& (b as int) % block_size(c) == 0
        &&& b + block_size(c) <= usize::MAX
        &&& disjoint_from_all(fallback, b as int, block_size(c))
    } by {
        assert(sub[c][k] == lists[c][k]);
    }
}

/// An allocation that the fallback allocator serves, granting `g` bytes of the block that it
/// hands out, keeps the class lists as they are and the state well-formed.
proof fn lemma_fallback_alloc(
    lists: Seq<Seq<usize>>,
    fallback: Seq<RegionNode>,
    size: usize,
    align: usize,
    g: int,
)
    requires
        fixed_state_wf(lists, fallback),
        layout_ok(size, align),
        0 <= g <= adjusted_size(size as int, align as int),
    ensures
        ({
            let (f, r) = alloc_request(fallback, size as int, align as int);
            &&& fixed_state_wf(lists, f)
            &&& r is Some ==> free_in(lists, f, r->0 as int, g)
            &&& r is Some ==> forall|s: int, n: int|
                #[trigger] free_in(lists, fallback, s, n) && n >= 0 ==> ranges_disjoint(
                    s,
                    s + n,
                    r->0 as int,
                    r->0 + g,
                )
        }),
{
    let sz = adjusted_size(size as int, align as int);
    let al = adjusted_align(align as int);
    lemma_adjusted(size as int, align as int);
    lemma_alloc_spec(fallback, sz, al);
    let (f, r) = alloc_request(fallback, size as int, align as int);
    assert forall|c: int, k: int| 0 <= c < NUM_CLASSES && 0 <= k < lists[c].len() implies {
        let b = #[trigger] lists[c][k];
        &&& (b as int) % block_size(c) == 0
        &&& b + block_size(c) <= usize::MAX
        &&& disjoint_from_all(f, b as int, block_size(c))
    } by {
        let b = lists[c][k];
        assert forall|i: int| 0 <= i < f.len() implies ranges_disjoint(
            b as int,
            b + block_size(c),
            (#[trigger] f[i]).start as int,
            f[i].end(),
        ) by {
            assert(contained_in_some(fallback, f[i].start as int, f[i].size as int));
            let j = choose|j: int|
                0 <= j < fallback.len() && region_contains(
                    #[trigger] fallback[j],
                    f[i].start as int,
                    f[i].size as int,
                );
            assert(ranges_disjoint(
                b as int,
                b + block_size(c),
                fallback[j].start as int,
                fallback[j].end(),
            ));
        }
    }
    if r is Some {
        let p = r->0 as int;
        let j = choose|j: int| 0 <= j < fallback.len() && region_contains(#[trigger] fallback[j], p, sz);
        assert forall|c: int, k: int|
            0 <= c < lists.len() && 0 <= k < lists[c].len() implies ranges_disjoint(
            p,
            p + g,
            (#[trigger] lists[c][k]) as int,
            lists[c][k] + block_size(c),
        ) by {
            let b = lists[c][k];
            assert(disjoint_from_all(fallback, b as int, block_size(c)));
            assert(ranges_disjoint(
                b as int,
                b + block_size(c),
                fallback[j].start as int,
                fallback[j].end(),
            ));
        }
        assert forall|s: int, n: int|
            #[trigger] free_in(lists, fallback, s, n) && n >= 0 implies ranges_disjoint(
            s,
            s + n,
            p,
            p + g,
        ) by {
            assert(ranges_disjoint(s, s + n, fallback[j].start as int, fallback[j].end()));
        }
    }
}

/// A request that no class serves and that is larger than all free bytes of the fallback
/// allocator together fails and leaves the allocator as it was.
pub proof fn lemma_fixed_too_large_fails(
    lists: Seq<Seq<usize>>,
    fallback: Seq<RegionNode>,
    size: usize,
    align: usize,
)
    requires
        fixed_state_wf(lists, fallback),
        layout_ok(size, align),
        block_class(size as int, align as int) is None,
        size > free_bytes(fallback),
    ensures
        fixed_alloc_spec(lists, fallback, size as int, align as int) == (
            lists,
            fallback,
            None::<usize>,
        ),
{
    lemma_too_large_fails(fallback, size, align);
}

/// Two blocks handed out one after the other never overlap.
pub proof fn lemma_fixed_no_overlap(
    lists: Seq<Seq<usize>>,
    fallback: Seq<RegionNode>,
    size1: usize,
    align1: usize,
    size2: usize,
    align2: usize,
)
    requires
        fixed_state_wf(lists, fallback),
        layout_ok(size1, align1),
        layout_ok(size2, align2),
    ensures
        ({
            let (l1, f1, first) = fixed_alloc_spec(lists, fallback, size1 as int, align1 as int);
            let (_, _, second) = fixed_alloc_spec(l1, f1, size2 as int, align2 as int);
            first is Some && second is Some ==> ranges_disjoint(
                first->0 as int,
                first->0 + granted_size(size1 as int, align1 as int),
                second->0 as int,
                second->0 + granted_size(size2 as int, align2 as int),
            )
        }),
{
    let (l1, f1, first) = fixed_alloc_spec(lists, fallback, size1 as int, align1 as int);
    lemma_fixed_alloc(lists, fallback, size1, align1);
    lemma_fixed_alloc(l1, f1, size2, align2);
    lemma_block_class(size1 as int, align1 as int);
    lemma_adjusted(size1 as int, align1 as int);
    crate::allocator::lemma_align_up(size1 as int, adjusted_align(align1 as int));
    if first is Some {
        assert(free_in(l1, f1, first->0 as int, granted_size(size1 as int, align1 as int)));
    }
}

/// Block sizes are powers of two, at least 8 and at most 2048, and they double from class to
/// class.
pub proof fn lemma_block_size(i: int)
    requires
        0 <= i < NUM_CLASSES,
    ensures
        is_pow2(block_size(i)),
        8 <= block_size(i) <= 2048,
        block_size(i) % NODE_ALIGN as int == 0,
        forall|j: int| 0 <= j < i ==> block_size(j) < block_size(i),
    decreases i,
{
    reveal(is_pow2);
    reveal_with_fuel(block_size, 10);
    assert(block_size(8) == 2048);
    if i > 0 {
        lemma_block_size(i - 1);
        assert(i == 1 || i == 2 || i == 3 || i == 4 || i == 5 || i == 6 || i == 7 || i == 8);
        assert((2 * block_size(i - 1)) / 2 == block_size(i - 1));
    } else {
        reveal_with_fuel(is_pow2, 5);
    }
}

/// `class_from` is the class from which on the blocks are large enough.
proof fn lemma_class_from(required: int, i: int, k: int)
    requires
        0 <= i <= k <= NUM_CLASSES,
        forall|j: int| i <= j < k ==> block_size(j) < required,
        k == NUM_CLASSES || block_size(k) >= required,
    ensures
        class_from(required, i) == k,
    decreases k - i,
{
    if i < k {
        lemma_class_from(required, i + 1, k);
    }
}

/// A request that a class serves fits into that class's blocks, and into no smaller class.
pub proof fn lemma_block_class(size: int, align: int)
    ensures
        block_class(size, align) is Some ==> {
            let c = block_class(size, align)->0;
            &&& 0 <= c < NUM_CLASSES
            &&& block_size(c) >= size
            &&& block_size(c) >= align
        },
{
    let req = required_block_size(size, align);
    let c = class_from(req, 0);
    lemma_class_from_bounds(req, 0);
}

proof fn lemma_class_from_bounds(required: int, i: int)
    requires
        0 <= i,
    ensures
        i <= class_from(required, i) <= NUM_CLASSES || i > NUM_CLASSES,
        class_from(required, i) < NUM_CLASSES ==> block_size(class_from(required, i))
            >= required,
    decreases NUM_CLASSES - i,
{
    if i < NUM_CLASSES && block_size(i) < required {
        lemma_class_from_bounds(required, i + 1);
    }
}

/// Size of the blocks of class `i`.
fn class_block_size(i: usize) -> (r: usize)
    requires
        i < NUM_CLASSES,
    ensures
        r == block_size(i as int),
{
    reveal_with_fuel(block_size, 10);
    match i {
        0 => 8,
        1 => 16,
        2 => 32,
        3 => 64,
        4 => 128,
        5 => 256,
        6 => 512,
        7 => 1024,
        _ => 2048,
    }
}

/// Choose an appropriate block class for the given layout: the smallest whose blocks hold
/// both the size and the alignment.
fn block_index(size: usize, align: usize) -> (r: Option<usize>)
    ensures
        r == match block_class(size as int, align as int) {
            Some(c) => Some(c as usize),
            None => None::<usize>,
        },
{
    let required = if size >= align {
        size
    } else {
        align
    };
    let mut i: usize = 0;
    while i < NUM_CLASSES
        invariant
            0 <= i <= NUM_CLASSES,
            required == required_block_size(size as int, align as int),
            forall|j: int| 0 <= j < i ==> block_size(j) < required,
        decreases NUM_CLASSES - i,
    {
        if class_block_size(i) >= required {
            proof {
                lemma_class_from(required as int, 0, i as int);
            }
            return Some(i);
        }
        i = i + 1;
    }
    proof {
        lemma_class_from(required as int, 0, NUM_CLASSES as int);
    }
    None
}

/// An allocator that serves small requests from per-class lists of free blocks, whose size
/// is a power of two, and everything else from a linked-list allocator. Blocks of a class
/// are taken from that allocator on demand, at their own size and alignment.
pub struct FixedSizeBlockAllocator {
    block_heads: Vec<Vec<usize>>,
    fallback_allocator: LinkedListAllocator,
}

impl FixedSizeBlockAllocator {
    /// The free blocks of each class; the next block to hand out is the last.
    pub closed spec fn lists(&self) -> Seq<Seq<usize>> {
        self.block_heads@.map_values(|l: Vec<usize>| l@)
    }

    /// The free regions of the fallback allocator.
    pub closed spec fn fallback(&self) -> Seq<RegionNode> {
        self.fallback_allocator@
    }

    pub open spec fn wf(&self) -> bool {
        fixed_state_wf(self.lists(), self.fallback())
    }

    /// Creates an empty FixedSizeBlockAllocator.
    pub fn new() -> (r: Self)
        ensures
            r.wf(),
            r.lists() == Seq::new(NUM_CLASSES as nat, |c: int| Seq::<usize>::empty()),
            r.fallback() == Seq::<RegionNode>::empty(),
    {
        let mut block_heads: Vec<Vec<usize>> = Vec::new();
        let mut i: usize = 0;
        while i < NUM_CLASSES
            invariant
                0 <= i <= NUM_CLASSES,
                block_heads@.len() == i,
                forall|c: int| 0 <= c < i ==> (#[trigger] block_heads@[c])@ == Seq::<usize>::empty(),
            decreases NUM_CLASSES - i,
        {
            block_heads.push(Vec::new());
            i = i + 1;
        }
        let r = FixedSizeBlockAllocator { block_heads, fallback_allocator: LinkedListAllocator::new() };
        assert(r.lists() =~= Seq::new(NUM_CLASSES as nat, |c: int| Seq::<usize>::empty()));
        r
    }

    /// Initialize the allocator with the given heap bounds: the fallback allocator takes the
    /// whole heap, and every class starts out empty. This method must be called only once.
    pub fn init(&mut self, heap_start: usize, heap_size: usize)
        requires
            old(self).wf(),
            old(self).lists() == Seq::new(NUM_CLASSES as nat, |c: int| Seq::<usize>::empty()),
            old(self).fallback() == Seq::<RegionNode>::empty(),
            heap_start % NODE_ALIGN == 0,
            heap_size >= NODE_SIZE,
            heap_start + heap_size <= usize::MAX,
        ensures
            final(self).wf(),
            final(self).lists() == old(self).lists(),
            final(self).fallback() == seq![RegionNode { start: heap_start, size: heap_size }],
    {
        self.fallback_allocator.init(heap_start, heap_size);
    }

    /// Allocates `size` bytes at alignment `align`. A request that a class serves takes the
    /// last freed block of that class, or else a new block of the class's size from the
    /// fallback allocator; any other request goes to the fallback allocator as it is.
    pub fn allocate(&mut self, size: usize, align: usize) -> (r: Option<usize>)
        requires
            old(self).wf(),
            layout_ok(size, align),
        ensures
            final(self).wf(),
            (final(self).lists(), final(self).fallback(), r) == fixed_alloc_spec(
                old(self).lists(),
                old(self).fallback(),
                size as int,
                align as int,
            ),
            r is Some ==> r->0 % align == 0,
            r is Some ==> free_in(
                final(self).lists(),
                final(self).fallback(),
                r->0 as int,
                granted_size(size as int, align as int),
            ),
    {
        proof {
            lemma_fixed_alloc(old(self).lists(), old(self).fallback(), size, align);
            lemma_adjusted(size as int, align as int);
            lemma_block_class(size as int, align as int);
        }
        match block_index(size, align) {
            Some(block_i) => {
                proof {
                    lemma_block_size(block_i as int);
                    lemma_pow2_divides(align as int, block_size(block_i as int));
                }
                match self.block_heads[block_i].pop() {
                    Some(node) => {
                        proof {
                            assert(self.lists() =~= old(self).lists().update(
                                block_i as int,
                                old(self).lists()[block_i as int].drop_last(),
                            ));
                            lemma_mod_transitive(
                                node as int,
                                block_size(block_i as int),
                                align as int,
                            );
                        }
                        Some(node)
                    },
                    None => {
                        let block_size = class_block_size(block_i);
                        let block_align = block_size;
                        proof {
                            assert(self.lists() =~= old(self).lists());
                            lemma_layout_of_block(block_i as int);
                        }
                        let r = self.fallback_allocator.allocate(block_size, block_align);
                        proof {
                            if r is Some {
                                lemma_mod_transitive(
                                    r->0 as int,
                                    block_size as int,
                                    align as int,
                                );
                            }
                        }
                        r
                    },
                }
            },
            None => self.fallback_allocator.allocate(size, align),
        }
    }

    /// Takes back a block obtained from `allocate` with the same `size` and `align`. A block
    /// of a class goes on top of that class's list; any other goes back to the fallback
    /// allocator.
    pub fn deallocate(&mut self, ptr: usize, size: usize, align: usize)
        requires
            old(self).wf(),
            layout_ok(size, align),
            free_in(
                old(self).lists(),
                old(self).fallback(),
                ptr as int,
                granted_size(size as int, align as int),
            ),
            match block_class(size as int, align as int) {
                Some(c) => (ptr as int) % block_size(c) == 0 && ptr + block_size(c) <= usize::MAX,
                None => {
                    &&& ptr % NODE_ALIGN == 0
                    &&& ptr + adjusted_size(size as int, align as int) <= usize::MAX
                },
            },
        ensures
            final(self).wf(),
            (final(self).lists(), final(self).fallback()) == fixed_dealloc_spec(
                old(self).lists(),
                old(self).fallback(),
                ptr,
                size as int,
                align as int,
            ),
    {
        proof {
            lemma_block_class(size as int, align as int);
        }
        match block_index(size, align) {
            Some(block_i) => {
                self.block_heads[block_i].push(ptr);
                proof {
                    assert(self.lists() =~= old(self).lists().update(
                        block_i as int,
                        old(self).lists()[block_i as int].push(ptr),
                    ));
                }
            },
            None => {
                self.fallback_allocator.deallocate(ptr, size, align);
            },
        }
    }
}

/// A block of a class is a valid layout at its own size and alignment.
proof fn lemma_layout_of_block(i: int)
    requires
        0 <= i < NUM_CLASSES,
    ensures
        layout_ok(block_size(i) as usize, block_size(i) as usize),
{
    lemma_block_size(i);
    let bs = block_size(i);
    assert(adjusted_align(bs) == bs);
    let m = isize::MAX as int;
    assert(m == 0x7fff_ffff || m == 0x7fff_ffff_ffff_ffff);
    assert(bs <= m - m % bs) by (nonlinear_arith)
        requires
            8 <= bs <= 2048,
            m >= 0x7fff_ffff,
    ;
}

} // verus!
