//! A first-fit allocator over a list of free regions, which splits regions but never merges
//! them.

use vstd::layout::valid_layout;
use vstd::prelude::*;

use super::{align_up, lemma_align_up, lemma_align_up_below, spec_align_up};

verus! {

/// Bytes taken by the header that each free region carries.
pub const NODE_SIZE: usize = 16;

/// Alignment that the header of a free region needs.
pub const NODE_ALIGN: usize = 8;

/// A free region of the heap: `size` bytes starting at address `start`.
#[derive(Clone, Copy, Debug, PartialEq, Eq, Structural)]
pub struct RegionNode {
    pub start: usize,
    pub size: usize,
}

impl RegionNode {
    /// One past the last address of the region.
    pub open spec fn end(self) -> int {
        self.start + self.size
    }

    /// The region can carry a header: aligned, large enough, inside the address space.
    pub open spec fn is_valid(self) -> bool {
        &&& self.start % NODE_ALIGN == 0
        &&& self.size >= NODE_SIZE
        &&& self.end() <= usize::MAX
    }

    pub fn new(start: usize, size: usize) -> (r: Self)
        ensures
            r.start == start,
            r.size == size,
    {
        RegionNode { start, size }
    }

    pub fn start_addr(&self) -> (r: usize)
        ensures
            r == self.start,
    {
        self.start
    }

    pub fn end_addr(&self) -> (r: usize)
        requires
            self.end() <= usize::MAX,
        ensures
            r == self.end(),
    {
        self.start + self.size
    }
}

/// The byte ranges `[s1, e1)` and `[s2, e2)` share no address.
pub open spec fn ranges_disjoint(s1: int, e1: int, s2: int, e2: int) -> bool {
    e1 <= s2 || e2 <= s1
}

pub open spec fn regions_disjoint(a: RegionNode, b: RegionNode) -> bool {
    ranges_disjoint(a.start as int, a.end(), b.start as int, b.end())
}

/// Every region of the list is valid, and no two of them overlap.
pub open spec fn free_list_wf(rs: Seq<RegionNode>) -> bool {
    &&& forall|i: int| 0 <= i < rs.len() ==> (#[trigger] rs[i]).is_valid()
    &&& forall|i: int, j: int|
        0 <= i < rs.len() && 0 <= j < rs.len() && i != j ==> regions_disjoint(
            #[trigger] rs[i],
            #[trigger] rs[j],
        )
}

/// The block `[start, start + size)` overlaps no region of the list.
pub open spec fn disjoint_from_all(rs: Seq<RegionNode>, start: int, size: int) -> bool {
    forall|i: int|
        0 <= i < rs.len() ==> ranges_disjoint(
            start,
            start + size,
            (#[trigger] rs[i]).start as int,
            rs[i].end(),
        )
}

/// The block `[start, start + size)` lies inside region `r`.
pub open spec fn region_contains(r: RegionNode, start: int, size: int) -> bool {
    r.start <= start && start + size <= r.end()
}

/// The block `[start, start + size)` lies inside some region of the list.
pub open spec fn contained_in_some(rs: Seq<RegionNode>, start: int, size: int) -> bool {
    exists|i: int| 0 <= i < rs.len() && region_contains(#[trigger] rs[i], start, size)
}

/// Alignment of a request once raised to what a region header needs.
pub open spec fn adjusted_align(align: int) -> int {
    if align < NODE_ALIGN {
        NODE_ALIGN as int
    } else {
        align
    }
}

/// Size of a request once padded to its adjusted alignment and raised to a header's size.
pub open spec fn adjusted_size(size: int, align: int) -> int {
    let padded = spec_align_up(size, adjusted_align(align));
    if padded < NODE_SIZE {
        NODE_SIZE as int
    } else {
        padded
    }
}

/// A layout that this allocator accepts: valid as given and once its alignment is raised.
pub open spec fn layout_ok(size: usize, align: usize) -> bool {
    &&& valid_layout(size, align)
    &&& valid_layout(size, adjusted_align(align as int) as usize)
}

/// An allocation of `size` bytes at alignment `align` can be carved out of `r`: the aligned
/// block ends inside `r`, and what is left behind it is either nothing or large enough to be
/// a free region of its own.
pub open spec fn fits(r: RegionNode, size: int, align: int) -> bool {
    let start = spec_align_up(r.start as int, align);
    let end = start + size;
    &&& end <= r.end()
    &&& (end == r.end() || r.end() - end >= NODE_SIZE)
}

/// Index of the first region of `rs` that fits the request, or `rs.len()` if none does.
pub open spec fn first_fit(rs: Seq<RegionNode>, size: int, align: int) -> int
    decreases rs.len(),
{
    if rs.len() == 0 {
        0
    } else if fits(rs[0], size, align) {
        0
    } else {
        1 + first_fit(rs.drop_first(), size, align)
    }
}

/// The free list and the result after an allocation of an adjusted `size` and `align`: the
/// first region that fits is unlinked, and the tail left behind the block goes to the front.
pub open spec fn alloc_spec(rs: Seq<RegionNode>, size: int, align: int) -> (
    Seq<RegionNode>,
    Option<usize>,
) {
    let i = first_fit(rs, size, align);
    if i >= rs.len() {
        (rs, None)
    } else {
        let r = rs[i];
        let start = spec_align_up(r.start as int, align);
        let end = start + size;
        let rest = rs.remove(i);
        if end < r.end() {
            (
                seq![RegionNode { start: end as usize, size: (r.end() - end) as usize }] + rest,
                Some(start as usize),
            )
        } else {
            (rest, Some(start as usize))
        }
    }
}

/// The free list and the result after a request of `size` bytes at alignment `align`.
pub open spec fn alloc_request(rs: Seq<RegionNode>, size: int, align: int) -> (
    Seq<RegionNode>,
    Option<usize>,
) {
    alloc_spec(rs, adjusted_size(size, align), adjusted_align(align))
}

/// The free list after the block at `ptr` of a request of `size` bytes at alignment `align`
/// is given back.
pub open spec fn dealloc_request(rs: Seq<RegionNode>, ptr: usize, size: int, align: int) -> Seq<
    RegionNode,
> {
    seq![RegionNode { start: ptr, size: adjusted_size(size, align) as usize }] + rs
}

/// Total bytes of the free regions.
pub open spec fn free_bytes(rs: Seq<RegionNode>) -> int
    decreases rs.len(),
{
    if rs.len() == 0 {
        0
    } else {
        rs[0].size + free_bytes(rs.drop_first())
    }
}

/// `first_fit` is the index before which no region fits, and at which one does.
pub proof fn lemma_first_fit(rs: Seq<RegionNode>, size: int, align: int, i: int)
    requires
        0 <= i <= rs.len(),
        forall|j: int| 0 <= j < i ==> !fits(#[trigger] rs[j], size, align),
        i == rs.len() || fits(rs[i], size, align),
    ensures
        first_fit(rs, size, align) == i,
    decreases i,
{
    if rs.len() > 0 && i > 0 {
        assert(!fits(rs[0], size, align));
        let tail = rs.drop_first();
        assert forall|j: int| 0 <= j < i - 1 implies !fits(#[trigger] tail[j], size, align) by {
            assert(tail[j] == rs[j + 1]);
        }
        if i < rs.len() {
            assert(tail[i - 1] == rs[i]);
        }
        lemma_first_fit(tail, size, align, i - 1);
    }
}

/// `first_fit` is an index of `rs` or its length.
pub proof fn lemma_first_fit_bounds(rs: Seq<RegionNode>, size: int, align: int)
    ensures
        0 <= first_fit(rs, size, align) <= rs.len(),
        first_fit(rs, size, align) < rs.len() ==> fits(
            rs[first_fit(rs, size, align)],
            size,
            align,
        ),
    decreases rs.len(),
{
    if rs.len() > 0 && !fits(rs[0], size, align) {
        lemma_first_fit_bounds(rs.drop_first(), size, align);
        let k = first_fit(rs.drop_first(), size, align);
        if k < rs.len() - 1 {
            assert(rs.drop_first()[k] == rs[k + 1]);
        }
    }
}

/// Unlinking a region keeps the list well-formed.
pub proof fn lemma_remove_wf(rs: Seq<RegionNode>, i: int)
    requires
        free_list_wf(rs),
        0 <= i < rs.len(),
    ensures
        free_list_wf(rs.remove(i)),
{
    let out = rs.remove(i);
    assert forall|a: int, b: int|
        0 <= a < out.len() && 0 <= b < out.len() && a != b implies regions_disjoint(
        #[trigger] out[a],
        #[trigger] out[b],
    ) by {
        let a2 = if a < i { a } else { a + 1 };
        let b2 = if b < i { b } else { b + 1 };
        assert(out[a] == rs[a2] && out[b] == rs[b2]);
    }
    assert forall|a: int| 0 <= a < out.len() implies (#[trigger] out[a]).is_valid() by {
        let a2 = if a < i { a } else { a + 1 };
        assert(out[a] == rs[a2]);
    }
}

/// Putting a valid region that overlaps none of the list in front keeps it well-formed.
pub proof fn lemma_push_front_wf(rs: Seq<RegionNode>, node: RegionNode)
    requires
        free_list_wf(rs),
        node.is_valid(),
        disjoint_from_all(rs, node.start as int, node.size as int),
    ensures
        free_list_wf(seq![node] + rs),
{
    let out = seq![node] + rs;
    assert forall|i: int, j: int|
        0 <= i < out.len() && 0 <= j < out.len() && i != j implies regions_disjoint(
        #[trigger] out[i],
        #[trigger] out[j],
    ) by {
        if i > 0 && j > 0 {
            assert(out[i] == rs[i - 1] && out[j] == rs[j - 1]);
        } else if i == 0 {
            assert(out[j] == rs[j - 1]);
        } else {
            assert(out[i] == rs[i - 1]);
        }
    }
    assert forall|i: int| 0 <= i < out.len() implies (#[trigger] out[i]).is_valid() by {
        if i > 0 {
            assert(out[i] == rs[i - 1]);
        }
    }
}

/// A block inside region `i` overlaps none of the other regions.
pub proof fn lemma_inside_is_free(rs: Seq<RegionNode>, i: int, start: int, size: int)
    requires
        free_list_wf(rs),
        0 <= i < rs.len(),
        region_contains(rs[i], start, size),
        size >= 0,
    ensures
        disjoint_from_all(rs.remove(i), start, size),
{
    let out = rs.remove(i);
    assert forall|k: int| 0 <= k < out.len() implies ranges_disjoint(
        start,
        start + size,
        (#[trigger] out[k]).start as int,
        out[k].end(),
    ) by {
        let k2 = if k < i { k } else { k + 1 };
        assert(out[k] == rs[k2]);
        assert(regions_disjoint(rs[i], rs[k2]));
    }
}

/// What an allocation does to a well-formed list: the list stays well-formed, a failed
/// allocation leaves it as it was, and a block handed out is aligned, lies inside one of the
/// regions before, and overlaps none of the regions after.
pub proof fn lemma_alloc_spec(rs: Seq<RegionNode>, size: int, align: int)
    requires
        free_list_wf(rs),
        align > 0,
        size >= 0,
        size % NODE_ALIGN as int == 0,
        align % NODE_ALIGN as int == 0,
    ensures
        free_list_wf(alloc_spec(rs, size, align).0),
        alloc_spec(rs, size, align).1 is None ==> alloc_spec(rs, size, align).0 == rs,
        forall|k: int|
            0 <= k < alloc_spec(rs, size, align).0.len() ==> contained_in_some(
                rs,
                (#[trigger] alloc_spec(rs, size, align).0[k]).start as int,
                alloc_spec(rs, size, align).0[k].size as int,
            ),
        alloc_spec(rs, size, align).1 is Some ==> {
            let p = alloc_spec(rs, size, align).1->0 as int;
            &&& p % align == 0
            &&& contained_in_some(rs, p, size)
            &&& disjoint_from_all(alloc_spec(rs, size, align).0, p, size)
        },
{
    lemma_first_fit_bounds(rs, size, align);
    let i = first_fit(rs, size, align);
    if i >= rs.len() {
        assert forall|k: int| 0 <= k < rs.len() implies contained_in_some(
            rs,
            (#[trigger] rs[k]).start as int,
            rs[k].size as int,
        ) by {
            assert(region_contains(rs[k], rs[k].start as int, rs[k].size as int));
        }
    } else {
        let r = rs[i];
        let start = spec_align_up(r.start as int, align);
        let end = start + size;
        let rest = rs.remove(i);
        lemma_align_up(r.start as int, align);
        super::lemma_mod_transitive(start, align, NODE_ALIGN as int);
        assert(region_contains(rs[i], start, size));
        lemma_remove_wf(rs, i);
        lemma_inside_is_free(rs, i, start, size);
        assert forall|k: int| 0 <= k < rest.len() implies contained_in_some(
            rs,
            (#[trigger] rest[k]).start as int,
            rest[k].size as int,
        ) by {
            let k2 = if k < i { k } else { k + 1 };
            assert(rest[k] == rs[k2]);
            assert(region_contains(rs[k2], rest[k].start as int, rest[k].size as int));
        }
        if end < r.end() {
            let tail = RegionNode { start: end as usize, size: (r.end() - end) as usize };
            assert(region_contains(rs[i], end, r.end() - end));
            lemma_inside_is_free(rs, i, end, r.end() - end);
            lemma_push_front_wf(rest, tail);
            let out = seq![tail] + rest;
            assert forall|k: int| 0 <= k < out.len() implies contained_in_some(
                rs,
                (#[trigger] out[k]).start as int,
                out[k].size as int,
            ) by {
                if k > 0 {
                    assert(out[k] == rest[k - 1]);
                } else {
                    assert(region_contains(rs[i], out[k].start as int, out[k].size as int));
                }
            }
            assert forall|k: int| 0 <= k < out.len() implies ranges_disjoint(
                start,
                start + size,
                (#[trigger] out[k]).start as int,
                out[k].end(),
            ) by {
                if k > 0 {
                    assert(out[k] == rest[k - 1]);
                }
            }
        }
    }
}

/// Unlinking region `i` takes its bytes off the total; every region is part of the total.
pub proof fn lemma_free_bytes_remove(rs: Seq<RegionNode>, i: int)
    requires
        0 <= i < rs.len(),
    ensures
        free_bytes(rs.remove(i)) == free_bytes(rs) - rs[i].size,
        free_bytes(rs.remove(i)) >= 0,
    decreases i,
{
    lemma_free_bytes_nonneg(rs.remove(i));
    if i > 0 {
        let tail = rs.drop_first();
        lemma_free_bytes_remove(tail, i - 1);
        assert(rs.remove(i).drop_first() =~= tail.remove(i - 1));
        assert(rs.remove(i)[0] == rs[0]);
    } else {
        assert(rs.remove(0) =~= rs.drop_first());
    }
}

pub proof fn lemma_free_bytes_nonneg(rs: Seq<RegionNode>)
    ensures
        free_bytes(rs) >= 0,
    decreases rs.len(),
{
    if rs.len() > 0 {
        lemma_free_bytes_nonneg(rs.drop_first());
    }
}

/// A region in front adds its bytes to the total.
pub proof fn lemma_free_bytes_push_front(rs: Seq<RegionNode>, node: RegionNode)
    ensures
        free_bytes(seq![node] + rs) == node.size + free_bytes(rs),
{
    assert((seq![node] + rs).drop_first() =~= rs);
}

/// Two blocks handed out one after the other never overlap.
pub proof fn lemma_no_overlap(
    rs: Seq<RegionNode>,
    size1: usize,
    align1: usize,
    size2: usize,
    align2: usize,
)
    requires
        free_list_wf(rs),
        layout_ok(size1, align1),
        layout_ok(size2, align2),
    ensures
        ({
            let first = alloc_request(rs, size1 as int, align1 as int);
            let second = alloc_request(first.0, size2 as int, align2 as int);
            first.1 is Some && second.1 is Some ==> ranges_disjoint(
                first.1->0 as int,
                first.1->0 + adjusted_size(size1 as int, align1 as int),
                second.1->0 as int,
                second.1->0 + adjusted_size(size2 as int, align2 as int),
            )
        }),
{
    let s1 = adjusted_size(size1 as int, align1 as int);
    let s2 = adjusted_size(size2 as int, align2 as int);
    lemma_adjusted(size1 as int, align1 as int);
    lemma_adjusted(size2 as int, align2 as int);
    let first = alloc_request(rs, size1 as int, align1 as int);
    lemma_alloc_spec(rs, s1, adjusted_align(align1 as int));
    lemma_alloc_spec(first.0, s2, adjusted_align(align2 as int));
    let second = alloc_request(first.0, size2 as int, align2 as int);
    if first.1 is Some && second.1 is Some {
        let k = choose|k: int|
            0 <= k < first.0.len() && region_contains(
                #[trigger] first.0[k],
                second.1->0 as int,
                s2,
            );
        assert(ranges_disjoint(
            first.1->0 as int,
            first.1->0 + s1,
            first.0[k].start as int,
            first.0[k].end(),
        ));
    }
}

/// A request larger than all free bytes together fails and leaves the list as it was.
pub proof fn lemma_too_large_fails(rs: Seq<RegionNode>, size: usize, align: usize)
    requires
        free_list_wf(rs),
        layout_ok(size, align),
        size > free_bytes(rs),
    ensures
        alloc_request(rs, size as int, align as int) == (rs, None::<usize>),
{
    let s = adjusted_size(size as int, align as int);
    let a = adjusted_align(align as int);
    lemma_adjusted(size as int, align as int);
    assert forall|j: int| 0 <= j < rs.len() implies !fits(#[trigger] rs[j], s, a) by {
        lemma_free_bytes_remove(rs, j);
        lemma_align_up(rs[j].start as int, a);
    }
    lemma_first_fit(rs, s, a, rs.len() as int);
}

/// Splitting leaves no unusable sliver: when an allocation leaves part of its region behind,
/// that part is a valid free region at the front of the list, and a later request that it
/// fits is served from it.
pub proof fn lemma_split_tail_is_usable(
    rs: Seq<RegionNode>,
    size: usize,
    align: usize,
    size2: usize,
    align2: usize,
)
    requires
        free_list_wf(rs),
        layout_ok(size, align),
        layout_ok(size2, align2),
    ensures
        ({
            let (after, r) = alloc_request(rs, size as int, align as int);
            let s2 = adjusted_size(size2 as int, align2 as int);
            r is Some && after.len() == rs.len() ==> {
                &&& after[0].is_valid()
                &&& after[0].start == r->0 + adjusted_size(size as int, align as int)
                &&& (align2 <= NODE_ALIGN && (s2 == after[0].size || s2 + NODE_SIZE
                    <= after[0].size)) ==> alloc_request(after, size2 as int, align2 as int).1
                    == Some(after[0].start)
            }
        }),
{
    let s = adjusted_size(size as int, align as int);
    let a = adjusted_align(align as int);
    lemma_adjusted(size as int, align as int);
    lemma_adjusted(size2 as int, align2 as int);
    lemma_alloc_spec(rs, s, a);
    lemma_first_fit_bounds(rs, s, a);
    let (after, r) = alloc_request(rs, size as int, align as int);
    if r is Some && after.len() == rs.len() {
        let s2 = adjusted_size(size2 as int, align2 as int);
        let a2 = adjusted_align(align2 as int);
        assert(after[0].is_valid());
        lemma_align_up(after[0].start as int, a2);
        if align2 <= NODE_ALIGN && (s2 == after[0].size || s2 + NODE_SIZE <= after[0].size) {
            assert(fits(after[0], s2, a2));
            lemma_first_fit(after, s2, a2, 0);
        }
    }
}

/// Allocating a block and giving it straight back can be repeated without end: the next
/// round hands out the same block and leaves the list as the first round did. Where no
/// alignment padding is cut off the front of a region, that is where the request's
/// alignment is at most a header's, the free bytes are those from before the first round.
pub proof fn lemma_round_trip(rs: Seq<RegionNode>, size: usize, align: usize)
    requires
        free_list_wf(rs),
        layout_ok(size, align),
    ensures
        ({
            let (after, r) = alloc_request(rs, size as int, align as int);
            r is Some ==> {
                let back = dealloc_request(after, r->0, size as int, align as int);
                &&& alloc_request(back, size as int, align as int) == (after, r)
                &&& align <= NODE_ALIGN ==> free_bytes(back) == free_bytes(rs)
            }
        }),
{
    let s = adjusted_size(size as int, align as int);
    let a = adjusted_align(align as int);
    lemma_adjusted(size as int, align as int);
    lemma_alloc_spec(rs, s, a);
    let (after, r) = alloc_request(rs, size as int, align as int);
    if r is Some {
        let p = r->0;
        let back = dealloc_request(after, p, size as int, align as int);
        let block = RegionNode { start: p, size: s as usize };
        assert(back[0] == block);
        lemma_align_up(p as int, a);
        assert(fits(back[0], s, a));
        lemma_first_fit(back, s, a, 0);
        assert(back.remove(0) =~= after);
        if align <= NODE_ALIGN {
            lemma_first_fit_bounds(rs, s, a);
            let i = first_fit(rs, s, a);
            lemma_align_up(rs[i].start as int, a);
            lemma_free_bytes_remove(rs, i);
            lemma_free_bytes_push_front(after, block);
            let end = p + s;
            if end < rs[i].end() {
                let tail = RegionNode { start: end as usize, size: (rs[i].end() - end) as usize };
                lemma_free_bytes_push_front(rs.remove(i), tail);
            }
        }
    }
}

/// An allocator that keeps the free regions of the heap in a list and hands out the first
/// region that fits, splitting off what is left behind the block.
pub struct LinkedListAllocator {
    regions: Vec<RegionNode>,
}

impl View for LinkedListAllocator {
    type V = Seq<RegionNode>;

    /// The free regions, from the front of the list.
    closed spec fn view(&self) -> Seq<RegionNode> {
        self.regions@
    }
}

impl LinkedListAllocator {
    pub open spec fn wf(&self) -> bool {
        free_list_wf(self@)
    }

    /// Creates an empty LinkedListAllocator.
    pub fn new() -> (r: Self)
        ensures
            r@ == Seq::<RegionNode>::empty(),
            r.wf(),
    {
        LinkedListAllocator { regions: Vec::new() }
    }

    /// Initialize the allocator with the given heap bounds: the whole heap becomes one free
    /// region. This method must be called only once.
    pub fn init(&mut self, heap_start: usize, heap_size: usize)
        requires
            old(self)@ == Seq::<RegionNode>::empty(),
            heap_start % NODE_ALIGN == 0,
            heap_size >= NODE_SIZE,
            heap_start + heap_size <= usize::MAX,
        ensures
            final(self)@ == seq![RegionNode { start: heap_start, size: heap_size }],
            final(self).wf(),
    {
        self.add_free_region(heap_start, heap_size);
    }

    /// Adds the given memory region to the front of the list.
    fn add_free_region(&mut self, addr: usize, size: usize)
        requires
            old(self).wf(),
            addr % NODE_ALIGN == 0,
            size >= NODE_SIZE,
            addr + size <= usize::MAX,
            disjoint_from_all(old(self)@, addr as int, size as int),
        ensures
            final(self)@ == seq![RegionNode { start: addr, size }] + old(self)@,
            final(self).wf(),
    {
        let node = RegionNode::new(addr, size);
        self.regions.insert(0, node);
        proof {
            assert(self@ =~= seq![node] + old(self)@);
            lemma_push_front_wf(old(self)@, node);
        }
    }

    /// Looks for a free region with the given size and alignment and removes it from the
    /// list. Returns the region and the start address of the allocation.
    fn find_region(&mut self, size: usize, align: usize) -> (r: Option<(RegionNode, usize)>)
        requires
            old(self).wf(),
            align > 0,
        ensures
            ({
                let i = first_fit(old(self)@, size as int, align as int);
                if i >= old(self)@.len() {
                    r is None && final(self)@ == old(self)@
                } else {
                    &&& r == Some(
                        (
                            old(self)@[i],
                            spec_align_up(old(self)@[i].start as int, align as int) as usize,
                        ),
                    )
                    &&& final(self)@ == old(self)@.remove(i)
                }
            }),
            final(self).wf(),
    {
        let mut i: usize = 0;
        while i < self.regions.len()
            invariant
                self.wf(),
                self@ == old(self)@,
                align > 0,
                0 <= i <= self@.len(),
                forall|j: int| 0 <= j < i ==> !fits(#[trigger] self@[j], size as int, align as int),
            decreases self@.len() - i,
        {
            let region = self.regions[i];
            assert(region.is_valid());
            match Self::alloc_from_region(&region, size, align) {
                Ok(alloc_start) => {
                    proof {
                        lemma_first_fit(old(self)@, size as int, align as int, i as int);
                    }
                    let removed = self.regions.remove(i);
                    proof {
                        assert(self@ =~= old(self)@.remove(i as int));
                        lemma_remove_wf(old(self)@, i as int);
                    }
                    return Some((removed, alloc_start));
                },
                Err(()) => {
                    i = i + 1;
                },
            }
        }
        proof {
            lemma_first_fit(old(self)@, size as int, align as int, i as int);
        }
        None
    }

    /// Allocates `size` bytes at alignment `align` from the first free region that fits.
    /// Returns the start address of the block, or `None` when no region fits.
    pub fn allocate(&mut self, size: usize, align: usize) -> (r: Option<usize>)
        requires
            old(self).wf(),
            layout_ok(size, align),
        ensures
            final(self).wf(),
            (final(self)@, r) == alloc_request(old(self)@, size as int, align as int),
            r is Some ==> r->0 % align == 0,
            r is Some ==> r->0 + adjusted_size(size as int, align as int) <= usize::MAX,
            r is Some ==> disjoint_from_all(
                final(self)@,
                r->0 as int,
                adjusted_size(size as int, align as int),
            ),
            r is Some ==> contained_in_some(
                old(self)@,
                r->0 as int,
                adjusted_size(size as int, align as int),
            ),
    {
        let ghost req_align = align;
        proof {
            lemma_adjusted(size as int, align as int);
        }
        let (size, align) = Self::size_align(size, align);
        let found = self.find_region(size, align);
        let r = match found {
            Some((region, alloc_start)) => {
                let ghost i = first_fit(old(self)@, size as int, align as int);
                proof {
                    lemma_first_fit_bounds(old(self)@, size as int, align as int);
                    lemma_align_up(region.start as int, align as int);
                    super::lemma_mod_transitive(alloc_start as int, align as int, NODE_ALIGN as int);
                }
                let alloc_end = alloc_start + size;
                let excess_size = region.end_addr() - alloc_end;
                if excess_size > 0 {
                    proof {
                        lemma_inside_is_free(old(self)@, i, alloc_end as int, excess_size as int);
                    }
                    self.add_free_region(alloc_end, excess_size);
                }
                Some(alloc_start)
            },
            None => None,
        };
        proof {
            lemma_alloc_spec(old(self)@, size as int, align as int);
            if r is Some {
                super::lemma_mod_transitive(r->0 as int, align as int, req_align as int);
            }
        }
        r
    }

    /// Returns a block obtained from `allocate` with the same `size` and `align` to the front
    /// of the free list. Neighbouring free regions are not merged.
    pub fn deallocate(&mut self, ptr: usize, size: usize, align: usize)
        requires
            old(self).wf(),
            layout_ok(size, align),
            ptr % NODE_ALIGN == 0,
            ptr + adjusted_size(size as int, align as int) <= usize::MAX,
            disjoint_from_all(old(self)@, ptr as int, adjusted_size(size as int, align as int)),
        ensures
            final(self).wf(),
            final(self)@ == dealloc_request(old(self)@, ptr, size as int, align as int),
    {
        let (size, _align) = Self::size_align(size, align);
        self.add_free_region(ptr, size);
    }

    /// Try to use the given region for an allocation with given size and alignment.
    /// Returns the allocation start address on success.
    fn alloc_from_region(region: &RegionNode, size: usize, align: usize) -> (r: Result<
        usize,
        (),
    >)
        requires
            region.is_valid(),
            align > 0,
        ensures
            r is Ok <==> fits(*region, size as int, align as int),
            r is Ok ==> r->Ok_0 == spec_align_up(region.start as int, align as int),
    {
        let start = region.start_addr();
        proof {
            lemma_align_up(start as int, align as int);
        }
        let rem = start % align;
        if rem != 0 && start - rem > usize::MAX - align {
            return Err(());
        }
        let alloc_start = align_up(start, align);
        let alloc_end = match alloc_start.checked_add(size) {
            Some(e) => e,
            None => {
                return Err(());
            },
        };
        let region_end = region.end_addr();
        if alloc_end > region_end {
            return Err(());
        }
        let excess_size = region_end - alloc_end;
        if excess_size > 0 && excess_size < NODE_SIZE {
            return Err(());
        }
        Ok(alloc_start)
    }

    /// Adjust the given layout so that the resulting allocated memory region is also capable
    /// of storing a region header. Returns the adjusted size and alignment.
    fn size_align(size: usize, align: usize) -> (r: (usize, usize))
        requires
            layout_ok(size, align),
        ensures
            r.0 == adjusted_size(size as int, align as int),
            r.1 == adjusted_align(align as int),
            r.0 % NODE_ALIGN == 0,
            r.1 % NODE_ALIGN == 0,
            r.1 % align == 0,
            r.0 <= isize::MAX,
    {
        let new_align = if align < NODE_ALIGN {
            NODE_ALIGN
        } else {
            align
        };
        proof {
            lemma_adjusted(size as int, align as int);
        }
        let padded = align_up(size, new_align);
        let new_size = if padded < NODE_SIZE {
            NODE_SIZE
        } else {
            padded
        };
        (new_size, new_align)
    }
}

/// Facts on the adjusted layout: the padded size fits in `isize`, and both the adjusted
/// size and the adjusted alignment are multiples of the header's alignment.
pub proof fn lemma_adjusted(size: int, align: int)
    requires
        layout_ok(size as usize, align as usize),
        0 <= size <= usize::MAX,
        0 <= align <= usize::MAX,
    ensures
        spec_align_up(size, adjusted_align(align)) <= isize::MAX,
        adjusted_size(size, align) <= isize::MAX,
        adjusted_size(size, align) % NODE_ALIGN as int == 0,
        adjusted_align(align) % NODE_ALIGN as int == 0,
        adjusted_align(align) % align == 0,
        align > 0,
        vstd::arithmetic::power2::is_pow2(adjusted_align(align)),
{
    let a = adjusted_align(align);
    reveal_with_fuel(vstd::arithmetic::power2::is_pow2, 5);
    assert(vstd::arithmetic::power2::is_pow2(8));
    if align < 8 {
        super::lemma_pow2_divides(align, 8);
    } else {
        super::lemma_pow2_divides(8, align);
    }
    lemma_align_up_below(size, a, isize::MAX as int);
    lemma_align_up(size, a);
    if spec_align_up(size, a) >= NODE_SIZE {
        super::lemma_mod_transitive(spec_align_up(size, a), a, 8);
    }
}

} // verus!
