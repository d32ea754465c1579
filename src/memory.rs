//! Physical frame allocators.

use vstd::prelude::*;

verus! {

/// Size of a physical frame in bytes.
pub const FRAME_SIZE: u64 = 4096;

/// A range `[start, end)` of physical memory, and whether the kernel may use it.
#[derive(Clone, Copy, Debug, PartialEq, Eq, Structural)]
pub struct PhysRegion {
    pub start: u64,
    pub end: u64,
    pub usable: bool,
}

/// Number of frame-sized steps from `start` that stay below `end`.
pub open spec fn frame_count(r: PhysRegion) -> int {
    if r.start < r.end {
        (r.end - r.start + FRAME_SIZE - 1) / FRAME_SIZE as int
    } else {
        0
    }
}

/// The addresses that a usable region offers, one frame apart from its start; none for a
/// region that is not usable.
pub open spec fn region_frames(r: PhysRegion) -> Seq<u64> {
    if r.usable {
        Seq::new(frame_count(r) as nat, |i: int| (r.start + i * FRAME_SIZE) as u64)
    } else {
        Seq::empty()
    }
}

/// The addresses that the regions offer, region after region.
pub open spec fn usable_frames(rs: Seq<PhysRegion>) -> Seq<u64>
    decreases rs.len(),
{
    if rs.len() == 0 {
        Seq::empty()
    } else {
        region_frames(rs[0]) + usable_frames(rs.drop_first())
    }
}

/// A frame allocator that hands out the frames of the usable regions of a memory map, one
/// after the other, and never the same one twice.
pub struct BootInfoFrameAllocator {
    regions: Vec<PhysRegion>,
    next: usize,
}

impl BootInfoFrameAllocator {
    /// The regions of the memory map.
    pub closed spec fn regions(&self) -> Seq<PhysRegion> {
        self.regions@
    }

    /// How many frames have been asked for.
    pub closed spec fn next(&self) -> int {
        self.next as int
    }

    /// The caller guarantees that the regions marked usable are really unused.
    pub fn new(regions: Vec<PhysRegion>) -> (r: Self)
        ensures
            r.regions() == regions@,
            r.next() == 0,
    {
        BootInfoFrameAllocator { regions, next: 0 }
    }

    /// The next usable frame: the frame after those handed out before, or `None` when the
    /// usable regions are used up.
    pub fn allocate_frame(&mut self) -> (r: Option<u64>)
        ensures
            final(self).regions() == old(self).regions(),
            r == if old(self).next() < usable_frames(old(self).regions()).len() {
                Some(usable_frames(old(self).regions())[old(self).next()])
            } else {
                None::<u64>
            },
            final(self).next() == if old(self).next() < usize::MAX {
                old(self).next() + 1
            } else {
                old(self).next()
            },
    {
        let frame = self.nth_usable_frame(self.next);
        if self.next < usize::MAX {
            self.next = self.next + 1;
        }
        frame
    }

    /// The `n`-th usable frame, counted from zero.
    fn nth_usable_frame(&self, n: usize) -> (r: Option<u64>)
        ensures
            r == if n < usable_frames(self.regions()).len() {
                Some(usable_frames(self.regions())[n as int])
            } else {
                None::<u64>
            },
    {
        let ghost all = usable_frames(self.regions@);
        let mut left: u64 = n as u64;
        let mut i: usize = 0;
        assert(self.regions@.skip(0) =~= self.regions@);
        while i < self.regions.len()
            invariant
                0 <= i <= self.regions@.len(),
                all == usable_frames(self.regions@),
                n - left == all.len() - usable_frames(self.regions@.skip(i as int)).len(),
                left <= n,
                forall|j: int|
                    0 <= j < usable_frames(self.regions@.skip(i as int)).len() ==> all[(n - left)
                        + j] == #[trigger] usable_frames(self.regions@.skip(i as int))[j],
            decreases self.regions@.len() - i,
        {
            let region = self.regions[i];
            let ghost left0 = left;
            let ghost cur = usable_frames(self.regions@.skip(i as int));
            proof {
                lemma_frames_step(self.regions@, i as int);
            }
            if region.usable && region.start < region.end {
                let span = region.end - region.start;
                let extra: u64 = if span % FRAME_SIZE != 0 {
                    1
                } else {
                    0
                };
                let count = span / FRAME_SIZE + extra;
                assert(count == frame_count(region));
                if left < count {
                    assert(left * FRAME_SIZE < span);
                    let frame = region.start + left * FRAME_SIZE;
                    proof {
                        let rest = usable_frames(self.regions@.skip(i as int));
                        assert(rest[left as int] == region_frames(region)[left as int]);
                    }
                    return Some(frame);
                }
                left = left - count;
            }
            proof {
                let nxt = usable_frames(self.regions@.skip(i + 1));
                let k = region_frames(region).len() as int;
                assert(left0 - left == k);
                assert forall|j: int| 0 <= j < nxt.len() implies all[(n - left) + j] == #[trigger] nxt[j] by {
                    assert(cur[k + j] == nxt[j]);
                    assert(all[(n - left0) + (k + j)] == cur[k + j]);
                }
            }
            i = i + 1;
        }
        proof {
            assert(self.regions@.skip(i as int) =~= Seq::<PhysRegion>::empty());
        }
        None
    }
}

/// The frames from region `i` on are those of region `i` followed by those from `i + 1` on.
proof fn lemma_frames_step(rs: Seq<PhysRegion>, i: int)
    requires
        0 <= i < rs.len(),
    ensures
        usable_frames(rs.skip(i)) == region_frames(rs[i]) + usable_frames(rs.skip(i + 1)),
        region_frames(rs[i]).len() == (if rs[i].usable {
            frame_count(rs[i])
        } else {
            0
        }),
{
    assert(rs.skip(i).drop_first() =~= rs.skip(i + 1));
    assert(rs.skip(i)[0] == rs[i]);
}

/// A frame allocator that has no frame to give: every request fails.
pub struct EmptyFrameAllocator;

impl EmptyFrameAllocator {
    /// Start address of a free physical frame; there never is one.
    pub fn allocate_frame(&mut self) -> (r: Option<u64>)
        ensures
            r is None,
    {
        None
    }
}

} // verus!
