use kernel::allocator::align_up;
use kernel::allocator::linked_list::{LinkedListAllocator, RegionNode};

const BASE: usize = 0x1000;

fn heap(size: usize) -> LinkedListAllocator {
    let mut a = LinkedListAllocator::new();
    a.init(BASE, size);
    a
}

#[test]
fn align_up_rounds_to_next_multiple() {
    assert_eq!(align_up(13, 8), 16);
    assert_eq!(align_up(16, 8), 16);
    assert_eq!(align_up(0, 4096), 0);
    assert_eq!(align_up(1, 4096), 4096);
}

#[test]
fn region_node_bounds() {
    let r = RegionNode::new(0x2000, 48);
    assert_eq!(r.start_addr(), 0x2000);
    assert_eq!(r.end_addr(), 0x2030);
}

#[test]
fn linked_list_empty_allocator_fails() {
    let mut a = LinkedListAllocator::new();
    assert_eq!(a.allocate(8, 8), None);
}

#[test]
fn linked_list_first_block_at_heap_start() {
    let mut a = heap(1024);
    assert_eq!(a.allocate(8, 8), Some(BASE));
}

#[test]
fn linked_list_small_request_takes_a_header() {
    let mut a = heap(1024);
    assert_eq!(a.allocate(1, 1), Some(BASE));
    assert_eq!(a.allocate(1, 1), Some(BASE + 16));
    assert_eq!(a.allocate(20, 4), Some(BASE + 32));
    assert_eq!(a.allocate(8, 8), Some(BASE + 56));
}

#[test]
fn linked_list_splitting_leaves_usable_tail() {
    let mut a = heap(256);
    let b1 = a.allocate(64, 8).unwrap();
    let b2 = a.allocate(64, 8).unwrap();
    assert_eq!(b1, BASE);
    assert_eq!(b2, BASE + 64);
    let b3 = a.allocate(100, 8).unwrap();
    assert_eq!(b3, BASE + 128);
    assert_eq!(a.allocate(32, 8), None);
}

#[test]
fn linked_list_refuses_sliver_tail() {
    let mut a = heap(64);
    assert_eq!(a.allocate(56, 8), None);
    assert_eq!(a.allocate(48, 8), Some(BASE));
}

#[test]
fn linked_list_round_trip_keeps_capacity() {
    let mut a = heap(1024);
    for _ in 0..1000 {
        let p = a.allocate(40, 8).unwrap();
        assert_eq!(p, BASE);
        a.deallocate(p, 40, 8);
    }
    let first = a.allocate(40, 8).unwrap();
    let rest = a.allocate(1024 - 40, 8).unwrap();
    assert_eq!(first, BASE);
    assert_eq!(rest, BASE + 40);
}

#[test]
fn linked_list_alignment() {
    let mut a = heap(16384);
    for align in [1usize, 2, 4, 8, 16, 32, 64, 128, 256, 512, 1024, 2048] {
        let p = a.allocate(24, align).unwrap();
        assert_eq!(p % align, 0);
    }
}

#[test]
fn linked_list_no_overlap() {
    let mut a = heap(4096);
    let mut blocks: Vec<(usize, usize)> = Vec::new();
    for (size, align) in [(8usize, 8usize), (100, 4), (16, 64), (300, 8), (1, 1), (64, 32)] {
        let p = a.allocate(size, align).unwrap();
        blocks.push((p, size));
    }
    for i in 0..blocks.len() {
        for j in 0..blocks.len() {
            if i != j {
                let (p, s) = blocks[i];
                let (q, t) = blocks[j];
                assert!(p + s <= q || q + t <= p);
            }
        }
    }
}

#[test]
fn linked_list_too_large_fails_and_keeps_heap() {
    let mut a = heap(1024);
    assert_eq!(a.allocate(2048, 8), None);
    assert_eq!(a.allocate(1024, 8), Some(BASE));
}

#[test]
fn linked_list_does_not_merge_neighbours() {
    let mut a = heap(64);
    let p = a.allocate(16, 8).unwrap();
    let q = a.allocate(16, 8).unwrap();
    a.deallocate(p, 16, 8);
    a.deallocate(q, 16, 8);
    assert_eq!(a.allocate(64, 8), None);
    assert_eq!(a.allocate(32, 8), Some(BASE + 32));
    assert_eq!(a.allocate(16, 8), Some(q));
    assert_eq!(a.allocate(16, 8), Some(p));
}
