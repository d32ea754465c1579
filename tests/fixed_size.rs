use kernel::allocator::fixed_size::FixedSizeBlockAllocator;
use kernel::allocator::HEAP_SIZE;

const BASE: usize = 0x1000;

fn heap() -> FixedSizeBlockAllocator {
    let mut a = FixedSizeBlockAllocator::new();
    a.init(BASE, HEAP_SIZE);
    a
}

#[test]
fn fixed_empty_allocator_fails() {
    let mut a = FixedSizeBlockAllocator::new();
    assert_eq!(a.allocate(8, 8), None);
    assert_eq!(a.allocate(4096, 8), None);
}

#[test]
fn fixed_reuse_is_lifo() {
    let mut a = heap();
    let b1 = a.allocate(8, 8).unwrap();
    let b2 = a.allocate(8, 8).unwrap();
    assert_eq!(b1, BASE);
    assert_eq!(b2, BASE + 16);
    a.deallocate(b1, 8, 8);
    a.deallocate(b2, 8, 8);
    assert_eq!(a.allocate(8, 8), Some(b2));
    assert_eq!(a.allocate(8, 8), Some(b1));
}

#[test]
fn fixed_request_rounds_up_to_class() {
    let mut a = heap();
    let p = a.allocate(20, 4).unwrap();
    let q = a.allocate(20, 4).unwrap();
    assert_eq!(p, BASE);
    assert_eq!(q, BASE + 32);
    assert_eq!(p % 32, 0);
    assert_eq!(q % 32, 0);
}

#[test]
fn fixed_classes_are_separate() {
    let mut a = heap();
    let small = a.allocate(8, 8).unwrap();
    a.deallocate(small, 8, 8);
    let other = a.allocate(64, 8).unwrap();
    assert_ne!(other, small);
    assert_eq!(a.allocate(8, 8), Some(small));
}

#[test]
fn fixed_large_request_uses_fallback() {
    let mut a = heap();
    let p = a.allocate(4096, 8).unwrap();
    assert_eq!(p, BASE);
    a.deallocate(p, 4096, 8);
    assert_eq!(a.allocate(4096, 8), Some(p));
}

#[test]
fn fixed_too_large_fails_and_keeps_heap() {
    let mut a = heap();
    assert_eq!(a.allocate(HEAP_SIZE + 1, 8), None);
    assert_eq!(a.allocate(HEAP_SIZE, 8), Some(BASE));
}

#[test]
fn fixed_alignment() {
    let mut a = heap();
    for align in [1usize, 2, 4, 8, 16, 32, 64, 128, 256, 512, 1024, 2048, 4096] {
        let p = a.allocate(8, align).unwrap();
        assert_eq!(p % align, 0);
    }
}

#[test]
fn fixed_round_trip_keeps_capacity() {
    let mut a = heap();
    for _ in 0..1000 {
        let p = a.allocate(100, 8).unwrap();
        a.deallocate(p, 100, 8);
        let q = a.allocate(3000, 8).unwrap();
        a.deallocate(q, 3000, 8);
    }
    let p = a.allocate(100, 8).unwrap();
    let q = a.allocate(3000, 8).unwrap();
    assert_eq!(p, BASE);
    assert_eq!(q, BASE + 128);
}

#[test]
fn fixed_end_to_end_heap() {
    let heap_start: usize = 0x4444_4444_0000;
    let mut a = FixedSizeBlockAllocator::new();
    a.init(heap_start, HEAP_SIZE);

    let v1 = a.allocate(4, 4).unwrap();
    let v2 = a.allocate(4, 4).unwrap();
    assert_ne!(v1, v2);
    assert!(v1 + 4 <= v2 || v2 + 4 <= v1);
    assert!(v1 >= heap_start && v1 + 4 <= heap_start + HEAP_SIZE);
    assert!(v2 >= heap_start && v2 + 4 <= heap_start + HEAP_SIZE);

    let mut values: Vec<u64> = Vec::new();
    let mut buffer: Option<(usize, usize)> = None;
    for i in 0..100u64 {
        let capacity = buffer.map(|(_, c)| c).unwrap_or(0);
        if values.len() == capacity {
            let new_capacity = if capacity == 0 { 4 } else { capacity * 2 };
            let p = a.allocate(new_capacity * 8, 8).unwrap();
            if let Some((old, c)) = buffer {
                a.deallocate(old, c * 8, 8);
            }
            buffer = Some((p, new_capacity));
        }
        values.push(i);
    }
    assert_eq!(values.iter().sum::<u64>(), 4950);

    for i in 0..HEAP_SIZE {
        let p = a.allocate(8, 8).unwrap();
        assert!(p >= heap_start && p + 8 <= heap_start + HEAP_SIZE, "iteration {}", i);
        a.deallocate(p, 8, 8);
    }
}

#[test]
fn fixed_no_overlap() {
    let mut a = heap();
    let requests = [(8usize, 8usize), (20, 4), (64, 64), (3000, 8), (1, 1), (2048, 2048), (100, 16)];
    let mut blocks: Vec<(usize, usize)> = Vec::new();
    for (size, align) in requests {
        let p = a.allocate(size, align).unwrap();
        blocks.push((p, size));
    }
    let (p, s) = blocks[0];
    a.deallocate(p, s, 8);
    let q = a.allocate(8, 8).unwrap();
    assert_eq!(q, p);
    for i in 0..blocks.len() {
        for j in 0..blocks.len() {
            if i != j {
                let (p, s) = blocks[i];
                let (q, t) = blocks[j];
                assert!(p + s <= q || q + t <= p);
            }
        }
    }
}
