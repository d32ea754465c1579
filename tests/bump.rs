use kernel::allocator::bump::BumpAllocator;
use kernel::allocator::HEAP_SIZE;

const BASE: usize = 0x1000;

fn heap() -> BumpAllocator {
    let mut a = BumpAllocator::new();
    a.init(BASE, HEAP_SIZE);
    a
}

#[test]
fn bump_empty_allocator_fails() {
    let mut a = BumpAllocator::new();
    assert_eq!(a.allocate(8, 8), None);
}

#[test]
fn bump_many_cycles_never_fail() {
    let mut a = heap();
    for _ in 0..100_000 {
        let p = a.allocate(8, 8).unwrap();
        assert_eq!(p, BASE);
        a.deallocate(p, 8, 8);
    }
}

#[test]
fn bump_reclaims_only_when_all_freed() {
    let mut a = heap();
    let p = a.allocate(16, 8).unwrap();
    let q = a.allocate(16, 8).unwrap();
    assert_eq!(p, BASE);
    assert_eq!(q, BASE + 16);
    a.deallocate(p, 16, 8);
    let r = a.allocate(16, 8).unwrap();
    assert_eq!(r, BASE + 32);
    a.deallocate(q, 16, 8);
    a.deallocate(r, 16, 8);
    assert_eq!(a.allocate(16, 8), Some(BASE));
}

#[test]
fn bump_alignment() {
    let mut a = heap();
    assert_eq!(a.allocate(1, 1), Some(BASE));
    assert_eq!(a.allocate(8, 64), Some(BASE + 64));
    assert_eq!(a.allocate(1, 1), Some(BASE + 72));
    assert_eq!(a.allocate(4, 4), Some(BASE + 76));
    for align in [1usize, 2, 4, 8, 16, 32, 64, 128, 256, 512, 1024, 2048] {
        let p = a.allocate(3, align).unwrap();
        assert_eq!(p % align, 0);
    }
}

#[test]
fn bump_too_large_fails_and_keeps_heap() {
    let mut a = heap();
    assert_eq!(a.allocate(HEAP_SIZE + 1, 1), None);
    assert_eq!(a.allocate(HEAP_SIZE, 1), Some(BASE));
    assert_eq!(a.allocate(1, 1), None);
}

#[test]
fn bump_full_cycles_of_several_blocks() {
    let mut a = heap();
    for _ in 0..100 {
        let sizes = [1000usize, 20_000, 30_000, 51_400];
        let mut blocks = Vec::new();
        for s in sizes {
            blocks.push(a.allocate(s, 8).unwrap());
        }
        assert_eq!(blocks[0], BASE);
        for (p, s) in blocks.into_iter().zip(sizes) {
            a.deallocate(p, s, 8);
        }
    }
}
