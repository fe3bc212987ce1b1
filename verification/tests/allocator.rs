use corekernel::pmm::{BitmapAllocator, MemRegion};

fn one_region(frames: u64) -> Vec<MemRegion> {
    vec![MemRegion { start: 0, end: frames * 4096, usable: true }]
}

#[test]
fn init_marks_bitmap_frames_used() {
    // 256 frames; the 32-byte bitmap occupies one frame, marked used
    let a = BitmapAllocator::init(&one_region(256)).unwrap();
    let (used, total) = a.stats();
    assert_eq!(total, 256);
    assert_eq!(used, 1);
}

#[test]
fn init_without_usable_region_fails() {
    let regions = vec![MemRegion { start: 0, end: 0x100000, usable: false }];
    assert!(BitmapAllocator::init(&regions).is_none());
    assert!(BitmapAllocator::init(&Vec::new()).is_none());
}

#[test]
fn alloc_skips_the_bitmap_frame() {
    let mut a = BitmapAllocator::init(&one_region(256)).unwrap();
    // frame 0 backs the bitmap, so the first free frame is frame 1
    assert_eq!(a.alloc_frame(), Some(0x1000));
}

#[test]
fn alloc_never_returns_a_frame_twice() {
    let mut a = BitmapAllocator::init(&one_region(64)).unwrap();
    let mut seen = Vec::new();
    for _ in 0..63 {
        let f = a.alloc_frame().unwrap();
        assert!(!seen.contains(&f));
        seen.push(f);
    }
    assert_eq!(a.alloc_frame(), None);
}

#[test]
fn freed_frame_can_be_returned_again() {
    let mut a = BitmapAllocator::init(&one_region(256)).unwrap();
    let f = a.alloc_frame().unwrap();
    let g = a.alloc_frame().unwrap();
    assert_ne!(f, g);
    a.free_frame(f);
    // the cursor rewinds to the freed frame
    assert_eq!(a.alloc_frame(), Some(f));
}

#[test]
fn used_count_tracks_every_operation() {
    let mut a = BitmapAllocator::init(&one_region(256)).unwrap();
    assert_eq!(a.stats().0, 1);
    let f = a.alloc_frame().unwrap();
    assert_eq!(a.stats().0, 2);
    let b = a.alloc_contiguous(4).unwrap();
    assert_eq!(a.stats().0, 6);
    a.free_frame(f);
    assert_eq!(a.stats().0, 5);
    a.free_frame(b);
    assert_eq!(a.stats().0, 4);
    // freeing an already-free frame changes nothing
    a.free_frame(f);
    assert_eq!(a.stats().0, 4);
    // freeing an out-of-range address changes nothing
    a.free_frame(0xFFFF_0000_0000);
    assert_eq!(a.stats().0, 4);
    assert_eq!(a.stats().1, 256);
}

#[test]
fn contiguous_run_is_contiguous_and_fresh() {
    let mut a = BitmapAllocator::init(&one_region(64)).unwrap();
    let f = a.alloc_frame().unwrap();
    let base = a.alloc_contiguous(8).unwrap();
    // the run does not collide with earlier allocations
    assert!(base > f || base + 8 * 4096 <= f);
    // every frame of the run is now used: allocating each again must
    // yield different frames
    for _ in 0..8 {
        let g = a.alloc_frame().unwrap();
        assert!(g < base || g >= base + 8 * 4096);
    }
}

#[test]
fn contiguous_exhaustion_returns_none() {
    let mut a = BitmapAllocator::init(&one_region(16)).unwrap();
    // 15 free frames left: no run of 16 exists
    assert_eq!(a.alloc_contiguous(16), None);
    assert_eq!(a.alloc_contiguous(0), None);
    assert!(a.alloc_contiguous(15).is_some());
    assert_eq!(a.alloc_contiguous(1), None);
}

#[test]
fn two_usable_regions_with_gap() {
    let regions = vec![
        MemRegion { start: 0, end: 0x8000, usable: true },
        MemRegion { start: 0x10000, end: 0x18000, usable: true },
    ];
    let mut a = BitmapAllocator::init(&regions).unwrap();
    let (used, total) = a.stats();
    // 24 frames tracked; the gap's 8 frames stay used, plus the bitmap frame
    assert_eq!(total, 24);
    assert_eq!(used, 9);
    // a run of 8 free frames exists only inside the second region
    let base = a.alloc_contiguous(8).unwrap();
    assert_eq!(base, 0x10000);
}
