use athera::constants::{align, ilog2_ceil};
use athera::mem::addr::{PhysicalAddr, VirtualAddr};
use athera::mem::allocators::{alloc_frame, alloc_frames, dealloc_frame};
use athera::mem::frame::{block_size_for, FrameAllocator, FRAME_SIZE};
use athera::mem::list::{FreeList, IntrusiveList};
use athera::mem::page_table::{identity_map, MemError, PageTableManager};
use athera::mem::slub::{layout_order, Cache, Caches, SlowCaches};

fn allocator() -> FrameAllocator {
    FrameAllocator::new(0x8000_0000, 0x8100_0000)
}

#[test]
fn block_sizes_round_up_to_powers_of_two_pages() {
    assert_eq!(block_size_for(0), Some(4096));
    assert_eq!(block_size_for(1), Some(4096));
    assert_eq!(block_size_for(4096), Some(4096));
    assert_eq!(block_size_for(4097), Some(8192));
    assert_eq!(block_size_for(3 * 4096), Some(4 * 4096));
    assert_eq!(block_size_for(0x100_0000_0001), None);
}

#[test]
fn frames_are_distinct_and_reused_after_release() {
    let mut frames = allocator();
    let a = alloc_frame(None, &mut frames).unwrap();
    let b = alloc_frame(Some(8192), &mut frames).unwrap();
    assert_eq!(a.size, FRAME_SIZE);
    assert_eq!(b.size, 8192);
    assert_ne!(a.start, b.start);
    assert_eq!(a.start % 4096, 0);
    assert_eq!(b.start % 8192, 0);
    dealloc_frame(a, &mut frames);
    let c = alloc_frame(Some(100), &mut frames).unwrap();
    assert_eq!(c.start, a.start);
}

#[test]
fn allocator_runs_out() {
    let mut frames = FrameAllocator::new(0x8000_0000, 0x8000_2000);
    assert!(alloc_frame(None, &mut frames).is_some());
    assert!(alloc_frame(None, &mut frames).is_some());
    assert!(alloc_frame(None, &mut frames).is_none());
}

#[test]
fn single_pages_last_exactly_as_long_as_the_range() {
    let mut frames = FrameAllocator::new(0x8000_0000, 0x8000_3000);
    let a = alloc_frame(None, &mut frames).unwrap();
    assert!(alloc_frame(None, &mut frames).is_some());
    assert!(alloc_frame(None, &mut frames).is_some());
    assert!(alloc_frame(None, &mut frames).is_none());
    dealloc_frame(a, &mut frames);
    assert_eq!(alloc_frame(None, &mut frames).map(|f| f.start), Some(a.start));
    assert!(alloc_frame(None, &mut frames).is_none());
}

#[test]
fn identity_map_needs_table_frames_only() {
    let mut frames = FrameAllocator::new(0x8000_0000, 0x8000_1000);
    let mut pt = PageTableManager::new(&mut frames).unwrap();
    assert_eq!(identity_map(&mut pt, &mut frames, 0x8020_0000, 0x8020_2000, None, None, None), Err(MemError::OutOfMemory));
    let mut frames = FrameAllocator::new(0x8000_0000, 0x8000_3000);
    let mut pt = PageTableManager::new(&mut frames).unwrap();
    assert!(identity_map(&mut pt, &mut frames, 0x8020_0000, 0x8020_2000, None, None, None).is_ok());
}

#[test]
fn alloc_frames_covers_the_request() {
    let mut frames = allocator();
    let v = alloc_frames(3 * 4096 + 1, &mut frames).unwrap();
    let total: u64 = v.iter().map(|f| f.size).sum();
    assert!(total >= 3 * 4096 + 1);
    assert!(alloc_frames(0, &mut frames).unwrap().is_empty());
}

#[test]
fn sv39_address_fields() {
    let va = VirtualAddr::from_u64(0xc0a0_7234);
    assert_eq!(va.page_offset(), 0x234);
    assert_eq!(va.vpn0(), 7);
    assert_eq!(va.vpn1(), 5);
    assert_eq!(va.vpn2(), 3);
    let pa = PhysicalAddr::from_ppn(0x80200);
    assert_eq!(pa.as_u64(), 0x8020_0000);
    assert_eq!(pa.ppn(), 0x80200);
    assert_eq!(pa.page_offset(), 0);
}

#[test]
fn ilog2_and_align() {
    assert_eq!(ilog2_ceil(1), 0);
    assert_eq!(ilog2_ceil(2), 1);
    assert_eq!(ilog2_ceil(3), 2);
    assert_eq!(ilog2_ceil(4096), 12);
    assert_eq!(ilog2_ceil(4097), 13);
    assert_eq!(align(13, 8), 16);
    assert_eq!(align(16, 8), 16);
}

#[test]
fn lists_pop_what_was_pushed_last() {
    let mut l = IntrusiveList::new();
    assert!(l.is_empty());
    l.push(0x1000);
    l.push(0x2000);
    assert_eq!(l.len(), 2);
    assert!(l.remove(0x1000));
    assert!(!l.remove(0x3000));
    assert_eq!(l.pop(), Some(0x2000));
    assert_eq!(l.pop(), None);

    let mut f = FreeList::new();
    f.push(7);
    f.push(9);
    assert_eq!(f.pop(), Some(9));
    assert_eq!(f.pop(), Some(7));
    assert!(f.is_empty());
}

#[test]
fn slub_layout_orders() {
    assert_eq!(layout_order(1, 1), 4);
    assert_eq!(layout_order(16, 8), 4);
    assert_eq!(layout_order(17, 8), 5);
    assert_eq!(layout_order(100, 64), 7);
}

#[test]
fn cache_hands_out_distinct_objects_and_takes_them_back() {
    let mut frames = allocator();
    let mut cache = Cache::new(64);
    let a = cache.allocate(&mut frames).unwrap();
    let b = cache.allocate(&mut frames).unwrap();
    assert_ne!(a, b);
    assert!(cache.dealloc(a, &mut frames));
    let c = cache.allocate(&mut frames).unwrap();
    assert_eq!(c, a);
}

#[test]
fn slow_caches_route_by_size() {
    let mut frames = allocator();
    let mut caches = SlowCaches::new();
    let p = caches.allocate(24, 8, &mut frames).unwrap();
    let q = caches.allocate(24, 8, &mut frames).unwrap();
    assert_ne!(p, q);
    assert!(caches.dealloc(p, 24, 8, &mut frames));
    let big = caches.allocate(1 << 13, 8, &mut frames).unwrap();
    assert_eq!(big % 4096, 0);
    assert!(caches.dealloc(big, 1 << 13, 8, &mut frames));
}

#[test]
fn per_cpu_caches() {
    let mut frames = allocator();
    let mut caches = Caches::new();
    let p = caches.allocate(0, 32, 8, &mut frames).unwrap();
    let q = caches.allocate(1, 32, 8, &mut frames).unwrap();
    assert_ne!(p, q);
    caches.dealloc(0, p, 32, 8, &mut frames);
    let snap = caches.snapshot();
    assert!(!snap.is_empty());
}
