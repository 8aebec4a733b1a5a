use task_engine::frame::{PageAllocImpl, PAGE_SIZE};
use task_engine::memset::{CowOutcome, MapError, MemorySet, PageEntry};

#[test]
fn new_pool_is_free_and_zero() {
    let pool = PageAllocImpl::new(3);
    assert_eq!(pool.len(), 3);
    for ppn in 0..3 {
        assert_eq!(pool.ref_count(ppn), 0);
        assert_eq!(pool.read(ppn, 0), Some(0));
        assert_eq!(pool.read(ppn, PAGE_SIZE - 1), Some(0));
    }
    assert_eq!(pool.ref_count(3), 0);
    assert_eq!(pool.read(3, 0), None);
    assert_eq!(pool.read(0, PAGE_SIZE), None);
}

#[test]
fn alloc_takes_lowest_free_frame() {
    let mut pool = PageAllocImpl::new(3);
    assert_eq!(pool.alloc_frame(), Some(0));
    assert_eq!(pool.alloc_frame(), Some(1));
    pool.dealloc(0);
    assert_eq!(pool.alloc_frame(), Some(0));
    assert_eq!(pool.alloc_frame(), Some(2));
    assert_eq!(pool.alloc_frame(), None);
    assert_eq!(pool.ref_count(0), 1);
    assert_eq!(pool.ref_count(1), 1);
    assert_eq!(pool.ref_count(2), 1);
}

#[test]
fn empty_pool_is_exhausted() {
    let mut pool = PageAllocImpl::new(0);
    assert_eq!(pool.alloc_frame(), None);
    assert_eq!(pool.len(), 0);
}

#[test]
fn dealloc_clears_on_last_reference_only() {
    let mut pool = PageAllocImpl::new(2);
    let ppn = pool.alloc_frame().unwrap();
    assert!(pool.write(ppn, 5, 0xab));
    assert!(pool.share(ppn));
    assert_eq!(pool.ref_count(ppn), 2);
    pool.dealloc(ppn);
    assert_eq!(pool.ref_count(ppn), 1);
    assert_eq!(pool.read(ppn, 5), Some(0xab));
    pool.dealloc(ppn);
    assert_eq!(pool.ref_count(ppn), 0);
    assert_eq!(pool.read(ppn, 5), Some(0));
    pool.dealloc(ppn);
    assert_eq!(pool.ref_count(ppn), 0);
    pool.dealloc(17);
    assert_eq!(pool.len(), 2);
}

#[test]
fn share_needs_a_frame_in_use() {
    let mut pool = PageAllocImpl::new(2);
    assert!(!pool.share(0));
    assert!(!pool.share(9));
    assert_eq!(pool.alloc_frame(), Some(0));
    assert!(pool.share(0));
    assert_eq!(pool.ref_count(0), 2);
}

#[test]
fn write_and_copy_frame() {
    let mut pool = PageAllocImpl::new(2);
    assert!(pool.write(0, 0, 1));
    assert!(pool.write(0, PAGE_SIZE - 1, 2));
    assert!(!pool.write(0, PAGE_SIZE, 3));
    assert!(!pool.write(2, 0, 3));
    pool.copy_frame(1, 0);
    assert_eq!(pool.read(1, 0), Some(1));
    assert_eq!(pool.read(1, PAGE_SIZE - 1), Some(2));
    assert_eq!(pool.read(1, 1), Some(0));
    assert_eq!(pool.ref_count(1), 0);
}

#[test]
fn map_page_errors() {
    let mut pool = PageAllocImpl::new(1);
    let mut mem = MemorySet::new();
    assert_eq!(mem.map_page(&mut pool, 7, true), Ok(0));
    assert_eq!(mem.map_page(&mut pool, 7, false), Err(MapError::AlreadyMapped));
    assert_eq!(mem.map_page(&mut pool, 8, false), Err(MapError::OutOfFrames));
    assert_eq!(mem.len(), 1);
    assert_eq!(
        mem.entry(0),
        Some(PageEntry { vpn: 7, ppn: 0, writable: true, cow: false })
    );
    assert_eq!(mem.entry(1), None);
    assert_eq!(mem.find(7), Some(0));
    assert_eq!(mem.find(8), None);
}

#[test]
fn translate_splits_page_and_offset() {
    let mut pool = PageAllocImpl::new(4);
    let mut mem = MemorySet::new();
    assert_eq!(pool.alloc_frame(), Some(0));
    assert_eq!(mem.map_page(&mut pool, 3, false), Ok(1));
    assert_eq!(mem.translate(3 * 4096), Some((1, 0)));
    assert_eq!(mem.translate(3 * 4096 + 4095), Some((1, 4095)));
    assert_eq!(mem.translate(4 * 4096), None);
    assert_eq!(mem.translate(3 * 4096 - 1), None);
}

#[test]
fn fork_marks_writable_pages_cow_and_counts_references() {
    let mut pool = PageAllocImpl::new(4);
    let mut parent = MemorySet::new();
    assert_eq!(parent.map_page(&mut pool, 1, true), Ok(0));
    assert_eq!(parent.map_page(&mut pool, 2, false), Ok(1));
    let child = parent.fork(&mut pool).unwrap();
    let shared_rw = PageEntry { vpn: 1, ppn: 0, writable: false, cow: true };
    let shared_ro = PageEntry { vpn: 2, ppn: 1, writable: false, cow: false };
    assert_eq!(parent.entry(0), Some(shared_rw));
    assert_eq!(child.entry(0), Some(shared_rw));
    assert_eq!(parent.entry(1), Some(shared_ro));
    assert_eq!(child.entry(1), Some(shared_ro));
    assert_eq!(child.len(), 2);
    assert_eq!(pool.ref_count(0), 2);
    assert_eq!(pool.ref_count(1), 2);
    assert_eq!(pool.ref_count(2), 0);
    let mut parent = parent;
    let grandchild = parent.fork(&mut pool).unwrap();
    assert_eq!(grandchild.entry(0), Some(shared_rw));
    assert_eq!(pool.ref_count(0), 3);
}

#[test]
fn cow_fault_with_one_reference_promotes_in_place() {
    let mut pool = PageAllocImpl::new(4);
    let mut parent = MemorySet::new();
    assert_eq!(parent.map_page(&mut pool, 1, true), Ok(0));
    assert!(pool.write(0, 9, 0x5a));
    let mut child = parent.fork(&mut pool).unwrap();
    child.release(&mut pool);
    assert_eq!(child.len(), 0);
    assert_eq!(pool.ref_count(0), 1);
    assert_eq!(parent.user_cow_int(&mut pool, 4096 + 100), CowOutcome::Promoted);
    assert_eq!(
        parent.entry(0),
        Some(PageEntry { vpn: 1, ppn: 0, writable: true, cow: false })
    );
    assert_eq!(pool.ref_count(0), 1);
    assert_eq!(pool.ref_count(1), 0);
    assert_eq!(pool.read(0, 9), Some(0x5a));
}

#[test]
fn cow_fault_on_shared_frame_copies_once() {
    let mut pool = PageAllocImpl::new(4);
    let mut parent = MemorySet::new();
    assert_eq!(parent.map_page(&mut pool, 1, true), Ok(0));
    assert!(pool.write(0, 0, 0x11));
    assert!(pool.write(0, 4095, 0x22));
    let mut child = parent.fork(&mut pool).unwrap();
    assert_eq!(child.user_cow_int(&mut pool, 4096), CowOutcome::Copied { frame: 1 });
    assert_eq!(
        child.entry(0),
        Some(PageEntry { vpn: 1, ppn: 1, writable: true, cow: false })
    );
    assert_eq!(
        parent.entry(0),
        Some(PageEntry { vpn: 1, ppn: 0, writable: false, cow: true })
    );
    assert_eq!(pool.ref_count(0), 1);
    assert_eq!(pool.ref_count(1), 1);
    assert_eq!(pool.ref_count(2), 0);
    assert_eq!(pool.ref_count(3), 0);
    for off in 0..PAGE_SIZE {
        assert_eq!(pool.read(1, off), pool.read(0, off));
    }
    assert_eq!(pool.read(1, 0), Some(0x11));
    assert_eq!(pool.read(1, 4095), Some(0x22));
    assert_eq!(parent.user_cow_int(&mut pool, 4096), CowOutcome::Promoted);
    assert_eq!(pool.ref_count(0), 1);
}

#[test]
fn cow_fault_other_outcomes() {
    let mut pool = PageAllocImpl::new(2);
    let mut parent = MemorySet::new();
    assert_eq!(parent.map_page(&mut pool, 1, true), Ok(0));
    assert_eq!(parent.map_page(&mut pool, 2, false), Ok(1));
    assert_eq!(parent.user_cow_int(&mut pool, 4096), CowOutcome::NotCow);
    assert_eq!(parent.user_cow_int(&mut pool, 0), CowOutcome::Unmapped);
    let mut child = parent.fork(&mut pool).unwrap();
    assert_eq!(child.user_cow_int(&mut pool, 4096), CowOutcome::OutOfFrames);
    assert_eq!(child.user_cow_int(&mut pool, 2 * 4096), CowOutcome::NotCow);
    assert_eq!(
        child.entry(0),
        Some(PageEntry { vpn: 1, ppn: 0, writable: false, cow: true })
    );
    assert_eq!(pool.ref_count(0), 2);
}

#[test]
fn release_frees_sole_frames_and_keeps_shared_ones() {
    let mut pool = PageAllocImpl::new(3);
    let mut parent = MemorySet::new();
    assert_eq!(parent.map_page(&mut pool, 1, true), Ok(0));
    assert!(pool.write(0, 3, 9));
    let mut child = parent.fork(&mut pool).unwrap();
    assert_eq!(child.map_page(&mut pool, 5, true), Ok(1));
    assert!(pool.write(1, 3, 8));
    child.release(&mut pool);
    assert_eq!(child.len(), 0);
    assert_eq!(pool.ref_count(0), 1);
    assert_eq!(pool.ref_count(1), 0);
    assert_eq!(pool.read(0, 3), Some(9));
    assert_eq!(pool.read(1, 3), Some(0));
}
