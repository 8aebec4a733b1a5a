use task_engine::frame::PageAllocImpl;
use task_engine::memset::PageEntry;
use task_engine::table::{ExecError, ImagePage, TaskTable};
use task_engine::task::{SchedEvent, TaskState, TaskType};

fn image(pages: &[(u64, bool)]) -> Vec<ImagePage> {
    pages.iter().map(|&(vpn, writable)| ImagePage { vpn, writable }).collect()
}

#[test]
fn exec_replaces_memory_and_entry_and_keeps_identity() {
    let mut pool = PageAllocImpl::new(4);
    let mut table = TaskTable::new();
    let id = table.add_task(TaskType::MonolithicTask, None).unwrap();
    assert_eq!(table.map_page(&mut pool, id, 9, true), Some(Ok(0)));
    assert!(pool.write(0, 1, 0x77));
    assert!(table.schedule(id, SchedEvent::Spawn));
    assert!(table.try_lock(id));
    assert_eq!(
        table.exec(&mut pool, id, &image(&[(0x10, false), (0x11, true)]), 0x10_000),
        Ok(())
    );
    let t = table.tid2task(id).unwrap();
    assert_eq!(t.get_task_id(), id);
    assert_eq!(t.get_task_type(), TaskType::MonolithicTask);
    assert_eq!(t.state, TaskState::Runnable);
    assert!(t.is_locked());
    assert_eq!(t.exit_code(), None);
    assert_eq!(t.entry, 0x10_000);
    assert_eq!(t.memset.len(), 2);
    assert_eq!(
        t.memset.entry(0),
        Some(PageEntry { vpn: 0x10, ppn: 1, writable: false, cow: false })
    );
    assert_eq!(
        t.memset.entry(1),
        Some(PageEntry { vpn: 0x11, ppn: 2, writable: true, cow: false })
    );
    assert_eq!(pool.ref_count(0), 0);
    assert_eq!(pool.read(0, 1), Some(0));
    assert_eq!(pool.ref_count(1), 1);
    assert_eq!(pool.ref_count(2), 1);
    assert_eq!(pool.ref_count(3), 0);
    assert_eq!(pool.free_frames(), 2);
}

#[test]
fn exec_errors_change_nothing() {
    let mut pool = PageAllocImpl::new(2);
    let mut table = TaskTable::new();
    let id = table.add_task(TaskType::MonolithicTask, None).unwrap();
    let gone = table.add_task(TaskType::MonolithicTask, None).unwrap();
    assert!(table.exit(&mut pool, gone, 1));
    assert_eq!(table.map_page(&mut pool, id, 9, true), Some(Ok(0)));
    let two = image(&[(1, true), (2, true)]);
    assert_eq!(table.exec(&mut pool, 77, &two, 5), Err(ExecError::NoSuchTask));
    assert_eq!(table.exec(&mut pool, gone, &two, 5), Err(ExecError::TaskExited));
    assert_eq!(
        table.exec(&mut pool, id, &image(&[(1, true), (2, false), (1, false)]), 5),
        Err(ExecError::DuplicatePage)
    );
    assert_eq!(table.exec(&mut pool, id, &two, 5), Err(ExecError::OutOfFrames));
    let t = table.tid2task(id).unwrap();
    assert_eq!(t.entry, 0);
    assert_eq!(
        t.memset.entry(0),
        Some(PageEntry { vpn: 9, ppn: 0, writable: true, cow: false })
    );
    assert_eq!(pool.ref_count(0), 1);
    assert_eq!(pool.ref_count(1), 0);
    assert_eq!(pool.free_frames(), 1);
}

#[test]
fn exec_of_empty_image_gives_up_every_page() {
    let mut pool = PageAllocImpl::new(1);
    let mut table = TaskTable::new();
    let id = table.add_task(TaskType::MonolithicTask, None).unwrap();
    assert_eq!(table.map_page(&mut pool, id, 9, true), Some(Ok(0)));
    assert_eq!(table.exec(&mut pool, id, &image(&[]), 3), Ok(()));
    assert_eq!(table.tid2task(id).unwrap().memset.len(), 0);
    assert_eq!(table.tid2task(id).unwrap().entry, 3);
    assert_eq!(pool.free_frames(), 1);
}

#[test]
fn exec_after_fork_leaves_the_parent_its_pages() {
    let mut pool = PageAllocImpl::new(3);
    let mut table = TaskTable::new();
    let parent = table.add_task(TaskType::MonolithicTask, None).unwrap();
    assert_eq!(table.map_page(&mut pool, parent, 9, true), Some(Ok(0)));
    let child = table.fork(&mut pool, parent).unwrap();
    assert_eq!(pool.ref_count(0), 2);
    assert_eq!(table.exec(&mut pool, child, &image(&[(4, true)]), 0x4000), Ok(()));
    assert_eq!(pool.ref_count(0), 1);
    assert_eq!(pool.ref_count(1), 1);
    assert_eq!(
        table.tid2task(parent).unwrap().memset.entry(0),
        Some(PageEntry { vpn: 9, ppn: 0, writable: false, cow: true })
    );
    assert_eq!(table.tid2task(child).unwrap().entry, 0x4000);
    assert_eq!(table.tid2task(parent).unwrap().entry, 0);
}

#[test]
fn release_of_a_running_task_gives_up_its_pages() {
    let mut pool = PageAllocImpl::new(1);
    let mut table = TaskTable::new();
    let id = table.add_task(TaskType::MonolithicTask, None).unwrap();
    assert_eq!(table.map_page(&mut pool, id, 9, true), Some(Ok(0)));
    assert!(table.release_task(&mut pool, id));
    assert_eq!(pool.ref_count(0), 0);
    assert_eq!(table.len(), 0);
}
