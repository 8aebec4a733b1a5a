use task_engine::frame::PageAllocImpl;
use task_engine::memset::{CowOutcome, ForkError, PageEntry};
use task_engine::table::{TaskTable, WaitStep};
use task_engine::task::{SchedEvent, TaskState, TaskType, UserTask, KILLED_EXIT_CODE};

#[test]
fn new_task_is_created_and_running_free() {
    let t = UserTask::new(4, TaskType::KernelThread, Some(1));
    assert_eq!(t.get_task_id(), 4);
    assert_eq!(t.get_task_type(), TaskType::KernelThread);
    assert_eq!(t.parent, Some(1));
    assert_eq!(t.exit_code(), None);
    assert_eq!(t.state, TaskState::Created);
    assert!(!t.is_locked());
    assert_eq!(t.memset.len(), 0);
}

#[test]
fn exit_keeps_the_first_code() {
    let mut pool = PageAllocImpl::new(1);
    let mut t = UserTask::new(0, TaskType::MonolithicTask, None);
    t.exit(&mut pool, 3);
    t.exit(&mut pool, 9);
    assert_eq!(t.exit_code(), Some(3));
    assert_eq!(t.state, TaskState::Exited);
}

#[test]
fn exit_in_table_keeps_the_first_code_and_frees_pages() {
    let mut pool = PageAllocImpl::new(2);
    let mut table = TaskTable::new();
    let id = table.add_task(TaskType::MonolithicTask, None).unwrap();
    assert_eq!(table.map_page(&mut pool, id, 1, true), Some(Ok(0)));
    assert!(table.exit(&mut pool, id, 1));
    assert_eq!(pool.ref_count(0), 0);
    assert!(table.exit(&mut pool, id, 2));
    assert_eq!(table.exit_code(id), Some(1));
    assert!(!table.exit(&mut pool, id + 1, 2));
    assert_eq!(table.map_page(&mut pool, id, 1, true), None);
    assert_eq!(table.tid2task(id).unwrap().memset.len(), 0);
}

#[test]
fn lifecycle_transitions() {
    let mut t = UserTask::new(0, TaskType::MonolithicTask, None);
    assert!(!t.transition(SchedEvent::Resume));
    assert!(!t.transition(SchedEvent::Yield));
    assert!(t.transition(SchedEvent::Spawn));
    assert_eq!(t.state, TaskState::Runnable);
    assert!(!t.transition(SchedEvent::Spawn));
    assert!(t.transition(SchedEvent::Resume));
    assert_eq!(t.state, TaskState::Running);
    assert!(t.transition(SchedEvent::Yield));
    assert_eq!(t.state, TaskState::Suspended);
    assert!(t.transition(SchedEvent::Resume));
    assert_eq!(t.state, TaskState::Running);
    let mut pool = PageAllocImpl::new(0);
    t.exit(&mut pool, 0);
    assert!(!t.transition(SchedEvent::Resume));
    assert!(!t.transition(SchedEvent::Spawn));
    assert!(!t.transition(SchedEvent::Yield));
    assert_eq!(t.state, TaskState::Exited);
}

#[test]
fn lock_and_force_unlock() {
    let mut t = UserTask::new(0, TaskType::MonolithicTask, None);
    assert!(t.try_lock());
    assert!(!t.try_lock());
    assert!(t.is_locked());
    t.force_unlock();
    assert!(!t.is_locked());
    t.force_unlock();
    assert!(!t.is_locked());
    assert!(!t.unlock());
    assert!(t.try_lock());
    assert!(t.unlock());
    assert!(!t.is_locked());
}

#[test]
fn lock_and_unlock_in_table() {
    let mut table = TaskTable::new();
    let id = table.add_task(TaskType::MonolithicTask, None).unwrap();
    assert!(!table.unlock(id));
    assert!(table.try_lock(id));
    assert!(!table.try_lock(id));
    assert!(table.unlock(id));
    assert!(!table.tid2task(id).unwrap().is_locked());
    assert!(!table.try_lock(id + 1));
    assert!(!table.unlock(id + 1));
}

#[test]
fn task_ids_are_unique_and_never_reused() {
    let mut pool = PageAllocImpl::new(2);
    let mut table = TaskTable::new();
    let a = table.add_task(TaskType::MonolithicTask, None).unwrap();
    let b = table.add_task(TaskType::BlankKernel, None).unwrap();
    let c = table.fork(&mut pool, a).unwrap();
    assert_eq!((a, b, c), (0, 1, 2));
    assert!(table.exit(&mut pool, b, 0));
    assert!(table.release_task(&mut pool, b));
    let d = table.add_task(TaskType::MonolithicTask, None).unwrap();
    assert_eq!(d, 3);
    let mut seen = Vec::new();
    for id in 0..5 {
        if let Some(t) = table.tid2task(id) {
            assert_eq!(t.get_task_id(), id);
            seen.push(id);
        }
    }
    assert_eq!(seen, vec![0, 2, 3]);
    assert_eq!(table.len(), 3);
    assert_eq!(table.position(2), Some(1));
    assert_eq!(table.position(1), None);
}

#[test]
fn fork_then_child_exits_with_seven() {
    let mut pool = PageAllocImpl::new(4);
    let mut table = TaskTable::new();
    let parent = table.add_task(TaskType::MonolithicTask, None).unwrap();
    assert_eq!(table.map_page(&mut pool, parent, 1, true), Some(Ok(0)));
    let child = table.fork(&mut pool, parent).unwrap();
    assert_eq!(table.tid2task(child).unwrap().parent, Some(parent));
    assert_eq!(table.tid2task(child).unwrap().get_task_type(), TaskType::MonolithicTask);
    assert_eq!(table.tid2task(child).unwrap().state, TaskState::Created);
    assert_eq!(pool.ref_count(0), 2);
    assert_eq!(table.exit_code(child), None);
    assert!(table.exit(&mut pool, child, 7));
    assert_eq!(table.exit_code(child), Some(7));
    assert_eq!(pool.ref_count(0), 1);
    assert!(table.tid2task(child).is_some());
    assert!(table.release_task(&mut pool, child));
    assert!(table.tid2task(child).is_none());
    assert!(!table.release_task(&mut pool, child));
    assert_eq!(table.exit_code(child), None);
    assert_eq!(table.user_cow_int(&mut pool, parent, 4096), Some(CowOutcome::Promoted));
}

#[test]
fn wait_step_yields_until_exit_then_reaps() {
    let mut pool = PageAllocImpl::new(1);
    let mut table = TaskTable::new();
    let id = table.add_task(TaskType::MonolithicTask, None).unwrap();
    assert_eq!(table.wait_step(&mut pool, id), WaitStep::Yield);
    assert_eq!(table.wait_step(&mut pool, id), WaitStep::Yield);
    assert!(table.exit(&mut pool, id, 42));
    assert_eq!(table.wait_step(&mut pool, id), WaitStep::Reaped(42));
    assert_eq!(table.wait_step(&mut pool, id), WaitStep::Gone);
    assert_eq!(table.len(), 0);
}

#[test]
fn fork_in_table_shares_pages_copy_on_write() {
    let mut pool = PageAllocImpl::new(4);
    let mut table = TaskTable::new();
    let parent = table.add_task(TaskType::MonolithicTask, None).unwrap();
    assert_eq!(table.map_page(&mut pool, parent, 1, true), Some(Ok(0)));
    assert_eq!(table.map_page(&mut pool, parent, 2, false), Some(Ok(1)));
    let child = table.fork(&mut pool, parent).unwrap();
    for id in [parent, child] {
        let t = table.tid2task(id).unwrap();
        assert_eq!(
            t.memset.entry(0),
            Some(PageEntry { vpn: 1, ppn: 0, writable: false, cow: true })
        );
        assert_eq!(
            t.memset.entry(1),
            Some(PageEntry { vpn: 2, ppn: 1, writable: false, cow: false })
        );
    }
    assert_eq!(pool.ref_count(0), 2);
    assert_eq!(pool.ref_count(1), 2);
    assert_eq!(table.fork(&mut pool, 99), Err(ForkError::NoSuchTask));
    assert_eq!(table.user_cow_int(&mut pool, 99, 0), None);
    assert_eq!(
        table.user_cow_int(&mut pool, parent, 4096),
        Some(CowOutcome::Copied { frame: 2 })
    );
    assert_eq!(table.user_cow_int(&mut pool, child, 4096), Some(CowOutcome::Promoted));
    assert_eq!(pool.ref_count(0), 1);
    assert_eq!(pool.ref_count(2), 1);
}

#[test]
fn kill_all_tasks_ends_user_tasks_only() {
    let mut pool = PageAllocImpl::new(2);
    let mut table = TaskTable::new();
    let user = table.add_task(TaskType::MonolithicTask, None).unwrap();
    let blank = table.add_task(TaskType::BlankKernel, None).unwrap();
    let thread = table.add_task(TaskType::KernelThread, None).unwrap();
    let done = table.add_task(TaskType::MonolithicTask, None).unwrap();
    assert_eq!(table.map_page(&mut pool, user, 1, true), Some(Ok(0)));
    assert!(table.exit(&mut pool, done, 5));
    table.kill_all_tasks(&mut pool);
    assert_eq!(KILLED_EXIT_CODE, 100);
    assert_eq!(table.exit_code(user), Some(100));
    assert_eq!(table.exit_code(blank), None);
    assert_eq!(table.exit_code(thread), None);
    assert_eq!(table.exit_code(done), Some(5));
    assert_eq!(pool.ref_count(0), 0);
    assert_eq!(table.len(), 4);
}

#[test]
fn shutdown_only_when_blank_kernel_tasks_remain() {
    let mut pool = PageAllocImpl::new(0);
    let mut table = TaskTable::new();
    assert!(table.only_blank_kernel());
    let blank = table.add_task(TaskType::BlankKernel, None).unwrap();
    assert!(table.only_blank_kernel());
    let user = table.add_task(TaskType::MonolithicTask, None).unwrap();
    assert!(!table.only_blank_kernel());
    assert!(table.exit(&mut pool, user, 0));
    assert!(!table.only_blank_kernel());
    assert_eq!(table.wait_step(&mut pool, user), WaitStep::Reaped(0));
    assert!(table.only_blank_kernel());
    assert!(table.tid2task(blank).is_some());
}

#[test]
fn schedule_in_table() {
    let mut table = TaskTable::new();
    let id = table.add_task(TaskType::MonolithicTask, None).unwrap();
    assert!(!table.schedule(id, SchedEvent::Resume));
    assert!(table.schedule(id, SchedEvent::Spawn));
    assert!(table.schedule(id, SchedEvent::Resume));
    assert!(table.schedule(id, SchedEvent::Yield));
    assert_eq!(table.tid2task(id).unwrap().state, TaskState::Suspended);
    assert!(!table.schedule(id + 1, SchedEvent::Spawn));
}

#[test]
fn yield_with_held_lock_is_refused() {
    let mut t = UserTask::new(0, TaskType::MonolithicTask, None);
    assert!(t.transition(SchedEvent::Spawn));
    assert!(t.transition(SchedEvent::Resume));
    assert!(t.try_lock());
    assert!(!t.transition(SchedEvent::Yield));
    assert_eq!(t.state, TaskState::Running);
    t.force_unlock();
    assert!(t.transition(SchedEvent::Yield));
    assert_eq!(t.state, TaskState::Suspended);
}

#[test]
fn exit_of_a_child_lowers_the_parents_count_once() {
    let mut pool = PageAllocImpl::new(1);
    let mut table = TaskTable::new();
    let parent = table.add_task(TaskType::MonolithicTask, None).unwrap();
    let a = table.fork(&mut pool, parent).unwrap();
    let b = table.fork(&mut pool, parent).unwrap();
    let grandchild = table.fork(&mut pool, a).unwrap();
    assert_eq!(table.live_children(parent), 2);
    assert_eq!(table.live_children(a), 1);
    assert_eq!(table.live_children(b), 0);
    assert!(table.exit(&mut pool, a, 1));
    assert_eq!(table.live_children(parent), 1);
    assert!(table.exit(&mut pool, a, 2));
    assert_eq!(table.live_children(parent), 1);
    assert_eq!(table.live_children(a), 1);
    assert!(table.exit(&mut pool, grandchild, 0));
    assert_eq!(table.live_children(a), 0);
    assert!(table.exit(&mut pool, b, 0));
    assert_eq!(table.live_children(parent), 0);
}
