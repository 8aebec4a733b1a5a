use task_engine::frame::PageAllocImpl;
use task_engine::memset::CowOutcome;
use task_engine::table::{TaskTable, TrapOutcome};
use task_engine::task::TaskType;
use task_engine::trap::{
    kernel_interrupt, ExecContext, TrapAction, TrapType, ANY_IRQ, VIRT_ADDR_START,
};

const USER: ExecContext = ExecContext::UserTask { pcb_locked: false };

#[test]
fn kernel_page_fault_is_fatal() {
    let addr = VIRT_ADDR_START + 1;
    for trap in [
        TrapType::StorePageFault(addr),
        TrapType::LoadPageFault(addr),
        TrapType::InstructionPageFault(addr),
    ] {
        let action = kernel_interrupt(trap, 0x8020_0000, USER);
        assert_eq!(action, TrapAction::KernelPageError { addr, sepc: 0x8020_0000 });
        assert!(action.fatal());
    }
}

#[test]
fn boundary_address_is_a_user_address() {
    let action = kernel_interrupt(TrapType::StorePageFault(VIRT_ADDR_START), 4, USER);
    assert_eq!(
        action,
        TrapAction::ResolveFault { addr: VIRT_ADDR_START, force_unlock: false }
    );
    assert!(!action.fatal());
}

#[test]
fn user_page_fault_outside_a_user_task_is_fatal() {
    let trap = TrapType::LoadPageFault(0x1000);
    let action = kernel_interrupt(trap, 0, ExecContext::Kernel);
    assert_eq!(action, TrapAction::NotUserTask { trap });
    assert!(action.fatal());
}

#[test]
fn user_page_fault_with_held_lock_forces_unlock() {
    let action = kernel_interrupt(
        TrapType::InstructionPageFault(0x4000),
        0x4000,
        ExecContext::UserTask { pcb_locked: true },
    );
    assert_eq!(action, TrapAction::ResolveFault { addr: 0x4000, force_unlock: true });
}

#[test]
fn illegal_instruction_in_kernel_region_is_ignored() {
    let trap = TrapType::IllegalInstruction(VIRT_ADDR_START + 0x10);
    assert_eq!(kernel_interrupt(trap, 0x1234, USER), TrapAction::Ignore);
    assert_eq!(kernel_interrupt(trap, 0x1234, ExecContext::Kernel), TrapAction::Ignore);
}

#[test]
fn illegal_instruction_in_user_region_reports_the_program_counter() {
    let trap = TrapType::IllegalInstruction(0x1_0000);
    assert_eq!(
        kernel_interrupt(trap, 0x1_0004, USER),
        TrapAction::TaskIllegal { addr: 0x1_0000, sepc: 0x1_0004 }
    );
    assert_eq!(
        kernel_interrupt(trap, 0x1_0004, ExecContext::Kernel),
        TrapAction::NotUserTask { trap }
    );
}

#[test]
fn external_interrupt_goes_to_the_device() {
    assert_eq!(
        kernel_interrupt(TrapType::SupervisorExternal, 0, ExecContext::Kernel),
        TrapAction::HandleInterrupt { irq: u32::MAX }
    );
    assert_eq!(ANY_IRQ, u32::MAX);
}

#[test]
fn other_traps_do_nothing() {
    for trap in [
        TrapType::Breakpoint,
        TrapType::SysCall,
        TrapType::Timer,
        TrapType::Unknown,
        TrapType::Irq(3),
    ] {
        assert_eq!(kernel_interrupt(trap, 0, USER), TrapAction::Ignore);
    }
}

fn one_task_with_page(writable: bool) -> (TaskTable, PageAllocImpl, usize) {
    let mut pool = PageAllocImpl::new(4);
    let mut table = TaskTable::new();
    let id = table.add_task(TaskType::MonolithicTask, None).unwrap();
    assert_eq!(table.map_page(&mut pool, id, 0x10, writable), Some(Ok(0)));
    (table, pool, id)
}

#[test]
fn handle_trap_illegal_in_kernel_region_takes_no_action() {
    let (mut table, mut pool, id) = one_task_with_page(true);
    let r = table.handle_trap(
        &mut pool,
        Some(id),
        TrapType::IllegalInstruction(VIRT_ADDR_START + 8),
        0x10_000,
    );
    assert_eq!(r, TrapOutcome::Ignored);
    assert_eq!(table.exit_code(id), None);
    assert_eq!(pool.ref_count(0), 1);
}

#[test]
fn handle_trap_illegal_in_user_region_records_translations() {
    let (mut table, mut pool, id) = one_task_with_page(true);
    let r = table.handle_trap(
        &mut pool,
        Some(id),
        TrapType::IllegalInstruction(0x9_9000),
        0x10 * 4096 + 0x24,
    );
    assert_eq!(
        r,
        TrapOutcome::Illegal {
            fault_paddr: None,
            pc_paddr: Some((0, 0x24)),
            pc: 0x10 * 4096 + 0x24,
        }
    );
    assert_eq!(table.len(), 1);
}

#[test]
fn handle_trap_reentrant_fault_unlocks_and_resolves() {
    let (mut table, mut pool, parent) = one_task_with_page(true);
    let child = table.fork(&mut pool, parent).unwrap();
    assert!(table.try_lock(child));
    assert!(!table.try_lock(child));
    assert!(table.tid2task(child).unwrap().is_locked());
    let r = table.handle_trap(
        &mut pool,
        Some(child),
        TrapType::StorePageFault(0x10 * 4096 + 8),
        0x4000,
    );
    assert_eq!(
        r,
        TrapOutcome::Fault { forced_unlock: true, outcome: CowOutcome::Copied { frame: 1 } }
    );
    assert!(!table.tid2task(child).unwrap().is_locked());
    let r = table.handle_trap(
        &mut pool,
        Some(child),
        TrapType::StorePageFault(0x10 * 4096 + 8),
        0x4000,
    );
    assert_eq!(
        r,
        TrapOutcome::Fault { forced_unlock: false, outcome: CowOutcome::NotCow }
    );
}

#[test]
fn handle_trap_fatal_paths_change_nothing() {
    let (mut table, mut pool, id) = one_task_with_page(true);
    let trap = TrapType::LoadPageFault(0x10 * 4096);
    assert_eq!(
        table.handle_trap(&mut pool, None, trap, 7),
        TrapOutcome::Fatal(TrapAction::NotUserTask { trap })
    );
    assert_eq!(
        table.handle_trap(&mut pool, Some(id + 5), trap, 7),
        TrapOutcome::Fatal(TrapAction::NotUserTask { trap })
    );
    let high = TrapType::StorePageFault(u64::MAX);
    assert_eq!(
        table.handle_trap(&mut pool, Some(id), high, 7),
        TrapOutcome::Fatal(TrapAction::KernelPageError { addr: u64::MAX, sepc: 7 })
    );
    assert_eq!(
        table.handle_trap(&mut pool, Some(id), TrapType::SupervisorExternal, 7),
        TrapOutcome::Interrupt { irq: u32::MAX }
    );
    assert_eq!(
        table.handle_trap(&mut pool, Some(id), TrapType::Timer, 7),
        TrapOutcome::Ignored
    );
    assert_eq!(pool.ref_count(0), 1);
}

#[test]
fn handle_trap_unmapped_fault_is_reported() {
    let (mut table, mut pool, id) = one_task_with_page(true);
    let r = table.handle_trap(&mut pool, Some(id), TrapType::StorePageFault(0x77 * 4096), 0);
    assert_eq!(
        r,
        TrapOutcome::Fault { forced_unlock: false, outcome: CowOutcome::Unmapped }
    );
}

#[test]
fn handle_trap_in_a_kernel_task_is_not_a_user_fault() {
    let mut pool = PageAllocImpl::new(2);
    let mut table = TaskTable::new();
    let blank = table.add_task(TaskType::BlankKernel, None).unwrap();
    let thread = table.add_task(TaskType::KernelThread, None).unwrap();
    let trap = TrapType::StorePageFault(0x2000);
    for id in [blank, thread] {
        assert_eq!(
            table.handle_trap(&mut pool, Some(id), trap, 1),
            TrapOutcome::Fatal(TrapAction::NotUserTask { trap })
        );
        assert_eq!(
            table.handle_trap(&mut pool, Some(id), TrapType::IllegalInstruction(8), 1),
            TrapOutcome::Fatal(TrapAction::NotUserTask { trap: TrapType::IllegalInstruction(8) })
        );
    }
    assert_eq!(table.context(Some(blank)), ExecContext::Kernel);
    assert_eq!(table.context(None), ExecContext::Kernel);
}
