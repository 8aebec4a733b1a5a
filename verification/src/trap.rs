//! Trap dispatch: which handling path a classified trap takes.

use vstd::prelude::*;

verus! {

/// First address of the kernel's reserved high region. Addresses strictly
/// above it belong to the kernel.
pub const VIRT_ADDR_START: u64 = 0xffff_ffc0_0000_0000;

/// Interrupt number handed to the device subsystem for a supervisor external
/// interrupt: the device finds the pending line by itself.
pub const ANY_IRQ: u32 = 0xffff_ffff;

/// Classification of a hardware trap, with the faulting address where the
/// hardware reports one.
#[derive(Clone, Copy, Debug, PartialEq, Eq, Structural)]
pub enum TrapType {
    Breakpoint,
    SysCall,
    Timer,
    Unknown,
    SupervisorExternal,
    StorePageFault(u64),
    LoadPageFault(u64),
    InstructionPageFault(u64),
    IllegalInstruction(u64),
    Irq(u64),
}

/// What was executing when the trap was taken.
#[derive(Clone, Copy, Debug, PartialEq, Eq, Structural)]
pub enum ExecContext {
    /// A user task, together with whether its process control block is
    /// locked at this moment.
    UserTask { pcb_locked: bool },
    /// Anything else: a kernel thread, the idle loop, early boot.
    Kernel,
}

/// The single handling path chosen for a trap.
#[derive(Clone, Copy, Debug, PartialEq, Eq, Structural)]
pub enum TrapAction {
    /// Fatal: a page fault on a kernel address.
    KernelPageError { addr: u64, sepc: u64 },
    /// Fatal: a fault that only a user task can cause was taken elsewhere.
    NotUserTask { trap: TrapType },
    /// Resolve a page fault of the current user task at `addr`. With
    /// `force_unlock` the process control block is unlocked first.
    ResolveFault { addr: u64, force_unlock: bool },
    /// Report an illegal instruction of the current user task: the
    /// translations of `addr` and of `sepc` are recorded and the task is
    /// handed to the illegal-instruction path, with `sepc` as the place.
    TaskIllegal { addr: u64, sepc: u64 },
    /// Forward to the interrupt-capable device.
    HandleInterrupt { irq: u32 },
    /// Nothing to do.
    Ignore,
}

/// Whether `addr` lies in the kernel's reserved region.
pub open spec fn in_kernel_region(addr: u64) -> bool {
    addr > VIRT_ADDR_START
}

/// The faulting address of a page fault, `None` for every other trap.
pub open spec fn page_fault_addr(trap: TrapType) -> Option<u64> {
    match trap {
        TrapType::StorePageFault(a) => Some(a),
        TrapType::LoadPageFault(a) => Some(a),
        TrapType::InstructionPageFault(a) => Some(a),
        _ => None,
    }
}

/// The dispatch rule.
pub open spec fn dispatch(trap: TrapType, sepc: u64, ctx: ExecContext) -> TrapAction {
    if let Some(addr) = page_fault_addr(trap) {
        if in_kernel_region(addr) {
            TrapAction::KernelPageError { addr, sepc }
        } else {
            match ctx {
                ExecContext::UserTask { pcb_locked } => TrapAction::ResolveFault {
                    addr,
                    force_unlock: pcb_locked,
                },
                ExecContext::Kernel => TrapAction::NotUserTask { trap },
            }
        }
    } else {
        match trap {
            TrapType::IllegalInstruction(addr) => if in_kernel_region(addr) {
                TrapAction::Ignore
            } else {
                match ctx {
                    ExecContext::UserTask { .. } => TrapAction::TaskIllegal { addr, sepc },
                    ExecContext::Kernel => TrapAction::NotUserTask { trap },
                }
            },
            TrapType::SupervisorExternal => TrapAction::HandleInterrupt { irq: ANY_IRQ },
            _ => TrapAction::Ignore,
        }
    }
}

impl TrapAction {
    /// Whether the action ends in a kernel panic.
    pub open spec fn is_fatal(self) -> bool {
        self is KernelPageError || self is NotUserTask
    }

    /// Whether the action ends in a kernel panic.
    pub fn fatal(&self) -> (r: bool)
        ensures
            r == self.is_fatal(),
    {
        match self {
            TrapAction::KernelPageError { .. } => true,
            TrapAction::NotUserTask { .. } => true,
            _ => false,
        }
    }
}

/// Chooses the handling path for a trap taken with saved program counter
/// `sepc` while `ctx` was executing.
pub fn kernel_interrupt(trap: TrapType, sepc: u64, ctx: ExecContext) -> (action: TrapAction)
    ensures
        action == dispatch(trap, sepc, ctx),
{
    match trap {
        TrapType::StorePageFault(addr)
        | TrapType::InstructionPageFault(addr)
        | TrapType::LoadPageFault(addr) => {
            if addr > VIRT_ADDR_START {
                return TrapAction::KernelPageError { addr, sepc };
            }
            match ctx {
                ExecContext::UserTask { pcb_locked } => TrapAction::ResolveFault {
                    addr,
                    force_unlock: pcb_locked,
                },
                ExecContext::Kernel => TrapAction::NotUserTask { trap },
            }
        },
        TrapType::IllegalInstruction(addr) => {
            if addr > VIRT_ADDR_START {
                return TrapAction::Ignore;
            }
            match ctx {
                ExecContext::UserTask { .. } => TrapAction::TaskIllegal { addr, sepc },
                ExecContext::Kernel => TrapAction::NotUserTask { trap },
            }
        },
        TrapType::SupervisorExternal => TrapAction::HandleInterrupt { irq: ANY_IRQ },
        _ => TrapAction::Ignore,
    }
}

/// A page fault on a user address taken in a user task is always resolved,
/// and the process control block is force-unlocked exactly when it was held.
pub proof fn lemma_user_fault_is_resolved(trap: TrapType, sepc: u64, pcb_locked: bool)
    requires
        page_fault_addr(trap) is Some,
        !in_kernel_region(page_fault_addr(trap).unwrap()),
    ensures
        dispatch(trap, sepc, ExecContext::UserTask { pcb_locked }) == (TrapAction::ResolveFault {
            addr: page_fault_addr(trap).unwrap(),
            force_unlock: pcb_locked,
        }),
{
}

/// An illegal instruction at a kernel address is ignored whatever was
/// executing; at a user address in a user task it is reported with the saved
/// program counter.
pub proof fn lemma_illegal_instruction(addr: u64, sepc: u64, ctx: ExecContext)
    ensures
        in_kernel_region(addr) ==> dispatch(TrapType::IllegalInstruction(addr), sepc, ctx)
            == TrapAction::Ignore,
        !in_kernel_region(addr) && ctx is UserTask ==> dispatch(
            TrapType::IllegalInstruction(addr),
            sepc,
            ctx,
        ) == (TrapAction::TaskIllegal { addr, sepc }),
{
}

} // verus!
