//! A user task: identity, classification, lifecycle state, exit status, the
//! lock of its process control block and its memory-set.

use crate::frame::PageAllocImpl;
use crate::memset::{frames_released, MemorySet, PageEntry};
use vstd::prelude::*;

verus! {

/// Exit code given to every user task when all of them are killed.
pub const KILLED_EXIT_CODE: usize = 100;

/// Classification of a task.
#[derive(Clone, Copy, Debug, PartialEq, Eq, Structural)]
pub enum TaskType {
    /// A user task of the monolithic kernel.
    MonolithicTask,
    /// The blank kernel task that only keeps the scheduler alive.
    BlankKernel,
    /// A kernel thread.
    KernelThread,
}

/// Where a task stands in its lifecycle. `Exited` is terminal.
#[derive(Clone, Copy, Debug, PartialEq, Eq, Structural)]
pub enum TaskState {
    Created,
    Runnable,
    Running,
    Suspended,
    Exited,
}

/// What the scheduler does to a task.
#[derive(Clone, Copy, Debug, PartialEq, Eq, Structural)]
pub enum SchedEvent {
    /// The task's body is handed to the scheduler.
    Spawn,
    /// The scheduler resumes the task.
    Resume,
    /// The task reaches a suspension point.
    Yield,
}

/// The state after `ev` in state `s`, `None` where the event is not
/// allowed. A task may not yield while its process control block is locked.
pub open spec fn next_state(s: TaskState, ev: SchedEvent, pcb_locked: bool) -> Option<TaskState> {
    match (s, ev) {
        (TaskState::Created, SchedEvent::Spawn) => Some(TaskState::Runnable),
        (TaskState::Runnable, SchedEvent::Resume) => Some(TaskState::Running),
        (TaskState::Suspended, SchedEvent::Resume) => Some(TaskState::Running),
        (TaskState::Running, SchedEvent::Yield) => if pcb_locked {
            None
        } else {
            Some(TaskState::Suspended)
        },
        _ => None,
    }
}

/// No lock is held across a suspension point: a yield is allowed only to
/// a running task whose process control block is unlocked. And nothing
/// leaves the state `Exited`.
pub proof fn lemma_suspension_points(s: TaskState, ev: SchedEvent, pcb_locked: bool)
    ensures
        next_state(s, SchedEvent::Yield, pcb_locked) is Some <==> s == TaskState::Running
            && !pcb_locked,
        next_state(TaskState::Exited, ev, pcb_locked) is None,
        next_state(s, ev, pcb_locked) != Some(TaskState::Exited),
{
}

/// The exit code stored after `exit(code)` on a task whose stored code was
/// `prev`: the first one stays.
pub open spec fn exit_code_after(prev: Option<usize>, code: usize) -> Option<usize> {
    if prev is Some {
        prev
    } else {
        Some(code)
    }
}

/// A user task.
pub struct UserTask {
    pub task_id: usize,
    pub task_type: TaskType,
    pub parent: Option<usize>,
    pub exit_code: Option<usize>,
    pub state: TaskState,
    pub pcb_locked: bool,
    /// Where the task's program starts.
    pub entry: u64,
    pub memset: MemorySet,
}

impl UserTask {
    /// The memory-set is well-formed, the task is in state `Exited` exactly
    /// when its exit code is set, and an exited task holds no page.
    pub open spec fn wf(&self) -> bool {
        &&& self.memset.wf()
        &&& (self.state == TaskState::Exited <==> self.exit_code is Some)
        &&& (self.exit_code is Some ==> self.memset.pages() == Seq::<PageEntry>::empty())
    }

    /// A task that differs from `self` in nothing but the memory-set.
    pub open spec fn same_but_memset(&self, other: UserTask) -> bool {
        &&& self.task_id == other.task_id
        &&& self.task_type == other.task_type
        &&& self.parent == other.parent
        &&& self.exit_code == other.exit_code
        &&& self.state == other.state
        &&& self.pcb_locked == other.pcb_locked
        &&& self.entry == other.entry
    }

    /// Whether `self` is what `before` becomes by `exit(code)`: the first
    /// exit code stays, the state is `Exited`, no page is left, and a task
    /// that had exited already is unchanged.
    pub open spec fn is_exit_of(&self, before: UserTask, code: usize) -> bool {
        &&& self.exit_code == exit_code_after(before.exit_code, code)
        &&& self.state == TaskState::Exited
        &&& self.task_id == before.task_id
        &&& self.task_type == before.task_type
        &&& self.parent == before.parent
        &&& self.pcb_locked == before.pcb_locked
        &&& self.entry == before.entry
        &&& self.memset.pages() == Seq::<PageEntry>::empty()
        &&& (before.exit_code is Some ==> *self == before)
    }

    /// A fresh task with an empty memory-set, not yet handed to the
    /// scheduler.
    pub fn new(task_id: usize, task_type: TaskType, parent: Option<usize>) -> (t: Self)
        ensures
            t.wf(),
            t.task_id == task_id,
            t.task_type == task_type,
            t.parent == parent,
            t.exit_code is None,
            t.state == TaskState::Created,
            !t.pcb_locked,
            t.entry == 0,
            t.memset.pages() == Seq::<PageEntry>::empty(),
    {
        UserTask {
            task_id,
            task_type,
            parent,
            exit_code: None,
            state: TaskState::Created,
            pcb_locked: false,
            entry: 0,
            memset: MemorySet::new(),
        }
    }

    /// The task's id.
    pub fn get_task_id(&self) -> (id: usize)
        ensures
            id == self.task_id,
    {
        self.task_id
    }

    /// The task's classification.
    pub fn get_task_type(&self) -> (ty: TaskType)
        ensures
            ty == self.task_type,
    {
        self.task_type
    }

    /// The exit code, unset while the task has not exited.
    pub fn exit_code(&self) -> (code: Option<usize>)
        ensures
            code == self.exit_code,
    {
        self.exit_code
    }

    /// Whether the process control block is locked.
    pub fn is_locked(&self) -> (locked: bool)
        ensures
            locked == self.pcb_locked,
    {
        self.pcb_locked
    }

    /// Locks the process control block. Returns `false`, and changes
    /// nothing, exactly when it is already locked.
    pub fn try_lock(&mut self) -> (got: bool)
        ensures
            got == !old(self).pcb_locked,
            final(self).pcb_locked,
            final(self).same_but_lock(*old(self)),
            old(self).wf() ==> final(self).wf(),
    {
        if self.pcb_locked {
            false
        } else {
            self.pcb_locked = true;
            true
        }
    }

    /// Unlocks the process control block. Returns `false`, and changes
    /// nothing, exactly when it is not locked.
    pub fn unlock(&mut self) -> (was_locked: bool)
        ensures
            was_locked == old(self).pcb_locked,
            !final(self).pcb_locked,
            final(self).same_but_lock(*old(self)),
            old(self).wf() ==> final(self).wf(),
    {
        let was_locked = self.pcb_locked;
        self.pcb_locked = false;
        was_locked
    }

    /// Unlocks the process control block, whoever holds it.
    pub fn force_unlock(&mut self)
        ensures
            !final(self).pcb_locked,
            final(self).same_but_lock(*old(self)),
            old(self).wf() ==> final(self).wf(),
    {
        self.pcb_locked = false;
    }

    /// A task that differs from `self` in nothing but the lock.
    pub open spec fn same_but_lock(&self, other: UserTask) -> bool {
        &&& self.task_id == other.task_id
        &&& self.task_type == other.task_type
        &&& self.parent == other.parent
        &&& self.exit_code == other.exit_code
        &&& self.state == other.state
        &&& self.entry == other.entry
        &&& self.memset == other.memset
    }

    /// Applies a scheduler event. Returns `false`, and changes nothing,
    /// exactly when the event is not allowed in the task's state, or is a
    /// yield with the process control block locked.
    pub fn transition(&mut self, ev: SchedEvent) -> (ok: bool)
        requires
            old(self).wf(),
        ensures
            final(self).wf(),
            ok == next_state(old(self).state, ev, old(self).pcb_locked) is Some,
            final(self).state == if ok {
                next_state(old(self).state, ev, old(self).pcb_locked).unwrap()
            } else {
                old(self).state
            },
            final(self).task_id == old(self).task_id,
            final(self).task_type == old(self).task_type,
            final(self).parent == old(self).parent,
            final(self).exit_code == old(self).exit_code,
            final(self).pcb_locked == old(self).pcb_locked,
            final(self).entry == old(self).entry,
            final(self).memset == old(self).memset,
    {
        let next = match (self.state, ev) {
            (TaskState::Created, SchedEvent::Spawn) => Some(TaskState::Runnable),
            (TaskState::Runnable, SchedEvent::Resume) => Some(TaskState::Running),
            (TaskState::Suspended, SchedEvent::Resume) => Some(TaskState::Running),
            (TaskState::Running, SchedEvent::Yield) => if self.pcb_locked {
                None
            } else {
                Some(TaskState::Suspended)
            },
            _ => None,
        };
        match next {
            Some(s) => {
                self.state = s;
                true
            },
            None => false,
        }
    }

    /// Ends the task with `code`. Only the first call has an effect: it
    /// stores the code, makes the state `Exited` and gives up every page.
    /// A later call changes nothing.
    pub fn exit(&mut self, pool: &mut PageAllocImpl, code: usize)
        requires
            old(self).wf(),
            old(pool).wf(),
            old(self).memset.backed_by(*old(pool)),
        ensures
            final(self).wf(),
            final(pool).wf(),
            final(self).is_exit_of(*old(self), code),
            old(self).exit_code is Some ==> *final(pool) == *old(pool),
            frames_released(
                old(self).memset.pages(),
                old(pool).refs(),
                old(pool).frames(),
                final(pool).refs(),
                final(pool).frames(),
            ),
    {
        if self.exit_code.is_some() {
            return ;
        }
        self.exit_code = Some(code);
        self.state = TaskState::Exited;
        self.memset.release(pool);
    }
}

/// Exit is idempotent: after `exit(first)` on a running task, `exit(second)`
/// leaves `first` as the stored code.
pub proof fn lemma_exit_idempotent(prev: Option<usize>, first: usize, second: usize)
    ensures
        exit_code_after(exit_code_after(prev, first), second) == exit_code_after(prev, first),
        prev is None ==> exit_code_after(exit_code_after(prev, first), second) == Some(first),
{
}

} // verus!
