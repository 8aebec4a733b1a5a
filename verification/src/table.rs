//! The task registry: task ids, lookup, fork, exit and reaping, with the
//! reference counts of the frame pool kept in step with the pages that the
//! registered tasks map.

use crate::frame::{
    free_count, lemma_free_count_none, lemma_free_count_taken, zero_page, PageAllocImpl,
};
use crate::memset::{
    cow_resolved, cow_shared, frame_among, frames_released, frames_shared, page_of, pages_backed,
    CowOutcome, ForkError, MapError, MemorySet, PageEntry,
};
use crate::task::{next_state, SchedEvent, TaskType, UserTask, KILLED_EXIT_CODE};
use crate::trap::{dispatch, kernel_interrupt, ExecContext, TrapAction, TrapType};
use vstd::prelude::*;

verus! {

/// One if frame `q` backs a page of `pages`, zero if not.
pub open spec fn holds(pages: Seq<PageEntry>, q: usize) -> nat {
    if frame_among(pages, q, pages.len() as int) {
        1
    } else {
        0
    }
}

/// The number of memory-sets among `sets` that map frame `q`.
pub open spec fn holders(sets: Seq<Seq<PageEntry>>, q: usize) -> nat
    decreases sets.len(),
{
    if sets.len() == 0 {
        0
    } else {
        holders(sets.drop_last(), q) + holds(sets.last(), q)
    }
}

/// The memory-sets that killing all user tasks gives up: those of the
/// monolithic tasks, and nothing for the others.
pub open spec fn killed_sets(tasks: Seq<UserTask>) -> Seq<Seq<PageEntry>> {
    tasks.map_values(
        |t: UserTask|
            if t.task_type == TaskType::MonolithicTask {
                t.memset.pages()
            } else {
                Seq::<PageEntry>::empty()
            },
    )
}

/// Whether `t` is a child of the task with id `parent` that has not exited.
pub open spec fn is_live_child(t: UserTask, parent: usize) -> bool {
    t.parent == Some(parent) && t.exit_code is None
}

/// The number of children of `parent` among `tasks` that have not exited.
pub open spec fn live_children_of(tasks: Seq<UserTask>, parent: usize) -> nat
    decreases tasks.len(),
{
    if tasks.len() == 0 {
        0
    } else {
        live_children_of(tasks.drop_last(), parent) + if is_live_child(tasks.last(), parent) {
            1nat
        } else {
            0nat
        }
    }
}

/// When the task at position `i` exits, its parent has one live child
/// less if this was the task's first exit, and every other count of live
/// children stays.
pub proof fn lemma_child_exit(
    tasks: Seq<UserTask>,
    i: int,
    exited: UserTask,
    code: usize,
    parent: usize,
)
    requires
        0 <= i < tasks.len(),
        exited.is_exit_of(tasks[i], code),
    ensures
        live_children_of(tasks.update(i, exited), parent) + (if is_live_child(tasks[i], parent) {
            1nat
        } else {
            0nat
        }) == live_children_of(tasks, parent),
    decreases tasks.len(),
{
    if i == tasks.len() - 1 {
        assert(tasks.update(i, exited).drop_last() =~= tasks.drop_last());
    } else {
        lemma_child_exit(tasks.drop_last(), i, exited, code, parent);
        assert(tasks.update(i, exited).drop_last() =~= tasks.drop_last().update(i, exited));
    }
}

/// Every entry of `pages` names a frame below `n`.
pub open spec fn pages_in_range(pages: Seq<PageEntry>, n: nat) -> bool {
    forall|k: int| 0 <= k < pages.len() ==> (#[trigger] pages[k]).ppn < n
}

/// Every writable page of `pages` is backed by a frame with exactly one
/// reference.
pub open spec fn writable_private(pages: Seq<PageEntry>, refs: Seq<usize>) -> bool {
    forall|k: int|
        0 <= k < pages.len() && (#[trigger] pages[k]).writable && pages[k].ppn < refs.len()
            ==> refs[pages[k].ppn as int] == 1
}

proof fn lemma_holders_push(sets: Seq<Seq<PageEntry>>, s: Seq<PageEntry>, q: usize)
    ensures
        holders(sets.push(s), q) == holders(sets, q) + holds(s, q),
{
    assert(sets.push(s).drop_last() =~= sets);
}

proof fn lemma_holders_update(sets: Seq<Seq<PageEntry>>, i: int, s: Seq<PageEntry>, q: usize)
    requires
        0 <= i < sets.len(),
    ensures
        holders(sets.update(i, s), q) + holds(sets[i], q) == holders(sets, q) + holds(s, q),
    decreases sets.len(),
{
    if i == sets.len() - 1 {
        assert(sets.update(i, s).drop_last() =~= sets.drop_last());
    } else {
        lemma_holders_update(sets.drop_last(), i, s, q);
        assert(sets.update(i, s).drop_last() =~= sets.drop_last().update(i, s));
    }
}

proof fn lemma_holders_remove(sets: Seq<Seq<PageEntry>>, i: int, q: usize)
    requires
        0 <= i < sets.len(),
    ensures
        holders(sets.remove(i), q) + holds(sets[i], q) == holders(sets, q),
    decreases sets.len(),
{
    if i == sets.len() - 1 {
        assert(sets.remove(i) =~= sets.drop_last());
    } else {
        lemma_holders_remove(sets.drop_last(), i, q);
        assert(sets.remove(i).drop_last() =~= sets.drop_last().remove(i));
        assert(sets.remove(i).last() == sets.last());
    }
}

proof fn lemma_holders_bound(sets: Seq<Seq<PageEntry>>, i: int, q: usize)
    requires
        0 <= i < sets.len(),
    ensures
        holders(sets, q) >= holds(sets[i], q),
{
    lemma_holders_update(sets, i, Seq::<PageEntry>::empty(), q);
}

proof fn lemma_holds_push(pages: Seq<PageEntry>, e: PageEntry, q: usize)
    ensures
        holds(pages.push(e), q) == if q == e.ppn {
            1
        } else {
            holds(pages, q)
        },
{
    let grown = pages.push(e);
    if q == e.ppn {
        assert(grown[pages.len() as int].ppn == q);
    } else {
        if frame_among(pages, q, pages.len() as int) {
            let k = choose|k: int| 0 <= k < pages.len() && (#[trigger] pages[k]).ppn == q;
            assert(grown[k].ppn == q);
        }
        if frame_among(grown, q, grown.len() as int) {
            let k = choose|k: int| 0 <= k < grown.len() && (#[trigger] grown[k]).ppn == q;
            assert(pages[k].ppn == q);
        }
    }
}

proof fn lemma_holds_update(pages: Seq<PageEntry>, i: int, e: PageEntry, q: usize)
    requires
        0 <= i < pages.len(),
        forall|a: int, b: int|
            0 <= a < b < pages.len() ==> (#[trigger] pages[a]).ppn != (#[trigger] pages[b]).ppn,
    ensures
        holds(pages.update(i, e), q) == if q == e.ppn {
            1
        } else if q == pages[i].ppn {
            0
        } else {
            holds(pages, q)
        },
{
    let changed = pages.update(i, e);
    if q == e.ppn {
        assert(changed[i].ppn == q);
    } else {
        if frame_among(changed, q, changed.len() as int) {
            let k = choose|k: int| 0 <= k < changed.len() && (#[trigger] changed[k]).ppn == q;
            assert(k != i);
            assert(pages[k].ppn == q);
            if q == pages[i].ppn {
                if k < i {
                    assert(pages[k].ppn != pages[i].ppn);
                } else {
                    assert(pages[i].ppn != pages[k].ppn);
                }
            }
        }
        if q != pages[i].ppn && frame_among(pages, q, pages.len() as int) {
            let k = choose|k: int| 0 <= k < pages.len() && (#[trigger] pages[k]).ppn == q;
            assert(changed[k].ppn == q);
        }
    }
}

proof fn lemma_holds_shared(pages: Seq<PageEntry>, q: usize)
    ensures
        holds(pages.map_values(|e: PageEntry| cow_shared(e)), q) == holds(pages, q),
{
    let shared = pages.map_values(|e: PageEntry| cow_shared(e));
    if frame_among(pages, q, pages.len() as int) {
        let k = choose|k: int| 0 <= k < pages.len() && (#[trigger] pages[k]).ppn == q;
        assert(shared[k].ppn == q);
    }
    if frame_among(shared, q, shared.len() as int) {
        let k = choose|k: int| 0 <= k < shared.len() && (#[trigger] shared[k]).ppn == q;
        assert(pages[k].ppn == q);
    }
}

/// How a trap ended.
#[derive(Clone, Copy, Debug, PartialEq, Eq)]
pub enum TrapOutcome {
    /// The kernel must panic, for the reason that the action gives.
    Fatal(TrapAction),
    /// The current task's page fault went to the copy-on-write handler,
    /// after a forced unlock of its process control block if it was held.
    Fault { forced_unlock: bool, outcome: CowOutcome },
    /// The current task executed an illegal instruction: the translations
    /// of the faulting address and of the program counter are recorded, and
    /// the task is to be handed to the illegal-instruction path once, with
    /// `pc` as the place.
    Illegal { fault_paddr: Option<(usize, u64)>, pc_paddr: Option<(usize, u64)>, pc: u64 },
    /// The interrupt-capable device is to handle interrupt `irq`.
    Interrupt { irq: u32 },
    /// Nothing was done.
    Ignored,
}

/// One page of a program image: where it goes and whether the program may
/// write to it.
#[derive(Clone, Copy, Debug, PartialEq, Eq, Structural)]
pub struct ImagePage {
    pub vpn: u64,
    pub writable: bool,
}

/// Why a program image could not replace a task's memory-set.
#[derive(Clone, Copy, Debug, PartialEq, Eq, Structural)]
pub enum ExecError {
    /// No task with that id is registered.
    NoSuchTask,
    /// The task has exited.
    TaskExited,
    /// The image places two pages at one virtual page.
    DuplicatePage,
    /// The image has more pages than there are free frames.
    OutOfFrames,
}

/// No two pages of the image go to the same virtual page.
pub open spec fn image_distinct(image: Seq<ImagePage>) -> bool {
    forall|a: int, b: int|
        0 <= a < b < image.len() ==> (#[trigger] image[a]).vpn != (#[trigger] image[b]).vpn
}

/// `pages` is `image` loaded page by page, private, onto frames that were
/// free according to `refs`.
pub open spec fn loaded_from(pages: Seq<PageEntry>, image: Seq<ImagePage>, refs: Seq<usize>) -> bool {
    &&& pages.len() == image.len()
    &&& forall|k: int|
        0 <= k < pages.len() ==> {
            &&& (#[trigger] pages[k]).vpn == image[k].vpn
            &&& pages[k].writable == image[k].writable
            &&& !pages[k].cow
            &&& pages[k].ppn < refs.len()
            &&& refs[pages[k].ppn as int] == 0
        }
}

/// The `k`-th page of `pages` sits on the lowest frame that was free
/// according to `refs` and that no earlier page of `pages` took.
pub open spec fn lowest_fresh(pages: Seq<PageEntry>, refs: Seq<usize>, k: int) -> bool {
    forall|q: usize|
        q < pages[k].ppn && q < refs.len() ==> #[trigger] refs[q as int] != 0 || frame_among(
            pages,
            q,
            k,
        )
}

fn check_image(image: &Vec<ImagePage>) -> (ok: bool)
    ensures
        ok == image_distinct(image@),
{
    let mut b: usize = 0;
    while b < image.len()
        invariant
            b <= image@.len(),
            forall|x: int, y: int|
                0 <= x < y < b ==> (#[trigger] image@[x]).vpn != (#[trigger] image@[y]).vpn,
        decreases image@.len() - b,
    {
        let mut a: usize = 0;
        while a < b
            invariant
                a <= b,
                b < image@.len(),
                forall|x: int| 0 <= x < a ==> (#[trigger] image@[x]).vpn != image@[b as int].vpn,
            decreases b - a,
        {
            if image[a].vpn == image[b].vpn {
                return false;
            }
            a += 1;
        }
        b += 1;
    }
    true
}

/// One step of waiting for a task to exit.
#[derive(Clone, Copy, Debug, PartialEq, Eq, Structural)]
pub enum WaitStep {
    /// The task had exited with this code and is now released.
    Reaped(usize),
    /// The task has not exited: yield and ask again.
    Yield,
    /// No such task is registered.
    Gone,
}

/// The registry of tasks.
pub struct TaskTable {
    tasks: Vec<UserTask>,
    next_id: usize,
}

impl TaskTable {
    /// The registered tasks, in the order of their registration.
    pub closed spec fn tasks(&self) -> Seq<UserTask> {
        self.tasks@
    }

    /// The id that the next task gets.
    pub closed spec fn next_id(&self) -> usize {
        self.next_id
    }

    /// The memory-set of each registered task.
    pub open spec fn page_sets(&self) -> Seq<Seq<PageEntry>> {
        self.tasks().map_values(|t: UserTask| t.memset.pages())
    }

    /// Every task is well-formed, every id was handed out by this registry,
    /// and no two registered tasks share an id.
    pub open spec fn wf(&self) -> bool {
        &&& forall|i: int|
            0 <= i < self.tasks().len() ==> (#[trigger] self.tasks()[i]).wf()
                && self.tasks()[i].task_id < self.next_id()
        &&& forall|i: int, j: int|
            0 <= i < j < self.tasks().len() ==> (#[trigger] self.tasks()[i]).task_id != (
            #[trigger] self.tasks()[j]).task_id
    }

    /// The pool accounts for the registered tasks: every mapped page is
    /// backed by a frame of the pool, a writable page by a frame with one
    /// reference, and a frame's reference count is at least the number of
    /// tasks that map it.
    pub open spec fn consistent(&self, pool: PageAllocImpl) -> bool {
        &&& pool.wf()
        &&& forall|i: int|
            0 <= i < self.tasks().len() ==> pages_in_range(
                (#[trigger] self.tasks()[i]).memset.pages(),
                pool.refs().len(),
            )
        &&& forall|i: int|
            0 <= i < self.tasks().len() ==> writable_private(
                (#[trigger] self.tasks()[i]).memset.pages(),
                pool.refs(),
            )
        &&& forall|q: usize|
            q < pool.refs().len() ==> #[trigger] pool.refs()[q as int] >= holders(
                self.page_sets(),
                q,
            )
    }

    /// Whether a task with id `id` is registered.
    pub open spec fn has(&self, id: usize) -> bool {
        exists|i: int| 0 <= i < self.tasks().len() && (#[trigger] self.tasks()[i]).task_id == id
    }

    /// The position of the task with id `id`, where one is registered.
    pub open spec fn index_of(&self, id: usize) -> int {
        choose|i: int| 0 <= i < self.tasks().len() && (#[trigger] self.tasks()[i]).task_id == id
    }

    /// Every task but the one at position `i` is as it is in `before`.
    pub open spec fn same_but_at(&self, before: TaskTable, i: int) -> bool {
        &&& self.tasks().len() == before.tasks().len()
        &&& self.next_id() == before.next_id()
        &&& forall|k: int|
            0 <= k < self.tasks().len() && k != i ==> #[trigger] self.tasks()[k]
                == before.tasks()[k]
    }

    /// In a well-formed registry the position of an id is unique.
    pub proof fn lemma_index_of(&self, i: int, id: usize)
        requires
            self.wf(),
            0 <= i < self.tasks().len(),
            self.tasks()[i].task_id == id,
        ensures
            self.index_of(id) == i,
            self.has(id),
    {
        let j = self.index_of(id);
        if j != i {
            self.lemma_ids_unique(i, j);
        }
    }

    /// In a consistent state every page of every task is backed by a frame
    /// in use.
    pub proof fn lemma_backed(&self, pool: PageAllocImpl, i: int)
        requires
            self.wf(),
            self.consistent(pool),
            0 <= i < self.tasks().len(),
        ensures
            self.tasks()[i].memset.backed_by(pool),
    {
        let pages = self.tasks()[i].memset.pages();
        assert(self.page_sets()[i] == pages);
        assert forall|k: int| 0 <= k < pages.len() implies (#[trigger] pages[k]).ppn
            < pool.refs().len() && pool.refs()[pages[k].ppn as int] > 0 by {
            let q = pages[k].ppn;
            assert(frame_among(pages, q, pages.len() as int));
            lemma_holders_bound(self.page_sets(), i, q);
        }
    }

    /// A frame with one reference is mapped by at most one registered task.
    pub proof fn lemma_sole_holder(&self, pool: PageAllocImpl, i: int, j: int, q: usize)
        requires
            self.wf(),
            self.consistent(pool),
            0 <= i < self.tasks().len(),
            0 <= j < self.tasks().len(),
            i != j,
            q < pool.refs().len(),
            pool.refs()[q as int] == 1,
            self.tasks()[i].memset.maps_frame(q),
        ensures
            !self.tasks()[j].memset.maps_frame(q),
    {
        let sets = self.page_sets();
        let cut = sets.update(i, Seq::<PageEntry>::empty());
        lemma_holders_update(sets, i, Seq::<PageEntry>::empty(), q);
        lemma_holders_bound(cut, j, q);
        assert(cut[j] == self.tasks()[j].memset.pages());
        assert(sets[i] == self.tasks()[i].memset.pages());
    }

    /// A writable page is private: no other registered task maps its
    /// frame.
    pub proof fn lemma_writable_is_private(&self, pool: PageAllocImpl, i: int, j: int, k: int)
        requires
            self.wf(),
            self.consistent(pool),
            0 <= i < self.tasks().len(),
            0 <= j < self.tasks().len(),
            i != j,
            0 <= k < self.tasks()[i].memset.pages().len(),
            self.tasks()[i].memset.pages()[k].writable,
        ensures
            !self.tasks()[j].memset.maps_frame(self.tasks()[i].memset.pages()[k].ppn),
    {
        let pages = self.tasks()[i].memset.pages();
        let q = pages[k].ppn;
        assert(pages_in_range(pages, pool.refs().len()));
        assert(writable_private(pages, pool.refs()));
        assert(frame_among(pages, q, pages.len() as int));
        self.lemma_sole_holder(pool, i, j, q);
    }

    /// Writable pages of the other tasks stay private when the reference
    /// counts change only on frames that the task at position `i` maps or
    /// that were free.
    proof fn lemma_others_private(&self, pool: PageAllocImpl, refs2: Seq<usize>, i: int)
        requires
            self.wf(),
            self.consistent(pool),
            0 <= i < self.tasks().len(),
            refs2.len() == pool.refs().len(),
            forall|q: usize|
                q < refs2.len() && !self.tasks()[i].memset.maps_frame(q) && pool.refs()[q as int]
                    != 0 ==> #[trigger] refs2[q as int] == pool.refs()[q as int],
        ensures
            forall|j: int|
                0 <= j < self.tasks().len() && j != i ==> writable_private(
                    (#[trigger] self.tasks()[j]).memset.pages(),
                    refs2,
                ),
    {
        assert forall|j: int| 0 <= j < self.tasks().len() && j != i implies writable_private(
            (#[trigger] self.tasks()[j]).memset.pages(),
            refs2,
        ) by {
            let pages = self.tasks()[j].memset.pages();
            assert(writable_private(pages, pool.refs()));
            assert(pages_in_range(pages, pool.refs().len()));
            assert forall|k: int|
                0 <= k < pages.len() && (#[trigger] pages[k]).writable && pages[k].ppn
                    < refs2.len() implies refs2[pages[k].ppn as int] == 1 by {
                let q = pages[k].ppn;
                assert(pool.refs()[q as int] == 1);
                self.lemma_writable_is_private(pool, j, i, k);
                assert(refs2[q as int] == pool.refs()[q as int]);
            }
        }
    }

    /// No two registered tasks share an id.
    pub proof fn lemma_ids_unique(&self, i: int, j: int)
        requires
            self.wf(),
            0 <= i < self.tasks().len(),
            0 <= j < self.tasks().len(),
            i != j,
        ensures
            self.tasks()[i].task_id != self.tasks()[j].task_id,
    {
        if i < j {
            assert(self.tasks()[i].task_id != self.tasks()[j].task_id);
        } else {
            assert(self.tasks()[j].task_id != self.tasks()[i].task_id);
        }
    }

    /// An empty registry, whose first task gets id 0. Every well-formed
    /// pool accounts for it.
    pub fn new() -> (t: Self)
        ensures
            t.wf(),
            t.tasks() == Seq::<UserTask>::empty(),
            t.next_id() == 0,
            forall|pool: PageAllocImpl| pool.wf() ==> #[trigger] t.consistent(pool),
    {
        let t = TaskTable { tasks: Vec::new(), next_id: 0 };
        assert(t.page_sets() =~= Seq::<Seq<PageEntry>>::empty());
        t
    }

    /// The number of registered tasks.
    pub fn len(&self) -> (n: usize)
        ensures
            n == self.tasks().len(),
    {
        self.tasks.len()
    }

    /// The position of the task with id `id`, `None` exactly when no such
    /// task is registered.
    pub fn position(&self, id: usize) -> (r: Option<usize>)
        ensures
            r is Some <==> self.has(id),
            match r {
                Some(i) => i < self.tasks().len() && self.tasks()[i as int].task_id == id
                    && forall|k: int| 0 <= k < i ==> (#[trigger] self.tasks()[k]).task_id != id,
                None => true,
            },
    {
        let mut i: usize = 0;
        while i < self.tasks.len()
            invariant
                i <= self.tasks@.len(),
                forall|k: int| 0 <= k < i ==> (#[trigger] self.tasks@[k]).task_id != id,
            decreases self.tasks@.len() - i,
        {
            if self.tasks[i].task_id == id {
                return Some(i);
            }
            i += 1;
        }
        None
    }

    /// The task with id `id`, `None` exactly when no such task is
    /// registered.
    pub fn tid2task(&self, id: usize) -> (r: Option<&UserTask>)
        requires
            self.wf(),
        ensures
            r is Some <==> self.has(id),
            r is Some ==> *r.unwrap() == self.tasks()[self.index_of(id)],
    {
        match self.position(id) {
            Some(i) => {
                proof {
                    self.lemma_index_of(i as int, id);
                }
                Some(&self.tasks[i])
            },
            None => None,
        }
    }

    /// Registers a fresh task of type `task_type` under the next id and
    /// returns that id. Returns `None`, and changes nothing, exactly when
    /// the ids have run out.
    pub fn add_task(&mut self, task_type: TaskType, parent: Option<usize>) -> (r: Option<usize>)
        requires
            old(self).wf(),
        ensures
            final(self).wf(),
            forall|pool: PageAllocImpl|
                old(self).consistent(pool) ==> #[trigger] final(self).consistent(pool),
            match r {
                Some(id) => {
                    &&& id == old(self).next_id()
                    &&& id < usize::MAX
                    &&& final(self).next_id() == id + 1
                    &&& final(self).tasks().len() == old(self).tasks().len() + 1
                    &&& final(self).tasks().drop_last() == old(self).tasks()
                    &&& final(self).tasks().last().task_id == id
                    &&& final(self).tasks().last().task_type == task_type
                    &&& final(self).tasks().last().parent == parent
                    &&& final(self).tasks().last().exit_code is None
                    &&& final(self).tasks().last().state == crate::task::TaskState::Created
                    &&& !final(self).tasks().last().pcb_locked
                    &&& final(self).tasks().last().entry == 0
                    &&& final(self).tasks().last().memset.pages() == Seq::<PageEntry>::empty()
                },
                None => old(self).next_id() == usize::MAX && final(self).tasks() == old(self).tasks() && final(self).next_id() == old(self).next_id(),
            },
    {
        if self.next_id == usize::MAX {
            return None;
        }
        let id: usize = self.next_id;
        let task = UserTask::new(id, task_type, parent);
        self.tasks.push(task);
        self.next_id = id + 1;
        proof {
            assert(self.tasks().drop_last() =~= old(self).tasks());
            let sets = old(self).page_sets();
            assert(self.page_sets() =~= sets.push(Seq::<PageEntry>::empty()));
            assert forall|pool: PageAllocImpl| old(self).consistent(pool) implies #[trigger] self.consistent(
                pool,
            ) by {
                assert forall|q: usize| q < pool.refs().len() implies #[trigger] pool.refs()[q as int]
                    >= holders(self.page_sets(), q) by {
                    lemma_holders_push(sets, Seq::<PageEntry>::empty(), q);
                }
            }
        }
        Some(id)
    }
}

impl TaskTable {
    /// Ends the task at position `i` with `code`.
    fn exit_at(&mut self, pool: &mut PageAllocImpl, i: usize, code: usize)
        requires
            old(self).wf(),
            old(self).consistent(*old(pool)),
            i < old(self).tasks().len(),
        ensures
            final(self).wf(),
            final(self).consistent(*final(pool)),
            final(self).same_but_at(*old(self), i as int),
            final(self).tasks()[i as int].is_exit_of(old(self).tasks()[i as int], code),
            old(self).tasks()[i as int].exit_code is Some ==> *final(pool) == *old(pool),
            frames_released(
                old(self).tasks()[i as int].memset.pages(),
                old(pool).refs(),
                old(pool).frames(),
                final(pool).refs(),
                final(pool).frames(),
            ),
    {
        proof {
            self.lemma_backed(*pool, i as int);
        }
        self.tasks[i].exit(pool, code);
        proof {
            let sets = old(self).page_sets();
            let gone = Seq::<PageEntry>::empty();
            assert(self.page_sets() =~= sets.update(i as int, gone));
            assert(sets[i as int] == old(self).tasks()[i as int].memset.pages());
            old(self).lemma_others_private(*old(pool), pool.refs(), i as int);
            assert forall|k: int| 0 <= k < self.tasks().len() implies writable_private(
                (#[trigger] self.tasks()[k]).memset.pages(),
                pool.refs(),
            ) by {
                if k != i {
                    assert(self.tasks()[k] == old(self).tasks()[k]);
                }
            }
            assert forall|q: usize| q < pool.refs().len() implies #[trigger] pool.refs()[q as int]
                >= holders(self.page_sets(), q) by {
                lemma_holders_update(sets, i as int, gone, q);
                assert(old(pool).refs()[q as int] >= holders(sets, q));
            }
            assert forall|k: int| 0 <= k < self.tasks().len() implies pages_in_range(
                (#[trigger] self.tasks()[k]).memset.pages(),
                pool.refs().len(),
            ) by {
                if k != i {
                    assert(self.tasks()[k] == old(self).tasks()[k]);
                }
            }
            assert forall|a: int, b: int| 0 <= a < b < self.tasks().len() implies (
            #[trigger] self.tasks()[a]).task_id != (#[trigger] self.tasks()[b]).task_id by {
                assert(self.tasks()[a].task_id == old(self).tasks()[a].task_id);
                assert(self.tasks()[b].task_id == old(self).tasks()[b].task_id);
            }
        }
    }

    /// Ends the task with id `id` with `code`: the first exit code stays,
    /// the task's pages are given up, its parent has one live child less,
    /// and the task stays registered until it is released. Returns `false`, and changes nothing, exactly when no
    /// such task is registered.
    pub fn exit(&mut self, pool: &mut PageAllocImpl, id: usize, code: usize) -> (found: bool)
        requires
            old(self).wf(),
            old(self).consistent(*old(pool)),
        ensures
            final(self).wf(),
            final(self).consistent(*final(pool)),
            found == old(self).has(id),
            !found ==> final(self).tasks() == old(self).tasks() && final(self).next_id() == old(self).next_id() && *final(pool) == *old(pool),
            found ==> {
                let i = old(self).index_of(id);
                &&& final(self).same_but_at(*old(self), i)
                &&& final(self).tasks()[i].is_exit_of(old(self).tasks()[i], code)
                &&& (old(self).tasks()[i].exit_code is Some ==> *final(pool) == *old(pool))
                &&& frames_released(
                    old(self).tasks()[i].memset.pages(),
                    old(pool).refs(),
                    old(pool).frames(),
                    final(pool).refs(),
                    final(pool).frames(),
                )
                &&& forall|p: usize| #[trigger]
                    live_children_of(final(self).tasks(), p) + (if is_live_child(
                        old(self).tasks()[i],
                        p,
                    ) {
                        1nat
                    } else {
                        0nat
                    }) == live_children_of(old(self).tasks(), p)
            },
    {
        match self.position(id) {
            None => false,
            Some(i) => {
                proof {
                    self.lemma_index_of(i as int, id);
                }
                self.exit_at(pool, i, code);
                proof {
                    let before = old(self).tasks();
                    assert(self.tasks() =~= before.update(i as int, self.tasks()[i as int]));
                    assert forall|p: usize| #[trigger]
                        live_children_of(self.tasks(), p) + (if is_live_child(before[i as int], p) {
                            1nat
                        } else {
                            0nat
                        }) == live_children_of(before, p) by {
                        lemma_child_exit(before, i as int, self.tasks()[i as int], code, p);
                    }
                }
                true
            },
        }
    }

    /// The number of children of the task with id `parent` that have not
    /// exited.
    pub fn live_children(&self, parent: usize) -> (n: usize)
        ensures
            n == live_children_of(self.tasks(), parent),
    {
        let mut n: usize = 0;
        let mut i: usize = 0;
        assert(self.tasks@.take(0) =~= Seq::<UserTask>::empty());
        while i < self.tasks.len()
            invariant
                i <= self.tasks@.len(),
                n <= i,
                n == live_children_of(self.tasks@.take(i as int), parent),
            decreases self.tasks@.len() - i,
        {
            assert(self.tasks@.take(i + 1).drop_last() =~= self.tasks@.take(i as int));
            let is_child = match self.tasks[i].parent {
                Some(p) => p == parent,
                None => false,
            };
            if is_child && self.tasks[i].exit_code.is_none() {
                n += 1;
            }
            i += 1;
        }
        assert(self.tasks@.take(i as int) =~= self.tasks@);
        n
    }

    /// The exit code of the task with id `id`: `None` while it runs, and
    /// also when no such task is registered.
    pub fn exit_code(&self, id: usize) -> (code: Option<usize>)
        requires
            self.wf(),
        ensures
            code == if self.has(id) {
                self.tasks()[self.index_of(id)].exit_code
            } else {
                None
            },
    {
        match self.position(id) {
            None => None,
            Some(i) => {
                proof {
                    self.lemma_index_of(i as int, id);
                }
                self.tasks[i].exit_code
            },
        }
    }

    /// Removes the task with id `id` from the registry, giving up whatever
    /// pages it still holds. Returns `false`, and changes nothing, exactly
    /// when no such task is registered.
    pub fn release_task(&mut self, pool: &mut PageAllocImpl, id: usize) -> (found: bool)
        requires
            old(self).wf(),
            old(self).consistent(*old(pool)),
        ensures
            final(self).wf(),
            final(self).consistent(*final(pool)),
            final(self).next_id() == old(self).next_id(),
            found == old(self).has(id),
            !final(self).has(id),
            !found ==> final(self).tasks() == old(self).tasks() && *final(pool) == *old(pool),
            found ==> {
                let i = old(self).index_of(id);
                &&& final(self).tasks() == old(self).tasks().remove(i)
                &&& frames_released(
                    old(self).tasks()[i].memset.pages(),
                    old(pool).refs(),
                    old(pool).frames(),
                    final(pool).refs(),
                    final(pool).frames(),
                )
            },
    {
        match self.position(id) {
            None => false,
            Some(i) => {
                proof {
                    self.lemma_index_of(i as int, id);
                    self.lemma_backed(*pool, i as int);
                }
                self.tasks[i].memset.release(pool);
                let _ = self.tasks.remove(i);
                proof {
                    let before = old(self).tasks();
                    let after = self.tasks();
                    assert(after =~= before.remove(i as int));
                    let sets = old(self).page_sets();
                    assert(self.page_sets() =~= sets.remove(i as int));
                    assert(sets[i as int] == before[i as int].memset.pages());
                    old(self).lemma_others_private(*old(pool), pool.refs(), i as int);
                    assert forall|k: int| 0 <= k < after.len() implies writable_private(
                        (#[trigger] after[k]).memset.pages(),
                        pool.refs(),
                    ) by {
                        if k < i {
                            assert(after[k] == before[k]);
                        } else {
                            assert(after[k] == before[k + 1]);
                        }
                    }
                    assert forall|q: usize| q < pool.refs().len() implies #[trigger] pool.refs()[q as int]
                        >= holders(self.page_sets(), q) by {
                        lemma_holders_remove(sets, i as int, q);
                        assert(old(pool).refs()[q as int] >= holders(sets, q));
                    }
                    assert forall|k: int| 0 <= k < after.len() implies (#[trigger] after[k]).wf()
                        && after[k].task_id < self.next_id() && after[k].task_id != id
                        && pages_in_range(after[k].memset.pages(), pool.refs().len()) by {
                        if k < i {
                            assert(after[k] == before[k]);
                            old(self).lemma_ids_unique(k, i as int);
                        } else {
                            assert(after[k] == before[k + 1]);
                            old(self).lemma_ids_unique(k + 1, i as int);
                        }
                    }
                    assert forall|a: int, b: int| 0 <= a < b < after.len() implies (
                    #[trigger] after[a]).task_id != (#[trigger] after[b]).task_id by {
                        let a0 = if a < i { a } else { a + 1 };
                        let b0 = if b < i { b } else { b + 1 };
                        assert(after[a] == before[a0]);
                        assert(after[b] == before[b0]);
                        old(self).lemma_ids_unique(a0, b0);
                    }
                }
                true
            },
        }
    }
}

impl TaskTable {
    /// Forks the task with id `parent_id`: the child gets the next id, the
    /// parent's type and a memory-set that shares every frame of the
    /// parent's copy-on-write; it is registered, not yet handed to the
    /// scheduler. Fails, and changes nothing, when no such task is
    /// registered, else when the ids have run out, else when a frame's
    /// reference count cannot grow.
    pub fn fork(&mut self, pool: &mut PageAllocImpl, parent_id: usize) -> (r: Result<
        usize,
        ForkError,
    >)
        requires
            old(self).wf(),
            old(self).consistent(*old(pool)),
        ensures
            final(self).wf(),
            final(self).consistent(*final(pool)),
            final(pool).frames() == old(pool).frames(),
            match r {
                Ok(id) => {
                    let p = old(self).index_of(parent_id);
                    let parent = old(self).tasks()[p];
                    let shared = parent.memset.pages().map_values(|e: PageEntry| cow_shared(e));
                    let child = final(self).tasks().last();
                    &&& old(self).has(parent_id)
                    &&& id == old(self).next_id()
                    &&& id < usize::MAX
                    &&& final(self).next_id() == id + 1
                    &&& final(self).tasks().len() == old(self).tasks().len() + 1
                    &&& forall|k: int|
                        0 <= k < old(self).tasks().len() && k != p ==> #[trigger] final(self).tasks()[k] == old(self).tasks()[k]
                    &&& final(self).tasks()[p].same_but_memset(parent)
                    &&& final(self).tasks()[p].memset.pages() == shared
                    &&& child.task_id == id
                    &&& child.task_type == parent.task_type
                    &&& child.parent == Some(parent_id)
                    &&& child.exit_code is None
                    &&& child.state == crate::task::TaskState::Created
                    &&& !child.pcb_locked
                    &&& child.entry == parent.entry
                    &&& child.memset.pages() == shared
                    &&& frames_shared(
                        parent.memset.pages(),
                        old(pool).refs(),
                        final(pool).refs(),
                    )
                },
                Err(e) => {
                    &&& final(self).tasks() == old(self).tasks()
                    &&& final(self).next_id() == old(self).next_id()
                    &&& final(pool).refs() == old(pool).refs()
                    &&& (e == ForkError::NoSuchTask <==> !old(self).has(parent_id))
                    &&& (e == ForkError::NoTaskId <==> old(self).has(parent_id) && old(self).next_id() == usize::MAX)
                },
            },
            r is Err <==> !old(self).has(parent_id) || old(self).next_id() == usize::MAX
                || !crate::memset::can_share_all(
                old(self).tasks()[old(self).index_of(parent_id)].memset.pages(),
                old(pool).refs(),
            ),
    {
        let p: usize = match self.position(parent_id) {
            None => {
                return Err(ForkError::NoSuchTask);
            },
            Some(p) => p,
        };
        proof {
            self.lemma_index_of(p as int, parent_id);
            self.lemma_backed(*pool, p as int);
        }
        if self.next_id == usize::MAX {
            return Err(ForkError::NoTaskId);
        }
        let id: usize = self.next_id;
        let task_type = self.tasks[p].task_type;
        let entry: u64 = self.tasks[p].entry;
        let child_set = match self.tasks[p].memset.fork(pool) {
            Err(e) => {
                assert(self.tasks() =~= old(self).tasks());
                return Err(e);
            },
            Ok(m) => m,
        };
        let mut child = UserTask::new(id, task_type, Some(parent_id));
        child.memset = child_set;
        child.entry = entry;
        self.tasks.push(child);
        self.next_id = id + 1;
        proof {
            let before = old(self).tasks();
            let after = self.tasks();
            let orig = before[p as int].memset.pages();
            let shared = orig.map_values(|e: PageEntry| cow_shared(e));
            let sets = old(self).page_sets();
            assert(sets[p as int] == orig);
            assert(self.page_sets() =~= sets.update(p as int, shared).push(shared));
            old(self).lemma_others_private(*old(pool), pool.refs(), p as int);
            assert forall|k: int| 0 <= k < after.len() implies writable_private(
                (#[trigger] after[k]).memset.pages(),
                pool.refs(),
            ) by {
                if k < before.len() && k != p {
                    assert(after[k] == before[k]);
                } else {
                    assert(after[k].memset.pages() == shared);
                }
            }
            assert forall|q: usize| q < pool.refs().len() implies #[trigger] pool.refs()[q as int]
                >= holders(self.page_sets(), q) by {
                lemma_holders_update(sets, p as int, shared, q);
                lemma_holders_push(sets.update(p as int, shared), shared, q);
                lemma_holds_shared(orig, q);
                assert(old(pool).refs()[q as int] >= holders(sets, q));
            }
            assert forall|k: int| 0 <= k < after.len() implies (#[trigger] after[k]).wf()
                && after[k].task_id < self.next_id() && pages_in_range(
                after[k].memset.pages(),
                pool.refs().len(),
            ) by {
                if k < before.len() && k != p {
                    assert(after[k] == before[k]);
                } else {
                    assert(after[k].memset.pages() == shared);
                    assert(pages_in_range(orig, old(pool).refs().len()));
                    assert forall|j: int| 0 <= j < shared.len() implies (#[trigger] shared[j]).ppn
                        < pool.refs().len() by {
                        assert(orig[j].ppn < pool.refs().len());
                    }
                    if k == p {
                        assert(after[k].exit_code is Some ==> orig =~= Seq::<PageEntry>::empty());
                        assert(after[k].exit_code is Some ==> shared =~= Seq::<PageEntry>::empty());
                    }
                }
            }
            assert forall|a: int, b: int| 0 <= a < b < after.len() implies (
            #[trigger] after[a]).task_id != (#[trigger] after[b]).task_id by {
                assert(after[a].task_id == before[a].task_id);
                if b < before.len() {
                    assert(after[b].task_id == before[b].task_id);
                }
            }
        }
        Ok(id)
    }

    /// Maps virtual page `vpn` of the task with id `id` onto a fresh frame.
    /// Returns `None`, and changes nothing, exactly when no such task is
    /// registered or the task has exited; else what mapping the page gave.
    pub fn map_page(&mut self, pool: &mut PageAllocImpl, id: usize, vpn: u64, writable: bool) -> (r:
        Option<Result<usize, MapError>>)
        requires
            old(self).wf(),
            old(self).consistent(*old(pool)),
        ensures
            final(self).wf(),
            final(self).consistent(*final(pool)),
            final(pool).frames() == old(pool).frames(),
            r is Some <==> old(self).has(id) && old(self).tasks()[old(self).index_of(
                id,
            )].exit_code is None,
            r is None ==> final(self).tasks() == old(self).tasks() && final(self).next_id() == old(self).next_id() && final(pool).refs() == old(pool).refs(),
            r is Some ==> {
                let i = old(self).index_of(id);
                let before = old(self).tasks()[i].memset;
                let after = final(self).tasks()[i].memset;
                &&& final(self).same_but_at(*old(self), i)
                &&& final(self).tasks()[i].same_but_memset(old(self).tasks()[i])
                &&& match r.unwrap() {
                    Ok(ppn) => {
                        &&& !before.maps(vpn)
                        &&& old(pool).first_free(ppn)
                        &&& final(pool).refs() == old(pool).refs().update(ppn as int, 1usize)
                        &&& after.pages() == before.pages().push(
                            PageEntry { vpn, ppn, writable, cow: false },
                        )
                    },
                    Err(e) => {
                        &&& after.pages() == before.pages()
                        &&& final(pool).refs() == old(pool).refs()
                        &&& (e == MapError::AlreadyMapped <==> before.maps(vpn))
                        &&& (e == MapError::OutOfFrames <==> !before.maps(vpn) && old(pool).exhausted())
                    },
                }
            },
    {
        let i: usize = match self.position(id) {
            None => {
                return None;
            },
            Some(i) => i,
        };
        proof {
            self.lemma_index_of(i as int, id);
            self.lemma_backed(*pool, i as int);
        }
        if self.tasks[i].exit_code.is_some() {
            return None;
        }
        let r = self.tasks[i].memset.map_page(pool, vpn, writable);
        proof {
            let sets = old(self).page_sets();
            let pages = old(self).tasks()[i as int].memset.pages();
            let pages2 = self.tasks()[i as int].memset.pages();
            assert(sets[i as int] == pages);
            assert(self.page_sets() =~= sets.update(i as int, pages2));
            assert forall|q: usize| q < pool.refs().len() implies #[trigger] pool.refs()[q as int]
                >= holders(self.page_sets(), q) by {
                lemma_holders_update(sets, i as int, pages2, q);
                assert(old(pool).refs()[q as int] >= holders(sets, q));
                if let Ok(ppn) = r {
                    lemma_holds_push(pages, PageEntry { vpn, ppn, writable, cow: false }, q);
                    lemma_holders_bound(sets, i as int, q);
                }
            }
            self.lemma_kept(*old(self), *pool, old(pool).refs().len(), i as int);
        }
        Some(r)
    }

    /// Registry facts that carry over when only the task at position `i`
    /// changed, kept its id, and its memory-set stayed in range.
    proof fn lemma_kept(&self, before: TaskTable, pool: PageAllocImpl, n: nat, i: int)
        requires
            before.wf(),
            self.same_but_at(before, i),
            0 <= i < self.tasks().len(),
            self.tasks()[i].task_id == before.tasks()[i].task_id,
            self.tasks()[i].wf(),
            pool.refs().len() == n,
            forall|k: int|
                0 <= k < before.tasks().len() ==> pages_in_range(
                    (#[trigger] before.tasks()[k]).memset.pages(),
                    n,
                ),
            self.tasks()[i].memset.backed_by(pool),
        ensures
            self.wf(),
            forall|k: int|
                0 <= k < self.tasks().len() ==> pages_in_range(
                    (#[trigger] self.tasks()[k]).memset.pages(),
                    pool.refs().len(),
                ),
    {
        assert forall|k: int| 0 <= k < self.tasks().len() implies (#[trigger] self.tasks()[k]).wf()
            && self.tasks()[k].task_id < self.next_id() && pages_in_range(
            self.tasks()[k].memset.pages(),
            pool.refs().len(),
        ) by {
            if k != i {
                assert(self.tasks()[k] == before.tasks()[k]);
            } else {
                assert(before.tasks()[i].task_id < before.next_id());
            }
        }
        assert forall|a: int, b: int| 0 <= a < b < self.tasks().len() implies (
        #[trigger] self.tasks()[a]).task_id != (#[trigger] self.tasks()[b]).task_id by {
            assert(self.tasks()[a].task_id == before.tasks()[a].task_id);
            assert(self.tasks()[b].task_id == before.tasks()[b].task_id);
        }
    }

    /// Resolves a page fault of the task with id `id` at `addr` against the
    /// copy-on-write model. Returns `None`, and changes nothing, exactly
    /// when no such task is registered; else how the fault ended.
    pub fn user_cow_int(&mut self, pool: &mut PageAllocImpl, id: usize, addr: u64) -> (r: Option<
        CowOutcome,
    >)
        requires
            old(self).wf(),
            old(self).consistent(*old(pool)),
        ensures
            final(self).wf(),
            final(self).consistent(*final(pool)),
            r is Some <==> old(self).has(id),
            r is None ==> final(self).tasks() == old(self).tasks() && final(self).next_id() == old(self).next_id() && *final(pool) == *old(pool),
            r is Some ==> {
                let i = old(self).index_of(id);
                let before = old(self).tasks()[i].memset;
                let after = final(self).tasks()[i].memset;
                &&& final(self).same_but_at(*old(self), i)
                &&& final(self).tasks()[i].same_but_memset(old(self).tasks()[i])
                &&& (!before.maps(page_of(addr)) ==> r == Some(CowOutcome::Unmapped)
                    && after.pages() == before.pages() && final(pool).refs() == old(pool).refs()
                    && final(pool).frames() == old(pool).frames())
                &&& forall|k: int|
                    0 <= k < before.pages().len() && (#[trigger] before.pages()[k]).vpn == page_of(
                        addr,
                    ) ==> cow_resolved(
                        before.pages(),
                        old(pool).refs(),
                        old(pool).frames(),
                        k,
                        r.unwrap(),
                        after.pages(),
                        final(pool).refs(),
                        final(pool).frames(),
                    )
            },
    {
        let i: usize = match self.position(id) {
            None => {
                return None;
            },
            Some(i) => i,
        };
        proof {
            self.lemma_index_of(i as int, id);
            self.lemma_backed(*pool, i as int);
        }
        let r = self.tasks[i].memset.user_cow_int(pool, addr);
        proof {
            let sets = old(self).page_sets();
            let pages = old(self).tasks()[i as int].memset.pages();
            let pages2 = self.tasks()[i as int].memset.pages();
            let refs = old(pool).refs();
            assert(sets[i as int] == pages);
            assert(self.page_sets() =~= sets.update(i as int, pages2));
            if !old(self).tasks()[i as int].memset.maps(page_of(addr)) {
                assert(pages2 == pages);
            } else {
                let k = choose|k: int|
                    0 <= k < pages.len() && (#[trigger] pages[k]).vpn == page_of(addr);
                assert(pages[k].vpn == page_of(addr));
                assert(cow_resolved(
                    pages,
                    refs,
                    old(pool).frames(),
                    k,
                    r,
                    pages2,
                    pool.refs(),
                    pool.frames(),
                ));
                let e = pages[k];
                assert(pages2.len() == pages.len());
                assert(self.tasks()[i as int].exit_code is None) by {
                    if old(self).tasks()[i as int].exit_code is Some {
                        assert(pages.len() == 0);
                    }
                }
                assert forall|q: usize| q < pool.refs().len() implies #[trigger] pool.refs()[q as int]
                    >= holders(self.page_sets(), q) by {
                    lemma_holders_update(sets, i as int, pages2, q);
                    lemma_holders_bound(sets, i as int, q);
                    assert(refs[q as int] >= holders(sets, q));
                    match r {
                        CowOutcome::Promoted => {
                            lemma_holds_update(pages, k, crate::memset::private_on(e, e.ppn), q);
                            assert(frame_among(pages, e.ppn, pages.len() as int));
                        },
                        CowOutcome::Copied { frame } => {
                            lemma_holds_update(pages, k, crate::memset::private_on(e, frame), q);
                            assert(frame_among(pages, e.ppn, pages.len() as int));
                        },
                        _ => {},
                    }
                }
            }
            assert(self.page_sets() =~= sets.update(i as int, pages2));
            assert forall|q: usize| q < pool.refs().len() implies #[trigger] pool.refs()[q as int]
                >= holders(self.page_sets(), q) by {
                if pages2 == pages {
                    assert(self.page_sets() =~= sets);
                    assert(pool.refs() == refs);
                    assert(refs[q as int] >= holders(sets, q));
                }
            }
            self.lemma_kept(*old(self), *pool, old(pool).refs().len(), i as int);
        }
        Some(r)
    }
}

impl TaskTable {
    /// What is executing when `current` names the running task: a user
    /// task if that id is registered for a task of the monolithic kind, the
    /// kernel if not.
    pub open spec fn context_of(&self, current: Option<usize>) -> ExecContext {
        if current is Some && self.has(current.unwrap()) && self.tasks()[self.index_of(
            current.unwrap(),
        )].task_type == TaskType::MonolithicTask {
            ExecContext::UserTask {
                pcb_locked: self.tasks()[self.index_of(current.unwrap())].pcb_locked,
            }
        } else {
            ExecContext::Kernel
        }
    }

    /// Nothing changed from `before` and `pool_before`.
    pub open spec fn untouched(
        &self,
        pool: PageAllocImpl,
        before: TaskTable,
        pool_before: PageAllocImpl,
    ) -> bool {
        &&& self.tasks() == before.tasks()
        &&& self.next_id() == before.next_id()
        &&& pool == pool_before
    }

    /// What is executing when `current` names the running task.
    pub fn context(&self, current: Option<usize>) -> (ctx: ExecContext)
        requires
            self.wf(),
        ensures
            ctx == self.context_of(current),
    {
        match current {
            None => ExecContext::Kernel,
            Some(id) => match self.position(id) {
                None => ExecContext::Kernel,
                Some(i) => {
                    proof {
                        self.lemma_index_of(i as int, id);
                    }
                    match self.tasks[i].task_type {
                        TaskType::MonolithicTask => ExecContext::UserTask {
                            pcb_locked: self.tasks[i].pcb_locked,
                        },
                        _ => ExecContext::Kernel,
                    }
                },
            },
        }
    }

    /// Handles a trap taken with saved program counter `sepc` while the
    /// task `current` was running. The trap takes the path that `dispatch`
    /// chooses. A page fault of a user task unlocks the task's process
    /// control block if it is held and goes to the copy-on-write handler.
    /// An illegal instruction of a user task records the two translations
    /// and changes nothing. Every other path changes nothing.
    pub fn handle_trap(
        &mut self,
        pool: &mut PageAllocImpl,
        current: Option<usize>,
        trap: TrapType,
        sepc: u64,
    ) -> (r: TrapOutcome)
        requires
            old(self).wf(),
            old(self).consistent(*old(pool)),
        ensures
            final(self).wf(),
            final(self).consistent(*final(pool)),
            match dispatch(trap, sepc, old(self).context_of(current)) {
                TrapAction::ResolveFault { addr, force_unlock } => {
                    let i = old(self).index_of(current.unwrap());
                    let before = old(self).tasks()[i];
                    let after = final(self).tasks()[i];
                    &&& r matches TrapOutcome::Fault { forced_unlock, outcome }
                    &&& forced_unlock == force_unlock
                    &&& final(self).same_but_at(*old(self), i)
                    &&& !after.pcb_locked
                    &&& after.task_id == before.task_id
                    &&& after.task_type == before.task_type
                    &&& after.parent == before.parent
                    &&& after.exit_code == before.exit_code
                    &&& after.state == before.state
                    &&& after.entry == before.entry
                    &&& (!before.memset.maps(page_of(addr)) ==> outcome == CowOutcome::Unmapped
                        && after.memset.pages() == before.memset.pages() && final(pool).refs()
                        == old(pool).refs() && final(pool).frames() == old(pool).frames())
                    &&& forall|k: int|
                        0 <= k < before.memset.pages().len() && (
                        #[trigger] before.memset.pages()[k]).vpn == page_of(addr) ==> cow_resolved(
                            before.memset.pages(),
                            old(pool).refs(),
                            old(pool).frames(),
                            k,
                            outcome,
                            after.memset.pages(),
                            final(pool).refs(),
                            final(pool).frames(),
                        )
                },
                TrapAction::TaskIllegal { addr, sepc } => {
                    let task = old(self).tasks()[old(self).index_of(current.unwrap())];
                    &&& final(self).untouched(*final(pool), *old(self), *old(pool))
                    &&& r == (TrapOutcome::Illegal {
                        fault_paddr: task.memset.translation(addr),
                        pc_paddr: task.memset.translation(sepc),
                        pc: sepc,
                    })
                },
                TrapAction::HandleInterrupt { irq } => {
                    &&& final(self).untouched(*final(pool), *old(self), *old(pool))
                    &&& r == TrapOutcome::Interrupt { irq }
                },
                TrapAction::Ignore => {
                    &&& final(self).untouched(*final(pool), *old(self), *old(pool))
                    &&& r == TrapOutcome::Ignored
                },
                fatal => {
                    &&& final(self).untouched(*final(pool), *old(self), *old(pool))
                    &&& r == TrapOutcome::Fatal(fatal)
                },
            },
    {
        let ctx = self.context(current);
        let action = kernel_interrupt(trap, sepc, ctx);
        match action {
            TrapAction::ResolveFault { addr, force_unlock } => {
                let id: usize = current.unwrap();
                let i: usize = self.position(id).unwrap();
                proof {
                    self.lemma_index_of(i as int, id);
                }
                if force_unlock {
                    self.tasks[i].force_unlock();
                }
                proof {
                    self.lemma_memsets_kept(*old(self), *pool, i as int);
                    self.lemma_index_of(i as int, id);
                }
                let ghost mid = *self;
                let outcome = self.user_cow_int(pool, id, addr).unwrap();
                proof {
                    assert forall|k: int| 0 <= k < self.tasks().len() && k != i implies (
                    #[trigger] self.tasks()[k]) == old(self).tasks()[k] by {
                        assert(self.tasks()[k] == mid.tasks()[k]);
                    }
                }
                TrapOutcome::Fault { forced_unlock: force_unlock, outcome }
            },
            TrapAction::TaskIllegal { addr, sepc } => {
                let id: usize = current.unwrap();
                let i: usize = self.position(id).unwrap();
                proof {
                    self.lemma_index_of(i as int, id);
                }
                let fault_paddr = self.tasks[i].memset.translate(addr);
                let pc_paddr = self.tasks[i].memset.translate(sepc);
                TrapOutcome::Illegal { fault_paddr, pc_paddr, pc: sepc }
            },
            TrapAction::HandleInterrupt { irq } => TrapOutcome::Interrupt { irq },
            TrapAction::Ignore => TrapOutcome::Ignored,
            TrapAction::KernelPageError { addr, sepc } => TrapOutcome::Fatal(action),
            TrapAction::NotUserTask { trap } => TrapOutcome::Fatal(action),
        }
    }

    /// Ends every registered user task of the monolithic kind with the
    /// kill code; a task that had exited keeps its code. Tasks of the other
    /// kinds are left alone. Every frame loses one reference for each killed
    /// task that mapped it, and is cleared if it was in use and none is
    /// left.
    pub fn kill_all_tasks(&mut self, pool: &mut PageAllocImpl)
        requires
            old(self).wf(),
            old(self).consistent(*old(pool)),
        ensures
            final(self).wf(),
            final(self).consistent(*final(pool)),
            final(self).tasks().len() == old(self).tasks().len(),
            final(self).next_id() == old(self).next_id(),
            forall|k: int|
                0 <= k < old(self).tasks().len() ==> if old(self).tasks()[k].task_type
                    == TaskType::MonolithicTask {
                    (#[trigger] final(self).tasks()[k]).is_exit_of(
                        old(self).tasks()[k],
                        KILLED_EXIT_CODE,
                    )
                } else {
                    final(self).tasks()[k] == old(self).tasks()[k]
                },
            final(pool).refs().len() == old(pool).refs().len(),
            forall|q: usize|
                q < old(pool).refs().len() ==> #[trigger] final(pool).refs()[q as int] == old(pool).refs()[q as int] - holders(killed_sets(old(self).tasks()), q),
            forall|q: usize|
                q < old(pool).refs().len() ==> #[trigger] final(pool).frames()[q as int]
                    == if old(pool).refs()[q as int] > 0 && final(pool).refs()[q as int] == 0 {
                    zero_page()
                } else {
                    old(pool).frames()[q as int]
                },
    {
        let n: usize = self.tasks.len();
        let ghost refs0 = pool.refs();
        let ghost frames0 = pool.frames();
        let ghost killed = killed_sets(self.tasks());
        let mut i: usize = 0;
        assert(killed.take(0) =~= Seq::<Seq<PageEntry>>::empty());
        while i < n
            invariant
                i <= n,
                n == self.tasks().len(),
                n == old(self).tasks().len(),
                self.next_id() == old(self).next_id(),
                self.wf(),
                self.consistent(*pool),
                killed == killed_sets(old(self).tasks()),
                refs0 == old(pool).refs(),
                frames0 == old(pool).frames(),
                pool.refs().len() == refs0.len(),
                forall|k: int|
                    0 <= k < i ==> if old(self).tasks()[k].task_type == TaskType::MonolithicTask {
                        (#[trigger] self.tasks()[k]).is_exit_of(
                            old(self).tasks()[k],
                            KILLED_EXIT_CODE,
                        )
                    } else {
                        self.tasks()[k] == old(self).tasks()[k]
                    },
                forall|k: int| i <= k < n ==> #[trigger] self.tasks()[k] == old(self).tasks()[k],
                forall|q: usize|
                    q < refs0.len() ==> #[trigger] pool.refs()[q as int] == refs0[q as int]
                        - holders(killed.take(i as int), q),
                forall|q: usize|
                    q < refs0.len() ==> #[trigger] pool.frames()[q as int] == if refs0[q as int] > 0
                        && pool.refs()[q as int] == 0 {
                        zero_page()
                    } else {
                        frames0[q as int]
                    },
            decreases n - i,
        {
            let ghost prev = *self;
            let ghost refs1 = pool.refs();
            let ghost frames1 = pool.frames();
            let ghost pages = self.tasks()[i as int].memset.pages();
            proof {
                self.lemma_backed(*pool, i as int);
                assert(self.tasks()[i as int] == old(self).tasks()[i as int]);
                assert(killed.take(i + 1).drop_last() =~= killed.take(i as int));
                assert(killed.take(i + 1).last() == killed[i as int]);
            }
            match self.tasks[i].task_type {
                TaskType::MonolithicTask => {
                    self.exit_at(pool, i, KILLED_EXIT_CODE);
                    proof {
                        assert(killed[i as int] == pages);
                    }
                },
                _ => {
                    proof {
                        assert(killed[i as int] == Seq::<PageEntry>::empty());
                    }
                },
            }
            proof {
                assert forall|k: int| 0 <= k < n && k != i implies #[trigger] self.tasks()[k]
                    == prev.tasks()[k] by {}
                assert forall|q: usize| q < refs0.len() implies #[trigger] pool.refs()[q as int]
                    == refs0[q as int] - holders(killed.take(i + 1), q) by {
                    assert(refs1[q as int] == refs0[q as int] - holders(killed.take(i as int), q));
                }
                assert forall|q: usize| q < refs0.len() implies #[trigger] pool.frames()[q as int]
                    == if refs0[q as int] > 0 && pool.refs()[q as int] == 0 {
                    zero_page()
                } else {
                    frames0[q as int]
                } by {
                    assert(refs1[q as int] == refs0[q as int] - holders(killed.take(i as int), q));
                    assert(frames1[q as int] == if refs0[q as int] > 0 && refs1[q as int] == 0 {
                        zero_page()
                    } else {
                        frames0[q as int]
                    });
                    if frame_among(pages, q, pages.len() as int) {
                        let k = choose|k: int| 0 <= k < pages.len() && (#[trigger] pages[k]).ppn == q;
                        assert(refs1[pages[k].ppn as int] > 0);
                    }
                }
            }
            i += 1;
        }
        assert(killed.take(i as int) =~= killed);
    }

    /// Whether nothing but blank kernel tasks is registered: the moment at
    /// which the machine may shut down.
    pub fn only_blank_kernel(&self) -> (r: bool)
        ensures
            r == forall|k: int|
                0 <= k < self.tasks().len() ==> (#[trigger] self.tasks()[k]).task_type
                    == TaskType::BlankKernel,
    {
        let mut i: usize = 0;
        while i < self.tasks.len()
            invariant
                i <= self.tasks@.len(),
                forall|k: int|
                    0 <= k < i ==> (#[trigger] self.tasks@[k]).task_type == TaskType::BlankKernel,
            decreases self.tasks@.len() - i,
        {
            match self.tasks[i].task_type {
                TaskType::BlankKernel => {},
                _ => {
                    return false;
                },
            }
            i += 1;
        }
        true
    }

    /// One step of waiting for the task with id `id`: a task that has
    /// exited is released and its code returned; one that has not is left
    /// alone.
    pub fn wait_step(&mut self, pool: &mut PageAllocImpl, id: usize) -> (r: WaitStep)
        requires
            old(self).wf(),
            old(self).consistent(*old(pool)),
        ensures
            final(self).wf(),
            final(self).consistent(*final(pool)),
            final(self).next_id() == old(self).next_id(),
            final(pool).refs() == old(pool).refs(),
            final(pool).frames() == old(pool).frames(),
            r == if !old(self).has(id) {
                WaitStep::Gone
            } else {
                match old(self).tasks()[old(self).index_of(id)].exit_code {
                    Some(code) => WaitStep::Reaped(code),
                    None => WaitStep::Yield,
                }
            },
            r is Reaped ==> final(self).tasks() == old(self).tasks().remove(
                old(self).index_of(id),
            ) && !final(self).has(id),
            !(r is Reaped) ==> final(self).tasks() == old(self).tasks(),
    {
        let i: usize = match self.position(id) {
            None => {
                return WaitStep::Gone;
            },
            Some(i) => i,
        };
        proof {
            self.lemma_index_of(i as int, id);
        }
        match self.tasks[i].exit_code {
            None => WaitStep::Yield,
            Some(code) => {
                self.release_task(pool, id);
                proof {
                    assert(old(self).tasks()[i as int].memset.pages().len() == 0);
                    assert forall|j: int| 0 <= j < pool.refs().len() implies pool.refs()[j] == old(pool).refs()[j] && pool.frames()[j] == old(pool).frames()[j] by {
                        let q = j as usize;
                        assert(pool.refs()[q as int] == old(pool).refs()[q as int]);
                        assert(pool.frames()[q as int] == old(pool).frames()[q as int]);
                    }
                    assert(pool.refs() =~= old(pool).refs());
                    assert(pool.frames() =~= old(pool).frames());
                }
                WaitStep::Reaped(code)
            },
        }
    }
}

impl TaskTable {
    /// Registry facts that carry over when the task at position `i` changed
    /// in neither its id nor its memory-set.
    proof fn lemma_memsets_kept(&self, before: TaskTable, pool: PageAllocImpl, i: int)
        requires
            before.wf(),
            before.consistent(pool),
            self.same_but_at(before, i),
            0 <= i < self.tasks().len(),
            self.tasks()[i].task_id == before.tasks()[i].task_id,
            self.tasks()[i].memset == before.tasks()[i].memset,
            self.tasks()[i].wf(),
        ensures
            self.wf(),
            self.consistent(pool),
    {
        assert(self.page_sets() =~= before.page_sets());
        assert forall|k: int| 0 <= k < self.tasks().len() implies (#[trigger] self.tasks()[k]).wf()
            && self.tasks()[k].task_id < self.next_id() && pages_in_range(
            self.tasks()[k].memset.pages(),
            pool.refs().len(),
        ) by {
            if k != i {
                assert(self.tasks()[k] == before.tasks()[k]);
            } else {
                assert(before.tasks()[i].task_id < before.next_id());
                assert(pages_in_range(before.tasks()[i].memset.pages(), pool.refs().len()));
            }
        }
        assert forall|a: int, b: int| 0 <= a < b < self.tasks().len() implies (
        #[trigger] self.tasks()[a]).task_id != (#[trigger] self.tasks()[b]).task_id by {
            assert(self.tasks()[a].task_id == before.tasks()[a].task_id);
            assert(self.tasks()[b].task_id == before.tasks()[b].task_id);
        }
    }

    /// Locks the process control block of the task with id `id`. Returns
    /// `true` exactly when the task is registered and its block was free;
    /// afterwards the block of a registered task is locked either way.
    pub fn try_lock(&mut self, id: usize) -> (got: bool)
        requires
            old(self).wf(),
        ensures
            final(self).wf(),
            forall|pool: PageAllocImpl|
                old(self).consistent(pool) ==> #[trigger] final(self).consistent(pool),
            got == (old(self).has(id) && !old(self).tasks()[old(self).index_of(id)].pcb_locked),
            !old(self).has(id) ==> final(self).tasks() == old(self).tasks() && final(self).next_id() == old(self).next_id(),
            old(self).has(id) ==> {
                let i = old(self).index_of(id);
                &&& final(self).same_but_at(*old(self), i)
                &&& final(self).tasks()[i].pcb_locked
                &&& final(self).tasks()[i].same_but_lock(old(self).tasks()[i])
            },
    {
        match self.position(id) {
            None => false,
            Some(i) => {
                proof {
                    self.lemma_index_of(i as int, id);
                }
                let got = self.tasks[i].try_lock();
                proof {
                    assert forall|pool: PageAllocImpl| old(self).consistent(pool) implies #[trigger] self.consistent(
                        pool,
                    ) by {
                        self.lemma_memsets_kept(*old(self), pool, i as int);
                    }
                    assert(self.wf()) by {
                        assert forall|k: int| 0 <= k < self.tasks().len() implies (
                        #[trigger] self.tasks()[k]).wf() && self.tasks()[k].task_id
                            < self.next_id() && self.tasks()[k].task_id == old(self).tasks()[k].task_id by {
                            if k != i {
                                assert(self.tasks()[k] == old(self).tasks()[k]);
                            }
                        }
                    }
                }
                got
            },
        }
    }

    /// Unlocks the process control block of the task with id `id`. Returns
    /// `true` exactly when the task is registered and its block was locked;
    /// afterwards the block of a registered task is unlocked either way.
    pub fn unlock(&mut self, id: usize) -> (was_locked: bool)
        requires
            old(self).wf(),
        ensures
            final(self).wf(),
            forall|pool: PageAllocImpl|
                old(self).consistent(pool) ==> #[trigger] final(self).consistent(pool),
            was_locked == (old(self).has(id) && old(self).tasks()[old(self).index_of(id)].pcb_locked),
            !old(self).has(id) ==> final(self).tasks() == old(self).tasks() && final(self).next_id() == old(self).next_id(),
            old(self).has(id) ==> {
                let i = old(self).index_of(id);
                &&& final(self).same_but_at(*old(self), i)
                &&& !final(self).tasks()[i].pcb_locked
                &&& final(self).tasks()[i].same_but_lock(old(self).tasks()[i])
            },
    {
        match self.position(id) {
            None => false,
            Some(i) => {
                proof {
                    self.lemma_index_of(i as int, id);
                }
                let was_locked = self.tasks[i].unlock();
                proof {
                    assert forall|pool: PageAllocImpl| old(self).consistent(pool) implies #[trigger] self.consistent(
                        pool,
                    ) by {
                        self.lemma_memsets_kept(*old(self), pool, i as int);
                    }
                    assert(self.wf()) by {
                        assert forall|k: int| 0 <= k < self.tasks().len() implies (
                        #[trigger] self.tasks()[k]).wf() && self.tasks()[k].task_id
                            < self.next_id() && self.tasks()[k].task_id == old(self).tasks()[k].task_id by {
                            if k != i {
                                assert(self.tasks()[k] == old(self).tasks()[k]);
                            }
                        }
                    }
                }
                was_locked
            },
        }
    }

    /// Applies a scheduler event to the task with id `id`. Returns `true`
    /// exactly when the task is registered and the event is allowed in its
    /// state, a yield only with the process control block unlocked;
    /// otherwise nothing changes.
    pub fn schedule(&mut self, id: usize, ev: SchedEvent) -> (ok: bool)
        requires
            old(self).wf(),
        ensures
            final(self).wf(),
            forall|pool: PageAllocImpl|
                old(self).consistent(pool) ==> #[trigger] final(self).consistent(pool),
            ok == (old(self).has(id) && next_state(
                old(self).tasks()[old(self).index_of(id)].state,
                ev,
                old(self).tasks()[old(self).index_of(id)].pcb_locked,
            ) is Some),
            !old(self).has(id) ==> final(self).tasks() == old(self).tasks() && final(self).next_id() == old(self).next_id(),
            old(self).has(id) ==> {
                let i = old(self).index_of(id);
                let before = old(self).tasks()[i];
                let after = final(self).tasks()[i];
                &&& final(self).same_but_at(*old(self), i)
                &&& after.state == if ok {
                    next_state(before.state, ev, before.pcb_locked).unwrap()
                } else {
                    before.state
                }
                &&& after.task_id == before.task_id
                &&& after.task_type == before.task_type
                &&& after.parent == before.parent
                &&& after.exit_code == before.exit_code
                &&& after.pcb_locked == before.pcb_locked
                &&& after.entry == before.entry
                &&& after.memset == before.memset
            },
    {
        match self.position(id) {
            None => false,
            Some(i) => {
                proof {
                    self.lemma_index_of(i as int, id);
                }
                let ok = self.tasks[i].transition(ev);
                proof {
                    assert forall|pool: PageAllocImpl| old(self).consistent(pool) implies #[trigger] self.consistent(
                        pool,
                    ) by {
                        self.lemma_memsets_kept(*old(self), pool, i as int);
                    }
                    assert(self.wf()) by {
                        assert forall|k: int| 0 <= k < self.tasks().len() implies (
                        #[trigger] self.tasks()[k]).wf() && self.tasks()[k].task_id
                            < self.next_id() && self.tasks()[k].task_id == old(self).tasks()[k].task_id by {
                            if k != i {
                                assert(self.tasks()[k] == old(self).tasks()[k]);
                            }
                        }
                    }
                }
                ok
            },
        }
    }
}

impl TaskTable {
    /// The registry stays accounted for when a free frame is taken into
    /// use.
    proof fn lemma_alloc_keeps(&self, pool: PageAllocImpl, pool2: PageAllocImpl, ppn: usize)
        requires
            self.wf(),
            self.consistent(pool),
            pool2.wf(),
            ppn < pool.refs().len(),
            pool.refs()[ppn as int] == 0,
            pool2.refs() == pool.refs().update(ppn as int, 1usize),
        ensures
            self.consistent(pool2),
    {
        assert forall|i: int| 0 <= i < self.tasks().len() implies writable_private(
            (#[trigger] self.tasks()[i]).memset.pages(),
            pool2.refs(),
        ) && pages_in_range(self.tasks()[i].memset.pages(), pool2.refs().len()) by {
            let pages = self.tasks()[i].memset.pages();
            assert(writable_private(pages, pool.refs()));
            assert(pages_in_range(pages, pool.refs().len()));
        }
        assert forall|q: usize| q < pool2.refs().len() implies #[trigger] pool2.refs()[q as int]
            >= holders(self.page_sets(), q) by {
            assert(pool.refs()[q as int] >= holders(self.page_sets(), q));
        }
    }

    /// Replaces the memory-set of the task with id `id` by a program image
    /// and sets its entry point. Each page of the image gets, in order, the
    /// lowest frame that is free, as a private page; the pages that the
    /// task held are given up afterwards. The task keeps its
    /// id and everything else. Fails, and changes nothing, when no such task
    /// is registered, else when it has exited, else when the image places
    /// two pages at one virtual page, else when the image has more pages
    /// than there are free frames.
    pub fn exec(
        &mut self,
        pool: &mut PageAllocImpl,
        id: usize,
        image: &Vec<ImagePage>,
        entry: u64,
    ) -> (r: Result<(), ExecError>)
        requires
            old(self).wf(),
            old(self).consistent(*old(pool)),
        ensures
            final(self).wf(),
            final(self).consistent(*final(pool)),
            match r {
                Err(e) => {
                    let live = old(self).has(id) && old(self).tasks()[old(self).index_of(
                        id,
                    )].exit_code is None;
                    &&& final(self).untouched(*final(pool), *old(self), *old(pool))
                    &&& (e == ExecError::NoSuchTask <==> !old(self).has(id))
                    &&& (e == ExecError::TaskExited <==> old(self).has(id) && !live)
                    &&& (e == ExecError::DuplicatePage <==> live && !image_distinct(image@))
                    &&& (e == ExecError::OutOfFrames <==> live && image_distinct(image@)
                        && free_count(old(pool).refs()) < image@.len())
                },
                Ok(_) => {
                    let i = old(self).index_of(id);
                    let before = old(self).tasks()[i];
                    let after = final(self).tasks()[i];
                    &&& old(self).has(id)
                    &&& before.exit_code is None
                    &&& image_distinct(image@)
                    &&& free_count(old(pool).refs()) >= image@.len()
                    &&& final(self).same_but_at(*old(self), i)
                    &&& after.task_id == before.task_id
                    &&& after.task_type == before.task_type
                    &&& after.parent == before.parent
                    &&& after.exit_code == before.exit_code
                    &&& after.state == before.state
                    &&& after.pcb_locked == before.pcb_locked
                    &&& after.entry == entry
                    &&& loaded_from(after.memset.pages(), image@, old(pool).refs())
                    &&& forall|k: int|
                        0 <= k < image@.len() ==> #[trigger] lowest_fresh(
                            after.memset.pages(),
                            old(pool).refs(),
                            k,
                        )
                    &&& final(pool).refs().len() == old(pool).refs().len()
                    &&& forall|q: usize|
                        q < old(pool).refs().len() ==> #[trigger] final(pool).refs()[q as int]
                            == if before.memset.maps_frame(q) {
                            old(pool).refs()[q as int] - 1
                        } else if after.memset.maps_frame(q) {
                            1int
                        } else {
                            old(pool).refs()[q as int] as int
                        }
                    &&& forall|q: usize|
                        q < old(pool).refs().len() ==> #[trigger] final(pool).frames()[q as int]
                            == if before.memset.maps_frame(q) && old(pool).refs()[q as int] == 1 {
                            zero_page()
                        } else {
                            old(pool).frames()[q as int]
                        }
                },
            },
    {
        let i: usize = match self.position(id) {
            None => {
                return Err(ExecError::NoSuchTask);
            },
            Some(i) => i,
        };
        proof {
            self.lemma_index_of(i as int, id);
            self.lemma_backed(*pool, i as int);
        }
        if self.tasks[i].exit_code.is_some() {
            return Err(ExecError::TaskExited);
        }
        if !check_image(image) {
            return Err(ExecError::DuplicatePage);
        }
        let n: usize = image.len();
        if pool.free_frames() < n {
            return Err(ExecError::OutOfFrames);
        }
        let ghost refs0 = pool.refs();
        let ghost frames0 = pool.frames();
        let mut fresh = MemorySet::new();
        let mut k: usize = 0;
        assert(image@.take(0) =~= Seq::<ImagePage>::empty());
        while k < n
            invariant
                k <= n,
                n == image@.len(),
                image_distinct(image@),
                *self == *old(self),
                self.wf(),
                self.consistent(*pool),
                pool.wf(),
                fresh.wf(),
                fresh.backed_by(*pool),
                pool.frames() == frames0,
                pool.refs().len() == refs0.len(),
                free_count(pool.refs()) + k == free_count(refs0),
                free_count(refs0) >= n,
                loaded_from(fresh.pages(), image@.take(k as int), refs0),
                forall|j: int| 0 <= j < k ==> #[trigger] lowest_fresh(fresh.pages(), refs0, j),
                forall|q: usize|
                    q < refs0.len() ==> #[trigger] pool.refs()[q as int] == if frame_among(
                        fresh.pages(),
                        q,
                        fresh.pages().len() as int,
                    ) {
                        1usize
                    } else {
                        refs0[q as int]
                    },
            decreases n - k,
        {
            let page: ImagePage = image[k];
            let ghost refs1 = pool.refs();
            let ghost pages1 = fresh.pages();
            let ghost pool1 = *pool;
            proof {
                if pool.exhausted() {
                    lemma_free_count_none(pool.refs());
                }
                if fresh.maps(page.vpn) {
                    let j = choose|j: int|
                        0 <= j < pages1.len() && (#[trigger] pages1[j]).vpn == page.vpn;
                    assert(image@.take(k as int)[j] == image@[j]);
                    assert(image@[j].vpn != image@[k as int].vpn);
                }
            }
            let r = fresh.map_page(pool, page.vpn, page.writable);
            proof {
                assert(r is Ok);
                let ppn = r.unwrap();
                let e = PageEntry { vpn: page.vpn, ppn, writable: page.writable, cow: false };
                lemma_free_count_taken(refs1, ppn as int, 1usize);
                assert(image@.take(k + 1) =~= image@.take(k as int).push(page));
                assert(!frame_among(pages1, ppn, pages1.len() as int));
                assert(refs0[ppn as int] == 0);
                assert forall|q: usize| q < refs0.len() implies #[trigger] pool.refs()[q as int]
                    == if frame_among(fresh.pages(), q, fresh.pages().len() as int) {
                    1usize
                } else {
                    refs0[q as int]
                } by {
                    lemma_holds_push(pages1, e, q);
                    assert(refs1[q as int] == if frame_among(pages1, q, pages1.len() as int) {
                        1usize
                    } else {
                        refs0[q as int]
                    });
                }
                self.lemma_alloc_keeps(pool1, *pool, ppn);
                let pages2 = fresh.pages();
                assert forall|j: int| 0 <= j < k + 1 implies #[trigger] lowest_fresh(
                    pages2,
                    refs0,
                    j,
                ) by {
                    assert forall|q: usize| q < pages2[j].ppn && q < refs0.len() implies #[trigger] refs0[q as int]
                        != 0 || frame_among(pages2, q, j) by {
                        if j < k {
                            assert(lowest_fresh(pages1, refs0, j));
                            assert(pages2[j] == pages1[j]);
                            if refs0[q as int] == 0 {
                                assert(frame_among(pages1, q, j));
                                let w = choose|w: int|
                                    0 <= w < j && w < pages1.len() && (#[trigger] pages1[w]).ppn
                                        == q;
                                assert(pages2[w].ppn == q);
                            }
                        } else {
                            assert(refs1[q as int] != 0);
                            assert(refs1[q as int] == if frame_among(
                                pages1,
                                q,
                                pages1.len() as int,
                            ) {
                                1usize
                            } else {
                                refs0[q as int]
                            });
                            if refs0[q as int] == 0 {
                                let w = choose|w: int|
                                    0 <= w < pages1.len() && (#[trigger] pages1[w]).ppn == q;
                                assert(pages2[w].ppn == q);
                            }
                        }
                    }
                }
            }
            k += 1;
        }
        assert(image@.take(k as int) =~= image@);
        let ghost pool2 = *pool;
        let ghost new_pages = fresh.pages();
        let ghost old_pages = self.tasks()[i as int].memset.pages();
        self.tasks[i].memset.release(pool);
        self.tasks[i].memset = fresh;
        self.tasks[i].entry = entry;
        proof {
            let sets = old(self).page_sets();
            let refs2 = pool2.refs();
            let refs3 = pool.refs();
            assert(sets[i as int] == old_pages);
            assert(self.page_sets() =~= sets.update(i as int, new_pages));
            assert(pages_backed(old_pages, refs0)) by {
                old(self).lemma_backed(*old(pool), i as int);
            }
            assert forall|q: usize| q < refs0.len() implies !(frame_among(
                old_pages,
                q,
                old_pages.len() as int,
            ) && frame_among(new_pages, q, new_pages.len() as int)) by {
                if frame_among(old_pages, q, old_pages.len() as int) && frame_among(
                    new_pages,
                    q,
                    new_pages.len() as int,
                ) {
                    let a = choose|a: int|
                        0 <= a < old_pages.len() && (#[trigger] old_pages[a]).ppn == q;
                    let b = choose|b: int|
                        0 <= b < new_pages.len() && (#[trigger] new_pages[b]).ppn == q;
                    assert(refs0[old_pages[a].ppn as int] > 0);
                    assert(refs0[new_pages[b].ppn as int] == 0);
                }
            }
            assert forall|q: usize| q < refs0.len() implies #[trigger] refs3[q as int]
                == if frame_among(old_pages, q, old_pages.len() as int) {
                refs0[q as int] - 1
            } else if frame_among(new_pages, q, new_pages.len() as int) {
                1int
            } else {
                refs0[q as int] as int
            } by {
                assert(refs2[q as int] == if frame_among(new_pages, q, new_pages.len() as int) {
                    1usize
                } else {
                    refs0[q as int]
                });
            }
            assert forall|q: usize| q < refs0.len() implies #[trigger] pool.frames()[q as int]
                == if frame_among(old_pages, q, old_pages.len() as int) && refs0[q as int] == 1 {
                zero_page()
            } else {
                frames0[q as int]
            } by {
                assert(refs2[q as int] == if frame_among(new_pages, q, new_pages.len() as int) {
                    1usize
                } else {
                    refs0[q as int]
                });
            }
            assert forall|q: usize| q < pool.refs().len() implies #[trigger] pool.refs()[q as int]
                >= holders(self.page_sets(), q) by {
                lemma_holders_update(sets, i as int, new_pages, q);
                lemma_holders_bound(sets, i as int, q);
                assert(refs0[q as int] >= holders(sets, q));
                assert(refs3[q as int] == if frame_among(old_pages, q, old_pages.len() as int) {
                    refs0[q as int] - 1
                } else if frame_among(new_pages, q, new_pages.len() as int) {
                    1int
                } else {
                    refs0[q as int] as int
                });
                if frame_among(new_pages, q, new_pages.len() as int) {
                    let b = choose|b: int|
                        0 <= b < new_pages.len() && (#[trigger] new_pages[b]).ppn == q;
                    assert(refs0[q as int] == 0);
                }
            }
            old(self).lemma_others_private(pool2, refs3, i as int);
            assert(writable_private(new_pages, refs3)) by {
                assert forall|b: int|
                    0 <= b < new_pages.len() && (#[trigger] new_pages[b]).writable
                        && new_pages[b].ppn < refs3.len() implies refs3[new_pages[b].ppn as int]
                    == 1 by {
                    let q = new_pages[b].ppn;
                    assert(frame_among(new_pages, q, new_pages.len() as int));
                    assert(refs3[q as int] == if frame_among(
                        old_pages,
                        q,
                        old_pages.len() as int,
                    ) {
                        refs0[q as int] - 1
                    } else if frame_among(new_pages, q, new_pages.len() as int) {
                        1int
                    } else {
                        refs0[q as int] as int
                    });
                }
            }
            assert forall|j: int| 0 <= j < self.tasks().len() implies writable_private(
                (#[trigger] self.tasks()[j]).memset.pages(),
                pool.refs(),
            ) by {
                if j != i {
                    assert(self.tasks()[j] == old(self).tasks()[j]);
                }
            }
            self.lemma_kept(*old(self), *pool, old(pool).refs().len(), i as int);
        }
        Ok(())
    }
}

} // verus!
