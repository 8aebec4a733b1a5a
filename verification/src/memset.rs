//! The memory-set of a task: its mapped pages, copy-on-write sharing on fork
//! and the resolution of page faults.

use crate::frame::{zero_page, PageAllocImpl};
use vstd::prelude::*;

verus! {

/// Bytes per page, as an address divisor.
pub const PAGE_BYTES: u64 = 4096;

/// One mapped page: virtual page number, backing frame and permissions.
#[derive(Clone, Copy, Debug, PartialEq, Eq, Structural)]
pub struct PageEntry {
    pub vpn: u64,
    pub ppn: usize,
    pub writable: bool,
    pub cow: bool,
}

/// How a page fault ended.
#[derive(Clone, Copy, Debug, PartialEq, Eq, Structural)]
pub enum CowOutcome {
    /// The task was the frame's only holder: the page is now private and
    /// writable, on the same frame.
    Promoted,
    /// The frame was shared: the page is now private and writable on
    /// `frame`, a fresh copy.
    Copied { frame: usize },
    /// The page is mapped but not copy-on-write: left to the signal path.
    NotCow,
    /// No page is mapped at the address.
    Unmapped,
    /// A copy was needed and no frame is free.
    OutOfFrames,
}

/// Why a page could not be mapped.
#[derive(Clone, Copy, Debug, PartialEq, Eq, Structural)]
pub enum MapError {
    AlreadyMapped,
    OutOfFrames,
}

/// Why a memory-set could not be forked.
#[derive(Clone, Copy, Debug, PartialEq, Eq, Structural)]
pub enum ForkError {
    /// A frame's reference count cannot grow.
    RefCountOverflow,
    /// No task id is left.
    NoTaskId,
    /// The parent is not in the registry.
    NoSuchTask,
}

/// The virtual page that holds `addr`.
pub open spec fn page_of(addr: u64) -> u64 {
    addr / PAGE_BYTES
}

/// The entry that a page becomes on both sides of a fork: read-only, and
/// copy-on-write if it was writable or already copy-on-write.
pub open spec fn cow_shared(e: PageEntry) -> PageEntry {
    PageEntry { vpn: e.vpn, ppn: e.ppn, writable: false, cow: e.writable || e.cow }
}

/// The entry that a copy-on-write page becomes once resolved onto `ppn`.
pub open spec fn private_on(e: PageEntry, ppn: usize) -> PageEntry {
    PageEntry { vpn: e.vpn, ppn, writable: true, cow: false }
}

/// Whether one of the first `n` entries of `pages` is backed by frame `ppn`.
pub open spec fn frame_among(pages: Seq<PageEntry>, ppn: usize, n: int) -> bool {
    exists|k: int| 0 <= k < n && k < pages.len() && (#[trigger] pages[k]).ppn == ppn
}

/// Whether one of the first `n` entries of `pages` maps virtual page `vpn`.
pub open spec fn page_among(pages: Seq<PageEntry>, vpn: u64, n: int) -> bool {
    exists|k: int| 0 <= k < n && k < pages.len() && (#[trigger] pages[k]).vpn == vpn
}

/// No virtual page is mapped twice, no frame backs two pages, and a
/// copy-on-write page is not writable.
pub open spec fn pages_wf(pages: Seq<PageEntry>) -> bool {
    &&& forall|i: int, j: int|
        0 <= i < j < pages.len() ==> (#[trigger] pages[i]).vpn != (#[trigger] pages[j]).vpn
    &&& forall|i: int, j: int|
        0 <= i < j < pages.len() ==> (#[trigger] pages[i]).ppn != (#[trigger] pages[j]).ppn
    &&& forall|i: int| 0 <= i < pages.len() ==> (#[trigger] pages[i]).cow ==> !pages[i].writable
}

/// Every page is backed by a frame that is in use according to `refs`.
pub open spec fn pages_backed(pages: Seq<PageEntry>, refs: Seq<usize>) -> bool {
    forall|i: int|
        0 <= i < pages.len() ==> (#[trigger] pages[i]).ppn < refs.len() && refs[pages[i].ppn as int]
            > 0
}

/// Every backing frame's reference count can still grow by one.
pub open spec fn can_share_all(pages: Seq<PageEntry>, refs: Seq<usize>) -> bool {
    forall|i: int|
        0 <= i < pages.len() && (#[trigger] pages[i]).ppn < refs.len() ==> refs[pages[i].ppn as int]
            < usize::MAX
}

/// The reference counts `refs2` are `refs` with one more for every frame
/// that backs a page of `pages`.
pub open spec fn frames_shared(pages: Seq<PageEntry>, refs: Seq<usize>, refs2: Seq<usize>) -> bool {
    &&& refs2.len() == refs.len()
    &&& forall|q: usize|
        q < refs.len() ==> #[trigger] refs2[q as int] == if frame_among(
            pages,
            q,
            pages.len() as int,
        ) {
            refs[q as int] + 1
        } else {
            refs[q as int] as int
        }
}

/// The reference counts `refs2` are `refs` with one less for every frame
/// that backs a page of `pages`, and the contents `frames2` are `frames`
/// with each such frame cleared if that was its last reference.
pub open spec fn frames_released(
    pages: Seq<PageEntry>,
    refs: Seq<usize>,
    frames: Seq<Seq<u8>>,
    refs2: Seq<usize>,
    frames2: Seq<Seq<u8>>,
) -> bool {
    &&& refs2.len() == refs.len()
    &&& frames2.len() == frames.len()
    &&& forall|q: usize|
        q < refs.len() ==> #[trigger] refs2[q as int] == if frame_among(
            pages,
            q,
            pages.len() as int,
        ) {
            refs[q as int] - 1
        } else {
            refs[q as int] as int
        }
    &&& forall|q: usize|
        q < frames.len() && q < refs.len() ==> #[trigger] frames2[q as int] == if frame_among(
            pages,
            q,
            pages.len() as int,
        ) && refs[q as int] == 1 {
            zero_page()
        } else {
            frames[q as int]
        }
}

/// What resolving a fault on the page of entry `i` does: from the entries,
/// reference counts and frame contents before, to the outcome `r` and the
/// same three after.
pub open spec fn cow_resolved(
    pages: Seq<PageEntry>,
    refs: Seq<usize>,
    frames: Seq<Seq<u8>>,
    i: int,
    r: CowOutcome,
    pages2: Seq<PageEntry>,
    refs2: Seq<usize>,
    frames2: Seq<Seq<u8>>,
) -> bool {
    let e = pages[i];
    let n = refs[e.ppn as int];
    if !e.cow {
        r == CowOutcome::NotCow && pages2 == pages && refs2 == refs && frames2 == frames
    } else if n == 1 {
        r == CowOutcome::Promoted && pages2 == pages.update(i, private_on(e, e.ppn)) && refs2
            == refs && frames2 == frames
    } else if forall|j: int| 0 <= j < refs.len() ==> refs[j] != 0 {
        r == CowOutcome::OutOfFrames && pages2 == pages && refs2 == refs && frames2 == frames
    } else {
        match r {
            CowOutcome::Copied { frame } => {
                &&& frame < refs.len()
                &&& refs[frame as int] == 0
                &&& forall|j: int| 0 <= j < frame ==> refs[j] != 0
                &&& pages2 == pages.update(i, private_on(e, frame))
                &&& refs2 == refs.update(frame as int, 1usize).update(
                    e.ppn as int,
                    (n - 1) as usize,
                )
                &&& frames2 == frames.update(frame as int, frames[e.ppn as int])
            },
            _ => false,
        }
    }
}

/// Fork shares every page copy-on-write: on both sides page `k` keeps its
/// place and its frame, is read-only, and is copy-on-write if it was
/// writable; its frame has exactly one reference more than before.
pub proof fn lemma_fork_shares(
    pages: Seq<PageEntry>,
    refs: Seq<usize>,
    refs2: Seq<usize>,
    k: int,
)
    requires
        pages_backed(pages, refs),
        frames_shared(pages, refs, refs2),
        0 <= k < pages.len(),
    ensures
        pages.map_values(|e: PageEntry| cow_shared(e))[k].vpn == pages[k].vpn,
        pages.map_values(|e: PageEntry| cow_shared(e))[k].ppn == pages[k].ppn,
        !pages.map_values(|e: PageEntry| cow_shared(e))[k].writable,
        pages[k].writable ==> pages.map_values(|e: PageEntry| cow_shared(e))[k].cow,
        refs2[pages[k].ppn as int] == refs[pages[k].ppn as int] + 1,
{
    let q = pages[k].ppn;
    assert(frame_among(pages, q, pages.len() as int));
    assert(refs2[q as int] == refs[q as int] + 1);
}

/// A write fault on a copy-on-write page whose frame has one reference
/// takes no frame: reference counts and contents stay, and the page is
/// private and writable on the same frame.
pub proof fn lemma_sole_owner_promotes(
    pages: Seq<PageEntry>,
    refs: Seq<usize>,
    frames: Seq<Seq<u8>>,
    i: int,
    r: CowOutcome,
    pages2: Seq<PageEntry>,
    refs2: Seq<usize>,
    frames2: Seq<Seq<u8>>,
)
    requires
        0 <= i < pages.len(),
        pages[i].cow,
        pages[i].ppn < refs.len(),
        refs[pages[i].ppn as int] == 1,
        cow_resolved(pages, refs, frames, i, r, pages2, refs2, frames2),
    ensures
        r == CowOutcome::Promoted,
        refs2 == refs,
        frames2 == frames,
        pages2[i] == (PageEntry { vpn: pages[i].vpn, ppn: pages[i].ppn, writable: true, cow: false }),
{
}

/// A write fault on a copy-on-write page whose frame is shared, with a
/// frame free, takes exactly one frame: that frame was free and now has one
/// reference and the contents that the shared frame had, the shared frame
/// has one reference less and keeps its contents, and no other frame
/// changes in count or contents. The page is private and writable on the
/// new frame.
pub proof fn lemma_shared_frame_copies(
    pages: Seq<PageEntry>,
    refs: Seq<usize>,
    frames: Seq<Seq<u8>>,
    i: int,
    r: CowOutcome,
    pages2: Seq<PageEntry>,
    refs2: Seq<usize>,
    frames2: Seq<Seq<u8>>,
)
    requires
        0 <= i < pages.len(),
        pages[i].cow,
        pages[i].ppn < refs.len(),
        refs.len() == frames.len(),
        refs[pages[i].ppn as int] > 1,
        exists|j: int| 0 <= j < refs.len() && refs[j] == 0,
        cow_resolved(pages, refs, frames, i, r, pages2, refs2, frames2),
    ensures
        r is Copied,
        r->frame < refs.len(),
        r->frame != pages[i].ppn,
        refs[r->frame as int] == 0,
        refs2[r->frame as int] == 1,
        frames2[r->frame as int] == frames[pages[i].ppn as int],
        refs2[pages[i].ppn as int] == refs[pages[i].ppn as int] - 1,
        frames2[pages[i].ppn as int] == frames[pages[i].ppn as int],
        forall|q: int|
            0 <= q < refs.len() && q != r->frame && q != pages[i].ppn ==> refs2[q] == refs[q]
                && frames2[q] == frames[q],
        pages2[i] == (PageEntry { vpn: pages[i].vpn, ppn: r->frame, writable: true, cow: false }),
{
}

/// The mapped pages of one task.
pub struct MemorySet {
    pages: Vec<PageEntry>,
}

impl MemorySet {
    /// The entries, in the order in which they were mapped.
    pub closed spec fn pages(&self) -> Seq<PageEntry> {
        self.pages@
    }

    /// The entries are well-formed: see `pages_wf`.
    pub open spec fn wf(&self) -> bool {
        pages_wf(self.pages())
    }

    /// Every page is backed by a frame of `pool` that is in use.
    pub open spec fn backed_by(&self, pool: PageAllocImpl) -> bool {
        pages_backed(self.pages(), pool.refs())
    }

    /// Whether virtual page `vpn` is mapped.
    pub open spec fn maps(&self, vpn: u64) -> bool {
        page_among(self.pages(), vpn, self.pages().len() as int)
    }

    /// Whether frame `ppn` backs a page of this set.
    pub open spec fn maps_frame(&self, ppn: usize) -> bool {
        frame_among(self.pages(), ppn, self.pages().len() as int)
    }

    /// The frame and the offset in it that `addr` translates to, `None`
    /// where its page is not mapped.
    pub open spec fn translation(&self, addr: u64) -> Option<(usize, u64)> {
        if self.maps(page_of(addr)) {
            let k = choose|k: int|
                0 <= k < self.pages().len() && (#[trigger] self.pages()[k]).vpn == page_of(addr);
            Some((self.pages()[k].ppn, addr % PAGE_BYTES))
        } else {
            None
        }
    }

    /// An empty memory-set.
    pub fn new() -> (m: Self)
        ensures
            m.wf(),
            m.pages() == Seq::<PageEntry>::empty(),
    {
        MemorySet { pages: Vec::new() }
    }

    /// The number of mapped pages.
    pub fn len(&self) -> (n: usize)
        ensures
            n == self.pages().len(),
    {
        self.pages.len()
    }

    /// The `i`-th entry, `None` exactly when there are not that many.
    pub fn entry(&self, i: usize) -> (r: Option<PageEntry>)
        ensures
            r == if i < self.pages().len() {
                Some(self.pages()[i as int])
            } else {
                None
            },
    {
        if i < self.pages.len() {
            Some(self.pages[i])
        } else {
            None
        }
    }

    /// The position of the entry that maps `vpn`, `None` exactly when the
    /// page is not mapped.
    pub fn find(&self, vpn: u64) -> (r: Option<usize>)
        ensures
            match r {
                Some(i) => i < self.pages().len() && self.pages()[i as int].vpn == vpn
                    && !page_among(self.pages(), vpn, i as int),
                None => !self.maps(vpn),
            },
            r is Some <==> self.maps(vpn),
    {
        let mut i: usize = 0;
        while i < self.pages.len()
            invariant
                i <= self.pages@.len(),
                !page_among(self.pages@, vpn, i as int),
            decreases self.pages@.len() - i,
        {
            if self.pages[i].vpn == vpn {
                return Some(i);
            }
            i += 1;
        }
        None
    }

    /// The frame and the offset in it that `addr` translates to, `None`
    /// exactly when its page is not mapped.
    pub fn translate(&self, addr: u64) -> (r: Option<(usize, u64)>)
        requires
            self.wf(),
        ensures
            r == self.translation(addr),
            forall|i: int|
                0 <= i < self.pages().len() && (#[trigger] self.pages()[i]).vpn == page_of(addr)
                    ==> r == Some((self.pages()[i].ppn, addr % PAGE_BYTES)),
    {
        match self.find(addr / PAGE_BYTES) {
            Some(i) => {
                proof {
                    let k = choose|k: int|
                        0 <= k < self.pages().len() && (#[trigger] self.pages()[k]).vpn == page_of(
                            addr,
                        );
                    assert(self.pages()[i as int].vpn == page_of(addr));
                    assert(k == i);
                }
                Some((self.pages[i].ppn, addr % PAGE_BYTES))
            },
            None => None,
        }
    }
}

impl MemorySet {
    /// Maps virtual page `vpn` onto a fresh frame, private to this set.
    /// Fails, and changes nothing, exactly when the page is already mapped
    /// or, if it is not, when no frame is free.
    pub fn map_page(&mut self, pool: &mut PageAllocImpl, vpn: u64, writable: bool) -> (r: Result<
        usize,
        MapError,
    >)
        requires
            old(self).wf(),
            old(pool).wf(),
            old(self).backed_by(*old(pool)),
        ensures
            final(self).wf(),
            final(pool).wf(),
            final(self).backed_by(*final(pool)),
            final(pool).frames() == old(pool).frames(),
            match r {
                Ok(ppn) => {
                    &&& !old(self).maps(vpn)
                    &&& old(pool).first_free(ppn)
                    &&& final(pool).refs() == old(pool).refs().update(ppn as int, 1usize)
                    &&& final(self).pages() == old(self).pages().push(
                        PageEntry { vpn, ppn, writable, cow: false },
                    )
                },
                Err(e) => {
                    &&& final(self).pages() == old(self).pages()
                    &&& final(pool).refs() == old(pool).refs()
                    &&& (e == MapError::AlreadyMapped <==> old(self).maps(vpn))
                    &&& (e == MapError::OutOfFrames <==> !old(self).maps(vpn) && old(pool).exhausted())
                },
            },
    {
        if self.find(vpn).is_some() {
            return Err(MapError::AlreadyMapped);
        }
        match pool.alloc_frame() {
            None => Err(MapError::OutOfFrames),
            Some(ppn) => {
                self.pages.push(PageEntry { vpn, ppn, writable, cow: false });
                proof {
                    let old_pages = old(self).pages();
                    let new_pages = self.pages();
                    assert forall|i: int, j: int| 0 <= i < j < new_pages.len() implies (
                    #[trigger] new_pages[i]).vpn != (#[trigger] new_pages[j]).vpn by {
                        if j == old_pages.len() {
                            assert(old_pages[i].vpn != vpn);
                        }
                    }
                    assert forall|i: int, j: int| 0 <= i < j < new_pages.len() implies (
                    #[trigger] new_pages[i]).ppn != (#[trigger] new_pages[j]).ppn by {
                        if j == old_pages.len() {
                            assert(old_pages[i].ppn != ppn);
                        }
                    }
                }
                Ok(ppn)
            },
        }
    }

    /// Resolves a page fault at `addr` against the copy-on-write model. A
    /// copy-on-write page whose frame has one holder becomes private and
    /// writable in place. One whose frame is shared gets the lowest free
    /// frame with a copy of the contents, and the shared frame loses one
    /// reference. Every other fault changes nothing and says why.
    pub fn user_cow_int(&mut self, pool: &mut PageAllocImpl, addr: u64) -> (r: CowOutcome)
        requires
            old(self).wf(),
            old(pool).wf(),
            old(self).backed_by(*old(pool)),
        ensures
            final(self).wf(),
            final(pool).wf(),
            final(self).backed_by(*final(pool)),
            !old(self).maps(page_of(addr)) ==> r == CowOutcome::Unmapped && final(self).pages()
                == old(self).pages() && final(pool).refs() == old(pool).refs() && final(pool).frames() == old(pool).frames(),
            forall|i: int|
                0 <= i < old(self).pages().len() && (#[trigger] old(self).pages()[i]).vpn
                    == page_of(addr) ==> cow_resolved(
                    old(self).pages(),
                    old(pool).refs(),
                    old(pool).frames(),
                    i,
                    r,
                    final(self).pages(),
                    final(pool).refs(),
                    final(pool).frames(),
                ),
    {
        let vpn: u64 = addr / PAGE_BYTES;
        let i: usize = match self.find(vpn) {
            None => {
                return CowOutcome::Unmapped;
            },
            Some(i) => i,
        };
        let e: PageEntry = self.pages[i];
        if !e.cow {
            return CowOutcome::NotCow;
        }
        if pool.ref_count(e.ppn) == 1 {
            self.pages[i] = PageEntry { vpn: e.vpn, ppn: e.ppn, writable: true, cow: false };
            return CowOutcome::Promoted;
        }
        match pool.alloc_frame() {
            None => CowOutcome::OutOfFrames,
            Some(frame) => {
                pool.copy_frame(frame, e.ppn);
                pool.dealloc(e.ppn);
                self.pages[i] = PageEntry { vpn: e.vpn, ppn: frame, writable: true, cow: false };
                proof {
                    let old_pages = old(self).pages();
                    assert forall|k: int| 0 <= k < old_pages.len() implies (
                    #[trigger] old_pages[k]).ppn != frame by {}
                }
                CowOutcome::Copied { frame }
            },
        }
    }
}

impl MemorySet {
    /// Whether every backing frame's reference count can grow by one.
    fn check_can_share(&self, pool: &PageAllocImpl) -> (ok: bool)
        requires
            self.wf(),
            pool.wf(),
            self.backed_by(*pool),
        ensures
            ok == can_share_all(self.pages(), pool.refs()),
    {
        let mut i: usize = 0;
        while i < self.pages.len()
            invariant
                i <= self.pages@.len(),
                pool.wf(),
                pages_backed(self.pages@, pool.refs()),
                forall|k: int|
                    0 <= k < i ==> pool.refs()[(#[trigger] self.pages@[k]).ppn as int]
                        < usize::MAX,
            decreases self.pages@.len() - i,
        {
            if pool.ref_count(self.pages[i].ppn) == usize::MAX {
                return false;
            }
            i += 1;
        }
        true
    }

    /// Forks the memory-set: the child maps the same frames at the same
    /// pages, every page that was writable or copy-on-write is
    /// copy-on-write and read-only on both sides, and every backing frame
    /// gains one reference. Fails, and changes nothing, exactly when some
    /// backing frame's count cannot grow.
    pub fn fork(&mut self, pool: &mut PageAllocImpl) -> (r: Result<MemorySet, ForkError>)
        requires
            old(self).wf(),
            old(pool).wf(),
            old(self).backed_by(*old(pool)),
        ensures
            final(self).wf(),
            final(pool).wf(),
            final(self).backed_by(*final(pool)),
            final(pool).frames() == old(pool).frames(),
            final(pool).refs().len() == old(pool).refs().len(),
            match r {
                Ok(child) => {
                    &&& can_share_all(old(self).pages(), old(pool).refs())
                    &&& child.wf()
                    &&& child.backed_by(*final(pool))
                    &&& final(self).pages() == old(self).pages().map_values(
                        |e: PageEntry| cow_shared(e),
                    )
                    &&& child.pages() == final(self).pages()
                    &&& frames_shared(old(self).pages(), old(pool).refs(), final(pool).refs())
                },
                Err(e) => {
                    &&& e == ForkError::RefCountOverflow
                    &&& !can_share_all(old(self).pages(), old(pool).refs())
                    &&& *final(self) == *old(self)
                    &&& final(pool).refs() == old(pool).refs()
                },
            },
    {
        if !self.check_can_share(pool) {
            return Err(ForkError::RefCountOverflow);
        }
        let ghost orig = self.pages();
        let ghost refs0 = pool.refs();
        let n: usize = self.pages.len();
        let mut child: Vec<PageEntry> = Vec::new();
        let mut i: usize = 0;
        while i < n
            invariant
                i <= n,
                n == orig.len(),
                self.pages@.len() == n,
                child@.len() == i,
                pages_wf(orig),
                pages_backed(orig, refs0),
                can_share_all(orig, refs0),
                pool.wf(),
                pool.frames() == old(pool).frames(),
                pool.refs().len() == refs0.len(),
                forall|k: int| 0 <= k < i ==> #[trigger] self.pages@[k] == cow_shared(orig[k]),
                forall|k: int| i <= k < n ==> #[trigger] self.pages@[k] == orig[k],
                forall|k: int| 0 <= k < i ==> #[trigger] child@[k] == cow_shared(orig[k]),
                forall|q: usize|
                    q < refs0.len() ==> #[trigger] pool.refs()[q as int] == if frame_among(
                        orig,
                        q,
                        i as int,
                    ) {
                        refs0[q as int] + 1
                    } else {
                        refs0[q as int] as int
                    },
            decreases n - i,
        {
            let e: PageEntry = self.pages[i];
            let shared = PageEntry {
                vpn: e.vpn,
                ppn: e.ppn,
                writable: false,
                cow: e.writable || e.cow,
            };
            let ghost refs1 = pool.refs();
            proof {
                assert(orig[i as int].ppn == e.ppn);
                assert(!frame_among(orig, e.ppn, i as int));
            }
            let ok = pool.share(e.ppn);
            assert(ok);
            self.pages[i] = shared;
            child.push(shared);
            proof {
                assert forall|q: usize| q < refs0.len() implies #[trigger] pool.refs()[q as int]
                    == if frame_among(orig, q, i + 1) {
                    refs0[q as int] + 1
                } else {
                    refs0[q as int] as int
                } by {
                    if q == e.ppn {
                        assert(orig[i as int].ppn == q);
                        assert(frame_among(orig, q, i + 1));
                    } else {
                        if frame_among(orig, q, i + 1) {
                            let k = choose|k: int|
                                0 <= k < i + 1 && k < orig.len() && (#[trigger] orig[k]).ppn == q;
                            assert(k < i);
                            assert(frame_among(orig, q, i as int));
                        }
                        if frame_among(orig, q, i as int) {
                            let k = choose|k: int|
                                0 <= k < i && k < orig.len() && (#[trigger] orig[k]).ppn == q;
                            assert(frame_among(orig, q, i + 1));
                        }
                        assert(pool.refs()[q as int] == refs1[q as int]);
                    }
                }
            }
            i += 1;
        }
        let child = MemorySet { pages: child };
        proof {
            let shared = orig.map_values(|e: PageEntry| cow_shared(e));
            assert(self.pages() =~= shared);
            assert(child.pages() =~= shared);
            assert forall|k: int| 0 <= k < shared.len() implies (#[trigger] shared[k]).ppn
                == orig[k].ppn && shared[k].vpn == orig[k].vpn by {}
            assert(pages_wf(shared)) by {
                assert forall|a: int, b: int| 0 <= a < b < shared.len() implies (
                #[trigger] shared[a]).vpn != (#[trigger] shared[b]).vpn by {
                    assert(orig[a].vpn != orig[b].vpn);
                }
                assert forall|a: int, b: int| 0 <= a < b < shared.len() implies (
                #[trigger] shared[a]).ppn != (#[trigger] shared[b]).ppn by {
                    assert(orig[a].ppn != orig[b].ppn);
                }
            }
            assert(pages_backed(shared, pool.refs())) by {
                assert forall|k: int| 0 <= k < shared.len() implies (#[trigger] shared[k]).ppn
                    < pool.refs().len() && pool.refs()[shared[k].ppn as int] > 0 by {
                    assert(orig[k].ppn < refs0.len() && refs0[orig[k].ppn as int] > 0);
                }
            }
        }
        Ok(child)
    }

    /// Gives up every page: each backing frame loses one reference, and one
    /// whose last reference this was is cleared and free again.
    pub fn release(&mut self, pool: &mut PageAllocImpl)
        requires
            old(self).wf(),
            old(pool).wf(),
            old(self).backed_by(*old(pool)),
        ensures
            final(self).wf(),
            final(pool).wf(),
            final(self).pages() == Seq::<PageEntry>::empty(),
            frames_released(
                old(self).pages(),
                old(pool).refs(),
                old(pool).frames(),
                final(pool).refs(),
                final(pool).frames(),
            ),
    {
        let ghost orig = self.pages();
        let ghost refs0 = pool.refs();
        let ghost frames0 = pool.frames();
        let n: usize = self.pages.len();
        let mut i: usize = 0;
        while i < n
            invariant
                i <= n,
                n == orig.len(),
                self.pages@ == orig,
                pages_wf(orig),
                pages_backed(orig, refs0),
                pool.wf(),
                refs0.len() == frames0.len(),
                pool.refs().len() == refs0.len(),
                pool.frames().len() == frames0.len(),
                forall|q: usize|
                    q < refs0.len() ==> #[trigger] pool.refs()[q as int] == if frame_among(
                        orig,
                        q,
                        i as int,
                    ) {
                        refs0[q as int] - 1
                    } else {
                        refs0[q as int] as int
                    },
                forall|q: usize|
                    q < refs0.len() ==> #[trigger] pool.frames()[q as int] == if frame_among(
                        orig,
                        q,
                        i as int,
                    ) && refs0[q as int] == 1 {
                        zero_page()
                    } else {
                        frames0[q as int]
                    },
            decreases n - i,
        {
            let ppn: usize = self.pages[i].ppn;
            let ghost refs1 = pool.refs();
            let ghost frames1 = pool.frames();
            proof {
                assert(orig[i as int].ppn == ppn);
                assert(!frame_among(orig, ppn, i as int));
                assert(refs1[ppn as int] == refs0[ppn as int]);
                assert(frames1[ppn as int] == frames0[ppn as int]);
            }
            pool.dealloc(ppn);
            proof {
                assert forall|q: usize| q < refs0.len() implies (frame_among(orig, q, i + 1) <==> (q
                    == ppn || frame_among(orig, q, i as int))) by {
                    if q == ppn {
                        assert(orig[i as int].ppn == q);
                        assert(frame_among(orig, q, i + 1));
                    } else {
                        if frame_among(orig, q, i + 1) {
                            let k = choose|k: int|
                                0 <= k < i + 1 && k < orig.len() && (#[trigger] orig[k]).ppn == q;
                            assert(k < i);
                            assert(frame_among(orig, q, i as int));
                        }
                        if frame_among(orig, q, i as int) {
                            let k = choose|k: int|
                                0 <= k < i && k < orig.len() && (#[trigger] orig[k]).ppn == q;
                            assert(frame_among(orig, q, i + 1));
                        }
                    }
                }
                assert forall|q: usize| q < refs0.len() implies #[trigger] pool.refs()[q as int]
                    == if frame_among(orig, q, i + 1) {
                    refs0[q as int] - 1
                } else {
                    refs0[q as int] as int
                } by {
                    if q != ppn {
                        assert(pool.refs()[q as int] == refs1[q as int]);
                    }
                }
                assert forall|q: usize| q < refs0.len() implies #[trigger] pool.frames()[q as int]
                    == if frame_among(orig, q, i + 1) && refs0[q as int] == 1 {
                    zero_page()
                } else {
                    frames0[q as int]
                } by {
                    if q != ppn {
                        assert(pool.frames()[q as int] == frames1[q as int]);
                    }
                }
            }
            i += 1;
        }
        self.pages = Vec::new();
    }
}

} // verus!
