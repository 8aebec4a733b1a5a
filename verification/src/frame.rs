//! The physical frame provider: fixed-size frames, each with a reference
//! count and its contents.

use vstd::prelude::*;

verus! {

/// Size of a physical frame and of a virtual page, in bytes.
pub const PAGE_SIZE: usize = 4096;

/// A pool of physical frames. A frame is named by its number; it is free
/// while its reference count is zero.
pub struct PageAllocImpl {
    refs: Vec<usize>,
    data: Vec<Vec<u8>>,
}

/// The number of free frames among those counted by `refs`.
pub open spec fn free_count(refs: Seq<usize>) -> nat
    decreases refs.len(),
{
    if refs.len() == 0 {
        0
    } else {
        free_count(refs.drop_last()) + if refs.last() == 0 {
            1nat
        } else {
            0nat
        }
    }
}

/// Taking a free frame into use leaves one free frame less.
pub proof fn lemma_free_count_taken(refs: Seq<usize>, p: int, n: usize)
    requires
        0 <= p < refs.len(),
        refs[p] == 0,
        n != 0,
    ensures
        free_count(refs.update(p, n)) + 1 == free_count(refs),
    decreases refs.len(),
{
    if p == refs.len() - 1 {
        assert(refs.update(p, n).drop_last() =~= refs.drop_last());
    } else {
        lemma_free_count_taken(refs.drop_last(), p, n);
        assert(refs.update(p, n).drop_last() =~= refs.drop_last().update(p, n));
    }
}

/// Where no frame is free the count of free frames is zero.
pub proof fn lemma_free_count_none(refs: Seq<usize>)
    requires
        forall|j: int| 0 <= j < refs.len() ==> refs[j] != 0,
    ensures
        free_count(refs) == 0,
    decreases refs.len(),
{
    if refs.len() > 0 {
        assert forall|j: int| 0 <= j < refs.drop_last().len() implies refs.drop_last()[j] != 0 by {
            assert(refs.drop_last()[j] == refs[j]);
        }
        lemma_free_count_none(refs.drop_last());
    }
}

/// A page of zero bytes.
pub open spec fn zero_page() -> Seq<u8> {
    Seq::new(PAGE_SIZE as nat, |i: int| 0u8)
}

fn new_zero_page() -> (page: Vec<u8>)
    ensures
        page@ == zero_page(),
{
    let mut page: Vec<u8> = Vec::new();
    let mut i: usize = 0;
    while i < PAGE_SIZE
        invariant
            i <= PAGE_SIZE,
            page@.len() == i,
            forall|k: int| 0 <= k < i ==> page@[k] == 0u8,
        decreases PAGE_SIZE - i,
    {
        page.push(0u8);
        i += 1;
    }
    assert(page@ =~= zero_page());
    page
}

fn copy_page(src: &Vec<u8>) -> (page: Vec<u8>)
    ensures
        page@ == src@,
{
    let mut page: Vec<u8> = Vec::new();
    let mut i: usize = 0;
    while i < src.len()
        invariant
            i <= src.len(),
            page@.len() == i,
            forall|k: int| 0 <= k < i ==> page@[k] == src@[k],
        decreases src.len() - i,
    {
        page.push(src[i]);
        i += 1;
    }
    assert(page@ =~= src@);
    page
}

impl PageAllocImpl {
    /// The reference count of each frame, by frame number.
    pub closed spec fn refs(&self) -> Seq<usize> {
        self.refs@
    }

    /// The contents of each frame, by frame number.
    pub closed spec fn frames(&self) -> Seq<Seq<u8>> {
        self.data@.map_values(|v: Vec<u8>| v@)
    }

    /// Every frame has a count and a full page of contents, and the frame
    /// numbers fit the machine word.
    pub open spec fn wf(&self) -> bool {
        &&& self.refs().len() == self.frames().len()
        &&& self.refs().len() <= usize::MAX
        &&& forall|i: int| 0 <= i < self.frames().len() ==> (#[trigger] self.frames()[i]).len()
            == PAGE_SIZE
    }

    /// Whether `ppn` names a frame that is in use.
    pub open spec fn live(&self, ppn: usize) -> bool {
        ppn < self.refs().len() && self.refs()[ppn as int] > 0
    }

    /// Whether frame `ppn` is the lowest-numbered free frame.
    pub open spec fn first_free(&self, ppn: usize) -> bool {
        &&& ppn < self.refs().len()
        &&& self.refs()[ppn as int] == 0
        &&& forall|j: int| 0 <= j < ppn ==> self.refs()[j] != 0
    }

    /// Whether no frame is free.
    pub open spec fn exhausted(&self) -> bool {
        forall|j: int| 0 <= j < self.refs().len() ==> self.refs()[j] != 0
    }

    /// A pool of `n` free frames, all zero.
    pub fn new(n: usize) -> (pool: Self)
        ensures
            pool.wf(),
            pool.refs() == Seq::new(n as nat, |i: int| 0usize),
            pool.frames() == Seq::new(n as nat, |i: int| zero_page()),
    {
        let mut refs: Vec<usize> = Vec::new();
        let mut data: Vec<Vec<u8>> = Vec::new();
        let mut i: usize = 0;
        while i < n
            invariant
                i <= n,
                refs@.len() == i,
                data@.len() == i,
                forall|k: int| 0 <= k < i ==> refs@[k] == 0usize,
                forall|k: int| 0 <= k < i ==> (#[trigger] data@[k])@ == zero_page(),
            decreases n - i,
        {
            refs.push(0usize);
            data.push(new_zero_page());
            i += 1;
        }
        let pool = PageAllocImpl { refs, data };
        assert(pool.refs() =~= Seq::new(n as nat, |i: int| 0usize));
        assert(pool.frames() =~= Seq::new(n as nat, |i: int| zero_page()));
        pool
    }

    /// The number of frames in the pool.
    pub fn len(&self) -> (n: usize)
        requires
            self.wf(),
        ensures
            n == self.refs().len(),
    {
        self.refs.len()
    }

    /// The number of free frames.
    pub fn free_frames(&self) -> (n: usize)
        requires
            self.wf(),
        ensures
            n == free_count(self.refs()),
    {
        let mut n: usize = 0;
        let mut i: usize = 0;
        assert(self.refs@.take(0) =~= Seq::<usize>::empty());
        while i < self.refs.len()
            invariant
                i <= self.refs@.len(),
                n <= i,
                n == free_count(self.refs@.take(i as int)),
            decreases self.refs@.len() - i,
        {
            assert(self.refs@.take(i + 1).drop_last() =~= self.refs@.take(i as int));
            if self.refs[i] == 0 {
                n += 1;
            }
            i += 1;
        }
        assert(self.refs@.take(i as int) =~= self.refs@);
        n
    }

    /// The reference count of frame `ppn`; zero for a number past the end.
    pub fn ref_count(&self, ppn: usize) -> (n: usize)
        requires
            self.wf(),
        ensures
            n == if ppn < self.refs().len() {
                self.refs()[ppn as int]
            } else {
                0usize
            },
    {
        if ppn < self.refs.len() {
            self.refs[ppn]
        } else {
            0
        }
    }

    /// Takes the lowest-numbered free frame and gives it one reference.
    /// Returns `None`, and changes nothing, exactly when no frame is free.
    pub fn alloc_frame(&mut self) -> (r: Option<usize>)
        requires
            old(self).wf(),
        ensures
            final(self).wf(),
            final(self).frames() == old(self).frames(),
            match r {
                Some(ppn) => old(self).first_free(ppn) && final(self).refs() == old(self).refs().update(ppn as int, 1usize),
                None => old(self).exhausted() && final(self).refs() == old(self).refs(),
            },
    {
        let mut i: usize = 0;
        while i < self.refs.len()
            invariant
                i <= self.refs@.len(),
                self.wf(),
                *self == *old(self),
                forall|j: int| 0 <= j < i ==> self.refs@[j] != 0,
            decreases self.refs@.len() - i,
        {
            if self.refs[i] == 0 {
                self.refs[i] = 1;
                return Some(i);
            }
            i += 1;
        }
        None
    }

    /// Drops one reference to frame `ppn`. When the last one goes the frame
    /// is cleared and becomes free. A number that names no frame in use is
    /// left alone.
    pub fn dealloc(&mut self, ppn: usize)
        requires
            old(self).wf(),
        ensures
            final(self).wf(),
            !old(self).live(ppn) ==> final(self).refs() == old(self).refs() && final(self).frames() == old(self).frames(),
            old(self).live(ppn) ==> final(self).refs() == old(self).refs().update(
                ppn as int,
                (old(self).refs()[ppn as int] - 1) as usize,
            ),
            old(self).live(ppn) && old(self).refs()[ppn as int] > 1 ==> final(self).frames()
                == old(self).frames(),
            old(self).live(ppn) && old(self).refs()[ppn as int] == 1 ==> final(self).frames()
                == old(self).frames().update(ppn as int, zero_page()),
    {
        if ppn >= self.refs.len() {
            return ;
        }
        let n: usize = self.refs[ppn];
        if n == 0 {
            return ;
        }
        self.refs[ppn] = n - 1;
        if n == 1 {
            self.data[ppn] = new_zero_page();
            assert(self.frames() =~= old(self).frames().update(ppn as int, zero_page()));
        }
    }

    /// Adds one reference to frame `ppn`. Returns `false`, and changes
    /// nothing, exactly when the frame is not in use or its count cannot
    /// grow.
    pub fn share(&mut self, ppn: usize) -> (ok: bool)
        requires
            old(self).wf(),
        ensures
            final(self).wf(),
            final(self).frames() == old(self).frames(),
            ok == (old(self).live(ppn) && old(self).refs()[ppn as int] < usize::MAX),
            ok ==> final(self).refs() == old(self).refs().update(
                ppn as int,
                (old(self).refs()[ppn as int] + 1) as usize,
            ),
            !ok ==> final(self).refs() == old(self).refs(),
    {
        if ppn >= self.refs.len() {
            return false;
        }
        let n: usize = self.refs[ppn];
        if n == 0 || n == usize::MAX {
            return false;
        }
        self.refs[ppn] = n + 1;
        true
    }

    /// Copies the contents of frame `src` into frame `dst`.
    pub fn copy_frame(&mut self, dst: usize, src: usize)
        requires
            old(self).wf(),
            dst < old(self).refs().len(),
            src < old(self).refs().len(),
        ensures
            final(self).wf(),
            final(self).refs() == old(self).refs(),
            final(self).frames() == old(self).frames().update(
                dst as int,
                old(self).frames()[src as int],
            ),
    {
        let page = copy_page(&self.data[src]);
        self.data[dst] = page;
        assert(self.frames() =~= old(self).frames().update(
            dst as int,
            old(self).frames()[src as int],
        ));
    }

    /// The byte at offset `off` of frame `ppn`, `None` exactly when there is
    /// no such frame or offset.
    pub fn read(&self, ppn: usize, off: usize) -> (r: Option<u8>)
        requires
            self.wf(),
        ensures
            r == if ppn < self.frames().len() && off < PAGE_SIZE {
                Some(self.frames()[ppn as int][off as int])
            } else {
                None
            },
    {
        if ppn < self.data.len() && off < PAGE_SIZE {
            assert(self.frames()[ppn as int].len() == PAGE_SIZE);
            Some(self.data[ppn][off])
        } else {
            None
        }
    }

    /// Stores `val` at offset `off` of frame `ppn`. Returns `false`, and
    /// changes nothing, exactly when there is no such frame or offset.
    pub fn write(&mut self, ppn: usize, off: usize, val: u8) -> (ok: bool)
        requires
            old(self).wf(),
        ensures
            final(self).wf(),
            final(self).refs() == old(self).refs(),
            ok == (ppn < old(self).frames().len() && off < PAGE_SIZE),
            ok ==> final(self).frames() == old(self).frames().update(
                ppn as int,
                old(self).frames()[ppn as int].update(off as int, val),
            ),
            !ok ==> final(self).frames() == old(self).frames(),
    {
        if ppn < self.data.len() && off < PAGE_SIZE {
            assert(self.frames()[ppn as int].len() == PAGE_SIZE);
            let mut page = copy_page(&self.data[ppn]);
            page[off] = val;
            self.data[ppn] = page;
            assert(self.frames() =~= old(self).frames().update(
                ppn as int,
                old(self).frames()[ppn as int].update(off as int, val),
            ));
            true
        } else {
            false
        }
    }
}

} // verus!
