//! The physical frame allocator: hands out page-sized physical frames by
//! number and takes them back on unmap.  It is the process-wide shared
//! collaborator of every address space.

use vstd::prelude::*;

verus! {

/// A stack-style frame allocator over the frame numbers
/// `[start, end)`: frames never handed out yet sit in
/// `[current, end)`, frames returned after use sit on `recycled`.
pub struct FrameAllocator {
    start: usize,
    current: usize,
    end: usize,
    recycled: Vec<usize>,
}

impl FrameAllocator {
    /// The allocator's bookkeeping is consistent: recycled frames are
    /// pairwise distinct and all lie in the region already handed out.
    pub closed spec fn wf(&self) -> bool {
        &&& self.start <= self.current <= self.end
        &&& forall|i: int|
            0 <= i < self.recycled@.len() ==> self.start <= #[trigger] self.recycled@[i]
                < self.current
        &&& forall|i: int, j: int|
            0 <= i < j < self.recycled@.len() ==> self.recycled@[i] != self.recycled@[j]
    }

    /// The set of frame numbers currently handed out and not yet returned.
    pub closed spec fn outstanding(&self) -> Set<nat> {
        Set::new(
            |p: nat|
                self.start <= p < self.current && !self.recycled@.contains(p as usize),
        )
    }

    /// How many further allocations can succeed.
    pub closed spec fn free_count(&self) -> nat {
        (self.recycled@.len() + self.end - self.current) as nat
    }

    /// One past the largest frame number this allocator will ever hand out.
    pub closed spec fn limit(&self) -> nat {
        self.end as nat
    }

    /// A fresh allocator over the frame numbers `[start, end)`.
    pub fn new(start: usize, end: usize) -> (r: FrameAllocator)
        requires
            start <= end,
        ensures
            r.wf(),
            r.outstanding() == Set::<nat>::empty(),
            r.free_count() == end - start,
            r.limit() == end as nat,
    {
        let r = FrameAllocator { start, current: start, end, recycled: Vec::new() };
        proof {
            assert(r.outstanding() =~= Set::<nat>::empty());
        }
        r
    }

    /// True when at least `n` further allocations can succeed.
    pub fn has_at_least(&self, n: usize) -> (r: bool)
        requires
            self.wf(),
        ensures
            r == (n <= self.free_count()),
    {
        let room = self.end - self.current;
        n <= room || n - room <= self.recycled.len()
    }

    /// Hands out one frame, preferring recycled frames; `None` when the
    /// pool is exhausted.
    pub fn alloc_frame(&mut self) -> (r: Option<usize>)
        requires
            old(self).wf(),
        ensures
            final(self).wf(),
            final(self).limit() == old(self).limit(),
            old(self).free_count() == 0 ==> r is None && *final(self) == *old(self),
            old(self).free_count() > 0 ==> match r {
                Some(p) => {
                    &&& !old(self).outstanding().contains(p as nat)
                    &&& final(self).outstanding() == old(self).outstanding().insert(p as nat)
                    &&& final(self).free_count() == (old(self).free_count() - 1) as nat
                    &&& (p as nat) < old(self).limit()
                },
                None => false,
            },
    {
        if self.recycled.len() > 0 {
            let p = self.recycled.pop().unwrap();
            proof {
                assert(old(self).recycled@.contains(p)) by {
                    assert(old(self).recycled@[old(self).recycled@.len() - 1] == p);
                }
                assert forall|q: nat| #[trigger] final(self).outstanding().contains(q)
                    implies old(self).outstanding().insert(p as nat).contains(q) by {
                    if q != p as nat {
                        if old(self).recycled@.contains(q as usize) {
                            let i = choose|i: int|
                                0 <= i < old(self).recycled@.len() && old(self).recycled@[i] == q as usize;
                            assert(i < old(self).recycled@.len() - 1);
                            assert(self.recycled@[i] == q as usize);
                        }
                    }
                }
                assert forall|q: nat| old(self).outstanding().insert(p as nat).contains(q)
                    implies #[trigger] final(self).outstanding().contains(q) by {
                    if self.recycled@.contains(q as usize) {
                        let i = choose|i: int|
                            0 <= i < self.recycled@.len() && self.recycled@[i] == q as usize;
                        assert(old(self).recycled@[i] == q as usize);
                        assert(q != p as nat);
                    }
                }
                assert(final(self).outstanding() =~= old(self).outstanding().insert(p as nat));
            }
            Some(p)
        } else if self.current < self.end {
            let p = self.current;
            self.current = self.current + 1;
            proof {
                assert(!old(self).recycled@.contains(p));
                assert(final(self).outstanding() =~= old(self).outstanding().insert(p as nat));
            }
            Some(p)
        } else {
            None
        }
    }

    /// Takes a frame back.  The caller must own the frame: it was handed
    /// out and has not been returned since.
    pub fn dealloc_frame(&mut self, ppn: usize)
        requires
            old(self).wf(),
            old(self).outstanding().contains(ppn as nat),
        ensures
            final(self).wf(),
            final(self).limit() == old(self).limit(),
            final(self).outstanding() == old(self).outstanding().remove(ppn as nat),
            final(self).free_count() == old(self).free_count() + 1,
    {
        self.recycled.push(ppn);
        proof {
            assert forall|i: int, j: int|
                0 <= i < j < self.recycled@.len() implies self.recycled@[i] != self.recycled@[j] by {
                if j == self.recycled@.len() - 1 {
                    assert(self.recycled@[j] == ppn);
                    assert(!old(self).recycled@.contains(ppn));
                    assert(old(self).recycled@[i] == self.recycled@[i]);
                }
            }
            assert forall|q: nat| #[trigger] final(self).outstanding().contains(q)
                implies old(self).outstanding().remove(ppn as nat).contains(q) by {
                assert(!self.recycled@.contains(q as usize));
                assert(self.recycled@[self.recycled@.len() - 1] == ppn);
                if old(self).recycled@.contains(q as usize) {
                    let i = choose|i: int|
                        0 <= i < old(self).recycled@.len() && old(self).recycled@[i] == q as usize;
                    assert(self.recycled@[i] == q as usize);
                }
            }
            assert forall|q: nat| old(self).outstanding().remove(ppn as nat).contains(q)
                implies #[trigger] final(self).outstanding().contains(q) by {
                if self.recycled@.contains(q as usize) {
                    let i = choose|i: int|
                        0 <= i < self.recycled@.len() && self.recycled@[i] == q as usize;
                    if i < self.recycled@.len() - 1 {
                        assert(old(self).recycled@[i] == q as usize);
                    } else {
                        assert(q == ppn as nat);
                    }
                }
            }
            assert(final(self).outstanding() =~= old(self).outstanding().remove(ppn as nat));
        }
    }
}

} // verus!
