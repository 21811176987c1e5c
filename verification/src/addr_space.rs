//! One task's address space: a page table, the recorded virtual memory
//! areas, and the program break of the heap.  `mmap`, `munmap` and
//! `sbrk` live here; all three take the process-wide frame allocator
//! explicitly.

use vstd::prelude::*;
use vstd::arithmetic::div_mod::*;

use crate::frame::FrameAllocator;
use crate::page_table::{PageTable, PageTableEntry, FLAG_R, FLAG_U, FLAG_W};
use crate::{MemError, MAX_VA, MAX_VPN, PAGE_SIZE};

verus! {

/// One virtual memory area: a page-aligned run of mapped pages that one
/// `mmap` call created, with its permission bits.
#[derive(Clone, Copy, Debug, PartialEq, Eq, Structural)]
pub struct Vma {
    pub start_vpn: usize,
    pub pages: usize,
    pub flags: u8,
}

/// The page a virtual address lies on.
pub open spec fn page_of(va: int) -> int {
    va / (PAGE_SIZE as int)
}

/// How many pages a byte length covers, rounding up.
pub open spec fn pages_for(len: int) -> int {
    len / (PAGE_SIZE as int) + if len % (PAGE_SIZE as int) != 0 {
        1int
    } else {
        0int
    }
}

/// The page numbers `[lo, hi)` as a set.
pub open spec fn range_set(lo: int, hi: int) -> Set<nat> {
    Set::new(|p: nat| lo <= p < hi)
}

/// Some recorded area covers page `p`.
pub open spec fn covers(s: Seq<Vma>, p: int) -> bool {
    exists|i: int|
        0 <= i < s.len() && (#[trigger] s[i]).start_vpn <= p < s[i].start_vpn + s[i].pages
}

/// No page of `[lo, hi)` is mapped in `m`.
pub open spec fn no_overlap(m: Map<nat, PageTableEntry>, lo: int, hi: int) -> bool {
    forall|p: int| lo <= p < hi ==> !(#[trigger] m.contains_key(p as nat))
}

/// Every page of `[lo, hi)` has a valid mapping in `m`.
pub open spec fn all_mapped(m: Map<nat, PageTableEntry>, lo: int, hi: int) -> bool {
    forall|p: int| lo <= p < hi ==> #[trigger] m.contains_key(p as nat)
}

/// No two areas of the list share a page.
pub open spec fn vmas_disjoint(s: Seq<Vma>) -> bool {
    forall|i: int, j: int|
        0 <= i < j < s.len() ==> (#[trigger] s[i]).start_vpn + s[i].pages <= (
        #[trigger] s[j]).start_vpn || s[j].start_vpn + s[j].pages <= s[i].start_vpn
}

/// The pages of `[lo, hi)` that the heap may reclaim on shrink: mapped
/// and not owned by any recorded area.
pub open spec fn heap_reclaim_set(
    m: Map<nat, PageTableEntry>,
    vmas: Seq<Vma>,
    lo: int,
    hi: int,
) -> Set<nat> {
    Set::new(|p: nat| lo <= p < hi && m.contains_key(p) && !covers(vmas, p as int))
}

/// How many pages of `[lo, hi)` the heap may reclaim on shrink.
pub open spec fn reclaim_count(m: Map<nat, PageTableEntry>, vmas: Seq<Vma>, lo: int, hi: int) -> int
    decreases hi - lo,
{
    if hi <= lo {
        0
    } else {
        reclaim_count(m, vmas, lo, hi - 1) + if m.contains_key((hi - 1) as nat) && !covers(
            vmas,
            hi - 1,
        ) {
            1int
        } else {
            0int
        }
    }
}

/// The permission word of an `mmap` call has no bits outside
/// read/write/execute and at least one of them.
pub open spec fn valid_port(port: usize) -> bool {
    0 < port < 8
}

/// The page-table flags a permission word turns into: its own bits plus
/// user accessibility.
pub open spec fn pte_flags_of_port(port: usize) -> u8 {
    (port as u8) | FLAG_U
}

/// What is left of one recorded area after the pages `[l, r)` go away:
/// the part below `l`, then the part at or above `r`.
pub open spec fn clip_vma(v: Vma, l: int, r: int) -> Seq<Vma> {
    let vs = v.start_vpn as int;
    let ve = vs + v.pages;
    let left_end = if l < ve {
        l
    } else {
        ve
    };
    let right_start = if r > vs {
        r
    } else {
        vs
    };
    let left: Seq<Vma> = if vs < left_end {
        seq![Vma { start_vpn: v.start_vpn, pages: (left_end - vs) as usize, flags: v.flags }]
    } else {
        Seq::empty()
    };
    let right: Seq<Vma> = if right_start < ve {
        seq![
            Vma {
                start_vpn: right_start as usize,
                pages: (ve - right_start) as usize,
                flags: v.flags,
            },
        ]
    } else {
        Seq::empty()
    };
    left + right
}

/// What is left of a whole area list after the pages `[l, r)` go away.
pub open spec fn clip_all(s: Seq<Vma>, l: int, r: int) -> Seq<Vma>
    decreases s.len(),
{
    if s.len() == 0 {
        Seq::empty()
    } else {
        clip_all(s.drop_last(), l, r) + clip_vma(s.last(), l, r)
    }
}

/// An address space.
pub struct AddressSpace {
    /// The page table holding every live mapping of the space.
    pub pt: PageTable,
    /// The areas `mmap` recorded, clipped by `munmap`.
    pub vmas: Vec<Vma>,
    /// Fixed origin of the heap; the break never goes below it.
    pub heap_base: usize,
    /// Current program break.
    pub brk: usize,
}

impl AddressSpace {
    /// The space is consistent: the page table is well formed, every
    /// recorded page is mapped, recorded areas never overlap one
    /// another, and all areas lie inside the managed range.
    pub open spec fn wf(&self) -> bool {
        &&& self.pt.wf()
        &&& self.heap_base as int % (PAGE_SIZE as int) == 0
        &&& self.heap_base <= self.brk <= MAX_VA
        &&& forall|p: int| covers(self.vmas@, p) ==> self.pt@.contains_key(p as nat)
        &&& vmas_disjoint(self.vmas@)
        &&& forall|i: int|
            0 <= i < self.vmas@.len() ==> 1 <= (#[trigger] self.vmas@[i]).pages
                && self.vmas@[i].start_vpn + self.vmas@[i].pages <= MAX_VPN
    }

    /// Every frame the page table references is outstanding at the
    /// allocator: mapped frames are owned, never stale.
    pub open spec fn frames_owned(&self, fa: FrameAllocator) -> bool {
        forall|v: nat|
            #[trigger] self.pt@.contains_key(v) ==> fa.outstanding().contains(
                self.pt@[v].ppn as nat,
            )
    }

    /// A fresh address space with an empty page table and its heap
    /// origin (and break) at `heap_base`.
    pub fn new(heap_base: usize) -> (r: AddressSpace)
        requires
            heap_base as int % (PAGE_SIZE as int) == 0,
            heap_base <= MAX_VA,
        ensures
            r.wf(),
            r.pt@ == Map::<nat, PageTableEntry>::empty(),
            r.vmas@ == Seq::<Vma>::empty(),
            r.heap_base == heap_base,
            r.brk == heap_base,
    {
        AddressSpace { pt: PageTable::new(), vmas: Vec::new(), heap_base, brk: heap_base }
    }
}

/// A successful `mmap(start, len, port)` was possible on `s0` with
/// allocator `fa0`: aligned start, lawful permissions, no page of the
/// range mapped yet, and enough free frames.
pub open spec fn mmap_ok_pre(
    s0: AddressSpace,
    fa0: FrameAllocator,
    start: usize,
    len: usize,
    port: usize,
) -> bool {
    &&& start as int % (PAGE_SIZE as int) == 0
    &&& valid_port(port)
    &&& no_overlap(s0.pt@, page_of(start as int), page_of(start as int) + pages_for(len as int))
    &&& pages_for(len as int) <= fa0.free_count()
}

/// How a successful `mmap(start, len, port)` turns `s0` into `s1`: the
/// range's pages become mapped with the asked-for permissions plus the
/// user bit, everything else is untouched, and (for a non-empty range)
/// one new area is recorded.
pub open spec fn mmap_ok_post(
    s0: AddressSpace,
    s1: AddressSpace,
    start: usize,
    len: usize,
    port: usize,
) -> bool {
    let lo = page_of(start as int);
    let cnt = pages_for(len as int);
    &&& s1.pt@.dom() == s0.pt@.dom() + range_set(lo, lo + cnt)
    &&& forall|v: nat|
        #[trigger] s0.pt@.contains_key(v) ==> s1.pt@.contains_key(v) && s1.pt@[v] == s0.pt@[v]
    &&& forall|p: int|
        lo <= p < lo + cnt ==> s1.pt@.contains_key(p as nat) && (#[trigger] s1.pt@[
            p as nat
        ]).flags == pte_flags_of_port(port)
    &&& s1.vmas@ == if len == 0 {
        s0.vmas@
    } else {
        s0.vmas@.push(
            Vma {
                start_vpn: (lo as usize),
                pages: (cnt as usize),
                flags: pte_flags_of_port(port),
            },
        )
    }
    &&& s1.brk == s0.brk
    &&& s1.heap_base == s0.heap_base
}

impl AddressSpace {
    /// Maps the pages of `[start, start + len)` anonymously with the
    /// permissions `port` asks for (bit 0 read, bit 1 write, bit 2
    /// execute) plus the user bit.  Validation happens before any
    /// mutation; only a frame-pool exhaustion part-way through leaves
    /// the already-mapped prefix in place, reported as `OutOfMemory`.
    /// A zero-length request succeeds and records nothing.
    pub fn mmap(
        &mut self,
        fa: &mut FrameAllocator,
        start: usize,
        len: usize,
        port: usize,
    ) -> (r: Result<(), MemError>)
        requires
            old(self).wf(),
            old(fa).wf(),
            old(self).frames_owned(*old(fa)),
            start + len <= MAX_VA,
        ensures
            final(self).wf(),
            final(fa).wf(),
            final(self).frames_owned(*final(fa)),
            final(fa).limit() == old(fa).limit(),
            final(self).heap_base == old(self).heap_base,
            final(self).brk == old(self).brk,
            final(self).vmas@ == if r matches Ok(()) && len > 0 {
                old(self).vmas@.push(
                    Vma {
                        start_vpn: (page_of(start as int) as usize),
                        pages: (pages_for(len as int) as usize),
                        flags: pte_flags_of_port(port),
                    },
                )
            } else {
                old(self).vmas@
            },
            match r {
                Ok(()) => mmap_ok_pre(*old(self), *old(fa), start, len, port) && mmap_ok_post(
                    *old(self),
                    *final(self),
                    start,
                    len,
                    port,
                ) && final(fa).free_count() == old(fa).free_count() - pages_for(len as int),
                Err(MemError::Unaligned) => start as int % (PAGE_SIZE as int) != 0 && *final(self)
                    == *old(self) && *final(fa) == *old(fa),
                Err(MemError::InvalidPermission) => start as int % (PAGE_SIZE as int) == 0 && port
                    >= 8 && *final(self) == *old(self) && *final(fa) == *old(fa),
                Err(MemError::EmptyPermission) => start as int % (PAGE_SIZE as int) == 0 && port
                    == 0 && *final(self) == *old(self) && *final(fa) == *old(fa),
                Err(MemError::OverlapExisting) => start as int % (PAGE_SIZE as int) == 0
                    && valid_port(port) && !no_overlap(
                    old(self).pt@,
                    page_of(start as int),
                    page_of(start as int) + pages_for(len as int),
                ) && *final(self) == *old(self) && *final(fa) == *old(fa),
                Err(MemError::OutOfMemory) => start as int % (PAGE_SIZE as int) == 0 && valid_port(
                    port,
                ) && no_overlap(
                    old(self).pt@,
                    page_of(start as int),
                    page_of(start as int) + pages_for(len as int),
                ) && old(fa).free_count() < pages_for(len as int) && final(fa).free_count() == 0
                    && (forall|v: nat|
                    #[trigger] old(self).pt@.contains_key(v) ==> final(self).pt@.contains_key(v)
                        && final(self).pt@[v] == old(self).pt@[v]) && (forall|v: nat|
                    #[trigger] final(self).pt@.contains_key(v) ==> old(self).pt@.contains_key(v)
                        || page_of(start as int) <= v < page_of(start as int) + pages_for(
                        len as int,
                    )),
                Err(_) => false,
            },
    {
        if start % PAGE_SIZE != 0 {
            return Err(MemError::Unaligned);
        }
        if port >= 8 {
            return Err(MemError::InvalidPermission);
        }
        if port == 0 {
            return Err(MemError::EmptyPermission);
        }
        proof {
            lemma_page_bounds(start as int, len as int);
        }
        let lo = start / PAGE_SIZE;
        let cnt = len / PAGE_SIZE + if len % PAGE_SIZE != 0 {
            1
        } else {
            0
        };
        let hi = lo + cnt;
        let mut p = lo;
        while p < hi
            invariant
                lo <= p <= hi,
                hi == lo + cnt,
                hi <= MAX_VPN,
                lo == page_of(start as int),
                cnt == pages_for(len as int),
                *self == *old(self),
                *fa == *old(fa),
                start as int % (PAGE_SIZE as int) == 0,
                valid_port(port),
                old(self).wf(),
                old(fa).wf(),
                old(self).frames_owned(*old(fa)),
                no_overlap(self.pt@, lo as int, p as int),
            decreases hi - p,
        {
            if self.pt.translate(p).is_some() {
                proof {
                    let q: int = p as int;
                    assert(self.pt@.contains_key(q as nat));
                    assert(!no_overlap(self.pt@, lo as int, hi as int));
                }
                return Err(MemError::OverlapExisting);
            }
            p = p + 1;
        }
        let flags = (port as u8) | FLAG_U;
        let ghost mid = *self;
        let mut p = lo;
        while p < hi
            invariant
                lo <= p <= hi,
                hi == lo + cnt,
                hi <= MAX_VPN,
                lo == page_of(start as int),
                cnt == pages_for(len as int),
                flags == pte_flags_of_port(port),
                valid_port(port),
                start as int % (PAGE_SIZE as int) == 0,
                old(self).wf(),
                old(fa).wf(),
                self.pt.wf(),
                fa.wf(),
                fa.limit() == old(fa).limit(),
                self.vmas@ == old(self).vmas@,
                self.heap_base == old(self).heap_base,
                self.brk == old(self).brk,
                no_overlap(old(self).pt@, lo as int, hi as int),
                self.pt@.dom() == old(self).pt@.dom() + range_set(lo as int, p as int),
                forall|v: nat|
                    #[trigger] old(self).pt@.contains_key(v) ==> self.pt@.contains_key(v)
                        && self.pt@[v] == old(self).pt@[v],
                forall|q: int|
                    lo <= q < p ==> self.pt@.contains_key(q as nat) && (#[trigger] self.pt@[
                        q as nat
                    ]).flags == flags,
                self.frames_owned(*fa),
                fa.free_count() == old(fa).free_count() - (p - lo),
            decreases hi - p,
        {
            let ghost fa_pre = *fa;
            match fa.alloc_frame() {
                None => {
                    proof {
                        assert(fa_pre.free_count() == 0);
                        assert(old(fa).free_count() == p - lo);
                        assert forall|v: nat| #[trigger] self.pt@.contains_key(v) implies old(
                            self,
                        ).pt@.contains_key(v) || lo <= v < hi by {
                            assert(old(self).pt@.dom() + range_set(lo as int, p as int) == self.pt@.dom());
                            assert(self.pt@.dom().contains(v));
                        }
                    }
                    return Err(MemError::OutOfMemory);
                },
                Some(ppn) => {
                    proof {
                        assert forall|v: nat|
                            #[trigger] self.pt@.contains_key(v) implies self.pt@[v].ppn != ppn by {
                            assert(fa_pre.outstanding().contains(self.pt@[v].ppn as nat));
                        }
                        assert(!self.pt@.contains_key(p as nat)) by {
                            let q: int = p as int;
                            assert(lo <= q < hi);
                            assert(!old(self).pt@.contains_key(q as nat));
                            assert(!range_set(lo as int, p as int).contains(p as nat));
                            assert(!(old(self).pt@.dom() + range_set(lo as int, p as int)).contains(
                                p as nat,
                            ));
                        }
                    }
                    let res = self.pt.map_page(p, ppn, flags);
                    proof {
                        assert(res is Ok);
                    }
                    p = p + 1;
                    proof {
                        assert(self.pt@.dom() =~= old(self).pt@.dom() + range_set(
                            lo as int,
                            p as int,
                        ));
                    }
                },
            }
        }
        if len > 0 {
            self.vmas.push(Vma { start_vpn: lo, pages: cnt, flags });
        }
        proof {
            assert(self.pt@.dom() =~= old(self).pt@.dom() + range_set(lo as int, hi as int));
            let s1 = *self;
            assert forall|q: int| covers(s1.vmas@, q) implies s1.pt@.contains_key(q as nat) by {
                let i = choose|i: int|
                    0 <= i < s1.vmas@.len() && (#[trigger] s1.vmas@[i]).start_vpn <= q < s1.vmas@[i].start_vpn
                        + s1.vmas@[i].pages;
                if i < old(self).vmas@.len() {
                    assert(covers(old(self).vmas@, q));
                } else {
                    assert(lo <= q < hi);
                }
            }
            assert forall|i1: int, i2: int|
                0 <= i1 < i2 < s1.vmas@.len() implies (#[trigger] s1.vmas@[i1]).start_vpn
                + s1.vmas@[i1].pages <= (#[trigger] s1.vmas@[i2]).start_vpn || s1.vmas@[i2].start_vpn
                + s1.vmas@[i2].pages <= s1.vmas@[i1].start_vpn by {
                if i2 < old(self).vmas@.len() {
                    assert(s1.vmas@[i1] == old(self).vmas@[i1]);
                    assert(s1.vmas@[i2] == old(self).vmas@[i2]);
                } else {
                    let w = old(self).vmas@[i1];
                    assert(s1.vmas@[i1] == w);
                    let ws = w.start_vpn as int;
                    let we = ws + w.pages;
                    if !(we <= lo || hi <= ws) {
                        let q: int = if ws >= lo as int {
                            ws
                        } else {
                            lo as int
                        };
                        assert(ws <= q < we);
                        assert(lo <= q < hi);
                        assert(covers(old(self).vmas@, q)) by {
                            assert((#[trigger] old(self).vmas@[i1]).start_vpn <= q < old(
                                self,
                            ).vmas@[i1].start_vpn + old(self).vmas@[i1].pages);
                        }
                        assert(old(self).pt@.contains_key(q as nat));
                        assert(!old(self).pt@.contains_key(q as nat));
                    }
                }
            }
            assert(old(fa).free_count() - (hi - lo) >= 0);
            if len > 0 {
                assert(cnt >= 1);
            }
        }
        Ok(())
    }
}

/// How a successful `munmap(start, len)` turns `s0` into `s1`: the
/// range's pages leave the page table, the recorded areas are clipped
/// around the range, and the heap is untouched.
pub open spec fn munmap_ok_post(s0: AddressSpace, s1: AddressSpace, start: usize, len: usize) -> bool {
    let lo = page_of(start as int);
    let hi = lo + pages_for(len as int);
    &&& s1.pt@ == s0.pt@.remove_keys(range_set(lo, hi))
    &&& s1.vmas@ == if len == 0 {
        s0.vmas@
    } else {
        clip_all(s0.vmas@, lo, hi)
    }
    &&& s1.brk == s0.brk
    &&& s1.heap_base == s0.heap_base
}

/// True when some recorded area covers page `p`.
fn covers_page(vmas: &Vec<Vma>, p: usize) -> (r: bool)
    ensures
        r == covers(vmas@, p as int),
{
    let n = vmas.len();
    let mut i: usize = 0;
    while i < n
        invariant
            n == vmas@.len(),
            0 <= i <= n,
            forall|j: int|
                0 <= j < i ==> !((#[trigger] vmas@[j]).start_vpn <= p as int && (p as int)
                    < vmas@[j].start_vpn + vmas@[j].pages),
        decreases n - i,
    {
        let v = vmas[i];
        if p >= v.start_vpn && p - v.start_vpn < v.pages {
            return true;
        }
        i = i + 1;
    }
    false
}

impl AddressSpace {
    /// Unmaps the pages of `[start, start + len)`.  Every page of the
    /// range must currently be mapped (heap pages included); otherwise
    /// nothing changes and `NotMapped` comes back.  On success every
    /// page's frame returns to the allocator and any recorded areas
    /// touching the range are removed, shrunk or split.
    pub fn munmap(&mut self, fa: &mut FrameAllocator, start: usize, len: usize) -> (r: Result<
        (),
        MemError,
    >)
        requires
            old(self).wf(),
            old(fa).wf(),
            old(self).frames_owned(*old(fa)),
            start + len <= MAX_VA,
        ensures
            final(self).wf(),
            final(fa).wf(),
            final(self).frames_owned(*final(fa)),
            final(fa).limit() == old(fa).limit(),
            final(self).heap_base == old(self).heap_base,
            final(self).brk == old(self).brk,
            match r {
                Ok(()) => start as int % (PAGE_SIZE as int) == 0 && all_mapped(
                    old(self).pt@,
                    page_of(start as int),
                    page_of(start as int) + pages_for(len as int),
                ) && munmap_ok_post(*old(self), *final(self), start, len) && final(fa).free_count()
                    == old(fa).free_count() + pages_for(len as int),
                Err(MemError::Unaligned) => start as int % (PAGE_SIZE as int) != 0 && *final(self)
                    == *old(self) && *final(fa) == *old(fa),
                Err(MemError::NotMapped) => start as int % (PAGE_SIZE as int) == 0 && !all_mapped(
                    old(self).pt@,
                    page_of(start as int),
                    page_of(start as int) + pages_for(len as int),
                ) && *final(self) == *old(self) && *final(fa) == *old(fa),
                Err(_) => false,
            },
    {
        if start % PAGE_SIZE != 0 {
            return Err(MemError::Unaligned);
        }
        if len == 0 {
            proof {
                let lo = page_of(start as int);
                assert(old(self).pt@.remove_keys(range_set(lo, lo + pages_for(0))) =~= old(
                    self,
                ).pt@);
            }
            return Ok(());
        }
        proof {
            lemma_page_bounds(start as int, len as int);
        }
        let lo = start / PAGE_SIZE;
        let cnt = len / PAGE_SIZE + if len % PAGE_SIZE != 0 {
            1
        } else {
            0
        };
        let hi = lo + cnt;
        let mut p = lo;
        while p < hi
            invariant
                lo <= p <= hi,
                hi == lo + cnt,
                hi <= MAX_VPN,
                lo == page_of(start as int),
                cnt == pages_for(len as int),
                len > 0,
                *self == *old(self),
                *fa == *old(fa),
                start as int % (PAGE_SIZE as int) == 0,
                old(self).wf(),
                old(fa).wf(),
                old(self).frames_owned(*old(fa)),
                all_mapped(self.pt@, lo as int, p as int),
            decreases hi - p,
        {
            if self.pt.translate(p).is_none() {
                proof {
                    assert(!all_mapped(self.pt@, lo as int, hi as int)) by {
                        if all_mapped(self.pt@, lo as int, hi as int) {
                            let q: int = p as int;
                            assert(self.pt@.contains_key(q as nat));
                            assert(q as nat == p as nat);
                        }
                    }
                }
                return Err(MemError::NotMapped);
            }
            proof {
                assert forall|q: int|
                    lo <= q < p + 1 implies #[trigger] self.pt@.contains_key(q as nat) by {
                    if q == p as int {
                        assert(self.pt@.contains_key(p as nat));
                        assert(q as nat == p as nat);
                    }
                }
            }
            p = p + 1;
        }
        // Build the clipped area list before touching the page table.
        let mut kept: Vec<Vma> = Vec::new();
        let n = self.vmas.len();
        let mut i: usize = 0;
        while i < n
            invariant
                n == self.vmas@.len(),
                0 <= i <= n,
                hi == lo + cnt,
                hi <= MAX_VPN,
                len > 0,
                *self == *old(self),
                *fa == *old(fa),
                old(self).wf(),
                kept@ == clip_all(self.vmas@.take(i as int), lo as int, hi as int),
                forall|q: int|
                    covers(kept@, q) ==> covers(self.vmas@.take(i as int), q) && !(lo <= q < hi),
                vmas_disjoint(kept@),
                forall|j: int|
                    0 <= j < kept@.len() ==> 1 <= (#[trigger] kept@[j]).pages && kept@[j].start_vpn
                        + kept@[j].pages <= MAX_VPN,
            decreases n - i,
        {
            let ghost kept0 = kept@;
            let v = self.vmas[i];
            let vs = v.start_vpn;
            let ve = v.start_vpn + v.pages;
            let left_end = if lo < ve {
                lo
            } else {
                ve
            };
            let right_start = if hi > vs {
                hi
            } else {
                vs
            };
            if vs < left_end {
                kept.push(Vma { start_vpn: vs, pages: left_end - vs, flags: v.flags });
            }
            if right_start < ve {
                kept.push(
                    Vma { start_vpn: right_start, pages: ve - right_start, flags: v.flags },
                );
            }
            i = i + 1;
            proof {
                assert(self.vmas@.take(i as int).drop_last() =~= self.vmas@.take(i as int - 1));
                assert(self.vmas@.take(i as int).last() == v);
                assert(kept@ =~= clip_all(self.vmas@.take(i as int - 1), lo as int, hi as int)
                    + clip_vma(v, lo as int, hi as int));
                assert forall|q: int| covers(kept@, q) implies covers(
                    self.vmas@.take(i as int),
                    q,
                ) && !(lo <= q < hi) by {
                    let j = choose|j: int|
                        0 <= j < kept@.len() && (#[trigger] kept@[j]).start_vpn <= q < kept@[j].start_vpn
                            + kept@[j].pages;
                    if j < kept0.len() {
                        assert(kept0[j] == kept@[j]);
                        assert(covers(kept0, q));
                        let j2 = choose|j2: int|
                            0 <= j2 < self.vmas@.take(i as int - 1).len() && (
                            #[trigger] self.vmas@.take(i as int - 1)[j2]).start_vpn <= q
                                < self.vmas@.take(i as int - 1)[j2].start_vpn + self.vmas@.take(
                                i as int - 1,
                            )[j2].pages;
                        assert(self.vmas@.take(i as int)[j2] == self.vmas@.take(i as int - 1)[j2]);
                        assert(covers(self.vmas@.take(i as int), q));
                    } else {
                        assert(vs <= q < ve);
                        assert(covers(self.vmas@.take(i as int), q)) by {
                            assert(self.vmas@.take(i as int)[i as int - 1] == v);
                        }
                    }
                }
                assert forall|j1: int, j2: int|
                    0 <= j1 < j2 < kept@.len() implies (#[trigger] kept@[j1]).start_vpn
                    + kept@[j1].pages <= (#[trigger] kept@[j2]).start_vpn || kept@[j2].start_vpn
                    + kept@[j2].pages <= kept@[j1].start_vpn by {
                    if j2 < kept0.len() {
                        assert(kept@[j1] == kept0[j1] && kept@[j2] == kept0[j2]);
                    } else if j1 >= kept0.len() {
                        // both are pieces of `v`: the low piece ends by `lo`,
                        // the high piece starts at or past `hi`
                        assert(kept@[j1].start_vpn + kept@[j1].pages <= lo);
                        assert(hi <= kept@[j2].start_vpn);
                    } else {
                        let a = kept0[j1];
                        let b = kept@[j2];
                        assert(kept@[j1] == a);
                        let a_s = a.start_vpn as int;
                        let a_e = a_s + a.pages;
                        let b_s = b.start_vpn as int;
                        let b_e = b_s + b.pages;
                        assert(vs <= b_s && b_e <= ve);
                        if !(a_e <= b_s || b_e <= a_s) {
                            let q: int = if a_s >= b_s {
                                a_s
                            } else {
                                b_s
                            };
                            assert(a_s <= q < a_e && b_s <= q < b_e);
                            assert(covers(kept0, q)) by {
                                assert((#[trigger] kept0[j1]).start_vpn <= q < kept0[j1].start_vpn
                                    + kept0[j1].pages);
                            }
                            assert(covers(self.vmas@.take(i as int - 1), q));
                            let j3 = choose|j3: int|
                                0 <= j3 < self.vmas@.take(i as int - 1).len() && (
                                #[trigger] self.vmas@.take(i as int - 1)[j3]).start_vpn <= q
                                    < self.vmas@.take(i as int - 1)[j3].start_vpn
                                    + self.vmas@.take(i as int - 1)[j3].pages;
                            let w = self.vmas@[j3];
                            assert(self.vmas@.take(i as int - 1)[j3] == w);
                            assert(w.start_vpn <= q < w.start_vpn + w.pages);
                            assert(vs <= q < ve);
                            // `w` and `v` are distinct recorded areas sharing
                            // page `q`: impossible for a well-formed space
                            assert(self.vmas@[i as int - 1] == v);
                            assert(j3 < i as int - 1);
                            assert(false);
                        }
                    }
                }
            }
        }
        proof {
            assert(self.vmas@.take(n as int) =~= self.vmas@);
            assert forall|q: int| covers(kept@, q) implies covers(self.vmas@, q) && !(lo <= q
                < hi) by {
                assert(covers(self.vmas@.take(n as int), q));
            }
        }
        // Unmap each page and return its frame.
        let mut p = lo;
        while p < hi
            invariant
                lo <= p <= hi,
                hi == lo + cnt,
                hi <= MAX_VPN,
                lo == page_of(start as int),
                cnt == pages_for(len as int),
                len > 0,
                start as int % (PAGE_SIZE as int) == 0,
                old(self).wf(),
                old(fa).wf(),
                self.pt.wf(),
                fa.wf(),
                fa.limit() == old(fa).limit(),
                self.vmas@ == old(self).vmas@,
                self.heap_base == old(self).heap_base,
                self.brk == old(self).brk,
                all_mapped(old(self).pt@, lo as int, hi as int),
                kept@ == clip_all(old(self).vmas@, lo as int, hi as int),
                forall|q: int|
                    covers(kept@, q) ==> covers(old(self).vmas@, q) && !(lo <= q < hi),
                vmas_disjoint(kept@),
                forall|j: int|
                    0 <= j < kept@.len() ==> 1 <= (#[trigger] kept@[j]).pages && kept@[j].start_vpn
                        + kept@[j].pages <= MAX_VPN,
                self.pt@ == old(self).pt@.remove_keys(range_set(lo as int, p as int)),
                self.frames_owned(*fa),
                fa.free_count() == old(fa).free_count() + (p - lo),
            decreases hi - p,
        {
            proof {
                let q: int = p as int;
                assert(old(self).pt@.contains_key(q as nat));
                assert(!range_set(lo as int, p as int).contains(p as nat));
                assert(self.pt@.contains_key(p as nat));
                self.pt.lemma_view_injective();
            }
            let ghost pt_pre = self.pt@;
            let pte = match self.pt.unmap_page(p) {
                Ok(pte) => pte,
                Err(_) => {
                    // Cannot happen: every page of the range was checked mapped.
                    proof {
                        assert(false);
                    }
                    return Err(MemError::NotMapped);
                },
            };
            fa.dealloc_frame(pte.ppn);
            proof {
                assert forall|v: nat| #[trigger] self.pt@.contains_key(v) implies fa.outstanding()
                    .contains(self.pt@[v].ppn as nat) by {
                    assert(v != p as nat);
                    assert(pt_pre.contains_key(v));
                    assert(pt_pre[v] == self.pt@[v]);
                    assert(pt_pre[v].ppn != pte.ppn);
                }
            }
            p = p + 1;
            proof {
                assert(self.pt@ =~= old(self).pt@.remove_keys(range_set(lo as int, p as int)));
            }
        }
        self.vmas = kept;
        proof {
            let s1 = *self;
            assert(self.pt@ =~= old(self).pt@.remove_keys(range_set(lo as int, hi as int)));
            assert forall|q: int| covers(s1.vmas@, q) implies s1.pt@.contains_key(q as nat) by {
                assert(covers(old(self).vmas@, q) && !(lo <= q < hi));
                assert(old(self).pt@.contains_key(q as nat));
                assert(!range_set(lo as int, hi as int).contains(q as nat));
            }
        }
        Ok(())
    }
}

/// A successful `sbrk(delta)` was possible on `s0` with allocator
/// `fa0`: the new break stays in `[heap_base, MAX_VA]`, and growth
/// finds its new pages unmapped and enough free frames.
pub open spec fn sbrk_ok_pre(s0: AddressSpace, fa0: FrameAllocator, delta: int) -> bool {
    let nb = s0.brk + delta;
    &&& s0.heap_base <= nb <= MAX_VA
    &&& nb > s0.brk ==> no_overlap(s0.pt@, pages_for(s0.brk as int), pages_for(nb)) && pages_for(
        nb,
    ) - pages_for(s0.brk as int) <= fa0.free_count()
}

/// How a successful `sbrk` turns `s0` into `s1` when the break moves to
/// `nb`: heap pages appear (read-write, user) or disappear page by
/// page; nothing else moves.
pub open spec fn sbrk_ok_post(s0: AddressSpace, s1: AddressSpace, nb: int) -> bool {
    let e0 = pages_for(s0.brk as int);
    let e1 = pages_for(nb);
    &&& s1.brk == nb
    &&& s1.heap_base == s0.heap_base
    &&& s1.vmas@ == s0.vmas@
    &&& if e1 >= e0 {
        &&& s1.pt@.dom() == s0.pt@.dom() + range_set(e0, e1)
        &&& (forall|v: nat|
            #[trigger] s0.pt@.contains_key(v) ==> s1.pt@.contains_key(v) && s1.pt@[v]
                == s0.pt@[v])
        &&& (forall|p: int|
            e0 <= p < e1 ==> s1.pt@.contains_key(p as nat) && (#[trigger] s1.pt@[
                p as nat
            ]).flags == (FLAG_R | FLAG_W | FLAG_U))
    } else {
        s1.pt@ == s0.pt@.remove_keys(heap_reclaim_set(s0.pt@, s0.vmas@, e1, e0))
    }
}

/// `pages_for` is monotone and stays within the managed page range.
proof fn lemma_pages_for_le(a: int, b: int)
    requires
        0 <= a <= b <= MAX_VA,
    ensures
        0 <= pages_for(a) <= pages_for(b) <= MAX_VPN,
{
    let ps = PAGE_SIZE as int;
    lemma_fundamental_div_mod(a, ps);
    lemma_fundamental_div_mod(b, ps);
    lemma_div_is_ordered(0, a, ps);
    lemma_div_is_ordered(a, b, ps);
    lemma_div_is_ordered(b, MAX_VA as int, ps);
    assert(MAX_VA as int / ps == MAX_VPN);
    if b % ps != 0 {
        assert(b <= MAX_VA - 1);
        lemma_div_is_ordered(b, MAX_VA as int - 1, ps);
        assert((MAX_VA as int - 1) / ps == MAX_VPN - 1);
    }
    if a % ps != 0 && a / ps == b / ps {
        assert(b % ps == b - ps * (b / ps));
        assert(b % ps >= a % ps);
    }
}

impl AddressSpace {
    /// Moves the program break by `delta` bytes (negative shrinks),
    /// mapping or unmapping whole heap pages as the break crosses page
    /// boundaries, and returns the break before the call.  An invalid
    /// move - below the heap origin, past the managed range, onto pages
    /// already mapped, or beyond the frame pool - changes nothing and
    /// returns `None`; growth is never left half done.
    pub fn sbrk(&mut self, fa: &mut FrameAllocator, delta: i32) -> (r: Option<usize>)
        requires
            old(self).wf(),
            old(fa).wf(),
            old(self).frames_owned(*old(fa)),
        ensures
            final(self).wf(),
            final(fa).wf(),
            final(self).frames_owned(*final(fa)),
            final(fa).limit() == old(fa).limit(),
            final(self).heap_base == old(self).heap_base,
            final(self).vmas@ == old(self).vmas@,
            delta == 0 ==> r == Some(old(self).brk) && *final(self) == *old(self) && *final(fa)
                == *old(fa),
            match r {
                Some(b) => b == old(self).brk && sbrk_ok_pre(*old(self), *old(fa), delta as int)
                    && sbrk_ok_post(*old(self), *final(self), old(self).brk + delta) && (if
                pages_for(old(self).brk + delta) >= pages_for(old(self).brk as int) {
                    final(fa).free_count() == old(fa).free_count() - (pages_for(
                        old(self).brk + delta,
                    ) - pages_for(old(self).brk as int))
                } else {
                    final(fa).free_count() == old(fa).free_count() + reclaim_count(
                        old(self).pt@,
                        old(self).vmas@,
                        pages_for(old(self).brk + delta),
                        pages_for(old(self).brk as int),
                    )
                }),
                None => !sbrk_ok_pre(*old(self), *old(fa), delta as int) && *final(self) == *old(
                    self,
                ) && *final(fa) == *old(fa),
            },
    {
        if delta == 0 {
            proof {
                assert(old(self).pt@.dom() + range_set(
                    pages_for(old(self).brk as int),
                    pages_for(old(self).brk as int),
                ) =~= old(self).pt@.dom());
            }
            return Some(self.brk);
        }
        let old_brk = self.brk;
        let nb: usize;
        if delta >= 0 {
            let d = delta as usize;
            if d > MAX_VA - self.brk {
                return None;
            }
            nb = self.brk + d;
        } else {
            let d = (-(delta as i64)) as usize;
            if d > self.brk - self.heap_base {
                return None;
            }
            nb = self.brk - d;
        }
        proof {
            lemma_pages_for_le(
                if nb <= old(self).brk {
                    nb as int
                } else {
                    old(self).brk as int
                },
                if nb <= old(self).brk {
                    old(self).brk as int
                } else {
                    nb as int
                },
            );
            lemma_pages_for_le(old(self).heap_base as int, nb as int);
        }
        let e0 = self.brk / PAGE_SIZE + if self.brk % PAGE_SIZE != 0 {
            1
        } else {
            0
        };
        let e1 = nb / PAGE_SIZE + if nb % PAGE_SIZE != 0 {
            1
        } else {
            0
        };
        if e1 >= e0 {
            let mut p = e0;
            while p < e1
                invariant
                    e0 <= p <= e1,
                    e1 <= MAX_VPN,
                    e0 == pages_for(old(self).brk as int),
                    e1 == pages_for(nb as int),
                    old(self).heap_base <= nb <= MAX_VA,
                    delta != 0,
                    nb == old(self).brk + delta,
                    e1 > e0 ==> nb > old(self).brk,
                    *self == *old(self),
                    *fa == *old(fa),
                    old(self).wf(),
                    old(fa).wf(),
                    old(self).frames_owned(*old(fa)),
                    no_overlap(self.pt@, e0 as int, p as int),
                decreases e1 - p,
            {
                if self.pt.translate(p).is_some() {
                    proof {
                        let q: int = p as int;
                        assert(self.pt@.contains_key(q as nat));
                        assert(!no_overlap(self.pt@, e0 as int, e1 as int));
                    }
                    return None;
                }
                p = p + 1;
            }
            if !fa.has_at_least(e1 - e0) {
                return None;
            }
            let mut p = e0;
            while p < e1
                invariant
                    e0 <= p <= e1,
                    e1 <= MAX_VPN,
                    e0 == pages_for(old(self).brk as int),
                    e1 == pages_for(nb as int),
                    old(self).heap_base <= nb <= MAX_VA,
                    e1 >= e0,
                    old(self).wf(),
                    old(fa).wf(),
                    self.pt.wf(),
                    fa.wf(),
                    fa.limit() == old(fa).limit(),
                    self.vmas@ == old(self).vmas@,
                    self.heap_base == old(self).heap_base,
                    self.brk == old(self).brk,
                    no_overlap(old(self).pt@, e0 as int, e1 as int),
                    self.pt@.dom() == old(self).pt@.dom() + range_set(e0 as int, p as int),
                    forall|v: nat|
                        #[trigger] old(self).pt@.contains_key(v) ==> self.pt@.contains_key(v)
                            && self.pt@[v] == old(self).pt@[v],
                    forall|q: int|
                        e0 <= q < p ==> self.pt@.contains_key(q as nat) && (#[trigger] self.pt@[
                            q as nat
                        ]).flags == (FLAG_R | FLAG_W | FLAG_U),
                    self.frames_owned(*fa),
                    e1 - e0 <= old(fa).free_count(),
                    fa.free_count() == old(fa).free_count() - (p - e0),
                decreases e1 - p,
            {
                let ghost fa_pre = *fa;
                match fa.alloc_frame() {
                    None => {
                        // Cannot happen: enough free frames were checked.
                        proof {
                            assert(false);
                        }
                        return None;
                    },
                    Some(ppn) => {
                        proof {
                            assert forall|v: nat|
                                #[trigger] self.pt@.contains_key(v) implies self.pt@[v].ppn
                                != ppn by {
                                assert(fa_pre.outstanding().contains(self.pt@[v].ppn as nat));
                            }
                            assert(!self.pt@.contains_key(p as nat)) by {
                                let q: int = p as int;
                                assert(!old(self).pt@.contains_key(q as nat));
                                assert(!range_set(e0 as int, p as int).contains(p as nat));
                            }
                        }
                        let res = self.pt.map_page(p, ppn, FLAG_R | FLAG_W | FLAG_U);
                        proof {
                            assert(res is Ok);
                        }
                        p = p + 1;
                        proof {
                            assert(self.pt@.dom() =~= old(self).pt@.dom() + range_set(
                                e0 as int,
                                p as int,
                            ));
                        }
                    },
                }
            }
            self.brk = nb;
            proof {
                let s1 = *self;
                assert forall|q: int| covers(s1.vmas@, q) implies s1.pt@.contains_key(q as nat) by {
                    assert(covers(old(self).vmas@, q));
                    assert(old(self).pt@.contains_key(q as nat));
                }
            }
            Some(old_brk)
        } else {
            let mut p = e1;
            while p < e0
                invariant
                    e1 <= p <= e0,
                    e0 <= MAX_VPN,
                    e0 == pages_for(old(self).brk as int),
                    e1 == pages_for(nb as int),
                    old(self).heap_base <= nb <= MAX_VA,
                    nb < old(self).brk,
                    old(self).wf(),
                    old(fa).wf(),
                    self.pt.wf(),
                    fa.wf(),
                    fa.limit() == old(fa).limit(),
                    self.vmas@ == old(self).vmas@,
                    self.heap_base == old(self).heap_base,
                    self.brk == old(self).brk,
                    self.pt@ == old(self).pt@.remove_keys(
                        heap_reclaim_set(old(self).pt@, old(self).vmas@, e1 as int, p as int),
                    ),
                    self.frames_owned(*fa),
                    fa.free_count() == old(fa).free_count() + reclaim_count(
                        old(self).pt@,
                        old(self).vmas@,
                        e1 as int,
                        p as int,
                    ),
                decreases e0 - p,
            {
                proof {
                    assert(!heap_reclaim_set(
                        old(self).pt@,
                        old(self).vmas@,
                        e1 as int,
                        p as int,
                    ).contains(p as nat));
                }
                let mapped = self.pt.translate(p);
                let is_cov = covers_page(&self.vmas, p);
                if mapped.is_some() && !is_cov {
                    proof {
                        assert(self.pt@.contains_key(p as nat));
                        self.pt.lemma_view_injective();
                    }
                    let ghost pt_pre = self.pt@;
                    let pte = match self.pt.unmap_page(p) {
                        Ok(pte) => pte,
                        Err(_) => {
                            // Cannot happen: the page was just seen mapped.
                            proof {
                                assert(false);
                            }
                            return None;
                        },
                    };
                    fa.dealloc_frame(pte.ppn);
                    proof {
                        assert forall|v: nat| #[trigger] self.pt@.contains_key(v) implies fa
                            .outstanding().contains(self.pt@[v].ppn as nat) by {
                            assert(v != p as nat);
                            assert(pt_pre.contains_key(v));
                            assert(pt_pre[v] == self.pt@[v]);
                            assert(pt_pre[v].ppn != pte.ppn);
                        }
                    }
                }
                p = p + 1;
                proof {
                    let q: int = p as int - 1;
                    assert(reclaim_count(old(self).pt@, old(self).vmas@, e1 as int, q + 1)
                        == reclaim_count(old(self).pt@, old(self).vmas@, e1 as int, q) + if old(
                        self,
                    ).pt@.contains_key(q as nat) && !covers(old(self).vmas@, q) {
                        1int
                    } else {
                        0int
                    });
                    assert(mapped is Some <==> old(self).pt@.contains_key(q as nat));
                    assert(is_cov == covers(old(self).vmas@, q));
                    assert(self.pt@ =~= old(self).pt@.remove_keys(
                        heap_reclaim_set(old(self).pt@, old(self).vmas@, e1 as int, p as int),
                    ));
                }
            }
            self.brk = nb;
            proof {
                let s1 = *self;
                assert forall|q: int| covers(s1.vmas@, q) implies s1.pt@.contains_key(q as nat) by {
                    assert(covers(old(self).vmas@, q));
                    assert(old(self).pt@.contains_key(q as nat));
                    assert(!heap_reclaim_set(
                        old(self).pt@,
                        old(self).vmas@,
                        e1 as int,
                        e0 as int,
                    ).contains(q as nat));
                }
            }
            Some(old_brk)
        }
    }
}

/// An aligned start and an in-range length put the whole page range
/// inside the managed space.
proof fn lemma_page_bounds(start: int, len: int)
    requires
        0 <= start,
        0 <= len,
        start % (PAGE_SIZE as int) == 0,
        start + len <= MAX_VA,
    ensures
        0 <= page_of(start),
        page_of(start) * (PAGE_SIZE as int) == start,
        page_of(start) + pages_for(len) <= MAX_VPN,
        0 <= pages_for(len),
        len > 0 ==> pages_for(len) >= 1,
{
    let ps = PAGE_SIZE as int;
    lemma_fundamental_div_mod(start, ps);
    lemma_fundamental_div_mod(len, ps);
    assert(0 <= start % ps < ps);
    assert(0 <= len % ps < ps);
    assert(0 <= start / ps) by {
        lemma_div_is_ordered(0, start, ps);
    }
    assert(0 <= len / ps) by {
        lemma_div_is_ordered(0, len, ps);
    }
}

} // verus!
