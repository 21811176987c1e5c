//! The global laws of the core, proved from the operation contracts:
//! mapping then unmapping a range restores the address space, `sbrk`
//! undone by its negation restores the heap, and a range spanning two
//! pages splits into exactly two slices at the page boundary.

use vstd::prelude::*;
use vstd::arithmetic::div_mod::*;

use crate::addr_space::{
    clip_all, clip_vma, covers, mmap_ok_post, mmap_ok_pre, munmap_ok_post, no_overlap, page_of,
    pages_for, range_set, reclaim_count, sbrk_ok_post, sbrk_ok_pre, AddressSpace, Vma,
};
use crate::syscall::time_val_of_us;
use crate::frame::FrameAllocator;
use crate::page_table::PageTableEntry;
use crate::translator::{spec_segments, Segment};
use crate::PAGE_SIZE;

verus! {

/// Clipping by a range that misses every area leaves the list as it
/// was.
proof fn lemma_clip_all_id(s: Seq<Vma>, l: int, r: int)
    requires
        l <= r,
        forall|i: int| 0 <= i < s.len() ==> 1 <= (#[trigger] s[i]).pages,
        forall|i: int|
            0 <= i < s.len() ==> ((#[trigger] s[i]).start_vpn + s[i].pages <= l || r <= s[
                i
            ].start_vpn),
    ensures
        clip_all(s, l, r) == s,
    decreases s.len(),
{
    if s.len() > 0 {
        assert forall|i: int|
            0 <= i < s.drop_last().len() implies 1 <= (#[trigger] s.drop_last()[i]).pages && (
            s.drop_last()[i].start_vpn + s.drop_last()[i].pages <= l || r <= s.drop_last()[
                i
            ].start_vpn) by {
            assert(s.drop_last()[i] == s[i]);
        }
        lemma_clip_all_id(s.drop_last(), l, r);
        let v = s.last();
        assert(v == s[s.len() - 1]);
        assert(clip_vma(v, l, r) =~= seq![v]);
        assert(clip_all(s, l, r) =~= s);
    }
}

/// For all valid page-aligned `start` and lawful `port`, a successful
/// `mmap(start, len, port)` followed by a successful
/// `munmap(start, len)` leaves the recorded areas, the page table, and
/// the break exactly as they were before the `mmap`.
pub proof fn lemma_mmap_munmap_round_trip(
    s0: AddressSpace,
    s1: AddressSpace,
    s2: AddressSpace,
    fa0: FrameAllocator,
    start: usize,
    len: usize,
    port: usize,
)
    requires
        s0.wf(),
        mmap_ok_pre(s0, fa0, start, len, port),
        mmap_ok_post(s0, s1, start, len, port),
        munmap_ok_post(s1, s2, start, len),
    ensures
        s2.pt@ == s0.pt@,
        s2.vmas@ == s0.vmas@,
        s2.brk == s0.brk,
        s2.heap_base == s0.heap_base,
{
    let lo = page_of(start as int);
    let cnt = pages_for(len as int);
    let hi = lo + cnt;
    assert forall|k: nat| s2.pt@.contains_key(k) implies #[trigger] s0.pt@.contains_key(k)
        && s2.pt@[k] == s0.pt@[k] by {
        assert(s1.pt@.contains_key(k) && !range_set(lo, hi).contains(k));
        assert(s0.pt@.dom().contains(k) || range_set(lo, hi).contains(k));
    }
    assert(no_overlap(s0.pt@, lo, hi));
    assert forall|k: nat| s0.pt@.contains_key(k) implies #[trigger] s2.pt@.contains_key(k) by {
        assert(!range_set(lo, hi).contains(k)) by {
            if lo <= k < hi {
                let q: int = k as int;
                assert(lo <= q < hi);
                assert(!s0.pt@.contains_key(q as nat));
                assert(q as nat == k);
            }
        }
        assert(s1.pt@.contains_key(k));
    }
    assert(s2.pt@ =~= s0.pt@);
    if len == 0 {
    } else {
        let v = Vma {
            start_vpn: (lo as usize),
            pages: (cnt as usize),
            flags: crate::addr_space::pte_flags_of_port(port),
        };
        assert(s1.vmas@ == s0.vmas@.push(v));
        assert(cnt >= 1) by {
            lemma_fundamental_div_mod(len as int, PAGE_SIZE as int);
        }
        assert forall|i: int|
            0 <= i < s0.vmas@.len() implies ((#[trigger] s0.vmas@[i]).start_vpn + s0.vmas@[i].pages
            <= lo || hi <= s0.vmas@[i].start_vpn) by {
            let w = s0.vmas@[i];
            let vs = w.start_vpn as int;
            let ve = vs + w.pages;
            if !(ve <= lo || hi <= vs) {
                let p: int = if vs >= lo {
                    vs
                } else {
                    lo
                };
                assert(vs <= p < ve);
                assert(lo <= p < hi);
                assert(covers(s0.vmas@, p)) by {
                    assert((#[trigger] s0.vmas@[i]).start_vpn <= p < s0.vmas@[i].start_vpn
                        + s0.vmas@[i].pages);
                }
                assert(s0.pt@.contains_key(p as nat));
                assert(!s0.pt@.contains_key(p as nat));
            }
        }
        lemma_clip_all_id(s0.vmas@, lo, hi);
        assert(s0.vmas@.push(v).drop_last() =~= s0.vmas@);
        assert(s0.vmas@.push(v).last() == v);
        assert(clip_all(s1.vmas@, lo, hi) == clip_all(s0.vmas@, lo, hi) + clip_vma(v, lo, hi));
        assert(cnt >= 1) by {
            lemma_fundamental_div_mod(len as int, PAGE_SIZE as int);
        }
        assert(clip_vma(v, lo, hi) =~= Seq::<Vma>::empty());
        assert(s2.vmas@ =~= s0.vmas@);
    }
}

/// A shrink range whose pages are all mapped and owned by no recorded
/// area is reclaimed in full.
proof fn lemma_reclaim_count_full(
    m: Map<nat, crate::page_table::PageTableEntry>,
    vmas: Seq<Vma>,
    lo: int,
    hi: int,
)
    requires
        lo <= hi,
        forall|p: int| lo <= p < hi ==> #[trigger] m.contains_key(p as nat) && !covers(vmas, p),
    ensures
        reclaim_count(m, vmas, lo, hi) == hi - lo,
    decreases hi - lo,
{
    if lo < hi {
        lemma_reclaim_count_full(m, vmas, lo, hi - 1);
        assert(m.contains_key((hi - 1) as nat) && !covers(vmas, hi - 1));
    }
}

/// `sbrk` growth by `d` followed by `sbrk` shrink by the same `d`
/// returns the address space to its prior break and mapping state, and
/// every frame the growth acquired goes back to the allocator.
pub proof fn lemma_sbrk_round_trip(
    s0: AddressSpace,
    s1: AddressSpace,
    s2: AddressSpace,
    fa0: FrameAllocator,
    fa1: FrameAllocator,
    fa2: FrameAllocator,
    d: int,
)
    requires
        s0.wf(),
        0 <= d,
        sbrk_ok_pre(s0, fa0, d),
        sbrk_ok_post(s0, s1, s0.brk + d),
        sbrk_ok_post(s1, s2, s1.brk - d),
        fa1.free_count() == fa0.free_count() - (pages_for(s0.brk + d) - pages_for(s0.brk as int)),
        (if pages_for(s1.brk - d) >= pages_for(s1.brk as int) {
            fa2.free_count() == fa1.free_count() - (pages_for(s1.brk - d) - pages_for(
                s1.brk as int,
            ))
        } else {
            fa2.free_count() == fa1.free_count() + reclaim_count(
                s1.pt@,
                s1.vmas@,
                pages_for(s1.brk - d),
                pages_for(s1.brk as int),
            )
        }),
    ensures
        s2.brk == s0.brk,
        s2.heap_base == s0.heap_base,
        s2.vmas@ == s0.vmas@,
        s2.pt@ == s0.pt@,
        fa2.free_count() == fa0.free_count(),
{
    let e0 = pages_for(s0.brk as int);
    let e1 = pages_for(s0.brk + d);
    assert(e0 <= e1) by {
        let ps = PAGE_SIZE as int;
        lemma_fundamental_div_mod(s0.brk as int, ps);
        lemma_fundamental_div_mod(s0.brk + d, ps);
        lemma_div_is_ordered(s0.brk as int, s0.brk + d, ps);
        if s0.brk as int % ps != 0 && s0.brk as int / ps == (s0.brk + d) / ps {
            assert((s0.brk + d) % ps >= s0.brk as int % ps);
        }
    }
    if e1 == e0 {
        assert(s1.pt@.dom() =~= s0.pt@.dom() + range_set(e0, e1));
        assert forall|k: nat| s1.pt@.contains_key(k) implies #[trigger] s0.pt@.contains_key(k)
            && s1.pt@[k] == s0.pt@[k] by {
            assert(s0.pt@.dom().contains(k) || range_set(e0, e1).contains(k));
        }
        assert(s1.pt@ =~= s0.pt@);
        assert(s2.pt@ =~= s1.pt@);
    } else {
        assert(s2.pt@ == s1.pt@.remove_keys(range_set(e0, e1)));
        assert forall|k: nat| s2.pt@.contains_key(k) implies #[trigger] s0.pt@.contains_key(k)
            && s2.pt@[k] == s0.pt@[k] by {
            assert(s1.pt@.contains_key(k) && !range_set(e0, e1).contains(k));
            assert(s0.pt@.dom().contains(k) || range_set(e0, e1).contains(k));
        }
        assert(s0.brk + d > s0.brk);
        assert(no_overlap(s0.pt@, e0, e1));
        assert forall|k: nat| s0.pt@.contains_key(k) implies #[trigger] s2.pt@.contains_key(k) by {
            assert(!range_set(e0, e1).contains(k)) by {
                if e0 <= k < e1 {
                    let q: int = k as int;
                    assert(e0 <= q < e1);
                    assert(!s0.pt@.contains_key(q as nat));
                    assert(q as nat == k);
                }
            }
            assert(s1.pt@.contains_key(k));
        }
        assert(s2.pt@ =~= s0.pt@);
        assert forall|p: int|
            e0 <= p < e1 implies #[trigger] s1.pt@.contains_key(p as nat) && !covers(
            s1.vmas@,
            p,
        ) by {
            if covers(s1.vmas@, p) {
                assert(covers(s0.vmas@, p));
                assert(s0.pt@.contains_key(p as nat));
                assert(!s0.pt@.contains_key(p as nat));
            }
        }
        lemma_reclaim_count_full(s1.pt@, s1.vmas@, e0, e1);
    }
}

/// Successive readings of a monotonic clock give lexicographically
/// non-decreasing `(sec, usec)` timestamps.
pub proof fn lemma_time_val_monotone(us1: usize, us2: usize)
    requires
        us1 <= us2,
    ensures
        time_val_of_us(us2).sec > time_val_of_us(us1).sec || (time_val_of_us(us2).sec
            == time_val_of_us(us1).sec && time_val_of_us(us2).usec >= time_val_of_us(us1).usec),
{
    lemma_fundamental_div_mod(us1 as int, 1_000_000);
    lemma_fundamental_div_mod(us2 as int, 1_000_000);
    lemma_div_is_ordered(0, us1 as int, 1_000_000);
    lemma_div_is_ordered(us1 as int, us2 as int, 1_000_000);
}

/// A byte range spanning exactly two pages, with the page boundary `k`
/// bytes in, translates to exactly two slices of lengths `k` and
/// `len - k`, the first ending flush with its page and the second
/// starting at offset zero of the next page's frame.  Writing through
/// the two slices in order is then byte-exact with one contiguous
/// write, by the writer's contract.
pub proof fn lemma_two_page_split(m: Map<nat, PageTableEntry>, start: int, len: int)
    requires
        0 <= start,
        0 < len,
        start % (PAGE_SIZE as int) + len > PAGE_SIZE,
        start % (PAGE_SIZE as int) + len <= 2 * PAGE_SIZE,
    ensures
        ({
            let segs = spec_segments(m, start, len);
            let k = PAGE_SIZE - start % (PAGE_SIZE as int);
            &&& segs.len() == 2
            &&& segs[0].len == k
            &&& segs[0].off == start % (PAGE_SIZE as int)
            &&& segs[0].ppn == m[page_of(start) as nat].ppn
            &&& segs[1].len == len - k
            &&& segs[1].off == 0
            &&& segs[1].ppn == m[(page_of(start) + 1) as nat].ppn
        }),
{
    let ps = PAGE_SIZE as int;
    lemma_fundamental_div_mod(start, ps);
    let off = start % ps;
    let k = ps - off;
    let segs = spec_segments(m, start, len);
    let head = Segment { ppn: m[page_of(start) as nat].ppn, off: off as usize, len: k as usize };
    assert(len >= k);
    let tail = spec_segments(m, start + k, len - k);
    assert(segs == seq![head] + tail);
    lemma_fundamental_div_mod_converse(start + k, ps, start / ps + 1, 0);
    assert(page_of(start + k) == page_of(start) + 1);
    assert((start + k) % ps == 0);
    let head2 = Segment {
        ppn: m[(page_of(start) + 1) as nat].ppn,
        off: 0usize,
        len: (len - k) as usize,
    };
    assert(tail == seq![head2] + spec_segments(m, start + len, 0));
    assert(tail =~= seq![head2]);
    assert(segs.len() == 2);
    assert(segs[0] == head);
    assert(segs[1] == head2);
}

} // verus!
