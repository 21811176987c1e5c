//! The cross-space buffer translator: turns a byte range of a foreign
//! address space into the ordered sequence of physical slices that back
//! it, one slice per page touched, split exactly at page boundaries.
//! A writer that iterates the slices in order reproduces, byte for
//! byte, what one contiguous write would have produced.

use vstd::prelude::*;
use vstd::arithmetic::div_mod::*;

use crate::page_table::{PageTable, PageTableEntry};
use crate::phys::PhysMem;
use crate::addr_space::page_of;
use crate::{MemError, MAX_VA, PAGE_SIZE};

verus! {

/// One physically contiguous slice: `len` bytes starting `off` bytes
/// into frame `ppn`.  Never crosses a frame boundary.
#[derive(Clone, Copy, Debug, PartialEq, Eq, Structural)]
pub struct Segment {
    pub ppn: usize,
    pub off: usize,
    pub len: usize,
}

/// The physical address backing virtual address `va` under `m`.
pub open spec fn spec_pa(m: Map<nat, PageTableEntry>, va: int) -> int {
    m[page_of(va) as nat].ppn * (PAGE_SIZE as int) + va % (PAGE_SIZE as int)
}

/// Every page the byte range `[va, va + len)` touches is mapped in `m`.
pub open spec fn user_range_mapped(m: Map<nat, PageTableEntry>, va: int, len: int) -> bool {
    len <= 0 || forall|p: int|
        page_of(va) <= p <= page_of(va + len - 1) ==> #[trigger] m.contains_key(p as nat)
}

/// The slice sequence for the byte range `[va, va + len)` under `m`:
/// the head slice runs to the end of `va`'s page (or of the range),
/// the rest describes what remains.
pub open spec fn spec_segments(m: Map<nat, PageTableEntry>, va: int, len: int) -> Seq<Segment>
    decreases len,
{
    if len <= 0 {
        Seq::empty()
    } else {
        let off = va % (PAGE_SIZE as int);
        let room = PAGE_SIZE - off;
        let take = if len < room {
            len
        } else {
            room
        };
        seq![
            Segment {
                ppn: m[page_of(va) as nat].ppn,
                off: off as usize,
                len: take as usize,
            },
        ] + spec_segments(m, va + take, len - take)
    }
}

/// Total length of the first `i` slices.
pub open spec fn seg_prefix_len(s: Seq<Segment>, i: int) -> int
    decreases i,
{
    if i <= 0 {
        0
    } else {
        seg_prefix_len(s, i - 1) + s[i - 1].len
    }
}

/// Adding `j` bytes inside one page moves the offset, not the page.
proof fn lemma_same_page(x: int, j: int)
    requires
        0 <= x,
        0 <= j,
        x % (PAGE_SIZE as int) + j < PAGE_SIZE,
    ensures
        page_of(x + j) == page_of(x),
        (x + j) % (PAGE_SIZE as int) == x % (PAGE_SIZE as int) + j,
{
    let ps = PAGE_SIZE as int;
    lemma_fundamental_div_mod(x, ps);
    lemma_fundamental_div_mod_converse(x + j, ps, x / ps, x % ps + j);
}

/// Prefix lengths over a one-slice head shift by the head's length.
proof fn lemma_prefix_concat(f: Segment, t: Seq<Segment>, i: int)
    requires
        0 <= i <= t.len(),
    ensures
        seg_prefix_len(seq![f] + t, i + 1) == f.len + seg_prefix_len(t, i),
    decreases i,
{
    if i == 0 {
        assert((seq![f] + t)[0] == f);
        assert(seg_prefix_len(seq![f] + t, 0) == 0);
        assert(seg_prefix_len(t, 0) == 0);
        assert(seg_prefix_len(seq![f] + t, 1) == seg_prefix_len(seq![f] + t, 0) + (seq![f]
            + t)[0].len);
    } else {
        lemma_prefix_concat(f, t, i - 1);
        assert((seq![f] + t)[i] == t[i - 1]);
    }
}

/// Prefix lengths never decrease.
proof fn lemma_prefix_mono(s: Seq<Segment>, i: int, k: int)
    requires
        0 <= i <= k <= s.len(),
    ensures
        seg_prefix_len(s, i) <= seg_prefix_len(s, k),
    decreases k - i,
{
    if i < k {
        lemma_prefix_mono(s, i, k - 1);
    }
}

/// The slice sequence's total length is the range's length, and its
/// slice count is the number of pages touched.
proof fn lemma_segments_count(m: Map<nat, PageTableEntry>, va: int, len: int)
    requires
        0 <= va,
        0 <= len,
    ensures
        ({
            let segs = spec_segments(m, va, len);
            &&& seg_prefix_len(segs, segs.len() as int) == len
            &&& segs.len() == if len == 0 {
                0int
            } else {
                page_of(va + len - 1) - page_of(va) + 1
            }
        }),
    decreases len,
{
    let ps = PAGE_SIZE as int;
    let segs = spec_segments(m, va, len);
    if len > 0 {
        lemma_fundamental_div_mod(va, ps);
        let off = va % ps;
        let room = PAGE_SIZE - off;
        let take = if len < room {
            len
        } else {
            room
        };
        let f = segs[0];
        let t = spec_segments(m, va + take, len - take);
        lemma_segments_count(m, va + take, len - take);
        lemma_prefix_concat(f, t, t.len() as int);
        assert(seq![f] + t =~= segs);
        if len - take > 0 {
            assert(take == room);
            lemma_fundamental_div_mod_converse(va + take, ps, va / ps + 1, 0);
            assert(page_of(va + take) == page_of(va) + 1);
            assert(page_of(va + len - 1) == page_of((va + take) + (len - take) - 1));
        } else {
            assert(segs.len() == 1);
            lemma_same_page(va, len - 1);
            assert(page_of(va + len - 1) == page_of(va));
        }
    }
}

/// What slice `i` is: where it starts in the range, which page backs
/// it, and that it stays inside one page and inside the range.
proof fn lemma_segment_at(m: Map<nat, PageTableEntry>, va: int, len: int, i: int)
    requires
        0 <= va,
        0 <= len,
        0 <= i < spec_segments(m, va, len).len(),
    ensures
        ({
            let segs = spec_segments(m, va, len);
            let sp = va + seg_prefix_len(segs, i);
            &&& 1 <= segs[i].len
            &&& segs[i].off + segs[i].len <= PAGE_SIZE
            &&& page_of(sp) == page_of(va) + i
            &&& segs[i].ppn == m[(page_of(va) + i) as nat].ppn
            &&& segs[i].off == sp % (PAGE_SIZE as int)
            &&& sp + segs[i].len <= va + len
        }),
    decreases len,
{
    let ps = PAGE_SIZE as int;
    let segs = spec_segments(m, va, len);
    lemma_fundamental_div_mod(va, ps);
    let off = va % ps;
    let room = PAGE_SIZE - off;
    let take = if len < room {
        len
    } else {
        room
    };
    let f = segs[0];
    let t = spec_segments(m, va + take, len - take);
    assert(seq![f] + t =~= segs);
    if i == 0 {
    } else {
        assert(take == room || len - take == 0);
        lemma_segments_count(m, va + take, len - take);
        assert(t.len() > 0);
        assert(take == room);
        lemma_fundamental_div_mod_converse(va + take, ps, va / ps + 1, 0);
        lemma_segment_at(m, va + take, len - take, i - 1);
        lemma_prefix_concat(f, t, i - 1);
        assert(segs[i] == t[i - 1]);
    }
}

/// Walks the range `[start, start + len)` of `pt` page by page and
/// returns one physical slice per page touched, in order, or
/// `UnmappedAccess` if some touched page has no mapping.  No side
/// effects either way.
pub fn translated_byte_buffer(pt: &PageTable, start: usize, len: usize) -> (r: Result<
    Vec<Segment>,
    MemError,
>)
    requires
        pt.wf(),
        start + len <= MAX_VA,
    ensures
        match r {
            Ok(segs) => segs@ == spec_segments(pt@, start as int, len as int)
                && user_range_mapped(pt@, start as int, len as int),
            Err(e) => e == MemError::UnmappedAccess && len > 0 && !user_range_mapped(
                pt@,
                start as int,
                len as int,
            ),
        },
{
    let mut segs: Vec<Segment> = Vec::new();
    let mut cur = start;
    let mut rem = len;
    while rem > 0
        invariant
            pt.wf(),
            start + len <= MAX_VA,
            cur == start + len - rem,
            0 <= rem <= len,
            spec_segments(pt@, start as int, len as int) == segs@ + spec_segments(
                pt@,
                cur as int,
                rem as int,
            ),
            cur > start ==> forall|p: int|
                page_of(start as int) <= p <= page_of(cur as int - 1)
                    ==> #[trigger] pt@.contains_key(p as nat),
        decreases rem,
    {
        let page = cur / PAGE_SIZE;
        proof {
            lemma_div_is_ordered(start as int, cur as int, PAGE_SIZE as int);
            lemma_div_is_ordered(cur as int, start as int + len - 1, PAGE_SIZE as int);
        }
        match pt.translate(page) {
            None => {
                proof {
                    assert(page_of(start as int) <= page as int <= page_of(
                        start as int + len - 1,
                    ));
                    assert(!user_range_mapped(pt@, start as int, len as int)) by {
                        if user_range_mapped(pt@, start as int, len as int) {
                            assert(pt@.contains_key((page as int) as nat));
                            assert(pt@.contains_key(page as nat));
                        }
                    }
                }
                return Err(MemError::UnmappedAccess);
            },
            Some(pte) => {
                let off = cur % PAGE_SIZE;
                let room = PAGE_SIZE - off;
                let take = if rem < room {
                    rem
                } else {
                    room
                };
                let ghost segs0 = segs@;
                segs.push(Segment { ppn: pte.ppn, off, len: take });
                proof {
                    let head = Segment { ppn: pte.ppn, off, len: take };
                    assert(spec_segments(pt@, cur as int, rem as int) == seq![head]
                        + spec_segments(pt@, cur as int + take, rem as int - take));
                    assert(segs0 + spec_segments(pt@, cur as int, rem as int) =~= segs@
                        + spec_segments(pt@, cur as int + take, rem as int - take));
                    lemma_same_page(cur as int, take - 1);
                    assert forall|p: int|
                        page_of(start as int) <= p <= page_of(
                            cur as int + take - 1,
                        ) implies #[trigger] pt@.contains_key(p as nat) by {
                        if p == page_of(cur as int) {
                            assert(pt@.contains_key(page as nat));
                        } else {
                            assert(p <= page_of(cur as int - 1) || cur == start);
                        }
                    }
                }
                cur = cur + take;
                rem = rem - take;
            },
        }
    }
    proof {
        assert(segs@ + spec_segments(pt@, cur as int, 0) =~= segs@);
        if len > 0 {
            assert(cur as int - 1 == start as int + len - 1);
        }
    }
    Ok(segs)
}

/// Some byte of `[0, len)` lands at physical address `a`.
pub open spec fn range_backs(m: Map<nat, PageTableEntry>, va: int, len: int, a: int) -> bool {
    exists|k: int| 0 <= k < len && a == #[trigger] spec_pa(m, va + k)
}

/// Physical address `a` lies inside slice `s`.
pub open spec fn in_seg(s: Segment, a: int) -> bool {
    s.ppn * (PAGE_SIZE as int) + s.off <= a < s.ppn * (PAGE_SIZE as int) + s.off + s.len
}

/// Every byte position of the range falls inside some slice.
proof fn lemma_locate(s: Seq<Segment>, k: int)
    requires
        0 <= k < seg_prefix_len(s, s.len() as int),
        forall|i: int| 0 <= i < s.len() ==> 1 <= (#[trigger] s[i]).len,
    ensures
        exists|i: int|
            0 <= i < s.len() && seg_prefix_len(s, i) <= k < seg_prefix_len(s, i)
                + (#[trigger] s[i]).len,
    decreases s.len(),
{
    let n = s.len() as int;
    if k >= seg_prefix_len(s, n - 1) {
        assert(seg_prefix_len(s, n - 1) <= k < seg_prefix_len(s, n - 1) + s[n - 1].len);
    } else {
        let s0 = s.drop_last();
        assert forall|i: int| 0 <= i < s0.len() implies 1 <= (#[trigger] s0[i]).len by {
            assert(s0[i] == s[i]);
        }
        assert forall|i: int| 0 <= i <= s0.len() implies seg_prefix_len(s0, i) == seg_prefix_len(
            s,
            i,
        ) by {
            lemma_prefix_eq_take(s, i);
        }
        lemma_locate(s0, k);
        let i = choose|i: int|
            0 <= i < s0.len() && seg_prefix_len(s0, i) <= k < seg_prefix_len(s0, i) + (
            #[trigger] s0[i]).len;
        assert(seg_prefix_len(s, i) <= k < seg_prefix_len(s, i) + s[i].len);
    }
}

/// A prefix length only reads the slices before `i`.
proof fn lemma_prefix_eq_take(s: Seq<Segment>, i: int)
    requires
        0 <= i < s.len(),
    ensures
        seg_prefix_len(s.drop_last(), i) == seg_prefix_len(s, i),
    decreases i,
{
    if i > 0 {
        lemma_prefix_eq_take(s, i - 1);
        assert(s.drop_last()[i - 1] == s[i - 1]);
    }
}

/// Writes `data` into the physical bytes backing `[va, va + len)` of
/// `pt`, splitting at page boundaries through the translator's slices.
/// On success every byte of `data` stands at the physical address of
/// its virtual counterpart and no other byte of memory moves; if a
/// touched page is unmapped, nothing is written.
#[verifier::rlimit(100)]
pub fn write_user(pt: &PageTable, phys: &mut PhysMem, va: usize, data: &Vec<u8>) -> (r: Result<
    (),
    MemError,
>)
    requires
        pt.wf(),
        va + data@.len() <= MAX_VA,
        forall|v: nat|
            #[trigger] pt@.contains_key(v) ==> (pt@[v].ppn + 1) * (PAGE_SIZE as int) <= old(
                phys,
            )@.len(),
    ensures
        final(phys)@.len() == old(phys)@.len(),
        match r {
            Ok(()) => user_range_mapped(pt@, va as int, data@.len() as int) && (forall|k: int|
                0 <= k < data@.len() ==> final(phys)@[spec_pa(pt@, va + k)] == data@[k]) && (
            forall|a: int|
                0 <= a < old(phys)@.len() && !range_backs(pt@, va as int, data@.len() as int, a)
                    ==> final(phys)@[a] == old(phys)@[a]),
            Err(e) => e == MemError::UnmappedAccess && data@.len() > 0 && !user_range_mapped(
                pt@,
                va as int,
                data@.len() as int,
            ) && *final(phys) == *old(phys),
        },
{
    let len = data.len();
    let segs = match translated_byte_buffer(pt, va, len) {
        Ok(segs) => segs,
        Err(_) => {
            return Err(MemError::UnmappedAccess);
        },
    };
    let ghost sv = segs@;
    let ghost m = pt@;
    proof {
        lemma_segments_count(m, va as int, len as int);
        assert forall|i: int| 0 <= i < sv.len() implies {
            let sp = va + seg_prefix_len(sv, i);
            &&& 1 <= (#[trigger] sv[i]).len
            &&& sv[i].off + sv[i].len <= PAGE_SIZE
            &&& page_of(sp) == page_of(va as int) + i
            &&& sv[i].ppn == m[(page_of(va as int) + i) as nat].ppn
            &&& sv[i].off == sp % (PAGE_SIZE as int)
            &&& sp + sv[i].len <= va + len
            &&& m.contains_key((page_of(va as int) + i) as nat)
            &&& (sv[i].ppn + 1) * (PAGE_SIZE as int) <= old(phys)@.len()
        } by {
            lemma_segment_at(m, va as int, len as int, i);
            let p = page_of(va as int) + i;
            assert(page_of(va as int) <= p <= page_of(va as int + len - 1));
            assert(m.contains_key(p as nat));
        }
        pt.lemma_view_injective();
        assert forall|i1: int, i2: int|
            0 <= i1 < sv.len() && 0 <= i2 < sv.len() && i1 != i2 implies (#[trigger] sv[i1]).ppn
            != (#[trigger] sv[i2]).ppn by {
            let p1 = page_of(va as int) + i1;
            let p2 = page_of(va as int) + i2;
            assert(m.contains_key(p1 as nat) && m.contains_key(p2 as nat));
            assert(m[p1 as nat].ppn != m[p2 as nat].ppn);
        }
    }
    let n = segs.len();
    let mut i: usize = 0;
    let mut pos: usize = 0;
    while i < n
        invariant
            n == sv.len(),
            0 <= i <= n,
            segs@ == sv,
            len == data@.len(),
            va + len <= MAX_VA,
            pos == seg_prefix_len(sv, i as int),
            seg_prefix_len(sv, sv.len() as int) == len,
            phys@.len() == old(phys)@.len(),
            forall|i2: int|
                0 <= i2 < sv.len() ==> 1 <= (#[trigger] sv[i2]).len && sv[i2].off + sv[i2].len
                    <= PAGE_SIZE && (sv[i2].ppn + 1) * (PAGE_SIZE as int) <= old(phys)@.len(),
            forall|i1: int, i2: int|
                0 <= i1 < sv.len() && 0 <= i2 < sv.len() && i1 != i2 ==> (#[trigger] sv[i1]).ppn
                    != (#[trigger] sv[i2]).ppn,
            forall|i2: int, j: int|
                #![trigger data@[seg_prefix_len(sv, i2) + j]]
                0 <= i2 < i && 0 <= j < sv[i2].len ==> phys@[sv[i2].ppn * (
                PAGE_SIZE as int) + sv[i2].off + j] == data@[seg_prefix_len(sv, i2) + j],
            forall|a: int|
                0 <= a < phys@.len() && !(exists|i2: int|
                    0 <= i2 < i && in_seg(#[trigger] sv[i2], a)) ==> phys@[a] == old(phys)@[a],
        decreases n - i,
    {
        proof {
            lemma_prefix_mono(sv, i as int + 1, sv.len() as int);
        }
        let seg = segs[i];
        let plen = phys.mem_len();
        proof {
            assert(1 <= (sv[i as int]).len && sv[i as int].off + sv[i as int].len <= PAGE_SIZE
                && (sv[i as int].ppn + 1) * (PAGE_SIZE as int) <= old(phys)@.len());
            assert(seg.ppn * (PAGE_SIZE as int) + (PAGE_SIZE as int) <= plen);
        }
        let base = seg.ppn * PAGE_SIZE;
        let mut j: usize = 0;
        while j < seg.len
            invariant
                n == sv.len(),
                0 <= i < n,
                0 <= j <= seg.len,
                segs@ == sv,
                seg == sv[i as int],
                base == seg.ppn * (PAGE_SIZE as int),
                len == data@.len(),
                pos == seg_prefix_len(sv, i as int),
                pos + seg.len <= len,
                seg_prefix_len(sv, sv.len() as int) == len,
                phys@.len() == old(phys)@.len(),
                forall|i2: int|
                    0 <= i2 < sv.len() ==> 1 <= (#[trigger] sv[i2]).len && sv[i2].off + sv[i2].len
                        <= PAGE_SIZE && (sv[i2].ppn + 1) * (PAGE_SIZE as int) <= old(
                    phys,
                    )@.len(),
                forall|i1: int, i2: int|
                    0 <= i1 < sv.len() && 0 <= i2 < sv.len() && i1 != i2 ==> (
                    #[trigger] sv[i1]).ppn != (#[trigger] sv[i2]).ppn,
                forall|i2: int, j2: int|
                    #![trigger data@[seg_prefix_len(sv, i2) + j2]]
                    0 <= i2 < i && 0 <= j2 < sv[i2].len ==> phys@[sv[i2].ppn * (
                    PAGE_SIZE as int) + sv[i2].off + j2] == data@[seg_prefix_len(sv, i2) + j2],
                forall|j2: int|
                    #![trigger data@[seg_prefix_len(sv, i as int) + j2]]
                    0 <= j2 < j ==> phys@[sv[i as int].ppn * (PAGE_SIZE as int) + sv[i as int].off
                        + j2] == data@[seg_prefix_len(sv, i as int) + j2],
                forall|a: int|
                    0 <= a < phys@.len() && !(exists|i2: int|
                        0 <= i2 < i && in_seg(#[trigger] sv[i2], a)) && !(base + seg.off <= a
                        < base + seg.off + j) ==> phys@[a] == old(phys)@[a],
            decreases seg.len - j,
        {
            let a = base + seg.off + j;
            phys.write_byte(a, data[pos + j]);
            proof {
                assert forall|i2: int, j2: int|
                    #![trigger data@[seg_prefix_len(sv, i2) + j2]]
                    0 <= i2 < i && 0 <= j2 < sv[i2].len implies phys@[sv[i2].ppn * (
                PAGE_SIZE as int) + sv[i2].off + j2] == data@[seg_prefix_len(sv, i2) + j2] by {
                    assert(sv[i2].ppn != seg.ppn);
                    assert(sv[i2].ppn * (PAGE_SIZE as int) + sv[i2].off + j2 != a as int) by (
                    nonlinear_arith)
                        requires
                            sv[i2].ppn != seg.ppn,
                            0 <= sv[i2].off + j2 < PAGE_SIZE,
                            0 <= seg.off + j < PAGE_SIZE,
                            a == seg.ppn * (PAGE_SIZE as int) + seg.off + j,
                    {}
                }
            }
            j = j + 1;
        }
        i = i + 1;
        pos = pos + seg.len;
        proof {
            assert forall|a: int|
                0 <= a < phys@.len() && !(exists|i2: int|
                    0 <= i2 < i && in_seg(#[trigger] sv[i2], a)) implies phys@[a] == old(
                phys,
            )@[a] by {
                assert(!in_seg(sv[i as int - 1], a));
                assert(!(base + seg.off <= a < base + seg.off + seg.len));
            }
        }
    }
    proof {
        assert forall|k: int| 0 <= k < data@.len() implies phys@[spec_pa(m, va + k)]
            == data@[k] by {
            lemma_locate(sv, k);
            let i2 = choose|i2: int|
                0 <= i2 < sv.len() && seg_prefix_len(sv, i2) <= k < seg_prefix_len(sv, i2) + (
                #[trigger] sv[i2]).len;
            let j2 = k - seg_prefix_len(sv, i2);
            lemma_segment_at(m, va as int, len as int, i2);
            let sp = va + seg_prefix_len(sv, i2);
            lemma_same_page(sp, j2);
            assert(phys@[sv[i2].ppn * (PAGE_SIZE as int) + sv[i2].off + j2] == data@[
                seg_prefix_len(sv, i2) + j2
            ]);
            assert(spec_pa(m, va + k) == sv[i2].ppn * (PAGE_SIZE as int) + sv[i2].off + j2);
        }
        assert forall|a: int|
            0 <= a < old(phys)@.len() && !range_backs(m, va as int, data@.len() as int, a) implies
            phys@[a] == old(phys)@[a] by {
            if exists|i2: int| 0 <= i2 < sv.len() && in_seg(#[trigger] sv[i2], a) {
                let i2 = choose|i2: int| 0 <= i2 < sv.len() && in_seg(#[trigger] sv[i2], a);
                let j2 = a - (sv[i2].ppn * (PAGE_SIZE as int) + sv[i2].off);
                lemma_segment_at(m, va as int, len as int, i2);
                let sp = va + seg_prefix_len(sv, i2);
                lemma_same_page(sp, j2);
                let k = seg_prefix_len(sv, i2) + j2;
                lemma_prefix_mono(sv, 0, i2);
                assert(0 <= k < len);
                assert(a == spec_pa(m, va + k));
                assert(range_backs(m, va as int, data@.len() as int, a));
                assert(false);
            }
        }
    }
    Ok(())
}

} // verus!
