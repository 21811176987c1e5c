//! The page table of one address space: a sparse association of virtual
//! page numbers with physical frame numbers and permission bits.  Its
//! mathematical view is a finite map from page numbers to entries; a page
//! is mapped exactly when the map holds its key.

use vstd::prelude::*;

use crate::MemError;

verus! {

/// Entry bit: the page may be read.
pub const FLAG_R: u8 = 1;

/// Entry bit: the page may be written.
pub const FLAG_W: u8 = 2;

/// Entry bit: the page may be executed.
pub const FLAG_X: u8 = 4;

/// Entry bit: the page is reachable from unprivileged code.
pub const FLAG_U: u8 = 8;

/// One page-table entry: a physical frame number plus permission bits.
/// An entry is valid exactly while its page is present in the table.
#[derive(Clone, Copy, Debug, PartialEq, Eq, Structural)]
pub struct PageTableEntry {
    pub ppn: usize,
    pub flags: u8,
}

/// One mapped page: the virtual page number and its entry.
#[derive(Clone, Copy, Debug, PartialEq, Eq, Structural)]
struct PtSlot {
    vpn: usize,
    pte: PageTableEntry,
}

/// The page table.  Only mapped pages take space, so sparse address
/// spaces cost nothing up front.
pub struct PageTable {
    slots: Vec<PtSlot>,
}

/// The map a slot sequence denotes: later slots win, though under
/// `unique_vpns` the order never matters.
spec fn map_of(s: Seq<PtSlot>) -> Map<nat, PageTableEntry>
    decreases s.len(),
{
    if s.len() == 0 {
        Map::empty()
    } else {
        map_of(s.drop_last()).insert(s.last().vpn as nat, s.last().pte)
    }
}

/// No two slots share a virtual page number.
spec fn unique_vpns(s: Seq<PtSlot>) -> bool {
    forall|i: int, j: int| 0 <= i < j < s.len() ==> s[i].vpn != s[j].vpn
}

/// No two slots share a physical frame: frames are never aliased.
spec fn unique_ppns(s: Seq<PtSlot>) -> bool {
    forall|i: int, j: int| 0 <= i < j < s.len() ==> s[i].pte.ppn != s[j].pte.ppn
}

/// A key is in the denoted map exactly when some slot holds it.
proof fn lemma_map_of_contains(s: Seq<PtSlot>, v: nat)
    ensures
        map_of(s).contains_key(v) <==> exists|i: int| 0 <= i < s.len() && s[i].vpn as nat == v,
    decreases s.len(),
{
    if s.len() > 0 {
        lemma_map_of_contains(s.drop_last(), v);
        if s.last().vpn as nat == v {
            assert(s[s.len() - 1].vpn as nat == v);
        } else if map_of(s).contains_key(v) {
            let i = choose|i: int| 0 <= i < s.drop_last().len() && s.drop_last()[i].vpn as nat == v;
            assert(s[i].vpn as nat == v);
        } else if exists|i: int| 0 <= i < s.len() && s[i].vpn as nat == v {
            let i = choose|i: int| 0 <= i < s.len() && s[i].vpn as nat == v;
            assert(s.drop_last()[i].vpn as nat == v);
        }
    }
}

/// Under unique keys, the denoted map sends each slot's page to its entry.
proof fn lemma_map_of_index(s: Seq<PtSlot>, i: int)
    requires
        unique_vpns(s),
        0 <= i < s.len(),
    ensures
        map_of(s).contains_key(s[i].vpn as nat),
        map_of(s)[s[i].vpn as nat] == s[i].pte,
    decreases s.len(),
{
    if i == s.len() - 1 {
    } else {
        assert(s.drop_last()[i] == s[i]);
        lemma_map_of_index(s.drop_last(), i);
        assert(s[s.len() - 1].vpn != s[i].vpn);
    }
}

impl PageTable {
    /// Well-formed: no page mapped twice, no frame shared.
    pub closed spec fn wf(&self) -> bool {
        unique_vpns(self.slots@) && unique_ppns(self.slots@)
    }

    /// Distinct mapped pages hold distinct frames.
    pub proof fn lemma_view_injective(&self)
        requires
            self.wf(),
        ensures
            forall|v1: nat, v2: nat|
                self@.contains_key(v1) && self@.contains_key(v2) && v1 != v2
                    ==> (#[trigger] self@[v1]).ppn != (#[trigger] self@[v2]).ppn,
    {
        assert forall|v1: nat, v2: nat|
            self@.contains_key(v1) && self@.contains_key(v2) && v1 != v2 implies (
        #[trigger] self@[v1]).ppn != (#[trigger] self@[v2]).ppn by {
            lemma_map_of_contains(self.slots@, v1);
            lemma_map_of_contains(self.slots@, v2);
            let i1 = choose|i: int| 0 <= i < self.slots@.len() && self.slots@[i].vpn as nat == v1;
            let i2 = choose|i: int| 0 <= i < self.slots@.len() && self.slots@[i].vpn as nat == v2;
            lemma_map_of_index(self.slots@, i1);
            lemma_map_of_index(self.slots@, i2);
        }
    }

    /// An empty page table: nothing is mapped.
    pub fn new() -> (r: PageTable)
        ensures
            r.wf(),
            r@ == Map::<nat, PageTableEntry>::empty(),
    {
        PageTable { slots: Vec::new() }
    }

    /// Looks a page up; no side effect.
    pub fn translate(&self, vpn: usize) -> (r: Option<PageTableEntry>)
        requires
            self.wf(),
        ensures
            r == if self@.contains_key(vpn as nat) {
                Some(self@[vpn as nat])
            } else {
                None::<PageTableEntry>
            },
    {
        let n = self.slots.len();
        let mut i: usize = 0;
        while i < n
            invariant
                n == self.slots@.len(),
                0 <= i <= n,
                self.wf(),
                forall|j: int| 0 <= j < i ==> self.slots@[j].vpn != vpn,
            decreases n - i,
        {
            if self.slots[i].vpn == vpn {
                proof {
                    lemma_map_of_index(self.slots@, i as int);
                }
                return Some(self.slots[i].pte);
            }
            i = i + 1;
        }
        proof {
            lemma_map_of_contains(self.slots@, vpn as nat);
        }
        None
    }

    /// Installs a mapping for one page.  Fails with `AlreadyMapped`, and
    /// changes nothing, when the page already has a valid entry.  The
    /// frame must be fresh: no live entry may reference it.
    pub fn map_page(&mut self, vpn: usize, ppn: usize, flags: u8) -> (r: Result<(), MemError>)
        requires
            old(self).wf(),
            forall|v: nat|
                #[trigger] old(self)@.contains_key(v) ==> old(self)@[v].ppn != ppn,
        ensures
            final(self).wf(),
            match r {
                Ok(()) => !old(self)@.contains_key(vpn as nat) && final(self)@ == old(self)@.insert(
                    vpn as nat,
                    PageTableEntry { ppn, flags },
                ),
                Err(e) => e == MemError::AlreadyMapped && old(self)@.contains_key(vpn as nat)
                    && *final(self) == *old(self),
            },
    {
        if self.translate(vpn).is_some() {
            return Err(MemError::AlreadyMapped);
        }
        proof {
            let s0 = self.slots@;
            assert forall|i: int| 0 <= i < s0.len() implies s0[i].vpn != vpn by {
                lemma_map_of_index(s0, i);
            }
            assert forall|i: int| 0 <= i < s0.len() implies s0[i].pte.ppn != ppn by {
                lemma_map_of_index(s0, i);
            }
        }
        self.slots.push(PtSlot { vpn, pte: PageTableEntry { ppn, flags } });
        proof {
            assert(self.slots@.drop_last() =~= old(self).slots@);
        }
        Ok(())
    }

    /// Clears the mapping of one page and returns the entry it held, so
    /// the caller can return the frame to the allocator.  Fails with
    /// `NotMapped`, and changes nothing, when the page has no entry.
    pub fn unmap_page(&mut self, vpn: usize) -> (r: Result<PageTableEntry, MemError>)
        requires
            old(self).wf(),
        ensures
            final(self).wf(),
            match r {
                Ok(pte) => old(self)@.contains_key(vpn as nat) && pte == old(self)@[vpn as nat]
                    && final(self)@ == old(self)@.remove(vpn as nat),
                Err(e) => e == MemError::NotMapped && !old(self)@.contains_key(vpn as nat)
                    && *final(self) == *old(self),
            },
    {
        let n = self.slots.len();
        let mut i: usize = 0;
        while i < n
            invariant
                n == self.slots@.len(),
                0 <= i <= n,
                self.wf(),
                *self == *old(self),
                forall|j: int| 0 <= j < i ==> self.slots@[j].vpn != vpn,
            decreases n - i,
        {
            if self.slots[i].vpn == vpn {
                let pte = self.slots[i].pte;
                proof {
                    lemma_map_of_index(self.slots@, i as int);
                }
                self.slots.swap_remove(i);
                proof {
                    lemma_swap_remove_map(old(self).slots@, i as int);
                }
                return Ok(pte);
            }
            i = i + 1;
        }
        proof {
            lemma_map_of_contains(self.slots@, vpn as nat);
        }
        Err(MemError::NotMapped)
    }
}

/// Removing slot `i` from a unique-key sequence removes exactly its key
/// from the denoted map, and keeps the slots well-formed.
proof fn lemma_swap_remove_map(s: Seq<PtSlot>, i: int)
    requires
        unique_vpns(s),
        unique_ppns(s),
        0 <= i < s.len(),
    ensures
        ({
            let t = s.update(i, s.last()).drop_last();
            &&& unique_vpns(t)
            &&& unique_ppns(t)
            &&& map_of(t) == map_of(s).remove(s[i].vpn as nat)
        }),
{
    let t = s.update(i, s.last()).drop_last();
    let v = s[i].vpn as nat;
    // Each slot of `t` is a slot of `s` other than slot `i`.
    assert forall|j: int| #![trigger t[j]] 0 <= j < t.len() implies exists|k: int|
        0 <= k < s.len() && k != i && #[trigger] s[k] == t[j] by {
        if j == i {
            assert(s[s.len() - 1] == t[j]);
            assert(i != s.len() - 1);
        } else {
            assert(s[j] == t[j]);
        }
    }
    assert forall|j1: int, j2: int| 0 <= j1 < j2 < t.len() implies t[j1].vpn != t[j2].vpn
        && t[j1].pte.ppn != t[j2].pte.ppn by {
        let k1 = choose|k: int| 0 <= k < s.len() && k != i && #[trigger] s[k] == t[j1];
        let k2 = choose|k: int| 0 <= k < s.len() && k != i && #[trigger] s[k] == t[j2];
        assert(k1 != k2) by {
            if j1 == i {
                assert(t[j1] == s[s.len() - 1]);
                assert(t[j2] == s[j2]);
                assert(s[k1].vpn == s[s.len() - 1].vpn);
                if k1 != s.len() - 1 {
                    assert(false);
                }
                if k2 != j2 {
                    assert(s[k2].vpn == s[j2].vpn);
                    assert(false);
                }
            } else if j2 == i {
                if k1 != j1 {
                    assert(s[k1].vpn == s[j1].vpn);
                    assert(false);
                }
                if k2 != s.len() - 1 {
                    assert(s[k2].vpn == s[s.len() - 1].vpn);
                    assert(false);
                }
            } else {
                if k1 != j1 {
                    assert(s[k1].vpn == s[j1].vpn);
                    assert(false);
                }
                if k2 != j2 {
                    assert(s[k2].vpn == s[j2].vpn);
                    assert(false);
                }
            }
        }
    }
    assert(unique_vpns(t));
    assert(unique_ppns(t));
    assert forall|w: nat| #[trigger] map_of(t).contains_key(w) implies map_of(s).remove(
        v,
    ).contains_key(w) && map_of(t)[w] == map_of(s).remove(v)[w] by {
        lemma_map_of_contains(t, w);
        let j = choose|j: int| 0 <= j < t.len() && t[j].vpn as nat == w;
        let k = choose|k: int| 0 <= k < s.len() && k != i && #[trigger] s[k] == t[j];
        lemma_map_of_index(t, j);
        lemma_map_of_index(s, k);
        assert(s[k].vpn != s[i].vpn);
    }
    assert forall|w: nat| map_of(s).remove(v).contains_key(w) implies #[trigger] map_of(
        t,
    ).contains_key(w) && map_of(t)[w] == map_of(s).remove(v)[w] by {
        lemma_map_of_contains(s, w);
        let k = choose|k: int| 0 <= k < s.len() && s[k].vpn as nat == w;
        assert(k != i);
        let j: int = if k == s.len() - 1 { i } else { k };
        assert(t[j] == s[k]);
        lemma_map_of_index(t, j);
        lemma_map_of_index(s, k);
    }
    assert(map_of(t) =~= map_of(s).remove(v));
}

impl View for PageTable {
    type V = Map<nat, PageTableEntry>;

    /// The table as a finite map from virtual page number to entry.
    closed spec fn view(&self) -> Map<nat, PageTableEntry> {
        map_of(self.slots@)
    }
}

} // verus!
