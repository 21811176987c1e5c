//! The kernel's view of physical memory: a flat byte array addressed by
//! physical address, frame by frame.  The buffer translator's slices
//! resolve to ranges of it.

use vstd::prelude::*;

use crate::PAGE_SIZE;

verus! {

/// Physical memory as bytes; frame `p` occupies
/// `[p * PAGE_SIZE, (p + 1) * PAGE_SIZE)`.
pub struct PhysMem {
    bytes: Vec<u8>,
}

impl View for PhysMem {
    type V = Seq<u8>;

    closed spec fn view(&self) -> Seq<u8> {
        self.bytes@
    }
}

impl PhysMem {
    /// Zeroed physical memory of `frames` whole frames.
    pub fn new(frames: usize) -> (r: PhysMem)
        requires
            frames * (PAGE_SIZE as int) <= usize::MAX,
        ensures
            r@.len() == frames * (PAGE_SIZE as int),
            forall|i: int| 0 <= i < r@.len() ==> r@[i] == 0u8,
    {
        let n = frames * PAGE_SIZE;
        let bytes = vec![0u8; n];
        PhysMem { bytes }
    }

    /// How many bytes of physical memory exist.
    pub fn mem_len(&self) -> (r: usize)
        ensures
            r == self@.len(),
    {
        self.bytes.len()
    }

    /// Reads the byte at physical address `pa`.
    pub fn read_byte(&self, pa: usize) -> (r: u8)
        requires
            pa < self@.len(),
        ensures
            r == self@[pa as int],
    {
        self.bytes[pa]
    }

    /// Writes the byte at physical address `pa`.
    pub fn write_byte(&mut self, pa: usize, b: u8)
        requires
            pa < old(self)@.len(),
        ensures
            final(self)@ == old(self)@.update(pa as int, b),
    {
        self.bytes[pa] = b;
    }
}

} // verus!
