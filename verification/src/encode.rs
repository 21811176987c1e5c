//! Little-endian field encoders.  Fixed records cross into user memory
//! as explicit byte sequences, so a record that straddles a page
//! boundary can be scattered slice by slice.

use vstd::prelude::*;

verus! {

/// The `n` little-endian bytes of `x` (low byte first).
pub open spec fn le_bytes(x: nat, n: nat) -> Seq<u8>
    decreases n,
{
    if n == 0 {
        Seq::empty()
    } else {
        seq![(x % 256) as u8] + le_bytes(x / 256, (n - 1) as nat)
    }
}

/// The eight little-endian bytes of a machine word.
pub fn usize_to_le(x: usize) -> (r: Vec<u8>)
    ensures
        r@ == le_bytes(x as nat, 8),
        r@.len() == 8,
{
    let mut r: Vec<u8> = Vec::new();
    let mut cur = x;
    let mut i: usize = 0;
    while i < 8
        invariant
            0 <= i <= 8,
            r@.len() == i,
            le_bytes(x as nat, 8) == r@ + le_bytes(cur as nat, (8 - i) as nat),
        decreases 8 - i,
    {
        let ghost r0 = r@;
        let ghost c0 = cur as nat;
        r.push((cur % 256) as u8);
        cur = cur / 256;
        i = i + 1;
        proof {
            assert(le_bytes(c0, (8 - i + 1) as nat) == seq![(c0 % 256) as u8] + le_bytes(
                c0 / 256,
                (8 - i) as nat,
            ));
            assert(r0 + le_bytes(c0, (8 - i + 1) as nat) =~= r@ + le_bytes(
                cur as nat,
                (8 - i) as nat,
            ));
        }
    }
    proof {
        assert(r@ + le_bytes(cur as nat, 0) =~= r@);
    }
    r
}

/// The four little-endian bytes of a counter.
pub fn u32_to_le(x: u32) -> (r: Vec<u8>)
    ensures
        r@ == le_bytes(x as nat, 4),
        r@.len() == 4,
{
    let mut r: Vec<u8> = Vec::new();
    let mut cur = x;
    let mut i: usize = 0;
    while i < 4
        invariant
            0 <= i <= 4,
            r@.len() == i,
            le_bytes(x as nat, 4) == r@ + le_bytes(cur as nat, (4 - i) as nat),
        decreases 4 - i,
    {
        let ghost r0 = r@;
        let ghost c0 = cur as nat;
        r.push((cur % 256) as u8);
        cur = cur / 256;
        i = i + 1;
        proof {
            assert(le_bytes(c0, (4 - i + 1) as nat) == seq![(c0 % 256) as u8] + le_bytes(
                c0 / 256,
                (4 - i) as nat,
            ));
            assert(r0 + le_bytes(c0, (4 - i + 1) as nat) =~= r@ + le_bytes(
                cur as nat,
                (4 - i) as nat,
            ));
        }
    }
    proof {
        assert(r@ + le_bytes(cur as nat, 0) =~= r@);
    }
    r
}

/// A counter table as bytes: each entry's four little-endian bytes, in
/// table order.
pub open spec fn counters_bytes(s: Seq<u32>) -> Seq<u8>
    decreases s.len(),
{
    if s.len() == 0 {
        Seq::empty()
    } else {
        le_bytes(s[0] as nat, 4) + counters_bytes(s.drop_first())
    }
}

/// Appending one counter appends its four bytes.
pub proof fn lemma_counters_snoc(s: Seq<u32>, x: u32)
    ensures
        counters_bytes(s.push(x)) == counters_bytes(s) + le_bytes(x as nat, 4),
    decreases s.len(),
{
    if s.len() == 0 {
        let p = s.push(x);
        assert(p[0] == x);
        assert(p.drop_first() =~= Seq::<u32>::empty());
        assert(counters_bytes(p) == le_bytes(p[0] as nat, 4) + counters_bytes(p.drop_first()));
        assert(counters_bytes(p.drop_first()) =~= Seq::<u8>::empty());
        assert(counters_bytes(s) =~= Seq::<u8>::empty());
        assert(counters_bytes(p) =~= counters_bytes(s) + le_bytes(x as nat, 4));
    } else {
        assert(s.push(x)[0] == s[0]);
        assert(s.push(x).drop_first() =~= s.drop_first().push(x));
        lemma_counters_snoc(s.drop_first(), x);
        assert(counters_bytes(s.push(x)) == le_bytes(s[0] as nat, 4) + counters_bytes(
            s.drop_first().push(x),
        ));
        assert(le_bytes(s[0] as nat, 4) + (counters_bytes(s.drop_first()) + le_bytes(
            x as nat,
            4,
        )) =~= counters_bytes(s) + le_bytes(x as nat, 4));
    }
}

} // verus!
