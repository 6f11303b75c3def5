//! Four 32-bit lanes processed in lockstep.
//!
//! Every operation acts on each lane independently; the contracts say so lane
//! by lane.
use crate::blake3::rotr;
use vstd::prelude::*;

verus! {

/// A vector of four 32-bit lanes.
#[derive(Clone, Copy, Debug)]
pub struct U32x4(pub [u32; 4]);

impl U32x4 {
    /// The value held in lane `i`.
    pub open spec fn lane(self, i: int) -> u32 {
        self.0@[i]
    }
}

/// Builds a vector from its four lanes.
pub fn u32x4(a0: u32, a1: u32, a2: u32, a3: u32) -> (r: U32x4)
    ensures
        r.lane(0) == a0,
        r.lane(1) == a1,
        r.lane(2) == a2,
        r.lane(3) == a3,
{
    U32x4([a0, a1, a2, a3])
}

/// Broadcasts `x` to all four lanes.
pub fn u32x4_splat(x: u32) -> (r: U32x4)
    ensures
        forall|i: int| 0 <= i < 4 ==> r.lane(i) == x,
{
    U32x4([x, x, x, x])
}

/// Lane-wise wrapping addition.
pub fn u32x4_add(a: U32x4, b: U32x4) -> (r: U32x4)
    ensures
        forall|i: int| 0 <= i < 4 ==> r.lane(i) == a.lane(i).wrapping_add(b.lane(i)),
{
    U32x4(
        [
            a.0[0].wrapping_add(b.0[0]),
            a.0[1].wrapping_add(b.0[1]),
            a.0[2].wrapping_add(b.0[2]),
            a.0[3].wrapping_add(b.0[3]),
        ],
    )
}

/// Lane-wise exclusive or.
pub fn v128_xor(a: U32x4, b: U32x4) -> (r: U32x4)
    ensures
        forall|i: int| 0 <= i < 4 ==> r.lane(i) == a.lane(i) ^ b.lane(i),
{
    U32x4([a.0[0] ^ b.0[0], a.0[1] ^ b.0[1], a.0[2] ^ b.0[2], a.0[3] ^ b.0[3]])
}

/// Lane-wise inclusive or.
pub fn v128_or(a: U32x4, b: U32x4) -> (r: U32x4)
    ensures
        forall|i: int| 0 <= i < 4 ==> r.lane(i) == a.lane(i) | b.lane(i),
{
    U32x4([a.0[0] | b.0[0], a.0[1] | b.0[1], a.0[2] | b.0[2], a.0[3] | b.0[3]])
}

/// Lane-wise and.
pub fn v128_and(a: U32x4, b: U32x4) -> (r: U32x4)
    ensures
        forall|i: int| 0 <= i < 4 ==> r.lane(i) == a.lane(i) & b.lane(i),
{
    U32x4([a.0[0] & b.0[0], a.0[1] & b.0[1], a.0[2] & b.0[2], a.0[3] & b.0[3]])
}

/// Shifts every lane right by `n` bits.
pub fn u32x4_shr(a: U32x4, n: u32) -> (r: U32x4)
    requires
        n < 32,
    ensures
        forall|i: int| 0 <= i < 4 ==> r.lane(i) == a.lane(i) >> n,
{
    U32x4([a.0[0] >> n, a.0[1] >> n, a.0[2] >> n, a.0[3] >> n])
}

/// Shifts every lane left by `n` bits.
pub fn u32x4_shl(a: U32x4, n: u32) -> (r: U32x4)
    requires
        n < 32,
    ensures
        forall|i: int| 0 <= i < 4 ==> r.lane(i) == a.lane(i) << n,
{
    U32x4([a.0[0] << n, a.0[1] << n, a.0[2] << n, a.0[3] << n])
}

/// Rotates every lane right by `shift` bits.
pub fn u32x4_ror(x: U32x4, shift: u32) -> (r: U32x4)
    requires
        0 < shift < 32,
    ensures
        forall|i: int| 0 <= i < 4 ==> r.lane(i) == rotr(x.lane(i), shift),
{
    v128_or(u32x4_shr(x, shift), u32x4_shl(x, 32 - shift))
}

/// Whether every lane is non-zero.
pub fn u32x4_all_true(a: U32x4) -> (r: bool)
    ensures
        r <==> (forall|i: int| 0 <= i < 4 ==> a.lane(i) != 0),
{
    let r = a.0[0] != 0 && a.0[1] != 0 && a.0[2] != 0 && a.0[3] != 0;
    assert(r == (a.lane(0) != 0 && a.lane(1) != 0 && a.lane(2) != 0 && a.lane(3) != 0));
    r
}

/// The value of lane `N`.
pub fn u32x4_extract_lane<const N: usize>(a: U32x4) -> (r: u32)
    requires
        N < 4,
    ensures
        r == a.lane(N as int),
{
    a.0[N]
}

/// Loads the four consecutive words of `words` starting at `at`.
pub fn v128_load(words: &[u32], at: usize) -> (r: U32x4)
    requires
        at + 4 <= words@.len(),
    ensures
        forall|i: int| 0 <= i < 4 ==> r.lane(i) == words@[at + i],
{
    U32x4([words[at], words[at + 1], words[at + 2], words[at + 3]])
}

/// Writes the four lanes of `a` to the first four words of `out`.
pub fn v128_store(out: &mut [u32; 4], a: U32x4)
    ensures
        forall|i: int| 0 <= i < 4 ==> final(out)@[i] == a.lane(i),
{
    out[0] = a.0[0];
    out[1] = a.0[1];
    out[2] = a.0[2];
    out[3] = a.0[3];
}

} // verus!
