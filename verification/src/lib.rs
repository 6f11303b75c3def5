//! Nonce search for the Cerberus proof-of-work scheme over BLAKE3.
//!
//! A proof is a decimal nonce whose notation, appended to a challenge prefix,
//! gives a BLAKE3 hash with enough leading zero bits. The prefix is absorbed
//! once into a [`CerberusMessage`]; a [`solver::Solver`] then enumerates nine
//! digits of nonce in the last block of the hash input.
use vstd::prelude::*;
use vstd::std_specs::convert::FromSpecImpl;

pub mod blake3;
pub mod decimal;
pub mod lanes;
pub mod message;
pub mod solver;
pub mod task;
pub mod working_set;

pub use message::CerberusMessage;

verus! {

/// The solver that `task::solve_task` runs.
pub type CerberusSolver = solver::simd128::CerberusSolver;

/// Marks data that is handled in units of 64 bytes, such as a message block.
///
/// The wrapper hands its value through unchanged.
#[derive(Debug, Clone, Copy, PartialEq, Eq)]
pub struct Align64<T>(pub T);

impl<T> From<T> for Align64<T> {
    fn from(value: T) -> (wrapped: Self)
        ensures
            wrapped.0 == value,
    {
        Align64(value)
    }
}

impl<T> FromSpecImpl<T> for Align64<T> {
    open spec fn obeys_from_spec() -> bool {
        true
    }

    open spec fn from_spec(value: T) -> Self {
        Align64(value)
    }
}

impl<T> core::ops::Deref for Align64<T> {
    type Target = T;

    fn deref(&self) -> (inner: &T)
        ensures
            *inner == self.0,
    {
        &self.0
    }
}

impl<T> core::ops::DerefMut for Align64<T> {
    fn deref_mut(&mut self) -> (inner: &mut T)
        ensures
            *inner == old(self).0,
            final(self).0 == *final(inner),
    {
        &mut self.0
    }
}

/// `x` with the order of its four bytes reversed.
pub open spec fn byte_swap(x: u32) -> u32 {
    (x << 24) | ((x << 8) & 0x00ff_0000) | ((x >> 8) & 0x0000_ff00) | (x >> 24)
}

/// The mask of difficulty factor `df`: the `2 * df` leading bits of the hash
/// read as a big-endian number, moved to where they stand in the first
/// little-endian hash word.
pub open spec fn cerberus_mask(df: u8) -> u32 {
    if df == 16 {
        0xffff_ffff
    } else {
        byte_swap(!(0xffff_ffffu32 >> ((df * 2) as u32)))
    }
}

/// Reverses the order of the four bytes of `x`.
pub fn swap_bytes(x: u32) -> (r: u32)
    ensures
        r == byte_swap(x),
{
    (x << 24) | ((x << 8) & 0x00ff_0000) | ((x >> 8) & 0x0000_ff00) | (x >> 24)
}

/// Compute a mask for a Cerberus PoW (mask & V[0] == 0)
pub fn compute_mask_cerberus(difficulty_factor: u8) -> (mask: u32)
    requires
        1 <= difficulty_factor <= 16,
    ensures
        mask == cerberus_mask(difficulty_factor),
{
    if difficulty_factor == 16 {
        return 0xffff_ffff;
    }
    // Cerberus compares output as if it was big endian, but BLAKE3 outputs little endian
    // so a byte swap is needed for the correct significance order
    swap_bytes(!(0xffff_ffffu32 >> (difficulty_factor as u32 * 2)))
}

/// A hash word meets the mask of difficulty factor `df` exactly when the
/// word, read as a big-endian number, has `2 * df` leading zero bits.
pub proof fn lemma_mask_counts_leading_zeros(word: u32, df: u8)
    by (bit_vector)
    requires
        1 <= df <= 16,
    ensures
        word & cerberus_mask(df) == 0 <==> byte_swap(word) >> ((32 - 2 * df) as u32) == 0,
{
}

/// The lower-case hexadecimal character of `nibble`.
pub open spec fn hex_char(nibble: u8) -> u8 {
    if nibble < 10 {
        (nibble + 48) as u8
    } else {
        (nibble + 87) as u8
    }
}

/// Byte `k` of the hash whose little-endian words are `words`.
pub open spec fn hash_byte(words: Seq<u32>, k: int) -> u8 {
    ((words[k / 4] >> ((8 * (k % 4)) as u32)) & 0xff) as u8
}

/// The hash with little-endian words `words` in hexadecimal notation.
pub open spec fn hex_of(words: Seq<u32>) -> Seq<u8> {
    Seq::new(
        64,
        |i: int|
            if i % 2 == 0 {
                hex_char(hash_byte(words, i / 2) >> 4)
            } else {
                hex_char(hash_byte(words, i / 2) & 0xf)
            },
    )
}

/// Encode a blake3 hash into hex
pub fn encode_hex_le(out: &mut [u8; 64], inp: [u32; 8])
    ensures
        final(out)@ == hex_of(inp@),
{
    let mut w: usize = 0;
    while w < 8
        invariant
            w <= 8,
            forall|k: int| 0 <= k < 8 * w ==> out@[k] == hex_of(inp@)[k],
        decreases 8 - w,
    {
        let mut i: usize = 0;
        while i < 4
            invariant
                w < 8,
                i <= 4,
                forall|k: int| 0 <= k < 8 * w + 2 * i ==> out@[k] == hex_of(inp@)[k],
            decreases 4 - i,
        {
            let b = ((inp[w] >> (8 * i as u32)) & 0xff) as u8;
            let high_nibble = b >> 4;
            let low_nibble = b & 0xf;
            assert(b >> 4 < 16 && b & 0xf < 16) by (bit_vector);
            out[w * 8 + i * 2] = if high_nibble < 10 {
                high_nibble + 48
            } else {
                high_nibble + 97 - 10
            };
            out[w * 8 + i * 2 + 1] = if low_nibble < 10 {
                low_nibble + 48
            } else {
                low_nibble + 97 - 10
            };
            i += 1;
        }
        w += 1;
    }
}

} // verus!
