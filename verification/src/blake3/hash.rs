//! The BLAKE3 digest of a message that fits in one chunk.
//!
//! A chunk holds up to sixteen 64-byte blocks. Its blocks are chained through
//! the compression function with a zero counter; the last block, which may be
//! short or even empty, is compressed with the end and root flags and yields
//! the digest. For messages of at most 1024 bytes this is all of BLAKE3.
use crate::blake3::{spec_compress8, FLAG_CHUNK_END, FLAG_CHUNK_START, FLAG_ROOT, IV};
use vstd::prelude::*;

verus! {

/// The 32-bit word whose little-endian bytes are `b0`, `b1`, `b2`, `b3`.
pub open spec fn le_word(b0: u8, b1: u8, b2: u8, b3: u8) -> u32 {
    (b0 as u32) | ((b1 as u32) << 8) | ((b2 as u32) << 16) | ((b3 as u32) << 24)
}

/// The sixteen little-endian words of a 64-byte block.
pub open spec fn words_of(bytes: Seq<u8>) -> Seq<u32> {
    Seq::new(
        16,
        |i: int| le_word(bytes[4 * i], bytes[4 * i + 1], bytes[4 * i + 2], bytes[4 * i + 3]),
    )
}

/// Block `k` of `msg`, padded with zero bytes where the message has ended.
pub open spec fn block_bytes(msg: Seq<u8>, k: int) -> Seq<u8> {
    Seq::new(
        64,
        |j: int|
            if 64 * k + j < msg.len() {
                msg[64 * k + j]
            } else {
                0u8
            },
    )
}

/// The flags that mark block `k` as the first of its chunk, if it is.
pub open spec fn start_flag(k: int) -> u32 {
    if k == 0 {
        FLAG_CHUNK_START
    } else {
        0
    }
}

/// The flags of the final compression when `k` blocks came before it.
pub open spec fn final_flags(k: int) -> u32 {
    if k == 0 {
        FLAG_CHUNK_START | FLAG_CHUNK_END | FLAG_ROOT
    } else {
        FLAG_CHUNK_END | FLAG_ROOT
    }
}

/// The chaining value after the first `k` blocks of `msg`, each of them whole.
pub open spec fn chunk_state(msg: Seq<u8>, k: nat) -> Seq<u32>
    decreases k,
{
    if k == 0 {
        IV@
    } else {
        spec_compress8(
            chunk_state(msg, (k - 1) as nat),
            words_of(block_bytes(msg, k - 1)),
            0,
            64,
            start_flag(k - 1),
        )
    }
}

/// Index of the block that ends `msg`.
pub open spec fn last_block(msg: Seq<u8>) -> nat {
    if msg.len() == 0 {
        0
    } else {
        ((msg.len() - 1) / 64) as nat
    }
}

/// The first eight words of the single-chunk BLAKE3 digest of `msg`.
pub open spec fn hash_words(msg: Seq<u8>) -> Seq<u32> {
    let n = last_block(msg);
    spec_compress8(
        chunk_state(msg, n),
        words_of(block_bytes(msg, n as int)),
        0,
        (msg.len() - 64 * n) as u32,
        final_flags(n as int),
    )
}

/// How the start flag stands in the flags of the final compression: it is
/// there while no block has been absorbed, and clearing it gives the flags
/// that hold from the first absorbed block on.
pub proof fn lemma_start_flag(k: int)
    requires
        0 <= k,
    ensures
        FLAG_CHUNK_START & final_flags(k) == start_flag(k),
        final_flags(k) & !FLAG_CHUNK_START == final_flags(k + 1),
{
    assert(FLAG_CHUNK_START & (FLAG_CHUNK_START | FLAG_CHUNK_END | FLAG_ROOT) == FLAG_CHUNK_START)
        by (bit_vector);
    assert(FLAG_CHUNK_START & (FLAG_CHUNK_END | FLAG_ROOT) == 0) by (bit_vector);
    assert((FLAG_CHUNK_START | FLAG_CHUNK_END | FLAG_ROOT) & !FLAG_CHUNK_START == FLAG_CHUNK_END
        | FLAG_ROOT) by (bit_vector);
    assert((FLAG_CHUNK_END | FLAG_ROOT) & !FLAG_CHUNK_START == FLAG_CHUNK_END | FLAG_ROOT)
        by (bit_vector);
}

/// The chaining value after `k` blocks depends on the first `64 * k` bytes only.
pub proof fn lemma_chunk_state_reads_prefix(a: Seq<u8>, b: Seq<u8>, k: nat)
    requires
        64 * k <= a.len(),
        64 * k <= b.len(),
        forall|i: int| 0 <= i < 64 * k ==> a[i] == b[i],
    ensures
        chunk_state(a, k) == chunk_state(b, k),
    decreases k,
{
    if k > 0 {
        lemma_chunk_state_reads_prefix(a, b, (k - 1) as nat);
        assert(block_bytes(a, k - 1) =~= block_bytes(b, k - 1));
    }
}

/// The digest of a message of exactly one block is the compression of that
/// block from the initialisation vector with a zero counter, a block length
/// of 64 and the start, end and root flags.
pub proof fn lemma_single_block_hash(msg: Seq<u8>)
    requires
        msg.len() == 64,
    ensures
        hash_words(msg) == spec_compress8(
            IV@,
            words_of(msg),
            0,
            64,
            FLAG_CHUNK_START | FLAG_CHUNK_END | FLAG_ROOT,
        ),
{
    assert(block_bytes(msg, 0) =~= msg);
}

/// Packs four bytes, least significant first, into a word.
pub fn u32_from_le_bytes(b0: u8, b1: u8, b2: u8, b3: u8) -> (w: u32)
    ensures
        w == le_word(b0, b1, b2, b3),
{
    (b0 as u32) | ((b1 as u32) << 8) | ((b2 as u32) << 16) | ((b3 as u32) << 24)
}

/// Packs four bytes, most significant first, into a word.
pub fn u32_from_be_bytes(b0: u8, b1: u8, b2: u8, b3: u8) -> (w: u32)
    ensures
        w == le_word(b3, b2, b1, b0),
{
    u32_from_le_bytes(b3, b2, b1, b0)
}

/// Reads a 64-byte block as sixteen little-endian words.
pub fn words_from_le_bytes(bytes: &[u8; 64]) -> (words: [u32; 16])
    ensures
        words@ == words_of(bytes@),
{
    let mut words = [0u32; 16];
    let mut i: usize = 0;
    while i < 16
        invariant
            i <= 16,
            forall|j: int|
                0 <= j < i ==> words@[j] == le_word(
                    bytes@[4 * j],
                    bytes@[4 * j + 1],
                    bytes@[4 * j + 2],
                    bytes@[4 * j + 3],
                ),
        decreases 16 - i,
    {
        words[i] = u32_from_le_bytes(
            bytes[i * 4],
            bytes[i * 4 + 1],
            bytes[i * 4 + 2],
            bytes[i * 4 + 3],
        );
        i += 1;
    }
    words
}

} // verus!
