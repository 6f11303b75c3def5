//! Single-block BLAKE3 compression.
//!
//! The permutation is modelled as a sequence of 56 quarter-round steps (seven
//! rounds of eight steps each) over a 16-word state. Every executable routine
//! in this module is specified against that model.
use vstd::prelude::*;

pub mod hash;
pub mod simd128;

verus! {

/// The BLAKE3 initialisation vector.
pub const IV: [u32; 8] = [
    0x6A09E667, 0xBB67AE85, 0x3C6EF372, 0xA54FF53A, 0x510E527F, 0x9B05688C, 0x1F83D9AB, 0x5BE0CD19,
];

/// For each round, the message word consumed at each of the sixteen operand
/// positions.
pub const MESSAGE_SCHEDULE: [[usize; 16]; 7] = [
    [0, 1, 2, 3, 4, 5, 6, 7, 8, 9, 10, 11, 12, 13, 14, 15],
    [2, 6, 3, 10, 7, 0, 4, 13, 1, 11, 12, 5, 9, 14, 15, 8],
    [3, 4, 10, 12, 13, 2, 7, 14, 6, 5, 9, 0, 11, 15, 8, 1],
    [10, 7, 12, 9, 14, 3, 13, 15, 4, 0, 11, 2, 5, 8, 1, 6],
    [12, 13, 9, 11, 15, 10, 14, 8, 7, 2, 5, 3, 0, 1, 6, 4],
    [9, 14, 11, 5, 8, 12, 15, 1, 13, 3, 0, 10, 2, 6, 4, 7],
    [11, 15, 5, 0, 1, 9, 8, 6, 14, 10, 2, 12, 3, 4, 7, 13],
];

/// Set on the first block of a chunk.
pub const FLAG_CHUNK_START: u32 = 1;

/// Set on the last block of a chunk.
pub const FLAG_CHUNK_END: u32 = 2;

/// Set on the compression that produces the digest.
pub const FLAG_ROOT: u32 = 8;

/// Right rotation of a 32-bit word.
pub open spec fn rotr(x: u32, n: u32) -> u32 {
    (x >> n) | (x << ((32 - n) as u32))
}

/// The quarter-round `G` on four state words with two message operands.
pub open spec fn mix_words(a: u32, b: u32, c: u32, d: u32, x: u32, y: u32) -> (u32, u32, u32, u32) {
    let a1 = a.wrapping_add(b).wrapping_add(x);
    let d1 = rotr(d ^ a1, 16);
    let c1 = c.wrapping_add(d1);
    let b1 = rotr(b ^ c1, 12);
    let a2 = a1.wrapping_add(b1).wrapping_add(y);
    let d2 = rotr(d1 ^ a2, 8);
    let c2 = c1.wrapping_add(d2);
    let b2 = rotr(b1 ^ c2, 7);
    (a2, b2, c2, d2)
}

/// `G` applied to the words of `v` at positions `a`, `b`, `c`, `d`.
pub open spec fn mix(v: Seq<u32>, a: int, b: int, c: int, d: int, x: u32, y: u32) -> Seq<u32> {
    let w = mix_words(v[a], v[b], v[c], v[d], x, y);
    v.update(a, w.0).update(b, w.1).update(c, w.2).update(d, w.3)
}

/// State positions touched by step `k` of a round: steps 0..4 mix the
/// columns, steps 4..8 the diagonals.
pub open spec fn step_lanes(k: int) -> (int, int, int, int) {
    if k < 4 {
        (k, 4 + k, 8 + k, 12 + k)
    } else {
        (k - 4, 4 + (k - 3) % 4, 8 + (k - 2) % 4, 12 + (k - 1) % 4)
    }
}

/// Message word index used at operand position `p` of round `r`.
pub open spec fn schedule(r: int, p: int) -> int {
    MESSAGE_SCHEDULE[r][p] as int
}

/// Step `k` of round `r` applied to `v` with message `m`.
pub open spec fn step(v: Seq<u32>, m: Seq<u32>, r: int, k: int) -> Seq<u32> {
    let l = step_lanes(k);
    mix(v, l.0, l.1, l.2, l.3, m[schedule(r, 2 * k)], m[schedule(r, 2 * k + 1)])
}

/// Steps `lo..hi` of round `r` applied in order.
pub open spec fn round_steps(v: Seq<u32>, m: Seq<u32>, r: int, lo: int, hi: int) -> Seq<u32>
    decreases hi - lo,
{
    if hi <= lo {
        v
    } else {
        step(round_steps(v, m, r, lo, hi - 1), m, r, hi - 1)
    }
}

/// Rounds `lo..hi` applied in order.
pub open spec fn rounds(v: Seq<u32>, m: Seq<u32>, lo: int, hi: int) -> Seq<u32>
    decreases hi - lo,
{
    if hi <= lo {
        v
    } else {
        round_steps(rounds(v, m, lo, hi - 1), m, hi - 1, 0, 8)
    }
}

/// The state a compression starts from.
pub open spec fn init_state(
    chain: Seq<u32>,
    counter: u64,
    block_len: u32,
    flags: u32,
) -> Seq<u32> {
    seq![
        chain[0],
        chain[1],
        chain[2],
        chain[3],
        chain[4],
        chain[5],
        chain[6],
        chain[7],
        IV[0],
        IV[1],
        IV[2],
        IV[3],
        (counter & 0xffff_ffff) as u32,
        (counter >> 32) as u32,
        block_len,
        flags,
    ]
}

/// The sixteen words that one compression leaves in the state: the initial
/// state taken through all seven rounds.
pub open spec fn spec_compress(
    chain: Seq<u32>,
    block: Seq<u32>,
    counter: u64,
    block_len: u32,
    flags: u32,
) -> Seq<u32> {
    rounds(init_state(chain, counter, block_len, flags), block, 0, 7)
}

/// The first eight output words of one compression, the next chaining value:
/// the lower half of the state xored with the upper half.
pub open spec fn spec_compress8(
    chain: Seq<u32>,
    block: Seq<u32>,
    counter: u64,
    block_len: u32,
    flags: u32,
) -> Seq<u32> {
    let v = spec_compress(chain, block, counter, block_len, flags);
    Seq::new(8, |i: int| v[i] ^ v[i + 8])
}

/// `s` extended with zero words to a full block.
pub open spec fn pad16(s: Seq<u32>) -> Seq<u32> {
    Seq::new(16, |i: int| if i < s.len() { s[i] } else { 0u32 })
}

/// Number of leading first-round steps that read only the first
/// `constant_words` message words.
pub open spec fn skipped_steps(constant_words: int) -> int {
    if constant_words >= 16 {
        8
    } else {
        constant_words / 2
    }
}

/// Rotates `x` right by `n` bits.
pub fn rotate_right(x: u32, n: u32) -> (r: u32)
    requires
        0 < n < 32,
    ensures
        r == rotr(x, n),
{
    (x >> n) | (x << (32 - n))
}

/// The mixing function `G` on the state words at `a`, `b`, `c`, `d`.
pub fn g(state: &mut [u32; 16], a: usize, b: usize, c: usize, d: usize, mx: u32, my: u32)
    requires
        a < 16,
        b < 16,
        c < 16,
        d < 16,
        a != b && a != c && a != d && b != c && b != d && c != d,
    ensures
        final(state)@ == mix(old(state)@, a as int, b as int, c as int, d as int, mx, my),
{
    state[a] = state[a].wrapping_add(state[b]).wrapping_add(mx);
    state[d] = rotate_right(state[d] ^ state[a], 16);
    state[c] = state[c].wrapping_add(state[d]);
    state[b] = rotate_right(state[b] ^ state[c], 12);
    state[a] = state[a].wrapping_add(state[b]).wrapping_add(my);
    state[d] = rotate_right(state[d] ^ state[a], 8);
    state[c] = state[c].wrapping_add(state[d]);
    state[b] = rotate_right(state[b] ^ state[c], 7);
}

/// Every schedule entry names one of the sixteen message words.
pub proof fn lemma_schedule_in_range(r: int, p: int)
    requires
        0 <= r < 7,
        0 <= p < 16,
    ensures
        0 <= schedule(r, p) < 16,
{
}

/// The first round reads the message words in their natural order.
pub proof fn lemma_schedule_first_round(p: int)
    requires
        0 <= p < 16,
    ensures
        schedule(0, p) == p,
{
}

/// Steps never change the number of state words.
pub proof fn lemma_round_steps_len(v: Seq<u32>, m: Seq<u32>, r: int, lo: int, hi: int)
    requires
        v.len() == 16,
        0 <= lo,
        hi <= 8,
    ensures
        round_steps(v, m, r, lo, hi).len() == 16,
    decreases hi - lo,
{
    if hi > lo {
        lemma_round_steps_len(v, m, r, lo, hi - 1);
    }
}

/// Rounds never change the number of state words.
pub proof fn lemma_rounds_len(v: Seq<u32>, m: Seq<u32>, lo: int, hi: int)
    requires
        v.len() == 16,
    ensures
        rounds(v, m, lo, hi).len() == 16,
    decreases hi - lo,
{
    if hi > lo {
        lemma_rounds_len(v, m, lo, hi - 1);
        lemma_round_steps_len(rounds(v, m, lo, hi - 1), m, hi - 1, 0, 8);
    }
}

/// Running steps `lo..mid` and then `mid..hi` is running `lo..hi`.
pub proof fn lemma_round_steps_split(v: Seq<u32>, m: Seq<u32>, r: int, lo: int, mid: int, hi: int)
    requires
        lo <= mid <= hi,
    ensures
        round_steps(round_steps(v, m, r, lo, mid), m, r, mid, hi) == round_steps(v, m, r, lo, hi),
    decreases hi - mid,
{
    if hi > mid {
        lemma_round_steps_split(v, m, r, lo, mid, hi - 1);
    }
}

/// Running rounds `lo..mid` and then `mid..hi` is running `lo..hi`.
pub proof fn lemma_rounds_split(v: Seq<u32>, m: Seq<u32>, lo: int, mid: int, hi: int)
    requires
        lo <= mid <= hi,
    ensures
        rounds(rounds(v, m, lo, mid), m, mid, hi) == rounds(v, m, lo, hi),
    decreases hi - mid,
{
    if hi > mid {
        lemma_rounds_split(v, m, lo, mid, hi - 1);
    }
}

/// The first `k` steps of the first round read only the first `2 * k`
/// message words.
pub proof fn lemma_leading_steps_read_prefix(v: Seq<u32>, m1: Seq<u32>, m2: Seq<u32>, k: int)
    requires
        0 <= k <= 8,
        forall|i: int| 0 <= i < 2 * k ==> m1[i] == m2[i],
    ensures
        round_steps(v, m1, 0, 0, k) == round_steps(v, m2, 0, 0, k),
    decreases k,
{
    if k > 0 {
        lemma_leading_steps_read_prefix(v, m1, m2, k - 1);
        lemma_schedule_first_round(2 * (k - 1));
        lemma_schedule_first_round(2 * (k - 1) + 1);
    }
}

/// Step `k` of round `r`.
fn round_step(state: &mut [u32; 16], m: &[u32; 16], r: usize, k: usize)
    requires
        r < 7,
        k < 8,
    ensures
        final(state)@ == step(old(state)@, m@, r as int, k as int),
{
    proof {
        lemma_schedule_in_range(r as int, 2 * k as int);
        lemma_schedule_in_range(r as int, 2 * k as int + 1);
    }
    let x = m[MESSAGE_SCHEDULE[r][2 * k]];
    let y = m[MESSAGE_SCHEDULE[r][2 * k + 1]];
    if k < 4 {
        g(state, k, 4 + k, 8 + k, 12 + k, x, y);
    } else {
        g(state, k - 4, 4 + (k - 3) % 4, 8 + (k - 2) % 4, 12 + (k - 1) % 4, x, y);
    }
}

/// One full round: the four column steps followed by the four diagonal steps.
pub fn round(state: &mut [u32; 16], m: &[u32; 16], r: usize)
    requires
        r < 7,
    ensures
        final(state)@ == round_steps(old(state)@, m@, r as int, 0, 8),
{
    let mut k: usize = 0;
    while k < 8
        invariant
            k <= 8,
            r < 7,
            state@ == round_steps(old(state)@, m@, r as int, 0, k as int),
        decreases 8 - k,
    {
        round_step(state, m, r, k);
        k += 1;
    }
}

/// Builds the sixteen-word state a compression starts from.
pub fn initial_state(
    chain: &[u32; 8],
    counter: u64,
    block_len: u32,
    flags: u32,
) -> (state: [u32; 16])
    ensures
        state@ == init_state(chain@, counter, block_len, flags),
{
    let state = [
        chain[0],
        chain[1],
        chain[2],
        chain[3],
        chain[4],
        chain[5],
        chain[6],
        chain[7],
        IV[0],
        IV[1],
        IV[2],
        IV[3],
        (counter & 0xffff_ffff) as u32,
        (counter >> 32) as u32,
        block_len,
        flags,
    ];
    state
}

/// Compresses one 64-byte block: takes the initial state through all seven
/// rounds and returns its sixteen words.
pub fn compress(
    chain: &[u32; 8],
    block: &[u32; 16],
    counter: u64,
    block_len: u32,
    flags: u32,
) -> (out: [u32; 16])
    ensures
        out@ == spec_compress(chain@, block@, counter, block_len, flags),
{
    let mut state = initial_state(chain, counter, block_len, flags);
    let mut r: usize = 0;
    while r < 7
        invariant
            r <= 7,
            state@ == rounds(init_state(chain@, counter, block_len, flags), block@, 0, r as int),
        decreases 7 - r,
    {
        round(&mut state, block, r);
        r += 1;
    }
    state
}

/// Compresses one 64-byte block and returns the first eight output words.
pub fn compress8(
    chain: &[u32; 8],
    block: &[u32; 16],
    counter: u64,
    block_len: u32,
    flags: u32,
) -> (out: [u32; 8])
    ensures
        out@ == spec_compress8(chain@, block@, counter, block_len, flags),
{
    let v = compress(chain, block, counter, block_len, flags);
    let mut out = [0u32; 8];
    let mut i: usize = 0;
    while i < 8
        invariant
            i <= 8,
            forall|j: int| 0 <= j < i ==> out@[j] == v@[j] ^ v@[j + 8],
        decreases 8 - i,
    {
        out[i] = v[i] ^ v[i + 8];
        i += 1;
    }
    out
}

/// Runs the leading steps of the first round that read only the words of
/// `msg`, and returns the state they leave behind: one step for every two
/// words given, and no more than the eight steps of the round.
pub fn ingest_message_prefix(
    prefix_state: [u32; 8],
    msg: &[u32],
    counter: u64,
    block_len: u32,
    flags: u32,
) -> (state: [u32; 16])
    ensures
        state@ == round_steps(
            init_state(prefix_state@, counter, block_len, flags),
            pad16(msg@),
            0,
            0,
            skipped_steps(msg@.len() as int),
        ),
{
    let mut state = initial_state(&prefix_state, counter, block_len, flags);
    let ghost start = state@;
    let ghost m = pad16(msg@);
    let steps = if msg.len() >= 16 {
        8
    } else {
        msg.len() / 2
    };
    let mut k: usize = 0;
    while k < steps
        invariant
            k <= steps,
            steps == skipped_steps(msg@.len() as int),
            m == pad16(msg@),
            state@ == round_steps(start, m, 0, 0, k as int),
        decreases steps - k,
    {
        proof {
            lemma_schedule_first_round(2 * k as int);
            lemma_schedule_first_round(2 * k as int + 1);
        }
        let x = msg[2 * k];
        let y = msg[2 * k + 1];
        if k < 4 {
            g(&mut state, k, 4 + k, 8 + k, 12 + k, x, y);
        } else {
            g(&mut state, k - 4, 4 + (k - 3) % 4, 8 + (k - 2) % 4, 12 + (k - 1) % 4, x, y);
        }
        k += 1;
    }
    state
}

} // verus!
