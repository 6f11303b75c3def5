//! Quad-lane BLAKE3 compression that yields only the first hash word.
//!
//! Four candidate blocks that differ in a single message word are compressed
//! at once. The kernel starts from a state in which the leading steps of the
//! first round may already have been taken, and in the last round it performs
//! only the work that reaches the first output word.
use crate::blake3::{
    init_state, lemma_leading_steps_read_prefix, lemma_round_steps_len, lemma_round_steps_split,
    lemma_rounds_len, lemma_rounds_split, lemma_schedule_in_range, mix_words, pad16, rotr,
    round_steps, rounds, schedule, skipped_steps, spec_compress, spec_compress8, step,
    step_lanes, MESSAGE_SCHEDULE,
};
use crate::lanes::{u32x4_add, u32x4_ror, u32x4_splat, v128_xor, U32x4};
use vstd::prelude::*;

verus! {

/// The part of `G` that determines its first output word. The other three
/// words are left at the values they hold when the first one is complete.
pub open spec fn mix_words_a_only(a: u32, b: u32, c: u32, d: u32, x: u32, y: u32) -> (
    u32,
    u32,
    u32,
    u32,
) {
    let a1 = a.wrapping_add(b).wrapping_add(x);
    let d1 = rotr(d ^ a1, 16);
    let c1 = c.wrapping_add(d1);
    let b1 = rotr(b ^ c1, 12);
    let a2 = a1.wrapping_add(b1).wrapping_add(y);
    (a2, b1, c1, d1)
}

/// `mix_words_a_only` applied to the words of `v` at positions `a`, `b`, `c`, `d`.
pub open spec fn mix_a_only(
    v: Seq<u32>,
    a: int,
    b: int,
    c: int,
    d: int,
    x: u32,
    y: u32,
) -> Seq<u32> {
    let w = mix_words_a_only(v[a], v[b], v[c], v[d], x, y);
    v.update(a, w.0).update(b, w.1).update(c, w.2).update(d, w.3)
}

/// Step `k` of round `r` in its truncated form.
pub open spec fn step_a_only(v: Seq<u32>, m: Seq<u32>, r: int, k: int) -> Seq<u32> {
    let l = step_lanes(k);
    mix_a_only(v, l.0, l.1, l.2, l.3, m[schedule(r, 2 * k)], m[schedule(r, 2 * k + 1)])
}

/// The words that lane `l` holds across the vectors of `v`.
pub open spec fn lane_words(v: Seq<U32x4>, l: int) -> Seq<u32> {
    Seq::new(v.len(), |i: int| v[i].lane(l))
}

/// `m` with the word at `at` replaced by `word`; `m` itself when `at` is not
/// a position of `m`.
pub open spec fn patched(m: Seq<u32>, at: int, word: u32) -> Seq<u32> {
    if 0 <= at < m.len() {
        m.update(at, word)
    } else {
        m
    }
}

/// The last round as the kernel runs it: the four column steps, the truncated
/// first diagonal, and the third diagonal.
pub open spec fn reduced_last_round(v: Seq<u32>, m: Seq<u32>) -> Seq<u32> {
    step(step_a_only(round_steps(v, m, 6, 0, 4), m, 6, 4), m, 6, 6)
}

/// The kernel's state after `done` rounds, started from `v` with the first
/// `skip` steps of the first round left out.
pub open spec fn reduced_progress(v: Seq<u32>, m: Seq<u32>, skip: int, done: int) -> Seq<u32> {
    if done <= 0 {
        v
    } else if done <= 6 {
        rounds(round_steps(v, m, 0, skip, 8), m, 1, done)
    } else {
        reduced_last_round(rounds(round_steps(v, m, 0, skip, 8), m, 1, 6), m)
    }
}

/// The kernel's final state: word 0 holds the first output word.
pub open spec fn reduced_finish(v: Seq<u32>, m: Seq<u32>, skip: int) -> Seq<u32> {
    let t = reduced_progress(v, m, skip, 7);
    t.update(0, t[0] ^ t[8])
}

/// The truncated last round leaves in words 0 and 8 what the full round does.
pub proof fn lemma_reduced_last_round(v: Seq<u32>, m: Seq<u32>)
    requires
        v.len() == 16,
    ensures
        reduced_last_round(v, m).len() == 16,
        reduced_last_round(v, m)[0] == round_steps(v, m, 6, 0, 8)[0],
        reduced_last_round(v, m)[8] == round_steps(v, m, 6, 0, 8)[8],
{
    let t = round_steps(v, m, 6, 0, 4);
    lemma_round_steps_len(v, m, 6, 0, 4);
    let f5 = step(t, m, 6, 4);
    let f6 = step(f5, m, 6, 5);
    let f7 = step(f6, m, 6, 6);
    let f8 = step(f7, m, 6, 7);
    assert(f8 == round_steps(v, m, 6, 0, 8)) by {
        reveal_with_fuel(round_steps, 5);
    }
    let h5 = step_a_only(t, m, 6, 4);
    let h7 = step(h5, m, 6, 6);
    assert(h7 == reduced_last_round(v, m));
    assert(f5[0] == h5[0]);
    assert(f6[2] == t[2] && f6[7] == t[7] && f6[8] == t[8] && f6[13] == t[13]);
    assert(h5[2] == t[2] && h5[7] == t[7] && h5[8] == t[8] && h5[13] == t[13]);
    assert(f7[8] == h7[8]);
    assert(f6[0] == f5[0]);
    assert(f7[0] == h7[0]);
}

/// The kernel's first word is the first output word of the full permutation
/// taken from the same starting point.
pub proof fn lemma_reduced_first_word(v: Seq<u32>, m: Seq<u32>, skip: int)
    requires
        v.len() == 16,
        0 <= skip,
    ensures
        reduced_finish(v, m, skip)[0] == {
            let full = rounds(round_steps(v, m, 0, skip, 8), m, 1, 7);
            full[0] ^ full[8]
        },
{
    let t = rounds(round_steps(v, m, 0, skip, 8), m, 1, 6);
    lemma_round_steps_len(v, m, 0, skip, 8);
    lemma_rounds_len(round_steps(v, m, 0, skip, 8), m, 1, 6);
    lemma_reduced_last_round(t, m);
    assert(rounds(round_steps(v, m, 0, skip, 8), m, 1, 7) == round_steps(t, m, 6, 0, 8));
}

/// Started from the state that the leading first-round steps leave behind,
/// the kernel computes the first output word of the whole compression,
/// provided the message agrees with the words that those steps have read.
pub proof fn lemma_reduced_matches_compress(
    chain: Seq<u32>,
    m: Seq<u32>,
    prefix: Seq<u32>,
    counter: u64,
    block_len: u32,
    flags: u32,
)
    requires
        chain.len() == 8,
        forall|i: int| 0 <= i < 2 * skipped_steps(prefix.len() as int) ==> prefix[i] == m[i],
    ensures
        reduced_finish(
            round_steps(
                init_state(chain, counter, block_len, flags),
                pad16(prefix),
                0,
                0,
                skipped_steps(prefix.len() as int),
            ),
            m,
            skipped_steps(prefix.len() as int),
        )[0] == spec_compress(chain, m, counter, block_len, flags)[0] ^ spec_compress(
            chain,
            m,
            counter,
            block_len,
            flags,
        )[8],
        spec_compress(chain, m, counter, block_len, flags)[0] ^ spec_compress(
            chain,
            m,
            counter,
            block_len,
            flags,
        )[8] == spec_compress8(chain, m, counter, block_len, flags)[0],
{
    let init = init_state(chain, counter, block_len, flags);
    let skip = skipped_steps(prefix.len() as int);
    let prepared = round_steps(init, pad16(prefix), 0, 0, skip);
    lemma_leading_steps_read_prefix(init, pad16(prefix), m, skip);
    lemma_round_steps_len(init, m, 0, 0, skip);
    lemma_reduced_first_word(prepared, m, skip);
    lemma_round_steps_split(init, m, 0, 0, skip, 8);
    let first = round_steps(init, m, 0, 0, 8);
    assert(first == rounds(init, m, 0, 1)) by {
        reveal_with_fuel(rounds, 2);
    }
    lemma_rounds_split(init, m, 0, 1, 7);
    assert(rounds(first, m, 1, 7) == spec_compress(chain, m, counter, block_len, flags));
}

/// The kernel agrees with the scalar compressor: run on the template with
/// one word patched, from the state that the constant words of the template
/// leave behind, it yields word 0 xored with word 8 of the compression of the
/// patched block, which is the first word of its hash. This holds for every
/// number of constant words and every patch position that the skipped steps
/// have not read.
pub proof fn lemma_kernel_matches_scalar(
    chain: Seq<u32>,
    template: Seq<u32>,
    constant_words: nat,
    patch_index: int,
    word: u32,
    counter: u64,
    block_len: u32,
    flags: u32,
)
    requires
        chain.len() == 8,
        template.len() == 16,
        constant_words <= 16,
        !(0 <= patch_index < 2 * skipped_steps(constant_words as int)),
    ensures
        reduced_finish(
            round_steps(
                init_state(chain, counter, block_len, flags),
                pad16(template.subrange(0, constant_words as int)),
                0,
                0,
                skipped_steps(constant_words as int),
            ),
            patched(template, patch_index, word),
            skipped_steps(constant_words as int),
        )[0] == {
            let out = spec_compress(
                chain,
                patched(template, patch_index, word),
                counter,
                block_len,
                flags,
            );
            out[0] ^ out[8]
        },
{
    lemma_reduced_matches_compress(
        chain,
        patched(template, patch_index, word),
        template.subrange(0, constant_words as int),
        counter,
        block_len,
        flags,
    );
}

/// Lane-wise `G`.
pub fn g4(va: &mut U32x4, vb: &mut U32x4, vc: &mut U32x4, vd: &mut U32x4, x: U32x4, y: U32x4)
    ensures
        forall|l: int|
            0 <= l < 4 ==> (
                #[trigger] final(va).lane(l),
                final(vb).lane(l),
                final(vc).lane(l),
                final(vd).lane(l),
            ) == mix_words(
                old(va).lane(l),
                old(vb).lane(l),
                old(vc).lane(l),
                old(vd).lane(l),
                x.lane(l),
                y.lane(l),
            ),
{
    *va = u32x4_add(*va, u32x4_add(*vb, x));
    *vd = v128_xor(*vd, *va);
    *vd = u32x4_ror(*vd, 16);
    *vc = u32x4_add(*vc, *vd);
    *vb = v128_xor(*vb, *vc);
    *vb = u32x4_ror(*vb, 12);
    *va = u32x4_add(*va, u32x4_add(*vb, y));
    *vd = v128_xor(*vd, *va);
    *vd = u32x4_ror(*vd, 8);
    *vc = u32x4_add(*vc, *vd);
    *vb = v128_xor(*vb, *vc);
    *vb = u32x4_ror(*vb, 7);
}

/// Lane-wise `G` cut short once its first output word is complete.
pub fn g4_a_only(
    va: &mut U32x4,
    vb: &mut U32x4,
    vc: &mut U32x4,
    vd: &mut U32x4,
    x: U32x4,
    y: U32x4,
)
    ensures
        forall|l: int|
            0 <= l < 4 ==> (
                #[trigger] final(va).lane(l),
                final(vb).lane(l),
                final(vc).lane(l),
                final(vd).lane(l),
            ) == mix_words_a_only(
                old(va).lane(l),
                old(vb).lane(l),
                old(vc).lane(l),
                old(vd).lane(l),
                x.lane(l),
                y.lane(l),
            ),
{
    *va = u32x4_add(*va, u32x4_add(*vb, x));
    *vd = v128_xor(*vd, *va);
    *vd = u32x4_ror(*vd, 16);
    *vc = u32x4_add(*vc, *vd);
    *vb = v128_xor(*vb, *vc);
    *vb = u32x4_ror(*vb, 12);
    *va = u32x4_add(*va, u32x4_add(*vb, y));
}

/// The message operand at position `p` of round `r`: the per-lane patch where
/// the schedule selects word `PATCH_1`, the broadcast template word elsewhere.
fn operand<const PATCH_1: usize>(
    block_template: &[u32; 16],
    patch_1: U32x4,
    r: usize,
    p: usize,
) -> (x: U32x4)
    requires
        r < 7,
        p < 16,
    ensures
        forall|l: int|
            0 <= l < 4 ==> #[trigger] x.lane(l) == patched(
                block_template@,
                PATCH_1 as int,
                patch_1.lane(l),
            )[schedule(r as int, p as int)],
{
    proof {
        lemma_schedule_in_range(r as int, p as int);
    }
    let ix = MESSAGE_SCHEDULE[r][p];
    if ix == PATCH_1 {
        patch_1
    } else {
        u32x4_splat(block_template[ix])
    }
}

/// One step of round `r` on all four lanes: `G` on the vectors at `a`, `b`,
/// `c`, `d` with the operands at positions `x` and `y`.
fn mix_step<const PATCH_1: usize>(
    v: &mut [U32x4; 16],
    block_template: &[u32; 16],
    patch_1: U32x4,
    r: usize,
    a: usize,
    b: usize,
    c: usize,
    d: usize,
    x: usize,
    y: usize,
)
    requires
        r < 7,
        x < 16,
        x % 2 == 0,
        y == x + 1,
        (a as int, b as int, c as int, d as int) == step_lanes(x as int / 2),
    ensures
        forall|l: int|
            0 <= l < 4 ==> #[trigger] lane_words(final(v)@, l) == step(
                lane_words(old(v)@, l),
                patched(block_template@, PATCH_1 as int, patch_1.lane(l)),
                r as int,
                x as int / 2,
            ),
{
    let mx = operand::<PATCH_1>(block_template, patch_1, r, x);
    let my = operand::<PATCH_1>(block_template, patch_1, r, y);
    let mut va = v[a];
    let mut vb = v[b];
    let mut vc = v[c];
    let mut vd = v[d];
    g4(&mut va, &mut vb, &mut vc, &mut vd, mx, my);
    v[a] = va;
    v[b] = vb;
    v[c] = vc;
    v[d] = vd;
    assert forall|l: int| 0 <= l < 4 implies #[trigger] lane_words(v@, l) == step(
        lane_words(old(v)@, l),
        patched(block_template@, PATCH_1 as int, patch_1.lane(l)),
        r as int,
        x as int / 2,
    ) by {
        let m = patched(block_template@, PATCH_1 as int, patch_1.lane(l));
        let before = lane_words(old(v)@, l);
        assert(mx.lane(l) == m[schedule(r as int, 2 * (x as int / 2))]);
        assert(my.lane(l) == m[schedule(r as int, 2 * (x as int / 2) + 1)]);
        assert(va.lane(l) == mix_words(
            before[a as int],
            before[b as int],
            before[c as int],
            before[d as int],
            mx.lane(l),
            my.lane(l),
        ).0);
        assert(lane_words(v@, l) =~= step(before, m, r as int, x as int / 2));
    }
}

/// The truncated form of `mix_step`.
fn mix_step_a_only<const PATCH_1: usize>(
    v: &mut [U32x4; 16],
    block_template: &[u32; 16],
    patch_1: U32x4,
    r: usize,
    a: usize,
    b: usize,
    c: usize,
    d: usize,
    x: usize,
    y: usize,
)
    requires
        r < 7,
        x < 16,
        x % 2 == 0,
        y == x + 1,
        (a as int, b as int, c as int, d as int) == step_lanes(x as int / 2),
    ensures
        forall|l: int|
            0 <= l < 4 ==> #[trigger] lane_words(final(v)@, l) == step_a_only(
                lane_words(old(v)@, l),
                patched(block_template@, PATCH_1 as int, patch_1.lane(l)),
                r as int,
                x as int / 2,
            ),
{
    let mx = operand::<PATCH_1>(block_template, patch_1, r, x);
    let my = operand::<PATCH_1>(block_template, patch_1, r, y);
    let mut va = v[a];
    let mut vb = v[b];
    let mut vc = v[c];
    let mut vd = v[d];
    g4_a_only(&mut va, &mut vb, &mut vc, &mut vd, mx, my);
    v[a] = va;
    v[b] = vb;
    v[c] = vc;
    v[d] = vd;
    assert forall|l: int| 0 <= l < 4 implies #[trigger] lane_words(v@, l) == step_a_only(
        lane_words(old(v)@, l),
        patched(block_template@, PATCH_1 as int, patch_1.lane(l)),
        r as int,
        x as int / 2,
    ) by {
        let m = patched(block_template@, PATCH_1 as int, patch_1.lane(l));
        let before = lane_words(old(v)@, l);
        assert(mx.lane(l) == m[schedule(r as int, 2 * (x as int / 2))]);
        assert(my.lane(l) == m[schedule(r as int, 2 * (x as int / 2) + 1)]);
        assert(va.lane(l) == mix_words_a_only(
            before[a as int],
            before[b as int],
            before[c as int],
            before[d as int],
            mx.lane(l),
            my.lane(l),
        ).0);
        assert(lane_words(v@, l) =~= step_a_only(before, m, r as int, x as int / 2));
    }
}

/// The kernel's state inside round `r`, after the steps below `k` have been
/// considered, given the state `start` that the round began with.
pub open spec fn within_round(start: Seq<u32>, m: Seq<u32>, skip: int, r: int, k: int) -> Seq<u32> {
    if r == 0 && k <= skip {
        start
    } else if r == 0 {
        round_steps(start, m, 0, skip, k)
    } else {
        round_steps(start, m, r, 0, k)
    }
}

/// Reduced strength BLAKE3 that only gives the first word of the hash.
///
/// Each lane of `v` is taken through the rounds with its own message: the
/// template with word `PATCH_1` replaced by that lane of `patch_1`. The first
/// `CONSTANT_WORD_COUNT / 2` steps of the first round are left out, and the
/// last round is truncated. On return word 0 of every lane holds the first
/// output word of the compression.
pub fn compress_mb4_reduced<const CONSTANT_WORD_COUNT: usize, const PATCH_1: usize>(
    v: &mut [U32x4; 16],
    block_template: &[u32; 16],
    patch_1: U32x4,
)
    ensures
        forall|l: int|
            0 <= l < 4 ==> #[trigger] lane_words(final(v)@, l) == reduced_finish(
                lane_words(old(v)@, l),
                patched(block_template@, PATCH_1 as int, patch_1.lane(l)),
                skipped_steps(CONSTANT_WORD_COUNT as int),
            ),
{
    let ghost skip = skipped_steps(CONSTANT_WORD_COUNT as int);
    let mut i: usize = 0;
    while i < 7
        invariant
            i <= 7,
            skip == skipped_steps(CONSTANT_WORD_COUNT as int),
            forall|l: int|
                0 <= l < 4 ==> #[trigger] lane_words(v@, l) == reduced_progress(
                    lane_words(old(v)@, l),
                    patched(block_template@, PATCH_1 as int, patch_1.lane(l)),
                    skip,
                    i as int,
                ),
        decreases 7 - i,
    {
        let ghost start = v@;
        let ghost r = i as int;
        if i > 0 || CONSTANT_WORD_COUNT < 2 {
            mix_step::<PATCH_1>(v, block_template, patch_1, i, 0, 4, 8, 12, 0, 1);
        }
        assert forall|l: int| 0 <= l < 4 implies #[trigger] lane_words(v@, l) == within_round(
            lane_words(start, l),
            patched(block_template@, PATCH_1 as int, patch_1.lane(l)),
            skip,
            r,
            1,
        ) by {
            reveal_with_fuel(round_steps, 2);
        }
        if i > 0 || CONSTANT_WORD_COUNT < 4 {
            mix_step::<PATCH_1>(v, block_template, patch_1, i, 1, 5, 9, 13, 2, 3);
        }
        assert forall|l: int| 0 <= l < 4 implies #[trigger] lane_words(v@, l) == within_round(
            lane_words(start, l),
            patched(block_template@, PATCH_1 as int, patch_1.lane(l)),
            skip,
            r,
            2,
        ) by {
            reveal_with_fuel(round_steps, 2);
        }
        if i > 0 || CONSTANT_WORD_COUNT < 6 {
            mix_step::<PATCH_1>(v, block_template, patch_1, i, 2, 6, 10, 14, 4, 5);
        }
        assert forall|l: int| 0 <= l < 4 implies #[trigger] lane_words(v@, l) == within_round(
            lane_words(start, l),
            patched(block_template@, PATCH_1 as int, patch_1.lane(l)),
            skip,
            r,
            3,
        ) by {
            reveal_with_fuel(round_steps, 2);
        }
        if i > 0 || CONSTANT_WORD_COUNT < 8 {
            mix_step::<PATCH_1>(v, block_template, patch_1, i, 3, 7, 11, 15, 6, 7);
        }
        assert forall|l: int| 0 <= l < 4 implies #[trigger] lane_words(v@, l) == within_round(
            lane_words(start, l),
            patched(block_template@, PATCH_1 as int, patch_1.lane(l)),
            skip,
            r,
            4,
        ) by {
            reveal_with_fuel(round_steps, 2);
        }
        if i < 6 {
            if i > 0 || CONSTANT_WORD_COUNT < 10 {
                mix_step::<PATCH_1>(v, block_template, patch_1, i, 0, 5, 10, 15, 8, 9);
            }
            assert forall|l: int| 0 <= l < 4 implies #[trigger] lane_words(v@, l) == within_round(
                lane_words(start, l),
                patched(block_template@, PATCH_1 as int, patch_1.lane(l)),
                skip,
                r,
                5,
            ) by {
                reveal_with_fuel(round_steps, 2);
            }
            if i > 0 || CONSTANT_WORD_COUNT < 12 {
                mix_step::<PATCH_1>(v, block_template, patch_1, i, 1, 6, 11, 12, 10, 11);
            }
            assert forall|l: int| 0 <= l < 4 implies #[trigger] lane_words(v@, l) == within_round(
                lane_words(start, l),
                patched(block_template@, PATCH_1 as int, patch_1.lane(l)),
                skip,
                r,
                6,
            ) by {
                reveal_with_fuel(round_steps, 2);
            }
            if i > 0 || CONSTANT_WORD_COUNT < 14 {
                mix_step::<PATCH_1>(v, block_template, patch_1, i, 2, 7, 8, 13, 12, 13);
            }
            assert forall|l: int| 0 <= l < 4 implies #[trigger] lane_words(v@, l) == within_round(
                lane_words(start, l),
                patched(block_template@, PATCH_1 as int, patch_1.lane(l)),
                skip,
                r,
                7,
            ) by {
                reveal_with_fuel(round_steps, 2);
            }
            if i > 0 || CONSTANT_WORD_COUNT < 16 {
                mix_step::<PATCH_1>(v, block_template, patch_1, i, 3, 4, 9, 14, 14, 15);
            }
            assert forall|l: int| 0 <= l < 4 implies #[trigger] lane_words(v@, l) == within_round(
                lane_words(start, l),
                patched(block_template@, PATCH_1 as int, patch_1.lane(l)),
                skip,
                r,
                8,
            ) by {
                reveal_with_fuel(round_steps, 2);
            }
            assert forall|l: int| 0 <= l < 4 implies #[trigger] lane_words(v@, l)
                == reduced_progress(
                lane_words(old(v)@, l),
                patched(block_template@, PATCH_1 as int, patch_1.lane(l)),
                skip,
                r + 1,
            ) by {
                reveal_with_fuel(rounds, 2);
            }
        } else {
            mix_step_a_only::<PATCH_1>(v, block_template, patch_1, i, 0, 5, 10, 15, 8, 9);
            mix_step::<PATCH_1>(v, block_template, patch_1, i, 2, 7, 8, 13, 12, 13);
        }
        i += 1;
    }
    let ghost last = v@;
    v[0] = v128_xor(v[0], v[8]);
    assert forall|l: int| 0 <= l < 4 implies #[trigger] lane_words(v@, l) == reduced_finish(
        lane_words(old(v)@, l),
        patched(block_template@, PATCH_1 as int, patch_1.lane(l)),
        skip,
    ) by {
        let t = lane_words(last, l);
        assert(lane_words(v@, l) =~= t.update(0, t[0] ^ t[8]));
    }
}

} // verus!
