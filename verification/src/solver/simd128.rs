//! Four candidates per compression.
//!
//! The nine search digits are split over the words of the final block. Four
//! of them fill one word of their own, the center word, which counts from 0
//! to 9999. Three fill most of a neighbouring word, the lane word, whose
//! thousand values are tried four at a time, one in each lane. The remaining
//! two digits change least often and are set in the outermost loops.
use crate::blake3::hash::{u32_from_be_bytes, words_from_le_bytes, words_of};
use crate::blake3::simd128::{
    compress_mb4_reduced, lane_words, lemma_reduced_matches_compress, reduced_finish,
};
use crate::blake3::{
    compress8, ingest_message_prefix, init_state, pad16, round_steps, skipped_steps,
    spec_compress8,
};
use crate::decimal::{
    digit_char, lemma_fixed_digits_len, lemma_fixed_digits_mod, lemma_pow10_values,
};
use crate::lanes::{
    u32x4_all_true, u32x4_shr, u32x4_splat, v128_and, v128_load, v128_or, v128_store, U32x4,
};
use crate::message::{write_search_digits, CerberusMessage};
use crate::solver::layout::{
    candidate_index, center_word, center_word_index, lane_bits, lane_id_entry, lane_word_index,
    lemma_none_at_all, lemma_none_before_by_rank, lemma_template_is_candidate, none_before,
    outer_block, search_rank, template_message, tuple_rank,
};
use crate::solver::{lemma_solution_is_valid_for_all, search_space, Solver};
use crate::Align64;
use vstd::prelude::*;
use vstd::std_specs::convert::FromSpecImpl;

verus! {

/// Builds the lane-ID table.
pub fn lane_id_table() -> (table: [u32; 1000])
    ensures
        forall|i: int| 0 <= i < 1000 ==> table@[i] == lane_id_entry(i as nat),
{
    let mut out = [0u32; 1000];
    let mut i: usize = 0;
    while i < 1000
        invariant
            i <= 1000,
            forall|j: int| 0 <= j < i ==> out@[j] == lane_id_entry(j as nat),
        decreases 1000 - i,
    {
        let mut copy = i;
        let mut ds = [0u8; 4];
        let mut j: usize = 0;
        while j < 3
            invariant
                j <= 3,
                i < 1000,
                copy < 1000,
                j == 0 ==> copy == i,
                j == 1 ==> copy == i / 10 && ds@[0] == digit_char((i % 10) as int),
                j == 2 ==> copy == i / 100 && ds@[0] == digit_char((i % 10) as int) && ds@[1]
                    == digit_char((i / 10 % 10) as int),
                j == 3 ==> ds@[0] == digit_char((i % 10) as int) && ds@[1] == digit_char(
                    (i / 10 % 10) as int,
                ) && ds@[2] == digit_char((i / 100 % 10) as int),
                ds@[3] == 0u8,
            decreases 3 - j,
        {
            ds[j] = (copy % 10) as u8 + 48;
            copy = copy / 10;
            j += 1;
        }
        out[i] = u32_from_be_bytes(ds[0], ds[1], ds[2], ds[3]);
        i += 1;
    }
    out
}

/// Packs the four lowest decimal digits of `word` into the center word.
pub fn pack_center_word(word: u32) -> (packed: u32)
    ensures
        packed == center_word(word as nat),
{
    u32_from_be_bytes(
        (word % 10) as u8 + 48,
        ((word / 10) % 10) as u8 + 48,
        ((word / 100) % 10) as u8 + 48,
        ((word / 1000) % 10) as u8 + 48,
    )
}

/// Four-lane Cerberus solver.
///
/// Current implementation: 9-digit out-of-order kernel, four candidates per run, with quarter-round
/// hotstart granularity.
pub struct CerberusSolver {
    message: CerberusMessage,
    report_slot: u32,
}

impl CerberusSolver {
    /// Number of center-word values between two progress reports.
    pub const OUTER_LOOP_PERIOD: u32 = 64;

    /// Number of attempts between two progress reports.
    pub const REPORT_PERIOD: u32 = 1000 * 64;

    /// Whether candidate `(w, lane)` over the template meets the mask.
    pub closed spec fn template_hit(
        &self,
        tpl: Seq<u32>,
        center: int,
        lane_word: int,
        mask: u32,
        w: nat,
        lane: nat,
    ) -> bool {
        spec_compress8(
            self.message.chaining(),
            template_message(tpl, center, lane_word, w, lane),
            0,
            (self.message.residual_len() + 9) as u32,
            self.message.block_flags(),
        )[0] & mask == 0
    }
}

/// The first hash word of four candidates: the block `msg` with the bits of
/// one lane of `lane_id_value` added to word `LANE_ID_WORD_IDX`, compressed
/// from `prepared_state`.
fn first_words<const CONSTANT_WORD_COUNT: usize, const LANE_ID_WORD_IDX: usize>(
    prepared_state: &[u32; 16],
    msg: &[u32; 16],
    lane_id_value: U32x4,
) -> (out: U32x4)
    requires
        LANE_ID_WORD_IDX < 16,
    ensures
        forall|l: int|
            0 <= l < 4 ==> #[trigger] out.lane(l) == reduced_finish(
                prepared_state@,
                msg@.update(
                    LANE_ID_WORD_IDX as int,
                    msg@[LANE_ID_WORD_IDX as int] | lane_id_value.lane(l),
                ),
                skipped_steps(CONSTANT_WORD_COUNT as int),
            )[0],
{
    let mut state = [u32x4_splat(0); 16];
    let mut k: usize = 0;
    while k < 16
        invariant
            k <= 16,
            forall|j: int, l: int|
                0 <= j < k && 0 <= l < 4 ==> (#[trigger] state@[j].lane(l)) == prepared_state@[j],
        decreases 16 - k,
    {
        state[k] = u32x4_splat(prepared_state[k]);
        k += 1;
    }
    let patch = v128_or(u32x4_splat(msg[LANE_ID_WORD_IDX]), lane_id_value);
    let ghost start = state@;
    compress_mb4_reduced::<CONSTANT_WORD_COUNT, LANE_ID_WORD_IDX>(&mut state, msg, patch);
    proof {
        assert forall|l: int| 0 <= l < 4 implies #[trigger] state@[0].lane(l) == reduced_finish(
            prepared_state@,
            msg@.update(
                LANE_ID_WORD_IDX as int,
                msg@[LANE_ID_WORD_IDX as int] | lane_id_value.lane(l),
            ),
            skipped_steps(CONSTANT_WORD_COUNT as int),
        )[0] by {
            assert(lane_words(start, l) =~= prepared_state@);
            assert(lane_words(state@, l)[0] == state@[0].lane(l));
        }
    }
    state[0]
}

impl CerberusSolver {
    /// The kernel, started from the state that the constant words leave
    /// behind, decides whether a candidate over the template meets the mask.
    proof fn lemma_first_word_decides(
        &self,
        tpl: Seq<u32>,
        center: int,
        lane_word: int,
        constant_words: int,
        mask: u32,
        w: nat,
        lane: nat,
    )
        requires
            self.message.wf(),
            tpl.len() == 16,
            0 <= constant_words <= center < 15,
            constant_words <= lane_word < 16,
            lane_word != center,
        ensures
            self.template_hit(tpl, center, lane_word, mask, w, lane) <==> reduced_finish(
                round_steps(
                    init_state(
                        self.message.chaining(),
                        0,
                        (self.message.residual_len() + 9) as u32,
                        self.message.block_flags(),
                    ),
                    pad16(tpl.subrange(0, constant_words)),
                    0,
                    0,
                    skipped_steps(constant_words),
                ),
                template_message(tpl, center, lane_word, w, lane),
                skipped_steps(constant_words),
            )[0] & mask == 0,
    {
        lemma_reduced_matches_compress(
            self.message.chaining(),
            template_message(tpl, center, lane_word, w, lane),
            tpl.subrange(0, constant_words),
            0,
            (self.message.residual_len() + 9) as u32,
            self.message.block_flags(),
        );
    }
}

impl CerberusSolver {
    /// Searches the center word and the lane word over the template
    /// `msg_tpl`, in which the two outer digits are set.
    ///
    /// Candidates are tried in the order of the center-word value, then of the
    /// lane value. Returns the first pair that meets the mask.
    fn solve_impl<
        const CENTER_WORD_IDX: usize,
        const LANE_ID_WORD_IDX: usize,
        const CONSTANT_WORD_COUNT: usize,
        P: FnMut(u32),
    >(
        &mut self,
        msg_tpl: Align64<[u32; 16]>,
        lane_ids: &[u32; 1000],
        mask: u32,
        progress: &mut P,
    ) -> (res: Option<(u32, u32)>)
        requires
            CENTER_WORD_IDX < 15,
            LANE_ID_WORD_IDX < 16,
            LANE_ID_WORD_IDX != CENTER_WORD_IDX,
            CONSTANT_WORD_COUNT <= CENTER_WORD_IDX,
            CONSTANT_WORD_COUNT <= LANE_ID_WORD_IDX,
            old(self).message.wf(),
            forall|i: int| CENTER_WORD_IDX + 1 < i < 16 ==> msg_tpl.0@[i] == 0u32,
            forall|i: int| 0 <= i < 1000 ==> lane_ids@[i] == lane_id_entry(i as nat),
            call_requires(*old(progress), (Self::REPORT_PERIOD,)),
        ensures
            *final(self) == *old(self),
            call_requires(*final(progress), (Self::REPORT_PERIOD,)),
            match res {
                Some((w, lane)) => {
                    &&& w < 10000
                    &&& lane < 1000
                    &&& old(self).template_hit(
                        msg_tpl.0@,
                        CENTER_WORD_IDX as int,
                        LANE_ID_WORD_IDX as int,
                        mask,
                        w as nat,
                        lane as nat,
                    )
                    &&& forall|w2: nat, lane2: nat|
                        w2 < 10000 && lane2 < 1000 && w2 * 1000 + lane2 < w * 1000 + lane
                            ==> !#[trigger] old(self).template_hit(
                            msg_tpl.0@,
                            CENTER_WORD_IDX as int,
                            LANE_ID_WORD_IDX as int,
                            mask,
                            w2,
                            lane2,
                        )
                },
                None => forall|w2: nat, lane2: nat|
                    w2 < 10000 && lane2 < 1000 ==> !#[trigger] old(self).template_hit(
                        msg_tpl.0@,
                        CENTER_WORD_IDX as int,
                        LANE_ID_WORD_IDX as int,
                        mask,
                        w2,
                        lane2,
                    ),
            },
    {
        // the words behind the template are zero; a fresh block says so
        let mut msg = Align64([0u32; 16]);
        let mut i: usize = 0;
        while i <= CENTER_WORD_IDX + 1
            invariant
                CENTER_WORD_IDX < 15,
                i <= CENTER_WORD_IDX + 2,
                forall|j: int| 0 <= j < i ==> msg.0@[j] == msg_tpl.0@[j],
                forall|j: int| i <= j < 16 ==> msg.0@[j] == 0u32,
            decreases CENTER_WORD_IDX + 2 - i,
        {
            msg.0[i] = msg_tpl.0[i];
            i += 1;
        }
        assert(msg.0@ =~= msg_tpl.0@);
        let block_len = self.message.salt_residual_len() as u32 + 9;

        let prepared_state = ingest_message_prefix(
            *self.message.prefix_state(),
            &msg.0[0..CONSTANT_WORD_COUNT],
            0,
            block_len,
            self.message.flags(),
        );
        let ghost prefix = msg_tpl.0@.subrange(0, CONSTANT_WORD_COUNT as int);

        let mut word: u32 = 0;
        while word < 10000
            invariant
                word <= 10000,
                CENTER_WORD_IDX < 15,
                LANE_ID_WORD_IDX < 16,
                LANE_ID_WORD_IDX != CENTER_WORD_IDX,
                CONSTANT_WORD_COUNT <= CENTER_WORD_IDX,
                CONSTANT_WORD_COUNT <= LANE_ID_WORD_IDX,
                *self == *old(self),
                self.message.wf(),
                block_len == self.message.residual_len() + 9,
                call_requires(*progress, (Self::REPORT_PERIOD,)),
                forall|i: int| 0 <= i < 1000 ==> lane_ids@[i] == lane_id_entry(i as nat),
                prefix == msg_tpl.0@.subrange(0, CONSTANT_WORD_COUNT as int),
                prepared_state@ == round_steps(
                    init_state(
                        self.message.chaining(),
                        0,
                        block_len,
                        self.message.block_flags(),
                    ),
                    pad16(prefix),
                    0,
                    0,
                    skipped_steps(CONSTANT_WORD_COUNT as int),
                ),
                forall|j: int|
                    0 <= j < 16 && j != CENTER_WORD_IDX ==> msg.0@[j] == msg_tpl.0@[j],
                forall|w2: nat, lane2: nat|
                    w2 < word && lane2 < 1000 ==> !#[trigger] self.template_hit(
                        msg_tpl.0@,
                        CENTER_WORD_IDX as int,
                        LANE_ID_WORD_IDX as int,
                        mask,
                        w2,
                        lane2,
                    ),
            decreases 10000 - word,
        {
            msg.0[CENTER_WORD_IDX] = pack_center_word(word);
            let mut lane_id_idx: usize = 0;
            while lane_id_idx < 250
                invariant
                    lane_id_idx <= 250,
                    word < 10000,
                    CENTER_WORD_IDX < 15,
                    LANE_ID_WORD_IDX < 16,
                    LANE_ID_WORD_IDX != CENTER_WORD_IDX,
                    CONSTANT_WORD_COUNT <= CENTER_WORD_IDX,
                    CONSTANT_WORD_COUNT <= LANE_ID_WORD_IDX,
                    *self == *old(self),
                    self.message.wf(),
                    block_len == self.message.residual_len() + 9,
                    forall|i: int| 0 <= i < 1000 ==> lane_ids@[i] == lane_id_entry(i as nat),
                    prefix == msg_tpl.0@.subrange(0, CONSTANT_WORD_COUNT as int),
                    prepared_state@ == round_steps(
                        init_state(
                            self.message.chaining(),
                            0,
                            block_len,
                            self.message.block_flags(),
                        ),
                        pad16(prefix),
                        0,
                        0,
                        skipped_steps(CONSTANT_WORD_COUNT as int),
                    ),
                    msg.0@ == msg_tpl.0@.update(CENTER_WORD_IDX as int, center_word(word as nat)),
                    call_requires(*progress, (Self::REPORT_PERIOD,)),
                    forall|w2: nat, lane2: nat|
                        w2 < word && lane2 < 1000 ==> !#[trigger] self.template_hit(
                            msg_tpl.0@,
                            CENTER_WORD_IDX as int,
                            LANE_ID_WORD_IDX as int,
                            mask,
                            w2,
                            lane2,
                        ),
                    forall|lane2: nat|
                        lane2 < 4 * lane_id_idx ==> !#[trigger] self.template_hit(
                            msg_tpl.0@,
                            CENTER_WORD_IDX as int,
                            LANE_ID_WORD_IDX as int,
                            mask,
                            word as nat,
                            lane2,
                        ),
                decreases 250 - lane_id_idx,
            {
                let mut lane_id_value = v128_load(lane_ids, lane_id_idx * 4);
                if CENTER_WORD_IDX < LANE_ID_WORD_IDX {
                    lane_id_value = u32x4_shr(lane_id_value, 8);
                }
                let first = first_words::<CONSTANT_WORD_COUNT, LANE_ID_WORD_IDX>(
                    &prepared_state,
                    &msg.0,
                    lane_id_value,
                );
                let masked = v128_and(first, u32x4_splat(mask));

                proof {
                    assert forall|l: int| 0 <= l < 4 implies (masked.lane(l) == 0
                        <==> self.template_hit(
                        msg_tpl.0@,
                        CENTER_WORD_IDX as int,
                        LANE_ID_WORD_IDX as int,
                        mask,
                        word as nat,
                        (4 * lane_id_idx + l) as nat,
                    )) by {
                        let lane = (4 * lane_id_idx + l) as nat;
                        assert(lane_id_value.lane(l) == lane_bits(
                            lane,
                            CENTER_WORD_IDX < LANE_ID_WORD_IDX,
                        ));
                        assert(msg.0@.update(
                            LANE_ID_WORD_IDX as int,
                            msg.0@[LANE_ID_WORD_IDX as int] | lane_id_value.lane(l),
                        ) == template_message(
                            msg_tpl.0@,
                            CENTER_WORD_IDX as int,
                            LANE_ID_WORD_IDX as int,
                            word as nat,
                            lane,
                        ));
                        self.lemma_first_word_decides(
                            msg_tpl.0@,
                            CENTER_WORD_IDX as int,
                            LANE_ID_WORD_IDX as int,
                            CONSTANT_WORD_COUNT as int,
                            mask,
                            word as nat,
                            lane,
                        );
                    }
                }

                if !u32x4_all_true(masked) {
                    let mut extract = [0u32; 4];
                    v128_store(&mut extract, masked);
                    let mut success_lane_idx: usize = 0;
                    while success_lane_idx < 3 && extract[success_lane_idx] != 0
                        invariant
                            success_lane_idx <= 3,
                            forall|l: int| 0 <= l < success_lane_idx ==> extract@[l] != 0,
                        decreases 3 - success_lane_idx,
                    {
                        success_lane_idx += 1;
                    }
                    let lane = lane_id_idx as u32 * 4 + success_lane_idx as u32;
                    proof {
                        assert forall|l: int| 0 <= l < 4 implies extract@[l] == masked.lane(l) by {}
                        assert(extract@[success_lane_idx as int] == 0);
                        assert(masked.lane(success_lane_idx as int) == 0);
                        assert(lane == (4 * lane_id_idx + success_lane_idx) as nat);
                        assert(self.template_hit(
                            msg_tpl.0@,
                            CENTER_WORD_IDX as int,
                            LANE_ID_WORD_IDX as int,
                            mask,
                            word as nat,
                            lane as nat,
                        ));
                        assert forall|w2: nat, lane2: nat|
                            w2 < 10000 && lane2 < 1000 && w2 * 1000 + lane2 < word * 1000
                                + lane implies !#[trigger] self.template_hit(
                            msg_tpl.0@,
                            CENTER_WORD_IDX as int,
                            LANE_ID_WORD_IDX as int,
                            mask,
                            w2,
                            lane2,
                        ) by {
                            if w2 == word && lane2 >= 4 * lane_id_idx {
                                let l = lane2 - 4 * lane_id_idx;
                                assert(extract@[l] == masked.lane(l));
                            }
                        }
                    }
                    return Some((word, lane));
                }
                proof {
                    assert forall|lane2: nat|
                        lane2 < 4 * (lane_id_idx + 1) implies !#[trigger] self.template_hit(
                        msg_tpl.0@,
                        CENTER_WORD_IDX as int,
                        LANE_ID_WORD_IDX as int,
                        mask,
                        word as nat,
                        lane2,
                    ) by {
                        if lane2 >= 4 * lane_id_idx {
                            let l = lane2 - 4 * lane_id_idx;
                            assert(masked.lane(l) != 0);
                        }
                    }
                }
                lane_id_idx += 1;
            }

            if word % Self::OUTER_LOOP_PERIOD == self.report_slot {
                progress(Self::REPORT_PERIOD);
            }
            word += 1;
        }
        None
    }
}

impl CerberusSolver {
    /// A candidate over the template with the outer digits set meets the mask
    /// exactly when the candidate that the nonce formula names does.
    proof fn lemma_template_hit_is_hit(
        &self,
        mask: u32,
        resid0: nat,
        resid1: nat,
        w: nat,
        lane: nat,
    )
        requires
            self.message.wf(),
            resid0 < 10,
            resid1 < 10,
            w < 10000,
            lane < 1000,
        ensures
            self.template_hit(
                words_of(
                    outer_block(
                        self.message.residual(),
                        self.message.residual_len(),
                        resid0,
                        resid1,
                    ),
                ),
                center_word_index(self.message.residual_len()),
                lane_word_index(self.message.residual_len()),
                mask,
                w,
                lane,
            ) <==> self.message.hits(
                mask,
                candidate_index(self.message.residual_len() % 4, resid0, resid1, w, lane),
            ),
    {
        lemma_template_is_candidate(self.message, resid0, resid1, w, lane);
    }

    /// Runs `solve_impl` with the word indices that belong to the residue
    /// length as compile-time constants.
    fn dispatch<P: FnMut(u32)>(
        &mut self,
        center_word_idx: usize,
        position_mod: usize,
        msg: Align64<[u32; 16]>,
        lane_ids: &[u32; 1000],
        mask: u32,
        progress: &mut P,
    ) -> (res: Option<(u32, u32)>)
        requires
            old(self).message.wf(),
            center_word_idx == center_word_index(old(self).message.residual_len()),
            position_mod == old(self).message.residual_len() % 4,
            forall|i: int| center_word_idx + 1 < i < 16 ==> msg.0@[i] == 0u32,
            forall|i: int| 0 <= i < 1000 ==> lane_ids@[i] == lane_id_entry(i as nat),
            call_requires(*old(progress), (Self::REPORT_PERIOD,)),
        ensures
            *final(self) == *old(self),
            call_requires(*final(progress), (Self::REPORT_PERIOD,)),
            match res {
                Some((w, lane)) => {
                    &&& w < 10000
                    &&& lane < 1000
                    &&& old(self).template_hit(
                        msg.0@,
                        center_word_index(old(self).message.residual_len()),
                        lane_word_index(old(self).message.residual_len()),
                        mask,
                        w as nat,
                        lane as nat,
                    )
                    &&& forall|w2: nat, lane2: nat|
                        w2 < 10000 && lane2 < 1000 && w2 * 1000 + lane2 < w * 1000 + lane
                            ==> !#[trigger] old(self).template_hit(
                            msg.0@,
                            center_word_index(old(self).message.residual_len()),
                            lane_word_index(old(self).message.residual_len()),
                            mask,
                            w2,
                            lane2,
                        )
                },
                None => forall|w2: nat, lane2: nat|
                    w2 < 10000 && lane2 < 1000 ==> !#[trigger] old(self).template_hit(
                        msg.0@,
                        center_word_index(old(self).message.residual_len()),
                        lane_word_index(old(self).message.residual_len()),
                        mask,
                        w2,
                        lane2,
                    ),
            },
    {
        // the message invariant bounds the center word index by 14
        match center_word_idx {
            1 => {
                if position_mod < 2 {
                    self.solve_impl::<1, 0, 0, P>(msg, lane_ids, mask, progress)
                } else {
                    self.solve_impl::<1, 2, 1, P>(msg, lane_ids, mask, progress)
                }
            },
            2 => {
                if position_mod < 2 {
                    self.solve_impl::<2, 1, 1, P>(msg, lane_ids, mask, progress)
                } else {
                    self.solve_impl::<2, 3, 2, P>(msg, lane_ids, mask, progress)
                }
            },
            3 => {
                if position_mod < 2 {
                    self.solve_impl::<3, 2, 2, P>(msg, lane_ids, mask, progress)
                } else {
                    self.solve_impl::<3, 4, 3, P>(msg, lane_ids, mask, progress)
                }
            },
            4 => {
                if position_mod < 2 {
                    self.solve_impl::<4, 3, 3, P>(msg, lane_ids, mask, progress)
                } else {
                    self.solve_impl::<4, 5, 4, P>(msg, lane_ids, mask, progress)
                }
            },
            5 => {
                if position_mod < 2 {
                    self.solve_impl::<5, 4, 4, P>(msg, lane_ids, mask, progress)
                } else {
                    self.solve_impl::<5, 6, 5, P>(msg, lane_ids, mask, progress)
                }
            },
            6 => {
                if position_mod < 2 {
                    self.solve_impl::<6, 5, 5, P>(msg, lane_ids, mask, progress)
                } else {
                    self.solve_impl::<6, 7, 6, P>(msg, lane_ids, mask, progress)
                }
            },
            7 => {
                if position_mod < 2 {
                    self.solve_impl::<7, 6, 6, P>(msg, lane_ids, mask, progress)
                } else {
                    self.solve_impl::<7, 8, 7, P>(msg, lane_ids, mask, progress)
                }
            },
            8 => {
                if position_mod < 2 {
                    self.solve_impl::<8, 7, 7, P>(msg, lane_ids, mask, progress)
                } else {
                    self.solve_impl::<8, 9, 8, P>(msg, lane_ids, mask, progress)
                }
            },
            9 => {
                if position_mod < 2 {
                    self.solve_impl::<9, 8, 8, P>(msg, lane_ids, mask, progress)
                } else {
                    self.solve_impl::<9, 10, 9, P>(msg, lane_ids, mask, progress)
                }
            },
            10 => {
                if position_mod < 2 {
                    self.solve_impl::<10, 9, 9, P>(msg, lane_ids, mask, progress)
                } else {
                    self.solve_impl::<10, 11, 10, P>(msg, lane_ids, mask, progress)
                }
            },
            11 => {
                if position_mod < 2 {
                    self.solve_impl::<11, 10, 10, P>(msg, lane_ids, mask, progress)
                } else {
                    self.solve_impl::<11, 12, 11, P>(msg, lane_ids, mask, progress)
                }
            },
            12 => {
                if position_mod < 2 {
                    self.solve_impl::<12, 11, 11, P>(msg, lane_ids, mask, progress)
                } else {
                    self.solve_impl::<12, 13, 12, P>(msg, lane_ids, mask, progress)
                }
            },
            13 => {
                if position_mod < 2 {
                    self.solve_impl::<13, 12, 12, P>(msg, lane_ids, mask, progress)
                } else {
                    self.solve_impl::<13, 14, 13, P>(msg, lane_ids, mask, progress)
                }
            },
            _ => {
                if position_mod < 2 {
                    self.solve_impl::<14, 13, 13, P>(msg, lane_ids, mask, progress)
                } else {
                    self.solve_impl::<14, 15, 14, P>(msg, lane_ids, mask, progress)
                }
            },
        }
    }
}

/// The value of the nine search digits of a success: the nonce before the
/// addend is applied.
pub fn recompose_nonce(
    position_mod: usize,
    resid0: u32,
    resid1: u32,
    middle_word: u32,
    success_lane_idx: u32,
) -> (output_nonce: u32)
    requires
        position_mod < 4,
        resid0 < 10,
        resid1 < 10,
        middle_word < 10000,
        success_lane_idx < 1000,
    ensures
        output_nonce == candidate_index(
            position_mod as nat,
            resid0 as nat,
            resid1 as nat,
            middle_word as nat,
            success_lane_idx as nat,
        ),
        output_nonce < 1_000_000_000,
{
    if position_mod == 0 {
        10 * middle_word + 100_000 * success_lane_idx + 100_000_000 * resid0 + resid1
    } else if position_mod == 1 {
        100 * middle_word + 1_000_000 * success_lane_idx + 10 * resid0 + resid1
    } else if position_mod == 2 {
        1000 * middle_word + success_lane_idx + 100_000_000 * resid0 + 10_000_000 * resid1
    } else {
        10000 * middle_word + 10 * success_lane_idx + 100_000_000 * resid0 + resid1
    }
}

impl CerberusSolver {
    /// The words of the prepared block with the two outer digits set.
    fn outer_template(&self, resid0: u32, resid1: u32) -> (msg: Align64<[u32; 16]>)
        requires
            self.message.wf(),
            resid0 < 10,
            resid1 < 10,
        ensures
            msg.0@ == words_of(
                outer_block(
                    self.message.residual(),
                    self.message.residual_len(),
                    resid0 as nat,
                    resid1 as nat,
                ),
            ),
    {
        let len = self.message.salt_residual_len();
        let position_mod = len % 4;
        let mut msg = *self.message.salt_residual();

        if position_mod == 0 {
            msg[len] = resid0 as u8 + 48;
            msg[len + 8] = resid1 as u8 + 48;
        } else if position_mod == 1 {
            msg[len + 7] = resid0 as u8 + 48;
            msg[len + 8] = resid1 as u8 + 48;
        } else if position_mod == 2 {
            msg[len] = resid0 as u8 + 48;
            msg[len + 1] = resid1 as u8 + 48;
        } else {
            msg[len] = resid0 as u8 + 48;
            msg[len + 8] = resid1 as u8 + 48;
        }
        assert(msg@ == outer_block(
            self.message.residual(),
            len as nat,
            resid0 as nat,
            resid1 as nat,
        ));
        Align64(words_from_le_bytes(&msg))
    }

    /// The nonce of the candidate whose search digits spell `output_nonce`,
    /// and all eight words of its hash.
    fn finish(&self, output_nonce: u32) -> (res: (u64, [u32; 8]))
        requires
            self.message.wf(),
            output_nonce < 1_000_000_000,
        ensures
            res.0 == self.message.addend() + output_nonce,
            res.1@ == self.message.digest(output_nonce as nat),
    {
        let len = self.message.salt_residual_len();
        let nonce = output_nonce as u64 + self.message.nonce_addend();
        let ghost idx = output_nonce as nat;

        let mut msg = *self.message.salt_residual();
        write_search_digits(&mut msg, len, nonce);
        proof {
            lemma_pow10_values();
            lemma_fixed_digits_mod(nonce as nat, 9);
            lemma_fixed_digits_len(idx, 9);
            assert(nonce as nat % 1_000_000_000 == idx);
            assert(msg@ =~= self.message.candidate_block(idx)) by {
                assert forall|j: int| 0 <= j < 64 implies msg@[j] == self.message.candidate_block(
                    idx,
                )[j] by {
                    if len <= j < len + 9 {
                        assert(msg@.subrange(len as int, len + 9)[j - len] == msg@[j]);
                    }
                }
            }
        }
        let msg = words_from_le_bytes(&msg);
        let hash = compress8(
            self.message.prefix_state(),
            &msg,
            0,
            len as u32 + 9,
            self.message.flags(),
        );
        (nonce, hash)
    }

    /// Searches the candidates with the given outer digits.
    fn search_template<P: FnMut(u32)>(
        &mut self,
        resid0: u32,
        resid1: u32,
        lane_ids: &[u32; 1000],
        mask: u32,
        progress: &mut P,
    ) -> (res: Option<(u32, u32)>)
        requires
            old(self).message.wf(),
            resid0 < 10,
            resid1 < 10,
            forall|i: int| 0 <= i < 1000 ==> lane_ids@[i] == lane_id_entry(i as nat),
            call_requires(*old(progress), (Self::REPORT_PERIOD,)),
        ensures
            *final(self) == *old(self),
            call_requires(*final(progress), (Self::REPORT_PERIOD,)),
            match res {
                Some((w, lane)) => {
                    &&& w < 10000
                    &&& lane < 1000
                    &&& old(self).message.hits(
                        mask,
                        candidate_index(
                            old(self).message.residual_len() % 4,
                            resid0 as nat,
                            resid1 as nat,
                            w as nat,
                            lane as nat,
                        ),
                    )
                    &&& forall|w2: nat, lane2: nat|
                        w2 < 10000 && lane2 < 1000 && w2 * 1000 + lane2 < w * 1000 + lane
                            ==> !old(self).message.hits(
                            mask,
                            #[trigger] candidate_index(
                                old(self).message.residual_len() % 4,
                                resid0 as nat,
                                resid1 as nat,
                                w2,
                                lane2,
                            ),
                        )
                },
                None => forall|w2: nat, lane2: nat|
                    w2 < 10000 && lane2 < 1000 ==> !old(self).message.hits(
                        mask,
                        #[trigger] candidate_index(
                            old(self).message.residual_len() % 4,
                            resid0 as nat,
                            resid1 as nat,
                            w2,
                            lane2,
                        ),
                    ),
            },
    {
        let len = self.message.salt_residual_len();
        let center_word_idx = len / 4 + 1;
        let position_mod = len % 4;
        let msg = self.outer_template(resid0, resid1);
        proof {
            lemma_template_is_candidate(self.message, resid0 as nat, resid1 as nat, 0, 0);
        }
        let found = self.dispatch(center_word_idx, position_mod, msg, lane_ids, mask, progress);
        proof {
            assert forall|w: nat, lane: nat| w < 10000 && lane < 1000 implies (self.template_hit(
                msg.0@,
                center_word_index(len as nat),
                lane_word_index(len as nat),
                mask,
                w,
                lane,
            ) <==> self.message.hits(
                mask,
                #[trigger] candidate_index(
                    (len % 4) as nat,
                    resid0 as nat,
                    resid1 as nat,
                    w,
                    lane,
                ),
            )) by {
                self.lemma_template_hit_is_hit(mask, resid0 as nat, resid1 as nat, w, lane);
            }
        }
        found
    }
}

impl From<CerberusMessage> for CerberusSolver {
    fn from(message: CerberusMessage) -> (solver: Self)
        ensures
            solver.message() == message,
            solver.report_slot() == 0,
    {
        Self { message, report_slot: 0 }
    }
}

impl FromSpecImpl<CerberusMessage> for CerberusSolver {
    open spec fn obeys_from_spec() -> bool {
        true
    }

    closed spec fn from_spec(message: CerberusMessage) -> Self {
        Self { message, report_slot: 0 }
    }
}

impl Solver for CerberusSolver {
    closed spec fn message(&self) -> CerberusMessage {
        self.message
    }

    open spec fn slot_period(&self) -> nat {
        64
    }

    closed spec fn report_slot(&self) -> nat {
        self.report_slot as nat
    }

    open spec fn report_period(&self) -> u32 {
        Self::REPORT_PERIOD
    }

    fn set_report_slot(&mut self, tid: u32, threads: u32) {
        let slot = tid as u64 * Self::OUTER_LOOP_PERIOD as u64 / threads as u64;
        assert(slot < 64) by (nonlinear_arith)
            requires
                slot == (tid * 64) / (threads as int),
                tid < threads,
        ;
        self.report_slot = slot as u32;
    }

    /// Tries the candidates in the order of their outer digits, then of the
    /// center-word value, then of the lane value, and returns the first one
    /// that meets the mask.
    fn solve<P: FnMut(u32)>(&mut self, mask: u32, progress: P) -> (res: Option<(u64, [u32; 8])>)
        ensures
            res matches Some((nonce, hash)) ==> forall|idx: nat|
                idx < search_space() && search_rank(
                    old(self).message().residual_len() % 4,
                    idx,
                ) < search_rank(
                    old(self).message().residual_len() % 4,
                    (nonce - old(self).message().addend()) as nat,
                ) ==> !old(self).message().hits(mask, idx),
    {
        // two digits as lane ID, N=\x00, ? is prefix
        // position % 4 =0: |1234|5678|NNN9
        // position % 4 =1: |123?|4567|NN89
        // position % 4 =2: |12??|3456|N789
        // position % 4 =3: |1???|2345|6789
        let mut progress = progress;
        let lane_ids = lane_id_table();
        let position_mod = self.message.salt_residual_len() % 4;
        let ghost message = self.message;
        let ghost pm = message.residual_len() % 4;

        let mut resid0: u32 = 0;
        while resid0 < 10
            invariant
                resid0 <= 10,
                *self == *old(self),
                message == self.message,
                message.wf(),
                position_mod == pm,
                pm == message.residual_len() % 4,
                progress.requires((Self::REPORT_PERIOD,)),
                forall|i: int| 0 <= i < 1000 ==> lane_ids@[i] == lane_id_entry(i as nat),
                forall|r0: nat, r1: nat, w: nat, lane: nat|
                    r0 < resid0 && r1 < 10 && w < 10000 && lane < 1000 ==> !message.hits(
                        mask,
                        #[trigger] candidate_index(pm, r0, r1, w, lane),
                    ),
            decreases 10 - resid0,
        {
            let mut resid1: u32 = 0;
            while resid1 < 10
                invariant
                    resid0 < 10,
                    resid1 <= 10,
                    *self == *old(self),
                    message == self.message,
                    message.wf(),
                    position_mod == pm,
                    pm == message.residual_len() % 4,
                    progress.requires((Self::REPORT_PERIOD,)),
                    forall|i: int| 0 <= i < 1000 ==> lane_ids@[i] == lane_id_entry(i as nat),
                    forall|r0: nat, r1: nat, w: nat, lane: nat|
                        r0 < resid0 && r1 < 10 && w < 10000 && lane < 1000 ==> !message.hits(
                            mask,
                            #[trigger] candidate_index(pm, r0, r1, w, lane),
                        ),
                    forall|r1: nat, w: nat, lane: nat|
                        r1 < resid1 && w < 10000 && lane < 1000 ==> !message.hits(
                            mask,
                            #[trigger] candidate_index(pm, resid0 as nat, r1, w, lane),
                        ),
                decreases 10 - resid1,
            {
                let found = self.search_template(resid0, resid1, &lane_ids, mask, &mut progress);
                if let Some((middle_word, success_lane_idx)) = found {
                    let output_nonce = recompose_nonce(
                        position_mod,
                        resid0,
                        resid1,
                        middle_word,
                        success_lane_idx,
                    );
                    let solution = self.finish(output_nonce);
                    proof {
                        assert(none_before(
                            message,
                            mask,
                            resid0 as nat,
                            resid1 as nat,
                            middle_word as nat,
                            success_lane_idx as nat,
                        )) by {
                            assert forall|r0: nat, r1: nat, w2: nat, lane2: nat|
                                r0 < 10 && r1 < 10 && w2 < 10000 && lane2 < 1000 && tuple_rank(
                                    r0,
                                    r1,
                                    w2,
                                    lane2,
                                ) < tuple_rank(
                                    resid0 as nat,
                                    resid1 as nat,
                                    middle_word as nat,
                                    success_lane_idx as nat,
                                ) implies !message.hits(
                                mask,
                                #[trigger] candidate_index(pm, r0, r1, w2, lane2),
                            ) by {
                                if r0 == resid0 && r1 == resid1 {
                                    assert(w2 * 1000 + lane2 < middle_word * 1000
                                        + success_lane_idx);
                                } else if r0 == resid0 {
                                    assert(r1 < resid1);
                                } else {
                                    assert(r0 < resid0);
                                }
                            }
                        }
                        lemma_none_before_by_rank(
                            message,
                            mask,
                            resid0 as nat,
                            resid1 as nat,
                            middle_word as nat,
                            success_lane_idx as nat,
                        );
                        lemma_solution_is_valid_for_all(message, mask, solution.0, solution.1@);
                    }
                    return Some(solution);
                }
                resid1 += 1;
            }
            resid0 += 1;
        }
        proof {
            lemma_none_at_all(message, mask);
        }
        None
    }
}

} // verus!