//! One candidate per compression.
use crate::blake3::compress8;
use crate::blake3::hash::words_from_le_bytes;
use crate::decimal::{lemma_fixed_digits_len, lemma_fixed_digits_mod, lemma_pow10_values};
use crate::message::{write_search_digits, CerberusMessage};
use crate::solver::{lemma_solution_is_valid_for_all, search_space, Solver};
use vstd::prelude::*;
use vstd::std_specs::convert::FromSpecImpl;

verus! {

/// Scalar fallback solver.
pub struct CerberusSolver {
    message: CerberusMessage,
    attempted_nonces: u32,
    report_slot: u32,
}

impl CerberusSolver {
    /// Number of attempts between two progress reports.
    pub const REPORT_PERIOD: u32 = 16384;

    /// Number of attempts made so far, counted modulo `2^32`.
    pub closed spec fn attempts(&self) -> nat {
        self.attempted_nonces as nat
    }
}

impl From<CerberusMessage> for CerberusSolver {
    fn from(message: CerberusMessage) -> (solver: Self)
        ensures
            solver.message() == message,
            solver.report_slot() == 0,
            solver.attempts() == 0,
    {
        Self { message, attempted_nonces: 0, report_slot: 0 }
    }
}

impl FromSpecImpl<CerberusMessage> for CerberusSolver {
    open spec fn obeys_from_spec() -> bool {
        true
    }

    closed spec fn from_spec(message: CerberusMessage) -> Self {
        Self { message, attempted_nonces: 0, report_slot: 0 }
    }
}

impl Solver for CerberusSolver {
    closed spec fn message(&self) -> CerberusMessage {
        self.message
    }

    open spec fn slot_period(&self) -> nat {
        16384
    }

    closed spec fn report_slot(&self) -> nat {
        self.report_slot as nat
    }

    open spec fn report_period(&self) -> u32 {
        Self::REPORT_PERIOD
    }

    fn set_report_slot(&mut self, tid: u32, threads: u32)
        ensures
            final(self).attempts() == old(self).attempts(),
    {
        let slot = tid as u64 * Self::REPORT_PERIOD as u64 / threads as u64;
        assert(slot < 16384) by (nonlinear_arith)
            requires
                slot == (tid * 16384) / (threads as int),
                tid < threads,
        ;
        self.report_slot = slot as u32;
    }

    /// Tries the candidates in ascending order and returns the first one that
    /// meets the mask. Every candidate tried counts as an attempt; without a
    /// hit the search ends after `2^32 - 1` attempts.
    fn solve<P: FnMut(u32)>(&mut self, mask: u32, progress: P) -> (res: Option<(u64, [u32; 8])>)
        ensures
            res matches Some((nonce, hash)) ==> forall|idx: nat|
                idx < nonce - old(self).message().addend() ==> !old(self).message().hits(mask, idx),
            final(self).attempts() == (old(self).attempts() + match res {
                Some((nonce, hash)) => nonce - old(self).message().addend() + 1,
                None => u32::MAX as int,
            }) % 0x1_0000_0000,
    {
        let mut progress = progress;
        let mut block = *self.message.salt_residual();
        let len = self.message.salt_residual_len();
        let ghost message = self.message;
        proof {
            lemma_pow10_values();
        }
        let mut nonce: u32 = 0;
        while nonce < u32::MAX
            invariant
                self.message == message,
                message == old(self).message,
                self.report_slot == old(self).report_slot,
                self.attempted_nonces == (old(self).attempted_nonces + nonce) % 0x1_0000_0000,
                message.wf(),
                len == message.residual_len(),
                progress.requires((Self::REPORT_PERIOD,)),
                forall|j: int|
                    0 <= j < 64 && !(len <= j < len + 9) ==> block@[j] == message.residual()[j],
                forall|idx: nat| idx < nonce && idx < search_space() ==> !message.hits(mask, idx),
            decreases u32::MAX - nonce,
        {
            write_search_digits(&mut block, len, nonce as u64);
            let ghost idx = (nonce as nat) % search_space();
            proof {
                lemma_pow10_values();
                lemma_fixed_digits_mod(nonce as nat, 9);
                lemma_fixed_digits_len(idx, 9);
                assert(block@ =~= message.candidate_block(idx)) by {
                    assert forall|j: int| 0 <= j < 64 implies block@[j] == message.candidate_block(
                        idx,
                    )[j] by {
                        if len <= j < len + 9 {
                            assert(block@.subrange(len as int, len + 9)[j - len] == block@[j]);
                        }
                    }
                }
            }
            let msg = words_from_le_bytes(&block);
            let hash = compress8(
                self.message.prefix_state(),
                &msg,
                0,
                len as u32 + 9,
                self.message.flags(),
            );
            self.attempted_nonces = self.attempted_nonces.wrapping_add(1);
            if self.attempted_nonces % Self::REPORT_PERIOD == self.report_slot {
                progress(Self::REPORT_PERIOD);
            }
            if hash[0] & mask == 0 {
                proof {
                    assert(hash@ == message.digest(idx));
                    assert(message.hits(mask, idx));
                    // a hit beyond the ninth digit would repeat an earlier one
                    assert(idx == nonce);
                    lemma_solution_is_valid_for_all(
                        message,
                        mask,
                        (nonce + message.addend()) as u64,
                        hash@,
                    );
                }
                return Some((nonce as u64 + self.message.nonce_addend(), hash));
            }
            nonce += 1;
        }
        None
    }
}

} // verus!
