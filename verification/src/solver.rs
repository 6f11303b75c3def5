//! Nonce search over a prepared message.
use crate::blake3::hash::hash_words;
use crate::decimal::ascii_decimal;
use crate::message::CerberusMessage;
use vstd::prelude::*;

pub mod layout;
pub mod scalar;
pub mod simd128;

verus! {

/// Number of candidates that one search covers: all values of the nine
/// search digits.
pub open spec fn search_space() -> nat {
    1_000_000_000
}

/// Whether `(nonce, hash)` is a solution of `message` under `mask`: the nonce
/// lies in the message's search range, `hash` is the hash of its candidate,
/// and the first hash word meets the mask.
pub open spec fn is_solution(
    message: CerberusMessage,
    mask: u32,
    nonce: u64,
    hash: Seq<u32>,
) -> bool {
    &&& message.addend() <= nonce < message.addend() + search_space()
    &&& hash == message.digest((nonce - message.addend()) as nat)
    &&& message.hits(mask, (nonce - message.addend()) as nat)
}

/// Whether `hash` is the BLAKE3 hash of `salt` followed by the decimal
/// notation of `nonce`, and its first word meets the mask.
pub open spec fn is_proof(salt: Seq<u8>, mask: u32, nonce: u64, hash: Seq<u32>) -> bool {
    &&& hash == hash_words(salt + ascii_decimal(nonce as nat))
    &&& hash[0] & mask == 0
    &&& (salt + ascii_decimal(nonce as nat)).len() <= 1024
}

/// A generic solver trait
pub trait Solver {
    /// The message that is searched.
    spec fn message(&self) -> CerberusMessage;

    /// Number of progress slots that the workers share out among themselves.
    spec fn slot_period(&self) -> nat;

    /// The slot at which this solver reports progress.
    spec fn report_slot(&self) -> nat;

    /// Number of attempts that one progress report stands for.
    spec fn report_period(&self) -> u32;

    /// Perform precomputation and set the time slot for reporting progress.
    ///
    /// Worker `tid` of `threads` reports at slot `tid * period / threads`.
    fn set_report_slot(&mut self, tid: u32, threads: u32)
        requires
            tid < threads,
        ensures
            final(self).message() == old(self).message(),
            final(self).slot_period() == old(self).slot_period(),
            final(self).report_period() == old(self).report_period(),
            final(self).report_slot() == (tid * old(self).slot_period()) / (threads as int),
    ;

    /// Returns a valid nonce and its corresponding hash value.
    ///
    /// Returns None when the solver cannot solve the prefix.
    ///
    /// Progress report callback is periodically called with the number of _additional_
    /// attempts made since the last report. It is never called with anything but
    /// `report_period`.
    ///
    /// Failure means that the key space is exhausted: no candidate of the
    /// message meets the mask.
    fn solve<P: FnMut(u32)>(&mut self, mask: u32, progress: P) -> (res: Option<(u64, [u32; 8])>)
        requires
            old(self).message().wf(),
            progress.requires((old(self).report_period(),)),
        ensures
            final(self).message() == old(self).message(),
            final(self).slot_period() == old(self).slot_period(),
            final(self).report_period() == old(self).report_period(),
            final(self).report_slot() == old(self).report_slot(),
            match res {
                Some((nonce, hash)) => is_solution(old(self).message(), mask, nonce, hash@),
                None => forall|idx: nat|
                    idx < search_space() ==> !old(self).message().hits(mask, idx),
            },
            res matches Some((nonce, hash)) ==> forall|salt: Seq<u8>| #[trigger]
                old(self).message().commits_to(salt) ==> is_proof(salt, mask, nonce, hash@),
    ;
}

/// A solution is a nonce whose decimal notation, appended to the prefix that
/// the message stands for, hashes to the reported words, the first of which
/// meets the mask.
pub proof fn lemma_solution_is_valid(
    message: CerberusMessage,
    salt: Seq<u8>,
    mask: u32,
    nonce: u64,
    hash: Seq<u32>,
)
    requires
        message.wf(),
        message.commits_to(salt),
        is_solution(message, mask, nonce, hash),
    ensures
        is_proof(salt, mask, nonce, hash),
{
    crate::message::lemma_digest_is_hash(message, salt, (nonce - message.addend()) as nat);
}

/// A solution is a proof for every prefix that its message stands for.
pub proof fn lemma_solution_is_valid_for_all(
    message: CerberusMessage,
    mask: u32,
    nonce: u64,
    hash: Seq<u32>,
)
    requires
        message.wf(),
        is_solution(message, mask, nonce, hash),
    ensures
        forall|salt: Seq<u8>| #[trigger]
            message.commits_to(salt) ==> is_proof(salt, mask, nonce, hash),
{
    assert forall|salt: Seq<u8>| #[trigger] message.commits_to(salt) implies is_proof(
        salt,
        mask,
        nonce,
        hash,
    ) by {
        lemma_solution_is_valid(message, salt, mask, nonce, hash);
    }
}

} // verus!
