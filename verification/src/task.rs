//! The search of one worker over its working sets.
//!
//! Worker `thread_id` of `threads` starts with working set `thread_id` and
//! moves on by `threads` whenever a working set holds no solution. Different
//! working sets stand for different leading nonce digits, so the workers
//! never try the same nonce.
use crate::blake3::hash::hash_words;
use crate::decimal::ascii_decimal;
use crate::message::{lemma_digest_is_hash, CerberusMessage, MAX_PREFIX_LEN};
use crate::solver::layout::search_rank;
use crate::solver::{is_proof, search_space, Solver};
use crate::working_set::{has_room, lemma_working_sets_disjoint, placed_len, placed_value};
use crate::CerberusSolver;
use vstd::prelude::*;

verus! {

/// Whether a message can be built for a prefix of `salt_len` bytes and
/// working set `ws`.
pub open spec fn builds(salt_len: nat, ws: nat) -> bool {
    salt_len <= MAX_PREFIX_LEN && has_room(salt_len % 64, ws)
}

/// The lowest nonce of working set `ws`.
pub open spec fn nonce_base(salt_len: nat, ws: nat) -> nat {
    placed_value(salt_len % 64, ws) * 1_000_000_000
}

/// Whether the hash of `salt` followed by the decimal notation of `nonce`
/// meets the mask.
pub open spec fn nonce_hits(salt: Seq<u8>, mask: u32, nonce: nat) -> bool {
    hash_words(salt + ascii_decimal(nonce))[0] & mask == 0
}

/// Whether candidate `idx` of working set `ws` meets the mask.
pub open spec fn candidate_hits(salt: Seq<u8>, mask: u32, ws: nat, idx: nat) -> bool {
    nonce_hits(salt, mask, nonce_base(salt.len(), ws) + idx)
}

/// Whether no nonce of working set `ws` meets the mask.
pub open spec fn barren(salt: Seq<u8>, mask: u32, ws: nat) -> bool {
    forall|idx: nat| idx < search_space() ==> !#[trigger] candidate_hits(salt, mask, ws, idx)
}

/// The working set of a worker in its turn `turn`.
pub open spec fn working_set(thread_id: nat, threads: nat, turn: nat) -> nat {
    thread_id + turn * threads
}

/// Whether the worker gets as far as turn `turn`: all its working sets up to
/// that turn fit in 32 bits and can be built.
pub open spec fn reaches(salt_len: nat, thread_id: nat, threads: nat, turn: nat) -> bool {
    forall|t: nat|
        t <= turn ==> #[trigger] working_set(thread_id, threads, t) <= u32::MAX && builds(
            salt_len,
            working_set(thread_id, threads, t),
        )
}

/// Whether `nonce` is what the worker finds in turn `turn`: the earlier
/// working sets hold no solution, and `nonce` is the first of this working
/// set, in the order of the search, that meets the mask.
pub open spec fn found_in_turn(
    salt: Seq<u8>,
    mask: u32,
    thread_id: nat,
    threads: nat,
    turn: nat,
    nonce: nat,
) -> bool {
    let ws = working_set(thread_id, threads, turn);
    let base = nonce_base(salt.len(), ws);
    let position_mod = placed_len(salt.len() % 64, ws) % 4;
    &&& reaches(salt.len(), thread_id, threads, turn)
    &&& forall|t: nat|
        t < turn ==> barren(salt, mask, #[trigger] working_set(thread_id, threads, t))
    &&& base <= nonce < base + search_space()
    &&& nonce_hits(salt, mask, nonce)
    &&& forall|idx: nat|
        idx < search_space() && search_rank(position_mod, idx) < search_rank(
            position_mod,
            (nonce - base) as nat,
        ) ==> !#[trigger] candidate_hits(salt, mask, ws, idx)
}

/// A message built for `salt` and working set `ws` decides which candidates
/// of the working set meet the mask.
proof fn lemma_message_decides(message: CerberusMessage, salt: Seq<u8>, mask: u32, ws: nat)
    requires
        message.wf(),
        message.commits_to(salt),
        message.addend() == nonce_base(salt.len(), ws),
    ensures
        forall|idx: nat|
            idx < search_space() ==> (#[trigger] candidate_hits(salt, mask, ws, idx)
                <==> message.hits(mask, idx)),
        forall|idx: nat|
            idx < search_space() ==> #[trigger] message.digest(idx) == hash_words(
                salt + ascii_decimal(message.addend() + idx),
            ),
{
    assert forall|idx: nat| idx < search_space() implies (#[trigger] candidate_hits(
        salt,
        mask,
        ws,
        idx,
    ) <==> message.hits(mask, idx)) by {
        lemma_digest_is_hash(message, salt, idx);
    }
    assert forall|idx: nat| idx < search_space() implies #[trigger] message.digest(idx)
        == hash_words(salt + ascii_decimal(message.addend() + idx)) by {
        lemma_digest_is_hash(message, salt, idx);
    }
}

/// No two workers ever hold the same working set, and a worker never holds
/// one twice.
pub proof fn lemma_working_sets_differ(
    threads: nat,
    thread_id1: nat,
    turn1: nat,
    thread_id2: nat,
    turn2: nat,
)
    requires
        thread_id1 < threads,
        thread_id2 < threads,
        thread_id1 != thread_id2 || turn1 != turn2,
    ensures
        working_set(thread_id1, threads, turn1) != working_set(thread_id2, threads, turn2),
{
    if working_set(thread_id1, threads, turn1) == working_set(thread_id2, threads, turn2) {
        assert(turn1 == turn2 && thread_id1 == thread_id2) by (nonlinear_arith)
            requires
                thread_id1 + turn1 * threads == thread_id2 + turn2 * threads,
                thread_id1 < threads,
                thread_id2 < threads,
        ;
    }
}

/// Workers search disjoint nonces: whatever two different workers try, or one
/// worker in two different turns, differs as a number and in its decimal
/// notation.
pub proof fn lemma_workers_disjoint(
    salt_len: nat,
    threads: nat,
    thread_id1: nat,
    turn1: nat,
    idx1: nat,
    thread_id2: nat,
    turn2: nat,
    idx2: nat,
)
    requires
        thread_id1 < threads,
        thread_id2 < threads,
        thread_id1 != thread_id2 || turn1 != turn2,
        idx1 < search_space(),
        idx2 < search_space(),
    ensures
        nonce_base(salt_len, working_set(thread_id1, threads, turn1)) + idx1 != nonce_base(
            salt_len,
            working_set(thread_id2, threads, turn2),
        ) + idx2,
        ascii_decimal(nonce_base(salt_len, working_set(thread_id1, threads, turn1)) + idx1)
            != ascii_decimal(
            nonce_base(salt_len, working_set(thread_id2, threads, turn2)) + idx2,
        ),
{
    lemma_working_sets_differ(threads, thread_id1, turn1, thread_id2, turn2);
    lemma_working_sets_disjoint(
        salt_len % 64,
        working_set(thread_id1, threads, turn1),
        working_set(thread_id2, threads, turn2),
        idx1,
        idx2,
    );
}

/// Searches the working sets of worker `thread_id` of `threads` for a nonce
/// whose notation, appended to `data`, hashes to a value that meets `mask`.
///
/// Returns the nonce and the eight hash words. Returns `None` when the
/// worker runs out of working sets: when no message can be built for the next
/// one, or when the next one does not fit in 32 bits.
///
/// `progress` is called from time to time with the number of attempts made
/// since it was last called, which is always the report period of the solver.
pub fn solve_task<P: Fn(u32)>(
    data: &[u8],
    mask: u32,
    thread_id: u32,
    threads: u32,
    progress: P,
) -> (res: Option<(u64, [u32; 8])>)
    requires
        thread_id < threads,
        progress.requires((CerberusSolver::REPORT_PERIOD,)),
    ensures
        match res {
            Some((nonce, hash)) => {
                &&& is_proof(data@, mask, nonce, hash@)
                &&& exists|turn: nat|
                    found_in_turn(data@, mask, thread_id as nat, threads as nat, turn, nonce as nat)
            },
            None => forall|turn: nat|
                reaches(data@.len(), thread_id as nat, threads as nat, turn) ==> barren(
                    data@,
                    mask,
                    #[trigger] working_set(thread_id as nat, threads as nat, turn),
                ),
        },
{
    let mut set = thread_id;
    let ghost mut turn: nat = 0;
    let ghost tid = thread_id as nat;
    let ghost n = threads as nat;
    loop
        invariant
            thread_id < threads,
            tid == thread_id,
            n == threads,
            progress.requires((CerberusSolver::REPORT_PERIOD,)),
            set == working_set(tid, n, turn),
            forall|t: nat|
                t < turn ==> #[trigger] working_set(tid, n, t) <= u32::MAX && builds(
                    data@.len(),
                    working_set(tid, n, t),
                ) && barren(data@, mask, working_set(tid, n, t)),
        decreases u32::MAX - set,
    {
        let Some(message) = CerberusMessage::new(data, set) else {
            proof {
                assert forall|other: nat| reaches(data@.len(), tid, n, other) implies barren(
                    data@,
                    mask,
                    #[trigger] working_set(tid, n, other),
                ) by {
                    if other >= turn {
                        assert(builds(data@.len(), working_set(tid, n, turn)));
                    }
                }
            }
            return None;
        };
        proof {
            lemma_message_decides(message, data@, mask, set as nat);
        }
        let mut solver = CerberusSolver::from(message);
        solver.set_report_slot(thread_id, threads);

        let Some((nonce, hash)) = solver.solve(mask, &progress) else {
            assert(barren(data@, mask, set as nat));
            if let Some(new_set) = set.checked_add(threads) {
                proof {
                    assert((turn + 1) * n == turn * n + n) by (nonlinear_arith);
                    turn = turn + 1;
                }
                set = new_set;
                continue;
            } else {
                proof {
                    assert forall|other: nat| reaches(data@.len(), tid, n, other) implies barren(
                        data@,
                        mask,
                        #[trigger] working_set(tid, n, other),
                    ) by {
                        if other > turn {
                            assert(working_set(tid, n, turn + 1) <= u32::MAX);
                            assert((turn + 1) * n == turn * n + n) by (nonlinear_arith);
                        }
                    }
                }
                return None;
            }
        };

        proof {
            let idx = (nonce - message.addend()) as nat;
            assert(message.digest(idx) == hash_words(
                data@ + ascii_decimal(message.addend() + idx),
            ));
            assert(candidate_hits(data@, mask, set as nat, idx));
            assert(reaches(data@.len(), tid, n, turn));
            assert(found_in_turn(data@, mask, tid, n, turn, nonce as nat));
        }
        return Some((nonce, hash));
    }
}

} // verus!
