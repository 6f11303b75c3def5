//! The working set of a search: the leading digits of its nonces.
//!
//! A working set is a 32-bit index. Its digits are written in front of the
//! nine search digits, so that every working set stands for a range of
//! `10^9` nonces of its own. The head digit is never zero, and the digits
//! behind it are taken from the low end of what is left of the index.
use crate::decimal::{ascii_decimal, lemma_ascii_decimal_injective, lemma_pow10_positive, pow10};
use vstd::arithmetic::div_mod::{lemma_fundamental_div_mod, lemma_mod_breakdown};
use vstd::prelude::*;

verus! {

/// The number that results from writing the decimal digits of `w`, least
/// significant first, after the digits of `acc`, until nothing of `w` is left.
pub open spec fn append_greedy(acc: nat, w: nat) -> nat
    decreases w,
{
    if w == 0 {
        acc
    } else {
        append_greedy(acc * 10 + w % 10, w / 10)
    }
}

/// Number of digits that `append_greedy` writes for `w`.
pub open spec fn greedy_count(w: nat) -> nat
    decreases w,
{
    if w == 0 {
        0
    } else {
        1 + greedy_count(w / 10)
    }
}

/// The number that results from writing the `k` lowest decimal digits of `w`,
/// least significant first, after the digits of `acc`.
pub open spec fn append_fixed(acc: nat, w: nat, k: nat) -> nat
    decreases k,
{
    if k == 0 {
        acc
    } else {
        append_fixed(acc * 10 + w % 10, w / 10, (k - 1) as nat)
    }
}

/// Whether a residue of `r` bytes leaves too little room for the nine search
/// digits, so that the block is first filled up with digits and absorbed.
pub open spec fn overflows(r: nat) -> bool {
    r >= 55
}

/// What is left of the working set once an overflowing block has been filled.
pub open spec fn after_fill(r: nat, ws: nat) -> nat {
    (ws / 8) / pow10((63 - r) as nat)
}

/// The number whose digits the builder places in front of the search digits
/// for a prefix residue of `r` bytes and working set `ws`.
pub open spec fn placed_value(r: nat, ws: nat) -> nat {
    if overflows(r) {
        let filled = append_fixed(ws % 8 + 1, ws / 8, (63 - r) as nat);
        let rest = after_fill(r, ws);
        append_greedy(filled * 10 + rest % 9 + 1, rest / 9)
    } else {
        append_greedy(ws % 9 + 1, ws / 9)
    }
}

/// Number of bytes that precede the search digits in the final block.
pub open spec fn placed_len(r: nat, ws: nat) -> nat {
    if overflows(r) {
        1 + greedy_count(after_fill(r, ws) / 9)
    } else {
        r + 1 + greedy_count(ws / 9)
    }
}

/// Whether the nine search digits fit in the final block behind the placed
/// digits.
pub open spec fn has_room(r: nat, ws: nat) -> bool {
    placed_len(r, ws) + 9 <= 64
}

/// Appending digits never lowers the number.
proof fn lemma_append_greedy_grows(acc: nat, w: nat)
    ensures
        append_greedy(acc, w) >= acc,
        w > 0 ==> append_greedy(acc, w) >= acc * 10,
    decreases w,
{
    if w > 0 {
        lemma_append_greedy_grows(acc * 10 + w % 10, w / 10);
    }
}

/// Two runs of `append_greedy` that start from numbers of the same length
/// and end in the same number started from the same number and wrote the
/// same digits.
proof fn lemma_append_greedy_injective(acc1: nat, w1: nat, acc2: nat, w2: nat, lo: nat)
    requires
        lo >= 1,
        lo <= acc1 < 10 * lo,
        lo <= acc2 < 10 * lo,
        append_greedy(acc1, w1) == append_greedy(acc2, w2),
    ensures
        acc1 == acc2,
        w1 == w2,
    decreases w1,
{
    lemma_append_greedy_grows(acc1, w1);
    lemma_append_greedy_grows(acc2, w2);
    if w1 > 0 && w2 > 0 {
        lemma_append_greedy_injective(
            acc1 * 10 + w1 % 10,
            w1 / 10,
            acc2 * 10 + w2 % 10,
            w2 / 10,
            lo * 10,
        );
    }
}

/// `append_fixed` writes exactly `k` digits.
proof fn lemma_append_fixed_range(acc: nat, w: nat, k: nat, lo: nat)
    requires
        lo <= acc < 10 * lo,
    ensures
        lo * pow10(k) <= append_fixed(acc, w, k) < 10 * lo * pow10(k),
    decreases k,
{
    if k > 0 {
        lemma_append_fixed_range(acc * 10 + w % 10, w / 10, (k - 1) as nat, lo * 10);
        assert(lo * 10 * pow10((k - 1) as nat) == lo * pow10(k)) by (nonlinear_arith)
            requires
                pow10(k) == 10 * pow10((k - 1) as nat),
        ;
        assert(10 * (lo * 10) * pow10((k - 1) as nat) == 10 * lo * pow10(k)) by (nonlinear_arith)
            requires
                pow10(k) == 10 * pow10((k - 1) as nat),
        ;
    } else {
        assert(lo * pow10(0) == lo && 10 * lo * pow10(0) == 10 * lo) by (nonlinear_arith)
            requires
                pow10(0) == 1,
        ;
    }
}

/// Two runs of `append_fixed` over `k` digits that start from numbers of the
/// same length and end in the same number started from the same number and
/// wrote the same digits.
proof fn lemma_append_fixed_injective(acc1: nat, w1: nat, acc2: nat, w2: nat, k: nat, lo: nat)
    requires
        lo >= 1,
        lo <= acc1 < 10 * lo,
        lo <= acc2 < 10 * lo,
        append_fixed(acc1, w1, k) == append_fixed(acc2, w2, k),
    ensures
        acc1 == acc2,
        w1 % pow10(k) == w2 % pow10(k),
    decreases k,
{
    if k > 0 {
        let p = pow10((k - 1) as nat);
        lemma_pow10_positive((k - 1) as nat);
        lemma_append_fixed_injective(
            acc1 * 10 + w1 % 10,
            w1 / 10,
            acc2 * 10 + w2 % 10,
            w2 / 10,
            (k - 1) as nat,
            lo * 10,
        );
        lemma_mod_breakdown(w1 as int, 10, p as int);
        lemma_mod_breakdown(w2 as int, 10, p as int);
    }
}

/// Different working sets place different numbers in front of the search
/// digits.
pub proof fn lemma_placed_value_injective(r: nat, ws1: nat, ws2: nat)
    requires
        r < 64,
        placed_value(r, ws1) == placed_value(r, ws2),
    ensures
        ws1 == ws2,
{
    if overflows(r) {
        let k = (63 - r) as nat;
        let p = pow10(k);
        lemma_pow10_positive(k);
        let filled1 = append_fixed(ws1 % 8 + 1, ws1 / 8, k);
        let filled2 = append_fixed(ws2 % 8 + 1, ws2 / 8, k);
        let rest1 = after_fill(r, ws1);
        let rest2 = after_fill(r, ws2);
        lemma_append_fixed_range(ws1 % 8 + 1, ws1 / 8, k, 1);
        lemma_append_fixed_range(ws2 % 8 + 1, ws2 / 8, k, 1);
        assert(1 * p == p && 10 * 1 * p == 10 * p);
        lemma_append_greedy_injective(
            filled1 * 10 + rest1 % 9 + 1,
            rest1 / 9,
            filled2 * 10 + rest2 % 9 + 1,
            rest2 / 9,
            10 * p,
        );
        assert(filled1 == filled2);
        assert(rest1 == rest2);
        lemma_append_fixed_injective(ws1 % 8 + 1, ws1 / 8, ws2 % 8 + 1, ws2 / 8, k, 1);
        lemma_fundamental_div_mod((ws1 / 8) as int, p as int);
        lemma_fundamental_div_mod((ws2 / 8) as int, p as int);
        assert(ws1 / 8 == ws2 / 8);
    } else {
        lemma_append_greedy_injective(ws1 % 9 + 1, ws1 / 9, ws2 % 9 + 1, ws2 / 9, 1);
    }
}

/// Different working sets of one prefix stand for different nonces: their
/// ranges of `10^9` nonces each do not overlap, and neither do the decimal
/// notations of their nonces.
pub proof fn lemma_working_sets_disjoint(r: nat, ws1: nat, ws2: nat, idx1: nat, idx2: nat)
    requires
        r < 64,
        ws1 != ws2,
        idx1 < 1_000_000_000,
        idx2 < 1_000_000_000,
    ensures
        placed_value(r, ws1) * 1_000_000_000 + idx1 != placed_value(r, ws2) * 1_000_000_000 + idx2,
        ascii_decimal(placed_value(r, ws1) * 1_000_000_000 + idx1) != ascii_decimal(
            placed_value(r, ws2) * 1_000_000_000 + idx2,
        ),
{
    let a = placed_value(r, ws1);
    let b = placed_value(r, ws2);
    if a == b {
        lemma_placed_value_injective(r, ws1, ws2);
    }
    if a * 1_000_000_000 + idx1 == b * 1_000_000_000 + idx2 {
        assert(a == b) by (nonlinear_arith)
            requires
                a * 1_000_000_000 + idx1 == b * 1_000_000_000 + idx2,
                idx1 < 1_000_000_000,
                idx2 < 1_000_000_000,
        ;
    }
    if ascii_decimal(a * 1_000_000_000 + idx1) == ascii_decimal(b * 1_000_000_000 + idx2) {
        lemma_ascii_decimal_injective(a * 1_000_000_000 + idx1, b * 1_000_000_000 + idx2);
    }
}

} // verus!
