//! Where the nine search digits stand in the final block, and in which
//! order their values are tried.
//!
//! The place of a digit is counted from the first of the nine, place 0
//! being the most significant. With `position_mod` the residue length
//! modulo four, the digits are laid out as follows (`r` an outer digit, `w` a
//! digit of the center word, `l` a digit of the lane value):
//!
//! ```text
//! position_mod 0:  r lll wwww r
//! position_mod 1:  lll wwww rr
//! position_mod 2:  rr wwww lll
//! position_mod 3:  r wwww lll r
//! ```
use crate::blake3::hash::{le_word, words_of};
use crate::decimal::{
    digit_char, fixed_digits, lemma_fixed_digit_at, lemma_fixed_digits_len, lemma_pow10_values,
};
use crate::message::CerberusMessage;
use crate::solver::search_space;
use vstd::arithmetic::div_mod::lemma_div_denominator;
use vstd::prelude::*;

verus! {

/// Entry `i` of the lane-ID table: the three decimal digits of `i` in the
/// three high bytes, most significant digit lowest, and a zero low byte.
pub open spec fn lane_id_entry(i: nat) -> u32 {
    le_word(
        0u8,
        digit_char((i / 100 % 10) as int),
        digit_char((i / 10 % 10) as int),
        digit_char((i % 10) as int),
    )
}

/// The four lowest decimal digits of `w` as they stand in the center word.
pub open spec fn center_word(w: nat) -> u32 {
    le_word(
        digit_char((w / 1000 % 10) as int),
        digit_char((w / 100 % 10) as int),
        digit_char((w / 10 % 10) as int),
        digit_char((w % 10) as int),
    )
}

/// The bits that lane value `lane` adds to the lane word. Where the lane word
/// follows the center word its digits start in the lowest byte.
pub open spec fn lane_bits(lane: nat, after_center: bool) -> u32 {
    if after_center {
        lane_id_entry(lane) >> 8
    } else {
        lane_id_entry(lane)
    }
}

/// The block of candidate `(w, lane)` over the template `tpl`.
pub open spec fn template_message(
    tpl: Seq<u32>,
    center: int,
    lane_word: int,
    w: nat,
    lane: nat,
) -> Seq<u32> {
    tpl.update(center, center_word(w)).update(
        lane_word,
        tpl[lane_word] | lane_bits(lane, center < lane_word),
    )
}

/// Index of the center word for a residue of `len` bytes: the first word
/// that lies wholly behind the residue.
pub open spec fn center_word_index(len: nat) -> int {
    len as int / 4 + 1
}

/// Index of the lane word: the word before the center word where it holds at
/// least three search digits, the word after it otherwise.
pub open spec fn lane_word_index(len: nat) -> int {
    if len % 4 < 2 {
        center_word_index(len) - 1
    } else {
        center_word_index(len) + 1
    }
}

/// Places of the two outer digits among the nine search digits.
pub open spec fn outer_places(position_mod: nat) -> (int, int) {
    if position_mod == 1 {
        (7, 8)
    } else if position_mod == 2 {
        (0, 1)
    } else {
        (0, 8)
    }
}

/// The prepared block with the two outer digits set.
pub open spec fn outer_block(residual: Seq<u8>, len: nat, resid0: nat, resid1: nat) -> Seq<u8> {
    let places = outer_places(len % 4);
    residual.update(len + places.0, digit_char(resid0 as int)).update(
        len + places.1,
        digit_char(resid1 as int),
    )
}

/// The value of the nine search digits for outer digits `resid0`, `resid1`,
/// center-word value `w` and lane value `lane`.
pub open spec fn candidate_index(
    position_mod: nat,
    resid0: nat,
    resid1: nat,
    w: nat,
    lane: nat,
) -> nat {
    if position_mod == 0 {
        10 * w + 100_000 * lane + 100_000_000 * resid0 + resid1
    } else if position_mod == 1 {
        100 * w + 1_000_000 * lane + 10 * resid0 + resid1
    } else if position_mod == 2 {
        1000 * w + lane + 100_000_000 * resid0 + 10_000_000 * resid1
    } else {
        10_000 * w + 10 * lane + 100_000_000 * resid0 + resid1
    }
}

/// The nine search digits as they stand in the block, first byte first.
pub open spec fn digit_layout(
    position_mod: nat,
    resid0: nat,
    resid1: nat,
    w: nat,
    lane: nat,
) -> Seq<u8> {
    let r0 = digit_char(resid0 as int);
    let r1 = digit_char(resid1 as int);
    let w3 = digit_char((w / 1000 % 10) as int);
    let w2 = digit_char((w / 100 % 10) as int);
    let w1 = digit_char((w / 10 % 10) as int);
    let w0 = digit_char((w % 10) as int);
    let l2 = digit_char((lane / 100 % 10) as int);
    let l1 = digit_char((lane / 10 % 10) as int);
    let l0 = digit_char((lane % 10) as int);
    if position_mod == 0 {
        seq![r0, l2, l1, l0, w3, w2, w1, w0, r1]
    } else if position_mod == 1 {
        seq![l2, l1, l0, w3, w2, w1, w0, r0, r1]
    } else if position_mod == 2 {
        seq![r0, r1, w3, w2, w1, w0, l2, l1, l0]
    } else {
        seq![r0, w3, w2, w1, w0, l2, l1, l0, r1]
    }
}

/// The nine digits of `x`, one by one.
pub proof fn lemma_nine_digits(x: nat)
    ensures
        fixed_digits(x, 9) == seq![
            digit_char((x / 100_000_000 % 10) as int),
            digit_char((x / 10_000_000 % 10) as int),
            digit_char((x / 1_000_000 % 10) as int),
            digit_char((x / 100_000 % 10) as int),
            digit_char((x / 10_000 % 10) as int),
            digit_char((x / 1000 % 10) as int),
            digit_char((x / 100 % 10) as int),
            digit_char((x / 10 % 10) as int),
            digit_char((x % 10) as int),
        ],
{
    lemma_pow10_values();
    lemma_fixed_digits_len(x, 9);
    lemma_fixed_digit_at(x, 9, 0);
    lemma_fixed_digit_at(x, 9, 1);
    lemma_fixed_digit_at(x, 9, 2);
    lemma_fixed_digit_at(x, 9, 3);
    lemma_fixed_digit_at(x, 9, 4);
    lemma_fixed_digit_at(x, 9, 5);
    lemma_fixed_digit_at(x, 9, 6);
    lemma_fixed_digit_at(x, 9, 7);
    lemma_fixed_digit_at(x, 9, 8);
}

/// A number below ten thousand is the sum of its four weighted digits.
proof fn lemma_split_word(w: nat)
    requires
        w < 10000,
    ensures
        w == 1000 * (w / 1000 % 10) + 100 * (w / 100 % 10) + 10 * (w / 10 % 10) + w % 10,
{
    let t1 = w / 10;
    let t2 = t1 / 10;
    let t3 = t2 / 10;
    lemma_div_denominator(w as int, 10, 10);
    lemma_div_denominator(w as int, 100, 10);
    assert(t2 == w / 100);
    assert(t3 == w / 1000);
    assert(w == 10 * t1 + w % 10);
    assert(t1 == 10 * t2 + t1 % 10);
    assert(t2 == 10 * t3 + t2 % 10);
    assert(t3 < 10);
}

/// A number below one thousand is the sum of its three weighted digits.
proof fn lemma_split_lane(lane: nat)
    requires
        lane < 1000,
    ensures
        lane == 100 * (lane / 100 % 10) + 10 * (lane / 10 % 10) + lane % 10,
{
    let t1 = lane / 10;
    let t2 = t1 / 10;
    lemma_div_denominator(lane as int, 10, 10);
    assert(t2 == lane / 100);
    assert(lane == 10 * t1 + lane % 10);
    assert(t1 == 10 * t2 + t1 % 10);
    assert(t2 < 10);
}

/// The digits of a number that is given as a sum of nine weighted digits.
proof fn lemma_digits_of_sum(
    x: nat,
    d0: nat,
    d1: nat,
    d2: nat,
    d3: nat,
    d4: nat,
    d5: nat,
    d6: nat,
    d7: nat,
    d8: nat,
)
    requires
        d0 < 10 && d1 < 10 && d2 < 10 && d3 < 10 && d4 < 10 && d5 < 10 && d6 < 10 && d7 < 10 && d8
            < 10,
        x == 100_000_000 * d0 + 10_000_000 * d1 + 1_000_000 * d2 + 100_000 * d3 + 10_000 * d4 + 1000
            * d5 + 100 * d6 + 10 * d7 + d8,
    ensures
        x < 1_000_000_000,
        x / 100_000_000 % 10 == d0,
        x / 10_000_000 % 10 == d1,
        x / 1_000_000 % 10 == d2,
        x / 100_000 % 10 == d3,
        x / 10_000 % 10 == d4,
        x / 1000 % 10 == d5,
        x / 100 % 10 == d6,
        x / 10 % 10 == d7,
        x % 10 == d8,
{
    let y1 = 10_000_000 * d0 + 1_000_000 * d1 + 100_000 * d2 + 10_000 * d3 + 1000 * d4 + 100 * d5
        + 10 * d6 + d7;
    let y2 = 1_000_000 * d0 + 100_000 * d1 + 10_000 * d2 + 1000 * d3 + 100 * d4 + 10 * d5 + d6;
    let y3 = 100_000 * d0 + 10_000 * d1 + 1000 * d2 + 100 * d3 + 10 * d4 + d5;
    let y4 = 10_000 * d0 + 1000 * d1 + 100 * d2 + 10 * d3 + d4;
    let y5 = 1000 * d0 + 100 * d1 + 10 * d2 + d3;
    let y6 = 100 * d0 + 10 * d1 + d2;
    let y7 = 10 * d0 + d1;
    assert(x / 10 == y1 && x % 10 == d8);
    assert(x / 100 == y2) by {
        assert(x == 100 * y2 + (10 * d7 + d8));
    }
    assert(x / 1000 == y3) by {
        assert(x == 1000 * y3 + (100 * d6 + 10 * d7 + d8));
    }
    assert(x / 10_000 == y4) by {
        assert(x == 10_000 * y4 + (1000 * d5 + 100 * d6 + 10 * d7 + d8));
    }
    assert(x / 100_000 == y5) by {
        assert(x == 100_000 * y5 + (10_000 * d4 + 1000 * d5 + 100 * d6 + 10 * d7 + d8));
    }
    assert(x / 1_000_000 == y6) by {
        assert(x == 1_000_000 * y6 + (100_000 * d3 + 10_000 * d4 + 1000 * d5 + 100 * d6 + 10 * d7
            + d8));
    }
    assert(x / 10_000_000 == y7) by {
        assert(x == 10_000_000 * y7 + (1_000_000 * d2 + 100_000 * d3 + 10_000 * d4 + 1000 * d5 + 100
            * d6 + 10 * d7 + d8));
    }
    assert(x / 100_000_000 == d0) by {
        assert(x == 100_000_000 * d0 + (10_000_000 * d1 + 1_000_000 * d2 + 100_000 * d3 + 10_000
            * d4 + 1000 * d5 + 100 * d6 + 10 * d7 + d8));
    }
    assert(y1 % 10 == d7);
    assert(y2 % 10 == d6);
    assert(y3 % 10 == d5);
    assert(y4 % 10 == d4);
    assert(y5 % 10 == d3);
    assert(y6 % 10 == d2);
    assert(y7 % 10 == d1);
}

/// The nonce formula agrees with the placement of the digits in the block:
/// the nine digits of the candidate's value are the outer digits, the digits
/// of the center word and the digits of the lane value, each at its place.
pub proof fn lemma_candidate_digits(position_mod: nat, resid0: nat, resid1: nat, w: nat, lane: nat)
    requires
        position_mod < 4,
        resid0 < 10,
        resid1 < 10,
        w < 10000,
        lane < 1000,
    ensures
        candidate_index(position_mod, resid0, resid1, w, lane) < 1_000_000_000,
        fixed_digits(candidate_index(position_mod, resid0, resid1, w, lane), 9) == digit_layout(
            position_mod,
            resid0,
            resid1,
            w,
            lane,
        ),
{
    let x = candidate_index(position_mod, resid0, resid1, w, lane);
    let w3 = w / 1000 % 10;
    let w2 = w / 100 % 10;
    let w1 = w / 10 % 10;
    let w0 = w % 10;
    let l2 = lane / 100 % 10;
    let l1 = lane / 10 % 10;
    let l0 = lane % 10;
    lemma_nine_digits(x);
    lemma_split_word(w);
    lemma_split_lane(lane);
    if position_mod == 0 {
        lemma_digits_of_sum(x, resid0, l2, l1, l0, w3, w2, w1, w0, resid1);
    } else if position_mod == 1 {
        lemma_digits_of_sum(x, l2, l1, l0, w3, w2, w1, w0, resid0, resid1);
    } else if position_mod == 2 {
        lemma_digits_of_sum(x, resid0, resid1, w3, w2, w1, w0, l2, l1, l0);
    } else {
        lemma_digits_of_sum(x, resid0, w3, w2, w1, w0, l2, l1, l0, resid1);
    }
}

/// Or-ing two packed words ors their bytes.
proof fn lemma_or_packed(a0: u8, a1: u8, a2: u8, a3: u8, b0: u8, b1: u8, b2: u8, b3: u8)
    by (bit_vector)
    ensures
        le_word(a0, a1, a2, a3) | le_word(b0, b1, b2, b3) == le_word(
            a0 | b0,
            a1 | b1,
            a2 | b2,
            a3 | b3,
        ),
{
}

/// Shifting a packed word with a zero low byte right by eight bits moves
/// every byte one place down.
proof fn lemma_shift_packed(b1: u8, b2: u8, b3: u8)
    by (bit_vector)
    ensures
        le_word(0u8, b1, b2, b3) >> 8 == le_word(b1, b2, b3, 0u8),
{
}

/// Or-ing a digit character onto `'0'` gives the digit character, and
/// or-ing zero onto a byte changes nothing.
proof fn lemma_or_digit(d: u8, b: u8)
    by (bit_vector)
    requires
        48 <= d <= 57,
    ensures
        48u8 | d == d,
        b | 0u8 == b,
{
}

/// The bytes of a candidate's block: the nine digits in their layout, and
/// the prepared block around them.
proof fn lemma_candidate_bytes(m: CerberusMessage, resid0: nat, resid1: nat, w: nat, lane: nat)
    requires
        m.wf(),
        resid0 < 10,
        resid1 < 10,
        w < 10000,
        lane < 1000,
    ensures
        candidate_index(m.residual_len() % 4, resid0, resid1, w, lane) < 1_000_000_000,
        forall|j: int|
            0 <= j < 64 ==> #[trigger] m.candidate_block(
                candidate_index(m.residual_len() % 4, resid0, resid1, w, lane),
            )[j] == (if m.residual_len() <= j < m.residual_len() + 9 {
                digit_layout(m.residual_len() % 4, resid0, resid1, w, lane)[j - m.residual_len()]
            } else {
                m.residual()[j]
            }),
{
    lemma_candidate_digits(m.residual_len() % 4, resid0, resid1, w, lane);
}

/// The center word of a candidate's block holds the digits of `w`.
proof fn lemma_center_word_matches(m: CerberusMessage, resid0: nat, resid1: nat, w: nat, lane: nat)
    requires
        m.wf(),
        resid0 < 10,
        resid1 < 10,
        w < 10000,
        lane < 1000,
    ensures
        words_of(
            m.candidate_block(candidate_index(m.residual_len() % 4, resid0, resid1, w, lane)),
        )[center_word_index(m.residual_len())] == center_word(w),
{
    lemma_candidate_bytes(m, resid0, resid1, w, lane);
}

/// The lane word of a candidate's block is the template's lane word with the
/// lane bits added.
proof fn lemma_lane_word_matches(m: CerberusMessage, resid0: nat, resid1: nat, w: nat, lane: nat)
    requires
        m.wf(),
        resid0 < 10,
        resid1 < 10,
        w < 10000,
        lane < 1000,
    ensures
        words_of(
            m.candidate_block(candidate_index(m.residual_len() % 4, resid0, resid1, w, lane)),
        )[lane_word_index(m.residual_len())] == words_of(
            outer_block(m.residual(), m.residual_len(), resid0, resid1),
        )[lane_word_index(m.residual_len())] | lane_bits(
            lane,
            center_word_index(m.residual_len()) < lane_word_index(m.residual_len()),
        ),
{
    let len = m.residual_len();
    let l = lane_word_index(len);
    let rb = outer_block(m.residual(), len, resid0, resid1);
    let l2 = digit_char((lane / 100 % 10) as int);
    let l1 = digit_char((lane / 10 % 10) as int);
    let l0 = digit_char((lane % 10) as int);
    lemma_candidate_bytes(m, resid0, resid1, w, lane);
    if len % 4 < 2 {
        lemma_or_packed(rb[4 * l], rb[4 * l + 1], rb[4 * l + 2], rb[4 * l + 3], 0u8, l2, l1, l0);
        lemma_or_digit(l2, rb[4 * l]);
        lemma_or_digit(l1, rb[4 * l]);
        lemma_or_digit(l0, rb[4 * l]);
    } else {
        lemma_shift_packed(l2, l1, l0);
        lemma_or_packed(rb[4 * l], rb[4 * l + 1], rb[4 * l + 2], rb[4 * l + 3], l2, l1, l0, 0u8);
        lemma_or_digit(l2, rb[4 * l + 3]);
        lemma_or_digit(l1, rb[4 * l + 3]);
        lemma_or_digit(l0, rb[4 * l + 3]);
    }
}

/// Apart from the center word and the lane word, a candidate's block is the
/// template.
proof fn lemma_other_words_match(
    m: CerberusMessage,
    resid0: nat,
    resid1: nat,
    w: nat,
    lane: nat,
    i: int,
)
    requires
        m.wf(),
        resid0 < 10,
        resid1 < 10,
        w < 10000,
        lane < 1000,
        0 <= i < 16,
        i != center_word_index(m.residual_len()),
        i != lane_word_index(m.residual_len()),
    ensures
        words_of(
            m.candidate_block(candidate_index(m.residual_len() % 4, resid0, resid1, w, lane)),
        )[i] == words_of(outer_block(m.residual(), m.residual_len(), resid0, resid1))[i],
        center_word_index(m.residual_len()) + 1 < i ==> words_of(
            outer_block(m.residual(), m.residual_len(), resid0, resid1),
        )[i] == 0,
{
    lemma_candidate_bytes(m, resid0, resid1, w, lane);
    if center_word_index(m.residual_len()) + 1 < i {
        assert(le_word(0u8, 0u8, 0u8, 0u8) == 0) by (bit_vector);
    }
}

/// The block of a candidate over the template with the outer digits set is
/// the block of the candidate whose value the nonce formula gives, and behind
/// the words that the search changes the template is zero.
pub proof fn lemma_template_is_candidate(
    m: CerberusMessage,
    resid0: nat,
    resid1: nat,
    w: nat,
    lane: nat,
)
    requires
        m.wf(),
        resid0 < 10,
        resid1 < 10,
        w < 10000,
        lane < 1000,
    ensures
        candidate_index(m.residual_len() % 4, resid0, resid1, w, lane) < 1_000_000_000,
        template_message(
            words_of(outer_block(m.residual(), m.residual_len(), resid0, resid1)),
            center_word_index(m.residual_len()),
            lane_word_index(m.residual_len()),
            w,
            lane,
        ) == words_of(
            m.candidate_block(candidate_index(m.residual_len() % 4, resid0, resid1, w, lane)),
        ),
        forall|i: int|
            center_word_index(m.residual_len()) + 1 < i < 16 ==> words_of(
                outer_block(m.residual(), m.residual_len(), resid0, resid1),
            )[i] == 0,
{
    let len = m.residual_len();
    let c = center_word_index(len);
    let l = lane_word_index(len);
    let tpl = words_of(outer_block(m.residual(), len, resid0, resid1));
    let target = words_of(m.candidate_block(candidate_index(len % 4, resid0, resid1, w, lane)));
    lemma_candidate_digits(len % 4, resid0, resid1, w, lane);
    lemma_center_word_matches(m, resid0, resid1, w, lane);
    lemma_lane_word_matches(m, resid0, resid1, w, lane);
    assert forall|i: int| 0 <= i < 16 implies template_message(tpl, c, l, w, lane)[i]
        == target[i] by {
        if i != c && i != l {
            lemma_other_words_match(m, resid0, resid1, w, lane, i);
        }
    }
    assert forall|i: int| c + 1 < i < 16 implies tpl[i] == 0 by {
        if i != l {
            lemma_other_words_match(m, resid0, resid1, w, lane, i);
        }
    }
}

/// The digit of `x` at place `p` of its nine-digit notation, place 0 being
/// the most significant.
pub open spec fn place_digit(x: nat, p: int) -> nat {
    if p == 0 {
        x / 100_000_000 % 10
    } else if p == 1 {
        x / 10_000_000 % 10
    } else if p == 2 {
        x / 1_000_000 % 10
    } else if p == 3 {
        x / 100_000 % 10
    } else if p == 4 {
        x / 10_000 % 10
    } else if p == 5 {
        x / 1000 % 10
    } else if p == 6 {
        x / 100 % 10
    } else if p == 7 {
        x / 10 % 10
    } else {
        x % 10
    }
}

/// Place of the first of the four center-word digits.
pub open spec fn center_place(position_mod: nat) -> int {
    4 - position_mod
}

/// Place of the first of the three lane digits.
pub open spec fn lane_place(position_mod: nat) -> int {
    if position_mod == 0 {
        1
    } else if position_mod == 1 {
        0
    } else if position_mod == 2 {
        6
    } else {
        5
    }
}

/// The center-word value of candidate `idx`.
pub open spec fn center_of(position_mod: nat, idx: nat) -> nat {
    let p = center_place(position_mod);
    1000 * place_digit(idx, p) + 100 * place_digit(idx, p + 1) + 10 * place_digit(idx, p + 2)
        + place_digit(idx, p + 3)
}

/// The lane value of candidate `idx`.
pub open spec fn lane_of(position_mod: nat, idx: nat) -> nat {
    let p = lane_place(position_mod);
    100 * place_digit(idx, p) + 10 * place_digit(idx, p + 1) + place_digit(idx, p + 2)
}

/// The position of candidate `idx` in the order of the search: the outer
/// digits count slowest, then the center word, then the lane value.
pub open spec fn search_rank(position_mod: nat, idx: nat) -> nat {
    let outer = outer_places(position_mod);
    ((place_digit(idx, outer.0) * 10 + place_digit(idx, outer.1)) * 10_000 + center_of(
        position_mod,
        idx,
    )) * 1000 + lane_of(position_mod, idx)
}

/// The position in the order of the search of the candidate with the given
/// outer digits, center-word value and lane value.
pub open spec fn tuple_rank(resid0: nat, resid1: nat, w: nat, lane: nat) -> nat {
    ((resid0 * 10 + resid1) * 10_000 + w) * 1000 + lane
}

/// A number below `10^9` is the sum of its nine weighted digits.
proof fn lemma_split_nine(x: nat)
    requires
        x < 1_000_000_000,
    ensures
        x == 100_000_000 * place_digit(x, 0) + 10_000_000 * place_digit(x, 1) + 1_000_000
            * place_digit(x, 2) + 100_000 * place_digit(x, 3) + 10_000 * place_digit(x, 4) + 1000
            * place_digit(x, 5) + 100 * place_digit(x, 6) + 10 * place_digit(x, 7) + place_digit(
            x,
            8,
        ),
{
    let t1 = x / 10;
    let t2 = t1 / 10;
    let t3 = t2 / 10;
    let t4 = t3 / 10;
    let t5 = t4 / 10;
    let t6 = t5 / 10;
    let t7 = t6 / 10;
    let t8 = t7 / 10;
    lemma_div_denominator(x as int, 10, 10);
    lemma_div_denominator(x as int, 100, 10);
    lemma_div_denominator(x as int, 1000, 10);
    lemma_div_denominator(x as int, 10_000, 10);
    lemma_div_denominator(x as int, 100_000, 10);
    lemma_div_denominator(x as int, 1_000_000, 10);
    lemma_div_denominator(x as int, 10_000_000, 10);
    assert(t2 == x / 100);
    assert(t3 == x / 1000);
    assert(t4 == x / 10_000);
    assert(t5 == x / 100_000);
    assert(t6 == x / 1_000_000);
    assert(t7 == x / 10_000_000);
    assert(t8 == x / 100_000_000);
    assert(x == 10 * t1 + x % 10);
    assert(t1 == 10 * t2 + t1 % 10);
    assert(t2 == 10 * t3 + t2 % 10);
    assert(t3 == 10 * t4 + t3 % 10);
    assert(t4 == 10 * t5 + t4 % 10);
    assert(t5 == 10 * t6 + t5 % 10);
    assert(t6 == 10 * t7 + t6 % 10);
    assert(t7 == 10 * t8 + t7 % 10);
    assert(t8 < 10);
}

/// Every candidate is reached: its value is what the nonce formula gives for
/// its own outer digits, center-word value and lane value.
pub proof fn lemma_candidate_of_parts(position_mod: nat, idx: nat)
    requires
        position_mod < 4,
        idx < 1_000_000_000,
    ensures
        idx == candidate_index(
            position_mod,
            place_digit(idx, outer_places(position_mod).0),
            place_digit(idx, outer_places(position_mod).1),
            center_of(position_mod, idx),
            lane_of(position_mod, idx),
        ),
        center_of(position_mod, idx) < 10000,
        lane_of(position_mod, idx) < 1000,
        place_digit(idx, outer_places(position_mod).0) < 10,
        place_digit(idx, outer_places(position_mod).1) < 10,
{
    lemma_split_nine(idx);
}

/// The parts of the candidate that the nonce formula gives are the parts that
/// went into the formula, so the formula keeps the order of the search.
pub proof fn lemma_parts_of_candidate(
    position_mod: nat,
    resid0: nat,
    resid1: nat,
    w: nat,
    lane: nat,
)
    requires
        position_mod < 4,
        resid0 < 10,
        resid1 < 10,
        w < 10000,
        lane < 1000,
    ensures
        ({
            let idx = candidate_index(position_mod, resid0, resid1, w, lane);
            &&& idx < 1_000_000_000
            &&& place_digit(idx, outer_places(position_mod).0) == resid0
            &&& place_digit(idx, outer_places(position_mod).1) == resid1
            &&& center_of(position_mod, idx) == w
            &&& lane_of(position_mod, idx) == lane
            &&& search_rank(position_mod, idx) == tuple_rank(resid0, resid1, w, lane)
        }),
{
    let x = candidate_index(position_mod, resid0, resid1, w, lane);
    let w3 = w / 1000 % 10;
    let w2 = w / 100 % 10;
    let w1 = w / 10 % 10;
    let w0 = w % 10;
    let l2 = lane / 100 % 10;
    let l1 = lane / 10 % 10;
    let l0 = lane % 10;
    lemma_split_word(w);
    lemma_split_lane(lane);
    if position_mod == 0 {
        lemma_digits_of_sum(x, resid0, l2, l1, l0, w3, w2, w1, w0, resid1);
    } else if position_mod == 1 {
        lemma_digits_of_sum(x, l2, l1, l0, w3, w2, w1, w0, resid0, resid1);
    } else if position_mod == 2 {
        lemma_digits_of_sum(x, resid0, resid1, w3, w2, w1, w0, l2, l1, l0);
    } else {
        lemma_digits_of_sum(x, resid0, w3, w2, w1, w0, l2, l1, l0, resid1);
    }
}

/// Whether no candidate in front of `(resid0, resid1, w, lane)` in the order
/// of the search meets the mask.
pub open spec fn none_before(
    message: CerberusMessage,
    mask: u32,
    resid0: nat,
    resid1: nat,
    w: nat,
    lane: nat,
) -> bool {
    forall|r0: nat, r1: nat, w2: nat, lane2: nat|
        r0 < 10 && r1 < 10 && w2 < 10000 && lane2 < 1000 && tuple_rank(r0, r1, w2, lane2)
            < tuple_rank(resid0, resid1, w, lane) ==> !message.hits(
            mask,
            #[trigger] candidate_index(message.residual_len() % 4, r0, r1, w2, lane2),
        )
}

/// What holds of the parts in the order of the search holds of the
/// candidates in the order of their rank.
pub proof fn lemma_none_before_by_rank(
    message: CerberusMessage,
    mask: u32,
    resid0: nat,
    resid1: nat,
    w: nat,
    lane: nat,
)
    requires
        resid0 < 10,
        resid1 < 10,
        w < 10000,
        lane < 1000,
        none_before(message, mask, resid0, resid1, w, lane),
    ensures
        forall|other: nat|
            other < search_space() && search_rank(message.residual_len() % 4, other) < search_rank(
                message.residual_len() % 4,
                candidate_index(message.residual_len() % 4, resid0, resid1, w, lane),
            ) ==> !message.hits(mask, other),
{
    let pm = message.residual_len() % 4;
    lemma_parts_of_candidate(pm, resid0, resid1, w, lane);
    assert forall|other: nat|
        other < search_space() && search_rank(pm, other) < search_rank(
            pm,
            candidate_index(pm, resid0, resid1, w, lane),
        ) implies !message.hits(mask, other) by {
        lemma_candidate_of_parts(pm, other);
    }
}

/// What holds of all parts holds of all candidates.
pub proof fn lemma_none_at_all(message: CerberusMessage, mask: u32)
    requires
        forall|r0: nat, r1: nat, w: nat, lane: nat|
            r0 < 10 && r1 < 10 && w < 10000 && lane < 1000 ==> !message.hits(
                mask,
                #[trigger] candidate_index(message.residual_len() % 4, r0, r1, w, lane),
            ),
    ensures
        forall|idx: nat| idx < search_space() ==> !message.hits(mask, idx),
{
    let pm = message.residual_len() % 4;
    assert forall|idx: nat| idx < search_space() implies !message.hits(mask, idx) by {
        lemma_candidate_of_parts(pm, idx);
    }
}

} // verus!
