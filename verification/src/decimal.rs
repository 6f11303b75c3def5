//! Decimal ASCII notation of natural numbers.
use vstd::arithmetic::div_mod::{
    lemma_div_denominator, lemma_fundamental_div_mod, lemma_mod_multiples_vanish,
};
use vstd::prelude::*;

verus! {

/// Ten to the power `k`.
pub open spec fn pow10(k: nat) -> nat
    decreases k,
{
    if k == 0 {
        1
    } else {
        10 * pow10((k - 1) as nat)
    }
}

/// The ASCII character of the decimal digit `d`.
pub open spec fn digit_char(d: int) -> u8 {
    (48 + d) as u8
}

/// The decimal notation of `n` without leading zeros, most significant digit
/// first.
pub open spec fn ascii_decimal(n: nat) -> Seq<u8>
    decreases n,
{
    if n < 10 {
        seq![digit_char(n as int)]
    } else {
        ascii_decimal(n / 10).push(digit_char((n % 10) as int))
    }
}

/// The last `k` decimal digits of `x`, most significant first, with leading
/// zeros kept.
pub open spec fn fixed_digits(x: nat, k: nat) -> Seq<u8>
    decreases k,
{
    if k == 0 {
        Seq::empty()
    } else {
        fixed_digits(x / 10, (k - 1) as nat).push(digit_char((x % 10) as int))
    }
}

/// Powers of ten are positive.
pub proof fn lemma_pow10_positive(k: nat)
    ensures
        pow10(k) >= 1,
    decreases k,
{
    if k > 0 {
        lemma_pow10_positive((k - 1) as nat);
    }
}

/// Powers of ten grow with the exponent.
pub proof fn lemma_pow10_increasing(a: nat, b: nat)
    requires
        a < b,
    ensures
        pow10(a) < pow10(b),
    decreases b,
{
    lemma_pow10_positive(a);
    if a + 1 < b {
        lemma_pow10_increasing(a, (b - 1) as nat);
    }
}

/// The powers of ten up to the nineteenth.
pub proof fn lemma_pow10_values()
    ensures
        pow10(0) == 1,
        pow10(1) == 10,
        pow10(2) == 100,
        pow10(3) == 1_000,
        pow10(4) == 10_000,
        pow10(5) == 100_000,
        pow10(6) == 1_000_000,
        pow10(7) == 10_000_000,
        pow10(8) == 100_000_000,
        pow10(9) == 1_000_000_000,
        pow10(10) == 10_000_000_000,
        pow10(19) == 10_000_000_000_000_000_000,
{
    reveal_with_fuel(pow10, 20);
}

/// `fixed_digits(x, k)` has `k` characters.
pub proof fn lemma_fixed_digits_len(x: nat, k: nat)
    ensures
        fixed_digits(x, k).len() == k,
    decreases k,
{
    if k > 0 {
        lemma_fixed_digits_len(x / 10, (k - 1) as nat);
    }
}

/// Character `i` of `fixed_digits(x, k)` is the digit of `x` with weight
/// `10^(k - 1 - i)`.
pub proof fn lemma_fixed_digit_at(x: nat, k: nat, i: int)
    requires
        0 <= i < k,
    ensures
        fixed_digits(x, k)[i] == digit_char(((x / pow10((k - 1 - i) as nat)) % 10) as int),
    decreases k,
{
    let head = fixed_digits(x / 10, (k - 1) as nat);
    lemma_fixed_digits_len(x / 10, (k - 1) as nat);
    assert(fixed_digits(x, k) == head.push(digit_char((x % 10) as int)));
    if i == k - 1 {
        assert(pow10(0) == 1);
        assert(x / 1 == x);
    } else {
        lemma_fixed_digit_at(x / 10, (k - 1) as nat, i);
        let p = pow10((k - 2 - i) as nat);
        lemma_pow10_positive((k - 2 - i) as nat);
        assert(pow10((k - 1 - i) as nat) == 10 * p);
        lemma_div_denominator(x as int, 10, p as int);
        assert(fixed_digits(x, k)[i] == head[i]);
    }
}

/// Only the last `k` digits of `x` matter to `fixed_digits(x, k)`.
pub proof fn lemma_fixed_digits_mod(x: nat, k: nat)
    ensures
        fixed_digits(x, k) == fixed_digits(x % pow10(k), k),
    decreases k,
{
    if k > 0 {
        let p = pow10((k - 1) as nat);
        lemma_pow10_positive((k - 1) as nat);
        let y = x % (10 * p);
        let q = x / (10 * p);
        lemma_fundamental_div_mod(x as int, (10 * p) as int);
        let z = p * q;
        assert((10 * p) * q == 10 * z) by (nonlinear_arith)
            requires
                z == p * q,
        ;
        assert(x == 10 * z + y);
        assert(x % 10 == y % 10);
        assert(x / 10 == z + y / 10);
        lemma_mod_multiples_vanish(q as int, (y / 10) as int, p as int);
        lemma_fixed_digits_mod(x / 10, (k - 1) as nat);
        lemma_fixed_digits_mod(y / 10, (k - 1) as nat);
    }
}

/// The notation of a number is the notation of its leading part followed by
/// its last `k` digits, as long as the leading part is not zero.
pub proof fn lemma_ascii_decimal_split(a: nat, x: nat, k: nat)
    requires
        a >= 1,
        x < pow10(k),
    ensures
        ascii_decimal(a * pow10(k) + x) == ascii_decimal(a) + fixed_digits(x, k),
    decreases k,
{
    if k == 0 {
        assert(a * pow10(k) + x == a);
        assert(ascii_decimal(a) + fixed_digits(x, k) =~= ascii_decimal(a));
    } else {
        let p = pow10((k - 1) as nat);
        lemma_pow10_positive((k - 1) as nat);
        let n = a * pow10(k) + x;
        assert(n == 10 * (a * p) + x && a * p >= 1) by (nonlinear_arith)
            requires
                n == a * (10 * p) + x,
                a >= 1,
                p >= 1,
        ;
        assert(n / 10 == a * p + x / 10);
        assert(n % 10 == x % 10);
        lemma_ascii_decimal_split(a, x / 10, (k - 1) as nat);
        assert(ascii_decimal(n) == ascii_decimal(n / 10).push(digit_char((n % 10) as int)));
        assert(ascii_decimal(a) + fixed_digits(x, k) =~= (ascii_decimal(a) + fixed_digits(
            x / 10,
            (k - 1) as nat,
        )).push(digit_char((x % 10) as int)));
    }
}

/// Every notation has at least one character.
pub proof fn lemma_ascii_decimal_nonempty(n: nat)
    ensures
        ascii_decimal(n).len() >= 1,
    decreases n,
{
    if n >= 10 {
        lemma_ascii_decimal_nonempty(n / 10);
    }
}

/// Different numbers have different notations.
pub proof fn lemma_ascii_decimal_injective(a: nat, b: nat)
    requires
        ascii_decimal(a) == ascii_decimal(b),
    ensures
        a == b,
    decreases a,
{
    lemma_ascii_decimal_nonempty(a / 10);
    lemma_ascii_decimal_nonempty(b / 10);
    if a < 10 && b < 10 {
        assert(ascii_decimal(a)[0] == digit_char(a as int));
        assert(ascii_decimal(b)[0] == digit_char(b as int));
    } else if a >= 10 && b >= 10 {
        let s = ascii_decimal(a / 10);
        let t = ascii_decimal(b / 10);
        let c = digit_char((a % 10) as int);
        let d = digit_char((b % 10) as int);
        assert(s.push(c).len() == t.push(d).len());
        assert(s.push(c)[s.len() as int] == c);
        assert(t.push(d)[t.len() as int] == d);
        assert(s =~= s.push(c).drop_last());
        assert(t =~= t.push(d).drop_last());
        lemma_ascii_decimal_injective(a / 10, b / 10);
    } else if a < 10 {
        assert(ascii_decimal(a).len() == 1);
        assert(ascii_decimal(b).len() == ascii_decimal(b / 10).len() + 1);
    } else {
        assert(ascii_decimal(b).len() == 1);
        assert(ascii_decimal(a).len() == ascii_decimal(a / 10).len() + 1);
    }
}

/// Writes `nonce` in decimal ASCII.
pub fn nonce_digits(nonce: u64) -> (out: Vec<u8>)
    ensures
        out@ == ascii_decimal(nonce as nat),
{
    let mut reversed: Vec<u8> = Vec::new();
    reversed.push((nonce % 10) as u8 + 48);
    let mut n = nonce / 10;
    while n > 0
        invariant
            reversed@.len() >= 1,
            ascii_decimal(nonce as nat) == (if n > 0 {
                ascii_decimal(n as nat)
            } else {
                Seq::empty()
            }) + reversed@.reverse(),
        decreases n,
    {
        let ghost before = reversed@;
        reversed.push((n % 10) as u8 + 48);
        proof {
            let c = digit_char((n % 10) as int);
            assert(reversed@.reverse() =~= seq![c] + before.reverse());
            if n >= 10 {
                assert(ascii_decimal(n as nat) + before.reverse() =~= ascii_decimal(
                    (n / 10) as nat,
                ) + (seq![c] + before.reverse()));
            } else {
                assert(ascii_decimal(n as nat) + before.reverse() =~= Seq::<u8>::empty() + (seq![c]
                    + before.reverse()));
            }
        }
        n = n / 10;
    }
    let mut out: Vec<u8> = Vec::new();
    let mut i: usize = reversed.len();
    while i > 0
        invariant
            i <= reversed@.len(),
            out@.len() == reversed@.len() - i,
            forall|j: int| 0 <= j < out@.len() ==> out@[j] == reversed@[reversed@.len() - 1 - j],
        decreases i,
    {
        i -= 1;
        out.push(reversed[i]);
    }
    assert(out@ =~= reversed@.reverse());
    assert(ascii_decimal(nonce as nat) =~= reversed@.reverse());
    out
}

} // verus!
