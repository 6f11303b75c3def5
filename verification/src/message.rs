//! The prepared message of one search: the absorbed prefix and the final
//! block with room for nine nonce digits.
use crate::blake3::hash::{
    block_bytes, chunk_state, final_flags, hash_words, last_block, lemma_chunk_state_reads_prefix,
    lemma_start_flag, words_from_le_bytes, words_of,
};
use crate::blake3::{compress8, spec_compress8, FLAG_CHUNK_END, FLAG_CHUNK_START, FLAG_ROOT, IV};
use crate::decimal::{
    ascii_decimal, digit_char, fixed_digits, lemma_ascii_decimal_split, lemma_fixed_digit_at,
    lemma_fixed_digits_len, lemma_pow10_increasing, lemma_pow10_positive, lemma_pow10_values,
    pow10,
};
use crate::working_set::{
    after_fill, append_fixed, append_greedy, greedy_count, has_room, placed_len, placed_value,
};
use vstd::arithmetic::div_mod::lemma_div_denominator;
use vstd::prelude::*;

verus! {

/// Longest prefix that is accepted. It leaves the headroom that keeps the
/// whole message inside one chunk.
pub const MAX_PREFIX_LEN: usize = 1000;

/// A message in the cerberus format
///
/// Construct: Proof := (prefix || ASCII_GO_INT_DECIMAL(nonce))
#[derive(Debug, Clone)]
pub struct CerberusMessage {
    pub(crate) prefix_state: [u32; 8],
    pub(crate) salt_residual: [u8; 64],
    pub(crate) salt_residual_len: usize,
    pub(crate) flags: u32,
    pub(crate) nonce_addend: u64,
}

impl CerberusMessage {
    /// The chaining value after the absorbed blocks.
    pub closed spec fn chaining(&self) -> Seq<u32> {
        self.prefix_state@
    }

    /// The final block as prepared: the residue, nine `'0'` characters, zeros.
    pub closed spec fn residual(&self) -> Seq<u8> {
        self.salt_residual@
    }

    /// Number of residue bytes in the final block.
    pub closed spec fn residual_len(&self) -> nat {
        self.salt_residual_len as nat
    }

    /// The flags of the final compression.
    pub closed spec fn block_flags(&self) -> u32 {
        self.flags
    }

    /// The nonce that the all-zero search digits stand for.
    pub closed spec fn addend(&self) -> nat {
        self.nonce_addend as nat
    }

    /// The invariant of a prepared message: the search digits fit, their
    /// place holds `'0'` characters, what follows is zero, and the addend is a
    /// positive multiple of `10^9` that leaves room for the search range.
    pub open spec fn wf(&self) -> bool {
        &&& self.chaining().len() == 8
        &&& self.residual().len() == 64
        &&& self.residual_len() + 9 <= 64
        &&& forall|j: int|
            self.residual_len() <= j < self.residual_len() + 9 ==> self.residual()[j] == 48u8
        &&& forall|j: int| self.residual_len() + 9 <= j < 64 ==> self.residual()[j] == 0u8
        &&& self.addend() % 1_000_000_000 == 0
        &&& 1_000_000_000 <= self.addend()
        &&& self.addend() < 10_000_000_000_000_000_000
    }

    /// Whether the message is the state of a chunk that has taken in exactly
    /// `text`: the whole blocks of `text` are folded into the chaining value,
    /// and what is left of it starts the final block.
    pub open spec fn absorbs(&self, text: Seq<u8>) -> bool {
        let n = (text.len() / 64) as nat;
        &&& text.len() + 9 <= 1024
        &&& self.residual_len() == text.len() % 64
        &&& self.chaining() == chunk_state(text, n)
        &&& forall|j: int| 0 <= j < self.residual_len() ==> self.residual()[j] == text[64 * n + j]
        &&& self.block_flags() == final_flags(n as int)
    }

    /// Whether the message stands for `salt` followed by the digits that the
    /// addend fixes in front of the search digits.
    pub open spec fn commits_to(&self, salt: Seq<u8>) -> bool {
        self.absorbs(salt + ascii_decimal(self.addend() / 1_000_000_000))
    }

    /// The final block of candidate `idx`: the prepared block with the nine
    /// digits of `idx` in the place of the search digits.
    pub open spec fn candidate_block(&self, idx: nat) -> Seq<u8> {
        Seq::new(
            64,
            |j: int|
                if self.residual_len() <= j < self.residual_len() + 9 {
                    fixed_digits(idx, 9)[j - self.residual_len()]
                } else {
                    self.residual()[j]
                },
        )
    }

    /// The eight hash words of candidate `idx`.
    pub open spec fn digest(&self, idx: nat) -> Seq<u32> {
        spec_compress8(
            self.chaining(),
            words_of(self.candidate_block(idx)),
            0,
            (self.residual_len() + 9) as u32,
            self.block_flags(),
        )
    }

    /// Whether candidate `idx` meets the difficulty mask.
    pub open spec fn hits(&self, mask: u32, idx: nat) -> bool {
        self.digest(idx)[0] & mask == 0
    }
}

/// Bound on the product of what is left of the working set and the power of
/// ten that has as many zeros as digits are written, while a block is filled:
/// ten times the largest working set divided by eight. The product does not
/// grow with the digits, so that ten digits exhaust every working set.
spec fn fill_limit() -> nat {
    5_368_709_110
}

/// The same bound once the head digit of the last block is written: ten
/// ninths of `fill_limit`.
spec fn place_limit() -> nat {
    5_965_232_344
}

/// Dividing the working set by ten while the scale grows tenfold does not
/// raise their product.
proof fn lemma_scale_after_digit(ws: nat, scale: nat)
    ensures
        (ws / 10) * (scale * 10) <= ws * scale,
{
    assert((ws / 10) * (scale * 10) <= ws * scale) by (nonlinear_arith)
        requires
            (ws / 10) * 10 <= ws,
    ;
}

/// Dividing the working set by nine while the scale grows tenfold raises
/// their product by at most a ninth.
proof fn lemma_scale_after_head(ws: nat, scale: nat, limit: nat)
    requires
        ws * scale <= limit,
    ensures
        9 * ((ws / 9) * (scale * 10)) <= 10 * limit,
{
    assert(9 * ((ws / 9) * (scale * 10)) <= 10 * (ws * scale)) by (nonlinear_arith)
        requires
            (ws / 9) * 9 <= ws,
    ;
}

/// A working set that is not exhausted bounds the number of digits written
/// so far.
proof fn lemma_digits_bounded(ws: nat, c: nat)
    requires
        ws >= 1,
        ws * pow10(c) < 10_000_000_000,
    ensures
        c <= 9,
{
    lemma_pow10_values();
    if c >= 10 {
        if c > 10 {
            lemma_pow10_increasing(10, c);
        }
        assert(ws * pow10(c) >= pow10(c)) by (nonlinear_arith)
            requires
                ws >= 1,
        ;
    }
}

/// Folds the whole 64-byte blocks of `prefix` into a chaining value and
/// returns it with the zero-padded rest of the prefix, the length of that
/// rest, and the flags for the final compression. A prefix of more than
/// `MAX_PREFIX_LEN` bytes is refused.
pub fn absorb(prefix: &[u8]) -> (res: Option<([u32; 8], [u8; 64], usize, u32)>)
    ensures
        res is None <==> prefix@.len() > MAX_PREFIX_LEN,
        res matches Some((chain, residual, len, flags)) ==> {
            let n = (prefix@.len() / 64) as nat;
            &&& chain@ == chunk_state(prefix@, n)
            &&& residual@ == block_bytes(prefix@, n as int)
            &&& len == prefix@.len() % 64
            &&& flags == final_flags(n as int)
        },
{
    if prefix.len() > MAX_PREFIX_LEN {
        return None;
    }
    let blocks = prefix.len() / 64;
    let mut state = IV;
    let mut flags = FLAG_CHUNK_START | FLAG_CHUNK_END | FLAG_ROOT;
    let mut i: usize = 0;
    while i < blocks
        invariant
            i <= blocks,
            blocks == prefix@.len() / 64,
            prefix@.len() <= MAX_PREFIX_LEN,
            state@ == chunk_state(prefix@, i as nat),
            flags == final_flags(i as int),
        decreases blocks - i,
    {
        let mut block_buf = [0u8; 64];
        let mut j: usize = 0;
        while j < 64
            invariant
                j <= 64,
                i < blocks,
                blocks == prefix@.len() / 64,
                prefix@.len() <= MAX_PREFIX_LEN,
                forall|t: int| 0 <= t < j ==> block_buf@[t] == prefix@[64 * i + t],
            decreases 64 - j,
        {
            block_buf[j] = prefix[i * 64 + j];
            j += 1;
        }
        assert(block_buf@ =~= block_bytes(prefix@, i as int));
        let block = words_from_le_bytes(&block_buf);
        let this_flag = if i == 0 {
            FLAG_CHUNK_START
        } else {
            0
        };
        state = compress8(&state, &block, 0, 64, this_flag);
        proof {
            lemma_start_flag(i as int);
        }
        flags = flags & !FLAG_CHUNK_START;
        i += 1;
    }
    let rest = prefix.len() - blocks * 64;
    let mut residual = [0u8; 64];
    let mut j: usize = 0;
    while j < rest
        invariant
            j <= rest,
            rest == prefix@.len() - blocks * 64,
            rest < 64,
            blocks == prefix@.len() / 64,
            prefix@.len() <= MAX_PREFIX_LEN,
            forall|t: int| 0 <= t < j ==> residual@[t] == prefix@[64 * blocks + t],
            forall|t: int| j <= t < 64 ==> residual@[t] == 0u8,
        decreases rest - j,
    {
        residual[j] = prefix[blocks * 64 + j];
        j += 1;
    }
    assert(residual@ =~= block_bytes(prefix@, blocks as int));
    Some((state, residual, rest, flags))
}

/// Fills the block behind its first `rem_len` bytes with digits taken from
/// `working_set`: a head digit between 1 and 8, then the lowest decimal digits
/// of what is left. Returns the number that the digits spell and the rest of
/// the working set.
fn fill_block(salt_residual: &mut [u8; 64], rem_len: usize, working_set: u32) -> (res: (u64, u32))
    requires
        55 <= rem_len < 64,
    ensures
        forall|j: int| 0 <= j < rem_len ==> final(salt_residual)@[j] == old(salt_residual)@[j],
        final(salt_residual)@.subrange(rem_len as int, 64) == ascii_decimal(res.0 as nat),
        res.0 == append_fixed(
            working_set as nat % 8 + 1,
            working_set as nat / 8,
            (63 - rem_len) as nat,
        ),
        res.1 == after_fill(rem_len as nat, working_set as nat),
        1 <= res.0 < pow10((64 - rem_len) as nat),
        res.1 * pow10((64 - rem_len) as nat) <= fill_limit(),
{
    let ghost ws0 = working_set as nat;
    let ghost r0 = rem_len as nat;
    let head_digit = (working_set % 8) as u8 + 1;
    let mut nonce_addend = head_digit as u64;
    salt_residual[rem_len] = head_digit + 48;
    let mut working_set = working_set / 8;
    let ghost mut scale: nat = 10;
    let ghost mut c: nat = 1;
    proof {
        lemma_pow10_values();
        assert(salt_residual@.subrange(rem_len as int, rem_len + 1) =~= ascii_decimal(
            nonce_addend as nat,
        ));
    }
    let mut x = rem_len + 1;
    while x < 64
        invariant
            55 <= rem_len < 64,
            rem_len == r0,
            rem_len + 1 <= x <= 64,
            forall|j: int| 0 <= j < rem_len ==> salt_residual@[j] == old(salt_residual)@[j],
            salt_residual@.subrange(rem_len as int, x as int) == ascii_decimal(nonce_addend as nat),
            c == x - rem_len,
            scale == pow10(c),
            1 <= nonce_addend < scale,
            working_set * scale <= fill_limit(),
            append_fixed(nonce_addend as nat, working_set as nat, (64 - x) as nat) == append_fixed(
                ws0 % 8 + 1,
                ws0 / 8,
                (63 - r0) as nat,
            ),
            working_set as nat / pow10((64 - x) as nat) == after_fill(r0, ws0),
        decreases 64 - x,
    {
        let digit = working_set % 10;
        let ghost before = salt_residual@;
        proof {
            lemma_pow10_increasing(c, 9);
            lemma_pow10_values();
            lemma_scale_after_digit(working_set as nat, scale);
            lemma_pow10_positive((63 - x) as nat);
            lemma_div_denominator(working_set as int, 10, pow10((63 - x) as nat) as int);
            assert(ascii_decimal((nonce_addend * 10 + digit) as nat) == ascii_decimal(
                nonce_addend as nat,
            ).push(digit_char(digit as int)));
        }
        salt_residual[x] = digit as u8 + 48;
        proof {
            assert(salt_residual@.subrange(rem_len as int, x + 1) =~= before.subrange(
                rem_len as int,
                x as int,
            ).push(digit_char(digit as int)));
            scale = scale * 10;
            c = c + 1;
        }
        nonce_addend = nonce_addend * 10 + digit as u64;
        working_set = working_set / 10;
        x += 1;
    }
    proof {
        assert(pow10(0) == 1);
        assert(working_set as nat / 1 == working_set as nat);
    }
    (nonce_addend, working_set)
}

/// Writes the leading digits of the search range into the block from
/// position `start` on: a head digit between 1 and 9, then the decimal digits
/// of what is left of `working_set`, least significant first, until nothing
/// is left. `acc` is the number that the digits placed earlier spell (zero if
/// there are none). Returns the number that all digits spell together and the
/// position of the last digit written.
fn place_digits(
    salt_residual: &mut [u8; 64],
    start: usize,
    acc: u64,
    working_set: u32,
    Ghost(c0): Ghost<nat>,
) -> (res: (u64, usize))
    requires
        c0 <= 9,
        start <= 54 + c0,
        acc < pow10(c0),
        c0 > 0 ==> acc >= 1,
        working_set * pow10(c0) <= fill_limit(),
        forall|j: int| start <= j < 64 ==> old(salt_residual)@[j] == 0u8,
    ensures
        start <= res.1 < 64,
        forall|j: int| 0 <= j < start ==> final(salt_residual)@[j] == old(salt_residual)@[j],
        forall|j: int| res.1 < j < 64 ==> final(salt_residual)@[j] == 0u8,
        ascii_decimal(res.0 as nat) == (if acc > 0 {
            ascii_decimal(acc as nat)
        } else {
            Seq::empty()
        }) + final(salt_residual)@.subrange(start as int, res.1 + 1),
        res.0 == append_greedy(
            (acc * 10 + working_set % 9 + 1) as nat,
            working_set as nat / 9,
        ),
        res.1 == start + greedy_count(working_set as nat / 9),
        1 <= res.0 < 10_000_000_000,
{
    let ghost lead = if acc > 0 {
        ascii_decimal(acc as nat)
    } else {
        Seq::empty()
    };
    let ghost ws0 = working_set as nat;
    let ghost mut scale: nat = pow10(c0);
    let ghost mut c: nat = c0;
    let mut ptr = start;
    let head_digit = (working_set % 9) as u8 + 1;
    proof {
        lemma_pow10_values();
        lemma_pow10_increasing(c, 10);
        lemma_scale_after_head(working_set as nat, scale, fill_limit());
        if acc > 0 {
            assert(ascii_decimal((acc * 10 + head_digit) as nat) == ascii_decimal(acc as nat).push(
                digit_char(head_digit as int),
            ));
        }
        scale = scale * 10;
        c = c + 1;
    }
    salt_residual[ptr] = head_digit + 48;
    let mut nonce_addend = acc * 10 + head_digit as u64;
    let mut working_set = working_set / 9;
    proof {
        assert(lead + salt_residual@.subrange(start as int, ptr + 1) =~= lead.push(
            digit_char(head_digit as int),
        ));
    }
    while working_set != 0
        invariant
            c0 <= 9,
            start <= 54 + c0,
            c0 + 1 <= c <= 10,
            ptr == start + (c - c0 - 1),
            forall|j: int| 0 <= j < start ==> salt_residual@[j] == old(salt_residual)@[j],
            forall|j: int| ptr < j < 64 ==> salt_residual@[j] == 0u8,
            ascii_decimal(nonce_addend as nat) == lead + salt_residual@.subrange(
                start as int,
                ptr + 1,
            ),
            scale == pow10(c),
            1 <= nonce_addend < scale,
            working_set * scale <= place_limit(),
            append_greedy(nonce_addend as nat, working_set as nat) == append_greedy(
                (acc * 10 + ws0 % 9 + 1) as nat,
                ws0 / 9,
            ),
            ptr + greedy_count(working_set as nat) == start + greedy_count(ws0 / 9),
        decreases working_set,
    {
        proof {
            lemma_digits_bounded(working_set as nat, c);
            lemma_pow10_increasing(c, 10);
            lemma_pow10_values();
            lemma_scale_after_digit(working_set as nat, scale);
        }
        ptr += 1;
        let digit = working_set % 10;
        let ghost before = salt_residual@;
        proof {
            assert(ascii_decimal((nonce_addend * 10 + digit) as nat) == ascii_decimal(
                nonce_addend as nat,
            ).push(digit_char(digit as int)));
        }
        salt_residual[ptr] = digit as u8 + 48;
        proof {
            assert(lead + salt_residual@.subrange(start as int, ptr + 1) =~= (lead
                + before.subrange(start as int, ptr as int)).push(digit_char(digit as int)));
            scale = scale * 10;
            c = c + 1;
        }
        nonce_addend = nonce_addend * 10 + digit as u64;
        working_set = working_set / 10;
    }
    proof {
        lemma_pow10_values();
        if c < 10 {
            lemma_pow10_increasing(c, 10);
        }
    }
    (nonce_addend, ptr)
}

/// Completes a block that cannot hold the search digits: fills it up with
/// digits of `working_set`, absorbs it, and clears it for the block that
/// follows. Returns what `fill_block` returns.
fn absorb_filled_block(
    prefix_state: &mut [u32; 8],
    salt_residual: &mut [u8; 64],
    rem_len: usize,
    flags: &mut u32,
    working_set: u32,
    Ghost(salt): Ghost<Seq<u8>>,
) -> (res: (u64, u32))
    requires
        55 <= rem_len < 64,
        rem_len == salt.len() % 64,
        old(prefix_state)@ == chunk_state(salt, (salt.len() / 64) as nat),
        old(salt_residual)@ == block_bytes(salt, (salt.len() / 64) as int),
        *old(flags) == final_flags((salt.len() / 64) as int),
    ensures
        final(prefix_state)@ == chunk_state(
            salt + ascii_decimal(res.0 as nat),
            (salt.len() / 64 + 1) as nat,
        ),
        (salt + ascii_decimal(res.0 as nat)).len() == 64 * (salt.len() / 64 + 1),
        forall|j: int| 0 <= j < 64 ==> final(salt_residual)@[j] == 0u8,
        *final(flags) == final_flags((salt.len() / 64 + 1) as int),
        res.0 == append_fixed(
            working_set as nat % 8 + 1,
            working_set as nat / 8,
            (63 - rem_len) as nat,
        ),
        res.1 == after_fill(rem_len as nat, working_set as nat),
        1 <= res.0 < pow10((64 - rem_len) as nat),
        res.1 * pow10((64 - rem_len) as nat) <= fill_limit(),
{
    let ghost nb = (salt.len() / 64) as nat;
    let filled = fill_block(salt_residual, rem_len, working_set);
    let ghost base = salt + ascii_decimal(filled.0 as nat);
    proof {
        assert(ascii_decimal(filled.0 as nat).len() == 64 - rem_len);
        assert forall|j: int| 0 <= j < 64 implies salt_residual@[j] == block_bytes(
            base,
            nb as int,
        )[j] by {
            if j >= rem_len {
                assert(salt_residual@.subrange(rem_len as int, 64)[j - rem_len]
                    == salt_residual@[j]);
            }
        }
        assert(salt_residual@ =~= block_bytes(base, nb as int));
        lemma_start_flag(nb as int);
        lemma_chunk_state_reads_prefix(salt, base, nb);
    }
    let block = words_from_le_bytes(salt_residual);
    let next = compress8(prefix_state, &block, 0, 64, FLAG_CHUNK_START & *flags);
    *prefix_state = next;
    *flags = *flags & !FLAG_CHUNK_START;
    *salt_residual = [0u8; 64];
    filled
}

/// A prepared message absorbs the text that its fields were built from.
proof fn lemma_built_message(m: CerberusMessage, salt: Seq<u8>, text: Seq<u8>, value: nat)
    requires
        salt.len() <= MAX_PREFIX_LEN,
        text == salt + ascii_decimal(value),
        1 <= value < 10_000_000_000,
        m.nonce_addend == value * 1_000_000_000,
        m.salt_residual_len + 9 <= 64,
        text.len() == 64 * (text.len() / 64) + m.salt_residual_len,
        text.len() / 64 <= 15,
        m.prefix_state@ == chunk_state(text, (text.len() / 64) as nat),
        m.flags == final_flags(text.len() as int / 64),
        forall|j: int|
            0 <= j < m.salt_residual_len ==> m.salt_residual@[j] == text[64 * (text.len() / 64)
                + j],
        forall|j: int|
            m.salt_residual_len <= j < m.salt_residual_len + 9 ==> m.salt_residual@[j] == 48u8,
        forall|j: int| m.salt_residual_len + 9 <= j < 64 ==> m.salt_residual@[j] == 0u8,
    ensures
        m.wf(),
        m.commits_to(salt),
{
    assert((value * 1_000_000_000) / 1_000_000_000 == value);
    assert(m.addend() / 1_000_000_000 == value);
}

/// Where the digits written from `start` to `last` complete the notation of
/// `value` that `lead` begins, the block holds the end of the text made of
/// `salt` and that notation.
proof fn lemma_placed_text(
    salt: Seq<u8>,
    lead: Seq<u8>,
    value: nat,
    block_start: Seq<u8>,
    block: Seq<u8>,
    nb: nat,
    start: int,
    last: int,
)
    requires
        block.len() == 64,
        block_start.len() == 64,
        0 <= start <= last < 64,
        (salt + lead).len() == 64 * nb + start,
        forall|j: int| 0 <= j < start ==> block_start[j] == (salt + lead)[64 * nb + j],
        forall|j: int| 0 <= j < start ==> block[j] == block_start[j],
        ascii_decimal(value) == lead + block.subrange(start, last + 1),
    ensures
        (salt + ascii_decimal(value)).len() == 64 * nb + last + 1,
        forall|j: int| 0 <= j <= last ==> block[j] == (salt + ascii_decimal(value))[64 * nb + j],
        forall|i: int| 0 <= i < 64 * nb ==> (salt + ascii_decimal(value))[i] == (salt + lead)[i],
{
    let tail = block.subrange(start, last + 1);
    let text = salt + ascii_decimal(value);
    assert(text =~= (salt + lead) + tail);
    assert forall|j: int| 0 <= j <= last implies block[j] == text[64 * nb + j] by {
        if j >= start {
            assert(tail[j - start] == block[j]);
        }
    }
}

/// Writes nine `'0'` characters from position `at` on.
fn zero_search_digits(block: &mut [u8; 64], at: usize)
    requires
        at + 9 <= 64,
    ensures
        forall|j: int| 0 <= j < 64 && !(at <= j < at + 9) ==> final(block)@[j] == old(block)@[j],
        forall|j: int| at <= j < at + 9 ==> final(block)@[j] == 48u8,
{
    let mut i: usize = 0;
    while i < 9
        invariant
            i <= 9,
            at + 9 <= 64,
            forall|j: int| 0 <= j < 64 && !(at <= j < at + i) ==> block@[j] == old(block)@[j],
            forall|j: int| at <= j < at + i ==> block@[j] == 48u8,
        decreases 9 - i,
    {
        block[at + i] = 48;
        i += 1;
    }
}

impl CerberusMessage {
    /// Create a new Cerberus message
    ///
    /// Absorbs the whole blocks of `salt`, turns `working_set` into the
    /// leading nonce digits and writes them behind the rest of the salt, and
    /// leaves nine `'0'` characters behind them for the search. Where the rest
    /// of the salt leaves no room for nine digits, its block is first filled
    /// up with digits and absorbed as well.
    ///
    /// Returns `None` for a salt of more than `MAX_PREFIX_LEN` bytes, and where
    /// the leading digits leave no room for the search digits.
    pub fn new(salt: &[u8], working_set: u32) -> (res: Option<Self>)
        ensures
            res is Some <==> salt@.len() <= MAX_PREFIX_LEN && has_room(
                (salt@.len() % 64) as nat,
                working_set as nat,
            ),
            res matches Some(m) ==> {
                &&& m.wf()
                &&& m.commits_to(salt@)
                &&& m.addend() == placed_value((salt@.len() % 64) as nat, working_set as nat)
                    * 1_000_000_000
                &&& m.residual_len() == placed_len((salt@.len() % 64) as nat, working_set as nat)
            },
    {
        let mut working_set = working_set;
        let (mut prefix_state, mut salt_residual, rem_len, mut flags) = match absorb(salt) {
            Some(parts) => parts,
            None => {
                return None;
            },
        };
        let mut ptr = rem_len;
        let mut nonce_addend: u64 = 0;
        let ghost mut lead = Seq::<u8>::empty();
        let ghost mut nb = (salt@.len() / 64) as nat;
        let ghost mut c: nat = 0;
        proof {
            lemma_pow10_values();
            assert(salt@ + lead =~= salt@);
        }
        if rem_len >= 55 {
            // not enough room for 9 digits: pad the block with digits and absorb it
            let filled = absorb_filled_block(
                &mut prefix_state,
                &mut salt_residual,
                rem_len,
                &mut flags,
                working_set,
                Ghost(salt@),
            );
            nonce_addend = filled.0;
            working_set = filled.1;
            ptr = 0;
            proof {
                lead = ascii_decimal(nonce_addend as nat);
                c = (64 - rem_len) as nat;
                nb = nb + 1;
            }
        }
        let ghost block_start = salt_residual@;
        let ghost start = ptr as int;
        let placed = place_digits(&mut salt_residual, ptr, nonce_addend, working_set, Ghost(c));
        nonce_addend = placed.0;
        ptr = placed.1;

        if ptr + 9 >= 64 {
            return None;
        }
        let ghost text = salt@ + ascii_decimal(nonce_addend as nat);
        proof {
            lemma_placed_text(
                salt@,
                lead,
                nonce_addend as nat,
                block_start,
                salt_residual@,
                nb,
                start,
                ptr as int,
            );
            lemma_chunk_state_reads_prefix(salt@ + lead, text, nb);
        }
        ptr += 1;
        zero_search_digits(&mut salt_residual, ptr);

        let message = Self {
            prefix_state,
            salt_residual_len: ptr,
            salt_residual,
            flags,
            nonce_addend: nonce_addend * 1_000_000_000,
        };
        proof {
            lemma_built_message(message, salt@, text, nonce_addend as nat);
        }
        Some(message)
    }
}

impl CerberusMessage {
    /// The chaining value after the absorbed blocks.
    pub fn prefix_state(&self) -> (r: &[u32; 8])
        ensures
            r@ == self.chaining(),
    {
        &self.prefix_state
    }

    /// The final block as prepared.
    pub fn salt_residual(&self) -> (r: &[u8; 64])
        ensures
            r@ == self.residual(),
    {
        &self.salt_residual
    }

    /// Number of bytes in the final block that precede the search digits.
    pub fn salt_residual_len(&self) -> (r: usize)
        ensures
            r == self.residual_len(),
    {
        self.salt_residual_len
    }

    /// The flags of the final compression.
    pub fn flags(&self) -> (r: u32)
        ensures
            r == self.block_flags(),
    {
        self.flags
    }

    /// The nonce that the all-zero search digits stand for.
    pub fn nonce_addend(&self) -> (r: u64)
        ensures
            r == self.addend(),
    {
        self.nonce_addend
    }
}

/// Writes the last nine decimal digits of `value` at `at`, most significant
/// first.
pub fn write_search_digits(block: &mut [u8; 64], at: usize, value: u64)
    requires
        at + 9 <= 64,
    ensures
        forall|j: int| 0 <= j < 64 && !(at <= j < at + 9) ==> final(block)@[j] == old(block)@[j],
        final(block)@.subrange(at as int, at + 9) == fixed_digits(value as nat, 9),
{
    let mut rest = value;
    let mut i: usize = 9;
    let ghost digits = fixed_digits(value as nat, 9);
    proof {
        lemma_pow10_values();
        lemma_fixed_digits_len(value as nat, 9);
        assert(value as nat / 1 == value as nat);
    }
    while i > 0
        invariant
            i <= 9,
            at + 9 <= 64,
            digits == fixed_digits(value as nat, 9),
            digits.len() == 9,
            rest == value as nat / pow10((9 - i) as nat),
            forall|j: int| 0 <= j < 64 && !(at <= j < at + 9) ==> block@[j] == old(block)@[j],
            forall|j: int| at + i <= j < at + 9 ==> block@[j] == digits[j - at],
        decreases i,
    {
        i -= 1;
        proof {
            lemma_fixed_digit_at(value as nat, 9, i as int);
            lemma_pow10_positive((8 - i) as nat);
            lemma_div_denominator(value as int, pow10((8 - i) as nat) as int, 10);
            assert(pow10((9 - i) as nat) == pow10((8 - i) as nat) * 10);
        }
        block[at + i] = (rest % 10) as u8 + 48;
        rest = rest / 10;
    }
    assert(block@.subrange(at as int, at + 9) =~= digits);
}

/// The hash words of a candidate are the BLAKE3 digest of the prefix followed
/// by the decimal notation of the candidate's nonce.
pub proof fn lemma_digest_is_hash(m: CerberusMessage, salt: Seq<u8>, idx: nat)
    requires
        m.wf(),
        m.commits_to(salt),
        idx < 1_000_000_000,
    ensures
        m.digest(idx) == hash_words(salt + ascii_decimal(m.addend() + idx)),
        (salt + ascii_decimal(m.addend() + idx)).len() <= 1024,
{
    let a = m.addend() / 1_000_000_000;
    lemma_pow10_values();
    lemma_ascii_decimal_split(a, idx, 9);
    lemma_fixed_digits_len(idx, 9);
    let text = salt + ascii_decimal(a);
    let full = text + fixed_digits(idx, 9);
    assert(a * pow10(9) + idx == m.addend() + idx);
    assert(salt + ascii_decimal(m.addend() + idx) =~= full);
    let n = (text.len() / 64) as nat;
    assert(full.len() == 64 * n + m.residual_len() + 9);
    assert(last_block(full) == n);
    lemma_chunk_state_reads_prefix(text, full, n);
    assert(block_bytes(full, n as int) =~= m.candidate_block(idx));
}

} // verus!
