use cerberus_pow::blake3::simd128::{compress_mb4_reduced, g4, g4_a_only};
use cerberus_pow::blake3::{
    compress, compress8, g, ingest_message_prefix, rotate_right, round, FLAG_CHUNK_END,
    FLAG_CHUNK_START, FLAG_ROOT, IV, MESSAGE_SCHEDULE,
};
use cerberus_pow::lanes::{u32x4, u32x4_extract_lane, u32x4_splat, v128_store, U32x4};

// The mixing function, G, which mixes either a column or a diagonal.
fn gref(state: &mut [u32; 16], a: usize, b: usize, c: usize, d: usize, mx: u32, my: u32) {
    state[a] = state[a].wrapping_add(state[b]).wrapping_add(mx);
    state[d] = (state[d] ^ state[a]).rotate_right(16);
    state[c] = state[c].wrapping_add(state[d]);
    state[b] = (state[b] ^ state[c]).rotate_right(12);
    state[a] = state[a].wrapping_add(state[b]).wrapping_add(my);
    state[d] = (state[d] ^ state[a]).rotate_right(8);
    state[c] = state[c].wrapping_add(state[d]);
    state[b] = (state[b] ^ state[c]).rotate_right(7);
}

fn reference_words(bytes: &[u8]) -> [u32; 8] {
    let digest = blake3::hash(bytes);
    let raw = digest.as_bytes();
    core::array::from_fn(|i| {
        u32::from_le_bytes([raw[i * 4], raw[i * 4 + 1], raw[i * 4 + 2], raw[i * 4 + 3]])
    })
}

fn block_bytes(block: &[u32; 16]) -> Vec<u8> {
    let mut bytes = Vec::new();
    for w in block.iter() {
        bytes.extend_from_slice(&w.to_le_bytes());
    }
    bytes
}

#[test]
fn test_g_function() {
    let mut state = core::array::from_fn(|i| IV[i % 8].wrapping_add(i as u32));
    let mut state_v: [U32x4; 16] = core::array::from_fn(|i| u32x4_splat(state[i]));
    gref(&mut state, 0, 4, 8, 12, IV[0], IV[1]);
    let [va, vb, vc, vd] = state_v.get_disjoint_mut([0, 4, 8, 12]).unwrap();
    g4(va, vb, vc, vd, u32x4_splat(IV[0]), u32x4_splat(IV[1]));

    for i in 0..16 {
        assert_eq!(
            u32x4_extract_lane::<0>(state_v[i]),
            state[i],
            "word {}: expected: {:08x}, results: {:08x}",
            i,
            state[i],
            u32x4_extract_lane::<0>(state_v[i])
        );
    }
}

#[test]
fn test_compress_mb16_reduced() {
    let block_template: [u32; 16] = core::array::from_fn(|i| i as u32);
    let prepared_state = ingest_message_prefix(
        IV,
        &block_template[..4],
        0,
        64,
        FLAG_CHUNK_START | FLAG_CHUNK_END | FLAG_ROOT,
    );

    let mut v: [U32x4; 16] = core::array::from_fn(|i| u32x4_splat(prepared_state[i]));
    let patch = u32x4(1, 2, 3, 4);
    compress_mb4_reduced::<4, 15>(&mut v, &block_template, patch);

    let mut extract_h0 = [0u32; 4];
    v128_store(&mut extract_h0, v[0]);
    for validate_val in 0..4 {
        let mut equiv_msg = block_template.clone();
        equiv_msg[15] = validate_val + 1;
        let mut ref_hasher = blake3::Hasher::new();
        for j in 0..16 {
            ref_hasher.update(&equiv_msg[j].to_le_bytes());
        }
        let ref_hash = ref_hasher.finalize();
        let ref_hash = ref_hash.as_bytes();
        let ref_hash_h0 = u32::from_le_bytes(ref_hash[..4].try_into().unwrap());
        assert_eq!(extract_h0[validate_val as usize], ref_hash_h0);
    }
}

#[test]
fn g_matches_reference_on_a_diagonal() {
    let mut expected: [u32; 16] =
        core::array::from_fn(|i| 0x9e3779b9u32.wrapping_mul(i as u32 + 1));
    let mut actual = expected;
    gref(&mut expected, 1, 6, 11, 12, 0xdeadbeef, 0x01234567);
    g(&mut actual, 1, 6, 11, 12, 0xdeadbeef, 0x01234567);
    assert_eq!(actual, expected);
}

#[test]
fn rotate_right_matches_std() {
    for &n in [7u32, 8, 12, 16].iter() {
        assert_eq!(rotate_right(0x8000_0001, n), 0x8000_0001u32.rotate_right(n));
        assert_eq!(rotate_right(0x1234_5678, n), 0x1234_5678u32.rotate_right(n));
    }
    assert_eq!(rotate_right(0x0000_00ff, 8), 0xff00_0000);
}

#[test]
fn round_is_eight_mixes_in_schedule_order() {
    let m: [u32; 16] = core::array::from_fn(|i| 0x1111_1111u32.wrapping_mul(i as u32));
    let mut expected: [u32; 16] = core::array::from_fn(|i| IV[i % 8] ^ i as u32);
    let mut actual = expected;
    let s = MESSAGE_SCHEDULE[3];
    gref(&mut expected, 0, 4, 8, 12, m[s[0]], m[s[1]]);
    gref(&mut expected, 1, 5, 9, 13, m[s[2]], m[s[3]]);
    gref(&mut expected, 2, 6, 10, 14, m[s[4]], m[s[5]]);
    gref(&mut expected, 3, 7, 11, 15, m[s[6]], m[s[7]]);
    gref(&mut expected, 0, 5, 10, 15, m[s[8]], m[s[9]]);
    gref(&mut expected, 1, 6, 11, 12, m[s[10]], m[s[11]]);
    gref(&mut expected, 2, 7, 8, 13, m[s[12]], m[s[13]]);
    gref(&mut expected, 3, 4, 9, 14, m[s[14]], m[s[15]]);
    round(&mut actual, &m, 3);
    assert_eq!(actual, expected);
}

#[test]
fn compress8_matches_reference_on_full_block() {
    let block: [u32; 16] =
        core::array::from_fn(|i| (i as u32).wrapping_mul(0x01010101) ^ 0xdeadbeef);
    let flags = FLAG_CHUNK_START | FLAG_CHUNK_END | FLAG_ROOT;
    let out = compress8(&IV, &block, 0, 64, flags);
    assert_eq!(out, reference_words(&block_bytes(&block)));
}

#[test]
fn compress8_matches_reference_on_short_block() {
    // "abc" padded with zeros, block length 3
    let mut block = [0u32; 16];
    block[0] = u32::from_le_bytes([b'a', b'b', b'c', 0]);
    let flags = FLAG_CHUNK_START | FLAG_CHUNK_END | FLAG_ROOT;
    let out = compress8(&IV, &block, 0, 3, flags);
    assert_eq!(out, reference_words(b"abc"));
    assert_eq!(out[0], 0xacb33764);
}

#[test]
fn compress8_of_empty_input_is_the_empty_hash() {
    let flags = FLAG_CHUNK_START | FLAG_CHUNK_END | FLAG_ROOT;
    let out = compress8(&IV, &[0u32; 16], 0, 0, flags);
    assert_eq!(out, reference_words(b""));
}

#[test]
fn compress8_folds_the_halves_of_compress() {
    let block: [u32; 16] = core::array::from_fn(|i| 0x0f0f_0f0fu32.rotate_left(i as u32));
    let chain: [u32; 8] = core::array::from_fn(|i| IV[7 - i]);
    let wide = compress(&chain, &block, 5, 64, FLAG_CHUNK_END);
    let narrow = compress8(&chain, &block, 5, 64, FLAG_CHUNK_END);
    for i in 0..8 {
        assert_eq!(narrow[i], wide[i] ^ wide[i + 8]);
    }
    // the state by hand: seven rounds over the initial state
    let mut state = [
        chain[0], chain[1], chain[2], chain[3], chain[4], chain[5], chain[6], chain[7], IV[0],
        IV[1], IV[2], IV[3], 5, 0, 64, FLAG_CHUNK_END,
    ];
    for r in 0..7 {
        round(&mut state, &block, r);
    }
    assert_eq!(wide, state);
}

#[test]
fn compress_counter_enters_the_state() {
    let block = [0u32; 16];
    let a = compress8(&IV, &block, 0, 64, 0);
    let b = compress8(&IV, &block, 1, 64, 0);
    let c = compress8(&IV, &block, 1 << 32, 64, 0);
    assert_ne!(a, b);
    assert_ne!(a, c);
    assert_ne!(b, c);
}

#[test]
fn two_blocks_chain_to_the_reference_hash() {
    let bytes: Vec<u8> = (0..128u32).map(|i| (i * 7 + 3) as u8).collect();
    let first: [u32; 16] = core::array::from_fn(|i| {
        u32::from_le_bytes([bytes[4 * i], bytes[4 * i + 1], bytes[4 * i + 2], bytes[4 * i + 3]])
    });
    let second: [u32; 16] = core::array::from_fn(|i| {
        u32::from_le_bytes([
            bytes[64 + 4 * i],
            bytes[64 + 4 * i + 1],
            bytes[64 + 4 * i + 2],
            bytes[64 + 4 * i + 3],
        ])
    });
    let chain = compress8(&IV, &first, 0, 64, FLAG_CHUNK_START);
    let out = compress8(&chain, &second, 0, 64, FLAG_CHUNK_END | FLAG_ROOT);
    assert_eq!(out, reference_words(&bytes));
}

#[test]
fn ingest_runs_one_mix_per_two_words() {
    let msg: [u32; 16] = core::array::from_fn(|i| 0x0101_0101u32.wrapping_mul(i as u32 + 1));
    let flags = FLAG_CHUNK_START | FLAG_CHUNK_END | FLAG_ROOT;
    let mut expected = [
        IV[0], IV[1], IV[2], IV[3], IV[4], IV[5], IV[6], IV[7], IV[0], IV[1], IV[2], IV[3], 0, 0,
        20, flags,
    ];
    assert_eq!(ingest_message_prefix(IV, &msg[..0], 0, 20, flags), expected);
    assert_eq!(ingest_message_prefix(IV, &msg[..1], 0, 20, flags), expected);
    gref(&mut expected, 0, 4, 8, 12, msg[0], msg[1]);
    assert_eq!(ingest_message_prefix(IV, &msg[..2], 0, 20, flags), expected);
    assert_eq!(ingest_message_prefix(IV, &msg[..3], 0, 20, flags), expected);
    gref(&mut expected, 1, 5, 9, 13, msg[2], msg[3]);
    gref(&mut expected, 2, 6, 10, 14, msg[4], msg[5]);
    gref(&mut expected, 3, 7, 11, 15, msg[6], msg[7]);
    gref(&mut expected, 0, 5, 10, 15, msg[8], msg[9]);
    assert_eq!(ingest_message_prefix(IV, &msg[..10], 0, 20, flags), expected);
    gref(&mut expected, 1, 6, 11, 12, msg[10], msg[11]);
    gref(&mut expected, 2, 7, 8, 13, msg[12], msg[13]);
    gref(&mut expected, 3, 4, 9, 14, msg[14], msg[15]);
    assert_eq!(ingest_message_prefix(IV, &msg[..16], 0, 20, flags), expected);
}

#[test]
fn g4_a_only_gives_the_first_word_of_g4() {
    let x = u32x4(1, 2, 3, 4);
    let y = u32x4(0xffff_ffff, 0x8000_0000, 7, 0);
    let start = [u32x4(10, 20, 30, 40), u32x4(5, 6, 7, 8), u32x4(9, 9, 9, 9), u32x4(0, 1, 0, 1)];
    let mut full = start;
    let mut cut = start;
    {
        let [a, b, c, d] = full.get_disjoint_mut([0, 1, 2, 3]).unwrap();
        g4(a, b, c, d, x, y);
    }
    {
        let [a, b, c, d] = cut.get_disjoint_mut([0, 1, 2, 3]).unwrap();
        g4_a_only(a, b, c, d, x, y);
    }
    assert_eq!(full[0].0, cut[0].0);
    // lane 0 by hand: a = 10 + 5 + 1, d = (0 ^ 16) ror 16, c = 9 + d, b = (5 ^ c) ror 12
    let d1 = 16u32.rotate_right(16);
    let c1 = 9u32.wrapping_add(d1);
    let b1 = (5u32 ^ c1).rotate_right(12);
    assert_eq!(cut[3].0[0], d1);
    assert_eq!(cut[2].0[0], c1);
    assert_eq!(cut[1].0[0], b1);
    assert_eq!(cut[0].0[0], 16u32.wrapping_add(b1).wrapping_add(0xffff_ffff));
}

#[test]
fn reduced_kernel_matches_compress8_for_every_split() {
    let flags = FLAG_CHUNK_START | FLAG_CHUNK_END | FLAG_ROOT;
    let template: [u32; 16] = core::array::from_fn(|i| 0x3030_3030u32.wrapping_add(i as u32));
    let chain: [u32; 8] = core::array::from_fn(|i| IV[i].rotate_left(3));
    let patch = [0xaaaa_0001u32, 0xbbbb_0002, 0xcccc_0003, 0xdddd_0004];

    fn run<const C: usize, const P: usize>(
        chain: &[u32; 8],
        template: &[u32; 16],
        patch: [u32; 4],
        flags: u32,
    ) {
        let prepared = ingest_message_prefix(*chain, &template[..C], 0, 37, flags);
        let mut v: [U32x4; 16] = core::array::from_fn(|i| u32x4_splat(prepared[i]));
        compress_mb4_reduced::<C, P>(&mut v, template, U32x4(patch));
        for lane in 0..4 {
            let mut msg = *template;
            msg[P] = patch[lane];
            let expected = compress8(chain, &msg, 0, 37, flags);
            assert_eq!(v[0].0[lane], expected[0], "C = {}, P = {}, lane {}", C, P, lane);
        }
    }
    run::<0, 0>(&chain, &template, patch, flags);
    run::<1, 1>(&chain, &template, patch, flags);
    run::<2, 3>(&chain, &template, patch, flags);
    run::<3, 3>(&chain, &template, patch, flags);
    run::<5, 7>(&chain, &template, patch, flags);
    run::<8, 8>(&chain, &template, patch, flags);
    run::<9, 11>(&chain, &template, patch, flags);
    run::<12, 12>(&chain, &template, patch, flags);
    run::<13, 15>(&chain, &template, patch, flags);
    run::<14, 15>(&chain, &template, patch, flags);
}
