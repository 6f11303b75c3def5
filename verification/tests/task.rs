use cerberus_pow::lanes::{
    u32x4, u32x4_add, u32x4_all_true, u32x4_extract_lane, u32x4_ror, u32x4_shl, u32x4_shr,
    u32x4_splat, v128_and, v128_load, v128_or, v128_store, v128_xor,
};
use cerberus_pow::task::solve_task;
use cerberus_pow::{compute_mask_cerberus, encode_hex_le, swap_bytes, Align64, CerberusMessage};
use std::cell::Cell;

fn reference_words(bytes: &[u8]) -> [u32; 8] {
    let digest = blake3::hash(bytes);
    let raw = digest.as_bytes();
    core::array::from_fn(|i| {
        u32::from_le_bytes([raw[i * 4], raw[i * 4 + 1], raw[i * 4 + 2], raw[i * 4 + 3]])
    })
}

fn check_solution(prefix: &[u8], df: u8, nonce: u64, hash: [u32; 8]) {
    let mut msg = prefix.to_vec();
    msg.extend_from_slice(format!("{}", nonce).as_bytes());
    let digest = blake3::hash(&msg);
    assert_eq!(hash, reference_words(&msg));
    let first = u32::from_be_bytes(digest.as_bytes()[..4].try_into().unwrap());
    assert!(first.leading_zeros() >= 2 * df as u32);
}

#[test]
fn mask_values() {
    assert_eq!(compute_mask_cerberus(1), 0x0000_00c0);
    assert_eq!(compute_mask_cerberus(4), 0x0000_00ff);
    assert_eq!(compute_mask_cerberus(5), 0x0000_c0ff);
    assert_eq!(compute_mask_cerberus(8), 0x0000_ffff);
    assert_eq!(compute_mask_cerberus(15), 0xfcff_ffff);
    assert_eq!(compute_mask_cerberus(16), 0xffff_ffff);
    for df in 1u8..=15 {
        let expected = (!(!0u32 >> (df * 2))).swap_bytes();
        assert_eq!(compute_mask_cerberus(df), expected);
        assert_eq!(compute_mask_cerberus(df), compute_mask_cerberus(df));
    }
}

#[test]
fn mask_counts_leading_zero_dibits() {
    for df in 1u8..=16 {
        let mask = compute_mask_cerberus(df);
        for word in [0u32, 1, 0x80, 0x40, 0xc0ff, 0x0100, 0x8000_0000, 0x00ff_ffff, 0xffff_ffff] {
            let big_endian = u32::from_be_bytes(word.to_le_bytes());
            assert_eq!(word & mask == 0, big_endian.leading_zeros() >= 2 * df as u32);
        }
    }
}

#[test]
fn bytes_are_swapped() {
    assert_eq!(swap_bytes(0x1234_5678), 0x7856_3412);
    assert_eq!(swap_bytes(0xff00_0000), 0x0000_00ff);
    for x in [0u32, 1, 0xdead_beef, 0x8000_0001, u32::MAX] {
        assert_eq!(swap_bytes(x), x.swap_bytes());
    }
}

#[test]
fn hash_is_written_in_hex() {
    let mut out = [0u8; 64];
    encode_hex_le(&mut out, [0x0123_4567, 0x89ab_cdef, 0, 0xffff_ffff, 1, 0x10, 0xa0b0_c0d0, 0x0f]);
    assert_eq!(
        &out[..],
        &b"67452301efcdab8900000000ffffffff0100000010000000d0c0b0a00f000000"[..]
    );
    let digest = blake3::hash(b"abc");
    encode_hex_le(&mut out, reference_words(b"abc"));
    assert_eq!(core::str::from_utf8(&out).unwrap(), digest.to_hex().as_str());
}

#[test]
fn align64_hands_its_value_through() {
    let mut wrapped = Align64::from([1u32, 2, 3]);
    assert_eq!(wrapped.0, [1, 2, 3]);
    assert_eq!(wrapped.len(), 3);
    wrapped[1] = 7;
    assert_eq!(*wrapped, [1, 7, 3]);
    assert_eq!(wrapped, Align64([1, 7, 3]));
}

#[test]
fn lanes_are_independent() {
    let a = u32x4(1, 0xffff_ffff, 0x8000_0000, 0);
    let b = u32x4(2, 1, 0x8000_0000, 0);
    assert_eq!(u32x4_add(a, b).0, [3, 0, 0, 0]);
    assert_eq!(v128_xor(a, b).0, [3, 0xffff_fffe, 0, 0]);
    assert_eq!(v128_or(a, b).0, [3, 0xffff_ffff, 0x8000_0000, 0]);
    assert_eq!(v128_and(a, b).0, [0, 1, 0x8000_0000, 0]);
    assert_eq!(u32x4_shr(a, 4).0, [0, 0x0fff_ffff, 0x0800_0000, 0]);
    assert_eq!(u32x4_shl(a, 4).0, [16, 0xffff_fff0, 0, 0]);
    assert_eq!(u32x4_ror(a, 1).0, [0x8000_0000, 0xffff_ffff, 0x4000_0000, 0]);
    assert_eq!(u32x4_ror(b, 16).0, [2u32.rotate_right(16), 1 << 16, 0x8000, 0]);
    assert_eq!(u32x4_splat(9).0, [9; 4]);
    assert!(u32x4_all_true(u32x4(1, 2, 3, 4)));
    assert!(!u32x4_all_true(u32x4(1, 2, 0, 4)));
    assert!(!u32x4_all_true(u32x4(0, 2, 3, 4)));
    assert!(!u32x4_all_true(u32x4(1, 2, 3, 0)));
    assert_eq!(u32x4_extract_lane::<0>(a), 1);
    assert_eq!(u32x4_extract_lane::<3>(u32x4(5, 6, 7, 8)), 8);
    let words = [10u32, 11, 12, 13, 14, 15];
    assert_eq!(v128_load(&words, 1).0, [11, 12, 13, 14]);
    assert_eq!(v128_load(&words, 2).0, [12, 13, 14, 15]);
    let mut out = [0u32; 4];
    v128_store(&mut out, a);
    assert_eq!(out, a.0);
}

#[test]
fn empty_prefix_is_solved() {
    let mask = compute_mask_cerberus(5);
    let (nonce, hash) = solve_task(b"", mask, 0, 1, |_| {}).unwrap();
    assert_eq!(hash[0] & mask, 0);
    check_solution(b"", 5, nonce, hash);
}

#[test]
fn prefix_one_short_of_a_block_is_solved() {
    let prefix: Vec<u8> = (0..63).map(|i| b'a' + (i % 26) as u8).collect();
    let message = CerberusMessage::new(&prefix, 0).unwrap();
    assert_eq!(message.salt_residual_len(), 1);
    assert!(message.nonce_addend() > 0);
    let mask = compute_mask_cerberus(5);
    let (nonce, hash) = solve_task(&prefix, mask, 0, 1, |_| {}).unwrap();
    check_solution(&prefix, 5, nonce, hash);

    // a residue of 51 bytes puts the center word at index 13 and the lane word last
    let prefix: Vec<u8> = (0..50).map(|i| b'a' + (i % 26) as u8).collect();
    let message = CerberusMessage::new(&prefix, 0).unwrap();
    assert_eq!(message.salt_residual_len(), 51);
    let (nonce, hash) = solve_task(&prefix, mask, 0, 1, |_| {}).unwrap();
    check_solution(&prefix, 5, nonce, hash);
}

#[test]
fn two_whole_blocks_are_absorbed() {
    let prefix: Vec<u8> = (0..128u32).map(|i| b'a'.wrapping_add(i as u8)).collect();
    let mask = compute_mask_cerberus(6);
    let (nonce, hash) = solve_task(&prefix, mask, 0, 1, |_| {}).unwrap();
    check_solution(&prefix, 6, nonce, hash);
}

#[test]
fn overflowing_prefix_is_solved_with_its_addend() {
    let prefix = [b'q'; 55];
    let mask = compute_mask_cerberus(7);
    let (nonce, hash) = solve_task(&prefix, mask, 0, 1, |_| {}).unwrap();
    assert!(nonce >= 1_000_000_001_000_000_000);
    assert!(nonce < 1_000_000_002_000_000_000);
    check_solution(&prefix, 7, nonce, hash);
}

#[test]
fn too_long_prefix_has_no_instance() {
    let prefix = [b'x'; 1001];
    let calls = Cell::new(0u32);
    let mask = compute_mask_cerberus(5);
    assert!(solve_task(&prefix, mask, 0, 1, |_| calls.set(calls.get() + 1)).is_none());
    assert_eq!(calls.get(), 0);
}

#[test]
fn workers_start_from_their_own_working_set() {
    let prefix = b"shared challenge|";
    let mask = compute_mask_cerberus(5);
    let mut nonces = Vec::new();
    for thread_id in 0..4 {
        let (nonce, hash) = solve_task(prefix, mask, thread_id, 4, |_| {}).unwrap();
        check_solution(prefix, 5, nonce, hash);
        // working sets 0..4 place the head digits 1..5 in front of nine digits
        assert_eq!(nonce / 1_000_000_000, thread_id as u64 + 1);
        nonces.push(nonce);
    }
    nonces.sort();
    nonces.dedup();
    assert_eq!(nonces.len(), 4);
}
