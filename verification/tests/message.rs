use cerberus_pow::blake3::hash::{u32_from_be_bytes, u32_from_le_bytes, words_from_le_bytes};
use cerberus_pow::blake3::{compress8, FLAG_CHUNK_END, FLAG_CHUNK_START, FLAG_ROOT, IV};
use cerberus_pow::decimal::nonce_digits;
use cerberus_pow::message::{absorb, write_search_digits, MAX_PREFIX_LEN};
use cerberus_pow::CerberusMessage;

fn seed(len: usize) -> Vec<u8> {
    (0..len).map(|i| b'a'.wrapping_add(i as u8)).collect()
}

/// The digits in front of the search digits, worked out the long way.
fn leading_digits(rest: usize, working_set: u32) -> String {
    let mut ws = working_set;
    let mut digits = String::new();
    if rest >= 55 {
        digits.push_str(&format!("{}", ws % 8 + 1));
        ws /= 8;
        for _ in (rest + 1)..64 {
            digits.push_str(&format!("{}", ws % 10));
            ws /= 10;
        }
    }
    digits.push_str(&format!("{}", ws % 9 + 1));
    ws /= 9;
    while ws != 0 {
        digits.push_str(&format!("{}", ws % 10));
        ws /= 10;
    }
    digits
}

#[test]
fn empty_prefix_first_working_set() {
    let m = CerberusMessage::new(b"", 0).unwrap();
    assert_eq!(m.nonce_addend(), 1_000_000_000);
    assert_eq!(m.salt_residual_len(), 1);
    assert_eq!(*m.prefix_state(), IV);
    assert_eq!(m.flags(), FLAG_CHUNK_START | FLAG_CHUNK_END | FLAG_ROOT);
    let mut expected = [0u8; 64];
    expected[..10].copy_from_slice(b"1000000000");
    assert_eq!(*m.salt_residual(), expected);
}

#[test]
fn working_set_digits_are_written_low_digit_first() {
    let m = CerberusMessage::new(b"", 8).unwrap();
    assert_eq!(m.nonce_addend(), 9_000_000_000);
    assert_eq!(m.salt_residual_len(), 1);

    let m = CerberusMessage::new(b"", 9).unwrap();
    assert_eq!(m.nonce_addend(), 11_000_000_000);
    assert_eq!(m.salt_residual_len(), 2);
    assert_eq!(&m.salt_residual()[..11], b"11000000000");

    // 98 = 9 * 10 + 8: head digit 9, then the digits of 10 from the low end
    let m = CerberusMessage::new(b"xy", 98).unwrap();
    assert_eq!(m.nonce_addend(), 901_000_000_000);
    assert_eq!(m.salt_residual_len(), 5);
    assert_eq!(&m.salt_residual()[..14], b"xy901000000000");
    assert_eq!(m.salt_residual()[14], 0);
}

#[test]
fn largest_working_set_of_a_short_prefix() {
    // 4294967295 = 9 * 477218588 + 3
    let m = CerberusMessage::new(b"", u32::MAX).unwrap();
    assert_eq!(m.nonce_addend(), 4_885_812_774 * 1_000_000_000);
    assert_eq!(m.salt_residual_len(), 10);
    assert_eq!(&m.salt_residual()[..19], b"4885812774000000000");
}

#[test]
fn prefix_longer_than_the_limit_is_refused() {
    assert_eq!(MAX_PREFIX_LEN, 1000);
    assert!(CerberusMessage::new(&seed(1001), 0).is_none());
    assert!(CerberusMessage::new(&seed(2000), 5).is_none());
    assert!(CerberusMessage::new(&seed(1000), 0).is_some());
    assert!(absorb(&seed(1001)).is_none());
    assert!(absorb(&seed(1000)).is_some());
}

#[test]
fn no_room_for_the_search_digits_is_refused() {
    // 54 bytes and one digit leave nine places; a second digit leaves eight
    let m = CerberusMessage::new(&seed(54), 8).unwrap();
    assert_eq!(m.salt_residual_len(), 55);
    assert!(CerberusMessage::new(&seed(54), 9).is_none());
    assert!(CerberusMessage::new(&seed(53), 89).is_some());
    assert!(CerberusMessage::new(&seed(53), 90).is_none());
    assert!(CerberusMessage::new(&seed(46), u32::MAX).is_none());
    assert!(CerberusMessage::new(&seed(45), u32::MAX).is_some());
}

#[test]
fn absorb_folds_whole_blocks() {
    let prefix = seed(150);
    let (chain, residual, len, flags) = absorb(&prefix).unwrap();
    let first: [u8; 64] = prefix[..64].try_into().unwrap();
    let second: [u8; 64] = prefix[64..128].try_into().unwrap();
    let c1 = compress8(&IV, &words_from_le_bytes(&first), 0, 64, FLAG_CHUNK_START);
    let c2 = compress8(&c1, &words_from_le_bytes(&second), 0, 64, 0);
    assert_eq!(chain, c2);
    assert_eq!(len, 22);
    assert_eq!(&residual[..22], &prefix[128..]);
    assert!(residual[22..].iter().all(|b| *b == 0));
    assert_eq!(flags, FLAG_CHUNK_END | FLAG_ROOT);

    let (chain, residual, len, flags) = absorb(&prefix[..63]).unwrap();
    assert_eq!(chain, IV);
    assert_eq!(len, 63);
    assert_eq!(&residual[..63], &prefix[..63]);
    assert_eq!(flags, FLAG_CHUNK_START | FLAG_CHUNK_END | FLAG_ROOT);

    let (_, residual, len, flags) = absorb(&prefix[..64]).unwrap();
    assert_eq!(len, 0);
    assert_eq!(residual, [0u8; 64]);
    assert_eq!(flags, FLAG_CHUNK_END | FLAG_ROOT);
}

#[test]
fn overflowing_block_is_filled_and_absorbed() {
    let prefix = seed(55);
    let m = CerberusMessage::new(&prefix, 0).unwrap();
    // the block takes "100000000", the next block starts with "1"
    assert_eq!(m.nonce_addend(), 1_000_000_001_000_000_000);
    assert!(m.nonce_addend() > 0);
    assert_eq!(m.salt_residual_len(), 1);
    assert_eq!(m.flags(), FLAG_CHUNK_END | FLAG_ROOT);
    let mut block = [0u8; 64];
    block[..55].copy_from_slice(&prefix);
    block[55..].copy_from_slice(b"100000000");
    let chain = compress8(&IV, &words_from_le_bytes(&block), 0, 64, FLAG_CHUNK_START);
    assert_eq!(*m.prefix_state(), chain);
    let mut expected = [0u8; 64];
    expected[..10].copy_from_slice(b"1000000000");
    assert_eq!(*m.salt_residual(), expected);
}

#[test]
fn overflowing_block_after_whole_blocks() {
    let prefix = seed(64 + 60);
    let m = CerberusMessage::new(&prefix, 8 * 1234 + 5).unwrap();
    // head digit 6, then the three low digits of 1234, low end first; 1 is left
    assert_eq!(m.nonce_addend(), 64322 * 1_000_000_000);
    assert_eq!(m.salt_residual_len(), 1);
    let first: [u8; 64] = prefix[..64].try_into().unwrap();
    let mut second = [0u8; 64];
    second[..60].copy_from_slice(&prefix[64..]);
    second[60..].copy_from_slice(b"6432");
    let c1 = compress8(&IV, &words_from_le_bytes(&first), 0, 64, FLAG_CHUNK_START);
    let c2 = compress8(&c1, &words_from_le_bytes(&second), 0, 64, 0);
    assert_eq!(*m.prefix_state(), c2);
    assert_eq!(&m.salt_residual()[..10], b"2000000000");
}

#[test]
fn largest_working_set_of_an_overflowing_prefix() {
    let m = CerberusMessage::new(&seed(55), u32::MAX).unwrap();
    assert_eq!(m.nonce_addend(), 8_119_078_636_000_000_000);
    assert!(m.nonce_addend() < i64::MAX as u64);
    assert_eq!(m.salt_residual_len(), 1);

    let m = CerberusMessage::new(&seed(63), u32::MAX).unwrap();
    // head digit 8; 536870911 = 9 * 59652323 + 4: head digit 5, then 32325695
    assert_eq!(m.nonce_addend(), 8_532_325_695_000_000_000);
    assert_eq!(m.salt_residual_len(), 9);
}

#[test]
fn message_fields_follow_the_leading_digits() {
    for len in [0usize, 1, 2, 3, 31, 53, 54, 55, 56, 59, 62, 63, 64, 100, 119, 127, 128, 900] {
        for ws in [0u32, 1, 7, 8, 9, 10, 71, 72, 80, 81, 1000, 65535, 1 << 20, u32::MAX] {
            let prefix = seed(len);
            let digits = leading_digits(len % 64, ws);
            let mut text = prefix.clone();
            text.extend_from_slice(digits.as_bytes());
            let rest = text.len() % 64;
            let built = CerberusMessage::new(&prefix, ws);
            let fits = len % 64 >= 55 || len % 64 + digits.len() + 9 <= 64;
            if !fits {
                assert!(built.is_none(), "len {} ws {}", len, ws);
                continue;
            }
            let m = built.unwrap();
            assert_eq!(m.nonce_addend(), digits.parse::<u64>().unwrap() * 1_000_000_000);
            assert_eq!(m.salt_residual_len(), rest);
            let (chain, residual, rest_again, flags) = absorb(&text).unwrap();
            assert_eq!(rest_again, rest);
            assert_eq!(*m.prefix_state(), chain);
            assert_eq!(m.flags(), flags);
            assert_eq!(&m.salt_residual()[..rest], &residual[..rest]);
            assert_eq!(&m.salt_residual()[rest..rest + 9], b"000000000");
            assert!(m.salt_residual()[rest + 9..].iter().all(|b| *b == 0));
        }
    }
}

#[test]
fn working_sets_have_disjoint_ranges() {
    for len in [0usize, 10, 45, 54, 55, 58, 63] {
        let prefix = seed(len);
        let mut seen = std::collections::HashSet::new();
        let mut sets: Vec<u32> = (0..600).collect();
        sets.extend([1 << 16, (1 << 16) + 1, 1 << 24, u32::MAX - 1, u32::MAX]);
        for ws in sets {
            if let Some(m) = CerberusMessage::new(&prefix, ws) {
                assert_eq!(m.nonce_addend() % 1_000_000_000, 0);
                assert!(m.nonce_addend() >= 1_000_000_000);
                assert!(seen.insert(m.nonce_addend()), "len {} ws {}", len, ws);
            }
        }
        assert!(seen.len() >= 9);
    }
}

#[test]
fn search_digits_are_the_last_nine() {
    let mut block = [b'.'; 64];
    write_search_digits(&mut block, 3, 42);
    assert_eq!(&block[..15], b"...000000042...");
    write_search_digits(&mut block, 55, 9_876_543_210_123_456_789);
    assert_eq!(&block[55..], b"123456789");
    assert_eq!(&block[..15], b"...000000042...");
    write_search_digits(&mut block, 0, 999_999_999);
    assert_eq!(&block[..12], b"999999999042");
}

#[test]
fn nonce_digits_match_the_standard_notation() {
    for n in [
        0u64,
        1,
        9,
        10,
        11,
        99,
        100,
        1_000_000_000,
        4_294_967_295,
        8_119_078_636_000_000_000,
        u64::MAX,
    ] {
        assert_eq!(nonce_digits(n), format!("{}", n).into_bytes());
    }
    assert_eq!(nonce_digits(1203), b"1203".to_vec());
}

#[test]
fn bytes_are_packed_in_the_stated_order() {
    assert_eq!(u32_from_le_bytes(1, 2, 3, 4), 0x04030201);
    assert_eq!(u32_from_be_bytes(1, 2, 3, 4), 0x01020304);
    assert_eq!(u32_from_le_bytes(0xff, 0, 0, 0x80), u32::from_le_bytes([0xff, 0, 0, 0x80]));
    let block: [u8; 64] = core::array::from_fn(|i| i as u8);
    let words = words_from_le_bytes(&block);
    for i in 0..16 {
        let expected = u32::from_le_bytes([
            block[4 * i],
            block[4 * i + 1],
            block[4 * i + 2],
            block[4 * i + 3],
        ]);
        assert_eq!(words[i], expected);
    }
    assert_eq!(words[1], 0x07060504);
}
