use cerberus_pow::compute_mask_cerberus;
use cerberus_pow::solver::scalar;
use cerberus_pow::solver::simd128;
use cerberus_pow::solver::Solver;
use cerberus_pow::CerberusMessage;

fn check_small(hash: &[u8; 32], n: usize) -> bool {
    let first_word: u32 = (hash[0] as u32) << 24
        | (hash[1] as u32) << 16
        | (hash[2] as u32) << 8
        | (hash[3] as u32);
    first_word.leading_zeros() >= (n as u32 * 2)
}

fn check_leading_zero_dubits(hash: &[u8; 32], n: usize) -> bool {
    match n {
        0..=16 => check_small(hash, n),
        _ => panic!("only the first word is checked"),
    }
}

fn test_cerberus_validator<S: Solver, F: for<'a> FnMut(&'a [u8]) -> Option<S>>(mut factory: F) {
    for df in 5u8..=7 {
        let mask = compute_mask_cerberus(df);
        println!("mask: {:08x}", mask);

        let test_seed: [u8; 128] = core::array::from_fn(|i| b'a'.wrapping_add(i as u8));

        for seed_len in 0..128 {
            let Some(mut solver) = factory(&test_seed[..seed_len]) else {
                panic!("solver is None for seed_len: {}", seed_len);
            };

            let (nonce, hash) = solver.solve(mask, |_| {}).unwrap();
            let mut msg = test_seed[..seed_len].to_vec();
            msg.extend_from_slice(format!("{}", nonce).as_bytes());

            let mut ref_hasher = blake3::Hasher::new();
            ref_hasher.update(msg.as_slice());
            let ref_hash = ref_hasher.finalize();
            let ref_hash_bytes = ref_hash.as_bytes();
            let ref_hash = core::array::from_fn(|i| {
                u32::from_le_bytes([
                    ref_hash_bytes[i * 4],
                    ref_hash_bytes[i * 4 + 1],
                    ref_hash_bytes[i * 4 + 2],
                    ref_hash_bytes[i * 4 + 3],
                ])
            });
            let hit = (ref_hash[0] & mask) == 0;
            assert_eq!(
                hash, ref_hash,
                "incorrect output: {} (seed_len: {})",
                nonce, seed_len
            );
            assert!(hit);
            assert!(check_leading_zero_dubits(&ref_hash_bytes, df as usize));
        }
    }
}

#[test]
fn scalar_test_solve_cerberus() {
    test_cerberus_validator::<scalar::CerberusSolver, _>(|prefix| {
        CerberusMessage::new(prefix, 0).map(Into::into)
    });
}

#[test]
fn simd128_test_solve_cerberus() {
    test_cerberus_validator::<simd128::CerberusSolver, _>(|prefix| {
        CerberusMessage::new(prefix, 0).map(Into::into)
    });
}
