use cerberus_pow::compute_mask_cerberus;
use cerberus_pow::solver::scalar;
use cerberus_pow::solver::simd128;
use cerberus_pow::solver::simd128::{lane_id_table, pack_center_word, recompose_nonce};
use cerberus_pow::solver::Solver;
use cerberus_pow::CerberusMessage;
use std::cell::RefCell;

fn reference_words(bytes: &[u8]) -> [u32; 8] {
    let digest = blake3::hash(bytes);
    let raw = digest.as_bytes();
    core::array::from_fn(|i| {
        u32::from_le_bytes([raw[i * 4], raw[i * 4 + 1], raw[i * 4 + 2], raw[i * 4 + 3]])
    })
}

fn hash_of(prefix: &[u8], nonce: u64) -> [u32; 8] {
    let mut msg = prefix.to_vec();
    msg.extend_from_slice(format!("{}", nonce).as_bytes());
    reference_words(&msg)
}

#[test]
fn lane_id_table_packs_three_digits_high() {
    let table = lane_id_table();
    assert_eq!(table[0], u32::from_be_bytes(*b"000\x00"));
    assert_eq!(table[1], u32::from_be_bytes(*b"100\x00"));
    assert_eq!(table[123], u32::from_be_bytes(*b"321\x00"));
    assert_eq!(table[999], u32::from_be_bytes(*b"999\x00"));
    for (i, entry) in table.iter().enumerate() {
        assert_eq!(entry & 0xff, 0);
        let text = format!("{:03}", i);
        assert_eq!(entry.to_le_bytes()[1..], *text.as_bytes());
    }
}

#[test]
fn center_word_packs_four_digits() {
    assert_eq!(pack_center_word(0), u32::from_le_bytes(*b"0000"));
    assert_eq!(pack_center_word(7), u32::from_le_bytes(*b"0007"));
    assert_eq!(pack_center_word(1234), u32::from_le_bytes(*b"1234"));
    assert_eq!(pack_center_word(9999), u32::from_le_bytes(*b"9999"));
}

#[test]
fn nonce_is_recomposed_by_position() {
    // resid0 = 1, resid1 = 2, center word 3456, lane value 789
    assert_eq!(recompose_nonce(0, 1, 2, 3456, 789), 178_934_562);
    assert_eq!(recompose_nonce(1, 1, 2, 3456, 789), 789_345_612);
    assert_eq!(recompose_nonce(2, 1, 2, 3456, 789), 123_456_789);
    assert_eq!(recompose_nonce(3, 1, 2, 3456, 789), 134_567_892);
    assert_eq!(recompose_nonce(0, 0, 0, 0, 0), 0);
    for position_mod in 0..4 {
        assert_eq!(recompose_nonce(position_mod, 9, 9, 9999, 999), 999_999_999);
    }
    assert_eq!(
        recompose_nonce(0, 4, 5, 1, 2),
        10 * 1 + 100_000 * 2 + 100_000_000 * 4 + 5
    );
    assert_eq!(recompose_nonce(1, 4, 5, 1, 2), 100 * 1 + 1_000_000 * 2 + 10 * 4 + 5);
    assert_eq!(
        recompose_nonce(2, 4, 5, 1, 2),
        1000 * 1 + 2 + 100_000_000 * 4 + 10_000_000 * 5
    );
    assert_eq!(
        recompose_nonce(3, 4, 5, 1, 2),
        10_000 * 1 + 10 * 2 + 100_000_000 * 4 + 5
    );
}

#[test]
fn scalar_solver_returns_the_lowest_nonce() {
    let mask = compute_mask_cerberus(4);
    for prefix in [&b"hello"[..], &b""[..], &[7u8; 70][..], &[b'z'; 55][..]] {
        let message = CerberusMessage::new(prefix, 3).unwrap();
        let addend = message.nonce_addend();
        let mut solver = scalar::CerberusSolver::from(message);
        let (nonce, hash) = solver.solve(mask, |_| {}).unwrap();
        assert!(nonce >= addend && nonce < addend + 1_000_000_000);
        assert_eq!(hash, hash_of(prefix, nonce));
        assert_eq!(hash[0] & mask, 0);
        for earlier in addend..nonce {
            assert_ne!(hash_of(prefix, earlier)[0] & mask, 0);
        }
    }
}

#[test]
fn quad_lane_solver_returns_the_first_in_its_order() {
    let mask = compute_mask_cerberus(4);
    for len in [0usize, 1, 2, 3, 4, 21, 22, 23, 52, 53, 54, 55, 61, 64, 70] {
        let prefix: Vec<u8> = (0..len).map(|i| (i * 37 + 11) as u8).collect();
        let message = CerberusMessage::new(&prefix, 5).unwrap();
        let addend = message.nonce_addend();
        let position_mod = message.salt_residual_len() % 4;
        let mut solver = simd128::CerberusSolver::from(message);
        let (nonce, hash) = solver.solve(mask, |_| {}).unwrap();
        assert_eq!(hash, hash_of(&prefix, nonce));
        assert_eq!(hash[0] & mask, 0);

        let mut expected = None;
        'search: for resid0 in 0..10 {
            for resid1 in 0..10 {
                for word in 0..10000 {
                    for lane in 0..1000 {
                        let idx = recompose_nonce(position_mod, resid0, resid1, word, lane);
                        let candidate = addend + idx as u64;
                        if hash_of(&prefix, candidate)[0] & mask == 0 {
                            expected = Some(candidate);
                            break 'search;
                        }
                    }
                }
            }
        }
        assert_eq!(Some(nonce), expected, "prefix length {}", len);
    }
}

#[test]
fn both_solvers_agree_on_validity_not_on_order() {
    let mask = compute_mask_cerberus(6);
    let prefix = b"order of search";
    let message = CerberusMessage::new(prefix, 0).unwrap();
    let mut quad = simd128::CerberusSolver::from(message.clone());
    let mut single = scalar::CerberusSolver::from(message);
    let (n1, h1) = quad.solve(mask, |_| {}).unwrap();
    let (n2, h2) = single.solve(mask, |_| {}).unwrap();
    assert_eq!(h1, hash_of(prefix, n1));
    assert_eq!(h2, hash_of(prefix, n2));
    assert!(n2 <= n1);
}

#[test]
fn scalar_solver_reports_every_period() {
    assert_eq!(scalar::CerberusSolver::REPORT_PERIOD, 16384);
    let mask = compute_mask_cerberus(9);
    let message = CerberusMessage::new(b"progress", 0).unwrap();
    let addend = message.nonce_addend();
    let mut solver = scalar::CerberusSolver::from(message);
    solver.set_report_slot(1, 4);
    let reports = RefCell::new(Vec::new());
    let (nonce, _) = solver.solve(mask, |n| reports.borrow_mut().push(n)).unwrap();
    let attempts = nonce - addend + 1;
    // slot 4096 of 16384: the first report comes with attempt 4096
    let expected = (attempts + 16384 - 4096) / 16384;
    assert_eq!(reports.borrow().len() as u64, expected);
    assert!(reports.borrow().iter().all(|n| *n == 16384));
}

#[test]
fn quad_lane_solver_reports_every_period() {
    assert_eq!(simd128::CerberusSolver::REPORT_PERIOD, 64000);
    assert_eq!(simd128::CerberusSolver::OUTER_LOOP_PERIOD, 64);
    let mask = compute_mask_cerberus(10);
    let message = CerberusMessage::new(b"progress", 0).unwrap();
    let addend = message.nonce_addend();
    // residue of 9 bytes: the center word starts at place 3
    assert_eq!(message.salt_residual_len() % 4, 1);
    let mut solver = simd128::CerberusSolver::from(message);
    solver.set_report_slot(1, 2);
    let reports = RefCell::new(Vec::new());
    let (nonce, _) = solver.solve(mask, |n| reports.borrow_mut().push(n)).unwrap();
    let idx = nonce - addend;
    let outer = idx % 100;
    let word = idx / 100 % 10000;
    // every finished center-word value whose index is 32 modulo 64 reports
    let per_template = (10000 + 64 - 33) / 64;
    let expected = outer * per_template + (word + 64 - 32) / 64;
    assert_eq!(reports.borrow().len() as u64, expected);
    assert!(reports.borrow().iter().all(|n| *n == 64000));
}

#[test]
fn solver_can_be_run_again() {
    let mask = compute_mask_cerberus(5);
    let message = CerberusMessage::new(b"again", 1).unwrap();
    let mut solver = simd128::CerberusSolver::from(message);
    let first = solver.solve(mask, |_| {}).unwrap();
    let second = solver.solve(mask, |_| {}).unwrap();
    assert_eq!(first, second);
}
