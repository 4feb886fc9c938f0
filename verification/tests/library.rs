use lerch_prime_search::arith::{
    distinct_prime_factors, fermat_quotient_mod_p, inverse_mod, mul_mod, pow_mod, primitive_root,
};
use lerch_prime_search::recurrence::{
    recurrence_invariants, recurrence_values, Invariants, MomentOptions,
};
use lerch_prime_search::reduction::{Barrett32, Montgomery32};
use lerch_prime_search::reference::{direct_invariants, direct_values};
use lerch_prime_search::search::{check_search_options, plan_chunks, scan_interval};
use lerch_prime_search::sieve::{integer_sqrt, segmented_primes, simple_primes};
use lerch_prime_search::verify::{
    direct_lerch_remainder_bigint, verify_lerch_bigint, verify_rare_candidate,
};

fn invariants_of(p: u64) -> Invariants {
    let base = simple_primes(integer_sqrt(p) + 1);
    recurrence_invariants(p, &base, MomentOptions { q3: true, q4: true })
}

#[test]
fn integer_square_roots_are_floors() {
    assert_eq!(integer_sqrt(0), 0);
    assert_eq!(integer_sqrt(1), 1);
    assert_eq!(integer_sqrt(15), 3);
    assert_eq!(integer_sqrt(16), 4);
    assert_eq!(integer_sqrt(17), 4);
    assert_eq!(integer_sqrt(u64::MAX), 4_294_967_295);
    assert_eq!(integer_sqrt(16_000_000_000_000_000_000), 4_000_000_000);
}

#[test]
fn modular_arithmetic_values() {
    assert_eq!(mul_mod(u64::MAX, u64::MAX, 1_000_000_007), 114_944_269);
    assert_eq!(pow_mod(3, 13, 1000), 323);
    assert_eq!(pow_mod(5, 0, 1), 0);
    assert_eq!(pow_mod(5, 0, 7), 1);
    assert_eq!(inverse_mod(3, 7), 5);
    assert_eq!(inverse_mod(2, 1_000_000_007), 500_000_004);
    assert_eq!(fermat_quotient_mod_p(2, 5), 3);
    assert_eq!(fermat_quotient_mod_p(2, 1093), 0);
    assert_eq!(direct_values(5), vec![0, 3, 1, 1]);
    assert_eq!(direct_values(7), vec![0, 2, 6, 4, 6, 1]);
}

#[test]
fn prime_factors_and_primitive_roots() {
    let base = simple_primes(100);
    assert_eq!(distinct_prime_factors(360, &base), vec![2, 3, 5]);
    assert_eq!(distinct_prime_factors(97, &base), vec![97]);
    assert_eq!(distinct_prime_factors(2 * 3 * 9973, &base), vec![2, 3, 9973]);
    assert_eq!(distinct_prime_factors(1, &base), Vec::<u64>::new());
    assert_eq!(primitive_root(5, &base), 2);
    assert_eq!(primitive_root(7, &base), 3);
    assert_eq!(primitive_root(23, &base), 5);
    assert_eq!(primitive_root(41, &base), 6);
}

#[test]
fn recurrence_values_follow_the_orbit_of_the_root() {
    let base = simple_primes(10);
    assert_eq!(
        recurrence_values(7, &base),
        vec![(1, 0), (3, 6), (2, 2), (6, 1), (4, 4), (5, 6)]
    );
}

#[test]
fn recurrence_invariants_of_small_primes() {
    let seven = invariants_of(7);
    assert_eq!(seven.primitive_root, 3);
    assert_eq!((seven.q1, seven.q2, seven.q3, seven.q4), (5, 2, Some(1), Some(2)));
    assert_eq!(seven.lerch_remainder, Some(5));
    assert_eq!(seven.generalized_k, Some(3));
    assert!(!seven.is_lerch && !seven.is_gy_exceptional && !seven.is_wilson);
    assert!(!seven.rare());

    let eleven = invariants_of(11);
    assert_eq!(eleven.q2, 0);
    assert_eq!(eleven.generalized_k, None);
    assert!(eleven.is_gy_exceptional && eleven.rare());

    let forty_one = invariants_of(41);
    assert_eq!((forty_one.q1, forty_one.q2), (16, 23));
    assert_eq!(forty_one.lerch_remainder, Some(21));
    assert_eq!(forty_one.generalized_k, Some(17));

    let two = recurrence_invariants(2, &[], MomentOptions { q3: true, q4: false });
    assert_eq!(two.primitive_root, 1);
    assert_eq!((two.q1, two.q2, two.q3, two.q4), (0, 0, Some(0), None));
    assert_eq!(two.lerch_remainder, None);
    assert!(two.is_gy_exceptional && !two.is_lerch && !two.is_wilson);
    assert!(two.rare());
}

#[test]
fn lerch_quotient_of_five_is_thirteen() {
    // l_5 = 13, so the residues are 5 * (13 mod 5) and 25 * (13 mod 5)
    let full = verify_lerch_bigint(5);
    assert_eq!(full.q1_minus_wilson_mod_p2, 15);
    assert_eq!(full.power_sum_residue, 75);
    assert_eq!(direct_lerch_remainder_bigint(5), 3);
    assert_eq!(invariants_of(5).lerch_remainder, Some(3));
}

#[test]
fn recurrence_lerch_remainder_matches_bigint_below_600() {
    let base = simple_primes(30);
    for p in segmented_primes(3, 600, &base) {
        let fast = recurrence_invariants(p, &base, MomentOptions::default());
        let direct = direct_lerch_remainder_bigint(p);
        assert_eq!(fast.lerch_remainder, Some(direct), "p={p}");
        let full = verify_lerch_bigint(p);
        assert_eq!(full.q1_minus_wilson_mod_p2 as u64, p * direct, "p={p}");
        assert_eq!(full.power_sum_residue as u64, p * p * direct, "p={p}");
        assert_eq!(fast.is_lerch, full.power_sum_residue == 0, "p={p}");
    }
}

#[test]
fn direct_invariants_use_the_wilson_quotient() {
    let slow = direct_invariants(563, false, true);
    assert_eq!(slow.q1, 0);
    assert_eq!(slow.wilson, 0);
    assert_eq!(slow.q2, 333);
    assert_eq!(slow.q3, None);
    assert_eq!(slow.q4, Some(280));
    assert_eq!(slow.lerch_remainder, 448);
}

#[test]
fn rare_hits_pass_independent_verification() {
    for p in [3, 5, 11, 13, 103, 563, 839, 971] {
        let fast = invariants_of(p);
        let transcript = verify_rare_candidate(&fast);
        assert!(transcript.verified, "p={p}");
        assert!(transcript.recurrence_matches_direct, "p={p}");
        assert!(transcript.q1_matches_wilson_mod_p, "p={p}");
        assert_eq!(transcript.direct_q1_mod_p, fast.q1);
        assert_eq!(transcript.wilson_mod_p, fast.q1);
    }
    let lerch = verify_rare_candidate(&invariants_of(103));
    assert_eq!(
        lerch.method,
        "direct q_p definitions plus independent bigint p^3 power sum"
    );
    assert_eq!(lerch.q1_minus_wilson_mod_p2.as_deref(), Some("0"));
    assert_eq!(lerch.power_sum_minus_factorial_minus_p_mod_p3.as_deref(), Some("0"));
    assert_eq!(lerch.lerch_verified, Some(true));
    let wilson = verify_rare_candidate(&invariants_of(563));
    assert_eq!(wilson.method, "direct q_p definitions and factorial modulo p^2");
    assert_eq!(wilson.q1_minus_wilson_mod_p2, None);
    assert_eq!(wilson.lerch_verified, None);
}

#[test]
fn verification_of_two_is_the_special_case() {
    let two = recurrence_invariants(2, &[], MomentOptions { q3: false, q4: true });
    let transcript = verify_rare_candidate(&two);
    assert_eq!(transcript.method, "definition special case");
    assert_eq!(transcript.direct_q3_mod_p, None);
    assert_eq!(transcript.direct_q4_mod_p, Some(0));
    assert_eq!(transcript.wilson_mod_p, 1);
    assert!(!transcript.q1_matches_wilson_mod_p);
    assert!(transcript.verified);
}

#[test]
fn tampered_invariants_fail_verification() {
    let mut wrong = invariants_of(103);
    wrong.q2 = (wrong.q2 + 1) % 103;
    let transcript = verify_rare_candidate(&wrong);
    assert!(!transcript.recurrence_matches_direct);
    assert!(!transcript.verified);

    let mut not_lerch = invariants_of(5);
    not_lerch.is_lerch = true;
    let transcript = verify_rare_candidate(&not_lerch);
    assert_eq!(transcript.q1_minus_wilson_mod_p2.as_deref(), Some("15"));
    assert_eq!(transcript.power_sum_minus_factorial_minus_p_mod_p3.as_deref(), Some("75"));
    assert_eq!(transcript.lerch_verified, Some(false));
    assert!(!transcript.verified);
}

#[test]
fn search_options_are_checked() {
    assert_eq!(
        check_search_options(5, 4, 1, 1),
        Err("--start must not exceed --end".to_string())
    );
    assert_eq!(
        check_search_options(1, 4_000_000_001, 1, 1),
        Err("--end exceeds the fixed-width limit 4000000000".to_string())
    );
    assert_eq!(
        check_search_options(1, 10, 0, 1),
        Err("--chunk-size and --threads must be positive".to_string())
    );
    assert_eq!(
        check_search_options(1, 10, 5, 0),
        Err("--chunk-size and --threads must be positive".to_string())
    );
    assert_eq!(check_search_options(1, 4_000_000_000, 5, 2), Ok(()));
}

#[test]
fn chunks_cover_the_interval() {
    assert_eq!(
        plan_chunks(10, 25, 7),
        vec![(0, 10, 16), (1, 17, 23), (2, 24, 25)]
    );
    assert_eq!(plan_chunks(10, 10, 7), vec![(0, 10, 10)]);
    assert_eq!(plan_chunks(5, 4, 3), Vec::<(usize, u64, u64)>::new());
    assert_eq!(
        plan_chunks(u64::MAX - 2, u64::MAX, 2),
        vec![(0, u64::MAX - 2, u64::MAX - 1), (1, u64::MAX, u64::MAX)]
    );
}

#[test]
fn scanning_below_5000_finds_the_known_hits() {
    let base = simple_primes(integer_sqrt(5000));
    let (primes, scan) = scan_interval(2, 4999, &base, MomentOptions::default(), 100, true);
    assert_eq!(primes.len(), 669);
    assert_eq!(scan.prime_count, 669);
    assert_eq!(scan.sum_of_p, 1_548_136);
    assert_eq!(scan.recurrence_steps, 1_547_467);
    assert_eq!(scan.lerch_hits, vec![3, 103, 839, 2237]);
    assert_eq!(scan.q2_zero_hits, vec![2, 11, 971]);
    assert_eq!(scan.wilson_hits, vec![5, 13, 563]);
    assert_eq!(scan.q3_zero_hits, Vec::<u64>::new());
    assert_eq!(scan.q4_zero_hits, Vec::<u64>::new());
    for record in &scan.records {
        let p = record.invariants.p;
        let ordinal = primes.iter().position(|&q| q == p).unwrap();
        assert_eq!(record.sample, ordinal % 100 == 0, "p={p}");
        assert_eq!(record.needs_verification, record.invariants.rare(), "p={p}");
        assert!(record.sample || record.invariants.rare(), "p={p}");
    }
    let sampled = scan.records.iter().filter(|r| r.sample).count();
    assert_eq!(sampled, 7);
    let rare: Vec<u64> = scan
        .records
        .iter()
        .filter(|r| r.invariants.rare())
        .map(|r| r.invariants.p)
        .collect();
    let mut expected = vec![2, 3, 5, 11, 13, 103, 563, 839, 971, 2237];
    expected.extend(scan.q1_equals_2_hits.iter().copied());
    expected.sort();
    assert_eq!(rare, expected);
}

#[test]
fn montgomery_round_trip_and_barrett_products() {
    for modulus in [3u64, 5, 101, 65_537, 4_294_967_291] {
        let montgomery = Montgomery32::new(modulus);
        let barrett = Barrett32::new(modulus);
        for a in [0, 1, 2, modulus - 1, modulus / 3] {
            assert_eq!(montgomery.decode(montgomery.encode(a)), a % modulus);
            assert_eq!(barrett.multiply(a, a), mul_mod(a, a, modulus));
        }
    }
    let barrett = Barrett32::new(1_000_003);
    assert_eq!(barrett.multiply(1_000_002, 1_000_002), 1);
}
