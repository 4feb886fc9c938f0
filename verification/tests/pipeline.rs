use lerch_prime_search::recurrence::{Invariants, MomentOptions};
use lerch_prime_search::reduction::Montgomery32;
use lerch_prime_search::search::{
    combine_segments, configuration_hash, plan_chunks, scan_interval, segment_reusable, SegmentSummary,
};
use lerch_prime_search::sieve::{integer_sqrt, segmented_primes, sieve_primality, simple_primes};
use lerch_prime_search::validate::{validate_prime, validate_range, ValidationMismatch};
use lerch_prime_search::verify::{direct_lerch_remainder_bigint, verify_prime, verify_rare_candidate};

#[test]
fn sieve_primality_decides_single_values() {
    let expected = simple_primes(2000);
    for n in 0..=2000u64 {
        assert_eq!(sieve_primality(n), expected.contains(&n), "n={n}");
    }
    assert!(sieve_primality(3_999_999_979));
    assert!(!sieve_primality(3_999_999_959));
    assert!(!sieve_primality(4_000_000_000));
    assert!(sieve_primality(42_447_347));
}

#[test]
fn validating_below_5000_finds_the_published_lists() {
    let summary = validate_range(5000, 300).unwrap();
    assert_eq!(summary.prime_count, 668);
    assert_eq!(summary.lerch, vec![3, 103, 839, 2237]);
    assert_eq!(summary.gy, vec![2, 11, 971]);
    assert_eq!(summary.wilson, vec![5, 13, 563]);
}

#[test]
fn validating_small_ranges() {
    let summary = validate_range(3, 300).unwrap();
    assert_eq!(summary.prime_count, 0);
    assert_eq!(summary.gy, vec![2]);
    let summary = validate_range(0, 0).unwrap();
    assert_eq!(summary.prime_count, 0);
    let summary = validate_range(104, 104).unwrap();
    assert_eq!(summary.lerch, vec![3, 103]);
    assert_eq!(summary.wilson, vec![5, 13]);
}

#[test]
fn validate_prime_returns_the_recurrence_invariants() {
    let base = simple_primes(integer_sqrt(1000));
    for p in segmented_primes(3, 1000, &base) {
        let fast = validate_prime(p, &base, 1000).unwrap();
        assert_eq!(fast.p, p);
        assert!(fast.q3.is_some() && fast.q4.is_some());
    }
    let mismatch = ValidationMismatch::LerchQuotient { p: 5 };
    assert!(format!("{mismatch:?}").contains("LerchQuotient"));
}

#[test]
fn verify_prime_checks_primality_first() {
    assert!(verify_prime(1).is_none());
    assert!(verify_prime(1001).is_none());
    let lerch = verify_prime(2237).unwrap();
    assert!(lerch.verified);
    assert_eq!(lerch.lerch_verified, Some(true));
    assert_eq!(lerch.q1_minus_wilson_mod_p2.as_deref(), Some("0"));
    let two = verify_prime(2).unwrap();
    assert!(two.verified);
    assert_eq!(two.direct_q3_mod_p, Some(0));
    let wilson = verify_prime(563).unwrap();
    assert!(wilson.verified);
    assert_eq!(wilson.wilson_mod_p, 0);
    assert_eq!(wilson.direct_q4_mod_p, Some(280));
}

#[test]
fn configuration_hashes_are_sha256_of_the_configuration() {
    assert_eq!(
        configuration_hash(2, 100, MomentOptions::default(), 0, true),
        "0960328583ade793b3b610af6cddf05cac429a2dba8009a38c62377123d7dec3"
    );
    assert_eq!(
        configuration_hash(100_001, 200_000, MomentOptions { q3: true, q4: false }, 10, false),
        "db65b02de2f8e90de98aa92047cea93cab4a1d2f2a81c6672fb8237c9dfeac6e"
    );
}

fn summary(start: u64, end: u64, count: u64, sum: u128, lerch: Vec<u64>, hash: &str) -> SegmentSummary {
    SegmentSummary {
        start,
        end,
        prime_count: count,
        sum_of_p: sum,
        lerch_hits: lerch,
        q2_zero_hits: vec![],
        wilson_hits: vec![start],
        q1_equals_2_hits: vec![],
        q3_zero_hits: vec![],
        q4_zero_hits: vec![end],
        result_sha256: hash.to_string(),
    }
}

#[test]
fn segments_combine_in_order() {
    let segments = vec![
        summary(2, 100, 25, 1060, vec![3], "aa"),
        summary(101, 200, 21, 3167, vec![103], "bb"),
    ];
    let totals = combine_segments(&segments);
    assert_eq!(totals.completed_intervals, vec![(2, 100), (101, 200)]);
    assert_eq!(totals.prime_count, 46);
    assert_eq!(totals.sum_of_p, 4227);
    assert_eq!(totals.lerch_hits, vec![3, 103]);
    assert_eq!(totals.wilson_hits, vec![2, 101]);
    assert_eq!(totals.q4_zero_hits, vec![100, 200]);
    assert_eq!(totals.q2_zero_hits, Vec::<u64>::new());
    assert_eq!(
        totals.manifest_sha256,
        "26706173ab47fd166f8f0a79c172d9a40ad7576361532222565779f92d03a0d5"
    );
    let empty = combine_segments(&vec![]);
    assert_eq!(empty.prime_count, 0);
    assert_eq!(
        empty.manifest_sha256,
        "e3b0c44298fc1c149afbf4c8996fb92427ae41e4649b934ca495991b7852b855"
    );
}

#[test]
fn verification_refuses_composites_past_the_limit() {
    assert!(verify_prime(4_000_000_001).is_none());
    assert!(verify_prime(4_000_000_006).is_none());
}

#[test]
fn montgomery_products_of_large_operands_stay_congruent() {
    let a = 1u64 << 63;
    assert_eq!(Montgomery32::new(101).multiply(a, a) % 101, 45);
    assert_eq!(Montgomery32::new(65_537).multiply(a, a) % 65_537, 49_153);
}

#[test]
fn chunked_scans_combine_to_the_whole_interval() {
    let base = simple_primes(integer_sqrt(5000));
    let moments = MomentOptions { q3: true, q4: true };
    let (whole_primes, whole) = scan_interval(2, 4999, &base, moments, 0, true);
    let mut summaries = Vec::new();
    for (_, lo, hi) in plan_chunks(2, 4999, 700) {
        let (_, scan) = scan_interval(lo, hi, &base, moments, 0, true);
        summaries.push(SegmentSummary {
            start: lo,
            end: hi,
            prime_count: scan.prime_count,
            sum_of_p: scan.sum_of_p,
            lerch_hits: scan.lerch_hits,
            q2_zero_hits: scan.q2_zero_hits,
            wilson_hits: scan.wilson_hits,
            q1_equals_2_hits: scan.q1_equals_2_hits,
            q3_zero_hits: scan.q3_zero_hits,
            q4_zero_hits: scan.q4_zero_hits,
            result_sha256: String::new(),
        });
    }
    let totals = combine_segments(&summaries);
    assert_eq!(totals.prime_count as usize, whole_primes.len());
    assert_eq!(totals.sum_of_p, whole.sum_of_p);
    assert_eq!(totals.lerch_hits, whole.lerch_hits);
    assert_eq!(totals.q2_zero_hits, whole.q2_zero_hits);
    assert_eq!(totals.wilson_hits, whole.wilson_hits);
    assert_eq!(totals.q1_equals_2_hits, whole.q1_equals_2_hits);
    assert_eq!(totals.q3_zero_hits, whole.q3_zero_hits);
    assert_eq!(totals.q4_zero_hits, whole.q4_zero_hits);
    assert_eq!(totals.completed_intervals.len(), 8);
}

#[test]
fn stored_segments_are_reused_only_when_all_hashes_agree() {
    let s = |x: &str| x.to_string();
    assert!(segment_reusable(&s("complete"), &s("c"), &s("c"), &s("r"), &s("r")));
    assert!(!segment_reusable(&s("partial"), &s("c"), &s("c"), &s("r"), &s("r")));
    assert!(!segment_reusable(&s("complete"), &s("c"), &s("d"), &s("r"), &s("r")));
    assert!(!segment_reusable(&s("complete"), &s("c"), &s("c"), &s("r"), &s("x")));
}

#[test]
fn small_moduli_of_the_bigint_lerch_quotient() {
    assert_eq!(direct_lerch_remainder_bigint(1), 0);
    assert_eq!(direct_lerch_remainder_bigint(2), 1);
}

#[test]
fn verification_of_one_compares_empty_sums() {
    let one = Invariants {
        p: 1,
        primitive_root: 1,
        q1: 0,
        q2: 0,
        q3: Some(0),
        q4: None,
        lerch_remainder: None,
        generalized_k: None,
        is_lerch: false,
        is_gy_exceptional: false,
        is_wilson: true,
        q1_equals_2: false,
    };
    let transcript = verify_rare_candidate(&one);
    assert_eq!(transcript.wilson_mod_p, 0);
    assert_eq!(transcript.direct_q3_mod_p, Some(0));
    assert_eq!(transcript.direct_q4_mod_p, None);
    assert!(transcript.q1_matches_wilson_mod_p);
    assert!(transcript.verified);
    let mut wrong = one.clone();
    wrong.q2 = 1;
    assert!(!verify_rare_candidate(&wrong).verified);
}

#[test]
fn segmented_sieve_far_from_zero() {
    let base = simple_primes(1 << 20);
    let high = segmented_primes((1u64 << 40) - 200, 1u64 << 40, &base);
    assert!(high.iter().all(|&p| sieve_primality(p)));
    assert_eq!(high.len(), (((1u64 << 40) - 200)..=(1u64 << 40)).filter(|&n| sieve_primality(n)).count());
}
