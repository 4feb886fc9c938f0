use lerch_prime_search::arith::{mul_mod, primitive_root};
use lerch_prime_search::reduction::{Barrett32, Montgomery32};
use lerch_prime_search::sieve::{segmented_primes, simple_primes};

#[test]
fn roots_generate_the_group() {
    let primes = simple_primes(100);
    for p in segmented_primes(3, 100, &primes) {
        let g = primitive_root(p, &primes);
        let mut seen = vec![false; p as usize];
        let mut x = 1;
        for _ in 0..p - 1 {
            assert!(!seen[x as usize]);
            seen[x as usize] = true;
            x = mul_mod(x, g, p);
        }
        assert_eq!(x, 1);
    }
}

#[test]
fn reducers_match_u128_modulo() {
    for modulus in [3, 103, 65_537, 1_000_003, 3_999_999_959] {
        let barrett = Barrett32::new(modulus);
        let montgomery = Montgomery32::new(modulus);
        let values = [0, 1, 2, 17, modulus / 2, modulus - 1];
        for a in values {
            for b in values {
                let expected = mul_mod(a, b, modulus);
                assert_eq!(barrett.multiply(a, b), expected);
                let got = montgomery
                    .decode(montgomery.multiply(montgomery.encode(a), montgomery.encode(b)));
                assert_eq!(got, expected);
            }
        }
    }
}

#[test]
fn segmented_matches_simple() {
    let all = simple_primes(10_000);
    let base = simple_primes(100);
    assert_eq!(segmented_primes(0, 10_000, &base), all);
    assert_eq!(
        segmented_primes(1234, 9876, &base),
        all.into_iter()
            .filter(|&p| (1234..=9876).contains(&p))
            .collect::<Vec<_>>()
    );
}
