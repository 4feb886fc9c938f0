//! Independent definition-level verification of rare conditions.
use crate::reference::definition_moments;
use crate::arith::covers_primes;
use crate::lerch::lemma_lerch_quotient;
use crate::search::SEARCH_LIMIT;
use crate::sieve::{integer_sqrt, sieve_primality, simple_primes};
use crate::number_theory::{
    cube_quotients_defined, is_prime, lemma_prime_cube_quotients_defined,
    lemma_prime_quotients_defined, one_to, product, quotients_defined, sum_by, wilson_quotient,
};
use crate::recurrence::{
    lemma_lerch_congruence, lerch_expression, lerch_remainder_of, moment, prime_invariants,
    quotient_power, recurrence_invariants, Invariants, MomentOptions,
};
use vstd::arithmetic::div_mod::{
    lemma_add_mod_noop, lemma_mod_bound, lemma_mod_twice,
    lemma_mul_mod_noop_left, lemma_small_mod, lemma_sub_mod_noop, lemma_mod_multiples_vanish,
};
use vstd::arithmetic::power::pow;
use vstd::prelude::*;
use num_bigint::BigUint;
use num_traits::ToPrimitive;

verus! {

/// `base^exponent mod modulus` through `num_bigint::BigUint::modpow`. The contract is what
/// num-bigint documents for `modpow`, `(self ^ exponent) % modulus`; it panics only on a
/// zero modulus, which `requires` leaves out, and the result, being below the modulus,
/// always converts back to `u128`.
#[verifier::external_body]
fn big_modpow(base: u128, exponent: u128, modulus: u128) -> (r: u128)
    requires
        modulus >= 2,
    ensures
        r as int == pow(base as int, exponent as nat) % (modulus as int),
{
    BigUint::from(base).modpow(&BigUint::from(exponent), &BigUint::from(modulus)).to_u128().unwrap()
}


/// The decimal digits of `n`, most significant first.
pub open spec fn decimal(n: nat) -> Seq<char>
    decreases n,
{
    if n < 10 {
        seq![(48 + n) as char]
    } else {
        decimal(n / 10).push((48 + n % 10) as char)
    }
}

/// The decimal form of `value`, through `ToString::to_string` (std's `Display` for
/// integers writes the decimal digits with no sign, padding or separators).
#[verifier::external_body]
pub(crate) fn decimal_string(value: u128) -> (s: String)
    ensures
        s@ == decimal(value as nat),
{
    value.to_string()
}

/// `(a^(p-1) mod p^3 - 1) / p`, the Fermat quotient of `a` modulo `p^2`.
pub open spec fn quotient_mod_p2(a: int, p: int) -> int {
    (pow(a, (p - 1) as nat) % (p * p * p) - 1) / p
}

/// `a |-> q_p(a) mod p^2`.
pub open spec fn quotient_mod_p2_fn(p: int) -> spec_fn(int) -> int {
    |a: int| quotient_mod_p2(a, p)
}

/// `a |-> a^(p-1)`.
pub open spec fn power_fn(p: int) -> spec_fn(int) -> int {
    |a: int| pow(a, (p - 1) as nat)
}

/// The Wilson quotient modulo `p^2`: `((p-1)! mod p^3 + 1) / p mod p^2`.
pub open spec fn wilson_mod_p2(p: int) -> int {
    ((product(one_to(p - 1)) % (p * p * p) + 1) / p) % (p * p)
}

/// `Q1 - W_p mod p^2`, with `Q1` the sum of the Fermat quotients modulo `p^2`.
pub open spec fn quotient_sum_minus_wilson(p: int) -> int {
    (sum_by(one_to(p - 1), quotient_mod_p2_fn(p)) - wilson_mod_p2(p)) % (p * p)
}

/// `sum_{a=1}^{p-1} a^(p-1) - (p-1)! - p mod p^3`.
pub open spec fn power_sum_residue(p: int) -> int {
    (sum_by(one_to(p - 1), power_fn(p)) - product(one_to(p - 1)) - p) % (p * p * p)
}

/// The two residues that vanish for a Lerch prime.
pub struct BigintLerchVerification {
    pub q1_minus_wilson_mod_p2: u128,
    pub power_sum_residue: u128,
}

proof fn lemma_take_step(s: Seq<int>, f: spec_fn(int) -> int, j: int)
    requires
        0 <= j < s.len(),
    ensures
        sum_by(s.take(j + 1), f) == sum_by(s.take(j), f) + f(s[j]),
{
    assert(s.take(j + 1).drop_last() =~= s.take(j));
}

proof fn lemma_add_reduced(total: int, acc: int, t: int, x: int, m: int)
    requires
        m > 0,
        acc == total % m,
        t % m == x % m,
    ensures
        (acc + t) % m == (total + x) % m,
{
    lemma_add_mod_noop(acc, t, m);
    lemma_mod_twice(total, m);
    lemma_add_mod_noop(total, x, m);
}

/// The sum of the Fermat quotients modulo `p^2`, the Wilson quotient modulo `p^2`, and
/// `(p-1)!` modulo `p^3`, each from the definitions.
fn quotient_and_factorial_residues(p: u64) -> (r: (u128, u128, u128, u128))
    requires
        3 <= p,
        p as int * p as int <= u64::MAX,
        cube_quotients_defined(p as int),
    ensures
        r.0 as int == sum_by(one_to(p - 1), quotient_mod_p2_fn(p as int)) % (p as int * p as int),
        r.1 as int == sum_by(one_to(p - 1), power_fn(p as int)) % (p as int * p as int * p as int),
        r.2 as int == product(one_to(p - 1)) % (p as int * p as int * p as int),
        r.3 as int == wilson_mod_p2(p as int),
{
    let ghost pi = p as int;
    let ghost s = one_to(pi - 1);
    let ghost fq = quotient_mod_p2_fn(pi);
    let ghost fp = power_fn(pi);
    let pb = p as u128;
    proof {
        assert(pi * pi * pi < 0x1_0000_0000 * 0x1_0000_0000 * 0x1_0000_0000) by (nonlinear_arith)
            requires
                pi * pi <= u64::MAX,
                pi >= 3,
        ;
        assert(pi < 0x1_0000_0000) by (nonlinear_arith)
            requires
                pi * pi <= u64::MAX,
                pi >= 3,
        ;
        assert(pi * pi * pi * pi < 0x1_0000_0000 * 0x1_0000_0000 * 0x1_0000_0000 * 0x1_0000_0000) by (nonlinear_arith)
            requires
                pi < 0x1_0000_0000,
                pi >= 3,
        ;
        assert(pi * pi >= 9) by (nonlinear_arith)
            requires
                pi >= 3,
        ;
        assert(pi * pi * pi >= 27) by (nonlinear_arith)
            requires
                pi >= 3,
        ;
        lemma_small_mod(0, (pi * pi) as nat);
        lemma_small_mod(0, (pi * pi * pi) as nat);
    }
    let p2 = pb * pb;
    let p3 = p2 * pb;
    let exponent = (p - 1) as u128;
    let mut q1_mod_p2: u128 = 0;
    let mut power_sum: u128 = 0;
    let mut a: u64 = 1;
    while a < p
        invariant
            pi == p as int,
            3 <= p,
            pi < 0x1_0000_0000,
            pi * pi <= u64::MAX,
            p2 as int == pi * pi,
            p3 as int == pi * pi * pi,
            pb as int == pi,
            exponent as int == pi - 1,
            pi * pi * pi < 0x1_0000_0000 * 0x1_0000_0000 * 0x1_0000_0000,
            pi * pi * pi >= 27,
            cube_quotients_defined(pi),
            s == one_to(pi - 1),
            fq == quotient_mod_p2_fn(pi),
            fp == power_fn(pi),
            1 <= a <= p,
            q1_mod_p2 < p2,
            power_sum < p3,
            q1_mod_p2 as int == sum_by(s.take(a - 1), fq) % (pi * pi),
            power_sum as int == sum_by(s.take(a - 1), fp) % (pi * pi * pi),
        decreases p - a,
    {
        let power = big_modpow(a as u128, exponent, p3);
        proof {
            assert(pow(a as int, (pi - 1) as nat) % (pi * pi * pi) != 0);
            lemma_mod_bound(pow(a as int, (pi - 1) as nat), pi * pi * pi);
        }
        let q = (power - 1) / pb;
        proof {
            let j = a - 1;
            assert(s[j as int] == a);
            lemma_take_step(s, fq, j as int);
            lemma_take_step(s, fp, j as int);
            assert(fq(a as int) == q as int);
            assert(fp(a as int) == pow(a as int, (pi - 1) as nat));
            lemma_add_reduced(sum_by(s.take(j as int), fq), q1_mod_p2 as int, q as int, q as int, pi * pi);
            lemma_mod_twice(pow(a as int, (pi - 1) as nat), pi * pi * pi);
            lemma_add_reduced(sum_by(s.take(j as int), fp), power_sum as int, power as int, pow(a as int, (pi - 1) as nat), pi * pi * pi);
            vstd::arithmetic::div_mod::lemma_fundamental_div_mod(power as int - 1, pi);
            vstd::arithmetic::div_mod::lemma_mod_bound(power as int - 1, pi);
            assert((q as int) * pi <= power as int) by (nonlinear_arith)
                requires
                    power as int - 1 == pi * (q as int) + (power as int - 1) % pi,
                    (power as int - 1) % pi < pi,
            ;
            assert((q as int) < pi * pi) by (nonlinear_arith)
                requires
                    (q as int) * pi <= power as int,
                    (power as int) < pi * pi * pi,
                    pi > 0,
            ;
        }
        q1_mod_p2 = (q1_mod_p2 + q) % p2;
        power_sum = (power_sum + power) % p3;
        a = a + 1;
    }
    proof {
        assert(s.take(pi - 1) =~= s);
    }
    let mut factorial: u128 = 1;
    let mut b: u64 = 2;
    proof {
        assert(one_to(1).drop_last() =~= one_to(0));
        assert(one_to(1).last() == 1);
        assert(product(one_to(0)) == 1);
        assert(product(one_to(1)) == 1);
        lemma_small_mod(1, (pi * pi * pi) as nat);
    }
    while b < p
        invariant
            pi == p as int,
            3 <= p,
            pi < 0x1_0000_0000,
            p3 as int == pi * pi * pi,
            pi * pi * pi < 0x1_0000_0000 * 0x1_0000_0000 * 0x1_0000_0000,
            2 <= b <= p,
            factorial < p3,
            factorial as int == product(one_to(b - 1)) % (pi * pi * pi),
        decreases p - b,
    {
        proof {
            assert(one_to(b as int).drop_last() =~= one_to(b - 1));
            assert(one_to(b as int).last() == b);
            lemma_mul_mod_noop_left(product(one_to(b - 1)), b as int, pi * pi * pi);
            assert((factorial as int) * (b as int) < 0x1_0000_0000 * 0x1_0000_0000 * 0x1_0000_0000 * 0x1_0000_0000) by (nonlinear_arith)
                requires
                    (factorial as int) < pi * pi * pi,
                    pi * pi * pi < 0x1_0000_0000 * 0x1_0000_0000 * 0x1_0000_0000,
                    (b as int) < pi,
                    pi < 0x1_0000_0000,
            ;
        }
        factorial = (factorial * (b as u128)) % p3;
        b = b + 1;
    }
    let wilson = ((factorial + 1) / pb) % p2;
    (q1_mod_p2, power_sum, factorial, wilson)
}

/// The bigint congruences of a Lerch candidate: `Q1 - W_p mod p^2` and
/// `sum a^(p-1) - (p-1)! - p mod p^3`.
pub fn verify_lerch_bigint(p: u64) -> (r: BigintLerchVerification)
    requires
        3 <= p,
        p as int * p as int <= u64::MAX,
        cube_quotients_defined(p as int),
    ensures
        r.q1_minus_wilson_mod_p2 as int == quotient_sum_minus_wilson(p as int),
        r.power_sum_residue as int == power_sum_residue(p as int),
        is_prime(p as int) ==> (r.q1_minus_wilson_mod_p2 == 0 <==> r.power_sum_residue == 0),
        is_prime(p as int) ==> (r.power_sum_residue == 0 <==> lerch_expression(
            moment(p as int, 1),
            moment(p as int, 2),
            p as int,
        ) == 0),
{
    let (q1_mod_p2, power_sum, factorial, wilson_mod_p2) = quotient_and_factorial_residues(p);
    let ghost pi = p as int;
    let pb = p as u128;
    proof {
        assert(pi < 0x1_0000_0000) by (nonlinear_arith)
            requires
                pi * pi <= u64::MAX,
                pi >= 3,
        ;
        assert(pi * pi * pi < 0x1_0000_0000 * 0x1_0000_0000 * 0x1_0000_0000) by (nonlinear_arith)
            requires
                pi < 0x1_0000_0000,
                pi >= 3,
        ;
        assert(pi * pi >= 9) by (nonlinear_arith)
            requires
                pi >= 3,
        ;
        assert(pi * pi * pi >= 27) by (nonlinear_arith)
            requires
                pi >= 3,
        ;
        lemma_mod_bound(product(one_to(pi - 1)), pi * pi * pi);
        lemma_mod_bound(sum_by(one_to(pi - 1), power_fn(pi)), pi * pi * pi);
        lemma_mod_bound(sum_by(one_to(pi - 1), quotient_mod_p2_fn(pi)), pi * pi);
        lemma_mod_bound((product(one_to(pi - 1)) % (pi * pi * pi) + 1) / pi, pi * pi);
    }
    let p2 = pb * pb;
    let p3 = p2 * pb;
    proof {
        assert(p2 as int == pi * pi);
        assert(p3 as int == pi * pi * pi);
        assert((factorial as int) < pi * pi * pi);
        assert((power_sum as int) < pi * pi * pi);
        assert((wilson_mod_p2 as int) < pi * pi);
        assert((q1_mod_p2 as int) < pi * pi);
        assert(power_sum as int + 2 * (p3 as int) < u128::MAX);
        assert(pi * pi * pi >= pi) by (nonlinear_arith)
            requires
                pi >= 3,
        ;
    }
    let difference = (q1_mod_p2 + p2 - wilson_mod_p2) % p2;
    let lifted = power_sum + p3 - factorial;
    let shifted = lifted + p3 - pb;
    let residue = shifted % p3;
    proof {
        let m2 = pi * pi;
        let m3 = pi * pi * pi;
        let sq = sum_by(one_to(pi - 1), quotient_mod_p2_fn(pi));
        let sp = sum_by(one_to(pi - 1), power_fn(pi));
        let f = product(one_to(pi - 1));
        // difference == sq - w (mod p^2)
        lemma_mod_multiples_vanish(1, q1_mod_p2 as int - wilson_mod_p2 as int, m2);
        lemma_sub_mod_noop(sq, wilson_mod_p2 as int, m2);
        lemma_small_mod(wilson_mod_p2 as nat, m2 as nat);
        lemma_sub_mod_noop(q1_mod_p2 as int, wilson_mod_p2 as int, m2);
        lemma_mod_twice(sq, m2);
        // residue == sp - f - p (mod p^3)
        lemma_mod_multiples_vanish(2, power_sum as int - factorial as int - pi, m3);
        lemma_sub_mod_noop(power_sum as int, factorial as int + pi, m3);
        lemma_sub_mod_noop(sp, f + pi, m3);
        lemma_add_mod_noop(f, pi, m3);
        lemma_add_mod_noop(factorial as int, pi, m3);
        lemma_mod_twice(f, m3);
        lemma_mod_twice(sp, m3);
    }
    proof {
        if is_prime(pi) {
            lemma_lerch_quotient(pi);
            let l = lerch_remainder_of(moment(pi, 1), moment(pi, 2), pi);
            assert(pi * l == 0 <==> l == 0) by (nonlinear_arith)
                requires
                    pi >= 3,
            ;
            assert(pi * pi * l == 0 <==> l == 0) by (nonlinear_arith)
                requires
                    pi >= 3,
            ;
        }
    }
    BigintLerchVerification { q1_minus_wilson_mod_p2: difference, power_sum_residue: residue }
}

/// The Lerch quotient modulo `p` read off `(Q1 - W_p) mod p^2`, divided by `p`.
pub fn direct_lerch_remainder_bigint(p: u64) -> (r: u64)
    requires
        1 <= p,
        p as int * p as int <= u64::MAX,
        cube_quotients_defined(p as int),
    ensures
        r as int == quotient_sum_minus_wilson(p as int) / (p as int),
        is_prime(p as int) && p >= 3 ==> r as int == lerch_remainder_of(
            moment(p as int, 1),
            moment(p as int, 2),
            p as int,
        ),
{
    if p == 1 {
        proof {
            assert(one_to(0) =~= Seq::<int>::empty());
            assert(sum_by(one_to(0), quotient_mod_p2_fn(1)) == 0);
            assert(product(one_to(0)) == 1);
            assert(wilson_mod_p2(1) == 0);
        }
        return 0;
    }
    if p == 2 {
        proof {
            assert(one_to(1).drop_last() =~= one_to(0));
            assert(one_to(1).last() == 1);
            assert(product(one_to(0)) == 1);
            assert(product(one_to(1)) == 1);
            vstd::arithmetic::power::lemma_pow1(1);
            assert(pow(1, (2 - 1) as nat) == 1);
            assert((1int % 8) == 1);
            assert(quotient_mod_p2(1, 2) == (1int - 1) / 2);
            assert(quotient_mod_p2(1, 2) == 0);
            assert(sum_by(one_to(0), quotient_mod_p2_fn(2)) == 0);
            assert(quotient_mod_p2_fn(2)(1) == 0);
            assert(sum_by(one_to(1), quotient_mod_p2_fn(2)) == 0);
            assert(wilson_mod_p2(2) == 1);
            assert(quotient_sum_minus_wilson(2) == 3);
        }
        return 1;
    }
    let full = verify_lerch_bigint(p);
    let ghost pi = p as int;
    proof {
        lemma_mod_bound(sum_by(one_to(pi - 1), quotient_mod_p2_fn(pi)) - wilson_mod_p2(pi), pi * pi);
        assert(pi * pi <= u64::MAX);
        assert(full.q1_minus_wilson_mod_p2 < pi * pi);
    }
    let r = full.q1_minus_wilson_mod_p2 / (p as u128);
    proof {
        vstd::arithmetic::div_mod::lemma_div_is_ordered(full.q1_minus_wilson_mod_p2 as int, pi * pi, pi);
        vstd::arithmetic::div_mod::lemma_div_multiples_vanish(pi, pi);
        if is_prime(pi) {
            lemma_lerch_quotient(pi);
            vstd::arithmetic::div_mod::lemma_div_multiples_vanish(
                lerch_remainder_of(moment(pi, 1), moment(pi, 2), pi),
                pi,
            );
        }
    }
    r as u64
}


/// The record of an independent check of one prime's moments.
#[derive(Clone, Debug)]
pub struct VerificationTranscript {
    pub p: u64,
    pub method: String,
    pub recurrence_q1: u64,
    pub recurrence_q2: u64,
    pub direct_q1_mod_p: u64,
    pub direct_q2_mod_p: u64,
    pub direct_q3_mod_p: Option<u64>,
    pub direct_q4_mod_p: Option<u64>,
    pub wilson_mod_p: u64,
    pub recurrence_matches_direct: bool,
    pub q1_matches_wilson_mod_p: bool,
    pub q1_minus_wilson_mod_p2: Option<String>,
    pub power_sum_minus_factorial_minus_p_mod_p3: Option<String>,
    pub lerch_verified: Option<bool>,
    pub verified: bool,
}

pub(crate) fn same_moment(a: Option<u64>, b: Option<u64>) -> (r: bool)
    ensures
        r == (a == b),
{
    match (a, b) {
        (Some(x), Some(y)) => x == y,
        (None, None) => true,
        _ => false,
    }
}

/// The direct moment `Q_r` with the same presence as the recurrence's.
pub open spec fn matching_moment(present: Option<u64>, p: int, r: nat) -> Option<u64> {
    if present is Some {
        Some((sum_by(one_to(p - 1), quotient_power(p, r)) % p) as u64)
    } else {
        None
    }
}

/// Definition-based verification for every rare condition. For Lerch hits this
/// additionally performs both independent bigint congruences modulo p^2/p^3.
pub fn verify_rare_candidate(fast: &Invariants) -> (t: VerificationTranscript)
    requires
        fast.p >= 1,
        fast.p == 1 ==> !fast.is_lerch,
        fast.p >= 3 ==> fast.p as int * fast.p as int <= u64::MAX,
        fast.p >= 3 ==> quotients_defined(fast.p as int),
        fast.p >= 3 && fast.is_lerch ==> cube_quotients_defined(fast.p as int),
    ensures
        t.p == fast.p,
        fast.p == 2 ==> {
            &&& t.method@ == "definition special case"@
            &&& t.recurrence_q1 == 0 && t.recurrence_q2 == 0
            &&& t.direct_q1_mod_p == 0 && t.direct_q2_mod_p == 0
            &&& t.direct_q3_mod_p == if fast.q3 is Some { Some(0u64) } else { None }
            &&& t.direct_q4_mod_p == if fast.q4 is Some { Some(0u64) } else { None }
            &&& t.wilson_mod_p == 1
            &&& t.recurrence_matches_direct
            &&& !t.q1_matches_wilson_mod_p
            &&& t.q1_minus_wilson_mod_p2 is None
            &&& t.power_sum_minus_factorial_minus_p_mod_p3 is None
            &&& t.lerch_verified is None
            &&& t.verified == fast.is_gy_exceptional
        },
        fast.p != 2 ==> {
            let p = fast.p as int;
            let q1 = sum_by(one_to(p - 1), quotient_power(p, 1)) % p;
            let q2 = sum_by(one_to(p - 1), quotient_power(p, 2)) % p;
            let matches = q1 == fast.q1 && q2 == fast.q2
                && t.direct_q3_mod_p == fast.q3 && t.direct_q4_mod_p == fast.q4;
            let lerch_ok = quotient_sum_minus_wilson(p) == 0 && power_sum_residue(p) == 0;
            &&& t.method@ == (if fast.is_lerch {
                "direct q_p definitions plus independent bigint p^3 power sum"@
            } else {
                "direct q_p definitions and factorial modulo p^2"@
            })
            &&& t.recurrence_q1 == fast.q1 && t.recurrence_q2 == fast.q2
            &&& t.direct_q1_mod_p as int == q1
            &&& t.direct_q2_mod_p as int == q2
            &&& t.direct_q3_mod_p == matching_moment(fast.q3, p, 3)
            &&& t.direct_q4_mod_p == matching_moment(fast.q4, p, 4)
            &&& t.wilson_mod_p as int == wilson_quotient(p)
            &&& t.recurrence_matches_direct == matches
            &&& t.q1_matches_wilson_mod_p == (q1 == wilson_quotient(p))
            &&& fast.is_lerch ==> (t.q1_minus_wilson_mod_p2 matches Some(s) && s@ == decimal(
                quotient_sum_minus_wilson(p) as nat,
            ))
            &&& fast.is_lerch ==> (t.power_sum_minus_factorial_minus_p_mod_p3 matches Some(s) && s@
                == decimal(power_sum_residue(p) as nat))
            &&& !fast.is_lerch ==> t.q1_minus_wilson_mod_p2 is None
                && t.power_sum_minus_factorial_minus_p_mod_p3 is None
            &&& t.lerch_verified == if fast.is_lerch { Some(lerch_ok) } else { None }
            &&& t.verified == (matches && t.q1_matches_wilson_mod_p && (fast.is_lerch ==> lerch_ok))
        },
        is_prime(fast.p as int) && *fast == prime_invariants(
            fast.p as int,
            (MomentOptions { q3: fast.q3 is Some, q4: fast.q4 is Some }),
        ) ==> t.verified,
{
    let p = fast.p;
    if p == 1 {
        let direct_q3: Option<u64> = if fast.q3.is_some() { Some(0) } else { None };
        let direct_q4: Option<u64> = if fast.q4.is_some() { Some(0) } else { None };
        let recurrence_matches_direct = fast.q1 == 0 && fast.q2 == 0 && same_moment(
            direct_q3,
            fast.q3,
        ) && same_moment(direct_q4, fast.q4);
        proof {
            assert(one_to(0) =~= Seq::<int>::empty());
            assert(sum_by(one_to(0), quotient_power(1, 1)) == 0);
            assert(sum_by(one_to(0), quotient_power(1, 2)) == 0);
            assert(sum_by(one_to(0), quotient_power(1, 3)) == 0);
            assert(sum_by(one_to(0), quotient_power(1, 4)) == 0);
            assert(product(one_to(0)) == 1);
            assert(wilson_quotient(1) == 0);
        }
        return VerificationTranscript {
            p,
            method: "direct q_p definitions and factorial modulo p^2".to_owned(),
            recurrence_q1: fast.q1,
            recurrence_q2: fast.q2,
            direct_q1_mod_p: 0,
            direct_q2_mod_p: 0,
            direct_q3_mod_p: direct_q3,
            direct_q4_mod_p: direct_q4,
            wilson_mod_p: 0,
            recurrence_matches_direct,
            q1_matches_wilson_mod_p: true,
            q1_minus_wilson_mod_p2: None,
            power_sum_minus_factorial_minus_p_mod_p3: None,
            lerch_verified: None,
            verified: recurrence_matches_direct,
        };
    }
    if p == 2 {
        return VerificationTranscript {
            p,
            method: "definition special case".to_owned(),
            recurrence_q1: 0,
            recurrence_q2: 0,
            direct_q1_mod_p: 0,
            direct_q2_mod_p: 0,
            direct_q3_mod_p: if fast.q3.is_some() { Some(0) } else { None },
            direct_q4_mod_p: if fast.q4.is_some() { Some(0) } else { None },
            wilson_mod_p: 1,
            recurrence_matches_direct: true,
            q1_matches_wilson_mod_p: false,
            q1_minus_wilson_mod_p2: None,
            power_sum_minus_factorial_minus_p_mod_p3: None,
            lerch_verified: None,
            verified: fast.is_gy_exceptional,
        };
    }
    let (q1, q2, direct_q3, direct_q4, wilson) = definition_moments(p, fast.q3.is_some(), fast.q4.is_some());
    let recurrence_matches_direct = q1 == fast.q1 && q2 == fast.q2 && same_moment(direct_q3, fast.q3)
        && same_moment(direct_q4, fast.q4);
    let q1_matches_wilson_mod_p = q1 == wilson;
    let mut q1_minus_wilson_mod_p2: Option<String> = None;
    let mut power_residue: Option<String> = None;
    let mut lerch_verified: Option<bool> = None;
    if fast.is_lerch {
        let full = verify_lerch_bigint(p);
        q1_minus_wilson_mod_p2 = Some(decimal_string(full.q1_minus_wilson_mod_p2));
        power_residue = Some(decimal_string(full.power_sum_residue));
        lerch_verified = Some(full.q1_minus_wilson_mod_p2 == 0 && full.power_sum_residue == 0);
    }
    let lerch_ok = match lerch_verified {
        Some(ok) => ok,
        None => true,
    };
    let verified = recurrence_matches_direct && q1_matches_wilson_mod_p && lerch_ok;
    proof {
        let pi = p as int;
        if is_prime(pi) && *fast == prime_invariants(
            pi,
            (MomentOptions { q3: fast.q3 is Some, q4: fast.q4 is Some }),
        ) {
            lemma_lerch_congruence(pi);
            lemma_lerch_quotient(pi);
        }
    }
    let method = if fast.is_lerch {
        "direct q_p definitions plus independent bigint p^3 power sum".to_owned()
    } else {
        "direct q_p definitions and factorial modulo p^2".to_owned()
    };
    VerificationTranscript {
        p,
        method,
        recurrence_q1: fast.q1,
        recurrence_q2: fast.q2,
        direct_q1_mod_p: q1,
        direct_q2_mod_p: q2,
        direct_q3_mod_p: direct_q3,
        direct_q4_mod_p: direct_q4,
        wilson_mod_p: wilson,
        recurrence_matches_direct,
        q1_matches_wilson_mod_p,
        q1_minus_wilson_mod_p2,
        power_sum_minus_factorial_minus_p_mod_p3: power_residue,
        lerch_verified,
        verified,
    }
}

/// Verifies `p` from the definitions: `None` when `p` is not prime, otherwise the
/// transcript of `verify_rare_candidate` on the recurrence invariants of `p` with all four
/// moments.
pub fn verify_prime(p: u64) -> (r: Option<VerificationTranscript>)
    requires
        p as int <= usize::MAX,
        is_prime(p as int) ==> p <= SEARCH_LIMIT,
    ensures
        r is Some <==> is_prime(p as int),
        r matches Some(t) ==> {
            let inv = prime_invariants(p as int, (MomentOptions { q3: true, q4: true }));
            &&& t.p == p
            &&& t.verified
            &&& t.recurrence_matches_direct
            &&& t.recurrence_q1 == inv.q1 && t.recurrence_q2 == inv.q2
            &&& t.direct_q1_mod_p == inv.q1 && t.direct_q2_mod_p == inv.q2
            &&& t.direct_q3_mod_p == inv.q3 && t.direct_q4_mod_p == inv.q4
            &&& t.q1_matches_wilson_mod_p == (p >= 3)
            &&& t.wilson_mod_p as int == (if p >= 3 { wilson_quotient(p as int) } else { 1 })
            &&& t.method@ == (if p == 2 {
                "definition special case"@
            } else if inv.is_lerch {
                "direct q_p definitions plus independent bigint p^3 power sum"@
            } else {
                "direct q_p definitions and factorial modulo p^2"@
            })
            &&& t.lerch_verified == (if inv.is_lerch { Some(true) } else { None })
            &&& inv.is_lerch ==> (t.q1_minus_wilson_mod_p2 matches Some(s) && s@ == decimal(0))
            &&& inv.is_lerch ==> (t.power_sum_minus_factorial_minus_p_mod_p3 matches Some(s) && s@
                == decimal(0))
            &&& !inv.is_lerch ==> t.q1_minus_wilson_mod_p2 is None
                && t.power_sum_minus_factorial_minus_p_mod_p3 is None
        },
{
    if !sieve_primality(p) {
        return None;
    }
    let root = integer_sqrt(p);
    proof {
        assert(root < 100_000) by (nonlinear_arith)
            requires
                root as int * root as int <= p,
                p <= 4_000_000_000,
        ;
    }
    let base = simple_primes(root);
    let moments = MomentOptions { q3: true, q4: true };
    proof {
        assert forall|q: u64| #![trigger is_prime(q as int)] is_prime(q as int) && q * q <= p - 1 implies base@.contains(q) by {
            if q > root {
                assert(q * q >= (root + 1) * (root + 1)) by (nonlinear_arith)
                    requires
                        q >= root + 1,
                ;
            }
        }
        assert(covers_primes(base@, p - 1));
        if p >= 3 {
            lemma_prime_quotients_defined(p as int);
            lemma_prime_cube_quotients_defined(p as int);
            lemma_lerch_congruence(p as int);
            lemma_lerch_quotient(p as int);
            assert(p as int * p as int <= u64::MAX) by (nonlinear_arith)
                requires
                    p <= 4_000_000_000,
            ;
        }
    }
    let fast = recurrence_invariants(p, &base, moments);
    let transcript = verify_rare_candidate(&fast);
    proof {
        if p >= 3 {
            vstd::arithmetic::div_mod::lemma_mod_bound(sum_by(one_to(p - 1), quotient_power(p as int, 1)), p as int);
            vstd::arithmetic::div_mod::lemma_mod_bound(sum_by(one_to(p - 1), quotient_power(p as int, 2)), p as int);
        }
    }
    Some(transcript)
}

} // verus!
