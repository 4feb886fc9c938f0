//! The primitive-root recurrence for Fermat-quotient moments.
use crate::arith::{
    covers_primes, fermat_quotient_mod_p, inverse_mod, mul_mod, primitive_root,
};
use crate::number_theory::{
    fermat_quotient, is_prime, lemma_orbit_permutation, lemma_pow_nonzero, lemma_quotient_product,
    lemma_quotient_shift, lemma_sum_permutation, lemma_cancel, one_to, orbit, passes_root_test,
    sum_by, lemma_fermat, lemma_quotient_decompose, lemma_quotient_defined, least_primitive_root,
    lemma_quotient_of_factorial, lemma_quotient_of_product, product, wilson_quotient,
};
use crate::cyclic::lemma_primitive_root_exists;
use vstd::arithmetic::div_mod::{
    lemma_add_mod_noop, lemma_fundamental_div_mod, lemma_mod_bound,
    lemma_mod_twice, lemma_mul_mod_noop_left, lemma_mul_mod_noop_right, lemma_small_mod,
    lemma_mod_multiples_vanish, lemma_mul_mod_noop_general,
};
use vstd::arithmetic::power::{lemma_pow0, lemma1_pow, lemma_pow1, lemma_pow_adds, lemma_square_is_pow2, pow};
use vstd::prelude::*;

verus! {

/// `q_p(a)^r`, as a function of `a`.
pub open spec fn quotient_power(p: int, r: nat) -> spec_fn(int) -> int {
    |a: int| pow(fermat_quotient(a, p), r)
}

/// The moment `Q_r = sum_{a=1}^{p-1} q_p(a)^r mod p`.
pub open spec fn moment(p: int, r: nat) -> int {
    sum_by(one_to(p - 1), quotient_power(p, r)) % p
}

/// `Q2 + Q1^2 - 2 Q1 mod p`, written with non-negative terms; zero exactly for Lerch primes.
pub open spec fn lerch_expression(q1: int, q2: int, p: int) -> int {
    (q2 + (q1 * q1) % p + 2 * (p - q1)) % p
}

/// The Lerch quotient modulo `p`: half of the Lerch expression.
pub open spec fn lerch_remainder_of(q1: int, q2: int, p: int) -> int {
    (lerch_expression(q1, q2, p) * ((p + 1) / 2)) % p
}

/// `k_p = 1 - 2 L_p / Q2 mod p`, the inverse of `Q2` taken as `Q2^(p-2) mod p`.
pub open spec fn generalized_k_of(l: int, q2: int, p: int) -> int {
    let ratio = (((2 * l) % p) * (pow(q2, (p - 2) as nat) % p)) % p;
    if ratio <= 1 {
        1 - ratio
    } else {
        p + 1 - ratio
    }
}

/// The invariants of the prime `p`: the least primitive root, the moments, the Lerch
/// remainder, `k_p`, and the exceptional conditions (`p = 2` by convention).
pub open spec fn prime_invariants(p: int, moments: MomentOptions) -> Invariants {
    if p == 2 {
        Invariants {
            p: 2,
            primitive_root: 1,
            q1: 0,
            q2: 0,
            q3: if moments.q3 { Some(0u64) } else { None },
            q4: if moments.q4 { Some(0u64) } else { None },
            lerch_remainder: None,
            generalized_k: None,
            is_lerch: false,
            is_gy_exceptional: true,
            is_wilson: false,
            q1_equals_2: false,
        }
    } else {
        let q1 = moment(p, 1);
        let q2 = moment(p, 2);
        let l = lerch_remainder_of(q1, q2, p);
        Invariants {
            p: p as u64,
            primitive_root: least_primitive_root(p) as u64,
            q1: q1 as u64,
            q2: q2 as u64,
            q3: if moments.q3 { Some(moment(p, 3) as u64) } else { None },
            q4: if moments.q4 { Some(moment(p, 4) as u64) } else { None },
            lerch_remainder: Some(l as u64),
            generalized_k: if q2 != 0 { Some(generalized_k_of(l, q2, p) as u64) } else { None },
            is_lerch: lerch_expression(q1, q2, p) == 0,
            is_gy_exceptional: q2 == 0,
            is_wilson: q1 == 0,
            q1_equals_2: q1 == 2,
        }
    }
}

/// Which optional higher moments to accumulate.
#[derive(Clone, Copy, Debug, Default)]
pub struct MomentOptions {
    pub q3: bool,
    pub q4: bool,
}

/// The moments and exceptional conditions of one prime.
#[derive(Clone, Debug, PartialEq, Eq)]
pub struct Invariants {
    pub p: u64,
    pub primitive_root: u64,
    pub q1: u64,
    pub q2: u64,
    pub q3: Option<u64>,
    pub q4: Option<u64>,
    pub lerch_remainder: Option<u64>,
    pub generalized_k: Option<u64>,
    pub is_lerch: bool,
    pub is_gy_exceptional: bool,
    pub is_wilson: bool,
    pub q1_equals_2: bool,
}

impl Invariants {
    /// Some rare condition holds: Lerch, Gy, Wilson, `Q1 = 2`, or a vanishing `Q3` or `Q4`.
    pub open spec fn is_rare(&self) -> bool {
        self.is_lerch || self.is_gy_exceptional || self.is_wilson || self.q1_equals_2 || self.q3
            == Some(0u64) || self.q4 == Some(0u64)
    }

    /// Whether any rare condition holds.
    pub fn rare(&self) -> (r: bool)
        ensures
            r == self.is_rare(),
    {
        let q3_zero = match self.q3 {
            Some(x) => x == 0,
            None => false,
        };
        let q4_zero = match self.q4 {
            Some(x) => x == 0,
            None => false,
        };
        self.is_lerch || self.is_gy_exceptional || self.is_wilson || self.q1_equals_2 || q3_zero
            || q4_zero
    }
}


/// Congruent summands keep an accumulated sum congruent.
proof fn lemma_accumulate(total: int, acc: int, t: int, x: int, p: int)
    requires
        p > 0,
        acc == total % p,
        t % p == x % p,
    ensures
        (acc + t) % p == (total + x) % p,
{
    lemma_add_mod_noop(acc, t, p);
    lemma_mod_twice(total, p);
    lemma_add_mod_noop(total, x, p);
}

/// One step of the recurrence: from `c = g^j mod p` with inverse `v` and quotient `u`,
/// the next residue, its inverse, and its Fermat quotient.
proof fn lemma_advance(g: int, p: int, ginv: int, j: nat, c: int, v: int)
    requires
        is_prime(p),
        2 <= g < p,
        passes_root_test(g, p),
        (g * ginv) % p == 1,
        c == pow(g, j) % p,
        (c * v) % p == 1,
    ensures
        ({
            let k = (g * c) / p;
            let c2 = g * c - k * p;
            let v2 = (v * ginv) % p;
            &&& c2 == pow(g, j + 1) % p
            &&& (c2 * v2) % p == 1
            &&& (fermat_quotient(c, p) + fermat_quotient(g, p) + k * v2) % p == fermat_quotient(c2, p)
        }),
{
    let prod = g * c;
    let k = prod / p;
    let c2 = prod - k * p;
    let v2 = (v * ginv) % p;
    lemma_fundamental_div_mod(prod, p);
    assert(k * p == p * k) by (nonlinear_arith);
    assert(c2 == prod % p);
    lemma_small_mod(g as nat, p as nat);
    // c2 is the next power
    lemma_pow_adds(g, j, 1);
    lemma_pow1(g);
    lemma_mul_mod_noop_left(pow(g, j), g, p);
    assert(pow(g, j) * g == g * pow(g, j)) by (nonlinear_arith);
    lemma_mul_mod_noop_right(g, pow(g, j), p);
    assert(c2 == pow(g, j + 1) % p);
    // inverses multiply
    lemma_mul_mod_noop_general(prod, v * ginv, p);
    assert(prod * (v * ginv) == (g * ginv) * (c * v)) by (nonlinear_arith)
        requires
            prod == g * c,
    ;
    lemma_mul_mod_noop_general(g * ginv, c * v, p);
    lemma_small_mod(1, p as nat);
    assert((c2 * v2) % p == 1);
    // non-zero residues
    lemma_pow_nonzero(g, j, p);
    lemma_pow_nonzero(g, j + 1, p);
    lemma_mod_twice(pow(g, j), p);
    lemma_mod_twice(pow(g, j + 1), p);
    assert(c % p != 0);
    assert(c2 % p != 0);
    // logarithmic property and the shift by k*p
    lemma_quotient_product(g, c, p);
    assert(prod == c2 + k * p);
    lemma_quotient_shift(c2, k, p);
    let w = pow(c2, (p - 2) as nat);
    // v2 is congruent to c2^(p-2)
    lemma_fermat(c2, p);
    lemma_pow_adds(c2, (p - 2) as nat, 1);
    lemma_pow1(c2);
    assert(pow(c2, (p - 1) as nat) == w * c2);
    assert(c2 * v2 == v2 * c2) by (nonlinear_arith);
    lemma_cancel(v2, w, c2, p);
    // assemble
    let a = fermat_quotient(g, p) + fermat_quotient(c, p);
    let fc2 = fermat_quotient(c2, p);
    lemma_mod_twice(a, p);
    assert(a % p == (fc2 + (p - 1) * w * k) % p);
    lemma_mul_mod_noop_right(k, v2, p);
    lemma_mul_mod_noop_right(k, w, p);
    assert((k * v2) % p == (k * w) % p);
    lemma_add_mod_noop(a, k * v2, p);
    lemma_add_mod_noop(a, k * w, p);
    lemma_add_mod_noop(fc2 + (p - 1) * w * k, k * w, p);
    assert((fc2 + (p - 1) * w * k) + k * w == p * (w * k) + fc2) by (nonlinear_arith);
    lemma_mod_multiples_vanish(w * k, fc2, p);
    lemma_quotient_decompose(c2, p);
    lemma_small_mod(fc2 as nat, p as nat);
    assert(fermat_quotient(c, p) + fermat_quotient(g, p) + k * v2 == a + k * v2);
}


/// Squares of residues below the search limit fit a 64-bit word.
proof fn lemma_square_bound(p: int)
    requires
        0 <= p <= 4_000_000_000,
    ensures
        p * p <= 16_000_000_000_000_000_000,
        p * p <= u64::MAX,
{
    assert(p * p <= 4_000_000_000 * 4_000_000_000) by (nonlinear_arith)
        requires
            0 <= p <= 4_000_000_000,
    ;
}

/// Some pair in `s` has first component `a`.
pub open spec fn has_residue(s: Seq<(u64, u64)>, a: int) -> bool {
    exists|j: int| 0 <= j < s.len() && s[j].0 == a
}

/// The starting state `c = g^0 = 1`, `v = 1`, `u = q_p(1) = 0`.
proof fn lemma_start(g: int, p: int)
    requires
        is_prime(p),
    ensures
        orbit(g, p)[0] == 1,
        fermat_quotient(1, p) == 0,
        (1int * 1int) % p == 1,
{
    lemma_pow0(g);
    lemma_small_mod(1, p as nat);
    lemma1_pow((p - 1) as nat);
    assert(p * p > 1) by (nonlinear_arith)
        requires
            p >= 2,
    ;
    lemma_small_mod(1, (p * p) as nat);
}

/// The values `(c_j, u_j) = (g^j mod p, q_p(c_j))` generated by the recurrence, for
/// `j = 0, ..., p-2`, with `g` the least primitive root. `trial_primes` must list, in
/// increasing order, the primes through `sqrt(p - 1)`.
pub fn recurrence_values(p: u64, trial_primes: &[u64]) -> (out: Vec<(u64, u64)>)
    requires
        3 <= p <= 4_000_000_000,
        is_prime(p as int),
        covers_primes(trial_primes@, p - 1),
    ensures
        out@.len() == p - 1,
        forall|j: int|
            0 <= j < p - 1 ==> #[trigger] out@[j].0 as int == orbit(least_primitive_root(p as int), p as int)[j],
        forall|j: int| 0 <= j < p - 1 ==> 1 <= #[trigger] out@[j].0 < p,
        forall|j: int|
            0 <= j < p - 1 ==> #[trigger] out@[j].1 as int == fermat_quotient(out@[j].0 as int, p as int),
        forall|i: int, j: int|
            0 <= i < p - 1 && 0 <= j < p - 1 && i != j ==> #[trigger] out@[i].0 != #[trigger] out@[j].0,
        forall|a: int| 1 <= a < p ==> #[trigger] has_residue(out@, a),
{
    let ghost pi = p as int;
    proof {
        lemma_primitive_root_exists(pi);
    }
    let g = primitive_root(p, trial_primes);
    let g_inverse = inverse_mod(g, p);
    proof {
        lemma_small_mod(g as nat, p as nat);
        lemma_quotient_defined(g as int, pi);
        lemma_start(g as int, pi);
        lemma_orbit_permutation(g as int, pi);
        lemma_square_bound(pi);
        lemma_quotient_decompose(g as int, pi);
    }
    let qg = fermat_quotient_mod_p(g, p);
    let mut out: Vec<(u64, u64)> = Vec::with_capacity((p - 1) as usize);
    let mut c: u64 = 1;
    let mut v: u64 = 1;
    let mut u: u64 = 0;
    let mut j: u64 = 0;
    while j < p - 1
        invariant
            pi == p as int,
            3 <= p <= 4_000_000_000,
            is_prime(pi),
            2 <= g < p,
            g == least_primitive_root(pi),
            passes_root_test(g as int, pi),
            (g as int * g_inverse as int) % pi == 1,
            g_inverse < p,
            qg as int == fermat_quotient(g as int, pi),
            qg < p,
            orbit(g as int, pi).no_duplicates(),
            forall|i: int| 0 <= i < p - 1 ==> 1 <= #[trigger] orbit(g as int, pi)[i] < p,
            orbit(g as int, pi).to_set() == one_to(pi - 1).to_set(),
            0 <= j <= p - 1,
            out@.len() == j,
            forall|i: int| 0 <= i < j ==> #[trigger] out@[i].0 as int == orbit(g as int, pi)[i],
            forall|i: int| 0 <= i < j ==> #[trigger] out@[i].1 as int == fermat_quotient(out@[i].0 as int, pi),
            c < p,
            v < p,
            u < p,
            j < p - 1 ==> c as int == orbit(g as int, pi)[j as int],
            j < p - 1 ==> (c as int * v as int) % pi == 1,
            j < p - 1 ==> u as int == fermat_quotient(c as int, pi),
        decreases p - 1 - j,
    {
        out.push((c, u));
        if j + 1 < p - 1 {
            proof {
                lemma_advance(g as int, pi, g_inverse as int, j as nat, c as int, v as int);
                lemma_small_mod(g as nat, p as nat);
                lemma_square_bound(pi);
                assert((g as int) * (c as int) < pi * pi) by (nonlinear_arith)
                    requires
                        g < p,
                        c < p,
                        pi == p,
                ;
                assert((v as int) * (g_inverse as int) < pi * pi) by (nonlinear_arith)
                    requires
                        v < p,
                        g_inverse < p,
                        pi == p,
                ;
            }
            let product = g * c;
            let k = product / p;
            proof {
                lemma_fundamental_div_mod(product as int, pi);
                assert(k <= product);
                assert((k as int) * pi <= product as int) by (nonlinear_arith)
                    requires
                        product as int == pi * (k as int) + (product as int) % pi,
                        (product as int) % pi >= 0,
                ;
                assert((k as int) < pi) by (nonlinear_arith)
                    requires
                        (k as int) * pi <= product as int,
                        product as int == (g as int) * (c as int),
                        g < p,
                        c < p,
                        pi == p,
                ;
            }
            c = product - k * p;
            v = (v * g_inverse) % p;
            proof {
                assert((k as int) * (v as int) < pi * pi) by (nonlinear_arith)
                    requires
                        k < p,
                        v < p,
                        pi == p,
                ;
                assert(u as int + qg as int + (k as int) * (v as int) < u64::MAX);
            }
            u = (u + qg + k * v) % p;
            proof {
                lemma_mod_bound(pow(g as int, (j + 1) as nat), pi);
            }
        }
        j = j + 1;
    }
    proof {
        let s = orbit(g as int, pi);
        assert forall|i: int, k: int|
            0 <= i < p - 1 && 0 <= k < p - 1 && i != k implies #[trigger] out@[i].0 != #[trigger] out@[k].0 by {
            assert(s[i] != s[k]);
        }
        assert forall|a: int| 1 <= a < p implies #[trigger] has_residue(out@, a) by {
            assert(one_to(pi - 1)[a - 1] == a);
            assert(one_to(pi - 1).to_set().contains(a));
            assert(s.to_set().contains(a));
            let i = choose|i: int| 0 <= i < s.len() && s[i] == a;
            assert(out@[i].0 == a);
        }
    }
    out
}


proof fn lemma_sum_take(s: Seq<int>, f: spec_fn(int) -> int, j: int)
    requires
        0 <= j < s.len(),
    ensures
        sum_by(s.take(j + 1), f) == sum_by(s.take(j), f) + f(s[j]),
{
    assert(s.take(j + 1).drop_last() =~= s.take(j));
}

/// Folding the next quotient `u = q_p(c)` into the four running moments.
proof fn lemma_moment_terms(u: int, p: int)
    requires
        p > 0,
    ensures
        pow(u, 1) == u,
        pow(u, 2) == u * u,
        (((u * u) % p) * u) % p == pow(u, 3) % p,
        (((u * u) % p) * ((u * u) % p)) % p == pow(u, 4) % p,
{
    lemma_pow1(u);
    lemma_square_is_pow2(u);
    lemma_pow_adds(u, 2, 1);
    lemma_pow_adds(u, 2, 2);
    lemma_mul_mod_noop_left(u * u, u, p);
    lemma_mul_mod_noop_general(u * u, u * u, p);
}

/// The moments, the Lerch remainder and the exceptional conditions of `p`, by the
/// primitive-root recurrence. `trial_primes` must list, in increasing order, the primes
/// through `sqrt(p - 1)`.
pub fn recurrence_invariants(p: u64, trial_primes: &[u64], moments: MomentOptions) -> (r: Invariants)
    requires
        is_prime(p as int),
        p <= 4_000_000_000,
        p >= 3 ==> covers_primes(trial_primes@, p - 1),
    ensures
        r == prime_invariants(p as int, moments),
{
    if p == 2 {
        return Invariants {
            p,
            primitive_root: 1,
            q1: 0,
            q2: 0,
            q3: if moments.q3 { Some(0) } else { None },
            q4: if moments.q4 { Some(0) } else { None },
            lerch_remainder: None,
            generalized_k: None,
            is_lerch: false,
            is_gy_exceptional: true,
            is_wilson: false,
            q1_equals_2: false,
        };
    }
    let ghost pi = p as int;
    proof {
        lemma_primitive_root_exists(pi);
    }
    let g = primitive_root(p, trial_primes);
    let g_inverse = inverse_mod(g, p);
    proof {
        lemma_small_mod(g as nat, p as nat);
        lemma_quotient_defined(g as int, pi);
        lemma_start(g as int, pi);
        lemma_orbit_permutation(g as int, pi);
        lemma_square_bound(pi);
        lemma_quotient_decompose(g as int, pi);
    }
    let qg = fermat_quotient_mod_p(g, p);
    let ghost s = orbit(g as int, pi);
    let ghost f1 = quotient_power(pi, 1);
    let ghost f2 = quotient_power(pi, 2);
    let ghost f3 = quotient_power(pi, 3);
    let ghost f4 = quotient_power(pi, 4);
    let mut c: u64 = 1;
    let mut v: u64 = 1;
    let mut u: u64 = 0;
    let mut q1: u64 = 0;
    let mut q2: u64 = 0;
    let mut q3: u64 = 0;
    let mut q4: u64 = 0;
    let mut j: u64 = 0;
    proof {
        lemma_small_mod(0, p as nat);
    }
    while j < p - 1
        invariant
            pi == p as int,
            3 <= p <= 4_000_000_000,
            is_prime(pi),
            2 <= g < p,
            passes_root_test(g as int, pi),
            (g as int * g_inverse as int) % pi == 1,
            g_inverse < p,
            qg as int == fermat_quotient(g as int, pi),
            qg < p,
            s == orbit(g as int, pi),
            f1 == quotient_power(pi, 1),
            f2 == quotient_power(pi, 2),
            f3 == quotient_power(pi, 3),
            f4 == quotient_power(pi, 4),
            0 <= j <= p - 1,
            c < p,
            v < p,
            u < p,
            q1 < p,
            q2 < p,
            q3 < p,
            q4 < p,
            j < p - 1 ==> c as int == s[j as int],
            j < p - 1 ==> (c as int * v as int) % pi == 1,
            j < p - 1 ==> u as int == fermat_quotient(c as int, pi),
            q1 as int == sum_by(s.take(j as int), f1) % pi,
            q2 as int == sum_by(s.take(j as int), f2) % pi,
            moments.q3 ==> q3 as int == sum_by(s.take(j as int), f3) % pi,
            moments.q4 ==> q4 as int == sum_by(s.take(j as int), f4) % pi,
        decreases p - 1 - j,
    {
        proof {
            lemma_square_bound(pi);
            lemma_moment_terms(u as int, pi);
            lemma_sum_take(s, f1, j as int);
            lemma_sum_take(s, f2, j as int);
            lemma_sum_take(s, f3, j as int);
            lemma_sum_take(s, f4, j as int);
            assert(f1(s[j as int]) == pow(u as int, 1));
            assert(f2(s[j as int]) == pow(u as int, 2));
            assert(f3(s[j as int]) == pow(u as int, 3));
            assert(f4(s[j as int]) == pow(u as int, 4));
            lemma_accumulate(sum_by(s.take(j as int), f1), q1 as int, u as int, pow(u as int, 1), pi);
            lemma_accumulate(sum_by(s.take(j as int), f2), q2 as int, u as int * u as int, pow(u as int, 2), pi);
            assert((u as int) * (u as int) < pi * pi) by (nonlinear_arith)
                requires
                    u < p,
                    pi == p,
            ;
        }
        let ghost q1_before = q1 as int;
        q1 = q1 + u;
        if q1 >= p {
            q1 = q1 - p;
            proof {
                vstd::arithmetic::div_mod::lemma_mod_sub_multiples_vanish(q1_before + u as int, pi);
                lemma_small_mod(q1 as nat, p as nat);
            }
        } else {
            proof {
                lemma_small_mod(q1 as nat, p as nat);
            }
        }
        q2 = (q2 + u * u) % p;
        if moments.q3 || moments.q4 {
            let u2 = mul_mod(u, u, p);
            if moments.q3 {
                let t = mul_mod(u2, u, p);
                proof {
                    lemma_mod_twice(pow(u as int, 3), pi);
                    lemma_accumulate(sum_by(s.take(j as int), f3), q3 as int, t as int, pow(u as int, 3), pi);
                }
                q3 = (q3 + t) % p;
            }
            if moments.q4 {
                let t = mul_mod(u2, u2, p);
                proof {
                    lemma_mod_twice(pow(u as int, 4), pi);
                    lemma_accumulate(sum_by(s.take(j as int), f4), q4 as int, t as int, pow(u as int, 4), pi);
                }
                q4 = (q4 + t) % p;
            }
        }
        if j + 1 < p - 1 {
            proof {
                lemma_advance(g as int, pi, g_inverse as int, j as nat, c as int, v as int);
                assert((g as int) * (c as int) < pi * pi) by (nonlinear_arith)
                    requires
                        g < p,
                        c < p,
                        pi == p,
                ;
                assert((v as int) * (g_inverse as int) < pi * pi) by (nonlinear_arith)
                    requires
                        v < p,
                        g_inverse < p,
                        pi == p,
                ;
            }
            let product = g * c;
            let k = product / p;
            proof {
                lemma_fundamental_div_mod(product as int, pi);
                assert((k as int) * pi <= product as int) by (nonlinear_arith)
                    requires
                        product as int == pi * (k as int) + (product as int) % pi,
                        (product as int) % pi >= 0,
                ;
                assert((k as int) < pi) by (nonlinear_arith)
                    requires
                        (k as int) * pi <= product as int,
                        product as int == (g as int) * (c as int),
                        g < p,
                        c < p,
                        pi == p,
                ;
            }
            c = product - k * p;
            v = (v * g_inverse) % p;
            proof {
                assert((k as int) * (v as int) < pi * pi) by (nonlinear_arith)
                    requires
                        k < p,
                        v < p,
                        pi == p,
                ;
            }
            u = (u + qg + k * v) % p;
            proof {
                lemma_mod_bound(pow(g as int, (j + 1) as nat), pi);
            }
        }
        j = j + 1;
    }
    proof {
        assert(s.take(pi - 1) =~= s);
        lemma_sum_permutation(s, one_to(pi - 1), f1);
        lemma_sum_permutation(s, one_to(pi - 1), f2);
        lemma_sum_permutation(s, one_to(pi - 1), f3);
        lemma_sum_permutation(s, one_to(pi - 1), f4);
    }
    let square = mul_mod(q1, q1, p);
    let expression = (q2 + square + 2 * (p - q1)) % p;
    let inverse_two = (p + 1) / 2;
    let lerch_remainder = mul_mod(expression, inverse_two, p);
    let generalized_k = if q2 != 0 {
        let twice = 2 * lerch_remainder % p;
        let ratio = mul_mod(twice, inverse_mod(q2, p), p);
        Some(if ratio <= 1 { 1 - ratio } else { p + 1 - ratio })
    } else {
        None
    };
    Invariants {
        p,
        primitive_root: g,
        q1,
        q2,
        q3: if moments.q3 { Some(q3) } else { None },
        q4: if moments.q4 { Some(q4) } else { None },
        lerch_remainder: Some(lerch_remainder),
        generalized_k,
        is_lerch: expression == 0,
        is_gy_exceptional: q2 == 0,
        is_wilson: q1 == 0,
        q1_equals_2: q1 == 2,
    }
}


/// Lerch's congruence: for an odd prime `p`, the first moment equals the Wilson
/// quotient, `Q1 == W_p (mod p)`.
pub proof fn lemma_lerch_congruence(p: int)
    requires
        is_prime(p),
        p >= 3,
    ensures
        moment(p, 1) == wilson_quotient(p),
{
    let s = one_to(p - 1);
    assert forall|i: int| 0 <= i < s.len() implies #[trigger] s[i] % p != 0 by {
        lemma_small_mod((i + 1) as nat, p as nat);
    }
    lemma_quotient_of_product(s, p);
    lemma_quotient_of_factorial(p);
    let g = |a: int| fermat_quotient(a, p);
    assert(quotient_power(p, 1) =~= g) by {
        assert forall|a: int| #[trigger] quotient_power(p, 1)(a) == g(a) by {
            lemma_pow1(fermat_quotient(a, p));
        }
    }
}

} // verus!
