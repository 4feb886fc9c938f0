//! Modular arithmetic on machine words.
use crate::number_theory::{
    is_prime, lemma_euclid, lemma_fermat, lemma_pow_mod_step, lemma_small_prime_factor,
    lemma_divides_trans, passes_root_test, fermat_quotient, least_primitive_root, lemma_least_root_unique, has_primitive_root,
};
use vstd::arithmetic::div_mod::{
    lemma_fundamental_div_mod, lemma_mod_bound, lemma_mul_mod_noop_right, lemma_small_mod,
    lemma_mod_multiples_basic, lemma_mod_self_0,
};
use vstd::arithmetic::power::*;
use vstd::prelude::*;

verus! {

/// `(a * b) mod modulus`, computed through a 128-bit product.
pub fn mul_mod(a: u64, b: u64, modulus: u64) -> (r: u64)
    requires
        modulus > 0,
    ensures
        r == (a as int * b as int) % (modulus as int),
{
    assert(a as u128 * b as u128 <= 0xffff_ffff_ffff_ffffu128 * 0xffff_ffff_ffff_ffffu128)
        by (nonlinear_arith);
    let product: u128 = a as u128 * b as u128;
    let r: u128 = product % (modulus as u128);
    r as u64
}

/// `base^exponent mod modulus` by binary exponentiation.
pub fn pow_mod(base: u64, exponent: u64, modulus: u64) -> (r: u64)
    requires
        modulus > 0,
    ensures
        r == pow(base as int, exponent as nat) % (modulus as int),
{
    let ghost m = modulus as int;
    let ghost target = pow(base as int, exponent as nat) % m;
    let mut base = base;
    let mut exponent = exponent;
    let mut result: u64 = 1 % modulus;
    proof {
        lemma_pow0(base as int);
        vstd::arithmetic::div_mod::lemma_mod_twice(pow(base as int, exponent as nat), m);
        vstd::arithmetic::div_mod::lemma_mul_mod_noop_left(1, pow(base as int, exponent as nat), m);
    }
    while exponent != 0
        invariant
            m == modulus as int,
            m > 0,
            result < modulus,
            (result as int * pow(base as int, exponent as nat)) % m == target,
        decreases exponent,
    {
        let ghost r0 = result as int;
        let ghost b0 = base as int;
        let ghost e0 = exponent as nat;
        let odd = exponent & 1 != 0;
        assert((exponent & 1 != 0) == (exponent % 2 == 1)) by (bit_vector);
        if odd {
            result = mul_mod(result, base, modulus);
        }
        let next = exponent >> 1;
        assert(exponent >> 1 == exponent / 2) by (bit_vector);
        exponent = next;
        let new_base = mul_mod(base, base, modulus);
        proof {
            lemma_pow_mod_step(r0, b0, e0, m);
        }
        if exponent != 0 {
            base = new_base;
        } else {
            proof {
                lemma_pow0(b0);
                lemma_pow0((b0 * b0) % m);
            }
        }
    }
    proof {
        lemma_pow0(base as int);
        vstd::arithmetic::div_mod::lemma_small_mod(result as nat, modulus as nat);
    }
    result
}


/// The modular inverse of `a` modulo `prime`, as `a^(prime-2) mod prime`.
pub fn inverse_mod(a: u64, prime: u64) -> (r: u64)
    requires
        0 < a < prime,
    ensures
        r == pow(a as int, (prime - 2) as nat) % (prime as int),
        is_prime(prime as int) ==> (a as int * r as int) % (prime as int) == 1,
{
    let r = pow_mod(a, prime - 2, prime);
    proof {
        if is_prime(prime as int) {
            let p = prime as int;
            lemma_small_mod(a as nat, prime as nat);
            lemma_fermat(a as int, p);
            vstd::arithmetic::power::lemma_pow_adds(a as int, 1, (prime - 2) as nat);
            vstd::arithmetic::power::lemma_pow1(a as int);
            lemma_mul_mod_noop_right(a as int, pow(a as int, (prime - 2) as nat), p);
        }
    }
    r
}

/// The Fermat quotient `(a^(p-1) - 1)/p` reduced modulo `p`, computed from `a^(p-1) mod p^2`.
pub fn fermat_quotient_mod_p(a: u64, p: u64) -> (r: u64)
    requires
        p >= 1,
        p as int * p as int <= u64::MAX,
        pow(a as int, (p - 1) as nat) % (p as int * p as int) != 0,
    ensures
        r == fermat_quotient(a as int, p as int),
        r < p,
{
    assert(p as int * p as int >= 1) by (nonlinear_arith)
        requires
            p >= 1,
    ;
    let p2 = p * p;
    let power = pow_mod(a, p - 1, p2);
    proof {
        let x = power as int - 1;
        let d = x / (p as int);
        lemma_fundamental_div_mod(x, p as int);
        lemma_mod_bound(x, p as int);
        assert(d < p) by (nonlinear_arith)
            requires
                x == (p as int) * d + x % (p as int),
                x % (p as int) >= 0,
                x == power as int - 1,
                (power as int) < (p as int) * (p as int),
                p >= 1,
        ;
    }
    (power - 1) / p
}

/// `s` is a strictly increasing list of primes.
pub open spec fn sorted_primes(s: Seq<u64>) -> bool {
    &&& forall|i: int| 0 <= i < s.len() ==> is_prime(#[trigger] s[i] as int)
    &&& forall|i: int, j: int| 0 <= i < j < s.len() ==> #[trigger] s[i] < #[trigger] s[j]
}

/// `s` is a strictly increasing list of primes holding every prime `q` with `q*q <= bound`.
pub open spec fn covers_primes(s: Seq<u64>, bound: int) -> bool {
    &&& sorted_primes(s)
    &&& forall|q: u64| #![trigger is_prime(q as int)] is_prime(q as int) && q * q <= bound ==> s.contains(q)
}

proof fn lemma_prime_divides_prime(x: int, m: int)
    requires
        is_prime(x),
        is_prime(m),
        m % x == 0,
    ensures
        x == m,
{
    if x != m {
        assert(x <= m) by {
            if x > m {
                lemma_small_mod(m as nat, x as nat);
            }
        }
        assert(m % x != 0);
    }
}

/// Distinct prime divisors of `n`, in increasing order. `trial_primes` must list,
/// in increasing order, the primes through `sqrt(n)`.
pub fn distinct_prime_factors(n: u64, trial_primes: &[u64]) -> (factors: Vec<u64>)
    requires
        covers_primes(trial_primes@, n as int),
    ensures
        forall|x: u64|
            #![trigger is_prime(x as int)]
            factors@.contains(x) <==> n >= 1 && is_prime(x as int) && n % x == 0,
        forall|i: int, j: int| 0 <= i < j < factors@.len() ==> factors@[i] < factors@[j],
        forall|i: int| 0 <= i < factors@.len() ==> is_prime(#[trigger] factors@[i] as int),
{
    let ghost t = trial_primes@;
    let mut factors: Vec<u64> = Vec::new();
    let mut m = n;
    let mut i: usize = 0;
    let mut stopped = false;
    while i < trial_primes.len() && !stopped
        invariant
            t == trial_primes@,
            covers_primes(t, n as int),
            0 <= i <= t.len(),
            n == 0 ==> m == 0 && factors@.len() == 0,
            n >= 1 ==> m >= 1 && n % m == 0 && m <= n,
            forall|k: int| 0 <= k < i ==> m % (#[trigger] t[k]) != 0 || m == 0,
            forall|a: int|
                0 <= a < factors@.len() ==> {
                    &&& is_prime(#[trigger] factors@[a] as int)
                    &&& n % factors@[a] == 0
                    &&& (factors@[a] as int) * (factors@[a] as int) <= n
                    &&& (m % factors@[a] != 0 || m == 0)
                },
            forall|a: int, b: int| 0 <= a < b < factors@.len() ==> #[trigger] factors@[a] < #[trigger] factors@[b],
            forall|a: int| 0 <= a < factors@.len() && i < t.len() ==> #[trigger] factors@[a] < t[i as int],
            forall|x: u64|
                #![trigger is_prime(x as int)]
                is_prime(x as int) && n % x == 0 && n >= 1 ==> factors@.contains(x) || m % x == 0,
            stopped ==> i < t.len() && (m as int) < (t[i as int] as int) * (t[i as int] as int),
        decreases t.len() - i, if stopped { 0int } else { 1int },
    {
        let q = trial_primes[i];
        proof {
            assert(is_prime(q as int));
        }
        if q > m / q {
            proof {
                lemma_fundamental_div_mod(m as int, q as int);
                lemma_mod_bound(m as int, q as int);
                assert((m as int) < (q as int) * (q as int)) by (nonlinear_arith)
                    requires
                        m as int == (q as int) * ((m / q) as int) + (m as int) % (q as int),
                        (m as int) % (q as int) < q,
                        (m / q) as int + 1 <= q,
                ;
            }
            stopped = true;
        } else {
            if m % q == 0 {
                let ghost before = factors@;
                proof {
                    lemma_fundamental_div_mod(m as int, q as int);
                    assert((q as int) * (q as int) <= m) by (nonlinear_arith)
                        requires
                            m as int == (q as int) * ((m / q) as int) + (m as int) % (q as int),
                            (m as int) % (q as int) == 0,
                            q as int <= (m / q) as int,
                            q >= 2,
                    ;
                    lemma_divides_trans(q as int, m as int, n as int);
                }
                factors.push(q);
                proof {
                    assert forall|x: u64|
                        #![trigger is_prime(x as int)]
                        is_prime(x as int) && n % x == 0 implies factors@.contains(x) || m % x == 0 by {
                        if before.contains(x) {
                            let a = choose|a: int| 0 <= a < before.len() && before[a] == x;
                            assert(factors@[a] == x);
                        }
                    }
                    assert forall|a: int, b: int| 0 <= a < b < factors@.len() implies #[trigger] factors@[a] < #[trigger] factors@[b] by {
                        if b == before.len() {
                            assert(before[a] < t[i as int]);
                        } else {
                            assert(before[a] < before[b]);
                        }
                    }
                }
                while m % q == 0
                    invariant
                        t == trial_primes@,
                        covers_primes(t, n as int),
                        0 <= i < t.len(),
                        q == t[i as int],
                        is_prime(q as int),
                        n >= 1,
                        m >= 1,
                        n % m == 0,
                        m <= n,
                        n % q == 0,
                        (q as int) * (q as int) <= n,
                        factors@ == before.push(q),
                        forall|a: int|
                            0 <= a < before.len() ==> {
                                &&& is_prime(#[trigger] before[a] as int)
                                &&& n % before[a] == 0
                                &&& (before[a] as int) * (before[a] as int) <= n
                                &&& m % before[a] != 0
                            },
                        forall|a: int, b: int| 0 <= a < b < factors@.len() ==> #[trigger] factors@[a] < #[trigger] factors@[b],
                        forall|a: int| 0 <= a < before.len() ==> #[trigger] before[a] < q,
                        forall|k: int| 0 <= k < i ==> m % (#[trigger] t[k]) != 0,
                        forall|x: u64|
                            #![trigger is_prime(x as int)]
                            is_prime(x as int) && n % x == 0 ==> factors@.contains(x) || m % x == 0,
                    decreases m,
                {
                    let ghost m0 = m as int;
                    let ghost qi = q as int;
                    proof {
                        lemma_fundamental_div_mod(m0, qi);
                    }
                    m = m / q;
                    proof {
                        let mi = m as int;
                        assert(m0 == qi * mi);
                        assert(mi >= 1) by (nonlinear_arith)
                            requires
                                m0 == qi * mi,
                                m0 >= 1,
                                qi >= 2,
                        ;
                        assert(mi < m0) by (nonlinear_arith)
                            requires
                                m0 == qi * mi,
                                mi >= 1,
                                qi >= 2,
                        ;
                        lemma_mod_multiples_basic(qi, mi);
                        assert(m0 % mi == 0) by {
                            assert(qi * mi == mi * qi) by (nonlinear_arith);
                        }
                        lemma_divides_trans(mi, m0, n as int);
                        assert forall|k: int| 0 <= k < i implies m % (#[trigger] t[k]) != 0 by {
                            let tk = t[k] as int;
                            assert(is_prime(tk));
                            if mi % tk == 0 {
                                lemma_divides_trans(tk, mi, m0);
                            }
                        }
                        assert forall|a: int| 0 <= a < before.len() implies m % (#[trigger] before[a]) != 0 by {
                            let f = before[a] as int;
                            assert(is_prime(f));
                            if mi % f == 0 {
                                lemma_divides_trans(f, mi, m0);
                            }
                        }
                        assert forall|x: u64|
                            #![trigger is_prime(x as int)]
                            is_prime(x as int) && n % x == 0 implies factors@.contains(x) || m % x == 0 by {
                            let xi = x as int;
                            if !factors@.contains(x) {
                                assert(m0 % xi == 0);
                                assert(xi != qi) by {
                                    if xi == qi {
                                        assert(factors@[factors@.len() - 1] == q);
                                    }
                                }
                                assert((qi * mi) % xi == 0);
                                lemma_euclid(qi, mi, xi);
                                if qi % xi == 0 {
                                    lemma_prime_divides_prime(xi, qi);
                                }
                            }
                        }
                    }
                }
                proof {
                    assert forall|a: int| 0 <= a < factors@.len() implies {
                        &&& is_prime(#[trigger] factors@[a] as int)
                        &&& n % factors@[a] == 0
                        &&& (factors@[a] as int) * (factors@[a] as int) <= n
                        &&& (m % factors@[a] != 0 || m == 0)
                    } by {
                        if a < before.len() {
                            assert(factors@[a] == before[a]);
                        } else {
                            assert(factors@[a] == q);
                        }
                    }
                }
            }
            i = i + 1;
            proof {
                assert forall|a: int| 0 <= a < factors@.len() && i < t.len() implies #[trigger] factors@[a] < t[i as int] by {
                    if a == factors@.len() - 1 && factors@[a] == q {
                        assert(t[i - 1] < t[i as int]);
                    } else {
                        assert(factors@[a] < t[i - 1]);
                        assert(t[i - 1] < t[i as int]);
                    }
                }
            }
        }
    }
    proof {
        // After the scan, the cofactor is 1 or a prime.
        if m >= 2 && !is_prime(m as int) {
            let x = lemma_small_prime_factor(m as int);
            assert(x <= m) by (nonlinear_arith)
                requires
                    x * x <= m as int,
                    x >= 2,
            ;
            let xu = x as u64;
            assert(is_prime(xu as int));
            assert(t.contains(xu));
            let k = choose|k: int| 0 <= k < t.len() && t[k] == xu;
            if stopped {
                assert(x < t[i as int]) by (nonlinear_arith)
                    requires
                        x * x <= m as int,
                        (m as int) < (t[i as int] as int) * (t[i as int] as int),
                        x >= 2,
                ;
                if k >= i {
                    if k > i {
                        assert(t[i as int] < t[k]);
                    }
                }
                assert(k < i);
            }
            assert(m % t[k] != 0);
        }
    }
    let ghost before = factors@;
    if m > 1 {
        proof {
            assert forall|a: int| 0 <= a < before.len() implies #[trigger] before[a] < m by {
                let f = before[a];
                assert(m % f != 0);
                lemma_mod_self_0(m as int);
                if m < f {
                    assert((m as int) * (m as int) <= n) by (nonlinear_arith)
                        requires
                            m < f,
                            (f as int) * (f as int) <= n,
                            m >= 2,
                    ;
                    assert(is_prime(m as int));
                    assert(t.contains(m));
                    let k2 = choose|k2: int| 0 <= k2 < t.len() && t[k2] == m;
                    if i < t.len() {
                        assert(f < t[i as int]);
                        if k2 >= i {
                            if k2 > i {
                                assert(t[i as int] < t[k2]);
                            }
                        }
                    }
                    assert(k2 < i);
                    assert(m % t[k2] != 0);
                }
            }
        }
        factors.push(m);
    }
    proof {
        let r = factors@;
        assert forall|a: int, b: int| 0 <= a < b < r.len() implies #[trigger] r[a] < #[trigger] r[b] by {
            if b == before.len() {
                assert(before[a] < m);
            } else {
                assert(before[a] < before[b]);
            }
        }
        assert forall|a: int| 0 <= a < r.len() implies is_prime(#[trigger] r[a] as int) by {
            if a < before.len() {
                assert(r[a] == before[a]);
            } else {
                assert(r[a] == m);
            }
        }
        assert forall|x: u64|
            #![trigger is_prime(x as int)]
            r.contains(x) <==> n >= 1 && is_prime(x as int) && n % x == 0 by {
            if r.contains(x) {
                let a = choose|a: int| 0 <= a < r.len() && r[a] == x;
                if a < before.len() {
                    assert(r[a] == before[a]);
                    assert(n >= 1) by {
                        if n == 0 {
                            assert(before.len() == 0);
                        }
                    }
                } else {
                    assert(x == m);
                }
            }
            if n >= 1 && is_prime(x as int) && n % x == 0 {
                if !before.contains(x) {
                    assert(m % x == 0);
                    if m < 2 {
                        assert(m == 1);
                        lemma_small_mod(1, x as nat);
                    }
                    lemma_prime_divides_prime(x as int, m as int);
                    assert(r[before.len() as int] == m);
                } else {
                    let a = choose|a: int| 0 <= a < before.len() && before[a] == x;
                    assert(r[a] == x);
                }
            }
        }
    }
    factors
}

/// The least `g >= 2` passing the primitive-root test modulo `p`. `trial_primes`
/// must list, in increasing order, the primes through `sqrt(p - 1)`.
pub fn primitive_root(p: u64, trial_primes: &[u64]) -> (g: u64)
    requires
        p >= 3,
        covers_primes(trial_primes@, p - 1),
        has_primitive_root(p as int),
    ensures
        2 <= g < p,
        passes_root_test(g as int, p as int),
        forall|h: int| 2 <= h < g ==> !passes_root_test(h, p as int),
        g == least_primitive_root(p as int),
{
    let factors = distinct_prime_factors(p - 1, trial_primes);
    let mut g: u64 = 2;
    while g < p
        invariant
            p >= 3,
            2 <= g <= p,
            forall|h: int| 2 <= h < g ==> !passes_root_test(h, p as int),
            forall|x: u64|
                #![trigger is_prime(x as int)]
                factors@.contains(x) <==> p as int - 1 >= 1 && is_prime(x as int) && (p as int - 1) % (x as int) == 0,
            forall|i: int| 0 <= i < factors@.len() ==> is_prime(#[trigger] factors@[i] as int),
        decreases p - g,
    {
        let mut j: usize = 0;
        let mut ok = true;
        while j < factors.len() && ok
            invariant
                p >= 3,
                2 <= g < p,
                0 <= j <= factors@.len(),
                forall|x: u64|
                    #![trigger is_prime(x as int)]
                    factors@.contains(x) <==> p as int - 1 >= 1 && is_prime(x as int) && (p as int - 1) % (x as int) == 0,
                forall|i: int| 0 <= i < factors@.len() ==> is_prime(#[trigger] factors@[i] as int),
                ok ==> forall|a: int|
                    0 <= a < j ==> pow(g as int, ((p as int - 1) / (#[trigger] factors@[a] as int)) as nat) % (p as int) != 1,
                !ok ==> !passes_root_test(g as int, p as int),
            decreases factors@.len() - j, if ok { 1int } else { 0int },
        {
            let q = factors[j];
            proof {
                assert(is_prime(q as int));
                assert(factors@.contains(q));
            }
            let e = (p - 1) / q;
            if pow_mod(g, e, p) == 1 {
                ok = false;
                proof {
                    let qi = q as int;
                    assert(is_prime(qi));
                    assert((p as int - 1) % qi == 0);
                    assert(((p as int - 1) / qi) as nat == e as nat);
                }
            } else {
                j = j + 1;
            }
        }
        if ok {
            proof {
                assert forall|q: int|
                    #![trigger is_prime(q), (p as int - 1) % q]
                    is_prime(q) && (p as int - 1) % q == 0 implies pow(g as int, ((p as int - 1) / q) as nat) % (p as int) != 1 by {
                    assert(q <= p - 1) by {
                        if q > p - 1 {
                            lemma_small_mod((p - 1) as nat, q as nat);
                        }
                    }
                    let qu = q as u64;
                    assert(is_prime(qu as int));
                    assert(factors@.contains(qu));
                    let a = choose|a: int| 0 <= a < factors@.len() && factors@[a] == qu;
                    assert(((p as int - 1) / (factors@[a] as int)) as nat == ((p as int - 1) / q) as nat);
                }
            }
            proof {
                lemma_least_root_unique(g as int, p as int);
            }
            return g;
        }
        g = g + 1;
    }
    proof {
        let h = choose|h: int| 2 <= h < p && passes_root_test(h, p as int);
        assert(!passes_root_test(h, p as int));
    }
    p
}

} // verus!
