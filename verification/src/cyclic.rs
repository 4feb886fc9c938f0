//! The non-zero residues modulo a prime form a cyclic group: every prime has a
//! primitive root.
use crate::number_theory::{
    has_primitive_root, passes_root_test, is_prime, lemma_divides_trans, lemma_euclid, lemma_fermat, lemma_pow_nonzero,
    lemma_pow_of_one, lemma_prime_factor, one_to,
};
use vstd::arithmetic::div_mod::{
    lemma_div_multiples_vanish, lemma_fundamental_div_mod, lemma_mod_bound,
    lemma_mod_equivalence, lemma_mod_multiples_basic, lemma_mod_multiples_vanish,
    lemma_mul_mod_noop_general, lemma_mul_mod_noop_left, lemma_small_mod, lemma_sub_mod_noop,
};
use vstd::arithmetic::power::{
    lemma1_pow, lemma_pow0, lemma_pow1, lemma_pow_adds, lemma_pow_distributes, lemma_pow_mod_noop,
    lemma_pow_multiplies, lemma_pow_positive, pow,
};
use vstd::prelude::*;

verus! {

/// The value at `x` of the polynomial with coefficients `c`, constant term first.
pub open spec fn eval(c: Seq<int>, x: int) -> int
    decreases c.len(),
{
    if c.len() == 0 {
        0
    } else {
        c[0] + x * eval(c.drop_first(), x)
    }
}

/// The quotient of the polynomial `c` by `x - a`.
pub open spec fn divide_linear(c: Seq<int>, a: int) -> Seq<int>
    decreases c.len(),
{
    if c.len() <= 1 {
        Seq::empty()
    } else {
        seq![eval(c.drop_first(), a)] + divide_linear(c.drop_first(), a)
    }
}

/// Division by `x - a`: `c(x) == (x - a) q(x) + c(a)`, with `q` one degree lower and the
/// same leading coefficient.
proof fn lemma_divide_linear(c: Seq<int>, a: int, x: int)
    requires
        c.len() >= 1,
    ensures
        divide_linear(c, a).len() == c.len() - 1,
        eval(c, x) == (x - a) * eval(divide_linear(c, a), x) + eval(c, a),
        c.len() >= 2 ==> divide_linear(c, a).last() == c.last(),
    decreases c.len(),
{
    let t = c.drop_first();
    if c.len() == 1 {
        assert(eval(t, x) == 0);
        assert(eval(t, a) == 0);
        assert(x * 0 == 0 && a * 0 == 0 && (x - a) * 0 == 0) by (nonlinear_arith);
    } else {
        lemma_divide_linear(t, a, x);
        let q = divide_linear(c, a);
        let q0 = divide_linear(t, a);
        let e = eval(q0, x);
        let ta = eval(t, a);
        assert(q.drop_first() =~= q0);
        assert(q[0] == ta);
        assert(eval(q, x) == ta + x * e);
        assert(eval(t, x) == (x - a) * e + ta);
        assert(x * ((x - a) * e + ta) == (x - a) * (ta + x * e) + a * ta - ta * 0) by (nonlinear_arith);
        assert(eval(c, a) == c[0] + a * ta);
        if t.len() >= 2 {
            assert(q.last() == q0.last());
        } else {
            assert(q0.len() == 0);
            assert(q.len() == 1);
            assert(eval(t.drop_first(), a) == 0);
            assert(a * 0 == 0) by (nonlinear_arith);
            assert(ta == t[0]);
        }
    }
}

/// A polynomial whose leading coefficient is non-zero modulo the prime `p` has at most
/// its degree many distinct roots modulo `p`.
proof fn lemma_root_bound(c: Seq<int>, roots: Seq<int>, p: int)
    requires
        is_prime(p),
        c.len() >= 1,
        c.last() % p != 0,
        roots.no_duplicates(),
        forall|i: int| 0 <= i < roots.len() ==> 0 <= #[trigger] roots[i] < p,
        forall|i: int| 0 <= i < roots.len() ==> #[trigger] eval(c, roots[i]) % p == 0,
    ensures
        roots.len() <= c.len() - 1,
    decreases c.len(),
{
    if roots.len() > 0 {
        let a = roots[0];
        if c.len() == 1 {
            assert(eval(c.drop_first(), a) == 0);
            assert(a * 0 == 0) by (nonlinear_arith);
            assert(eval(c, a) == c[0]);
            assert(false);
        }
        let q = divide_linear(c, a);
        lemma_divide_linear(c, a, a);
        let rest = roots.drop_first();
        assert forall|i: int| 0 <= i < rest.len() implies #[trigger] eval(q, rest[i]) % p == 0 by {
            let r = rest[i];
            assert(r == roots[i + 1]);
            assert(r != a);
            lemma_divide_linear(c, a, r);
            let v = eval(q, r);
            // (r - a) * v == eval(c, r) - eval(c, a) == 0 modulo p
            lemma_sub_mod_noop(eval(c, r), eval(c, a), p);
            lemma_small_mod(0, p as nat);
            assert(((r - a) * v) % p == 0);
            lemma_euclid(r - a, v, p);
            if (r - a) % p == 0 {
                if r > a {
                    lemma_small_mod((r - a) as nat, p as nat);
                } else {
                    lemma_mod_multiples_vanish(1, r - a, p);
                    lemma_small_mod((p + r - a) as nat, p as nat);
                }
            }
        }
        assert forall|i: int| 0 <= i < rest.len() implies 0 <= #[trigger] rest[i] < p by {
            assert(rest[i] == roots[i + 1]);
        }
        assert(rest.no_duplicates()) by {
            assert forall|i: int, j: int| 0 <= i < rest.len() && 0 <= j < rest.len() && i != j implies rest[i] != rest[j] by {
                assert(rest[i] == roots[i + 1] && rest[j] == roots[j + 1]);
            }
        }
        lemma_root_bound(q, rest, p);
    }
}

/// `0, ..., 0, 1` with `k` zeros: the monomial `x^k`.
pub open spec fn monomial(k: nat) -> Seq<int> {
    Seq::new(k, |i: int| 0int).push(1)
}

proof fn lemma_monomial(k: nat, x: int)
    ensures
        eval(monomial(k), x) == pow(x, k),
    decreases k,
{
    if k == 0 {
        lemma_pow0(x);
        assert(monomial(0).drop_first().len() == 0);
        assert(eval(monomial(0).drop_first(), x) == 0);
        assert(monomial(0)[0] == 1);
        assert(x * 0 == 0) by (nonlinear_arith);
    } else {
        lemma_monomial((k - 1) as nat, x);
        assert(monomial(k).drop_first() =~= monomial((k - 1) as nat));
        assert(monomial(k)[0] == 0);
        lemma_pow_adds(x, 1, (k - 1) as nat);
        lemma_pow1(x);
        assert(eval(monomial(k), x) == 0 + x * pow(x, (k - 1) as nat));
    }
}

/// Not every non-zero residue modulo `p` is a root of `x^m - 1` when `m < p - 1`.
pub proof fn lemma_non_root(p: int, m: nat) -> (x: int)
    requires
        is_prime(p),
        1 <= m < p - 1,
    ensures
        1 <= x < p,
        pow(x, m) % p != 1,
{
    if exists|x: int| 1 <= x < p && #[trigger] pow(x, m) % p != 1 {
        choose|x: int| 1 <= x < p && #[trigger] pow(x, m) % p != 1
    } else {
        let c = seq![-1int] + monomial((m - 1) as nat);
        assert(c.drop_first() =~= monomial((m - 1) as nat));
        let roots = one_to(p - 1);
        assert forall|i: int| 0 <= i < roots.len() implies #[trigger] eval(c, roots[i]) % p == 0 by {
            let x = roots[i];
            lemma_monomial((m - 1) as nat, x);
            lemma_pow_adds(x, 1, (m - 1) as nat);
            lemma_pow1(x);
            assert(pow(x, m) % p == 1);
            assert(eval(c, x) == pow(x, m) - 1);
            lemma_small_mod(1, p as nat);
            lemma_mod_equivalence(pow(x, m), 1, p);
        }
        assert(roots.no_duplicates());
        assert(c.last() == 1);
        lemma_small_mod(1, p as nat);
        lemma_root_bound(c, roots, p);
        0
    }
}

/// `a` has exact order `m` modulo `p`: `a^m == 1`, and `a^(m/q) != 1` for every prime
/// `q` dividing `m`.
pub open spec fn exact_order(a: int, m: int, p: int) -> bool {
    &&& m >= 1
    &&& pow(a, m as nat) % p == 1
    &&& forall|q: int|
        #![trigger is_prime(q), m % q]
        is_prime(q) && m % q == 0 ==> pow(a, (m / q) as nat) % p != 1
}

/// If `a^m == 1` and `a^j == 1` for some `0 < j < m`, then `a^(m/q) == 1` for a prime
/// `q` dividing `m`.
proof fn lemma_smaller_period(a: int, m: int, p: int, j: int) -> (q: int)
    requires
        p >= 2,
        m >= 1,
        pow(a, m as nat) % p == 1,
        0 < j < m,
        pow(a, j as nat) % p == 1,
    ensures
        is_prime(q),
        m % q == 0,
        pow(a, (m / q) as nat) % p == 1,
    decreases j,
{
    let k = m / j;
    let r = m % j;
    lemma_fundamental_div_mod(m, j);
    lemma_mod_bound(m, j);
    assert(k >= 0) by (nonlinear_arith)
        requires
            m == j * k + r,
            0 <= r < j,
            m > 0,
    ;
    lemma_pow_multiplies(a, j as nat, k as nat);
    lemma_pow_adds(a, (j * k) as nat, r as nat);
    let aj = pow(a, j as nat);
    lemma_pow_of_one(aj, k as nat, p);
    let u = pow(aj, k as nat);
    let v = pow(a, r as nat);
    assert(pow(a, m as nat) == u * v);
    lemma_mul_mod_noop_left(u, v, p);
    assert(1 * v == v);
    if r > 0 {
        lemma_smaller_period(a, m, p, r)
    } else {
        assert(m == j * k);
        assert(k >= 2) by (nonlinear_arith)
            requires
                m == j * k,
                0 < j < m,
        ;
        let q = lemma_prime_factor(k);
        lemma_fundamental_div_mod(k, q);
        let t = k / q;
        assert(k == q * t);
        assert(m == (j * t) * q) by (nonlinear_arith)
            requires
                m == j * k,
                k == q * t,
        ;
        lemma_mod_multiples_basic(j * t, q);
        lemma_div_multiples_vanish(j * t, q);
        assert(m / q == j * t) by {
            assert(q * (j * t) == m) by (nonlinear_arith)
                requires
                    m == (j * t) * q,
            ;
        }
        assert(t >= 0) by (nonlinear_arith)
            requires
                k == q * t,
                k >= 2,
                q >= 2,
        ;
        lemma_pow_multiplies(a, j as nat, t as nat);
        lemma_pow_of_one(aj, t as nat, p);
        q
    }
}

/// A power of an element of exact order `m` is 1 exactly at multiples of `m`.
proof fn lemma_order_divides(a: int, m: int, p: int, k: int)
    requires
        p >= 2,
        exact_order(a, m, p),
        k >= 0,
    ensures
        pow(a, k as nat) % p == 1 <==> k % m == 0,
{
    lemma_fundamental_div_mod(k, m);
    lemma_mod_bound(k, m);
    let t = k / m;
    let r = k % m;
    assert(t >= 0) by (nonlinear_arith)
        requires
            k == m * t + r,
            0 <= r < m,
            k >= 0,
    ;
    lemma_pow_multiplies(a, m as nat, t as nat);
    lemma_pow_adds(a, (m * t) as nat, r as nat);
    let am = pow(a, m as nat);
    lemma_pow_of_one(am, t as nat, p);
    let u = pow(am, t as nat);
    let v = pow(a, r as nat);
    assert(pow(a, k as nat) == u * v);
    lemma_mul_mod_noop_left(u, v, p);
    assert(1 * v == v);
    if r == 0 {
        lemma_pow0(a);
        lemma_small_mod(1, p as nat);
    } else if pow(a, k as nat) % p == 1 {
        let q = lemma_smaller_period(a, m, p, r);
        assert(is_prime(q) && m % q == 0);
    }
}

/// Elements of exact orders `r` and `s` with no common prime factor multiply to an
/// element of exact order `r s`.
proof fn lemma_order_product(a: int, b: int, r: int, s: int, p: int)
    requires
        p >= 2,
        exact_order(a, r, p),
        exact_order(b, s, p),
        forall|q: int| #![trigger is_prime(q), r % q, s % q] is_prime(q) ==> !(r % q == 0 && s % q == 0),
    ensures
        exact_order(a * b, r * s, p),
{
    let n = r * s;
    assert(n >= 1) by (nonlinear_arith)
        requires
            r >= 1,
            s >= 1,
            n == r * s,
    ;
    lemma_pow_distributes(a, b, n as nat);
    lemma_mod_multiples_basic(s, r);
    assert(n % r == 0) by {
        assert(n == s * r) by (nonlinear_arith)
            requires
                n == r * s,
        ;
    }
    lemma_mod_multiples_basic(r, s);
    lemma_order_divides(a, r, p, n);
    lemma_order_divides(b, s, p, n);
    lemma_mul_mod_noop_general(pow(a, n as nat), pow(b, n as nat), p);
    lemma_small_mod(1, p as nat);
    assert forall|q: int| #![trigger is_prime(q), n % q] is_prime(q) && n % q == 0 implies pow(a * b, (n / q) as nat) % p != 1 by {
        lemma_euclid(r, s, q);
        if r % q == 0 {
            lemma_fundamental_div_mod(r, q);
            let t = r / q;
            assert(r == q * t);
            assert(t >= 1) by (nonlinear_arith)
                requires
                    r == q * t,
                    r >= 1,
                    q >= 2,
            ;
            let e = t * s;
            assert(n == q * e) by (nonlinear_arith)
                requires
                    n == r * s,
                    r == q * t,
                    e == t * s,
            ;
            lemma_div_multiples_vanish(e, q);
            assert(e >= 1) by (nonlinear_arith)
                requires
                    t >= 1,
                    s >= 1,
                    e == t * s,
            ;
            lemma_pow_distributes(a, b, e as nat);
            lemma_mod_multiples_basic(t, s);
            assert(e % s == 0) by {
                assert(e == t * s);
            }
            lemma_order_divides(b, s, p, e);
            lemma_mul_mod_noop_general(pow(a, e as nat), pow(b, e as nat), p);
            lemma_mul_mod_noop_general(pow(a, e as nat), 1, p);
            assert(pow(a, e as nat) * 1 == pow(a, e as nat));
            if pow(a * b, (n / q) as nat) % p == 1 {
                lemma_order_divides(a, r, p, e);
                lemma_fundamental_div_mod(e, r);
                let w = e / r;
                assert(t * s == t * (q * w)) by (nonlinear_arith)
                    requires
                        e == r * w + 0,
                        e == t * s,
                        r == q * t,
                ;
                assert(s == q * w) by (nonlinear_arith)
                    requires
                        t * s == t * (q * w),
                        t >= 1,
                ;
                lemma_mod_multiples_basic(w, q);
                assert(s % q == 0) by {
                    assert(s == w * q) by (nonlinear_arith)
                        requires
                            s == q * w,
                    ;
                }
            }
        } else {
            lemma_fundamental_div_mod(s, q);
            let t = s / q;
            assert(s == q * t);
            assert(t >= 1) by (nonlinear_arith)
                requires
                    s == q * t,
                    s >= 1,
                    q >= 2,
            ;
            let e = r * t;
            assert(n == q * e) by (nonlinear_arith)
                requires
                    n == r * s,
                    s == q * t,
                    e == r * t,
            ;
            lemma_div_multiples_vanish(e, q);
            assert(e >= 1) by (nonlinear_arith)
                requires
                    t >= 1,
                    r >= 1,
                    e == r * t,
            ;
            lemma_pow_distributes(a, b, e as nat);
            lemma_mod_multiples_basic(t, r);
            assert(e % r == 0) by {
                assert(e == t * r) by (nonlinear_arith)
                    requires
                        e == r * t,
                ;
            }
            lemma_order_divides(a, r, p, e);
            lemma_mul_mod_noop_general(pow(a, e as nat), pow(b, e as nat), p);
            lemma_mul_mod_noop_general(1, pow(b, e as nat), p);
            assert(1 * pow(b, e as nat) == pow(b, e as nat));
            if pow(a * b, (n / q) as nat) % p == 1 {
                lemma_order_divides(b, s, p, e);
                lemma_fundamental_div_mod(e, s);
                let w = e / s;
                assert(r * t == t * (q * w)) by (nonlinear_arith)
                    requires
                        e == s * w + 0,
                        e == r * t,
                        s == q * t,
                ;
                assert(r == q * w) by (nonlinear_arith)
                    requires
                        r * t == t * (q * w),
                        t >= 1,
                ;
                lemma_mod_multiples_basic(w, q);
                assert(r % q == 0) by {
                    assert(r == w * q) by (nonlinear_arith)
                        requires
                            r == q * w,
                    ;
                }
            }
        }
    }
}

/// `d == q^e d'` with `q` not dividing `d'`.
proof fn lemma_split_prime_power(d: int, q: int) -> (r: (nat, int))
    requires
        d >= 1,
        is_prime(q),
    ensures
        d == pow(q, r.0) * r.1,
        r.1 >= 1,
        r.1 % q != 0,
        d % q == 0 ==> r.0 >= 1,
    decreases d,
{
    if d % q != 0 {
        lemma_pow0(q);
        (0, d)
    } else {
        lemma_fundamental_div_mod(d, q);
        let h = d / q;
        assert(d == q * h);
        assert(1 <= h < d) by (nonlinear_arith)
            requires
                d == q * h,
                d >= 1,
                q >= 2,
        ;
        let (e, rest) = lemma_split_prime_power(h, q);
        lemma_pow_adds(q, 1, e);
        lemma_pow1(q);
        assert(d == pow(q, e + 1) * rest) by (nonlinear_arith)
            requires
                d == q * h,
                h == pow(q, e) * rest,
                pow(q, 1 + e) == q * pow(q, e),
        ;
        (e + 1, rest)
    }
}

/// The only prime dividing a power of the prime `q` is `q`.
proof fn lemma_prime_power_divisor(q: int, e: nat, r: int)
    requires
        is_prime(q),
        is_prime(r),
        pow(q, e) % r == 0,
    ensures
        r == q,
    decreases e,
{
    if e == 0 {
        lemma_pow0(q);
        lemma_small_mod(1, r as nat);
    } else {
        lemma_pow_adds(q, (e - 1) as nat, 1);
        lemma_pow1(q);
        lemma_euclid(pow(q, (e - 1) as nat), q, r);
        if pow(q, (e - 1) as nat) % r == 0 {
            lemma_prime_power_divisor(q, (e - 1) as nat, r);
        } else {
            assert(q % r == 0);
            if r < q {
                assert(q % r != 0);
            }
            if r > q {
                lemma_small_mod(q as nat, r as nat);
            }
        }
    }
}

/// Exact order only depends on the residue.
proof fn lemma_order_of_residue(a: int, m: int, p: int)
    requires
        p >= 2,
        exact_order(a, m, p),
    ensures
        exact_order(a % p, m, p),
{
    lemma_pow_mod_noop(a, m as nat, p);
    assert forall|q: int| #![trigger is_prime(q), m % q] is_prime(q) && m % q == 0 implies pow(a % p, (m / q) as nat) % p != 1 by {
        lemma_pow_mod_noop(a, (m / q) as nat, p);
    }
}

/// For each divisor `d` of `p - 1` some non-zero residue has exact order `d`.
proof fn lemma_element_of_order(p: int, d: int) -> (a: int)
    requires
        is_prime(p),
        d >= 1,
        (p - 1) % d == 0,
    ensures
        1 <= a < p,
        exact_order(a, d, p),
    decreases d,
{
    let n = p - 1;
    if d == 1 {
        lemma_pow1(1);
        lemma_small_mod(1, p as nat);
        assert forall|q: int| #![trigger is_prime(q), d % q] is_prime(q) && d % q == 0 implies pow(1, (d / q) as nat) % p != 1 by {
            lemma_small_mod(1, q as nat);
        }
        1
    } else {
        let q = lemma_prime_factor(d);
        let (e, d2) = lemma_split_prime_power(d, q);
        let qe = pow(q, e);
        lemma_pow_positive(q, e);
        assert(qe >= 2) by {
            lemma_pow_adds(q, 1, (e - 1) as nat);
            lemma_pow1(q);
            lemma_pow_positive(q, (e - 1) as nat);
            assert(q * pow(q, (e - 1) as nat) >= 2) by (nonlinear_arith)
                requires
                    q >= 2,
                    pow(q, (e - 1) as nat) >= 1,
            ;
        }
        assert(d2 < d) by (nonlinear_arith)
            requires
                d == qe * d2,
                qe >= 2,
                d2 >= 1,
        ;
        // d2 and q^e divide n
        lemma_mod_multiples_basic(qe, d2);
        assert(d % d2 == 0) by {
            assert(d == qe * d2);
        }
        lemma_divides_trans(d2, d, n);
        lemma_mod_multiples_basic(d2, qe);
        assert(d % qe == 0) by {
            assert(d == d2 * qe) by (nonlinear_arith)
                requires
                    d == qe * d2,
            ;
        }
        lemma_divides_trans(qe, d, n);
        lemma_divides_trans(q, d, n);
        let b = lemma_element_of_order(p, d2);
        // a residue of exact order q^e: x^(n / q^e) for a non-root x of x^(n/q) - 1
        lemma_fundamental_div_mod(n, q);
        let m = n / q;
        assert(1 <= m < n) by (nonlinear_arith)
            requires
                n == q * m,
                n >= 1,
                q >= 2,
        ;
        let x = lemma_non_root(p, m as nat);
        lemma_fundamental_div_mod(n, qe);
        let c = n / qe;
        assert(n == qe * c);
        assert(c >= 1) by (nonlinear_arith)
            requires
                n == qe * c,
                n >= 1,
                qe >= 1,
        ;
        let e1 = (e - 1) as nat;
        lemma_pow_adds(q, 1, e1);
        lemma_pow1(q);
        let qe1 = pow(q, e1);
        assert(qe == q * qe1);
        assert(m == c * qe1) by (nonlinear_arith)
            requires
                n == qe * c,
                qe == q * qe1,
                n == q * m,
                q >= 2,
        ;
        let z0 = pow(x, c as nat);
        lemma_pow_multiplies(x, c as nat, qe as nat);
        lemma_pow_multiplies(x, c as nat, qe1 as nat);
        assert((c * qe) as nat == n as nat) by {
            assert(c * qe == n) by (nonlinear_arith)
                requires
                    n == qe * c,
            ;
        }
        lemma_small_mod(x as nat, p as nat);
        lemma_fermat(x, p);
        assert forall|r: int| #![trigger is_prime(r), qe % r] is_prime(r) && qe % r == 0 implies pow(z0, (qe / r) as nat) % p != 1 by {
            lemma_prime_power_divisor(q, e, r);
            lemma_div_multiples_vanish(qe1, q);
        }
        assert(exact_order(z0, qe, p));
        assert forall|r: int| #![trigger is_prime(r), qe % r, d2 % r] is_prime(r) implies !(qe % r == 0 && d2 % r == 0) by {
            if qe % r == 0 {
                lemma_prime_power_divisor(q, e, r);
            }
        }
        lemma_order_product(z0, b, qe, d2, p);
        let a = (z0 * b) % p;
        lemma_order_of_residue(z0 * b, d, p);
        lemma_mod_bound(z0 * b, p);
        if a == 0 {
            lemma_pow_nonzero(x, c as nat, p);
            lemma_small_mod(b as nat, p as nat);
            crate::number_theory::lemma_product_nonzero(z0, b, p);
        }
        a
    }
}

/// Every odd prime has a primitive root: some residue in `[2, p)` passes the
/// primitive-root test.
pub proof fn lemma_primitive_root_exists(p: int)
    requires
        is_prime(p),
        p >= 3,
    ensures
        has_primitive_root(p),
{
    let n = p - 1;
    lemma_small_mod(0, n as nat);
    assert(n % n == 0) by {
        vstd::arithmetic::div_mod::lemma_mod_self_0(n);
    }
    let g = lemma_element_of_order(p, n);
    assert(passes_root_test(g, p));
    if g == 1 {
        let q = lemma_prime_factor(n);
        lemma1_pow((n / q) as nat);
        lemma_small_mod(1, p as nat);
        assert(pow(g, (n / q) as nat) % p != 1);
    }
    assert(2 <= g < p && passes_root_test(g, p));
}

} // verus!
