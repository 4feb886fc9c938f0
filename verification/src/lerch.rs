//! The Lerch quotient modulo `p`: the recurrence's Lerch remainder is the quotient
//! `(sum q_p(a) - W_p) / p` reduced modulo `p`.
use crate::number_theory::{
    wilson_quotient, fermat_quotient, is_prime, lemma_fermat, lemma_minus_one_powers, lemma_wilson, one_to,
    product, sum_by,
};
use crate::recurrence::{
    lemma_lerch_congruence, lerch_expression, lerch_remainder_of, moment, prime_invariants, quotient_power, MomentOptions,
};
use crate::verify::{
    power_fn, power_sum_residue, quotient_mod_p2, quotient_mod_p2_fn, quotient_sum_minus_wilson,
    wilson_mod_p2,
};
use vstd::arithmetic::div_mod::{
    lemma_add_mod_noop, lemma_div_multiples_vanish, lemma_fundamental_div_mod, lemma_mod_bound,
    lemma_mod_multiples_vanish, lemma_mod_twice, lemma_mul_mod_noop_general, lemma_small_mod,
    lemma_sub_mod_noop,
};
use vstd::arithmetic::power::{
    lemma_pow0, lemma_pow1, lemma_pow_adds, lemma_pow_distributes, lemma_square_is_pow2, pow,
};
use vstd::prelude::*;

verus! {

/// Product of `f` over the elements of `s`.
pub open spec fn product_by(s: Seq<int>, f: spec_fn(int) -> int) -> int
    decreases s.len(),
{
    if s.len() == 0 {
        1
    } else {
        product_by(s.drop_last(), f) * f(s.last())
    }
}

/// Sum of `f(x) * f(y)` over the pairs of positions `i < j` of `s`.
pub open spec fn pair_sum(s: Seq<int>, f: spec_fn(int) -> int) -> int
    decreases s.len(),
{
    if s.len() == 0 {
        0
    } else {
        pair_sum(s.drop_last(), f) + sum_by(s.drop_last(), f) * f(s.last())
    }
}

/// `a |-> f(a)^2`.
pub open spec fn square_of(f: spec_fn(int) -> int) -> spec_fn(int) -> int {
    |a: int| f(a) * f(a)
}

/// `0 + 1 + ... + (n-1)`, the binomial coefficient `n choose 2`.
pub open spec fn triangle(n: nat) -> int
    decreases n,
{
    if n == 0 {
        0
    } else {
        triangle((n - 1) as nat) + (n - 1)
    }
}

/// `prod (1 + p f(a)) == 1 + p S + p^2 E` modulo `p^3`, with `S` the sum of `f` and `E`
/// its pair sum; the returned value is the multiple of `p^3` left over.
proof fn lemma_product_expansion(s: Seq<int>, f: spec_fn(int) -> int, g: spec_fn(int) -> int, p: int) -> (k: int)
    requires
        forall|i: int| 0 <= i < s.len() ==> #[trigger] g(s[i]) == 1 + p * f(s[i]),
    ensures
        product_by(s, g) == 1 + p * sum_by(s, f) + p * p * pair_sum(s, f) + p * p * p * k,
    decreases s.len(),
{
    if s.len() == 0 {
        0
    } else {
        let t = s.drop_last();
        assert forall|i: int| 0 <= i < t.len() implies #[trigger] g(t[i]) == 1 + p * f(t[i]) by {
            assert(t[i] == s[i]);
        }
        let k0 = lemma_product_expansion(t, f, g, p);
        let x = s.last();
        assert(g(s[s.len() - 1]) == 1 + p * f(s[s.len() - 1]));
        let y = f(x);
        let s0 = sum_by(t, f);
        let e0 = pair_sum(t, f);
        let p0 = product_by(t, g);
        let kp = e0 * y + k0 * (1 + p * y);
        assert(p0 * (1 + p * y) == p0 + p0 * (p * y)) by (nonlinear_arith);
        assert(p0 * (p * y) == p * y + (p * s0) * (p * y) + (p * p * e0) * (p * y) + (p * p * p
            * k0) * (p * y)) by (nonlinear_arith)
            requires
                p0 == 1 + p * s0 + p * p * e0 + p * p * p * k0,
        ;
        assert((p * s0) * (p * y) == p * p * (s0 * y)) by (nonlinear_arith);
        assert((p * p * e0) * (p * y) == p * p * p * (e0 * y)) by (nonlinear_arith);
        assert((p * p * p * k0) * (p * y) == p * p * p * (k0 * p * y)) by (nonlinear_arith);
        assert(p * (s0 + y) == p * s0 + p * y) by (nonlinear_arith);
        assert(p * p * (e0 + s0 * y) == p * p * e0 + p * p * (s0 * y)) by (nonlinear_arith);
        assert(k0 * (1 + p * y) == k0 + k0 * p * y) by (nonlinear_arith);
        assert(p * p * p * (e0 * y + (k0 + k0 * p * y)) == p * p * p * (e0 * y) + p * p * p * k0
            + p * p * p * (k0 * p * y)) by (nonlinear_arith);
        kp
    }
}

/// Twice the pair sum is the square of the sum less the sum of squares.
proof fn lemma_pair_sum(s: Seq<int>, f: spec_fn(int) -> int)
    ensures
        2 * pair_sum(s, f) == sum_by(s, f) * sum_by(s, f) - sum_by(s, square_of(f)),
    decreases s.len(),
{
    if s.len() > 0 {
        let t = s.drop_last();
        lemma_pair_sum(t, f);
        let y = f(s.last());
        let s0 = sum_by(t, f);
        assert(square_of(f)(s.last()) == y * y);
        assert(2 * (pair_sum(t, f) + s0 * y) == (s0 + y) * (s0 + y) - (sum_by(t, square_of(f)) + y * y))
            by (nonlinear_arith)
            requires
                2 * pair_sum(t, f) == s0 * s0 - sum_by(t, square_of(f)),
        ;
    }
}

/// The product of `n`-th powers is the `n`-th power of the product.
proof fn lemma_product_of_powers(s: Seq<int>, n: nat)
    ensures
        product_by(s, |a: int| pow(a, n)) == pow(product(s), n),
    decreases s.len(),
{
    if s.len() == 0 {
        lemma_pow0(1);
        vstd::arithmetic::power::lemma1_pow(n);
    } else {
        lemma_product_of_powers(s.drop_last(), n);
        lemma_pow_distributes(product(s.drop_last()), s.last(), n);
    }
}

/// `(x - 1)^n == (-1)^n (1 - n x + C(n,2) x^2)` modulo `x^3`; the returned value is the
/// multiple of `x^3` left over.
proof fn lemma_power_near_minus_one(x: int, n: nat) -> (k: int)
    ensures
        pow(x - 1, n) == pow(-1, n) * (1 - n * x + triangle(n) * x * x) + x * x * x * k,
    decreases n,
{
    if n == 0 {
        lemma_pow0(x - 1);
        lemma_pow0(-1);
        0
    } else {
        let m = (n - 1) as nat;
        let k0 = lemma_power_near_minus_one(x, m);
        lemma_pow_adds(x - 1, m, 1);
        lemma_pow_adds(-1, m, 1);
        lemma_pow1(x - 1);
        lemma_pow1(-1);
        let sg = pow(-1, m);
        let t = triangle(m);
        let a = pow(x - 1, m);
        assert(sg == 1 || sg == -1) by {
            lemma_unit_power(m);
        }
        let k = k0 * (x - 1) + sg * t;
        let inner = 1 - m * x + t * x * x;
        let cube = x * x * x;
        assert(a * (x - 1) == (sg * inner) * (x - 1) + (cube * k0) * (x - 1)) by (nonlinear_arith)
            requires
                a == sg * inner + cube * k0,
        ;
        assert((sg * inner) * (x - 1) == sg * (inner * (x - 1))) by (nonlinear_arith);
        assert(inner * (x - 1) == -(1 - (m + 1) * x + (t + m) * x * x) + t * cube) by (nonlinear_arith)
            requires
                inner == 1 - m * x + t * x * x,
                cube == x * x * x,
        ;
        assert(sg * (-(1 - (m + 1) * x + (t + m) * x * x) + t * cube) == (sg * -1) * (1 - (m + 1)
            * x + (t + m) * x * x) + cube * (sg * t)) by (nonlinear_arith);
        assert((cube * k0) * (x - 1) == cube * (k0 * (x - 1))) by (nonlinear_arith);
        assert(cube * (k0 * (x - 1)) + cube * (sg * t) == cube * k) by (nonlinear_arith)
            requires
                k == k0 * (x - 1) + sg * t,
        ;
        assert(n * x == (m + 1) * x);
        k
    }
}

/// `(-1)^n` is `1` or `-1`.
proof fn lemma_unit_power(n: nat)
    ensures
        pow(-1, n) == 1 || pow(-1, n) == -1,
    decreases n,
{
    if n == 0 {
        lemma_pow0(-1);
    } else {
        lemma_unit_power((n - 1) as nat);
        lemma_pow_adds(-1, (n - 1) as nat, 1);
        lemma_pow1(-1);
    }
}

/// `2 C(n,2) == n (n - 1)`.
proof fn lemma_triangle(n: nat)
    ensures
        2 * triangle(n) == n * (n - 1),
    decreases n,
{
    if n > 0 {
        let m = (n - 1) as nat;
        lemma_triangle(m);
        assert(triangle(n) == triangle(m) + m);
        assert(2 * (triangle(m) + m) == (m + 1) * m) by (nonlinear_arith)
            requires
                2 * triangle(m) == m * (m - 1),
        ;
        assert(n * (n - 1) == (m + 1) * m) by (nonlinear_arith)
            requires
                n == m + 1,
        ;
    } else {
        assert(n * (n - 1) == 0) by (nonlinear_arith)
            requires
                n == 0,
        ;
    }
}

/// `a |-> (a^(p-1) - 1) / p`, the Fermat quotient of `a` as an integer.
pub open spec fn exact_quotient(p: int) -> spec_fn(int) -> int {
    |a: int| (pow(a, (p - 1) as nat) - 1) / p
}

/// The Wilson quotient `((p-1)! + 1) / p` as an integer.
pub open spec fn exact_wilson(p: int) -> int {
    (product(one_to(p - 1)) + 1) / p
}

/// The Lerch quotient `(sum_{a=1}^{p-1} q_p(a) - W_p) / p` as an integer.
pub open spec fn lerch_quotient(p: int) -> int {
    (sum_by(one_to(p - 1), exact_quotient(p)) - exact_wilson(p)) / p
}

/// For `1 <= a < p`: `a^(p-1) == 1 + p q_p(a)`.
proof fn lemma_power_split(a: int, p: int)
    requires
        is_prime(p),
        1 <= a < p,
    ensures
        pow(a, (p - 1) as nat) == 1 + p * exact_quotient(p)(a),
{
    let x = pow(a, (p - 1) as nat);
    lemma_small_mod(a as nat, p as nat);
    lemma_fermat(a, p);
    lemma_fundamental_div_mod(x, p);
    assert(x - 1 == p * (x / p));
    lemma_div_multiples_vanish(x / p, p);
}

/// For an odd prime: `(p-1)! == p W_p - 1`.
proof fn lemma_wilson_split(p: int)
    requires
        is_prime(p),
        p >= 3,
    ensures
        product(one_to(p - 1)) == p * exact_wilson(p) - 1,
{
    let f = product(one_to(p - 1));
    lemma_wilson(p);
    lemma_fundamental_div_mod(f, p);
    assert(f + 1 == p * (f / p + 1)) by (nonlinear_arith)
        requires
            f == p * (f / p) + (p - 1),
    ;
    lemma_div_multiples_vanish(f / p + 1, p);
}

/// `C(p-1, 2) == 1 + p (p-3)/2` for odd `p`.
proof fn lemma_triangle_odd(p: int)
    requires
        p >= 3,
        p % 2 == 1,
    ensures
        triangle((p - 1) as nat) == 1 + p * ((p - 3) / 2),
{
    lemma_triangle((p - 1) as nat);
    let h = (p - 3) / 2;
    assert(p - 3 == 2 * h);
    assert((p - 1) * (p - 2) == 2 * (1 + p * h)) by (nonlinear_arith)
        requires
            p - 3 == 2 * h,
    ;
}

/// The Lerch quotient is an integer, and twice it is `S^2 - 2 S + T` modulo `p`, where
/// `S` and `T` are the sums of the Fermat quotients and of their squares; the returned
/// value is the multiple of `p` left over.
proof fn lemma_lerch_core(p: int) -> (c: int)
    requires
        is_prime(p),
        p >= 3,
    ensures
        sum_by(one_to(p - 1), exact_quotient(p)) - exact_wilson(p) == p * lerch_quotient(p),
        2 * lerch_quotient(p) == sum_by(one_to(p - 1), exact_quotient(p)) * sum_by(
            one_to(p - 1),
            exact_quotient(p),
        ) - 2 * sum_by(one_to(p - 1), exact_quotient(p)) + sum_by(
            one_to(p - 1),
            square_of(exact_quotient(p)),
        ) + p * c,
{
    let n = (p - 1) as nat;
    let s = one_to(p - 1);
    let xq = exact_quotient(p);
    let g = |a: int| pow(a, n);
    assert forall|i: int| 0 <= i < s.len() implies #[trigger] g(s[i]) == 1 + p * xq(s[i]) by {
        lemma_power_split(s[i], p);
    }
    let k1 = lemma_product_expansion(s, xq, g, p);
    lemma_pair_sum(s, xq);
    lemma_product_of_powers(s, n);
    let sum = sum_by(s, xq);
    let sq = sum_by(s, square_of(xq));
    let e = pair_sum(s, xq);
    let f = product(s);
    lemma_wilson_split(p);
    let w = exact_wilson(p);
    let x = p * w;
    assert(f == x - 1);
    let k2 = lemma_power_near_minus_one(x, n);
    assert(p % 2 == 1) by {
        assert(p % 2 != 0);
        lemma_mod_bound(p, 2);
    }
    lemma_minus_one_powers(p);
    lemma_triangle_odd(p);
    let h = (p - 3) / 2;
    let t = triangle(n);
    // 1 + p S + p^2 E + p^3 k1 == 1 - (p-1) x + t x^2 + x^3 k2
    assert(pow(f, n) == 1 + p * sum + p * p * e + p * p * p * k1);
    assert(pow(f, n) == 1 - n * x + t * x * x + x * x * x * k2);
    assert(n * x == p * p * w - p * w) by (nonlinear_arith)
        requires
            n == p - 1,
            x == p * w,
    ;
    assert(t * x * x == p * p * (w * w) + p * p * p * (h * w * w)) by (nonlinear_arith)
        requires
            t == 1 + p * h,
            x == p * w,
    ;
    assert(x * x * x * k2 == p * p * p * (w * w * w * k2)) by (nonlinear_arith)
        requires
            x == p * w,
    ;
    let big = h * w * w + w * w * w * k2 - k1;
    assert(p * sum - p * w == p * p * (w * w - w - e) + p * p * p * big) by (nonlinear_arith)
        requires
            p * sum + p * p * e + p * p * p * k1 == -(p * p * w - p * w) + p * p * (w * w) + p
                * p * p * (h * w * w) + p * p * p * (w * w * w * k2),
            big == h * w * w + w * w * w * k2 - k1,
    ;
    let l0 = w * w - w - e + p * big;
    assert(p * (sum - w) == p * (p * l0)) by (nonlinear_arith)
        requires
            p * sum - p * w == p * p * (w * w - w - e) + p * p * p * big,
            l0 == w * w - w - e + p * big,
    ;
    assert(sum - w == p * l0) by (nonlinear_arith)
        requires
            p * (sum - w) == p * (p * l0),
            p >= 3,
    ;
    lemma_div_multiples_vanish(l0, p);
    assert(lerch_quotient(p) == l0);
    // 2 l == 2 w^2 - 2 w - (S^2 - T) + 2 p big, with w == S - p l
    let c = 2 * big - 4 * sum * l0 + 2 * p * l0 * l0 + 2 * l0;
    assert(w * w == sum * sum - 2 * (p * (sum * l0)) + p * p * (l0 * l0)) by (nonlinear_arith)
        requires
            w == sum - p * l0,
    ;
    assert(p * c == 2 * (p * big) - 4 * (p * (sum * l0)) + 2 * (p * p * (l0 * l0)) + 2 * (p * l0))
        by (nonlinear_arith)
        requires
            c == 2 * big - 4 * sum * l0 + 2 * p * l0 * l0 + 2 * l0,
    ;
    assert(2 * l0 == sum * sum - 2 * sum + sq + p * c);
    c
}

/// Sums of functions that agree modulo `m` on `s` agree modulo `m`.
proof fn lemma_sum_congruent(s: Seq<int>, f: spec_fn(int) -> int, g: spec_fn(int) -> int, m: int)
    requires
        m > 0,
        forall|i: int| 0 <= i < s.len() ==> #[trigger] f(s[i]) % m == g(s[i]) % m,
    ensures
        sum_by(s, f) % m == sum_by(s, g) % m,
    decreases s.len(),
{
    if s.len() > 0 {
        let t = s.drop_last();
        assert forall|i: int| 0 <= i < t.len() implies #[trigger] f(t[i]) % m == g(t[i]) % m by {
            assert(t[i] == s[i]);
        }
        lemma_sum_congruent(t, f, g, m);
        let x = s.last();
        assert(f(s[s.len() - 1]) % m == g(s[s.len() - 1]) % m);
        lemma_add_mod_noop(sum_by(t, f), f(x), m);
        lemma_add_mod_noop(sum_by(t, g), g(x), m);
    }
}

/// If `g == 1 + p f` on `s` then `sum g == |s| + p sum f`.
proof fn lemma_sum_affine(s: Seq<int>, f: spec_fn(int) -> int, g: spec_fn(int) -> int, p: int)
    requires
        forall|i: int| 0 <= i < s.len() ==> #[trigger] g(s[i]) == 1 + p * f(s[i]),
    ensures
        sum_by(s, g) == s.len() + p * sum_by(s, f),
    decreases s.len(),
{
    if s.len() > 0 {
        let t = s.drop_last();
        assert forall|i: int| 0 <= i < t.len() implies #[trigger] g(t[i]) == 1 + p * f(t[i]) by {
            assert(t[i] == s[i]);
        }
        lemma_sum_affine(t, f, g, p);
        assert(g(s[s.len() - 1]) == 1 + p * f(s[s.len() - 1]));
        let y = f(s.last());
        assert(p * sum_by(t, f) + p * y == p * (sum_by(t, f) + y)) by (nonlinear_arith);
    }
}

/// `(1 + p s) mod (p m) == 1 + p (s mod m)`.
proof fn lemma_one_plus_multiple(s: int, p: int, m: int)
    requires
        p >= 2,
        m >= 1,
    ensures
        (1 + p * s) % (p * m) == 1 + p * (s % m),
{
    lemma_fundamental_div_mod(s, m);
    lemma_mod_bound(s, m);
    let r = s % m;
    let d = s / m;
    assert(1 + p * s == (p * m) * d + (1 + p * r)) by (nonlinear_arith)
        requires
            s == m * d + r,
    ;
    assert(0 <= 1 + p * r < p * m) by (nonlinear_arith)
        requires
            0 <= r < m,
            p >= 2,
    ;
    lemma_mod_multiples_vanish(d, 1 + p * r, p * m);
    lemma_small_mod((1 + p * r) as nat, (p * m) as nat);
}

/// `(p y) mod (p m) == p (y mod m)`.
proof fn lemma_scaled_mod(y: int, p: int, m: int)
    requires
        p >= 1,
        m >= 1,
    ensures
        (p * y) % (p * m) == p * (y % m),
{
    lemma_fundamental_div_mod(y, m);
    lemma_mod_bound(y, m);
    let r = y % m;
    let d = y / m;
    assert(p * y == (p * m) * d + p * r) by (nonlinear_arith)
        requires
            y == m * d + r,
    ;
    assert(0 <= p * r < p * m) by (nonlinear_arith)
        requires
            0 <= r < m,
            p >= 1,
    ;
    lemma_mod_multiples_vanish(d, p * r, p * m);
    lemma_small_mod((p * r) as nat, (p * m) as nat);
}

/// The Fermat quotients read off `a^(p-1)` modulo `p^2` and `p^3` are the integer
/// quotient reduced modulo `p` and `p^2`.
proof fn lemma_reduced_quotients(a: int, p: int)
    requires
        is_prime(p),
        1 <= a < p,
    ensures
        fermat_quotient(a, p) == exact_quotient(p)(a) % p,
        quotient_mod_p2(a, p) == exact_quotient(p)(a) % (p * p),
{
    lemma_power_split(a, p);
    let y = exact_quotient(p)(a);
    assert(p * p > 0) by (nonlinear_arith)
        requires
            p >= 2,
    ;
    lemma_one_plus_multiple(y, p, p);
    lemma_one_plus_multiple(y, p, p * p);
    assert(p * (p * p) == p * p * p) by (nonlinear_arith);
    lemma_mod_bound(y, p);
    lemma_mod_bound(y, p * p);
    assert(p * p > 0) by (nonlinear_arith)
        requires
            p >= 2,
    ;
    lemma_div_multiples_vanish(y % p, p);
    lemma_div_multiples_vanish(y % (p * p), p);
}

/// `wilson_mod_p2(p)` is `W_p mod p^2`.
proof fn lemma_wilson_mod_p2(p: int)
    requires
        is_prime(p),
        p >= 3,
    ensures
        wilson_mod_p2(p) == exact_wilson(p) % (p * p),
{
    lemma_wilson_split(p);
    let w = exact_wilson(p);
    let f = product(one_to(p - 1));
    let m2 = p * p;
    let m3 = p * p * p;
    assert(m2 >= 9 && m3 >= 27 && m3 == p * m2) by (nonlinear_arith)
        requires
            p >= 3,
            m2 == p * p,
            m3 == p * p * p,
    ;
    lemma_fundamental_div_mod(w, m2);
    lemma_mod_bound(w, m2);
    let r = w % m2;
    let d = w / m2;
    if r >= 1 {
        assert(f == m3 * d + (p * r - 1)) by (nonlinear_arith)
            requires
                f == p * w - 1,
                w == m2 * d + r,
                m3 == p * m2,
        ;
        assert(0 <= p * r - 1 < m3) by (nonlinear_arith)
            requires
                1 <= r < m2,
                m3 == p * m2,
                p >= 3,
        ;
        lemma_mod_multiples_vanish(d, p * r - 1, m3);
        lemma_small_mod((p * r - 1) as nat, m3 as nat);
        lemma_div_multiples_vanish(r, p);
        lemma_small_mod(r as nat, m2 as nat);
    } else {
        assert(f == m3 * (d - 1) + (m3 - 1)) by (nonlinear_arith)
            requires
                f == p * w - 1,
                w == m2 * d,
                m3 == p * m2,
        ;
        lemma_mod_multiples_vanish(d - 1, m3 - 1, m3);
        lemma_small_mod((m3 - 1) as nat, m3 as nat);
        lemma_div_multiples_vanish(m2, p);
        lemma_mod_multiples_vanish(1, 0, m2);
        assert(m2 * 1 + 0 == m2);
        lemma_small_mod(0, m2 as nat);
    }
}

/// The first two moments are the sums of the Fermat quotients and of their squares,
/// reduced modulo `p`.
proof fn lemma_moments_of_sums(p: int)
    requires
        is_prime(p),
        p >= 3,
    ensures
        moment(p, 1) == sum_by(one_to(p - 1), exact_quotient(p)) % p,
        moment(p, 2) == sum_by(one_to(p - 1), square_of(exact_quotient(p))) % p,
{
    let s = one_to(p - 1);
    let xq = exact_quotient(p);
    assert forall|i: int| 0 <= i < s.len() implies #[trigger] quotient_power(p, 1)(s[i]) % p == xq(
        s[i],
    ) % p by {
        lemma_reduced_quotients(s[i], p);
        lemma_pow1(fermat_quotient(s[i], p));
        lemma_mod_twice(xq(s[i]), p);
    }
    lemma_sum_congruent(s, quotient_power(p, 1), xq, p);
    lemma_mod_twice(sum_by(s, quotient_power(p, 1)), p);
    assert forall|i: int| 0 <= i < s.len() implies #[trigger] quotient_power(p, 2)(s[i]) % p
        == square_of(xq)(s[i]) % p by {
        lemma_reduced_quotients(s[i], p);
        let y = xq(s[i]);
        lemma_square_is_pow2(fermat_quotient(s[i], p));
        lemma_mul_mod_noop_general(y, y, p);
    }
    lemma_sum_congruent(s, quotient_power(p, 2), square_of(xq), p);
    lemma_mod_twice(sum_by(s, quotient_power(p, 2)), p);
}

/// The Lerch expression of the first two moments is twice the Lerch quotient modulo `p`,
/// and the Lerch remainder is the Lerch quotient modulo `p`.
proof fn lemma_lerch_remainder(p: int)
    requires
        is_prime(p),
        p >= 3,
    ensures
        lerch_expression(moment(p, 1), moment(p, 2), p) == (2 * lerch_quotient(p)) % p,
        lerch_remainder_of(moment(p, 1), moment(p, 2), p) == lerch_quotient(p) % p,
{
    let s = one_to(p - 1);
    let xq = exact_quotient(p);
    let c = lemma_lerch_core(p);
    lemma_moments_of_sums(p);
    let sum = sum_by(s, xq);
    let sq = sum_by(s, square_of(xq));
    let l = lerch_quotient(p);
    let q1 = moment(p, 1);
    let q2 = moment(p, 2);
    lemma_fundamental_div_mod(sum, p);
    lemma_fundamental_div_mod(sq, p);
    lemma_fundamental_div_mod(q1 * q1, p);
    let a1 = sum / p;
    let a2 = sq / p;
    let a3 = (q1 * q1) / p;
    let inner = q2 + (q1 * q1) % p + 2 * (p - q1);
    assert(sum * sum == p * (p * a1 * a1 + 2 * a1 * q1) + q1 * q1) by (nonlinear_arith)
        requires
            sum == p * a1 + q1,
    ;
    let kk = p * a1 * a1 + 2 * a1 * q1 - 2 * a1 + a2 + a3 - 2 + c;
    assert(p * kk == p * (p * a1 * a1 + 2 * a1 * q1) - 2 * (p * a1) + p * a2 + p * a3 - 2 * p + p
        * c) by (nonlinear_arith)
        requires
            kk == p * a1 * a1 + 2 * a1 * q1 - 2 * a1 + a2 + a3 - 2 + c,
    ;
    assert(2 * l == p * kk + inner);
    lemma_mod_multiples_vanish(kk, inner, p);
    // the remainder: (2 l mod p) * (p+1)/2 == l modulo p
    let h2 = (p + 1) / 2;
    assert(p % 2 == 1) by {
        assert(p % 2 != 0);
        lemma_mod_bound(p, 2);
    }
    assert(2 * h2 == p + 1);
    vstd::arithmetic::div_mod::lemma_mul_mod_noop_left(2 * l, h2, p);
    assert((2 * l) * h2 == p * l + l) by (nonlinear_arith)
        requires
            2 * h2 == p + 1,
    ;
    lemma_mod_multiples_vanish(l, l, p);
}

/// The Lerch quotient, the recurrence and the definitions (the law the search rests on):
/// for an odd prime `p`, `sum q_p(a) - W_p` is a multiple of `p`, so the Lerch quotient is
/// an integer; the Lerch remainder `L_p` computed from the first two moments
/// is the Lerch quotient `(sum q_p(a) - W_p) / p` modulo `p`; the bigint residue
/// `(Q1 - W_p) mod p^2` is `p L_p`, the residue `sum a^(p-1) - (p-1)! - p mod p^3` is
/// `p^2 L_p`, and the Lerch expression vanishes exactly when `L_p` does.
pub proof fn lemma_lerch_quotient(p: int)
    requires
        is_prime(p),
        p >= 3,
    ensures
        sum_by(one_to(p - 1), exact_quotient(p)) - exact_wilson(p) == p * lerch_quotient(p),
        lerch_remainder_of(moment(p, 1), moment(p, 2), p) == lerch_quotient(p) % p,
        quotient_sum_minus_wilson(p) == p * lerch_remainder_of(moment(p, 1), moment(p, 2), p),
        power_sum_residue(p) == p * p * lerch_remainder_of(moment(p, 1), moment(p, 2), p),
        lerch_expression(moment(p, 1), moment(p, 2), p) == 0 <==> lerch_remainder_of(
            moment(p, 1),
            moment(p, 2),
            p,
        ) == 0,
{
    let s = one_to(p - 1);
    let xq = exact_quotient(p);
    let n = (p - 1) as nat;
    lemma_lerch_core(p);
    lemma_lerch_remainder(p);
    let sum = sum_by(s, xq);
    let w = exact_wilson(p);
    let l = lerch_quotient(p);
    let m2 = p * p;
    assert(m2 >= 9) by (nonlinear_arith)
        requires
            p >= 3,
            m2 == p * p,
    ;
    // (Q1 - W_p) mod p^2
    assert forall|i: int| 0 <= i < s.len() implies #[trigger] quotient_mod_p2_fn(p)(s[i]) % m2
        == xq(s[i]) % m2 by {
        lemma_reduced_quotients(s[i], p);
        lemma_mod_twice(xq(s[i]), m2);
    }
    lemma_sum_congruent(s, quotient_mod_p2_fn(p), xq, m2);
    lemma_wilson_mod_p2(p);
    let s2 = sum_by(s, quotient_mod_p2_fn(p));
    let w2 = wilson_mod_p2(p);
    lemma_mod_twice(w, m2);
    lemma_sub_mod_noop(s2, w2, m2);
    lemma_sub_mod_noop(sum, w, m2);
    lemma_scaled_mod(l, p, p);
    // sum a^(p-1) - (p-1)! - p mod p^3
    assert forall|i: int| 0 <= i < s.len() implies #[trigger] power_fn(p)(s[i]) == 1 + p * xq(s[i])
        by {
        lemma_power_split(s[i], p);
    }
    lemma_sum_affine(s, xq, power_fn(p), p);
    lemma_wilson_split(p);
    assert((p - 1) + p * sum - (p * w - 1) - p == (p * p) * l) by (nonlinear_arith)
        requires
            sum - w == p * l,
    ;
    lemma_scaled_mod(l, p * p, p);
    // the Lerch expression vanishes exactly when the remainder does
    lemma_fundamental_div_mod(l, p);
    lemma_mod_bound(l, p);
    let r = l % p;
    let d = l / p;
    assert(2 * l == p * (2 * d) + 2 * r) by (nonlinear_arith)
        requires
            l == p * d + r,
    ;
    lemma_mod_multiples_vanish(2 * d, 2 * r, p);
    assert(p % 2 == 1) by {
        assert(p % 2 != 0);
        lemma_mod_bound(p, 2);
    }
    if r > 0 {
        if 2 * r < p {
            lemma_small_mod((2 * r) as nat, p as nat);
        } else {
            lemma_mod_multiples_vanish(1, 2 * r - p, p);
            lemma_small_mod((2 * r - p) as nat, p as nat);
        }
    } else {
        lemma_small_mod(0, p as nat);
    }
}

/// The recurrence and the bigint path agree: for an odd prime `p`, the invariants that
/// `recurrence_invariants` reports carry the Lerch remainder `((Q1 - W_p) mod p^2) / p`
/// that `direct_lerch_remainder_bigint` computes, and flag a Lerch prime exactly when both
/// residues of `verify_lerch_bigint` vanish.
pub proof fn lemma_recurrence_agrees_with_bigint(p: int, moments: MomentOptions)
    requires
        is_prime(p),
        3 <= p <= u64::MAX,
    ensures
        prime_invariants(p, moments).lerch_remainder == Some(
            (quotient_sum_minus_wilson(p) / p) as u64,
        ),
        prime_invariants(p, moments).is_lerch <==> (quotient_sum_minus_wilson(p) == 0
            && power_sum_residue(p) == 0),
{
    lemma_lerch_quotient(p);
    let l = lerch_remainder_of(moment(p, 1), moment(p, 2), p);
    lemma_mod_bound(lerch_expression(moment(p, 1), moment(p, 2), p) * ((p + 1) / 2), p);
    lemma_div_multiples_vanish(l, p);
    assert(p * l == 0 <==> l == 0) by (nonlinear_arith)
        requires
            p >= 3,
    ;
    assert(p * p * l == 0 <==> l == 0) by (nonlinear_arith)
        requires
            p >= 3,
    ;
}

/// The recurrence and the definition-based path agree: for an odd prime `p`, the moments
/// that `recurrence_invariants` reports are those `direct_invariants` computes, its `Q1`
/// is the Wilson quotient, and its Lerch remainder is the one `direct_invariants` derives
/// from the Wilson quotient.
pub proof fn lemma_recurrence_agrees_with_definitions(p: int, moments: MomentOptions)
    requires
        is_prime(p),
        3 <= p <= u64::MAX,
    ensures
        prime_invariants(p, moments).q1 as int == sum_by(one_to(p - 1), quotient_power(p, 1)) % p,
        prime_invariants(p, moments).q2 as int == sum_by(one_to(p - 1), quotient_power(p, 2)) % p,
        prime_invariants(p, moments).q3 == (if moments.q3 {
            Some((sum_by(one_to(p - 1), quotient_power(p, 3)) % p) as u64)
        } else {
            None
        }),
        prime_invariants(p, moments).q4 == (if moments.q4 {
            Some((sum_by(one_to(p - 1), quotient_power(p, 4)) % p) as u64)
        } else {
            None
        }),
        prime_invariants(p, moments).q1 as int == wilson_quotient(p),
        prime_invariants(p, moments).lerch_remainder == Some(
            lerch_remainder_of(wilson_quotient(p), moment(p, 2), p) as u64,
        ),
{
    lemma_lerch_congruence(p);
    lemma_mod_bound(sum_by(one_to(p - 1), quotient_power(p, 1)), p);
    lemma_mod_bound(sum_by(one_to(p - 1), quotient_power(p, 2)), p);
}

/// The stored `k_p` (law): for an odd prime `p`, the invariants carry `k_p` exactly when
/// `Q2 != 0`, and then `k_p` is the residue in `[0, p)` with `k_p Q2 + 2 l_p == Q2`
/// modulo `p`, that is `k_p == 1 - 2 l_p / Q2 (mod p)`, with `l_p` the Lerch quotient.
pub proof fn lemma_generalized_k(p: int, moments: MomentOptions)
    requires
        is_prime(p),
        3 <= p <= u64::MAX,
    ensures
        prime_invariants(p, moments).lerch_remainder == Some((lerch_quotient(p) % p) as u64),
        moment(p, 2) == 0 ==> prime_invariants(p, moments).generalized_k is None,
        moment(p, 2) != 0 ==> (prime_invariants(p, moments).generalized_k matches Some(k) && 0 <= k
            < p && (k * moment(p, 2) + 2 * lerch_quotient(p)) % p == moment(p, 2) % p),
{
    let q2 = moment(p, 2);
    lemma_mod_bound(sum_by(one_to(p - 1), quotient_power(p, 2)), p);
    lemma_lerch_quotient(p);
    if q2 != 0 {
        lemma_lerch_quotient(p);
        let lq = lerch_quotient(p);
        let l = lerch_remainder_of(moment(p, 1), q2, p);
        lemma_mod_bound(lerch_expression(moment(p, 1), q2, p) * ((p + 1) / 2), p);
        let w = pow(q2, (p - 2) as nat);
        let a = (2 * l) % p;
        let b = w % p;
        let ratio = (a * b) % p;
        lemma_mod_bound(a * b, p);
        let k = if ratio <= 1 { 1 - ratio } else { p + 1 - ratio };
        assert(crate::recurrence::generalized_k_of(l, q2, p) == k);
        // w q2 == q2^(p-1) == 1 modulo p
        lemma_small_mod(q2 as nat, p as nat);
        lemma_fermat(q2, p);
        lemma_pow_adds(q2, (p - 2) as nat, 1);
        lemma_pow1(q2);
        assert(pow(q2, (p - 1) as nat) == w * q2);
        lemma_mul_mod_noop_general(w, q2, p);
        // ratio q2 == a (b q2) == a == 2 l == 2 lq modulo p
        lemma_mul_mod_noop_general(a * b, q2, p);
        assert((a * b) * q2 == a * (b * q2)) by (nonlinear_arith);
        lemma_mul_mod_noop_general(a, b * q2, p);
        lemma_mul_mod_noop_general(b, q2, p);
        lemma_mod_twice(w, p);
        assert((b * q2) % p == 1);
        lemma_mul_mod_noop_general(a, 1, p);
        assert(a * 1 == a);
        lemma_mod_twice(2 * l, p);
        assert((ratio * q2) % p == (2 * l) % p);
        lemma_mul_mod_noop_general(2, lq, p);
        lemma_mul_mod_noop_general(2, l, p);
        lemma_mod_twice(lq, p);
        assert((2 * l) % p == (2 * lq) % p);
        // k q2 + ratio q2 == (k + ratio) q2, with k + ratio == 1 or p + 1
        assert(k * q2 + ratio * q2 == (k + ratio) * q2) by (nonlinear_arith);
        if ratio <= 1 {
            assert(k + ratio == 1);
            assert((k + ratio) * q2 == q2) by (nonlinear_arith)
                requires
                    k + ratio == 1,
            ;
        } else {
            assert((k + ratio) * q2 == p * q2 + q2) by (nonlinear_arith)
                requires
                    k + ratio == p + 1,
            ;
            lemma_mod_multiples_vanish(q2, q2, p);
        }
        assert((k * q2 + ratio * q2) % p == q2 % p);
        lemma_add_mod_noop(k * q2, ratio * q2, p);
        lemma_add_mod_noop(k * q2, 2 * lq, p);
    }
}

/// The exceptional conditions (law): for an odd prime `p`, the invariants flag a Lerch
/// prime exactly when `p` divides the Lerch quotient, a Gy exception exactly when
/// `Q2 == 0`, a Wilson prime exactly when `p^2` divides `(p-1)! + 1`, and `Q1 = 2` exactly
/// when the Wilson quotient is 2 modulo `p`.
pub proof fn lemma_exceptional_flags(p: int, moments: MomentOptions)
    requires
        is_prime(p),
        3 <= p <= u64::MAX,
    ensures
        prime_invariants(p, moments).is_lerch <==> lerch_quotient(p) % p == 0,
        prime_invariants(p, moments).is_gy_exceptional <==> moment(p, 2) == 0,
        prime_invariants(p, moments).is_wilson <==> (product(one_to(p - 1)) + 1) % (p * p) == 0,
        prime_invariants(p, moments).q1_equals_2 <==> wilson_quotient(p) == 2,
{
    lemma_lerch_quotient(p);
    lemma_lerch_congruence(p);
    lemma_mod_bound(sum_by(one_to(p - 1), quotient_power(p, 1)), p);
    lemma_mod_bound(sum_by(one_to(p - 1), quotient_power(p, 2)), p);
    // the Wilson quotient vanishes exactly when (p-1)! == -1 modulo p^2
    let f = product(one_to(p - 1));
    let m2 = p * p;
    assert(m2 >= 9) by (nonlinear_arith)
        requires
            p >= 3,
            m2 == p * p,
    ;
    lemma_wilson(p);
    let r = f % m2;
    lemma_mod_bound(f, m2);
    lemma_fundamental_div_mod(f, m2);
    // r == -1 modulo p, so r + 1 == p t with 1 <= t <= p
    assert(m2 == p * p);
    vstd::arithmetic::div_mod::lemma_mod_mod(f, p, p);
    assert(r % p == p - 1);
    lemma_fundamental_div_mod(r, p);
    let t = r / p + 1;
    assert(r + 1 == p * t) by (nonlinear_arith)
        requires
            r == p * (r / p) + (p - 1),
            t == r / p + 1,
    ;
    assert(1 <= t <= p) by (nonlinear_arith)
        requires
            r + 1 == p * t,
            0 <= r < p * p,
            p >= 3,
    ;
    lemma_div_multiples_vanish(t, p);
    assert(wilson_quotient(p) == t % p);
    if t == p {
        lemma_mod_multiples_vanish(1, 0, p);
        lemma_small_mod(0, p as nat);
        assert(f + 1 == m2 * (f / m2) + m2);
        lemma_mod_multiples_vanish(f / m2 + 1, 0, m2);
        lemma_small_mod(0, m2 as nat);
        assert(m2 * (f / m2 + 1) + 0 == f + 1) by (nonlinear_arith)
            requires
                f + 1 == m2 * (f / m2) + m2,
        ;
    } else {
        lemma_small_mod(t as nat, p as nat);
        lemma_mod_multiples_vanish(f / m2, r + 1, m2);
        assert(f + 1 == m2 * (f / m2) + (r + 1));
        assert(t <= p - 1);
        assert(r + 1 < m2) by (nonlinear_arith)
            requires
                r + 1 == p * t,
                t <= p - 1,
                p >= 3,
                m2 == p * p,
        ;
        lemma_small_mod((r + 1) as nat, m2 as nat);
    }
}

} // verus!
