//! Mathematical definitions and lemmas: primes, modular powers, Fermat quotients.
use vstd::arithmetic::div_mod::*;
use vstd::arithmetic::power::*;
use vstd::arithmetic::mul::*;
use vstd::prelude::*;

verus! {

/// One square-and-multiply step preserves the value of `r * b^e` modulo `m`.
pub proof fn lemma_pow_mod_step(r: int, b: int, e: nat, m: int)
    requires
        m > 0,
    ensures
        ((if e % 2 == 1 { (r * b) % m } else { r }) * pow((b * b) % m, e / 2)) % m
            == (r * pow(b, e)) % m,
{
    let h = e / 2;
    let r2 = if e % 2 == 1 { (r * b) % m } else { r };
    assert(pow(b, 2) == b * b) by {
        lemma_pow1(b);
        lemma_pow_adds(b, 1, 1);
    }
    lemma_pow_multiplies(b, 2, h);
    assert(pow(b * b, h) == pow(b, 2 * h));
    lemma_pow_mod_noop(b * b, h, m);
    let t = pow(b * b, h);
    let tm = pow((b * b) % m, h);
    assert(tm % m == t % m);
    lemma_mul_mod_noop_right(r2, tm, m);
    lemma_mul_mod_noop_right(r2, t, m);
    assert((r2 * tm) % m == (r2 * t) % m);
    if e % 2 == 1 {
        assert(e == 2 * h + 1);
        lemma_pow_adds(b, 2 * h, 1);
        lemma_pow1(b);
        assert(pow(b, e) == t * b);
        lemma_mul_mod_noop_left(r * b, t, m);
        assert(((r * b) % m * t) % m == ((r * b) * t) % m);
        assert((r * b) * t == r * (t * b)) by (nonlinear_arith);
    } else {
        assert(e == 2 * h);
    }
}


/// `n` is a prime number.
pub open spec fn is_prime(n: int) -> bool {
    n >= 2 && forall|d: int| 2 <= d < n ==> #[trigger] (n % d) != 0
}

/// Euclid's lemma, for a factor already reduced below the prime.
proof fn lemma_euclid_reduced(a: int, b: int, p: int)
    requires
        is_prime(p),
        0 < a < p,
        (a * b) % p == 0,
    ensures
        b % p == 0,
    decreases a,
{
    if a == 1 {
        assert(a * b == b) by (nonlinear_arith)
            requires
                a == 1,
        ;
    } else {
        let q = p / a;
        let r = p % a;
        assert(p % a != 0);
        lemma_fundamental_div_mod(p, a);
        lemma_mod_bound(p, a);
        let k = (a * b) / p;
        lemma_fundamental_div_mod(a * b, p);
        assert(a * b == p * k);
        assert(r * b == p * (b - q * k)) by (nonlinear_arith)
            requires
                p == a * q + r,
                a * b == p * k,
        ;
        lemma_mod_multiples_basic(b - q * k, p);
        assert(p * (b - q * k) == (b - q * k) * p) by (nonlinear_arith);
        lemma_euclid_reduced(r, b, p);
    }
}

/// Euclid's lemma: a prime dividing a product divides one of the factors.
pub proof fn lemma_euclid(a: int, b: int, p: int)
    requires
        is_prime(p),
        (a * b) % p == 0,
    ensures
        a % p == 0 || b % p == 0,
{
    if a % p != 0 {
        lemma_mod_bound(a, p);
        lemma_mul_mod_noop_left(a, b, p);
        lemma_euclid_reduced(a % p, b, p);
    }
}

/// A product of two residues that are non-zero modulo a prime is non-zero modulo it.
pub proof fn lemma_product_nonzero(a: int, b: int, p: int)
    requires
        is_prime(p),
        a % p != 0,
        b % p != 0,
    ensures
        (a * b) % p != 0,
{
    if (a * b) % p == 0 {
        lemma_euclid(a, b, p);
    }
}

/// Cancellation of a factor that is non-zero modulo a prime.
pub proof fn lemma_cancel(a: int, b: int, c: int, p: int)
    requires
        is_prime(p),
        c % p != 0,
        (a * c) % p == (b * c) % p,
    ensures
        a % p == b % p,
{
    lemma_mod_equivalence(a * c, b * c, p);
    assert(a * c - b * c == (a - b) * c) by (nonlinear_arith);
    lemma_euclid(a - b, c, p);
    lemma_mod_equivalence(a, b, p);
}

/// Sum of `f` over the elements of `s`.
pub open spec fn sum_by(s: Seq<int>, f: spec_fn(int) -> int) -> int
    decreases s.len(),
{
    if s.len() == 0 {
        0
    } else {
        sum_by(s.drop_last(), f) + f(s.last())
    }
}

/// Product of the elements of `s`.
pub open spec fn product(s: Seq<int>) -> int
    decreases s.len(),
{
    if s.len() == 0 {
        1
    } else {
        product(s.drop_last()) * s.last()
    }
}

proof fn lemma_sum_remove(s: Seq<int>, f: spec_fn(int) -> int, i: int)
    requires
        0 <= i < s.len(),
    ensures
        sum_by(s, f) == sum_by(s.remove(i), f) + f(s[i]),
    decreases s.len(),
{
    if i == s.len() - 1 {
        assert(s.remove(i) =~= s.drop_last());
    } else {
        lemma_sum_remove(s.drop_last(), f, i);
        assert(s.drop_last().remove(i) =~= s.remove(i).drop_last());
    }
}

proof fn lemma_product_remove(s: Seq<int>, i: int)
    requires
        0 <= i < s.len(),
    ensures
        product(s) == product(s.remove(i)) * s[i],
    decreases s.len(),
{
    if i == s.len() - 1 {
        assert(s.remove(i) =~= s.drop_last());
    } else {
        lemma_product_remove(s.drop_last(), i);
        assert(s.drop_last().remove(i) =~= s.remove(i).drop_last());
        let a = product(s.drop_last().remove(i));
        assert(a * s[i] * s.last() == a * s.last() * s[i]) by (nonlinear_arith);
    }
}

/// Removing the last element of a duplicate-free sequence removes it from its set.
proof fn lemma_to_set_drop_last(s: Seq<int>)
    requires
        s.no_duplicates(),
        s.len() > 0,
    ensures
        s.drop_last().to_set() =~= s.to_set().remove(s.last()),
        s.drop_last().no_duplicates(),
{
    assert forall|x: int| s.drop_last().to_set().contains(x) implies s.to_set().remove(
        s.last(),
    ).contains(x) by {
        let i = choose|i: int| 0 <= i < s.drop_last().len() && s.drop_last()[i] == x;
        assert(s[i] == x);
    }
    assert forall|x: int| s.to_set().remove(s.last()).contains(x) implies s.drop_last().to_set().contains(
        x,
    ) by {
        let i = choose|i: int| 0 <= i < s.len() && s[i] == x;
        assert(i != s.len() - 1);
        assert(s.drop_last()[i] == x);
    }
}

proof fn lemma_to_set_remove(t: Seq<int>, i: int)
    requires
        t.no_duplicates(),
        0 <= i < t.len(),
    ensures
        t.remove(i).to_set() =~= t.to_set().remove(t[i]),
        t.remove(i).no_duplicates(),
{
    let r = t.remove(i);
    assert forall|x: int| r.to_set().contains(x) implies t.to_set().remove(t[i]).contains(x) by {
        let j = choose|j: int| 0 <= j < r.len() && r[j] == x;
        if j < i {
            assert(t[j] == x);
        } else {
            assert(t[j + 1] == x);
        }
    }
    assert forall|x: int| t.to_set().remove(t[i]).contains(x) implies r.to_set().contains(x) by {
        let j = choose|j: int| 0 <= j < t.len() && t[j] == x;
        assert(j != i);
        if j < i {
            assert(r[j] == x);
        } else {
            assert(r[j - 1] == x);
        }
    }
    assert forall|a: int, b: int| 0 <= a < r.len() && 0 <= b < r.len() && a != b implies r[a]
        != r[b] by {
        let a2 = if a < i { a } else { a + 1 };
        let b2 = if b < i { b } else { b + 1 };
        assert(r[a] == t[a2]);
        assert(r[b] == t[b2]);
    }
}

/// Two duplicate-free sequences with the same elements have the same sum under `f`.
pub proof fn lemma_sum_permutation(s: Seq<int>, t: Seq<int>, f: spec_fn(int) -> int)
    requires
        s.no_duplicates(),
        t.no_duplicates(),
        s.to_set() == t.to_set(),
    ensures
        sum_by(s, f) == sum_by(t, f),
    decreases s.len(),
{
    if s.len() == 0 {
        t.unique_seq_to_set();
        s.unique_seq_to_set();
    } else {
        let x = s.last();
        assert(s.to_set().contains(x)) by {
            assert(s[s.len() - 1] == x);
        }
        assert(t.to_set().contains(x));
        let i = choose|i: int| 0 <= i < t.len() && t[i] == x;
        lemma_to_set_drop_last(s);
        lemma_to_set_remove(t, i);
        lemma_sum_permutation(s.drop_last(), t.remove(i), f);
        lemma_sum_remove(t, f, i);
    }
}

/// Two duplicate-free sequences with the same elements have the same product.
pub proof fn lemma_product_permutation(s: Seq<int>, t: Seq<int>)
    requires
        s.no_duplicates(),
        t.no_duplicates(),
        s.to_set() == t.to_set(),
    ensures
        product(s) == product(t),
    decreases s.len(),
{
    if s.len() == 0 {
        t.unique_seq_to_set();
        s.unique_seq_to_set();
    } else {
        let x = s.last();
        assert(s.to_set().contains(x)) by {
            assert(s[s.len() - 1] == x);
        }
        assert(t.to_set().contains(x));
        let i = choose|i: int| 0 <= i < t.len() && t[i] == x;
        lemma_to_set_drop_last(s);
        lemma_to_set_remove(t, i);
        lemma_product_permutation(s.drop_last(), t.remove(i));
        lemma_product_remove(t, i);
    }
}

/// The sequence `1, 2, ..., n`.
pub open spec fn one_to(n: int) -> Seq<int> {
    Seq::new(n as nat, |i: int| i + 1)
}

/// Pigeonhole: `n` distinct values in `[1, n]` are exactly `1, ..., n`.
pub proof fn lemma_pigeonhole(s: Seq<int>, n: int)
    requires
        n >= 0,
        s.len() == n,
        s.no_duplicates(),
        forall|i: int| 0 <= i < n ==> 1 <= #[trigger] s[i] <= n,
    ensures
        s.to_set() == one_to(n).to_set(),
        one_to(n).no_duplicates(),
{
    let r = vstd::set_lib::set_int_range(1, n + 1);
    vstd::set_lib::lemma_int_range(1, n + 1);
    s.unique_seq_to_set();
    assert(s.to_set().subset_of(r));
    vstd::set_lib::lemma_subset_equality(s.to_set(), r);
    let t = one_to(n);
    assert(t.to_set() =~= r) by {
        assert forall|x: int| r.contains(x) implies t.to_set().contains(x) by {
            assert(t[x - 1] == x);
        }
    }
}


/// `1 * 2 * ... * k` is not divisible by a prime `p > k`.
pub proof fn lemma_factorial_nonzero(k: int, p: int)
    requires
        is_prime(p),
        0 <= k < p,
    ensures
        product(one_to(k)) % p != 0,
    decreases k,
{
    if k == 0 {
        lemma_small_mod(1, p as nat);
    } else {
        lemma_factorial_nonzero(k - 1, p);
        assert(one_to(k).drop_last() =~= one_to(k - 1));
        lemma_small_mod(k as nat, p as nat);
        lemma_product_nonzero(product(one_to(k - 1)), k, p);
    }
}

/// The residues `a*1, a*2, ..., a*k` modulo `p`.
pub open spec fn multiples_mod(a: int, p: int, k: int) -> Seq<int> {
    Seq::new(k as nat, |i: int| (a * (i + 1)) % p)
}

proof fn lemma_multiples_product(a: int, p: int, k: int)
    requires
        p > 0,
        k >= 0,
    ensures
        product(multiples_mod(a, p, k)) % p == (pow(a, k as nat) * product(one_to(k))) % p,
    decreases k,
{
    if k == 0 {
        lemma_pow0(a);
    } else {
        lemma_multiples_product(a, p, k - 1);
        assert(multiples_mod(a, p, k).drop_last() =~= multiples_mod(a, p, k - 1));
        assert(one_to(k).drop_last() =~= one_to(k - 1));
        let pm = product(multiples_mod(a, p, k - 1));
        let f = product(one_to(k - 1));
        let w = pow(a, (k - 1) as nat);
        lemma_pow_adds(a, (k - 1) as nat, 1);
        lemma_pow1(a);
        assert(pow(a, k as nat) == w * a);
        // pm * ((a*k) % p) == (w * f) * (a * k) modulo p
        lemma_mul_mod_noop_right(pm, a * k, p);
        lemma_mul_mod_noop_left(pm, a * k, p);
        lemma_mul_mod_noop_left(w * f, a * k, p);
        assert((w * f) * (a * k) == (w * a) * (f * k)) by (nonlinear_arith);
    }
}

/// Fermat's little theorem.
pub proof fn lemma_fermat(a: int, p: int)
    requires
        is_prime(p),
        a % p != 0,
    ensures
        pow(a, (p - 1) as nat) % p == 1,
{
    let n = p - 1;
    let s = multiples_mod(a, p, n);
    assert forall|i: int| 0 <= i < n implies 1 <= #[trigger] s[i] <= n by {
        lemma_small_mod((i + 1) as nat, p as nat);
        lemma_product_nonzero(a, i + 1, p);
        lemma_mod_bound(a * (i + 1), p);
    }
    assert forall|i: int, j: int| 0 <= i < s.len() && 0 <= j < s.len() && i != j implies s[i]
        != s[j] by {
        if s[i] == s[j] {
            assert((i + 1) * a == a * (i + 1)) by (nonlinear_arith);
            assert((j + 1) * a == a * (j + 1)) by (nonlinear_arith);
            lemma_cancel(i + 1, j + 1, a, p);
            lemma_small_mod((i + 1) as nat, p as nat);
            lemma_small_mod((j + 1) as nat, p as nat);
        }
    }
    lemma_pigeonhole(s, n);
    lemma_product_permutation(s, one_to(n));
    lemma_multiples_product(a, p, n);
    let f = product(one_to(n));
    lemma_factorial_nonzero(n, p);
    assert(1 * f == f);
    lemma_cancel(pow(a, n as nat), 1, f, p);
    lemma_small_mod(1, p as nat);
}


/// Divisibility is transitive.
pub proof fn lemma_divides_trans(q: int, d: int, m: int)
    requires
        q > 0,
        d > 0,
        d % q == 0,
        m % d == 0,
    ensures
        m % q == 0,
{
    lemma_fundamental_div_mod(d, q);
    lemma_fundamental_div_mod(m, d);
    let j = d / q;
    let k = m / d;
    assert(m == (j * k) * q) by (nonlinear_arith)
        requires
            d == q * j,
            m == d * k,
    ;
    lemma_mod_multiples_basic(j * k, q);
}

/// Every integer `m >= 2` has a prime divisor.
pub proof fn lemma_prime_factor(m: int) -> (q: int)
    requires
        m >= 2,
    ensures
        is_prime(q),
        m % q == 0,
        2 <= q <= m,
    decreases m,
{
    if is_prime(m) {
        lemma_mod_self_0(m);
        m
    } else {
        let d = choose|d: int| 2 <= d < m && #[trigger] (m % d) == 0;
        let q = lemma_prime_factor(d);
        lemma_divides_trans(q, d, m);
        q
    }
}

/// A composite `m` has a prime divisor `q` with `q * q <= m`.
pub proof fn lemma_small_prime_factor(m: int) -> (q: int)
    requires
        m >= 2,
        !is_prime(m),
    ensures
        is_prime(q),
        m % q == 0,
        q * q <= m,
{
    let d = choose|d: int| 2 <= d < m && #[trigger] (m % d) == 0;
    lemma_fundamental_div_mod(m, d);
    let e = m / d;
    assert(m == d * e);
    assert(e >= 2) by (nonlinear_arith)
        requires
            m == d * e,
            d < m,
            d >= 2,
    ;
    lemma_mod_multiples_basic(d, e);
    assert(m % e == 0) by {
        assert(m == d * e);
        assert(d * e == e * d) by (nonlinear_arith);
    }
    let w = if d <= e { d } else { e };
    assert(w * w <= m) by (nonlinear_arith)
        requires
            m == d * e,
            w == d || w == e,
            w <= d,
            w <= e,
            w >= 2,
    ;
    let q = lemma_prime_factor(w);
    lemma_divides_trans(q, w, m);
    assert(q * q <= w * w) by (nonlinear_arith)
        requires
            2 <= q <= w,
    ;
    q
}

/// A power of a residue that is non-zero modulo a prime stays non-zero.
pub proof fn lemma_pow_nonzero(g: int, e: nat, p: int)
    requires
        is_prime(p),
        g % p != 0,
    ensures
        pow(g, e) % p != 0,
    decreases e,
{
    if e == 0 {
        lemma_pow0(g);
        lemma_small_mod(1, p as nat);
    } else {
        lemma_pow_nonzero(g, (e - 1) as nat, p);
        lemma_pow_adds(g, (e - 1) as nat, 1);
        lemma_pow1(g);
        lemma_product_nonzero(pow(g, (e - 1) as nat), g, p);
    }
}

/// A power of a residue congruent to 1 is congruent to 1.
pub proof fn lemma_pow_of_one(x: int, k: nat, p: int)
    requires
        p >= 2,
        x % p == 1,
    ensures
        pow(x, k) % p == 1,
{
    lemma_pow_mod_noop(x, k, p);
    lemma1_pow(k);
    lemma_small_mod(1, p as nat);
}

/// `g` passes the primitive-root test modulo `p`: for every prime `q` dividing
/// `p - 1`, `g^((p-1)/q)` is not 1 modulo `p`.
pub open spec fn passes_root_test(g: int, p: int) -> bool {
    forall|q: int|
        #![trigger is_prime(q), (p - 1) % q]
        is_prime(q) && (p - 1) % q == 0 ==> pow(g, ((p - 1) / q) as nat) % p != 1
}

proof fn lemma_order_witness(g: int, p: int, j: int) -> (q: int)
    requires
        is_prime(p),
        g % p != 0,
        0 < j < p - 1,
        pow(g, j as nat) % p == 1,
    ensures
        is_prime(q),
        (p - 1) % q == 0,
        pow(g, ((p - 1) / q) as nat) % p == 1,
    decreases j,
{
    let n = p - 1;
    let k = n / j;
    let r = n % j;
    lemma_fundamental_div_mod(n, j);
    lemma_mod_bound(n, j);
    assert(n == j * k + r);
    assert(k >= 0) by (nonlinear_arith)
        requires
            n == j * k + r,
            0 <= r < j,
            n > 0,
    ;
    // g^n = (g^j)^k * g^r
    lemma_pow_multiplies(g, j as nat, k as nat);
    lemma_pow_adds(g, (j * k) as nat, r as nat);
    let gj = pow(g, j as nat);
    lemma_pow_of_one(gj, k as nat, p);
    let a = pow(gj, k as nat);
    let b = pow(g, r as nat);
    assert(pow(g, n as nat) == a * b);
    lemma_fermat(g, p);
    lemma_mul_mod_noop_left(a, b, p);
    assert((1 * b) == b);
    if r > 0 {
        lemma_order_witness(g, p, r)
    } else {
        assert(n == j * k);
        assert(k >= 2) by (nonlinear_arith)
            requires
                n == j * k,
                0 < j < n,
        ;
        let q = lemma_prime_factor(k);
        lemma_fundamental_div_mod(k, q);
        let t = k / q;
        assert(k == q * t);
        assert(n == q * (j * t)) by (nonlinear_arith)
            requires
                n == j * k,
                k == q * t,
        ;
        lemma_mod_multiples_basic(j * t, q);
        assert(n == (j * t) * q) by (nonlinear_arith)
            requires
                n == q * (j * t),
        ;
        lemma_div_multiples_vanish(j * t, q);
        assert(n / q == j * t) by {
            assert(q * (j * t) == n);
        }
        assert(t >= 0) by (nonlinear_arith)
            requires
                k == q * t,
                k >= 2,
                q >= 2,
        ;
        lemma_pow_multiplies(g, j as nat, t as nat);
        lemma_pow_of_one(gj, t as nat, p);
        q
    }
}

/// A residue passing the primitive-root test modulo a prime has order exactly `p - 1`.
pub proof fn lemma_root_order(g: int, p: int, j: int)
    requires
        is_prime(p),
        g % p != 0,
        passes_root_test(g, p),
        0 < j < p - 1,
    ensures
        pow(g, j as nat) % p != 1,
{
    if pow(g, j as nat) % p == 1 {
        let q = lemma_order_witness(g, p, j);
        assert(is_prime(q));
    }
}


/// The residues `g^0, g^1, ..., g^(p-2)` modulo `p`.
pub open spec fn orbit(g: int, p: int) -> Seq<int> {
    Seq::new((p - 1) as nat, |j: int| pow(g, j as nat) % p)
}

/// The powers of a residue passing the primitive-root test run through every
/// non-zero residue exactly once.
pub proof fn lemma_orbit_permutation(g: int, p: int)
    requires
        is_prime(p),
        g % p != 0,
        passes_root_test(g, p),
    ensures
        orbit(g, p).no_duplicates(),
        one_to(p - 1).no_duplicates(),
        orbit(g, p).to_set() == one_to(p - 1).to_set(),
        forall|j: int| 0 <= j < p - 1 ==> 1 <= #[trigger] orbit(g, p)[j] < p,
{
    let s = orbit(g, p);
    assert forall|j: int| 0 <= j < p - 1 implies 1 <= #[trigger] s[j] <= p - 1 by {
        lemma_pow_nonzero(g, j as nat, p);
        lemma_mod_bound(pow(g, j as nat), p);
    }
    assert forall|i: int, j: int| 0 <= i < s.len() && 0 <= j < s.len() && i != j implies s[i]
        != s[j] by {
        if s[i] == s[j] {
            let lo = if i < j { i } else { j };
            let hi = if i < j { j } else { i };
            let d = hi - lo;
            lemma_pow_adds(g, lo as nat, d as nat);
            let a = pow(g, lo as nat);
            lemma_pow_nonzero(g, lo as nat, p);
            assert(pow(g, hi as nat) == a * pow(g, d as nat));
            assert(a * pow(g, d as nat) == pow(g, d as nat) * a) by (nonlinear_arith);
            assert(1 * a == a);
            lemma_cancel(pow(g, d as nat), 1, a, p);
            lemma_small_mod(1, p as nat);
            lemma_root_order(g, p, d);
        }
    }
    lemma_pigeonhole(s, p - 1);
}

/// The Fermat quotient of `a` modulo `p`, read off `a^(p-1)` modulo `p^2`.
pub open spec fn fermat_quotient(a: int, p: int) -> int {
    (pow(a, (p - 1) as nat) % (p * p) - 1) / p
}

/// `(1 + p*s) mod p^2 == 1 + p*(s mod p)`.
proof fn lemma_one_plus_mod(s: int, p: int)
    requires
        p >= 2,
    ensures
        (1 + p * s) % (p * p) == 1 + p * (s % p),
        0 <= s % p < p,
        (p * (s % p)) / p == s % p,
{
    lemma_fundamental_div_mod(s, p);
    lemma_mod_bound(s, p);
    let t = s / p;
    let r = s % p;
    assert(1 + p * s == (p * p) * t + (1 + p * r)) by (nonlinear_arith)
        requires
            s == p * t + r,
    ;
    assert(0 <= 1 + p * r < p * p) by (nonlinear_arith)
        requires
            0 <= r < p,
            p >= 2,
    ;
    lemma_mod_multiples_vanish(t, 1 + p * r, p * p);
    lemma_small_mod((1 + p * r) as nat, (p * p) as nat);
    assert(p * r == r * p) by (nonlinear_arith);
    lemma_div_multiples_vanish(r, p);
}

/// For `p` prime and `p` not dividing `x`: `x^(p-1) == 1 + p*q_p(x)` modulo `p^2`.
pub proof fn lemma_quotient_decompose(x: int, p: int)
    requires
        is_prime(p),
        x % p != 0,
    ensures
        pow(x, (p - 1) as nat) % (p * p) == 1 + p * fermat_quotient(x, p),
        0 <= fermat_quotient(x, p) < p,
{
    let big = pow(x, (p - 1) as nat);
    lemma_fermat(x, p);
    assert(p * p > 0) by (nonlinear_arith)
        requires
            p >= 2,
    ;
    lemma_mod_mod(big, p, p);
    let r = big % (p * p);
    lemma_mod_bound(big, p * p);
    lemma_fundamental_div_mod(r, p);
    assert(r == p * (r / p) + 1);
    let t = r / p;
    assert(r - 1 == t * p) by (nonlinear_arith)
        requires
            r == p * t + 1,
    ;
    lemma_div_multiples_vanish(t, p);
    assert((r - 1) / p == t) by {
        assert(p * t == t * p) by (nonlinear_arith);
    }
    assert(0 <= t < p) by (nonlinear_arith)
        requires
            r == p * t + 1,
            0 <= r < p * p,
            p >= 2,
    ;
}

/// A value congruent to `1 + p*t` modulo `p^2` has Fermat-quotient digit `t mod p`.
proof fn lemma_quotient_of_residue(x: int, p: int, t: int)
    requires
        p >= 2,
        pow(x, (p - 1) as nat) % (p * p) == (1 + p * t) % (p * p),
    ensures
        fermat_quotient(x, p) == t % p,
{
    lemma_one_plus_mod(t, p);
    let r = t % p;
    assert((1 + p * r - 1) == p * r);
}

/// The Fermat quotient is logarithmic: `q_p(xy) == q_p(x) + q_p(y)` modulo `p`.
pub proof fn lemma_quotient_product(x: int, y: int, p: int)
    requires
        is_prime(p),
        x % p != 0,
        y % p != 0,
    ensures
        fermat_quotient(x * y, p) == (fermat_quotient(x, p) + fermat_quotient(y, p)) % p,
{
    let n = (p - 1) as nat;
    let m = p * p;
    assert(m > 0) by (nonlinear_arith)
        requires
            p >= 2,
            m == p * p,
    ;
    lemma_quotient_decompose(x, p);
    lemma_quotient_decompose(y, p);
    let fx = fermat_quotient(x, p);
    let fy = fermat_quotient(y, p);
    let bx = pow(x, n);
    let by_ = pow(y, n);
    lemma_pow_distributes(x, y, n);
    assert(pow(x * y, n) == bx * by_);
    lemma_mul_mod_noop_general(bx, by_, m);
    assert((1 + p * fx) * (1 + p * fy) == m * (fx * fy) + (1 + p * (fx + fy))) by (nonlinear_arith)
        requires
            m == p * p,
    ;
    lemma_mod_multiples_vanish(fx * fy, 1 + p * (fx + fy), m);
    lemma_quotient_of_residue(x * y, p, fx + fy);
}

/// `(c + k p)^(n+1) == c^(n+1) + (n+1) c^n k p` modulo `p^2`.
proof fn lemma_shifted_power(c: int, k: int, p: int, n: nat)
    requires
        p >= 2,
    ensures
        pow(c + k * p, n + 1) % (p * p) == (pow(c, n + 1) + (n + 1) * pow(c, n) * k * p) % (p
            * p),
    decreases n,
{
    let m = p * p;
    assert(m > 0) by (nonlinear_arith)
        requires
            p >= 2,
            m == p * p,
    ;
    let x = c + k * p;
    lemma_pow_adds(x, n, 1);
    lemma_pow1(x);
    lemma_pow_adds(c, n, 1);
    lemma_pow1(c);
    if n == 0 {
        lemma_pow0(x);
        lemma_pow0(c);
        assert(pow(x, 1) == x);
        assert(pow(c, 1) == c);
        assert((n + 1) * pow(c, n) * k * p == k * p) by (nonlinear_arith)
            requires
                n == 0,
                pow(c, n) == 1,
        ;
    } else {
        let n1 = (n - 1) as nat;
        lemma_shifted_power(c, k, p, n1);
        let a = pow(x, n);
        let cn = pow(c, n);
        let cn1 = pow(c, n1);
        lemma_pow_adds(c, n1, 1);
        assert(cn == cn1 * c);
        let b = cn + n * cn1 * k * p;
        assert(a % m == b % m);
        // x * a == x * b modulo m
        lemma_mul_mod_noop_right(x, a, m);
        lemma_mul_mod_noop_right(x, b, m);
        assert(pow(x, n + 1) == a * x);
        assert(a * x == x * a) by (nonlinear_arith);
        let kp = k * p;
        let dd = n * cn1 * k * p;
        assert(x * b == c * cn + c * dd + kp * cn + kp * dd) by (nonlinear_arith)
            requires
                x == c + kp,
                b == cn + dd,
        ;
        assert(c * dd == n * (cn1 * c) * k * p) by (nonlinear_arith)
            requires
                dd == n * cn1 * k * p,
        ;
        assert(kp * dd == (n * cn1 * k * k) * (p * p)) by (nonlinear_arith)
            requires
                dd == n * cn1 * k * p,
                kp == k * p,
        ;
        assert(kp * cn == k * p * cn) by (nonlinear_arith)
            requires
                kp == k * p,
        ;
        assert(x * b == c * cn + n * (cn1 * c) * k * p + k * p * cn + (n * cn1 * k * k) * (p * p));
        assert(n * (cn1 * c) * k * p + k * p * cn == (n + 1) * cn * k * p) by (nonlinear_arith)
            requires
                cn == cn1 * c,
        ;
        assert(c * cn == cn * c) by (nonlinear_arith);
        assert(x * b == m * (n * cn1 * k * k) + (cn * c + (n + 1) * cn * k * p)) by (nonlinear_arith)
            requires
                x * b == c * cn + n * (cn1 * c) * k * p + k * p * cn + (n * cn1 * k * k) * (p * p),
                n * (cn1 * c) * k * p + k * p * cn == (n + 1) * cn * k * p,
                c * cn == cn * c,
                m == p * p,
        ;
        lemma_mod_multiples_vanish(n * cn1 * k * k, cn * c + (n + 1) * cn * k * p, m);
        assert(pow(c, n + 1) == cn * c);
    }
}

/// Shifting by a multiple of `p`: `q_p(c + kp) == q_p(c) - k c^(p-2)` modulo `p`.
pub proof fn lemma_quotient_shift(c: int, k: int, p: int)
    requires
        is_prime(p),
        c % p != 0,
    ensures
        fermat_quotient(c + k * p, p) == (fermat_quotient(c, p) + (p - 1) * pow(c, (p - 2) as nat) * k)
            % p,
{
    let m = p * p;
    let n = (p - 2) as nat;
    lemma_shifted_power(c, k, p, n);
    assert(n + 1 == (p - 1) as nat);
    lemma_quotient_decompose(c, p);
    let fc = fermat_quotient(c, p);
    let w = pow(c, n);
    let big = pow(c, (p - 1) as nat);
    assert(m > 0) by (nonlinear_arith)
        requires
            p >= 2,
            m == p * p,
    ;
    // (big + (p-1) w k p) % m == (1 + p*(fc + (p-1) w k)) % m
    lemma_add_mod_noop(big, (p - 1) * w * k * p, m);
    lemma_add_mod_noop(1 + p * fc, (p - 1) * w * k * p, m);
    lemma_small_mod((1 + p * fc) as nat, m as nat);
    assert((1 + p * fc) + (p - 1) * w * k * p == 1 + p * (fc + (p - 1) * w * k)) by (nonlinear_arith);
    lemma_quotient_of_residue(c + k * p, p, fc + (p - 1) * w * k);
}


/// For `p` prime and `p` not dividing `a`, `a^(p-1)` is non-zero modulo `p^2`, so the
/// Fermat quotient can be read off it.
pub proof fn lemma_quotient_defined(a: int, p: int)
    requires
        is_prime(p),
        a % p != 0,
    ensures
        pow(a, (p - 1) as nat) % (p * p) != 0,
{
    lemma_fermat(a, p);
    lemma_mod_mod(pow(a, (p - 1) as nat), p, p);
    if pow(a, (p - 1) as nat) % (p * p) == 0 {
        lemma_small_mod(0, p as nat);
    }
}

/// Some residue in `[2, p)` passes the primitive-root test modulo `p`.
pub open spec fn has_primitive_root(p: int) -> bool {
    exists|g: int| 2 <= g < p && passes_root_test(g, p)
}

/// The least residue in `[2, p)` passing the primitive-root test.
pub open spec fn least_primitive_root(p: int) -> int {
    choose|g: int|
        2 <= g < p && passes_root_test(g, p) && forall|h: int|
            2 <= h < g ==> !#[trigger] passes_root_test(h, p)
}

/// A least passing residue is the one `least_primitive_root` names.
pub proof fn lemma_least_root_unique(g: int, p: int)
    requires
        2 <= g < p,
        passes_root_test(g, p),
        forall|h: int| 2 <= h < g ==> !#[trigger] passes_root_test(h, p),
    ensures
        least_primitive_root(p) == g,
{
    let r = least_primitive_root(p);
    assert(2 <= r < p && passes_root_test(r, p) && forall|h: int|
        2 <= h < r ==> !#[trigger] passes_root_test(h, p));
    if r < g {
        assert(!passes_root_test(r, p));
    }
    if g < r {
        assert(!passes_root_test(g, p));
    }
}


/// Every `a` in `[1, p)` has `a^(p-1)` non-zero modulo `p^2`, so every Fermat quotient
/// modulo `p` can be read off `a^(p-1) mod p^2`.
pub open spec fn quotients_defined(p: int) -> bool {
    forall|a: int| 1 <= a < p ==> #[trigger] pow(a, (p - 1) as nat) % (p * p) != 0
}

/// Every prime has all its Fermat quotients defined.
pub proof fn lemma_prime_quotients_defined(p: int)
    requires
        is_prime(p),
    ensures
        quotients_defined(p),
{
    assert forall|a: int| 1 <= a < p implies #[trigger] pow(a, (p - 1) as nat) % (p * p) != 0 by {
        lemma_small_mod(a as nat, p as nat);
        lemma_quotient_defined(a, p);
    }
}

/// The Wilson quotient modulo `p`: `(((p-1)! mod p^2) + 1) / p mod p`.
pub open spec fn wilson_quotient(p: int) -> int {
    ((product(one_to(p - 1)) % (p * p) + 1) / p) % p
}


/// Every `a` in `[1, p)` has `a^(p-1)` non-zero modulo `p^3`.
pub open spec fn cube_quotients_defined(p: int) -> bool {
    forall|a: int| 1 <= a < p ==> #[trigger] pow(a, (p - 1) as nat) % (p * p * p) != 0
}

/// Every prime has `a^(p-1)` non-zero modulo `p^3` for `a` in `[1, p)`.
pub proof fn lemma_prime_cube_quotients_defined(p: int)
    requires
        is_prime(p),
    ensures
        cube_quotients_defined(p),
{
    assert forall|a: int| 1 <= a < p implies #[trigger] pow(a, (p - 1) as nat) % (p * p * p) != 0 by {
        lemma_small_mod(a as nat, p as nat);
        lemma_fermat(a, p);
        assert(p * p > 0) by (nonlinear_arith)
            requires
                p >= 2,
        ;
        assert(p * (p * p) == p * p * p) by (nonlinear_arith);
        lemma_mod_mod(pow(a, (p - 1) as nat), p, p * p);
        if pow(a, (p - 1) as nat) % (p * p * p) == 0 {
            lemma_small_mod(0, p as nat);
        }
    }
}


/// The inverse of `a` modulo `p`, as `a^(p-2) mod p`.
pub open spec fn inverse(a: int, p: int) -> int {
    pow(a, (p - 2) as nat) % p
}

proof fn lemma_inverse(a: int, p: int)
    requires
        is_prime(p),
        1 <= a < p,
    ensures
        1 <= inverse(a, p) < p,
        (a * inverse(a, p)) % p == 1,
        inverse(inverse(a, p), p) == a,
        inverse(a, p) == a <==> (a == 1 || a == p - 1),
{
    let b = inverse(a, p);
    lemma_small_mod(a as nat, p as nat);
    lemma_fermat(a, p);
    lemma_pow_adds(a, 1, (p - 2) as nat);
    lemma_pow1(a);
    lemma_mul_mod_noop_right(a, pow(a, (p - 2) as nat), p);
    assert((a * b) % p == 1);
    lemma_pow_nonzero(a, (p - 2) as nat, p);
    lemma_mod_bound(pow(a, (p - 2) as nat), p);
    assert(1 <= b < p);
    // b's inverse is a
    let c = inverse(b, p);
    lemma_small_mod(b as nat, p as nat);
    lemma_fermat(b, p);
    lemma_pow_adds(b, 1, (p - 2) as nat);
    lemma_pow1(b);
    lemma_mul_mod_noop_right(b, pow(b, (p - 2) as nat), p);
    assert((b * c) % p == 1);
    lemma_pow_nonzero(b, (p - 2) as nat, p);
    lemma_mod_bound(pow(b, (p - 2) as nat), p);
    assert(c * b == b * c) by (nonlinear_arith);
    assert(a * b == b * a) by (nonlinear_arith);
    assert((c * b) % p == (a * b) % p);
    lemma_cancel(c, a, b, p);
    lemma_small_mod(c as nat, p as nat);
    // self-inverse residues are 1 and p - 1
    if b == a {
        assert((a * a - 1) % p == 0) by {
            lemma_mod_equivalence(a * a, 1, p);
            lemma_small_mod(1, p as nat);
        }
        assert(a * a - 1 == (a - 1) * (a + 1)) by (nonlinear_arith);
        lemma_euclid(a - 1, a + 1, p);
        if (a - 1) % p == 0 {
            lemma_small_mod((a - 1) as nat, p as nat);
        } else {
            if a + 1 < p {
                lemma_small_mod((a + 1) as nat, p as nat);
                assert(false);
            }
        }
    }
    if a == 1 {
        lemma1_pow((p - 2) as nat);
        lemma_small_mod(1, p as nat);
    }
    if a == p - 1 {
        // (p-1)^2 == 1 (mod p), so (p-1) is its own inverse
        assert((a * a) % p == 1) by {
            assert(a * a == p * (p - 2) + 1) by (nonlinear_arith)
                requires
                    a == p - 1,
            ;
            lemma_mod_multiples_vanish(p - 2, 1, p);
            lemma_small_mod(1, p as nat);
        }
        assert((b * a) % p == (a * a) % p) by {
            assert(b * a == a * b) by (nonlinear_arith);
        }
        lemma_cancel(b, a, a, p);
        lemma_small_mod(b as nat, p as nat);
    }
}

/// Residues in `[2, p-2]` closed under inversion multiply to 1 modulo `p`.
proof fn lemma_paired_product(s: Seq<int>, p: int)
    requires
        is_prime(p),
        s.no_duplicates(),
        forall|i: int| 0 <= i < s.len() ==> 2 <= #[trigger] s[i] <= p - 2,
        forall|x: int| #[trigger] s.to_set().contains(x) ==> s.to_set().contains(inverse(x, p)),
    ensures
        product(s) % p == 1,
    decreases s.len(),
{
    if s.len() == 0 {
        lemma_small_mod(1, p as nat);
    } else {
        let x = s.last();
        assert(s.to_set().contains(x)) by {
            assert(s[s.len() - 1] == x);
        }
        lemma_inverse(x, p);
        let y = inverse(x, p);
        assert(y != x);
        let t = s.drop_last();
        lemma_to_set_drop_last(s);
        assert(t.to_set().contains(y));
        let i = choose|i: int| 0 <= i < t.len() && t[i] == y;
        let u = t.remove(i);
        lemma_to_set_remove(t, i);
        assert forall|j: int| 0 <= j < u.len() implies 2 <= #[trigger] u[j] <= p - 2 by {
            if j < i {
                assert(u[j] == t[j]);
                assert(t[j] == s[j]);
            } else {
                assert(u[j] == t[j + 1]);
                assert(t[j + 1] == s[j + 1]);
            }
        }
        assert forall|z: int| #[trigger] u.to_set().contains(z) implies u.to_set().contains(inverse(z, p)) by {
            assert(s.to_set().contains(z));
            let k = choose|k: int| 0 <= k < s.len() && s[k] == z;
            lemma_inverse(z, p);
            let iz = inverse(z, p);
            assert(s.to_set().contains(iz));
            if iz == x {
                assert(z == y);
            }
            if iz == y {
                lemma_inverse(x, p);
                assert(z == x);
            }
        }
        lemma_paired_product(u, p);
        lemma_product_remove(t, i);
        let pu = product(u);
        assert(product(s) == pu * y * x);
        assert(pu * y * x == pu * (x * y)) by (nonlinear_arith);
        lemma_mul_mod_noop_right(pu, x * y, p);
        assert(pu * 1 == pu);
    }
}

/// Wilson's theorem: `(p-1)! == -1` modulo an odd prime `p`.
pub proof fn lemma_wilson(p: int)
    requires
        is_prime(p),
        p >= 3,
    ensures
        product(one_to(p - 1)) % p == p - 1,
{
    let mid = Seq::new((p - 3) as nat, |i: int| i + 2);
    assert forall|a: int, b: int| 0 <= a < mid.len() && 0 <= b < mid.len() && a != b implies mid[a] != mid[b] by {}
    assert forall|x: int| #[trigger] mid.to_set().contains(x) implies mid.to_set().contains(inverse(x, p)) by {
        let k = choose|k: int| 0 <= k < mid.len() && mid[k] == x;
        lemma_inverse(x, p);
        let y = inverse(x, p);
        assert(y != 1 && y != p - 1) by {
            if y == 1 || y == p - 1 {
                lemma_inverse(y, p);
            }
        }
        assert(mid[y - 2] == y);
    }
    lemma_paired_product(mid, p);
    let s = one_to(p - 1);
    assert(s.drop_last() =~= one_to(p - 2));
    assert(one_to(p - 2).remove(0) =~= mid);
    lemma_product_remove(one_to(p - 2), 0);
    assert(product(one_to(p - 2)) == product(mid) * 1);
    assert(product(s) == product(mid) * (p - 1));
    lemma_mul_mod_noop_left(product(mid), p - 1, p);
    lemma_small_mod((p - 1) as nat, p as nat);
}


/// `(-1)^(p-1) == 1` and `(-1)^(p-2) == -1` for odd `p`.
pub proof fn lemma_minus_one_powers(p: int)
    requires
        p >= 3,
        p % 2 == 1,
    ensures
        pow(-1, (p - 1) as nat) == 1,
        pow(-1, (p - 2) as nat) == -1,
{
    let m = (p - 1) / 2;
    assert(p - 1 == 2 * m);
    lemma_pow_multiplies(-1, 2, m as nat);
    lemma_pow_adds(-1, 1, 1);
    lemma_pow1(-1);
    assert(pow(-1, 2) == 1);
    lemma1_pow(m as nat);
    assert((2 * m) as nat == (p - 1) as nat);
    lemma_pow_adds(-1, (p - 2) as nat, 1);
}

/// The Fermat quotient of `(p-1)!` is the Wilson quotient, modulo `p`.
pub proof fn lemma_quotient_of_factorial(p: int)
    requires
        is_prime(p),
        p >= 3,
    ensures
        fermat_quotient(product(one_to(p - 1)), p) == wilson_quotient(p),
{
    let f = product(one_to(p - 1));
    lemma_wilson(p);
    assert(p % 2 == 1) by {
        assert(p % 2 != 0);
        lemma_mod_bound(p, 2);
    }
    lemma_fundamental_div_mod(f, p);
    let k = (f + 1) / p;
    assert(f + 1 == p * (f / p) + p);
    assert(f + 1 == p * (f / p + 1)) by (nonlinear_arith)
        requires
            f + 1 == p * (f / p) + p,
    ;
    lemma_div_multiples_vanish(f / p + 1, p);
    assert(k == f / p + 1) by {
        assert(p * (f / p + 1) == (f / p + 1) * p) by (nonlinear_arith);
    }
    assert(f == -1 + k * p) by (nonlinear_arith)
        requires
            f + 1 == p * (f / p + 1),
            k == f / p + 1,
    ;
    // ((k p - 1)^(p-1)) == 1 - (p-1) k p (mod p^2)
    lemma_shifted_power(-1, k, p, (p - 2) as nat);
    lemma_minus_one_powers(p);
    assert((p - 2) as nat + 1 == (p - 1) as nat);
    assert(pow(-1, (p - 1) as nat) + ((p - 2) as nat + 1) * pow(-1, (p - 2) as nat) * k * p == 1 + p * (-(p - 1) * k))
        by (nonlinear_arith)
        requires
            pow(-1, (p - 1) as nat) == 1,
            pow(-1, (p - 2) as nat) == -1,
            (p - 2) as nat + 1 == p - 1,
    ;
    lemma_quotient_of_residue(f, p, -(p - 1) * k);
    assert(-(p - 1) * k == p * (-k) + k) by (nonlinear_arith);
    lemma_mod_multiples_vanish(-k, k, p);
    // the Wilson quotient is k mod p as well
    let m = p * p;
    assert(m > 0) by (nonlinear_arith)
        requires
            p >= 3,
            m == p * p,
    ;
    lemma_fundamental_div_mod(f, m);
    let t = f / m;
    assert(f % m + 1 == p * (k - p * t)) by (nonlinear_arith)
        requires
            f == m * t + f % m,
            f + 1 == p * k,
            m == p * p,
    ;
    lemma_div_multiples_vanish(k - p * t, p);
    assert((p * (k - p * t)) / p == k - p * t) by {
        assert(p * (k - p * t) == (k - p * t) * p) by (nonlinear_arith);
    }
    assert(k - p * t == p * (-t) + k) by (nonlinear_arith);
    lemma_mod_multiples_vanish(-t, k, p);
}

/// The Fermat quotient of a product is the sum of the Fermat quotients, modulo `p`.
pub proof fn lemma_quotient_of_product(s: Seq<int>, p: int)
    requires
        is_prime(p),
        forall|i: int| 0 <= i < s.len() ==> #[trigger] s[i] % p != 0,
    ensures
        product(s) % p != 0,
        fermat_quotient(product(s), p) == sum_by(s, |a: int| fermat_quotient(a, p)) % p,
    decreases s.len(),
{
    let f = |a: int| fermat_quotient(a, p);
    if s.len() == 0 {
        lemma_small_mod(1, p as nat);
        lemma1_pow((p - 1) as nat);
        assert(p * p > 1) by (nonlinear_arith)
            requires
                p >= 2,
        ;
        lemma_small_mod(1, (p * p) as nat);
        lemma_small_mod(0, p as nat);
    } else {
        let t = s.drop_last();
        let y = s.last();
        assert(y == s[s.len() - 1]);
        lemma_quotient_of_product(t, p);
        let x = product(t);
        lemma_product_nonzero(x, y, p);
        lemma_quotient_product(x, y, p);
        lemma_add_mod_noop(sum_by(t, f), fermat_quotient(y, p), p);
        lemma_mod_twice(sum_by(t, f), p);
        lemma_quotient_decompose(y, p);
        lemma_small_mod(fermat_quotient(y, p) as nat, p as nat);
    }
}

} // verus!
