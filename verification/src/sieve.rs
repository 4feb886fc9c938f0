//! Integer square roots and sieves of Eratosthenes.
use crate::arith::{covers_primes, sorted_primes};
use crate::number_theory::{is_prime, lemma_small_prime_factor};
use vstd::arithmetic::div_mod::{lemma_fundamental_div_mod, lemma_mod_bound};
use vstd::prelude::*;

verus! {

/// `floor(sqrt(n))`.
pub fn integer_sqrt(n: u64) -> (r: u64)
    ensures
        (r as int) * (r as int) <= n,
        n < (r as int + 1) * (r as int + 1),
{
    if n < 2 {
        assert((n as int) * (n as int) <= n && n < (n as int + 1) * (n as int + 1)) by (nonlinear_arith)
            requires
                0 <= n < 2,
        ;
        return n;
    }
    let mut lo: u64 = 1;
    let mut hi: u64 = 0x1_0000_0000;
    while hi - lo > 1
        invariant
            1 <= lo < hi <= 0x1_0000_0000,
            (lo as int) * (lo as int) <= n,
            n < (hi as int) * (hi as int),
        decreases hi - lo,
    {
        let mid = lo + (hi - lo) / 2;
        proof {
            lemma_fundamental_div_mod(n as int, mid as int);
            lemma_mod_bound(n as int, mid as int);
        }
        if mid <= n / mid {
            proof {
                assert((mid as int) * (mid as int) <= n) by (nonlinear_arith)
                    requires
                        mid as int <= (n / mid) as int,
                        n as int == (mid as int) * ((n / mid) as int) + (n as int) % (mid as int),
                        (n as int) % (mid as int) >= 0,
                        mid >= 1,
                ;
            }
            lo = mid;
        } else {
            proof {
                assert(n < (mid as int) * (mid as int)) by (nonlinear_arith)
                    requires
                        mid as int >= (n / mid) as int + 1,
                        n as int == (mid as int) * ((n / mid) as int) + (n as int) % (mid as int),
                        (n as int) % (mid as int) < mid,
                        mid >= 1,
                ;
            }
            hi = mid;
        }
    }
    lo
}

/// No `d` in `[2, q)` with `d * d <= n` divides `n`.
pub open spec fn no_small_divisor(n: int, q: int) -> bool {
    forall|d: int| 2 <= d < q && d * d <= n ==> #[trigger] (n % d) != 0
}

/// `n >= 2` is prime exactly when no `d >= 2` with `d * d <= n` divides it.
pub proof fn lemma_prime_iff_no_small_divisor(n: int, q: int)
    requires
        n >= 2,
        n < q * q,
        q >= 0,
    ensures
        is_prime(n) <==> no_small_divisor(n, q),
{
    if is_prime(n) {
        assert forall|d: int| 2 <= d < q && d * d <= n implies #[trigger] (n % d) != 0 by {
            assert(d < n) by (nonlinear_arith)
                requires
                    d >= 2,
                    d * d <= n,
            ;
        }
    }
    if no_small_divisor(n, q) && !is_prime(n) {
        let x = lemma_small_prime_factor(n);
        assert(x < q) by (nonlinear_arith)
            requires
                x * x <= n,
                n < q * q,
                x >= 2,
                q >= 0,
        ;
        assert(n % x != 0);
    }
}


/// All primes up to `limit`, in increasing order.
pub fn simple_primes(limit: u64) -> (primes: Vec<u64>)
    requires
        limit as int + 1 <= usize::MAX,
    ensures
        sorted_primes(primes@),
        forall|x: u64| #[trigger] primes@.contains(x) <==> is_prime(x as int) && x <= limit,
{
    if limit < 2 {
        let empty: Vec<u64> = Vec::new();
        proof {
            assert forall|x: u64| #[trigger] empty@.contains(x) <==> is_prime(x as int) && x <= limit by {
                if is_prime(x as int) && x <= limit {
                    assert(false);
                }
            }
        }
        return empty;
    }
    let size = limit as usize + 1;
    let mut prime: Vec<bool> = Vec::with_capacity(size);
    let mut i: usize = 0;
    while i < size
        invariant
            size == limit as int + 1,
            0 <= i <= size,
            prime@.len() == i,
            forall|k: int| 0 <= k < i ==> #[trigger] prime@[k],
        decreases size - i,
    {
        prime.push(true);
        i = i + 1;
    }
    prime.set(0, false);
    prime.set(1, false);
    let lim = limit as usize;
    let mut q: usize = 2;
    while q <= lim / q
        invariant
            lim == limit,
            size == limit as int + 1,
            prime@.len() == size,
            2 <= q,
            q <= lim + 1,
            forall|n: int| 0 <= n <= limit ==> #[trigger] prime@[n] == (n >= 2 && no_small_divisor(n, q as int)),
        decreases lim + 1 - q,
    {
        proof {
            lemma_fundamental_div_mod(lim as int, q as int);
            lemma_mod_bound(lim as int, q as int);
            assert((q as int) * (q as int) <= lim) by (nonlinear_arith)
                requires
                    q as int <= (lim / q) as int,
                    lim as int == (q as int) * ((lim / q) as int) + (lim as int) % (q as int),
                    (lim as int) % (q as int) >= 0,
                    q >= 2,
            ;
        }
        if prime[q] {
            let mut multiple = q * q;
            let mut done = false;
            proof {
                vstd::arithmetic::div_mod::lemma_mod_multiples_basic(q as int, q as int);
            }
            while !done
                invariant
                    lim == limit,
                    size == limit as int + 1,
                    prime@.len() == size,
                    2 <= q,
                    (q as int) * (q as int) <= lim,
                    (q as int) * (q as int) <= multiple,
                    multiple as int % q as int == 0,
                    multiple <= lim,
                    forall|n: int|
                        0 <= n <= limit ==> #[trigger] prime@[n] == (n >= 2 && no_small_divisor(n, q as int)
                            && !((q as int) * (q as int) <= n < (if done { lim + 1 } else { multiple as int }) && n % (q as int) == 0)),
                decreases lim - multiple, if done { 0int } else { 1int },
            {
                prime.set(multiple, false);
                proof {
                    assert forall|n: int|
                        0 <= n <= limit implies #[trigger] prime@[n] == (n >= 2 && no_small_divisor(n, q as int)
                            && !((q as int) * (q as int) <= n < multiple + q && n % (q as int) == 0)) by {
                        if multiple < n < multiple + q {
                            lemma_fundamental_div_mod(multiple as int, q as int);
                            let k = multiple as int / q as int;
                            assert(n % (q as int) != 0) by {
                                lemma_fundamental_div_mod(n, q as int);
                                lemma_mod_bound(n, q as int);
                                if n % (q as int) == 0 {
                                    let j = n / q as int;
                                    assert(false) by (nonlinear_arith)
                                        requires
                                            n == (q as int) * j,
                                            multiple as int == (q as int) * k,
                                            multiple < n < multiple + q,
                                            q >= 2,
                                    ;
                                }
                            }
                        }
                    }
                }
                if lim - multiple >= q {
                    multiple = multiple + q;
                    proof {
                        vstd::arithmetic::div_mod::lemma_mod_add_multiples_vanish((multiple - q) as int, q as int);
                    }
                } else {
                    done = true;
                }
            }
            proof {
                assert forall|n: int| 0 <= n <= limit implies #[trigger] prime@[n] == (n >= 2 && no_small_divisor(n, q + 1)) by {
                    if n >= 2 && no_small_divisor(n, q as int) {
                        if (q as int) * (q as int) <= n && n % (q as int) == 0 {
                            assert(!no_small_divisor(n, q + 1));
                        } else {
                            assert forall|d: int| 2 <= d < q + 1 && d * d <= n implies #[trigger] (n % d) != 0 by {
                                if d < q {
                                    assert(n % d != 0);
                                }
                            }
                        }
                    }
                    if no_small_divisor(n, q + 1) {
                        assert forall|d: int| 2 <= d < q && d * d <= n implies #[trigger] (n % d) != 0 by {
                            assert(n % d != 0);
                        }
                    }
                }
            }
        } else {
            proof {
                // q is composite: a divisor d of q with d*d <= q is already accounted for
                assert(!no_small_divisor(q as int, q as int));
                let d = choose|d: int| 2 <= d < q && d * d <= q && #[trigger] ((q as int) % d) == 0;
                assert forall|n: int| 0 <= n <= limit implies #[trigger] prime@[n] == (n >= 2 && no_small_divisor(n, q + 1)) by {
                    if n >= 2 && no_small_divisor(n, q as int) {
                        assert forall|e: int| 2 <= e < q + 1 && e * e <= n implies #[trigger] (n % e) != 0 by {
                            if e == q && n % e == 0 {
                                crate::number_theory::lemma_divides_trans(d, q as int, n);
                                assert(d * d <= n) by (nonlinear_arith)
                                    requires
                                        d * d <= q,
                                        (q as int) * (q as int) <= n,
                                        q >= 2,
                                ;
                                assert(n % d != 0);
                            }
                        }
                    }
                    if no_small_divisor(n, q + 1) {
                        assert forall|e: int| 2 <= e < q && e * e <= n implies #[trigger] (n % e) != 0 by {
                            assert(n % e != 0);
                        }
                    }
                }
            }
        }
        q = q + 1;
    }
    proof {
        lemma_fundamental_div_mod(lim as int, q as int);
        lemma_mod_bound(lim as int, q as int);
        assert((lim as int) < (q as int) * (q as int)) by (nonlinear_arith)
            requires
                (lim / q) as int + 1 <= q as int,
                lim as int == (q as int) * ((lim / q) as int) + (lim as int) % (q as int),
                (lim as int) % (q as int) < q,
                q >= 2,
        ;
        assert forall|n: int| 0 <= n <= limit implies #[trigger] prime@[n] == is_prime(n) by {
            if n >= 2 {
                lemma_prime_iff_no_small_divisor(n, q as int);
            }
        }
    }
    let mut primes: Vec<u64> = Vec::new();
    let mut n: usize = 0;
    while n <= lim
        invariant
            lim == limit,
            prime@.len() == lim + 1,
            0 <= n <= lim + 1,
            lim as int + 1 <= usize::MAX,
            forall|k: int| 0 <= k <= limit ==> #[trigger] prime@[k] == is_prime(k),
            sorted_primes(primes@),
            forall|a: int| 0 <= a < primes@.len() ==> #[trigger] primes@[a] < n,
            forall|x: u64| #[trigger] primes@.contains(x) <==> is_prime(x as int) && x < n,
        decreases lim + 1 - n,
    {
        if prime[n] {
            let ghost before = primes@;
            primes.push(n as u64);
            proof {
                assert forall|x: u64| #[trigger] primes@.contains(x) <==> is_prime(x as int) && x < n + 1 by {
                    if primes@.contains(x) {
                        let a = choose|a: int| 0 <= a < primes@.len() && primes@[a] == x;
                        if a < before.len() {
                            assert(before[a] == x);
                        }
                    }
                    if is_prime(x as int) && x < n + 1 {
                        if x < n {
                            assert(before.contains(x));
                            let a = choose|a: int| 0 <= a < before.len() && before[a] == x;
                            assert(primes@[a] == x);
                        } else {
                            assert(primes@[before.len() as int] == x);
                        }
                    }
                }
            }
        }
        n = n + 1;
    }
    primes
}


/// No odd entry `t[k]`, `k < i`, with `t[k]^2 <= v` divides `v`.
pub open spec fn unmarked(v: int, t: Seq<u64>, i: int) -> bool {
    forall|k: int|
        #![trigger t[k]]
        0 <= k < i ==> !(t[k] != 2 && (t[k] as int) * (t[k] as int) <= v && v % (t[k] as int) == 0)
}

/// The odd value at sieve index `j`.
pub open spec fn odd_at(first: int, j: int) -> int {
    first + 2 * j
}

proof fn lemma_odd_or(x: u64)
    ensures
        (x | 1) as int == if x % 2 == 0 { x + 1 } else { x as int },
{
    if x < u64::MAX {
        assert((x | 1) == if x % 2 == 0 { (x + 1) as u64 } else { x }) by (bit_vector)
            requires
                x < 0xffff_ffff_ffff_ffffu64,
        ;
    } else {
        assert((x | 1) == x) by (bit_vector)
            requires
                x == 0xffff_ffff_ffff_ffffu64,
        ;
    }
}

proof fn lemma_odd_bit(x: u64)
    ensures
        (x & 1 == 0) == (x % 2 == 0),
{
    assert((x & 1 == 0) == (x % 2 == 0)) by (bit_vector);
}

/// All primes in the inclusive interval `[start, end]`, in increasing order. Memory use is
/// O(end-start). `base_primes` must list, in increasing order, the primes through `sqrt(end)`.
pub fn segmented_primes(start: u64, end: u64, base_primes: &[u64]) -> (primes: Vec<u64>)
    requires
        covers_primes(base_primes@, end as int),
        end as int <= usize::MAX,
    ensures
        sorted_primes(primes@),
        forall|x: u64| #[trigger] primes@.contains(x) <==> is_prime(x as int) && start <= x <= end,
{
    let ghost t = base_primes@;
    if start > end || end < 2 {
        let empty: Vec<u64> = Vec::new();
        proof {
            assert forall|x: u64| #[trigger] empty@.contains(x) <==> is_prime(x as int) && start <= x <= end by {
                if is_prime(x as int) && start <= x <= end {
                    assert(false);
                }
            }
        }
        return empty;
    }
    let mut result: Vec<u64> = Vec::new();
    if start <= 2 && end >= 2 {
        result.push(2);
    }
    let lower = if start > 3 { start } else { 3 };
    proof {
        lemma_odd_or(lower);
    }
    let first = lower | 1;
    if first > end {
        proof {
            assert forall|x: u64| #[trigger] result@.contains(x) <==> is_prime(x as int) && start <= x <= end by {
                if is_prime(x as int) && start <= x <= end {
                    if x != 2 {
                        assert(x % 2 != 0) by {
                            if x % 2 == 0 {
                                assert((x as int) % 2 == 0);
                            }
                        }
                        assert(false);
                    }
                    assert(result@[0] == 2);
                }
                if result@.contains(x) {
                    assert(result@[0] == 2);
                    assert(is_prime(2int));
                }
            }
        }
        return result;
    }
    let count = ((end - first) / 2 + 1) as usize;
    let mut prime: Vec<bool> = Vec::with_capacity(count);
    let mut i: usize = 0;
    while i < count
        invariant
            0 <= i <= count,
            prime@.len() == i,
            forall|k: int| 0 <= k < i ==> #[trigger] prime@[k],
        decreases count - i,
    {
        prime.push(true);
        i = i + 1;
    }
    proof {
        assert forall|j: int| 0 <= j < count implies #[trigger] prime@[j] == unmarked(odd_at(first as int, j), t, 0) by {}
    }
    let mut i: usize = 0;
    let mut stopped = false;
    while i < base_primes.len() && !stopped
        invariant
            t == base_primes@,
            covers_primes(t, end as int),
            first % 2 == 1,
            3 <= first <= end,
            count as int == (end - first) / 2 + 1,
            prime@.len() == count,
            0 <= i <= t.len(),
            forall|j: int| 0 <= j < count ==> #[trigger] prime@[j] == unmarked(odd_at(first as int, j), t, i as int),
            stopped ==> i < t.len() && end < (t[i as int] as int) * (t[i as int] as int),
        decreases t.len() - i, if stopped { 0int } else { 1int },
    {
        let q = base_primes[i];
        proof {
            assert(is_prime(q as int));
        }
        if q == 2 {
            proof {
                assert forall|j: int| 0 <= j < count implies #[trigger] prime@[j] == unmarked(odd_at(first as int, j), t, i + 1) by {
                    assert(unmarked(odd_at(first as int, j), t, i as int) == unmarked(odd_at(first as int, j), t, i + 1)) by {
                        if unmarked(odd_at(first as int, j), t, i as int) {
                            assert forall|k: int| #![trigger t[k]] 0 <= k < i + 1 implies !(t[k] != 2 && (t[k] as int) * (t[k] as int) <= odd_at(first as int, j) && odd_at(first as int, j) % (t[k] as int) == 0) by {
                                if k < i {
                                    assert(!(t[k] != 2 && (t[k] as int) * (t[k] as int) <= odd_at(first as int, j) && odd_at(first as int, j) % (t[k] as int) == 0));
                                }
                            }
                        }
                    }
                }
            }
            i = i + 1;
        } else if q > end / q {
            proof {
                lemma_fundamental_div_mod(end as int, q as int);
                lemma_mod_bound(end as int, q as int);
                assert((end as int) < (q as int) * (q as int)) by (nonlinear_arith)
                    requires
                        end as int == (q as int) * ((end / q) as int) + (end as int) % (q as int),
                        (end as int) % (q as int) < q,
                        (end / q) as int + 1 <= q,
                ;
            }
            stopped = true;
        } else {
            proof {
                lemma_fundamental_div_mod(end as int, q as int);
                lemma_mod_bound(end as int, q as int);
                assert((q as int) * (q as int) <= end) by (nonlinear_arith)
                    requires
                        end as int == (q as int) * ((end / q) as int) + (end as int) % (q as int),
                        (end as int) % (q as int) >= 0,
                        q as int <= (end / q) as int,
                        q >= 2,
                ;
                assert(q < 0x1_0000_0000) by (nonlinear_arith)
                    requires
                        (q as int) * (q as int) <= end,
                        end <= u64::MAX,
                ;
                assert(q % 2 == 1) by {
                    if q % 2 == 0 {
                        assert((q as int) % 2 == 0);
                    }
                }
            }
            let q2 = q * q;
            proof {
                assert(first / q < u64::MAX) by {
                    vstd::arithmetic::div_mod::lemma_div_decreases(first as int, q as int);
                }
            }
            let rounded_up = first / q + if first % q != 0 { 1 } else { 0 };
            proof {
                lemma_fundamental_div_mod(first as int, q as int);
                lemma_mod_bound(first as int, q as int);
                assert((rounded_up as int) * (q as int) <= (first as int) + (q as int)) by (nonlinear_arith)
                    requires
                        first as int == (q as int) * ((first / q) as int) + (first as int) % (q as int),
                        (first as int) % (q as int) >= 0,
                        rounded_up as int <= (first / q) as int + 1,
                        q >= 1,
                ;
                assert((rounded_up as int) * (q as int) <= 0x1_0000_0000_0000_0000 * 0x1_0000_0000) by (nonlinear_arith)
                    requires
                        0 <= rounded_up as int <= u64::MAX,
                        0 <= q < 0x1_0000_0000,
                ;
            }
            let least_w: u128 = (rounded_up as u128) * (q as u128);
            let ghost least = least_w as int;
            proof {
                // least is the least multiple of q not below first
                assert(least >= first as int) by (nonlinear_arith)
                    requires
                        first as int == (q as int) * ((first / q) as int) + (first as int) % (q as int),
                        (first as int) % (q as int) < q,
                        rounded_up as int == (first / q) as int + (if (first as int) % (q as int) != 0 { 1int } else { 0int }),
                        least == (rounded_up as int) * (q as int),
                ;
                assert(forall|v: int| first <= v < least ==> #[trigger] (v % (q as int)) != 0) by {
                    assert forall|v: int| first <= v < least implies #[trigger] (v % (q as int)) != 0 by {
                        if v % (q as int) == 0 {
                            lemma_fundamental_div_mod(v, q as int);
                            let w = v / (q as int);
                            assert(false) by (nonlinear_arith)
                                requires
                                    v == (q as int) * w,
                                    first as int <= v < least,
                                    first as int == (q as int) * ((first / q) as int) + (first as int) % (q as int),
                                    (first as int) % (q as int) < q,
                                    (first as int) % (q as int) >= 0,
                                    rounded_up as int == (first / q) as int + (if (first as int) % (q as int) != 0 { 1int } else { 0int }),
                                    least == (rounded_up as int) * (q as int),
                                    q >= 2,
                            ;
                        }
                    }
                }
                vstd::arithmetic::div_mod::lemma_mod_multiples_basic(rounded_up as int, q as int);
                vstd::arithmetic::div_mod::lemma_mod_multiples_basic(q as int, q as int);
            }
            let m1_w: u128 = if least_w < q2 as u128 { q2 as u128 } else { least_w };
            let ghost m1 = m1_w as int;
            proof {
                assert(m1 % (q as int) == 0);
                assert(m1 <= (end as int) + (q as int));
            }
            let odd_w: u128 = if m1_w % 2 == 0 { m1_w + q as u128 } else { m1_w };
            proof {
                vstd::arithmetic::div_mod::lemma_mod_add_multiples_vanish(m1, q as int);
                assert((odd_w as int) % (q as int) == 0);
                assert(odd_w % 2 == 1) by {
                    if m1 % 2 == 0 {
                        assert((m1 + q) % 2 == 1);
                    }
                }
                assert forall|v: int|
                    first <= v < odd_w && (q as int) * (q as int) <= v && v % 2 == 1
                        implies #[trigger] (v % (q as int)) != 0 by {
                    if v % (q as int) == 0 {
                        assert(v >= least);
                        assert(v >= m1);
                        lemma_fundamental_div_mod(v, q as int);
                        lemma_fundamental_div_mod(m1, q as int);
                        let a = v / (q as int);
                        let b = m1 / (q as int);
                        assert(a == b) by (nonlinear_arith)
                            requires
                                v == (q as int) * a,
                                m1 == (q as int) * b,
                                m1 <= v < m1 + q,
                                q >= 2,
                        ;
                    }
                }
            }
            if odd_w > end as u128 {
                // no odd multiple of q from max(first, q^2) through end: nothing to mark
                proof {
                    assert forall|j: int| 0 <= j < count implies #[trigger] prime@[j] == unmarked(odd_at(first as int, j), t, i + 1) by {
                        let v = odd_at(first as int, j);
                        assert(v <= end);
                        assert(v % 2 == 1);
                        assert(!(v % (q as int) == 0 && (q as int) * (q as int) <= v));
                        if unmarked(v, t, i as int) {
                            assert forall|k: int| #![trigger t[k]] 0 <= k < i + 1 implies !(t[k] != 2 && (t[k] as int) * (t[k] as int) <= v && v % (t[k] as int) == 0) by {
                                if k < i {
                                    assert(!(t[k] != 2 && (t[k] as int) * (t[k] as int) <= v && v % (t[k] as int) == 0));
                                }
                            }
                        }
                        if unmarked(v, t, i + 1) {
                            assert forall|k: int| #![trigger t[k]] 0 <= k < i implies !(t[k] != 2 && (t[k] as int) * (t[k] as int) <= v && v % (t[k] as int) == 0) by {
                                assert(!(t[k] != 2 && (t[k] as int) * (t[k] as int) <= v && v % (t[k] as int) == 0));
                            }
                        }
                    }
                }
                i = i + 1;
            } else {
            let mut multiple = odd_w as u64;
            let ghost start_multiple = multiple as int;
            let mut done = false;
            proof {
                assert forall|j: int| 0 <= j < count implies #[trigger] prime@[j] == (unmarked(odd_at(first as int, j), t, i as int)
                    && !(odd_at(first as int, j) % (q as int) == 0 && (q as int) * (q as int) <= odd_at(first as int, j) && odd_at(first as int, j) < multiple)) by {
                    let v = odd_at(first as int, j);
                    if v % (q as int) == 0 && (q as int) * (q as int) <= v && v < multiple {
                        assert(false);
                    }
                }
            }
            while !done && multiple <= end
                invariant
                    t == base_primes@,
                            first % 2 == 1,
                    3 <= first <= end,
                    count as int == (end - first) / 2 + 1,
                    prime@.len() == count,
                    0 <= i < t.len(),
                    q == t[i as int],
                    q % 2 == 1,
                    q >= 3,
                    q < 0x1_0000_0000,
                    (q as int) * (q as int) <= end,
                    multiple % 2 == 1,
                    multiple as int % q as int == 0,
                    multiple >= first,
                    (q as int) * (q as int) <= multiple,
                    done ==> multiple as int + 2 * (q as int) > u64::MAX,
                    forall|j: int| 0 <= j < count ==> #[trigger] prime@[j] == (unmarked(odd_at(first as int, j), t, i as int)
                        && !(odd_at(first as int, j) % (q as int) == 0 && (q as int) * (q as int) <= odd_at(first as int, j)
                            && odd_at(first as int, j) < (if done { u64::MAX + 1 } else { multiple as int }))),
                decreases u64::MAX - multiple, if done { 0int } else { 1int },
            {
                let index = ((multiple - first) / 2) as usize;
                proof {
                    assert(odd_at(first as int, index as int) == multiple);
                }
                prime.set(index, false);
                let next = multiple.checked_add(2 * q);
                proof {
                    assert forall|j: int| 0 <= j < count implies #[trigger] prime@[j] == (unmarked(odd_at(first as int, j), t, i as int)
                        && !(odd_at(first as int, j) % (q as int) == 0 && (q as int) * (q as int) <= odd_at(first as int, j)
                            && odd_at(first as int, j) < multiple + 2 * (q as int))) by {
                        let v = odd_at(first as int, j);
                        if multiple < v < multiple + 2 * (q as int) && v % (q as int) == 0 {
                            lemma_fundamental_div_mod(v, q as int);
                            lemma_fundamental_div_mod(multiple as int, q as int);
                            let a = v / (q as int);
                            let b = multiple as int / (q as int);
                            assert(a == b + 1) by (nonlinear_arith)
                                requires
                                    v == (q as int) * a,
                                    multiple as int == (q as int) * b,
                                    multiple < v < multiple + 2 * (q as int),
                                    q >= 2,
                            ;
                            assert(v == multiple + q) by (nonlinear_arith)
                                requires
                                    v == (q as int) * a,
                                    multiple as int == (q as int) * b,
                                    a == b + 1,
                            ;
                            assert(v % 2 == 1);
                            assert(false);
                        }
                    }
                }
                match next {
                    Some(value) => {
                        proof {
                            vstd::arithmetic::div_mod::lemma_mod_add_multiples_vanish(multiple as int, q as int);
                            vstd::arithmetic::div_mod::lemma_mod_add_multiples_vanish(multiple as int + q as int, q as int);
                        }
                        multiple = value;
                    },
                    None => {
                        done = true;
                    },
                }
            }
            proof {
                assert forall|j: int| 0 <= j < count implies #[trigger] prime@[j] == unmarked(odd_at(first as int, j), t, i + 1) by {
                    let v = odd_at(first as int, j);
                    assert(v <= end);
                    let old_unmarked = unmarked(v, t, i as int);
                    if old_unmarked && !(v % (q as int) == 0 && (q as int) * (q as int) <= v) {
                        assert forall|k: int| #![trigger t[k]] 0 <= k < i + 1 implies !(t[k] != 2 && (t[k] as int) * (t[k] as int) <= v && v % (t[k] as int) == 0) by {
                            if k < i {
                                assert(!(t[k] != 2 && (t[k] as int) * (t[k] as int) <= v && v % (t[k] as int) == 0));
                            }
                        }
                    }
                    if unmarked(v, t, i + 1) {
                        assert(!(t[i as int] != 2 && (t[i as int] as int) * (t[i as int] as int) <= v && v % (t[i as int] as int) == 0));
                        assert forall|k: int| #![trigger t[k]] 0 <= k < i implies !(t[k] != 2 && (t[k] as int) * (t[k] as int) <= v && v % (t[k] as int) == 0) by {
                            assert(!(t[k] != 2 && (t[k] as int) * (t[k] as int) <= v && v % (t[k] as int) == 0));
                        }
                    }
                }
            }
            i = i + 1;
            }
        }
    }
    proof {
        assert forall|j: int| 0 <= j < count implies #[trigger] prime@[j] == is_prime(odd_at(first as int, j)) by {
            let v = odd_at(first as int, j);
            assert(3 <= v <= end);
            assert(v % 2 == 1);
            if unmarked(v, t, i as int) && !is_prime(v) {
                let x = lemma_small_prime_factor(v);
                assert(x <= v) by (nonlinear_arith)
                    requires
                        x * x <= v,
                        x >= 2,
                ;
                let xu = x as u64;
                assert(is_prime(xu as int));
                assert(t.contains(xu));
                let k = choose|k: int| 0 <= k < t.len() && t[k] == xu;
                assert(x != 2) by {
                    if x == 2 {
                        assert(v % 2 == 0);
                    }
                }
                if k >= i {
                    assert(stopped);
                    if k > i {
                        assert(t[i as int] < t[k]);
                    }
                    assert(false) by (nonlinear_arith)
                        requires
                            x * x <= v,
                            v <= end,
                            end < (t[i as int] as int) * (t[i as int] as int),
                            t[i as int] as int <= x,
                            x >= 2,
                    ;
                }
                assert(!(t[k] != 2 && (t[k] as int) * (t[k] as int) <= v && v % (t[k] as int) == 0));
            }
            if is_prime(v) && !unmarked(v, t, i as int) {
                let k = choose|k: int| 0 <= k < i && (t[k] != 2 && (t[k] as int) * (t[k] as int) <= v && v % (t[k] as int) == 0);
                let d = t[k] as int;
                assert(is_prime(d));
                assert(d < v) by (nonlinear_arith)
                    requires
                        d * d <= v,
                        d >= 2,
                ;
                assert(v % d != 0);
            }
        }
    }
    let ghost before = result@;
    let mut j: usize = 0;
    while j < count
        invariant
            first % 2 == 1,
            3 <= first <= end,
            count as int == (end - first) / 2 + 1,
            prime@.len() == count,
            0 <= j <= count,
            forall|k: int| 0 <= k < count ==> #[trigger] prime@[k] == is_prime(odd_at(first as int, k)),
            before.len() <= 1,
            before.len() == 1 ==> before[0] == 2,
            result@.len() >= before.len(),
            forall|a: int| 0 <= a < before.len() ==> result@[a] == before[a],
            forall|a: int| before.len() <= a < result@.len() ==> first <= #[trigger] result@[a] < first + 2 * j,
            forall|a: int, b: int| 0 <= a < b < result@.len() ==> #[trigger] result@[a] < #[trigger] result@[b],
            forall|a: int| 0 <= a < result@.len() ==> is_prime(#[trigger] result@[a] as int),
            forall|x: u64| first <= x < first + 2 * j ==> (#[trigger] result@.contains(x) <==> is_prime(x as int)),
            forall|x: u64| #[trigger] result@.contains(x) ==> x == 2 || first <= x < first + 2 * j,
        decreases count - j,
    {
        if prime[j] {
            let value = first + 2 * (j as u64);
            let ghost old_result = result@;
            result.push(value);
            proof {
                assert forall|x: u64| first <= x < first + 2 * (j + 1) implies (#[trigger] result@.contains(x) <==> is_prime(x as int)) by {
                    if x < first + 2 * j {
                        if old_result.contains(x) {
                            let a = choose|a: int| 0 <= a < old_result.len() && old_result[a] == x;
                            assert(result@[a] == x);
                        }
                        if result@.contains(x) {
                            let a = choose|a: int| 0 <= a < result@.len() && result@[a] == x;
                            if a < old_result.len() {
                                assert(old_result[a] == x);
                            }
                        }
                    } else if x == value {
                        assert(result@[old_result.len() as int] == x);
                    } else {
                        // x == value + 1, an even number
                        assert(x == first + 2 * j + 1);
                        if result@.contains(x) {
                            let a = choose|a: int| 0 <= a < result@.len() && result@[a] == x;
                            if a < old_result.len() {
                                assert(old_result.contains(x));
                            }
                        }
                        assert(x % 2 == 0);
                        assert(!is_prime(x as int)) by {
                            assert((x as int) % 2 == 0);
                            assert(x > 2);
                        }
                    }
                }
                assert forall|x: u64| #[trigger] result@.contains(x) implies x == 2 || first <= x < first + 2 * (j + 1) by {
                    let a = choose|a: int| 0 <= a < result@.len() && result@[a] == x;
                    if a < old_result.len() {
                        assert(old_result.contains(x));
                    }
                }
            }
        } else {
            proof {
                let value = first + 2 * j;
                assert forall|x: u64| first <= x < first + 2 * (j + 1) implies (#[trigger] result@.contains(x) <==> is_prime(x as int)) by {
                    if x == value {
                        assert(!prime@[j as int]);
                        if result@.contains(x) {
                            assert(false);
                        }
                    } else if x == value + 1 {
                        assert(x % 2 == 0);
                        assert(!is_prime(x as int)) by {
                            assert((x as int) % 2 == 0);
                            assert(x > 2);
                        }
                        if result@.contains(x) {
                            assert(false);
                        }
                    }
                }
            }
        }
        j = j + 1;
    }
    proof {
        assert(is_prime(2int));
        assert(first + 2 * (count - 1) <= end);
        assert(end < first + 2 * count);
        assert forall|x: u64| #[trigger] result@.contains(x) <==> is_prime(x as int) && start <= x <= end by {
            if result@.contains(x) {
                let a = choose|a: int| 0 <= a < result@.len() && result@[a] == x;
                assert(is_prime(x as int));
                if a < before.len() {
                    assert(x == 2);
                    assert(start <= 2 && end >= 2);
                } else {
                    assert(first <= x < first + 2 * count);
                    assert(x >= start);
                    if x > end {
                        assert(x == first + 2 * count - 1);
                        assert((x as int) % 2 == 0);
                        assert(x > 2);
                    }
                }
            }
            if is_prime(x as int) && start <= x <= end {
                if x == 2 {
                    assert(result@[0] == 2);
                } else {
                    assert(x % 2 == 1) by {
                        if x % 2 == 0 {
                            assert((x as int) % 2 == 0);
                        }
                    }
                    assert(x >= first);
                    assert(x < first + 2 * count);
                }
            }
        }
        assert(sorted_primes(result@));
    }
    result
}

/// Two strictly increasing lists with the same elements are equal.
proof fn lemma_increasing_unique(s: Seq<u64>, t: Seq<u64>)
    requires
        forall|i: int, j: int| 0 <= i < j < s.len() ==> #[trigger] s[i] < #[trigger] s[j],
        forall|i: int, j: int| 0 <= i < j < t.len() ==> #[trigger] t[i] < #[trigger] t[j],
        forall|x: u64| #[trigger] s.contains(x) <==> t.contains(x),
    ensures
        s == t,
    decreases s.len(),
{
    if s.len() == 0 {
        if t.len() > 0 {
            assert(t.contains(t[0]));
            assert(s.contains(t[0]));
            let k = choose|k: int| 0 <= k < s.len() && s[k] == t[0];
            assert(false);
        }
        assert(s =~= t);
    } else {
        assert(s.contains(s[s.len() - 1]));
        assert(t.len() > 0);
        assert(t.contains(t[t.len() - 1]));
        let a = s.last();
        let b = t.last();
        assert(t.contains(a));
        assert(s.contains(b));
        let i = choose|i: int| 0 <= i < t.len() && t[i] == a;
        let j = choose|j: int| 0 <= j < s.len() && s[j] == b;
        assert(a <= b) by {
            if i < t.len() - 1 {
                assert(t[i] < t[t.len() - 1]);
            }
        }
        assert(b <= a) by {
            if j < s.len() - 1 {
                assert(s[j] < s[s.len() - 1]);
            }
        }
        let s0 = s.drop_last();
        let t0 = t.drop_last();
        assert forall|x: u64| #[trigger] s0.contains(x) <==> t0.contains(x) by {
            if s0.contains(x) {
                let k = choose|k: int| 0 <= k < s0.len() && s0[k] == x;
                assert(s[k] == x && s[k] < s[s.len() - 1]);
                assert(s.contains(x));
                assert(t.contains(x));
                let m = choose|m: int| 0 <= m < t.len() && t[m] == x;
                assert(m != t.len() - 1);
                assert(t0[m] == x);
            }
            if t0.contains(x) {
                let k = choose|k: int| 0 <= k < t0.len() && t0[k] == x;
                assert(t[k] == x && t[k] < t[t.len() - 1]);
                assert(t.contains(x));
                assert(s.contains(x));
                let m = choose|m: int| 0 <= m < s.len() && s[m] == x;
                assert(m != s.len() - 1);
                assert(s0[m] == x);
            }
        }
        lemma_increasing_unique(s0, t0);
        assert(s =~= t) by {
            assert(s == s0.push(a));
            assert(t == t0.push(b));
        }
    }
}

/// A sorted list of the primes in an interval is unique: what `segmented_primes` returns
/// for `[0, n]` is what `simple_primes(n)` returns, and a segment is the simple sieve's
/// list restricted to the segment.
pub proof fn lemma_prime_lists_unique(s: Seq<u64>, t: Seq<u64>, low: u64, high: u64)
    requires
        sorted_primes(s),
        sorted_primes(t),
        forall|x: u64| #[trigger] s.contains(x) <==> is_prime(x as int) && low <= x <= high,
        forall|x: u64| #[trigger] t.contains(x) <==> is_prime(x as int) && low <= x <= high,
    ensures
        s == t,
{
    lemma_increasing_unique(s, t);
}

/// The primes of `[low, high]`, in increasing order.
pub open spec fn primes_in(low: int, high: int) -> Seq<u64>
    decreases high - low + 1,
{
    if high < low {
        Seq::empty()
    } else if is_prime(high) {
        primes_in(low, high - 1).push(high as u64)
    } else {
        primes_in(low, high - 1)
    }
}

/// `primes_in(low, high)` is sorted and holds exactly the primes of `[low, high]`.
pub proof fn lemma_primes_in(low: int, high: int)
    requires
        0 <= low,
        high <= u64::MAX,
    ensures
        sorted_primes(primes_in(low, high)),
        forall|x: u64| #[trigger] primes_in(low, high).contains(x) <==> is_prime(x as int) && low <= x <= high,
        forall|i: int| 0 <= i < primes_in(low, high).len() ==> #[trigger] primes_in(low, high)[i] <= high,
    decreases high - low + 1,
{
    if high >= low {
        lemma_primes_in(low, high - 1);
        let t = primes_in(low, high - 1);
        if is_prime(high) {
            let s = t.push(high as u64);
            assert forall|x: u64| #[trigger] s.contains(x) <==> is_prime(x as int) && low <= x <= high by {
                if x as int == high {
                    assert(s[t.len() as int] == x);
                } else if s.contains(x) {
                    let k = choose|k: int| 0 <= k < s.len() && s[k] == x;
                    assert(t[k] == x);
                    assert(t.contains(x));
                } else if is_prime(x as int) && low <= x <= high {
                    assert(t.contains(x));
                    let k = choose|k: int| 0 <= k < t.len() && t[k] == x;
                    assert(s[k] == x);
                }
            }
            assert forall|i: int, j: int| 0 <= i < j < s.len() implies #[trigger] s[i] < #[trigger] s[j] by {
                if j == t.len() {
                    assert(t[i] <= high - 1);
                } else {
                    assert(t[i] < t[j]);
                }
            }
        }
    } else {
        assert forall|x: u64| #[trigger] primes_in(low, high).contains(x) <==> is_prime(x as int) && low <= x <= high by {
            if primes_in(low, high).contains(x) {
                let k = choose|k: int| 0 <= k < primes_in(low, high).len() && primes_in(low, high)[k] == x;
            }
        }
    }
}

/// Whether `n` is prime, by sieving the one-element interval `[n, n]` with the primes
/// through `sqrt(n)`.
pub fn sieve_primality(n: u64) -> (r: bool)
    requires
        n as int <= usize::MAX,
    ensures
        r == is_prime(n as int),
{
    let root = integer_sqrt(n);
    proof {
        assert(root < 0x1_0000_0000) by (nonlinear_arith)
            requires
                root as int * root as int <= n,
                n < 0x1_0000_0000 * 0x1_0000_0000,
        ;
        assert(root as int * root as int <= n);
        if root as int + 1 > usize::MAX {
            assert(root as int * root as int >= (usize::MAX as int) * (usize::MAX as int)) by (nonlinear_arith)
                requires
                    root as int >= usize::MAX,
            ;
            assert((usize::MAX as int) * (usize::MAX as int) > usize::MAX) by (nonlinear_arith)
                requires
                    usize::MAX >= 0xffff_ffff,
            ;
        }
    }
    let base = simple_primes(root);
    proof {
        assert forall|q: u64| #![trigger is_prime(q as int)] is_prime(q as int) && q * q <= n implies base@.contains(q) by {
            if q > root {
                assert(q * q >= (root + 1) * (root + 1)) by (nonlinear_arith)
                    requires
                        q >= root + 1,
                ;
            }
        }
    }
    let primes = segmented_primes(n, n, &base);
    proof {
        if is_prime(n as int) {
            assert(primes@.contains(n));
        }
        if primes@.len() == 1 {
            assert(primes@.contains(primes@[0]));
            assert(primes@[0] == n);
        }
        if primes@.len() >= 2 {
            assert(primes@.contains(primes@[0]));
            assert(primes@.contains(primes@[1]));
            assert(primes@[0] < primes@[1]);
        }
    }
    primes.len() == 1
}

} // verus!
