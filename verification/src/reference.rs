//! The definition-based reference computation, one exponentiation per residue.
use crate::arith::{fermat_quotient_mod_p, mul_mod};
use crate::number_theory::{
    fermat_quotient, one_to, product, quotients_defined, sum_by, wilson_quotient,
};
use crate::recurrence::{lerch_remainder_of, quotient_power};
use vstd::arithmetic::div_mod::{
    lemma_add_mod_noop, lemma_mod_bound, lemma_mod_twice, lemma_mul_mod_noop_left,
    lemma_mul_mod_noop_general, lemma_small_mod,
};
use vstd::arithmetic::power::{lemma_pow1, lemma_pow_adds, lemma_square_is_pow2, pow};
use vstd::prelude::*;

verus! {

/// Moments, Wilson quotient and Lerch remainder computed from the definitions.
#[derive(Clone, Debug, PartialEq, Eq)]
pub struct DirectInvariants {
    pub q1: u64,
    pub q2: u64,
    pub q3: Option<u64>,
    pub q4: Option<u64>,
    pub wilson: u64,
    pub lerch_remainder: u64,
}

/// `q_p(1), ..., q_p(p-1)` modulo `p`, each from its own exponentiation.
pub fn direct_values(p: u64) -> (values: Vec<u64>)
    requires
        p as int * p as int <= u64::MAX,
        quotients_defined(p as int),
    ensures
        values@.len() == (if p == 0 { 0 } else { p - 1 }),
        forall|i: int| 0 <= i < values@.len() ==> #[trigger] values@[i] as int == fermat_quotient(i + 1, p as int),
{
    let mut values: Vec<u64> = Vec::new();
    let mut a: u64 = 1;
    while a < p
        invariant
            p as int * p as int <= u64::MAX,
            quotients_defined(p as int),
            1 <= a,
            a <= p || (p == 0 && a == 1),
            values@.len() == a - 1,
            forall|i: int| 0 <= i < values@.len() ==> #[trigger] values@[i] as int == fermat_quotient(i + 1, p as int),
        decreases p - a,
    {
        proof {
            assert(pow(a as int, (p - 1) as nat) % (p as int * p as int) != 0);
        }
        let q = fermat_quotient_mod_p(a, p);
        values.push(q);
        a = a + 1;
    }
    proof {
        assert(values@.len() == a - 1);
        if p >= 1 {
            assert(a == p);
            assert(values@.len() == p - 1);
        } else {
            assert(values@.len() == 0);
        }
    }
    values
}

proof fn lemma_sum_step(s: Seq<int>, f: spec_fn(int) -> int, j: int)
    requires
        0 <= j < s.len(),
    ensures
        sum_by(s.take(j + 1), f) == sum_by(s.take(j), f) + f(s[j]),
{
    assert(s.take(j + 1).drop_last() =~= s.take(j));
}

proof fn lemma_fold(total: int, acc: int, t: int, x: int, p: int)
    requires
        p > 0,
        acc == total % p,
        t % p == x % p,
    ensures
        (acc + t) % p == (total + x) % p,
{
    lemma_add_mod_noop(acc, t, p);
    lemma_mod_twice(total, p);
    lemma_add_mod_noop(total, x, p);
}

/// The moments `Q1..Q4` (the optional ones when enabled) and the Wilson quotient of `p`,
/// each Fermat quotient from its own exponentiation modulo `p^2`.
pub(crate) fn definition_moments(p: u64, q3_enabled: bool, q4_enabled: bool) -> (r: (
    u64,
    u64,
    Option<u64>,
    Option<u64>,
    u64,
))
    requires
        3 <= p,
        p as int * p as int <= u64::MAX,
        quotients_defined(p as int),
    ensures
        r.0 as int == sum_by(one_to(p - 1), quotient_power(p as int, 1)) % (p as int),
        r.1 as int == sum_by(one_to(p - 1), quotient_power(p as int, 2)) % (p as int),
        r.2 == if q3_enabled {
            Some((sum_by(one_to(p - 1), quotient_power(p as int, 3)) % (p as int)) as u64)
        } else {
            None
        },
        r.3 == if q4_enabled {
            Some((sum_by(one_to(p - 1), quotient_power(p as int, 4)) % (p as int)) as u64)
        } else {
            None
        },
        r.4 as int == wilson_quotient(p as int),
        r.1 < p,
        r.4 < p,
{
    let ghost pi = p as int;
    let ghost s = one_to(pi - 1);
    let ghost f1 = quotient_power(pi, 1);
    let ghost f2 = quotient_power(pi, 2);
    let ghost f3 = quotient_power(pi, 3);
    let ghost f4 = quotient_power(pi, 4);
    proof {
        lemma_small_mod(0, p as nat);
        assert(pi < 0x1_0000_0000) by (nonlinear_arith)
            requires
                pi * pi <= u64::MAX,
                pi >= 3,
        ;
    }
    let p2 = p * p;
    let mut q1: u64 = 0;
    let mut q2: u64 = 0;
    let mut q3: u64 = 0;
    let mut q4: u64 = 0;
    let mut a: u64 = 1;
    while a < p
        invariant
            pi == p as int,
            3 <= p,
            p < 0x1_0000_0000,
            p2 as int == pi * pi,
            pi * pi <= u64::MAX,
            quotients_defined(pi),
            s == one_to(pi - 1),
            f1 == quotient_power(pi, 1),
            f2 == quotient_power(pi, 2),
            f3 == quotient_power(pi, 3),
            f4 == quotient_power(pi, 4),
            1 <= a <= p,
            q1 < p,
            q2 < p,
            q3 < p,
            q4 < p,
            q1 as int == sum_by(s.take(a - 1), f1) % pi,
            q2 as int == sum_by(s.take(a - 1), f2) % pi,
            q3_enabled ==> q3 as int == sum_by(s.take(a - 1), f3) % pi,
            q4_enabled ==> q4 as int == sum_by(s.take(a - 1), f4) % pi,
        decreases p - a,
    {
        proof {
            assert(pow(a as int, (p - 1) as nat) % (pi * pi) != 0);
        }
        let q = fermat_quotient_mod_p(a, p);
        proof {
            let qi = q as int;
            let j = a - 1;
            assert(s[j as int] == a);
            lemma_sum_step(s, f1, j as int);
            lemma_sum_step(s, f2, j as int);
            lemma_sum_step(s, f3, j as int);
            lemma_sum_step(s, f4, j as int);
            lemma_pow1(qi);
            lemma_square_is_pow2(qi);
            lemma_pow_adds(qi, 2, 1);
            lemma_pow_adds(qi, 2, 2);
            assert(f1(a as int) == pow(qi, 1));
            assert(f2(a as int) == pow(qi, 2));
            assert(f3(a as int) == pow(qi, 3));
            assert(f4(a as int) == pow(qi, 4));
            lemma_fold(sum_by(s.take(j as int), f1), q1 as int, qi, pow(qi, 1), pi);
            lemma_mod_twice(pow(qi, 2), pi);
            lemma_mod_twice(pow(qi, 3), pi);
            lemma_mod_twice(pow(qi, 4), pi);
            lemma_mul_mod_noop_left(qi * qi, qi, pi);
            lemma_mul_mod_noop_general(qi * qi, qi * qi, pi);
            lemma_fold(sum_by(s.take(j as int), f2), q2 as int, (qi * qi) % pi, pow(qi, 2), pi);
            if q3_enabled {
                lemma_fold(sum_by(s.take(j as int), f3), q3 as int, (((qi * qi) % pi) * qi) % pi, pow(qi, 3), pi);
            }
            if q4_enabled {
                lemma_fold(sum_by(s.take(j as int), f4), q4 as int, (((qi * qi) % pi) * ((qi * qi) % pi)) % pi, pow(qi, 4), pi);
            }
        }
        q1 = (q1 + q) % p;
        let square = mul_mod(q, q, p);
        q2 = (q2 + square) % p;
        if q3_enabled {
            q3 = (q3 + mul_mod(square, q, p)) % p;
        }
        if q4_enabled {
            q4 = (q4 + mul_mod(square, square, p)) % p;
        }
        a = a + 1;
    }
    proof {
        assert(s.take(pi - 1) =~= s);
    }
    let mut factorial: u64 = 1;
    let mut b: u64 = 2;
    proof {
        assert(one_to(1).drop_last() =~= one_to(0));
        assert(one_to(1).last() == 1);
        assert(product(one_to(0)) == 1);
        assert(product(one_to(1)) == 1);
        assert(pi * pi > 1) by (nonlinear_arith)
            requires
                pi >= 3,
        ;
        lemma_small_mod(1, p2 as nat);
    }
    while b < p
        invariant
            pi == p as int,
            3 <= p,
            p2 as int == pi * pi,
            pi * pi <= u64::MAX,
            2 <= b <= p,
            factorial < p2,
            factorial as int == product(one_to(b - 1)) % (pi * pi),
        decreases p - b,
    {
        proof {
            assert(one_to(b as int).drop_last() =~= one_to(b - 1));
            assert(one_to(b as int).last() == b);
            lemma_mul_mod_noop_left(product(one_to(b - 1)), b as int, pi * pi);
        }
        factorial = mul_mod(factorial, b, p2);
        b = b + 1;
    }
    let wilson = ((factorial + 1) / p) % p;
    proof {
        lemma_mod_bound(wilson as int, pi);
    }
    (q1, q2, if q3_enabled { Some(q3) } else { None }, if q4_enabled { Some(q4) } else { None }, wilson)
}

/// The moments `Q1..Q4`, the Wilson quotient and the Lerch remainder of `p`, each
/// Fermat quotient from its own exponentiation modulo `p^2`.
pub fn direct_invariants(p: u64, q3_enabled: bool, q4_enabled: bool) -> (r: DirectInvariants)
    requires
        3 <= p <= 4_000_000_000,
        quotients_defined(p as int),
    ensures
        r.q1 as int == sum_by(one_to(p - 1), quotient_power(p as int, 1)) % (p as int),
        r.q2 as int == sum_by(one_to(p - 1), quotient_power(p as int, 2)) % (p as int),
        r.q3 == if q3_enabled {
            Some((sum_by(one_to(p - 1), quotient_power(p as int, 3)) % (p as int)) as u64)
        } else {
            None
        },
        r.q4 == if q4_enabled {
            Some((sum_by(one_to(p - 1), quotient_power(p as int, 4)) % (p as int)) as u64)
        } else {
            None
        },
        r.wilson as int == wilson_quotient(p as int),
        r.lerch_remainder as int == lerch_remainder_of(r.wilson as int, r.q2 as int, p as int),
{
    proof {
        assert(p as int * p as int <= 4_000_000_000 * 4_000_000_000) by (nonlinear_arith)
            requires
                0 <= p <= 4_000_000_000,
        ;
    }
    let (q1, q2, q3, q4, wilson) = definition_moments(p, q3_enabled, q4_enabled);
    let square = mul_mod(wilson, wilson, p);
    let rhs = (q2 + square + 2 * (p - wilson)) % p;
    let lerch_remainder = mul_mod(rhs, (p + 1) / 2, p);
    DirectInvariants { q1, q2, q3, q4, wilson, lerch_remainder }
}

} // verus!
