//! Validation of a whole range: the recurrence against the definitions, prime by prime.
use crate::arith::covers_primes;
use crate::lerch::lemma_recurrence_agrees_with_definitions;
use crate::number_theory::{
    fermat_quotient, is_prime, lemma_prime_cube_quotients_defined, lemma_prime_quotients_defined,
};
use crate::recurrence::{recurrence_invariants, recurrence_values, Invariants, MomentOptions};
use crate::reference::{direct_invariants, direct_values, DirectInvariants};
use crate::search::{
    hits_where, lemma_covers_smaller, lerch_hit, q2_zero_hit, wilson_hit,
    SEARCH_LIMIT,
};
use crate::sieve::{
    integer_sqrt, lemma_prime_lists_unique, lemma_primes_in, primes_in, segmented_primes,
    simple_primes,
};
use crate::verify::{direct_lerch_remainder_bigint, same_moment};
use vstd::prelude::*;

verus! {

/// What a validation run found: the number of odd primes checked and the Lerch, Gy
/// (`Q2 = 0`, with 2 by convention) and Wilson primes among them.
pub struct ValidationSummary {
    pub prime_count: usize,
    pub lerch: Vec<u64>,
    pub gy: Vec<u64>,
    pub wilson: Vec<u64>,
}

/// A disagreement found by a validation run.
#[derive(Debug)]
pub enum ValidationMismatch {
    /// The recurrence's moments, Wilson quotient or Lerch remainder differ from the
    /// definitions'.
    Aggregate { p: u64, fast: Invariants, direct: DirectInvariants },
    /// A generated Fermat quotient differs from its definition.
    Value { p: u64, a: u64 },
    /// The Lerch remainder differs from the bigint Lerch quotient.
    LerchQuotient { p: u64 },
    /// The Lerch primes found are not the published ones.
    UnexpectedLerch { lerch: Vec<u64> },
}

/// Validation accumulates all four moments.
pub open spec fn validation_moments() -> MomentOptions {
    MomentOptions { q3: true, q4: true }
}

/// The published Lerch primes `3, 103, 839, 2237` below `limit`.
pub open spec fn known_lerch_below(limit: u64) -> Seq<u64> {
    (if 3 < limit { seq![3u64] } else { Seq::empty() }) + (if 103 < limit {
        seq![103u64]
    } else {
        Seq::empty()
    }) + (if 839 < limit { seq![839u64] } else { Seq::empty() }) + (if 2237 < limit {
        seq![2237u64]
    } else {
        Seq::empty()
    })
}

fn same_list(a: &Vec<u64>, b: &Vec<u64>) -> (r: bool)
    ensures
        r == (a@ == b@),
{
    if a.len() != b.len() {
        return false;
    }
    let mut k: usize = 0;
    while k < a.len()
        invariant
            a@.len() == b@.len(),
            0 <= k <= a@.len(),
            forall|i: int| 0 <= i < k ==> a@[i] == b@[i],
        decreases a@.len() - k,
    {
        if a[k] != b[k] {
            return false;
        }
        k = k + 1;
    }
    proof {
        assert(a@ =~= b@);
    }
    true
}

/// The primes through `sqrt(n)` cover every prime whose square is at most `n`.
proof fn lemma_root_primes_cover(t: Seq<u64>, r: u64, n: u64)
    requires
        r * r <= n < (r + 1) * (r + 1),
        crate::arith::sorted_primes(t),
        forall|x: u64| #[trigger] t.contains(x) <==> is_prime(x as int) && x <= r,
    ensures
        covers_primes(t, n as int),
{
    assert forall|q: u64| #![trigger is_prime(q as int)] is_prime(q as int) && q * q <= n implies t.contains(q) by {
        if q > r {
            assert(q * q >= (r + 1) * (r + 1)) by (nonlinear_arith)
                requires
                    q >= r + 1,
            ;
        }
    }
}

/// Each Fermat quotient that the recurrence generates for `p` against its own
/// exponentiation: the first residue whose two quotients differ, if any.
fn first_value_mismatch(p: u64, base: &[u64]) -> (r: Option<u64>)
    requires
        3 <= p <= SEARCH_LIMIT,
        is_prime(p as int),
        covers_primes(base@, p - 1),
    ensures
        r is None,
{
    proof {
        lemma_prime_quotients_defined(p as int);
        assert(p as int * p as int <= u64::MAX) by (nonlinear_arith)
            requires
                p <= 4_000_000_000,
        ;
    }
    let generated = recurrence_values(p, base);
    let values = direct_values(p);
    let mut j: usize = 0;
    while j < generated.len()
        invariant
            3 <= p,
            generated@.len() == p - 1,
            values@.len() == p - 1,
            forall|i: int| 0 <= i < p - 1 ==> 1 <= #[trigger] generated@[i].0 < p,
            forall|i: int|
                0 <= i < p - 1 ==> #[trigger] generated@[i].1 as int == fermat_quotient(
                    generated@[i].0 as int,
                    p as int,
                ),
            forall|i: int|
                0 <= i < values@.len() ==> #[trigger] values@[i] as int == fermat_quotient(
                    i + 1,
                    p as int,
                ),
        decreases generated@.len() - j,
    {
        let (a, q) = generated[j];
        proof {
            assert(1 <= generated@[j as int].0 < p);
            assert(values@[a - 1] as int == fermat_quotient(a as int, p as int));
        }
        if q != values[(a - 1) as usize] {
            return Some(a);
        }
        j = j + 1;
    }
    None
}

/// Checks one odd prime: its recurrence moments, Wilson quotient and Lerch remainder
/// against the definitions, each generated Fermat quotient against its own
/// exponentiation, and, when `p <= bigint_limit`, the Lerch remainder against the bigint
/// Lerch quotient. Returns the recurrence invariants.
pub fn validate_prime(p: u64, base: &[u64], bigint_limit: u64) -> (r: Result<Invariants, ValidationMismatch>)
    requires
        3 <= p <= SEARCH_LIMIT,
        is_prime(p as int),
        covers_primes(base@, p - 1),
    ensures
        r == Ok::<Invariants, ValidationMismatch>(
            crate::recurrence::prime_invariants(p as int, validation_moments()),
        ),
{
    let moments = MomentOptions { q3: true, q4: true };
    proof {
        lemma_prime_quotients_defined(p as int);
        lemma_prime_cube_quotients_defined(p as int);
        lemma_recurrence_agrees_with_definitions(p as int, moments);
        assert(p as int * p as int <= u64::MAX) by (nonlinear_arith)
            requires
                p <= 4_000_000_000,
        ;
    }
    let fast = recurrence_invariants(p, base, moments);
    let direct = direct_invariants(p, true, true);
    proof {
        vstd::arithmetic::div_mod::lemma_mod_bound(
            crate::recurrence::lerch_expression(direct.wilson as int, direct.q2 as int, p as int)
                * ((p as int + 1) / 2),
            p as int,
        );
    }
    let same_lerch = match fast.lerch_remainder {
        Some(l) => l == direct.lerch_remainder,
        None => false,
    };
    if fast.q1 != direct.q1 || fast.q2 != direct.q2 || !same_moment(fast.q3, direct.q3)
        || !same_moment(fast.q4, direct.q4) || fast.q1 != direct.wilson || !same_lerch {
        return Err(ValidationMismatch::Aggregate { p, fast, direct });
    }
    if let Some(a) = first_value_mismatch(p, base) {
        return Err(ValidationMismatch::Value { p, a });
    }
    if p <= bigint_limit {
        let direct_l = direct_lerch_remainder_bigint(p);
        let agrees = match fast.lerch_remainder {
            Some(l) => l == direct_l,
            None => false,
        };
        if !agrees {
            return Err(ValidationMismatch::LerchQuotient { p });
        }
    }
    Ok(fast)
}

/// No prime lies strictly between the search limit and `4_000_000_007`.
proof fn lemma_no_prime_past_limit(p: int)
    requires
        is_prime(p),
        p < 4_000_000_007,
    ensures
        p <= SEARCH_LIMIT,
{
    if p > SEARCH_LIMIT {
        let d = if p == 4_000_000_001 {
            47
        } else if p == 4_000_000_003 {
            23687
        } else if p == 4_000_000_005 {
            3
        } else {
            2
        };
        assert(p % d == 0);
    }
}

/// Checks every odd prime below `limit` with `validate_prime`, then the Lerch primes
/// found against the published ones.
pub fn validate_range(limit: u64, bigint_limit: u64) -> (r: Result<ValidationSummary, ValidationMismatch>)
    requires
        limit <= 4_000_000_007,
    ensures
        match r {
            Ok(v) => {
                let primes = primes_in(3, limit - 1);
                &&& v.prime_count == primes.len()
                &&& v.lerch@ == hits_where(primes, lerch_hit(validation_moments()))
                &&& v.gy@ == seq![2u64] + hits_where(primes, q2_zero_hit(validation_moments()))
                &&& v.wilson@ == hits_where(primes, wilson_hit(validation_moments()))
                &&& v.lerch@ == known_lerch_below(limit)
            },
            Err(ValidationMismatch::UnexpectedLerch { lerch }) => {
                &&& lerch@ == hits_where(primes_in(3, limit - 1), lerch_hit(validation_moments()))
                &&& lerch@ != known_lerch_below(limit)
            },
            Err(_) => false,
        },
{
    let moments = MomentOptions { q3: true, q4: true };
    let root = integer_sqrt(limit);
    proof {
        assert(root < 100_000) by (nonlinear_arith)
            requires
                root as int * root as int <= limit,
                limit <= 4_000_000_007,
        ;
    }
    let base = simple_primes(root);
    let end = if limit == 0 { 0 } else { limit - 1 };
    proof {
        lemma_root_primes_cover(base@, root, limit);
        lemma_covers_smaller(base@, limit as int, end as int);
    }
    let primes = segmented_primes(3, end, &base);
    let ghost s = primes@;
    proof {
        lemma_primes_in(3, end as int);
        lemma_prime_lists_unique(s, primes_in(3, end as int), 3, end);
        if limit == 0 {
            assert(primes_in(3, limit - 1) =~= primes_in(3, end as int));
        }
        assert(s == primes_in(3, limit - 1));
    }
    let mut lerch: Vec<u64> = Vec::new();
    let mut gy: Vec<u64> = vec![2];
    let mut wilson: Vec<u64> = Vec::new();
    let mut k: usize = 0;
    while k < primes.len()
        invariant
            s == primes@,
            s == primes_in(3, limit - 1),
            moments == validation_moments(),
            limit <= 4_000_000_007,
            covers_primes(base@, end as int),
            end as int == (if limit == 0 { 0 } else { limit - 1 }),
            forall|x: u64| #[trigger] s.contains(x) <==> is_prime(x as int) && 3 <= x <= end,
            0 <= k <= s.len(),
            lerch@ == hits_where(s.take(k as int), lerch_hit(moments)),
            gy@ == seq![2u64] + hits_where(s.take(k as int), q2_zero_hit(moments)),
            wilson@ == hits_where(s.take(k as int), wilson_hit(moments)),
        decreases s.len() - k,
    {
        let p = primes[k];
        proof {
            assert(s.contains(p));
            assert(is_prime(p as int) && 3 <= p <= end);
            lemma_covers_smaller(base@, end as int, p - 1);
            lemma_no_prime_past_limit(p as int);
        }
        let fast = match validate_prime(p, &base, bigint_limit) {
            Ok(fast) => fast,
            Err(mismatch) => {
                return Err(mismatch);
            },
        };
        let ghost before = s.take(k as int);
        proof {
            assert(s.take(k + 1).drop_last() =~= before);
            assert(s.take(k + 1).last() == p);
        }
        if fast.is_lerch {
            lerch.push(p);
        }
        if fast.is_gy_exceptional {
            gy.push(p);
        }
        if fast.is_wilson {
            wilson.push(p);
        }
        k = k + 1;
        proof {
            assert(gy@ =~= seq![2u64] + hits_where(s.take(k as int), q2_zero_hit(moments)));
        }
    }
    proof {
        assert(s.take(s.len() as int) =~= s);
    }
    let mut expected: Vec<u64> = Vec::new();
    if 3 < limit {
        expected.push(3);
    }
    if 103 < limit {
        expected.push(103);
    }
    if 839 < limit {
        expected.push(839);
    }
    if 2237 < limit {
        expected.push(2237);
    }
    proof {
        assert(expected@ =~= known_lerch_below(limit));
    }
    if !same_list(&lerch, &expected) {
        return Err(ValidationMismatch::UnexpectedLerch { lerch });
    }
    Ok(ValidationSummary { prime_count: primes.len(), lerch, gy, wilson })
}

/// The published Lerch primes below a limit (law): exactly those of `3, 103, 839, 2237`
/// that lie below `limit`, in increasing order.
pub proof fn lemma_known_lerch_below(limit: u64)
    ensures
        forall|x: u64| #[trigger] known_lerch_below(limit).contains(x) <==> ((x == 3 || x == 103
            || x == 839 || x == 2237) && x < limit),
        forall|i: int, j: int|
            0 <= i < j < known_lerch_below(limit).len() ==> #[trigger] known_lerch_below(limit)[i]
                < #[trigger] known_lerch_below(limit)[j],
{
    let s = known_lerch_below(limit);
    let expected: Seq<u64> = if limit <= 3 {
        seq![]
    } else if limit <= 103 {
        seq![3u64]
    } else if limit <= 839 {
        seq![3u64, 103]
    } else if limit <= 2237 {
        seq![3u64, 103, 839]
    } else {
        seq![3u64, 103, 839, 2237]
    };
    assert(s =~= expected);
    assert forall|x: u64| #[trigger] s.contains(x) <==> ((x == 3 || x == 103 || x == 839 || x == 2237)
        && x < limit) by {
        if (x == 3 || x == 103 || x == 839 || x == 2237) && x < limit {
            if x == 3 {
                assert(s[0] == x);
            } else if x == 103 {
                assert(s[1] == x);
            } else if x == 839 {
                assert(s[2] == x);
            } else {
                assert(s[3] == x);
            }
        }
    }
}

} // verus!
