//! The computational core of an interval search: option checks, chunk planning, the
//! classification of every prime of a segment, configuration hashes, and the totals that
//! combine completed segments.
use crate::arith::covers_primes;
use crate::number_theory::is_prime;
use crate::recurrence::{prime_invariants, recurrence_invariants, Invariants, MomentOptions};
use crate::sieve::{lemma_prime_lists_unique, lemma_primes_in, primes_in, segmented_primes};
use crate::verify::{decimal, decimal_string};
use sha2::{Digest, Sha256};
use vstd::prelude::*;

verus! {

/// The search limit: `p^2` and the recurrence products stay within 64 bits below it.
pub const SEARCH_LIMIT: u64 = 4_000_000_000;

/// The error message of a search request, if it is refused.
pub open spec fn search_options_error(start: u64, end: u64, chunk_size: u64, threads: usize) -> Option<Seq<char>> {
    if start > end {
        Some("--start must not exceed --end"@)
    } else if end > SEARCH_LIMIT {
        Some("--end exceeds the fixed-width limit 4000000000"@)
    } else if chunk_size == 0 || threads == 0 {
        Some("--chunk-size and --threads must be positive"@)
    } else {
        None
    }
}

/// Refuses a search request whose interval is empty, exceeds the search limit, or whose
/// chunk size or thread count is zero.
pub fn check_search_options(start: u64, end: u64, chunk_size: u64, threads: usize) -> (r: Result<(), String>)
    ensures
        match search_options_error(start, end, chunk_size, threads) {
            Some(message) => r matches Err(e) && e@ == message,
            None => r is Ok,
        },
{
    if start > end {
        return Err("--start must not exceed --end".to_owned());
    }
    if end > SEARCH_LIMIT {
        return Err("--end exceeds the fixed-width limit 4000000000".to_owned());
    }
    if chunk_size == 0 || threads == 0 {
        return Err("--chunk-size and --threads must be positive".to_owned());
    }
    Ok(())
}

/// The number of chunks of `chunk_size` consecutive integers covering `[start, end]`.
pub open spec fn chunk_count(start: u64, end: u64, chunk_size: u64) -> int {
    if start > end {
        0
    } else {
        (end - start) / (chunk_size as int) + 1
    }
}

/// The `i`-th chunk: `[start + i*size, min(end, start + (i+1)*size - 1)]`.
pub open spec fn chunk_at(start: u64, end: u64, chunk_size: u64, i: int) -> (int, int) {
    let lo = start + i * chunk_size;
    let hi = lo + chunk_size - 1;
    (lo, if hi < end { hi } else { end as int })
}

/// Splits `[start, end]` into numbered chunks of `chunk_size` consecutive integers, the
/// last one possibly shorter.
pub fn plan_chunks(start: u64, end: u64, chunk_size: u64) -> (chunks: Vec<(usize, u64, u64)>)
    requires
        chunk_size > 0,
        chunk_count(start, end, chunk_size) <= usize::MAX,
    ensures
        chunks@.len() == chunk_count(start, end, chunk_size),
        forall|i: int|
            0 <= i < chunks@.len() ==> {
                &&& #[trigger] chunks@[i].0 == i
                &&& chunks@[i].1 as int == chunk_at(start, end, chunk_size, i).0
                &&& chunks@[i].2 as int == chunk_at(start, end, chunk_size, i).1
            },
{
    let mut chunks: Vec<(usize, u64, u64)> = Vec::new();
    if start > end {
        return chunks;
    }
    let ghost n = chunk_count(start, end, chunk_size);
    let mut lo = start;
    let mut finished = false;
    proof {
        vstd::arithmetic::div_mod::lemma_fundamental_div_mod((end - start) as int, chunk_size as int);
        vstd::arithmetic::div_mod::lemma_mod_bound((end - start) as int, chunk_size as int);
    }
    while !finished
        invariant
            chunk_size > 0,
            start <= end,
            n == chunk_count(start, end, chunk_size),
            n <= usize::MAX,
            (end - start) as int == (chunk_size as int) * ((end - start) as int / (chunk_size as int))
                + (end - start) as int % (chunk_size as int),
            0 <= (end - start) as int % (chunk_size as int) < chunk_size,
            0 <= chunks@.len() <= n,
            lo as int == start + chunks@.len() * chunk_size || finished,
            !finished ==> lo <= end && chunks@.len() < n,
            finished ==> chunks@.len() == n,
            forall|i: int|
                0 <= i < chunks@.len() ==> {
                    &&& #[trigger] chunks@[i].0 == i
                    &&& chunks@[i].1 as int == chunk_at(start, end, chunk_size, i).0
                    &&& chunks@[i].2 as int == chunk_at(start, end, chunk_size, i).1
                },
        decreases n - chunks@.len(), if finished { 0int } else { 1int },
    {
        let k = chunks.len();
        let ghost ki = k as int;
        proof {
            assert(ki < n);
            assert(ki * chunk_size <= (end - start)) by (nonlinear_arith)
                requires
                    ki < n,
                    n == (end - start) as int / (chunk_size as int) + 1,
                    (end - start) as int == (chunk_size as int) * ((end - start) as int / (chunk_size as int))
                        + (end - start) as int % (chunk_size as int),
                    (end - start) as int % (chunk_size as int) >= 0,
                    chunk_size > 0,
                    ki >= 0,
            ;
        }
        let top = if lo > u64::MAX - (chunk_size - 1) { u64::MAX } else { lo + (chunk_size - 1) };
        let hi = if top < end { top } else { end };
        let ghost before = chunks@;
        chunks.push((k, lo, hi));
        proof {
            assert(chunks@[ki].0 == ki);
            assert(chunks@[ki].1 as int == chunk_at(start, end, chunk_size, ki).0);
            assert(chunks@[ki].2 as int == chunk_at(start, end, chunk_size, ki).1);
            assert forall|i: int|
                0 <= i < chunks@.len() implies {
                    &&& #[trigger] chunks@[i].0 == i
                    &&& chunks@[i].1 as int == chunk_at(start, end, chunk_size, i).0
                    &&& chunks@[i].2 as int == chunk_at(start, end, chunk_size, i).1
                } by {
                if i < ki {
                    assert(chunks@[i] == before[i]);
                    assert(before[i].0 == i);
                    assert(before[i].1 as int == chunk_at(start, end, chunk_size, i).0);
                }
            }
        }
        if hi == end {
            finished = true;
            proof {
                assert(ki + 1 == n) by (nonlinear_arith)
                    requires
                        lo as int == start + ki * chunk_size,
                        lo as int + chunk_size - 1 >= end,
                        lo <= end,
                        n == (end - start) as int / (chunk_size as int) + 1,
                        (end - start) as int == (chunk_size as int) * ((end - start) as int / (chunk_size as int))
                            + (end - start) as int % (chunk_size as int),
                        0 <= (end - start) as int % (chunk_size as int) < chunk_size,
                        chunk_size > 0,
                ;
            }
        } else {
            proof {
                assert(ki + 1 < n) by (nonlinear_arith)
                    requires
                        lo as int == start + ki * chunk_size,
                        lo as int + chunk_size - 1 < end,
                        n == (end - start) as int / (chunk_size as int) + 1,
                        (end - start) as int == (chunk_size as int) * ((end - start) as int / (chunk_size as int))
                            + (end - start) as int % (chunk_size as int),
                        0 <= (end - start) as int % (chunk_size as int) < chunk_size,
                        chunk_size > 0,
                ;
            }
            lo = hi + 1;
            proof {
                assert(start + ki * chunk_size + chunk_size == start + (ki + 1) * chunk_size) by (nonlinear_arith);
            }
        }
    }
    chunks
}


/// The chunks tile `[start, end]`: the first starts at `start`, each ends just before the
/// next begins, every chunk is non-empty and at most `chunk_size` long, and the last ends
/// at `end`.
pub open spec fn chunks_tile(start: u64, end: u64, chunk_size: u64) -> bool {
    let n = chunk_count(start, end, chunk_size);
    &&& chunk_at(start, end, chunk_size, 0).0 == start
    &&& chunk_at(start, end, chunk_size, n - 1).1 == end
    &&& forall|i: int|
        0 <= i < n ==> #[trigger] chunk_at(start, end, chunk_size, i).0 <= chunk_at(
            start,
            end,
            chunk_size,
            i,
        ).1 < chunk_at(start, end, chunk_size, i).0 + chunk_size
    &&& forall|i: int|
        0 <= i < n - 1 ==> #[trigger] chunk_at(start, end, chunk_size, i).1 + 1 == chunk_at(
            start,
            end,
            chunk_size,
            i + 1,
        ).0
}

/// The chunks that `plan_chunks` lists tile the interval.
pub proof fn lemma_chunks_tile(start: u64, end: u64, chunk_size: u64)
    requires
        start <= end,
        chunk_size > 0,
    ensures
        chunks_tile(start, end, chunk_size),
{
    let size = chunk_size as int;
    let span = end - start;
    let n = chunk_count(start, end, chunk_size);
    vstd::arithmetic::div_mod::lemma_fundamental_div_mod(span, size);
    vstd::arithmetic::div_mod::lemma_mod_bound(span, size);
    let k = span / size;
    assert(n == k + 1);
    assert(start + (n - 1) * size <= end) by (nonlinear_arith)
        requires
            span == size * k + span % size,
            0 <= span % size,
            n == k + 1,
            span == end - start,
    ;
    assert(start + (n - 1) * size + size - 1 >= end) by (nonlinear_arith)
        requires
            span == size * k + span % size,
            span % size < size,
            n == k + 1,
            span == end - start,
    ;
    assert forall|i: int| 0 <= i < n implies #[trigger] chunk_at(start, end, chunk_size, i).0
        <= chunk_at(start, end, chunk_size, i).1 < chunk_at(start, end, chunk_size, i).0
        + chunk_size by {
        assert(start + i * size <= start + (n - 1) * size) by (nonlinear_arith)
            requires
                0 <= i < n,
                size > 0,
        ;
    }
    assert forall|i: int| 0 <= i < n - 1 implies #[trigger] chunk_at(start, end, chunk_size, i).1
        + 1 == chunk_at(start, end, chunk_size, i + 1).0 by {
        assert(start + (i + 1) * size <= start + (n - 1) * size) by (nonlinear_arith)
            requires
                0 <= i < n - 1,
                size > 0,
        ;
        assert(start + i * size + size == start + (i + 1) * size) by (nonlinear_arith);
    }
}

/// One prime kept in a segment's record: sampled, rare, or both.
pub struct PrimeScan {
    pub sample: bool,
    pub needs_verification: bool,
    pub invariants: Invariants,
}

/// The computed part of one segment of a search.
pub struct SegmentScan {
    pub prime_count: u64,
    pub sum_of_p: u128,
    pub recurrence_steps: u128,
    pub lerch_hits: Vec<u64>,
    pub q2_zero_hits: Vec<u64>,
    pub wilson_hits: Vec<u64>,
    pub q1_equals_2_hits: Vec<u64>,
    pub q3_zero_hits: Vec<u64>,
    pub q4_zero_hits: Vec<u64>,
    pub records: Vec<PrimeScan>,
}

/// The elements of `s` satisfying `pred`, in order.
pub open spec fn hits_where(s: Seq<u64>, pred: spec_fn(u64) -> bool) -> Seq<u64>
    decreases s.len(),
{
    if s.len() == 0 {
        Seq::empty()
    } else if pred(s.last()) {
        hits_where(s.drop_last(), pred).push(s.last())
    } else {
        hits_where(s.drop_last(), pred)
    }
}

/// `sum of s`.
pub open spec fn total(s: Seq<u64>) -> int
    decreases s.len(),
{
    if s.len() == 0 {
        0
    } else {
        total(s.drop_last()) + s.last()
    }
}

/// `sum of max(p - 1, 0)` over `s`: the number of recurrence steps.
pub open spec fn total_steps(s: Seq<u64>) -> int
    decreases s.len(),
{
    if s.len() == 0 {
        0
    } else {
        total_steps(s.drop_last()) + if s.last() >= 1 { s.last() - 1 } else { 0 }
    }
}

/// Primes whose invariants are Lerch.
pub open spec fn lerch_hit(moments: MomentOptions) -> spec_fn(u64) -> bool {
    |p: u64| prime_invariants(p as int, moments).is_lerch
}

/// Primes with `Q2 = 0`.
pub open spec fn q2_zero_hit(moments: MomentOptions) -> spec_fn(u64) -> bool {
    |p: u64| prime_invariants(p as int, moments).is_gy_exceptional
}

/// Primes with `Q1 = 0`.
pub open spec fn wilson_hit(moments: MomentOptions) -> spec_fn(u64) -> bool {
    |p: u64| prime_invariants(p as int, moments).is_wilson
}

/// Primes with `Q1 = 2`.
pub open spec fn q1_equals_2_hit(moments: MomentOptions) -> spec_fn(u64) -> bool {
    |p: u64| prime_invariants(p as int, moments).q1_equals_2
}

/// Primes with an accumulated `Q3 = 0`.
pub open spec fn q3_zero_hit(moments: MomentOptions) -> spec_fn(u64) -> bool {
    |p: u64| prime_invariants(p as int, moments).q3 == Some(0u64)
}

/// Primes with an accumulated `Q4 = 0`.
pub open spec fn q4_zero_hit(moments: MomentOptions) -> spec_fn(u64) -> bool {
    |p: u64| prime_invariants(p as int, moments).q4 == Some(0u64)
}

/// The record of the prime of ordinal `k` among the primes of a segment, if it is kept:
/// every rare prime, and every `sample_every`-th prime when sampling.
pub open spec fn record_of(p: u64, k: int, moments: MomentOptions, sample_every: u64, verify_rare: bool) -> Option<PrimeScan> {
    let inv = prime_invariants(p as int, moments);
    let sample = sample_every != 0 && k % (sample_every as int) == 0;
    if inv.is_rare() || sample {
        Some(PrimeScan { sample, needs_verification: inv.is_rare() && verify_rare, invariants: inv })
    } else {
        None
    }
}

/// The kept records of the primes `s`, in order.
pub open spec fn records_of(s: Seq<u64>, moments: MomentOptions, sample_every: u64, verify_rare: bool) -> Seq<PrimeScan>
    decreases s.len(),
{
    if s.len() == 0 {
        Seq::empty()
    } else {
        let prev = records_of(s.drop_last(), moments, sample_every, verify_rare);
        match record_of(s.last(), s.len() - 1, moments, sample_every, verify_rare) {
            Some(r) => prev.push(r),
            None => prev,
        }
    }
}

/// The primes of `[start, end]`, in increasing order.
pub open spec fn interval_primes(s: Seq<u64>, start: u64, end: u64) -> bool {
    &&& forall|i: int, j: int| 0 <= i < j < s.len() ==> s[i] < s[j]
    &&& forall|x: u64| #[trigger] s.contains(x) <==> is_prime(x as int) && start <= x <= end
}

/// `covers_primes` holds for every smaller bound.
pub proof fn lemma_covers_smaller(t: Seq<u64>, bound: int, smaller: int)
    requires
        covers_primes(t, bound),
        smaller <= bound,
    ensures
        covers_primes(t, smaller),
{
}

/// Scans the primes of `[start, end]`: the recurrence invariants of each, the hit lists of
/// every exceptional condition, the processed sums, and the kept records.
pub fn scan_interval(
    start: u64,
    end: u64,
    base_primes: &[u64],
    moments: MomentOptions,
    sample_every: u64,
    verify_rare: bool,
) -> (r: (Vec<u64>, SegmentScan))
    requires
        end <= SEARCH_LIMIT,
        covers_primes(base_primes@, end as int),
    ensures
        interval_primes(r.0@, start, end),
        r.0@ == primes_in(start as int, end as int),
        r.1.prime_count == r.0@.len(),
        r.1.sum_of_p == total(r.0@),
        r.1.recurrence_steps == total_steps(r.0@),
        r.1.lerch_hits@ == hits_where(r.0@, lerch_hit(moments)),
        r.1.q2_zero_hits@ == hits_where(r.0@, q2_zero_hit(moments)),
        r.1.wilson_hits@ == hits_where(r.0@, wilson_hit(moments)),
        r.1.q1_equals_2_hits@ == hits_where(r.0@, q1_equals_2_hit(moments)),
        r.1.q3_zero_hits@ == hits_where(r.0@, q3_zero_hit(moments)),
        r.1.q4_zero_hits@ == hits_where(r.0@, q4_zero_hit(moments)),
        r.1.records@ == records_of(r.0@, moments, sample_every, verify_rare),
{
    let primes = segmented_primes(start, end, base_primes);
    let ghost s = primes@;
    proof {
        lemma_primes_in(start as int, end as int);
        lemma_prime_lists_unique(s, primes_in(start as int, end as int), start, end);
    }
    let mut lerch_hits: Vec<u64> = Vec::new();
    let mut q2_zero_hits: Vec<u64> = Vec::new();
    let mut wilson_hits: Vec<u64> = Vec::new();
    let mut q1_equals_2_hits: Vec<u64> = Vec::new();
    let mut q3_zero_hits: Vec<u64> = Vec::new();
    let mut q4_zero_hits: Vec<u64> = Vec::new();
    let mut records: Vec<PrimeScan> = Vec::new();
    let mut sum_p: u128 = 0;
    let mut steps: u128 = 0;
    let mut k: usize = 0;
    while k < primes.len()
        invariant
            s == primes@,
            end <= SEARCH_LIMIT,
            covers_primes(base_primes@, end as int),
            interval_primes(s, start, end),
            0 <= k <= s.len(),
            sum_p as int == total(s.take(k as int)),
            steps as int == total_steps(s.take(k as int)),
            sum_p <= k * SEARCH_LIMIT,
            steps <= k * SEARCH_LIMIT,
            lerch_hits@ == hits_where(s.take(k as int), lerch_hit(moments)),
            q2_zero_hits@ == hits_where(s.take(k as int), q2_zero_hit(moments)),
            wilson_hits@ == hits_where(s.take(k as int), wilson_hit(moments)),
            q1_equals_2_hits@ == hits_where(s.take(k as int), q1_equals_2_hit(moments)),
            q3_zero_hits@ == hits_where(s.take(k as int), q3_zero_hit(moments)),
            q4_zero_hits@ == hits_where(s.take(k as int), q4_zero_hit(moments)),
            records@ == records_of(s.take(k as int), moments, sample_every, verify_rare),
        decreases s.len() - k,
    {
        let p = primes[k];
        let ghost t = s.take(k as int);
        proof {
            assert(s.contains(p));
            assert(is_prime(p as int) && start <= p <= end);
            assert(s.take(k + 1).drop_last() =~= t);
            assert(s.take(k + 1).last() == p);
            if p >= 3 {
                lemma_covers_smaller(base_primes@, end as int, p - 1);
            }
            assert(sum_p as int + p as int <= (k + 1) * SEARCH_LIMIT) by (nonlinear_arith)
                requires
                    sum_p as int <= k * SEARCH_LIMIT,
                    p <= SEARCH_LIMIT,
            ;
            assert((k + 1) * SEARCH_LIMIT <= u128::MAX) by (nonlinear_arith)
                requires
                    k < usize::MAX,
                    usize::MAX <= u64::MAX,
            ;
        }
        sum_p = sum_p + p as u128;
        steps = steps + if p >= 1 { (p - 1) as u128 } else { 0 };
        let invariants = recurrence_invariants(p, base_primes, moments);
        if invariants.is_lerch {
            lerch_hits.push(p);
        }
        if invariants.is_gy_exceptional {
            q2_zero_hits.push(p);
        }
        if invariants.is_wilson {
            wilson_hits.push(p);
        }
        if invariants.q1_equals_2 {
            q1_equals_2_hits.push(p);
        }
        if invariants.q3 == Some(0) {
            q3_zero_hits.push(p);
        }
        if invariants.q4 == Some(0) {
            q4_zero_hits.push(p);
        }
        let rare = invariants.rare();
        let sample = sample_every != 0 && (k as u64) % sample_every == 0;
        if rare || sample {
            records.push(PrimeScan { sample, needs_verification: rare && verify_rare, invariants });
        }
        k = k + 1;
    }
    proof {
        assert(s.take(s.len() as int) =~= s);
    }
    let count = primes.len() as u64;
    (
        primes,
        SegmentScan {
            prime_count: count,
            sum_of_p: sum_p,
            recurrence_steps: steps,
            lerch_hits,
            q2_zero_hits,
            wilson_hits,
            q1_equals_2_hits,
            q3_zero_hits,
            q4_zero_hits,
            records,
        },
    )
}

/// The tag of the on-disk format, part of every configuration hash.
pub const FORMAT_VERSION: &'static str = "lerch-prime-search-v1";

/// The SHA-256 digest of the UTF-8 bytes of `text`, as lowercase hexadecimal.
pub uninterp spec fn sha256_hex(text: Seq<char>) -> Seq<char>;

/// `sha2::Sha256::digest` of the UTF-8 bytes of `text`, written with `{:x}`. The contract
/// names the digest as a function of the text alone and states what generic-array's
/// `LowerHex` writes for the 32 digest bytes: two lowercase hexadecimal digits per byte.
/// What the digest is, is left unsaid.
#[verifier::external_body]
fn hex_sha256(text: &str) -> (r: String)
    ensures
        r@ == sha256_hex(text@),
        r@.len() == 64,
        forall|i: int| 0 <= i < 64 ==> ('0' <= #[trigger] r@[i] <= '9' || 'a' <= r@[i] <= 'f'),
{
    format!("{:x}", Sha256::digest(text.as_bytes()))
}

/// `String::push_str`. The contract is std's documented behaviour: afterwards `text` holds
/// its old characters followed by those of `tail`.
#[verifier::external_body]
fn append(text: &mut String, tail: &str)
    ensures
        final(text)@ == old(text)@ + tail@,
{
    text.push_str(tail);
}

/// How `{}` writes a `bool`.
pub open spec fn bool_text(b: bool) -> Seq<char> {
    if b {
        "true"@
    } else {
        "false"@
    }
}

/// The text that identifies a segment's configuration: the format tag, the bounds, the
/// moment options, the sampling period and whether rare hits are verified.
pub open spec fn configuration_text(
    start: u64,
    end: u64,
    moments: MomentOptions,
    sample_every: u64,
    verify_rare: bool,
) -> Seq<char> {
    FORMAT_VERSION@ + ":"@ + decimal(start as nat) + ":"@ + decimal(end as nat) + ":q3="@
        + bool_text(moments.q3) + ":q4="@ + bool_text(moments.q4) + ":sample="@ + decimal(
        sample_every as nat,
    ) + ":verify="@ + bool_text(verify_rare)
}

fn append_bool(text: &mut String, b: bool)
    ensures
        final(text)@ == old(text)@ + bool_text(b),
{
    if b {
        append(text, "true");
    } else {
        append(text, "false");
    }
}

/// The hash of a segment's configuration; a stored segment is reused only under the
/// same hash.
pub fn configuration_hash(
    start: u64,
    end: u64,
    moments: MomentOptions,
    sample_every: u64,
    verify_rare: bool,
) -> (r: String)
    ensures
        r@ == sha256_hex(configuration_text(start, end, moments, sample_every, verify_rare)),
{
    let mut text = String::new();
    append(&mut text, FORMAT_VERSION);
    append(&mut text, ":");
    let number = decimal_string(start as u128);
    append(&mut text, number.as_str());
    append(&mut text, ":");
    let number = decimal_string(end as u128);
    append(&mut text, number.as_str());
    append(&mut text, ":q3=");
    append_bool(&mut text, moments.q3);
    append(&mut text, ":q4=");
    append_bool(&mut text, moments.q4);
    append(&mut text, ":sample=");
    let number = decimal_string(sample_every as u128);
    append(&mut text, number.as_str());
    append(&mut text, ":verify=");
    append_bool(&mut text, verify_rare);
    proof {
        assert(text@ =~= configuration_text(start, end, moments, sample_every, verify_rare));
    }
    hex_sha256(text.as_str())
}

/// A stored segment is reused only when it is complete, was computed under the expected
/// configuration hash, and the result hash it records is the one recomputed from its
/// contents.
pub fn segment_reusable(
    status: &String,
    configuration_sha256: &String,
    expected_configuration: &String,
    result_sha256: &String,
    recomputed_result: &String,
) -> (r: bool)
    ensures
        r == (status@ == "complete"@ && configuration_sha256@ == expected_configuration@
            && result_sha256@ == recomputed_result@),
{
    let complete = "complete".to_owned();
    *status == complete && *configuration_sha256 == *expected_configuration && *result_sha256
        == *recomputed_result
}

/// The totals of one completed segment, as the manifest combines them.
pub struct SegmentSummary {
    pub start: u64,
    pub end: u64,
    pub prime_count: u64,
    pub sum_of_p: u128,
    pub lerch_hits: Vec<u64>,
    pub q2_zero_hits: Vec<u64>,
    pub wilson_hits: Vec<u64>,
    pub q1_equals_2_hits: Vec<u64>,
    pub q3_zero_hits: Vec<u64>,
    pub q4_zero_hits: Vec<u64>,
    pub result_sha256: String,
}

/// The combined totals of a search: what the manifest records.
pub struct ManifestTotals {
    pub completed_intervals: Vec<(u64, u64)>,
    pub prime_count: u64,
    pub sum_of_p: u128,
    pub lerch_hits: Vec<u64>,
    pub q2_zero_hits: Vec<u64>,
    pub wilson_hits: Vec<u64>,
    pub q1_equals_2_hits: Vec<u64>,
    pub q3_zero_hits: Vec<u64>,
    pub q4_zero_hits: Vec<u64>,
    pub manifest_sha256: String,
}

/// The number of primes over the segments `s`.
pub open spec fn prime_total(s: Seq<SegmentSummary>) -> int
    decreases s.len(),
{
    if s.len() == 0 {
        0
    } else {
        prime_total(s.drop_last()) + s.last().prime_count
    }
}

/// The sum of the primes over the segments `s`.
pub open spec fn p_total(s: Seq<SegmentSummary>) -> int
    decreases s.len(),
{
    if s.len() == 0 {
        0
    } else {
        p_total(s.drop_last()) + s.last().sum_of_p
    }
}

/// The hit lists `which` of the segments `s`, concatenated in order.
pub open spec fn hits_of(s: Seq<SegmentSummary>, which: spec_fn(SegmentSummary) -> Seq<u64>) -> Seq<u64>
    decreases s.len(),
{
    if s.len() == 0 {
        Seq::empty()
    } else {
        hits_of(s.drop_last(), which) + which(s.last())
    }
}

/// The result hashes of the segments `s`, joined by `:`.
pub open spec fn hash_chain(s: Seq<SegmentSummary>) -> Seq<char>
    decreases s.len(),
{
    if s.len() == 0 {
        Seq::empty()
    } else if s.len() == 1 {
        s[0].result_sha256@
    } else {
        hash_chain(s.drop_last()) + ":"@ + s.last().result_sha256@
    }
}

proof fn lemma_totals_grow(s: Seq<SegmentSummary>, i: int, j: int)
    requires
        0 <= i <= j <= s.len(),
    ensures
        prime_total(s.take(i)) <= prime_total(s.take(j)),
        p_total(s.take(i)) <= p_total(s.take(j)),
    decreases j - i,
{
    if i < j {
        lemma_totals_grow(s, i, j - 1);
        assert(s.take(j).drop_last() =~= s.take(j - 1));
    }
}

fn extend_hits(list: &mut Vec<u64>, tail: &Vec<u64>)
    ensures
        final(list)@ == old(list)@ + tail@,
{
    let mut k: usize = 0;
    while k < tail.len()
        invariant
            0 <= k <= tail@.len(),
            list@ == old(list)@ + tail@.take(k as int),
        decreases tail@.len() - k,
    {
        list.push(tail[k]);
        k = k + 1;
        proof {
            assert(tail@.take(k as int) =~= tail@.take(k - 1).push(tail@[k - 1]));
        }
    }
    proof {
        assert(tail@.take(tail@.len() as int) =~= tail@);
    }
}

/// Combines the segments, in the order given: the completed intervals, the total prime
/// count and prime sum, the hit lists concatenated, and the manifest hash over the
/// segments' result hashes joined by `:`.
pub fn combine_segments(segments: &Vec<SegmentSummary>) -> (t: ManifestTotals)
    requires
        prime_total(segments@) <= u64::MAX,
        p_total(segments@) <= u128::MAX,
    ensures
        t.completed_intervals@ == segments@.map_values(|x: SegmentSummary| (x.start, x.end)),
        t.prime_count == prime_total(segments@),
        t.sum_of_p == p_total(segments@),
        t.lerch_hits@ == hits_of(segments@, |x: SegmentSummary| x.lerch_hits@),
        t.q2_zero_hits@ == hits_of(segments@, |x: SegmentSummary| x.q2_zero_hits@),
        t.wilson_hits@ == hits_of(segments@, |x: SegmentSummary| x.wilson_hits@),
        t.q1_equals_2_hits@ == hits_of(segments@, |x: SegmentSummary| x.q1_equals_2_hits@),
        t.q3_zero_hits@ == hits_of(segments@, |x: SegmentSummary| x.q3_zero_hits@),
        t.q4_zero_hits@ == hits_of(segments@, |x: SegmentSummary| x.q4_zero_hits@),
        t.manifest_sha256@ == sha256_hex(hash_chain(segments@)),
{
    let ghost s = segments@;
    let ghost intervals_spec = s.map_values(|x: SegmentSummary| (x.start, x.end));
    let mut completed_intervals: Vec<(u64, u64)> = Vec::new();
    let mut prime_count: u64 = 0;
    let mut sum_of_p: u128 = 0;
    let mut lerch_hits: Vec<u64> = Vec::new();
    let mut q2_zero_hits: Vec<u64> = Vec::new();
    let mut wilson_hits: Vec<u64> = Vec::new();
    let mut q1_equals_2_hits: Vec<u64> = Vec::new();
    let mut q3_zero_hits: Vec<u64> = Vec::new();
    let mut q4_zero_hits: Vec<u64> = Vec::new();
    let mut chain = String::new();
    let mut k: usize = 0;
    while k < segments.len()
        invariant
            s == segments@,
            intervals_spec == s.map_values(|x: SegmentSummary| (x.start, x.end)),
            prime_total(s) <= u64::MAX,
            p_total(s) <= u128::MAX,
            0 <= k <= s.len(),
            completed_intervals@ == intervals_spec.take(k as int),
            prime_count == prime_total(s.take(k as int)),
            sum_of_p == p_total(s.take(k as int)),
            lerch_hits@ == hits_of(s.take(k as int), |x: SegmentSummary| x.lerch_hits@),
            q2_zero_hits@ == hits_of(s.take(k as int), |x: SegmentSummary| x.q2_zero_hits@),
            wilson_hits@ == hits_of(s.take(k as int), |x: SegmentSummary| x.wilson_hits@),
            q1_equals_2_hits@ == hits_of(s.take(k as int), |x: SegmentSummary| x.q1_equals_2_hits@),
            q3_zero_hits@ == hits_of(s.take(k as int), |x: SegmentSummary| x.q3_zero_hits@),
            q4_zero_hits@ == hits_of(s.take(k as int), |x: SegmentSummary| x.q4_zero_hits@),
            chain@ == hash_chain(s.take(k as int)),
        decreases s.len() - k,
    {
        let segment = &segments[k];
        let ghost before = s.take(k as int);
        let ghost after = s.take(k + 1);
        proof {
            assert(after.drop_last() =~= before);
            assert(after.last() == *segment);
            lemma_totals_grow(s, k + 1, s.len() as int);
            assert(s.take(s.len() as int) =~= s);
        }
        completed_intervals.push((segment.start, segment.end));
        prime_count = prime_count + segment.prime_count;
        sum_of_p = sum_of_p + segment.sum_of_p;
        extend_hits(&mut lerch_hits, &segment.lerch_hits);
        extend_hits(&mut q2_zero_hits, &segment.q2_zero_hits);
        extend_hits(&mut wilson_hits, &segment.wilson_hits);
        extend_hits(&mut q1_equals_2_hits, &segment.q1_equals_2_hits);
        extend_hits(&mut q3_zero_hits, &segment.q3_zero_hits);
        extend_hits(&mut q4_zero_hits, &segment.q4_zero_hits);
        if k > 0 {
            append(&mut chain, ":");
        }
        append(&mut chain, segment.result_sha256.as_str());
        proof {
            assert(completed_intervals@ =~= intervals_spec.take(k + 1));
            if k == 0 {
                assert(after.len() == 1);
                assert(after[0] == *segment);
                assert(chain@ =~= hash_chain(after));
            } else {
                assert(chain@ =~= hash_chain(after));
            }
        }
        k = k + 1;
    }
    proof {
        assert(s.take(s.len() as int) =~= s);
        assert(intervals_spec.take(s.len() as int) =~= intervals_spec);
    }
    let manifest_sha256 = hex_sha256(chain.as_str());
    ManifestTotals {
        completed_intervals,
        prime_count,
        sum_of_p,
        lerch_hits,
        q2_zero_hits,
        wilson_hits,
        q1_equals_2_hits,
        q3_zero_hits,
        q4_zero_hits,
        manifest_sha256,
    }
}

/// The primes of the `i`-th chunk of `[start, end]`.
pub open spec fn chunk_primes(start: u64, end: u64, chunk_size: u64, i: int) -> Seq<u64> {
    primes_in(chunk_at(start, end, chunk_size, i).0, chunk_at(start, end, chunk_size, i).1)
}

proof fn lemma_primes_in_split(a: int, b: int, c: int)
    requires
        a <= b + 1,
        b <= c,
    ensures
        primes_in(a, c) == primes_in(a, b) + primes_in(b + 1, c),
    decreases c - b,
{
    if c == b {
        assert(primes_in(b + 1, b) =~= Seq::<u64>::empty());
        assert(primes_in(a, c) =~= primes_in(a, b) + Seq::<u64>::empty());
    } else {
        lemma_primes_in_split(a, b, c - 1);
        if is_prime(c) {
            assert(primes_in(a, c) =~= primes_in(a, b) + primes_in(b + 1, c));
        } else {
            assert(primes_in(a, c) =~= primes_in(a, b) + primes_in(b + 1, c));
        }
    }
}

proof fn lemma_hits_append(s: Seq<u64>, t: Seq<u64>, pred: spec_fn(u64) -> bool)
    ensures
        hits_where(s + t, pred) == hits_where(s, pred) + hits_where(t, pred),
        total(s + t) == total(s) + total(t),
    decreases t.len(),
{
    if t.len() == 0 {
        assert(s + t =~= s);
        assert(hits_where(s, pred) + hits_where(t, pred) =~= hits_where(s, pred));
    } else {
        lemma_hits_append(s, t.drop_last(), pred);
        assert((s + t).drop_last() =~= s + t.drop_last());
        assert((s + t).last() == t.last());
        if pred(t.last()) {
            assert(hits_where(s + t, pred) =~= hits_where(s, pred) + hits_where(t, pred));
        } else {
            assert(hits_where(s + t, pred) =~= hits_where(s, pred) + hits_where(t, pred));
        }
    }
}

proof fn lemma_chunk_start(start: u64, end: u64, chunk_size: u64, i: int)
    requires
        0 <= i,
        chunk_size > 0,
    ensures
        chunk_at(start, end, chunk_size, i).0 >= start,
{
    assert(i * chunk_size >= 0) by (nonlinear_arith)
        requires
            0 <= i,
            chunk_size > 0,
    ;
}

/// The hit lists `which` of segments that match the chunks, concatenated over the first
/// `k` of them, are the hits among the primes from `start` to the end of chunk `k - 1`.
proof fn lemma_hits_prefix(
    start: u64,
    end: u64,
    chunk_size: u64,
    segs: Seq<SegmentSummary>,
    which: spec_fn(SegmentSummary) -> Seq<u64>,
    pred: spec_fn(u64) -> bool,
    k: int,
)
    requires
        start <= end,
        chunk_size > 0,
        chunks_tile(start, end, chunk_size),
        segs.len() == chunk_count(start, end, chunk_size),
        1 <= k <= segs.len(),
        forall|i: int|
            0 <= i < segs.len() ==> #[trigger] which(segs[i]) == hits_where(
                chunk_primes(start, end, chunk_size, i),
                pred,
            ),
        forall|i: int|
            0 <= i < segs.len() ==> #[trigger] segs[i].prime_count == chunk_primes(
                start,
                end,
                chunk_size,
                i,
            ).len() && segs[i].sum_of_p == total(chunk_primes(start, end, chunk_size, i)),
    ensures
        hits_of(segs.take(k), which) == hits_where(
            primes_in(start as int, chunk_at(start, end, chunk_size, k - 1).1),
            pred,
        ),
        prime_total(segs.take(k)) == primes_in(start as int, chunk_at(start, end, chunk_size, k - 1).1).len(),
        p_total(segs.take(k)) == total(primes_in(start as int, chunk_at(start, end, chunk_size, k - 1).1)),
    decreases k,
{
    let head = segs.take(k);
    assert(head.drop_last() =~= segs.take(k - 1));
    assert(head.last() == segs[k - 1]);
    assert(which(segs[k - 1]) == hits_where(chunk_primes(start, end, chunk_size, k - 1), pred));
    assert(segs[k - 1].prime_count == chunk_primes(start, end, chunk_size, k - 1).len());
    assert(segs[k - 1].sum_of_p == total(chunk_primes(start, end, chunk_size, k - 1)));
    assert(prime_total(head) == prime_total(segs.take(k - 1)) + segs[k - 1].prime_count);
    assert(p_total(head) == p_total(segs.take(k - 1)) + segs[k - 1].sum_of_p);
    let hi = chunk_at(start, end, chunk_size, k - 1).1;
    if k == 1 {
        assert(segs.take(0) =~= Seq::<SegmentSummary>::empty());
        assert(hits_of(segs.take(0), which) =~= Seq::<u64>::empty());
        assert(hits_of(head, which) =~= which(segs[0]));
        assert(prime_total(segs.take(0)) == 0);
        assert(p_total(segs.take(0)) == 0);
        assert(chunk_primes(start, end, chunk_size, 0) == primes_in(start as int, hi));
    } else {
        lemma_hits_prefix(start, end, chunk_size, segs, which, pred, k - 1);
        let mid = chunk_at(start, end, chunk_size, k - 2).1;
        assert(mid + 1 == chunk_at(start, end, chunk_size, k - 1).0);
        assert(chunk_at(start, end, chunk_size, k - 2).0 <= mid);
        assert(chunk_at(start, end, chunk_size, k - 1).0 <= hi);
        lemma_chunk_start(start, end, chunk_size, k - 2);
        lemma_primes_in_split(start as int, mid, hi);
        lemma_hits_append(primes_in(start as int, mid), primes_in(mid + 1, hi), pred);
        assert(chunk_primes(start, end, chunk_size, k - 1) == primes_in(mid + 1, hi));
    }
}

/// The segments of a search agree with its chunks: the `i`-th covers chunk `i` and
/// carries the count, sum and hit lists of that chunk's primes.
pub open spec fn segments_match_chunks(
    start: u64,
    end: u64,
    chunk_size: u64,
    moments: MomentOptions,
    segs: Seq<SegmentSummary>,
) -> bool {
    &&& segs.len() == chunk_count(start, end, chunk_size)
    &&& forall|i: int|
        0 <= i < segs.len() ==> {
            let ps = #[trigger] chunk_primes(start, end, chunk_size, i);
            &&& segs[i].start == chunk_at(start, end, chunk_size, i).0
            &&& segs[i].end == chunk_at(start, end, chunk_size, i).1
            &&& segs[i].prime_count == ps.len()
            &&& segs[i].sum_of_p == total(ps)
            &&& segs[i].lerch_hits@ == hits_where(ps, lerch_hit(moments))
            &&& segs[i].q2_zero_hits@ == hits_where(ps, q2_zero_hit(moments))
            &&& segs[i].wilson_hits@ == hits_where(ps, wilson_hit(moments))
            &&& segs[i].q1_equals_2_hits@ == hits_where(ps, q1_equals_2_hit(moments))
            &&& segs[i].q3_zero_hits@ == hits_where(ps, q3_zero_hit(moments))
            &&& segs[i].q4_zero_hits@ == hits_where(ps, q4_zero_hit(moments))
        }
}

/// A search's totals are those of the whole interval: when the segments are the scans of
/// the planned chunks, in order, the combined prime count, prime sum and hit lists are
/// those of all primes of `[start, end]`. They depend only on the interval, the chunk
/// size and the moment options, not on how many threads scanned the chunks or where the
/// segments were stored.
pub proof fn lemma_search_totals(
    start: u64,
    end: u64,
    chunk_size: u64,
    moments: MomentOptions,
    segs: Seq<SegmentSummary>,
)
    requires
        start <= end,
        chunk_size > 0,
        segments_match_chunks(start, end, chunk_size, moments, segs),
    ensures
        prime_total(segs) == primes_in(start as int, end as int).len(),
        p_total(segs) == total(primes_in(start as int, end as int)),
        hits_of(segs, |x: SegmentSummary| x.lerch_hits@) == hits_where(
            primes_in(start as int, end as int),
            lerch_hit(moments),
        ),
        hits_of(segs, |x: SegmentSummary| x.q2_zero_hits@) == hits_where(
            primes_in(start as int, end as int),
            q2_zero_hit(moments),
        ),
        hits_of(segs, |x: SegmentSummary| x.wilson_hits@) == hits_where(
            primes_in(start as int, end as int),
            wilson_hit(moments),
        ),
        hits_of(segs, |x: SegmentSummary| x.q1_equals_2_hits@) == hits_where(
            primes_in(start as int, end as int),
            q1_equals_2_hit(moments),
        ),
        hits_of(segs, |x: SegmentSummary| x.q3_zero_hits@) == hits_where(
            primes_in(start as int, end as int),
            q3_zero_hit(moments),
        ),
        hits_of(segs, |x: SegmentSummary| x.q4_zero_hits@) == hits_where(
            primes_in(start as int, end as int),
            q4_zero_hit(moments),
        ),
{
    lemma_chunks_tile(start, end, chunk_size);
    let n = segs.len() as int;
    assert(segs.take(n) =~= segs);
    assert forall|i: int| 0 <= i < n implies #[trigger] segs[i].prime_count == chunk_primes(
        start,
        end,
        chunk_size,
        i,
    ).len() && segs[i].sum_of_p == total(chunk_primes(start, end, chunk_size, i)) by {
        assert(chunk_primes(start, end, chunk_size, i) == chunk_primes(start, end, chunk_size, i));
    }
    let w1 = |x: SegmentSummary| x.lerch_hits@;
    let w2 = |x: SegmentSummary| x.q2_zero_hits@;
    let w3 = |x: SegmentSummary| x.wilson_hits@;
    let w4 = |x: SegmentSummary| x.q1_equals_2_hits@;
    let w5 = |x: SegmentSummary| x.q3_zero_hits@;
    let w6 = |x: SegmentSummary| x.q4_zero_hits@;
    assert forall|i: int| 0 <= i < n implies {
        &&& #[trigger] w1(segs[i]) == hits_where(chunk_primes(start, end, chunk_size, i), lerch_hit(moments))
        &&& w2(segs[i]) == hits_where(chunk_primes(start, end, chunk_size, i), q2_zero_hit(moments))
        &&& w3(segs[i]) == hits_where(chunk_primes(start, end, chunk_size, i), wilson_hit(moments))
        &&& w4(segs[i]) == hits_where(chunk_primes(start, end, chunk_size, i), q1_equals_2_hit(moments))
        &&& w5(segs[i]) == hits_where(chunk_primes(start, end, chunk_size, i), q3_zero_hit(moments))
        &&& w6(segs[i]) == hits_where(chunk_primes(start, end, chunk_size, i), q4_zero_hit(moments))
    } by {
        assert(chunk_primes(start, end, chunk_size, i) == chunk_primes(start, end, chunk_size, i));
    }
    lemma_hits_prefix(start, end, chunk_size, segs, w1, lerch_hit(moments), n);
    lemma_hits_prefix(start, end, chunk_size, segs, w2, q2_zero_hit(moments), n);
    lemma_hits_prefix(start, end, chunk_size, segs, w3, wilson_hit(moments), n);
    lemma_hits_prefix(start, end, chunk_size, segs, w4, q1_equals_2_hit(moments), n);
    lemma_hits_prefix(start, end, chunk_size, segs, w5, q3_zero_hit(moments), n);
    lemma_hits_prefix(start, end, chunk_size, segs, w6, q4_zero_hit(moments), n);
}

/// What a search request must satisfy (law): it is accepted exactly when `start <= end`,
/// `end` is within the search limit, and the chunk size and thread count are positive; a
/// request with `start > end` is refused for that reason first.
pub proof fn lemma_search_options_accepted(start: u64, end: u64, chunk_size: u64, threads: usize)
    ensures
        search_options_error(start, end, chunk_size, threads) is None <==> (start <= end && end
            <= 4_000_000_000 && chunk_size > 0 && threads > 0),
        start > end ==> search_options_error(start, end, chunk_size, threads) == Some(
            "--start must not exceed --end"@,
        ),
{
}

/// Which invariants are rare (law): every Lerch, Gy (`Q2 = 0`) or Wilson prime, every prime
/// with `Q1 = 2`, and every prime whose accumulated `Q3` or `Q4` vanishes; nothing else.
pub proof fn lemma_rare_conditions(inv: Invariants)
    ensures
        inv.is_lerch ==> inv.is_rare(),
        inv.is_gy_exceptional ==> inv.is_rare(),
        inv.is_wilson ==> inv.is_rare(),
        inv.q1_equals_2 ==> inv.is_rare(),
        inv.q3 == Some(0u64) ==> inv.is_rare(),
        inv.q4 == Some(0u64) ==> inv.is_rare(),
        inv.is_rare() ==> (inv.is_lerch || inv.is_gy_exceptional || inv.is_wilson || inv.q1_equals_2
            || inv.q3 == Some(0u64) || inv.q4 == Some(0u64)),
{
}

/// Every prime of a scanned list whose invariants meet a rare condition is recorded, with
/// its invariants, and flagged for verification exactly when rare hits are verified.
pub proof fn lemma_rare_primes_recorded(
    s: Seq<u64>,
    moments: MomentOptions,
    sample_every: u64,
    verify_rare: bool,
    i: int,
)
    requires
        0 <= i < s.len(),
        ({
            let inv = prime_invariants(s[i] as int, moments);
            inv.is_lerch || inv.is_gy_exceptional || inv.is_wilson || inv.q1_equals_2 || inv.q3
                == Some(0u64) || inv.q4 == Some(0u64)
        }),
    ensures
        exists|j: int|
            0 <= j < records_of(s, moments, sample_every, verify_rare).len() && #[trigger] records_of(
                s,
                moments,
                sample_every,
                verify_rare,
            )[j].invariants == prime_invariants(s[i] as int, moments) && records_of(
                s,
                moments,
                sample_every,
                verify_rare,
            )[j].needs_verification == verify_rare,
    decreases s.len(),
{
    let t = s.drop_last();
    let prev = records_of(t, moments, sample_every, verify_rare);
    let all = records_of(s, moments, sample_every, verify_rare);
    if i == s.len() - 1 {
        let inv = prime_invariants(s.last() as int, moments);
        assert(inv.is_rare());
        let r = record_of(s.last(), s.len() - 1, moments, sample_every, verify_rare);
        assert(r is Some);
        assert(all == prev.push(r->0));
        assert(all[prev.len() as int] == r->0);
        assert(s.last() == s[i]);
        assert(all[prev.len() as int].invariants == prime_invariants(s[i] as int, moments));
        assert(all[prev.len() as int].needs_verification == verify_rare);
    } else {
        assert(t[i] == s[i]);
        lemma_rare_primes_recorded(t, moments, sample_every, verify_rare, i);
        let j = choose|j: int|
            0 <= j < prev.len() && #[trigger] prev[j].invariants == prime_invariants(t[i] as int, moments)
                && prev[j].needs_verification == verify_rare;
        match record_of(s.last(), s.len() - 1, moments, sample_every, verify_rare) {
            Some(r) => {
                assert(all == prev.push(r));
                assert(all[j] == prev[j]);
                assert(all[j].invariants == prime_invariants(s[i] as int, moments));
            },
            None => {
                assert(all == prev);
                assert(all[j].invariants == prime_invariants(s[i] as int, moments));
            },
        }
    }
}

/// A segment scan records every prime of its interval that meets a rare condition, and
/// flags it for verification when rare hits are verified.
pub proof fn lemma_scan_records_rare_primes(
    start: u64,
    end: u64,
    moments: MomentOptions,
    sample_every: u64,
    verify_rare: bool,
    x: u64,
)
    requires
        is_prime(x as int),
        start <= x <= end,
        ({
            let inv = prime_invariants(x as int, moments);
            inv.is_lerch || inv.is_gy_exceptional || inv.is_wilson || inv.q1_equals_2 || inv.q3
                == Some(0u64) || inv.q4 == Some(0u64)
        }),
    ensures
        exists|j: int|
            0 <= j < records_of(primes_in(start as int, end as int), moments, sample_every, verify_rare).len()
                && #[trigger] records_of(primes_in(start as int, end as int), moments, sample_every, verify_rare)[j].invariants
                == prime_invariants(x as int, moments) && records_of(
                primes_in(start as int, end as int),
                moments,
                sample_every,
                verify_rare,
            )[j].needs_verification == verify_rare,
{
    let ps = primes_in(start as int, end as int);
    lemma_primes_in(start as int, end as int);
    assert(ps.contains(x));
    let i = choose|i: int| 0 <= i < ps.len() && ps[i] == x;
    lemma_rare_primes_recorded(ps, moments, sample_every, verify_rare, i);
}

/// No character of `x` is `:`.
pub open spec fn no_colon(x: Seq<char>) -> bool {
    forall|i: int| 0 <= i < x.len() ==> x[i] != ':'
}

proof fn lemma_decimal_shape(n: nat)
    ensures
        decimal(n).len() >= 1,
        decimal(n).len() == 1 <==> n < 10,
        no_colon(decimal(n)),
        decimal(n).last() == ((48 + n % 10) as char),
    decreases n,
{
    if n >= 10 {
        lemma_decimal_shape(n / 10);
        assert forall|i: int| 0 <= i < decimal(n).len() implies decimal(n)[i] != ':' by {
            if i < decimal(n / 10).len() {
                assert(decimal(n)[i] == decimal(n / 10)[i]);
            } else {
                let c = (48 + n % 10) as char;
                assert(c as int == 48 + n % 10);
            }
        }
    } else {
        let c = (48 + n) as char;
        assert(c as int == 48 + n);
        assert(n % 10 == n);
    }
}

proof fn lemma_decimal_injective(a: nat, b: nat)
    requires
        decimal(a) == decimal(b),
    ensures
        a == b,
    decreases a,
{
    lemma_decimal_shape(a);
    lemma_decimal_shape(b);
    let ca = (48 + a % 10) as char;
    let cb = (48 + b % 10) as char;
    assert(ca as int == 48 + a % 10);
    assert(cb as int == 48 + b % 10);
    assert(a % 10 == b % 10);
    if a >= 10 {
        assert(b >= 10);
        assert(decimal(a / 10) =~= decimal(a).drop_last());
        assert(decimal(b / 10) =~= decimal(b).drop_last());
        lemma_decimal_injective(a / 10, b / 10);
    } else {
        assert(b < 10);
    }
}

/// A text `a : r` with no `:` in `a` splits only one way at its first `:`.
proof fn lemma_split_at_colon(a: Seq<char>, r: Seq<char>, b: Seq<char>, t: Seq<char>)
    requires
        no_colon(a),
        no_colon(b),
        a + (seq![':'] + r) == b + (seq![':'] + t),
    ensures
        a == b,
        r == t,
{
    let x = a + (seq![':'] + r);
    let y = b + (seq![':'] + t);
    if a.len() < b.len() {
        assert(x[a.len() as int] == ':');
        assert(y[a.len() as int] == b[a.len() as int]);
    } else if b.len() < a.len() {
        assert(y[b.len() as int] == ':');
        assert(x[b.len() as int] == a[b.len() as int]);
    }
    assert(a =~= x.subrange(0, a.len() as int));
    assert(b =~= y.subrange(0, b.len() as int));
    assert(r =~= x.subrange(a.len() as int + 1, x.len() as int));
    assert(t =~= y.subrange(b.len() as int + 1, y.len() as int));
}

/// A common prefix cancels.
proof fn lemma_cancel_prefix(p: Seq<char>, x: Seq<char>, y: Seq<char>)
    requires
        p + x == p + y,
    ensures
        x == y,
{
    assert(x =~= (p + x).subrange(p.len() as int, (p + x).len() as int));
    assert(y =~= (p + y).subrange(p.len() as int, (p + y).len() as int));
}

proof fn lemma_bool_text(b: bool)
    ensures
        no_colon(bool_text(b)),
        bool_text(b).len() == if b { 4int } else { 5int },
{
    reveal_strlit("true");
    reveal_strlit("false");
}

/// The configuration text as its fields, each field followed by `:` and the next label.
proof fn lemma_configuration_fields(
    start: u64,
    end: u64,
    moments: MomentOptions,
    sample_every: u64,
    verify_rare: bool,
)
    ensures
        configuration_text(start, end, moments, sample_every, verify_rare) == FORMAT_VERSION@ + (
        seq![':'] + (decimal(start as nat) + (seq![':'] + (decimal(end as nat) + (seq![':'] + (
        "q3="@ + (bool_text(moments.q3) + (seq![':'] + ("q4="@ + (bool_text(moments.q4) + (seq![
        ':'] + ("sample="@ + (decimal(sample_every as nat) + (seq![':'] + ("verify="@
            + bool_text(verify_rare)))))))))))))))),
{
    reveal_strlit(":");
    reveal_strlit(":q3=");
    reveal_strlit("q3=");
    reveal_strlit(":q4=");
    reveal_strlit("q4=");
    reveal_strlit(":sample=");
    reveal_strlit("sample=");
    reveal_strlit(":verify=");
    reveal_strlit("verify=");
    let c = seq![':'];
    assert(":"@ =~= c);
    assert(":q3="@ =~= c + "q3="@);
    assert(":q4="@ =~= c + "q4="@);
    assert(":sample="@ =~= c + "sample="@);
    assert(":verify="@ =~= c + "verify="@);
    let ds = decimal(start as nat);
    let de = decimal(end as nat);
    let dse = decimal(sample_every as nat);
    let b3 = bool_text(moments.q3);
    let b4 = bool_text(moments.q4);
    let bv = bool_text(verify_rare);
    let r15 = "verify="@ + bv;
    let r14 = c + r15;
    let r13 = dse + r14;
    let r12 = "sample="@ + r13;
    let r11 = c + r12;
    let r10 = b4 + r11;
    let r9 = "q4="@ + r10;
    let r8 = c + r9;
    let r7 = b3 + r8;
    let r6 = "q3="@ + r7;
    let r5 = c + r6;
    let r4 = de + r5;
    let r3 = c + r4;
    let r2 = ds + r3;
    let r1 = c + r2;
    let p0 = FORMAT_VERSION@ + ":"@;
    let p1 = p0 + ds;
    let p2 = p1 + ":"@;
    let p3 = p2 + de;
    let p4 = p3 + ":q3="@;
    let p5 = p4 + b3;
    let p6 = p5 + ":q4="@;
    let p7 = p6 + b4;
    let p8 = p7 + ":sample="@;
    let p9 = p8 + dse;
    let p10 = p9 + ":verify="@;
    assert(configuration_text(start, end, moments, sample_every, verify_rare) == p10 + bv);
    lemma_assoc_two(p9, c, "verify="@, bv);
    lemma_assoc(p8, dse, r14);
    lemma_assoc_two(p7, c, "sample="@, r13);
    lemma_assoc(p6, b4, r11);
    lemma_assoc_two(p5, c, "q4="@, r10);
    lemma_assoc(p4, b3, r8);
    lemma_assoc_two(p3, c, "q3="@, r7);
    lemma_assoc(p2, de, r5);
    lemma_assoc(p1, c, r4);
    lemma_assoc(p0, ds, r3);
    lemma_assoc(FORMAT_VERSION@, c, r2);
}

proof fn lemma_assoc(x: Seq<char>, y: Seq<char>, z: Seq<char>)
    ensures
        (x + y) + z == x + (y + z),
{
    assert((x + y) + z =~= x + (y + z));
}

proof fn lemma_assoc_two(x: Seq<char>, y: Seq<char>, w: Seq<char>, z: Seq<char>)
    ensures
        (x + (y + w)) + z == x + (y + (w + z)),
{
    assert((x + (y + w)) + z =~= x + (y + (w + z)));
}

/// The configuration text records every option (law): two configurations have the same
/// text, and so the same hash input, only when their bounds, moment options, sampling
/// period and verification flag all agree.
pub proof fn lemma_configuration_text_injective(
    start: u64,
    end: u64,
    moments: MomentOptions,
    sample_every: u64,
    verify_rare: bool,
    start2: u64,
    end2: u64,
    moments2: MomentOptions,
    sample_every2: u64,
    verify_rare2: bool,
)
    requires
        configuration_text(start, end, moments, sample_every, verify_rare) == configuration_text(
            start2,
            end2,
            moments2,
            sample_every2,
            verify_rare2,
        ),
    ensures
        start == start2,
        end == end2,
        moments.q3 == moments2.q3,
        moments.q4 == moments2.q4,
        sample_every == sample_every2,
        verify_rare == verify_rare2,
{
    lemma_configuration_fields(start, end, moments, sample_every, verify_rare);
    lemma_configuration_fields(start2, end2, moments2, sample_every2, verify_rare2);
    let c = seq![':'];
    let r_v = "verify="@ + bool_text(verify_rare);
    let r_v2 = "verify="@ + bool_text(verify_rare2);
    let r_se = decimal(sample_every as nat) + (c + r_v);
    let r_se2 = decimal(sample_every2 as nat) + (c + r_v2);
    let r_q4 = bool_text(moments.q4) + (c + ("sample="@ + r_se));
    let r_q42 = bool_text(moments2.q4) + (c + ("sample="@ + r_se2));
    let r_q3 = bool_text(moments.q3) + (c + ("q4="@ + r_q4));
    let r_q32 = bool_text(moments2.q3) + (c + ("q4="@ + r_q42));
    let r_e = decimal(end as nat) + (c + ("q3="@ + r_q3));
    let r_e2 = decimal(end2 as nat) + (c + ("q3="@ + r_q32));
    let r_s = decimal(start as nat) + (c + r_e);
    let r_s2 = decimal(start2 as nat) + (c + r_e2);
    lemma_cancel_prefix(FORMAT_VERSION@, c + r_s, c + r_s2);
    lemma_cancel_prefix(c, r_s, r_s2);
    lemma_decimal_shape(start as nat);
    lemma_decimal_shape(start2 as nat);
    lemma_split_at_colon(decimal(start as nat), r_e, decimal(start2 as nat), r_e2);
    lemma_decimal_injective(start as nat, start2 as nat);
    lemma_decimal_shape(end as nat);
    lemma_decimal_shape(end2 as nat);
    lemma_split_at_colon(decimal(end as nat), "q3="@ + r_q3, decimal(end2 as nat), "q3="@ + r_q32);
    lemma_decimal_injective(end as nat, end2 as nat);
    lemma_cancel_prefix("q3="@, r_q3, r_q32);
    lemma_bool_text(moments.q3);
    lemma_bool_text(moments2.q3);
    lemma_split_at_colon(bool_text(moments.q3), "q4="@ + r_q4, bool_text(moments2.q3), "q4="@ + r_q42);
    lemma_cancel_prefix("q4="@, r_q4, r_q42);
    lemma_bool_text(moments.q4);
    lemma_bool_text(moments2.q4);
    lemma_split_at_colon(bool_text(moments.q4), "sample="@ + r_se, bool_text(moments2.q4), "sample="@ + r_se2);
    lemma_cancel_prefix("sample="@, r_se, r_se2);
    lemma_decimal_shape(sample_every as nat);
    lemma_decimal_shape(sample_every2 as nat);
    lemma_split_at_colon(decimal(sample_every as nat), r_v, decimal(sample_every2 as nat), r_v2);
    lemma_decimal_injective(sample_every as nat, sample_every2 as nat);
    lemma_cancel_prefix("verify="@, bool_text(verify_rare), bool_text(verify_rare2));
    lemma_bool_text(verify_rare);
    lemma_bool_text(verify_rare2);
}

} // verus!
