# lerch_prime_search

A verified library for the search for Lerch primes: odd primes `p` that divide the
Lerch quotient `(sum_{a=1}^{p-1} q_p(a) - W_p) / p`, where `q_p(a) = (a^(p-1) - 1)/p` is
the Fermat quotient and `W_p = ((p-1)! + 1)/p` the Wilson quotient.

The fast path walks the powers of a primitive root `g` and updates each Fermat quotient
from the previous one; the moments `Q1`, `Q2` (and optionally `Q3`, `Q4`) of the
quotients decide the Lerch, Gy and Wilson conditions. Independent paths recompute the
same values from the definitions, modulo `p^2` and `p^3`.

## Layout

- `src/number_theory.rs`: primes, Fermat's little theorem, Wilson's theorem, Fermat and
  Wilson quotients, the orbit of a primitive root.
- `src/cyclic.rs`: the root bound for polynomials modulo a prime, element orders, and the
  existence of a primitive root for every odd prime.
- `src/lerch.rs`: the Lerch quotient as an integer and the identity
  `2 l_p == Q2 + Q1^2 - 2 Q1 (mod p)` that the fast path tests.
- `src/arith.rs`, `src/reduction.rs`, `src/sieve.rs`: modular arithmetic, Barrett and
  Montgomery reducers, sieves.
- `src/recurrence.rs`: the primitive-root recurrence and Lerch's congruence.
- `src/reference.rs`, `src/verify.rs`: definition-level recomputation and the checks of
  rare hits, including the `p^2` and `p^3` congruences.
- `src/search.rs`, `src/validate.rs`: interval scans, chunk plans, segment totals, and the
  validation of a whole range.
- `app/`: the command-line program (argument handling, files, parallel chunks, JSON and
  timing).

Every function in `src/` carries a contract that Verus proves; the outside calls
(`BigUint::modpow`, SHA-256, and two std string functions) sit behind small trusted
wrappers whose contracts are stated in their doc comments.
