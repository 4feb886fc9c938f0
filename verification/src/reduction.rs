//! Barrett and Montgomery reducers for moduli below 2^32.
use crate::arith::mul_mod;
use vstd::arithmetic::div_mod::{
    lemma_fundamental_div_mod, lemma_mod_bound, lemma_small_mod, lemma_mod_multiples_vanish,
    lemma_mod_mod, lemma_mul_mod_noop_left, lemma_mul_mod_noop_right, lemma_mod_twice,
    lemma_mul_mod_noop_general,
};
use vstd::prelude::*;

verus! {

/// `2^64`.
pub open spec fn word() -> int {
    0x1_0000_0000_0000_0000
}

/// Barrett reducer for products of residues modulo m, with m < 2^32.
#[derive(Clone, Copy)]
pub struct Barrett32 {
    modulus: u64,
    reciprocal: u128,
}

impl View for Barrett32 {
    type V = int;

    /// The modulus.
    closed spec fn view(&self) -> int {
        self.modulus as int
    }
}

impl Barrett32 {
    #[verifier::type_invariant]
    closed spec fn well_formed(self) -> bool {
        &&& 1 < self.modulus < 0x1_0000_0000
        &&& self.reciprocal as int == word() / (self.modulus as int)
    }

    /// A reducer for `modulus`, which must lie in `(1, 2^32)`.
    pub fn new(modulus: u64) -> (r: Self)
        requires
            1 < modulus < 0x1_0000_0000,
        ensures
            r@ == modulus as int,
    {
        let one: u128 = 1;
        let word_value = one << 64u32;
        assert(one << 64u32 == 0x1_0000_0000_0000_0000u128) by (bit_vector)
            requires
                one == 1,
        ;
        Self { modulus, reciprocal: word_value / (modulus as u128) }
    }

    /// `(a * b) mod m`, for a product that fits 64 bits.
    pub fn multiply(self, a: u64, b: u64) -> (r: u64)
        requires
            a as int * b as int <= u64::MAX,
        ensures
            r as int == (a as int * b as int) % self@,
    {
        proof {
            use_type_invariant(&self);
        }
        let m = self.modulus;
        let rec = self.reciprocal;
        let product = a * b;
        let ghost x = product as int;
        let ghost mi = m as int;
        let ghost ri = rec as int;
        let ghost w = word();
        proof {
            lemma_fundamental_div_mod(w, mi);
            lemma_mod_bound(w, mi);
            assert(ri * mi <= w && w < (ri + 1) * mi) by (nonlinear_arith)
                requires
                    w == mi * ri + w % mi,
                    0 <= w % mi < mi,
            ;
            assert(ri <= w / 2) by (nonlinear_arith)
                requires
                    ri * mi <= w,
                    mi >= 2,
                    ri >= 0,
            ;
            assert(x * ri <= u128::MAX) by (nonlinear_arith)
                requires
                    0 <= x <= u64::MAX,
                    0 <= ri <= w / 2,
                    w == 0x1_0000_0000_0000_0000,
            ;
        }
        let scaled: u128 = product as u128 * rec;
        let shifted = scaled >> 64u32;
        assert(scaled >> 64u32 == scaled / 0x1_0000_0000_0000_0000u128) by (bit_vector);
        proof {
            let y = scaled as int;
            lemma_fundamental_div_mod(y, w);
            lemma_mod_bound(y, w);
            assert(shifted as int <= u64::MAX) by (nonlinear_arith)
                requires
                    shifted as int == y / w,
                    y <= u128::MAX,
                    y == w * (y / w) + y % w,
                    y % w >= 0,
                    w == 0x1_0000_0000_0000_0000,
            ;
        }
        let quotient = shifted as u64;
        proof {
            let q = quotient as int;
            let y = x * ri;
            // q*w <= x*ri < (q+1)*w and ri*m <= w < (ri+1)*m
            assert(q * w <= y && y < (q + 1) * w) by (nonlinear_arith)
                requires
                    y == w * q + y % w,
                    0 <= y % w < w,
            ;
            assert(q * mi <= x) by (nonlinear_arith)
                requires
                    q * w <= x * ri,
                    ri * mi <= w,
                    x >= 0,
                    w > 0,
                    mi > 0,
                    q >= 0,
            ;
            assert(x - q * mi < 2 * mi) by (nonlinear_arith)
                requires
                    x * ri < (q + 1) * w,
                    w < (ri + 1) * mi,
                    0 <= x < w,
                    mi > 0,
                    ri >= 0,
                    q >= 0,
            ;
        }
        let mut remainder = product - quotient * m;
        if remainder >= m {
            remainder = remainder - m;
        }
        proof {
            let q = quotient as int;
            let k = if x - q * mi >= mi { q + 1 } else { q };
            assert(mi * (q + 1) == mi * q + mi) by (nonlinear_arith);
            assert(mi * q == q * mi) by (nonlinear_arith);
            assert(x == mi * k + remainder as int);
            lemma_mod_multiples_vanish(k, remainder as int, mi);
            lemma_small_mod(remainder as nat, mi as nat);
        }
        remainder
    }
}


/// One Newton step `x (2 - m x)` for the inverse of `m` modulo `2^64`, in wrapping arithmetic.
pub open spec fn newton_step(m: int, x: int) -> int {
    let y = (m * x) % word();
    let w = if 2 - y < 0 { 2 - y + word() } else { 2 - y };
    (x * w) % word()
}

/// `n` Newton steps from `1`.
pub open spec fn newton_inverse(m: int, n: nat) -> int
    decreases n,
{
    if n == 0 {
        1
    } else {
        newton_step(m, newton_inverse(m, (n - 1) as nat))
    }
}

/// A Newton step doubles the number of correct low bits of an inverse of `m`.
proof fn lemma_newton_step(m: int, x: int, d: int)
    requires
        d >= 2,
        word() % (d * d) == 0,
        (m * x) % d == 1,
        0 <= x < word(),
    ensures
        (m * newton_step(m, x)) % (d * d) == 1,
        0 <= newton_step(m, x) < word(),
{
    let r = word();
    let mm = d * d;
    assert(mm >= 4) by (nonlinear_arith)
        requires
            d >= 2,
            mm == d * d,
    ;
    let k = r / mm;
    lemma_fundamental_div_mod(r, mm);
    assert(r == mm * k);
    assert(k > 0) by (nonlinear_arith)
        requires
            r == mm * k,
            r > 0,
            mm > 0,
    ;
    let e = m * x;
    let y = e % r;
    let w = if 2 - y < 0 { 2 - y + r } else { 2 - y };
    let st = (x * w) % r;
    lemma_mod_bound(e, r);
    lemma_mod_bound(x * w, r);
    // y == e mod mm
    lemma_mod_mod(e, mm, k);
    assert(y % mm == e % mm);
    // w == 2 - e mod mm
    assert(w % mm == (2 - y) % mm) by {
        if 2 - y < 0 {
            lemma_mod_multiples_vanish(k, 2 - y, mm);
            assert(2 - y + r == mm * k + (2 - y));
        }
    }
    vstd::arithmetic::div_mod::lemma_sub_mod_noop(2, y, mm);
    vstd::arithmetic::div_mod::lemma_sub_mod_noop(2, e, mm);
    assert(w % mm == (2 - e) % mm);
    // st == x * w mod mm
    lemma_mod_mod(x * w, mm, k);
    // m * st == e * w == e * (2 - e) mod mm
    lemma_mul_mod_noop_right(m, st, mm);
    lemma_mul_mod_noop_right(m, x * w, mm);
    assert(m * (x * w) == e * w) by (nonlinear_arith)
        requires
            e == m * x,
    ;
    lemma_mul_mod_noop_right(e, w, mm);
    lemma_mul_mod_noop_right(e, 2 - e, mm);
    // e == 1 + t d, so e (2 - e) == 1 - t^2 d^2
    let t = e / d;
    lemma_fundamental_div_mod(e, d);
    assert(e * (2 - e) == mm * (-(t * t)) + 1) by (nonlinear_arith)
        requires
            e == d * t + 1,
            mm == d * d,
    ;
    lemma_mod_multiples_vanish(-(t * t), 1, mm);
    lemma_small_mod(1, mm as nat);
}

/// For odd `m`, six Newton steps give the inverse of `m` modulo `2^64`.
pub proof fn lemma_newton_inverse(m: int)
    requires
        m % 2 == 1,
    ensures
        (m * newton_inverse(m, 6)) % word() == 1,
        0 <= newton_inverse(m, 6) < word(),
{
    assert(m * 1 == m);
    lemma_newton_step(m, newton_inverse(m, 0), 2);
    lemma_newton_step(m, newton_inverse(m, 1), 4);
    lemma_newton_step(m, newton_inverse(m, 2), 16);
    lemma_newton_step(m, newton_inverse(m, 3), 256);
    lemma_newton_step(m, newton_inverse(m, 4), 0x1_0000);
    lemma_newton_step(m, newton_inverse(m, 5), 0x1_0000_0000);
}


/// `2^-64` modulo `m`: the residue `w` in `[0, m)` with `w * 2^64 == 1 (mod m)`.
pub open spec fn word_inverse(m: int) -> int {
    choose|w: int| 0 <= w < m && (#[trigger] (w * word())) % m == 1
}

/// For odd `m > 1`, `2^64` is invertible modulo `m`, and its inverse is unique in `[0, m)`.
pub proof fn lemma_word_inverse(m: int)
    requires
        m > 1,
        m % 2 == 1,
    ensures
        0 <= word_inverse(m) < m,
        (word_inverse(m) * word()) % m == 1,
        forall|w: int| 0 <= w < m && (#[trigger] (w * word())) % m == 1 ==> w == word_inverse(m),
{
    let r = word();
    lemma_newton_inverse(m);
    let x = newton_inverse(m, 6);
    let s = (m * x) / r;
    lemma_fundamental_div_mod(m * x, r);
    assert(m * x == r * s + 1);
    let w0 = (-s) % m;
    lemma_mod_bound(-s, m);
    lemma_mul_mod_noop_left(-s, r, m);
    assert((-s) * r == m * (-x) + 1) by (nonlinear_arith)
        requires
            m * x == r * s + 1,
    ;
    lemma_mod_multiples_vanish(-x, 1, m);
    lemma_small_mod(1, m as nat);
    assert((w0 * r) % m == 1);
    let w = word_inverse(m);
    assert(0 <= w < m && (w * r) % m == 1);
    assert forall|v: int| 0 <= v < m && (#[trigger] (v * word())) % m == 1 implies v == word_inverse(m) by {
        lemma_word_inverse_unique(m, v, w);
    }
}

proof fn lemma_word_inverse_unique(m: int, v: int, w: int)
    requires
        m > 1,
        0 <= v < m,
        0 <= w < m,
        (v * word()) % m == 1,
        (w * word()) % m == 1,
    ensures
        v == w,
{
    let r = word();
    // v == v * (r w) == (v r) w == w
    lemma_mul_mod_noop_right(v, w * r, m);
    lemma_mul_mod_noop_left(v * r, w, m);
    assert(v * (w * r) == (v * r) * w) by (nonlinear_arith);
    assert(v * 1 == v);
    assert(1 * w == w);
    lemma_small_mod(v as nat, m as nat);
    lemma_small_mod(w as nat, m as nat);
}

/// Cancelling a factor `2^64` modulo an odd `m`.
proof fn lemma_cancel_word(x: int, y: int, m: int)
    requires
        m > 1,
        m % 2 == 1,
        (x * word()) % m == (y * word()) % m,
    ensures
        x % m == (y * word_inverse(m) * word()) % m,
        x % m == y % m,
{
    let r = word();
    lemma_word_inverse(m);
    let w = word_inverse(m);
    lemma_mul_mod_noop_right(x, r * w, m);
    lemma_mul_mod_noop_right(y, r * w, m);
    lemma_mul_mod_noop_left(x * r, w, m);
    lemma_mul_mod_noop_left(y * r, w, m);
    assert(x * (r * w) == (x * r) * w) by (nonlinear_arith);
    assert(y * (r * w) == (y * r) * w) by (nonlinear_arith);
    assert(r * w == w * r) by (nonlinear_arith);
    assert(x * 1 == x);
    assert(y * 1 == y);
    assert(y * w * r == y * (r * w)) by (nonlinear_arith);
}

/// Decoding the Montgomery product of two encoded values gives their ordinary
/// product modulo `m`, and decoding an encoded value gives the value modulo `m`.
pub proof fn lemma_montgomery_round_trip(m: int, a: int, b: int)
    requires
        m > 1,
        m % 2 == 1,
    ensures
        ((((a * word()) % m) * ((b * word()) % m) * word_inverse(m)) % m * word_inverse(m)) % m
            == (a * b) % m,
        (((a * word()) % m) * word_inverse(m)) % m == a % m,
{
    let r = word();
    lemma_word_inverse(m);
    let w = word_inverse(m);
    let ea = (a * r) % m;
    let eb = (b * r) % m;
    // the product
    lemma_mul_mod_noop_left(ea * eb * w, w, m);
    assert(ea * eb * w * w == (ea * eb) * (w * w)) by (nonlinear_arith);
    lemma_mul_mod_noop_left(ea * eb, w * w, m);
    lemma_mul_mod_noop_general(a * r, b * r, m);
    lemma_mul_mod_noop_left((a * r) * (b * r), w * w, m);
    assert((a * r) * (b * r) * (w * w) == (a * b) * ((w * r) * (w * r))) by (nonlinear_arith);
    lemma_mul_mod_noop_general(w * r, w * r, m);
    lemma_small_mod(1, m as nat);
    lemma_mul_mod_noop_right(a * b, (w * r) * (w * r), m);
    assert((a * b) * 1 == a * b);
    // a single value
    lemma_mul_mod_noop_left(a * r, w, m);
    assert((a * r) * w == a * (w * r)) by (nonlinear_arith);
    lemma_mul_mod_noop_right(a, w * r, m);
    assert(a * 1 == a);
}

/// Montgomery reducer with R=2^64, specialized to odd moduli below 2^32.
#[derive(Clone, Copy)]
pub struct Montgomery32 {
    modulus: u64,
    negative_inverse: u64,
    r2: u64,
}

impl View for Montgomery32 {
    type V = int;

    /// The modulus.
    closed spec fn view(&self) -> int {
        self.modulus as int
    }
}

impl Montgomery32 {
    #[verifier::type_invariant]
    closed spec fn well_formed(self) -> bool {
        &&& 1 < self.modulus < 0x1_0000_0000
        &&& self.modulus % 2 == 1
        &&& (self.modulus as int * self.negative_inverse as int) % word() == word() - 1
        &&& self.r2 as int == ((word() % (self.modulus as int)) * (word() % (self.modulus as int))) % (self.modulus as int)
    }

    /// A reducer for the odd `modulus` in `(1, 2^32)`.
    pub fn new(modulus: u64) -> (r: Self)
        requires
            1 < modulus < 0x1_0000_0000,
            modulus % 2 == 1,
        ensures
            r@ == modulus as int,
    {
        let ghost m = modulus as int;
        let mut inverse: u64 = 1;
        let mut i: u32 = 0;
        while i < 6
            invariant
                m == modulus as int,
                0 <= i <= 6,
                inverse as int == newton_inverse(m, i as nat),
            decreases 6 - i,
        {
            let y = modulus.wrapping_mul(inverse);
            let w = 2u64.wrapping_sub(y);
            inverse = inverse.wrapping_mul(w);
            i = i + 1;
        }
        proof {
            lemma_newton_inverse(m);
        }
        let negative_inverse = 0u64.wrapping_sub(inverse);
        proof {
            let x = inverse as int;
            let r = word();
            let ni = negative_inverse as int;
            assert(x != 0) by {
                if x == 0 {
                    assert(m * x == 0) by (nonlinear_arith)
                        requires
                            x == 0,
                    ;
                    lemma_small_mod(0, r as nat);
                }
            }
            assert(ni == r - x);
            assert(m * ni == r * m + (-(m * x))) by (nonlinear_arith)
                requires
                    ni == r - x,
            ;
            lemma_mod_multiples_vanish(m, -(m * x), r);
            vstd::arithmetic::div_mod::lemma_sub_mod_noop(0, m * x, r);
            lemma_small_mod(0, r as nat);
            lemma_mod_bound(-(m * x), r);
            assert((-(m * x)) % r == (0 - 1) % r);
            vstd::arithmetic::div_mod::lemma_mod_add_multiples_vanish(-1, r);
            lemma_small_mod((r - 1) as nat, r as nat);
        }
        let one: u128 = 1;
        let word_value = one << 64u32;
        assert(one << 64u32 == 0x1_0000_0000_0000_0000u128) by (bit_vector)
            requires
                one == 1,
        ;
        let reduced = (word_value % (modulus as u128)) as u64;
        Self { modulus, negative_inverse, r2: mul_mod(reduced, reduced, modulus) }
    }

    /// The Montgomery reduction: `r * 2^64 == product` modulo `m`, with `r < m` when
    /// `product < m * 2^64`. The sum it forms, `product + c * m` with `c < 2^64`, must fit
    /// 128 bits.
    fn reduce(self, product: u128) -> (r: u64)
        requires
            (product as int) + (word() - 1) * self@ <= u128::MAX,
        ensures
            (r as int * word()) % self@ == (product as int) % self@,
            (product as int) < self@ * word() ==> (r as int) < self@,
    {
        proof {
            use_type_invariant(&self);
        }
        let m = self.modulus;
        let ni = self.negative_inverse;
        let ghost mi = m as int;
        let ghost r = word();
        let ghost pi = product as int;
        let low = #[verifier::truncate] (product as u64);
        assert((#[verifier::truncate] (product as u64)) as u128 == product % 0x1_0000_0000_0000_0000u128) by (bit_vector);
        let correction = low.wrapping_mul(ni);
        let ghost t = low as int;
        let ghost c = correction as int;
        proof {
            assert(c * mi < r * mi) by (nonlinear_arith)
                requires
                    0 <= c < r,
                    mi > 0,
            ;
            assert(c * mi <= (r - 1) * mi) by (nonlinear_arith)
                requires
                    0 <= c < r,
                    mi > 0,
            ;
            assert(mi * r <= 0x1_0000_0000 * r) by (nonlinear_arith)
                requires
                    mi < 0x1_0000_0000,
                    r > 0,
            ;
        }
        let sum = product + correction as u128 * m as u128;
        let ghost si = sum as int;
        proof {
            // sum == 0 modulo 2^64
            assert(c == (t * ni as int) % r);
            lemma_mul_mod_noop_left(t * ni as int, mi, r);
            assert((t * ni as int) * mi == t * (mi * ni as int)) by (nonlinear_arith);
            lemma_mul_mod_noop_right(t, mi * ni as int, r);
            assert(t * (r - 1) == r * t + (-t)) by (nonlinear_arith);
            lemma_mod_multiples_vanish(t, -t, r);
            assert((c * mi) % r == (-t) % r);
            lemma_fundamental_div_mod(pi, r);
            let hi = pi / r;
            assert(si == r * hi + (t + c * mi));
            lemma_mod_multiples_vanish(hi, t + c * mi, r);
            vstd::arithmetic::div_mod::lemma_add_mod_noop(t, c * mi, r);
            vstd::arithmetic::div_mod::lemma_add_mod_noop(t, -t, r);
            lemma_small_mod(0, r as nat);
            assert(si % r == 0);
        }
        let shifted = sum >> 64u32;
        assert(sum >> 64u32 == sum / 0x1_0000_0000_0000_0000u128) by (bit_vector);
        proof {
            lemma_fundamental_div_mod(si, r);
            assert(si == r * (shifted as int));
            assert((shifted as int) < r) by (nonlinear_arith)
                requires
                    si == r * (shifted as int),
                    si <= u128::MAX,
                    r == 0x1_0000_0000_0000_0000,
            ;
            if pi < mi * r {
                assert((shifted as int) < 2 * mi) by (nonlinear_arith)
                    requires
                        si == r * (shifted as int),
                        si < mi * r + r * mi,
                        r > 0,
                ;
            }
        }
        let mut result = shifted as u64;
        proof {
            // result * 2^64 == sum == product (mod m)
            assert((result as int) * r == si) by (nonlinear_arith)
                requires
                    si == r * (shifted as int),
                    result as int == shifted as int,
            ;
            assert(si == c * mi + pi);
            assert(c * mi == mi * c) by (nonlinear_arith);
            lemma_mod_multiples_vanish(c, pi, mi);
        }
        if result >= m {
            proof {
                assert(((result - m) as int) * r == mi * (-r) + (result as int) * r) by (nonlinear_arith)
                    requires
                        mi == m as int,
                ;
                lemma_mod_multiples_vanish(-r, (result as int) * r, mi);
            }
            result = result - m;
        }
        result
    }

    /// `value * 2^64 mod m`, the Montgomery form of `value`.
    pub fn encode(self, value: u64) -> (r: u64)
        ensures
            r as int == (value as int * word()) % self@,
    {
        proof {
            use_type_invariant(&self);
            let mi = self.modulus as int;
            assert((value as int) * (self.r2 as int) < mi * word()) by (nonlinear_arith)
                requires
                    0 <= (value as int) < word(),
                    0 <= self.r2 < mi,
            ;
            assert((value as int) * (self.r2 as int) + (word() - 1) * mi <= u128::MAX) by (nonlinear_arith)
                requires
                    (value as int) * (self.r2 as int) < mi * word(),
                    0 < mi < 0x1_0000_0000,
                    word() == 0x1_0000_0000_0000_0000,
            ;
        }
        let r = self.reduce(value as u128 * self.r2 as u128);
        proof {
            let mi = self.modulus as int;
            let rr = word();
            let v = value as int;
            let q = word() % mi;
            // value * r2 == value * 2^64 * 2^64 (mod m)
            lemma_mul_mod_noop_right(v, q * q, mi);
            lemma_mul_mod_noop_general(rr, rr, mi);
            lemma_mul_mod_noop_right(v, rr * rr, mi);
            assert(v * (rr * rr) == (v * rr) * rr) by (nonlinear_arith);
            lemma_cancel_word(r as int, v * rr, mi);
            lemma_mod_bound(v * rr, mi);
            lemma_small_mod(r as nat, mi as nat);
            lemma_mod_twice(v * rr, mi);
        }
        r
    }

    /// Montgomery product: `a * b * 2^-64` modulo `m`, fully reduced when
    /// `a * b < m * 2^64` (as for operands in Montgomery form).
    pub fn multiply(self, a: u64, b: u64) -> (r: u64)
        requires
            (a as int) * (b as int) + (word() - 1) * self@ <= u128::MAX,
        ensures
            (r as int) % self@ == ((a as int) * (b as int) * word_inverse(self@)) % self@,
            (a as int) * (b as int) < self@ * word() ==> r as int == ((a as int) * (b as int)
                * word_inverse(self@)) % self@,
    {
        proof {
            use_type_invariant(&self);
            assert((a as int) * (b as int) <= u128::MAX) by (nonlinear_arith)
                requires
                    0 <= a as int <= u64::MAX,
                    0 <= b as int <= u64::MAX,
            ;
        }
        let r = self.reduce(a as u128 * b as u128);
        proof {
            let mi = self.modulus as int;
            let x = (a as int) * (b as int);
            lemma_word_inverse(mi);
            let w = word_inverse(mi);
            // r == r * 2^64 * w == x * w (mod m)
            lemma_mul_mod_noop_left(r as int * word(), w, mi);
            lemma_mul_mod_noop_left(x, w, mi);
            lemma_mul_mod_noop_right(r as int, word() * w, mi);
            assert((r as int * word()) * w == (r as int) * (word() * w)) by (nonlinear_arith);
            assert(word() * w == w * word()) by (nonlinear_arith);
            assert(r as int * 1 == r as int);
            if x < mi * word() {
                lemma_small_mod(r as nat, mi as nat);
            }
        }
        r
    }

    /// `value * 2^-64 mod m`, leaving Montgomery form.
    pub fn decode(self, value: u64) -> (r: u64)
        ensures
            r as int == (value as int * word_inverse(self@)) % self@,
    {
        proof {
            use_type_invariant(&self);
            let mi = self.modulus as int;
            assert((value as int) < mi * word()) by (nonlinear_arith)
                requires
                    0 <= (value as int) < word(),
                    mi >= 2,
            ;
            assert((value as int) + (word() - 1) * mi <= u128::MAX) by (nonlinear_arith)
                requires
                    0 <= (value as int) < word(),
                    0 < mi < 0x1_0000_0000,
                    word() == 0x1_0000_0000_0000_0000,
            ;
        }
        let r = self.reduce(value as u128);
        proof {
            let mi = self.modulus as int;
            let x = value as int;
            lemma_word_inverse(mi);
            let w = word_inverse(mi);
            lemma_mul_mod_noop_left(r as int * word(), w, mi);
            lemma_mul_mod_noop_left(x, w, mi);
            lemma_mul_mod_noop_right(r as int, word() * w, mi);
            assert((r as int * word()) * w == (r as int) * (word() * w)) by (nonlinear_arith);
            assert(word() * w == w * word()) by (nonlinear_arith);
            assert(r as int * 1 == r as int);
            lemma_small_mod(r as nat, mi as nat);
        }
        r
    }
}

} // verus!
