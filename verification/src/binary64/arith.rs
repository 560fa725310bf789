//! Addition, subtraction, multiplication and division.

use vstd::prelude::*;
use vstd::arithmetic::power2::*;
use crate::binary64;
use crate::binary64::{F64, HIDDEN_BIT, INFINITY_BITS, NAN_BITS, SIGN_BIT};
use crate::binary64::round;
use crate::binary64::round::{Rest, BIAS};

verus! {

/// The exponent of one over the unit: a unit is two to the power -1074.
pub open spec fn unit_exponent() -> nat {
    1074
}

pub open spec fn not_a_number() -> F64 {
    F64 { bits: NAN_BITS }
}

pub open spec fn absolute(i: int) -> int {
    if i < 0 { -i } else { i }
}

/// `a` with the other sign.
pub open spec fn negation(a: F64) -> F64 {
    signed_like(a, !a.negative())
}

pub open spec fn signed_like(a: F64, negative: bool) -> F64 {
    binary64::signed(negative, a.magnitude())
}

/// The sum of two numbers: the nearest number to the exact sum. An exact sum of
/// zero is negative only if both terms are.
pub open spec fn sum(a: F64, b: F64) -> F64 {
    if a.nan() || b.nan() {
        not_a_number()
    } else if a.infinite() {
        if b.infinite() && a.negative() != b.negative() { not_a_number() } else { a }
    } else if b.infinite() {
        b
    } else {
        let s = a.units() + b.units();
        if s == 0 {
            binary64::signed(a.negative() && b.negative(), 0)
        } else {
            binary64::signed(s < 0, round::nearest(absolute(s), 1))
        }
    }
}

/// The difference of two numbers.
pub open spec fn difference(a: F64, b: F64) -> F64 {
    sum(a, negation(b))
}

/// The product of two numbers: the nearest number to the exact product.
pub open spec fn product(a: F64, b: F64) -> F64 {
    let negative = a.negative() != b.negative();
    if a.nan() || b.nan() {
        not_a_number()
    } else if a.infinite() || b.infinite() {
        if a.magnitude() == 0 || b.magnitude() == 0 {
            not_a_number()
        } else {
            binary64::signed(negative, INFINITY_BITS as nat)
        }
    } else {
        binary64::signed(
            negative,
            round::nearest(absolute(a.units()) * absolute(b.units()), pow2(unit_exponent()) as int),
        )
    }
}

/// The quotient of two numbers: the nearest number to the exact quotient.
pub open spec fn quotient(a: F64, b: F64) -> F64 {
    let negative = a.negative() != b.negative();
    if a.nan() || b.nan() || (a.infinite() && b.infinite()) || (a.magnitude() == 0 && b.magnitude()
        == 0) {
        not_a_number()
    } else if a.infinite() || b.magnitude() == 0 {
        binary64::signed(negative, INFINITY_BITS as nat)
    } else if b.infinite() {
        binary64::signed(negative, 0)
    } else {
        binary64::signed(
            negative,
            round::nearest(absolute(a.units()) * pow2(unit_exponent()), absolute(b.units())),
        )
    }
}

/// Zero is the number nearest to zero.
pub proof fn lemma_nearest_zero(d: int)
    requires
        d > 0,
    ensures
        round::nearest(0, d) == 0,
{
    binary64::lemma_scale_step(0);
    lemma2_to64();
    assert(binary64::scale(0) == 0);
    assert((0 + 1) * d >= 0) by (nonlinear_arith)
        requires
            d > 0,
    ;
    round::lemma_nearest_is(0, d, 0);
}

/// A representable value is its own nearest number.
pub proof fn lemma_nearest_exact(m: nat)
    requires
        m < INFINITY_BITS,
    ensures
        round::nearest(binary64::scale(m) as int, 1) == m,
{
    if m > 0 {
        binary64::lemma_scale_increases((m - 1) as nat, m);
    }
    binary64::lemma_scale_increases(m, m + 1);
    round::lemma_nearest_is(binary64::scale(m) as int, 1, m);
}

/// The significand of a positive finite number, with its leading bit in place,
/// and its exponent.
pub(crate) fn unpack(m: u64) -> (r: (u64, u128))
    requires
        0 < m < INFINITY_BITS,
    ensures
        HIDDEN_BIT <= r.0 < 2 * HIDDEN_BIT,
        BIAS - 52 <= r.1 <= BIAS + 2045,
        binary64::scale(m as nat) * pow2(BIAS as nat) == r.0 * pow2(r.1 as nat),
{
    let e: u64 = m / HIDDEN_BIT;
    let f: u64 = m % HIDDEN_BIT;
    if e == 0 {
        let mut s: u64 = f;
        let mut x: u128 = BIAS;
        proof {
            lemma2_to64();
            lemma2_to64_rest();
        }
        let mut left: u128 = 52;
        while left > 0 && s < HIDDEN_BIT
            invariant
                left <= 52,
                x + 52 == BIAS + left,
                pow2((52 - left) as nat) <= s < 2 * HIDDEN_BIT,
                pow2(52) == HIDDEN_BIT,
                f * pow2(BIAS as nat) == s * pow2(x as nat),
            decreases left,
        {
            proof {
                lemma_pow2_unfold(x as nat);
                lemma_pow2_unfold((53 - left) as nat);
                let p = pow2((x - 1) as nat);
                assert((s * 2) * p == s * (2 * p)) by (nonlinear_arith);
            }
            s = s * 2;
            x = x - 1;
            left = left - 1;
        }
        (s, x)
    } else {
        proof {
            let p = pow2((e - 1) as nat);
            lemma_pow2_adds((e - 1) as nat, BIAS as nat);
            let s = (HIDDEN_BIT + f) as nat;
            assert((s * p) * pow2(BIAS as nat) == s * (p * pow2(BIAS as nat))) by (nonlinear_arith);
        }
        (HIDDEN_BIT + f, BIAS + (e as u128) - 1)
    }
}

/// The magnitude of the product of two positive finite numbers.
fn multiply(a: u64, b: u64) -> (r: u64)
    requires
        0 < a < INFINITY_BITS,
        0 < b < INFINITY_BITS,
    ensures
        r == round::nearest(
            (binary64::scale(a as nat) * binary64::scale(b as nat)) as int,
            pow2(unit_exponent()) as int,
        ),
        r <= INFINITY_BITS,
{
    let (s, x) = unpack(a);
    let (t, y) = unpack(b);
    assert(s * t < 0x40_0000_0000_0000 * 0x40_0000_0000_0000 && s * t >= 0x10_0000_0000_0000
        * 0x10_0000_0000_0000) by (nonlinear_arith)
        requires
            0x10_0000_0000_0000 <= s < 0x20_0000_0000_0000,
            0x10_0000_0000_0000 <= t < 0x20_0000_0000_0000,
    ;
    let c: u128 = (s as u128) * (t as u128);
    let z: u128 = x + y - BIAS - 1074;
    let ghost n: int = (binary64::scale(a as nat) * binary64::scale(b as nat)) as int;
    let ghost d: int = pow2(unit_exponent()) as int;
    proof {
        let bb = pow2(BIAS as nat);
        let u = binary64::scale(a as nat);
        let v = binary64::scale(b as nat);
        let px = pow2(x as nat);
        let py = pow2(y as nat);
        let pz = pow2(z as nat);
        lemma_pow2_adds(x as nat, y as nat);
        lemma_pow2_adds(z as nat, 1074);
        lemma_pow2_adds((z + 1074) as nat, BIAS as nat);
        lemma_pow2_pos(BIAS as nat);
        lemma_pow2_pos(1074);
        assert(px * py == (pz * d) * bb);
        assert((u * bb) * (v * bb) == ((u * v) * bb) * bb) by (nonlinear_arith);
        assert((s * px) * (t * py) == (s * t) * (px * py)) by (nonlinear_arith);
        assert((s * t) * ((pz * d) * bb) == ((s * t) * (pz * d)) * bb) by (nonlinear_arith);
        assert(n * bb == c * (pz * d)) by (nonlinear_arith)
            requires
                (n * bb) * bb == (c * (pz * d)) * bb,
                bb > 0,
        ;
    }
    round::round(c, z, Rest::Zero, Ghost(n), Ghost(d))
}

/// The magnitude of the quotient of two positive finite numbers.
fn divide(a: u64, b: u64) -> (r: u64)
    requires
        0 < a < INFINITY_BITS,
        0 < b < INFINITY_BITS,
    ensures
        r == round::nearest(
            (binary64::scale(a as nat) * pow2(unit_exponent())) as int,
            binary64::scale(b as nat) as int,
        ),
        r <= INFINITY_BITS,
{
    let (s, x) = unpack(a);
    let (t, y) = unpack(b);
    let w: u128 = (s as u128) * 0x2_0000_0000_0000_0000;
    let c: u128 = w / (t as u128);
    let rem: u128 = w % (t as u128);
    let z: u128 = x + BIAS + 1074 - y - 65;
    let rest: Rest = if rem == 0 { Rest::Zero } else { Rest::Between };
    let ghost n: int = (binary64::scale(a as nat) * pow2(unit_exponent())) as int;
    let ghost d: int = binary64::scale(b as nat) as int;
    proof {
        vstd::arithmetic::div_mod::lemma_fundamental_div_mod(w as int, t as int);
        assert(c < 0x8000_0000_0000_0000_0000) by (nonlinear_arith)
            requires
                w == t * c + rem,
                rem >= 0,
                t >= 0x10_0000_0000_0000,
                w < 0x20_0000_0000_0000 * 0x2_0000_0000_0000_0000,
        ;
        assert(c >= 0x1_0000_0000_0000_0000) by (nonlinear_arith)
            requires
                w == t * c + rem,
                rem < t,
                t < 0x20_0000_0000_0000,
                w >= 0x10_0000_0000_0000 * 0x2_0000_0000_0000_0000,
        ;
        let bb = pow2(BIAS as nat);
        let u = binary64::scale(a as nat);
        let px = pow2(x as nat);
        let py = pow2(y as nat);
        let pz = pow2(z as nat);
        binary64::lemma_scale_order(b as nat, 0);
        lemma_pow2_pos(BIAS as nat);
        lemma_pow2_adds(x as nat, 1074);
        lemma_pow2_adds((x + 1074) as nat, BIAS as nat);
        lemma_pow2_adds(z as nat, y as nat);
        lemma_pow2_adds((z + y) as nat, 65);
        lemma_pow2_unfold(65);
        lemma2_to64_rest();
        let e = pow2(unit_exponent());
        let k = pz * py;
        lemma_pow2_pos((z + y) as nat);
        assert((px * e) * bb == k * 0x2_0000_0000_0000_0000);
        let v = n * bb;
        let q = pz * d;
        // Times the bias once more, both sides are products of significands.
        assert(v * bb == (s * px) * e * bb) by (nonlinear_arith)
            requires
                v == (u * e) * bb,
                u * bb == s * px,
        ;
        assert((s * px) * e * bb == s * ((px * e) * bb)) by (nonlinear_arith);
        assert(s * (k * 0x2_0000_0000_0000_0000) == w * k) by (nonlinear_arith)
            requires
                w == s * 0x2_0000_0000_0000_0000,
        ;
        assert(q * bb == t * k) by (nonlinear_arith)
            requires
                q == pz * d,
                d * bb == t * py,
                k == pz * py,
        ;
        assert(v * bb == c * (t * k) + rem * k) by (nonlinear_arith)
            requires
                v * bb == w * k,
                w == t * c + rem,
        ;
        assert(c * (q * bb) == (c * q) * bb) by (nonlinear_arith);
        if rem == 0 {
            assert(v == c * q) by (nonlinear_arith)
                requires
                    v * bb == (c * q) * bb + rem * k,
                    rem == 0,
                    bb > 0,
            ;
        } else {
            assert(v > c * q) by (nonlinear_arith)
                requires
                    v * bb == (c * q) * bb + rem * k,
                    rem > 0,
                    k > 0,
                    bb > 0,
            ;
            assert(rem * k < q * bb) by (nonlinear_arith)
                requires
                    q * bb == t * k,
                    rem < t,
                    k > 0,
            ;
            assert((c + 1) * q == c * q + q) by (nonlinear_arith);
            assert(v < c * q + q) by (nonlinear_arith)
                requires
                    v * bb == (c * q) * bb + rem * k,
                    rem * k < q * bb,
                    bb > 0,
            ;
        }
    }
    round::round(c, z, rest, Ghost(n), Ghost(d))
}

/// A significand shifted right by `by` bits from 64 bits above its place: the
/// digits that are left, and whether any nonzero digit fell off.
fn align(t: u64, by: u128) -> (r: (u128, bool, Ghost<nat>))
    requires
        HIDDEN_BIT <= t < 2 * HIDDEN_BIT,
    ensures
        t * 0x1_0000_0000_0000_0000 == r.0 * pow2(by as nat) + r.2@,
        r.2@ < pow2(by as nat),
        r.1 == (r.2@ > 0),
{
    let mut p: u128 = (t as u128) * 0x1_0000_0000_0000_0000;
    let mut lost: bool = false;
    let mut k: u128 = 0;
    let ghost mut low: nat = 0;
    proof {
        lemma2_to64();
    }
    while k < by && p > 0
        invariant
            k <= by,
            t > 0,
            t * 0x1_0000_0000_0000_0000 == p * pow2(k as nat) + low,
            low < pow2(k as nat),
            lost == (low > 0),
        decreases p,
    {
        proof {
            let w = pow2(k as nat);
            lemma_pow2_unfold((k + 1) as nat);
            let h = p / 2;
            let bit = p % 2;
            assert(p * w + low == h * (2 * w) + (bit * w + low)) by (nonlinear_arith)
                requires
                    p == 2 * h + bit,
            ;
            assert(bit * w + low < 2 * w && (bit * w + low > 0 <==> bit > 0 || low > 0)) by (
            nonlinear_arith)
                requires
                    0 <= bit <= 1,
                    0 <= low < w,
            ;
            low = (bit * w + low) as nat;
        }
        if p % 2 == 1 {
            lost = true;
        }
        p = p / 2;
        k = k + 1;
    }
    proof {
        if k < by {
            lemma_pow2_strictly_increases(k as nat, by as nat);
            assert(p * pow2(k as nat) == 0 && p * pow2(by as nat) == 0) by (nonlinear_arith)
                requires
                    p == 0,
            ;
        }
    }
    (p, lost, Ghost(low))
}

/// The exponents of two numbers are ordered as their magnitudes are.
proof fn lemma_exponent_order(s: nat, x: nat, t: nat, y: nat)
    requires
        HIDDEN_BIT <= s < 2 * HIDDEN_BIT,
        HIDDEN_BIT <= t < 2 * HIDDEN_BIT,
        t * pow2(y) <= s * pow2(x),
    ensures
        y <= x,
{
    if x < y {
        let p = pow2(x);
        lemma_pow2_pos(x);
        lemma_pow2_adds(x, 1);
        lemma2_to64();
        if x + 1 < y {
            lemma_pow2_strictly_increases(x + 1, y);
        }
        let r = pow2(y);
        assert(t * r > s * p) by (nonlinear_arith)
            requires
                r >= 2 * p,
                p > 0,
                t >= 0x10_0000_0000_0000,
                s < 0x20_0000_0000_0000,
        ;
    }
}

/// Two aligned significands give the exact sum or difference, times two to the
/// power of their distance.
proof fn lemma_aligned(u: nat, v: nat, s: nat, x: nat, t: nat, y: nat, z: nat, p: nat, low: nat)
    requires
        y <= x,
        z + 64 == x,
        u * pow2(BIAS as nat) == s * pow2(x),
        v * pow2(BIAS as nat) == t * pow2(y),
        t * 0x1_0000_0000_0000_0000 == p * pow2((x - y) as nat) + low,
    ensures
        (u * pow2(BIAS as nat)) == (s * 0x1_0000_0000_0000_0000) * pow2(z),
        (v * pow2(BIAS as nat)) * pow2((x - y) as nat) == p * pow2((x - y) as nat) * pow2(z) + low
            * pow2(z),
{
    let pz = pow2(z);
    let g = pow2((x - y) as nat);
    let py = pow2(y);
    lemma_pow2_adds(z, 64);
    lemma2_to64_rest();
    lemma_pow2_adds(y, (x - y) as nat);
    assert(py * g == pow2(x));
    assert(pz * 0x1_0000_0000_0000_0000 == pow2(x));
    assert(s * (pz * 0x1_0000_0000_0000_0000) == (s * 0x1_0000_0000_0000_0000) * pz)
        by (nonlinear_arith);
    assert((t * py) * g == t * (py * g)) by (nonlinear_arith);
    assert(t * (pz * 0x1_0000_0000_0000_0000) == (t * 0x1_0000_0000_0000_0000) * pz)
        by (nonlinear_arith);
    assert((p * g + low) * pz == p * g * pz + low * pz) by (nonlinear_arith);
}

/// The magnitude of the sum of two positive finite numbers.
fn add_magnitudes(a: u64, b: u64) -> (r: u64)
    requires
        0 < b <= a < INFINITY_BITS,
    ensures
        r == round::nearest((binary64::scale(a as nat) + binary64::scale(b as nat)) as int, 1),
        r <= INFINITY_BITS,
{
    let (s, x) = unpack(a);
    let (t, y) = unpack(b);
    let ghost u = binary64::scale(a as nat);
    let ghost v = binary64::scale(b as nat);
    let ghost bb = pow2(BIAS as nat);
    proof {
        binary64::lemma_scale_order(b as nat, a as nat);
        assert(v * bb <= u * bb) by (nonlinear_arith)
            requires
                v <= u,
        ;
        lemma_exponent_order(s as nat, x as nat, t as nat, y as nat);
    }
    let (p, lost, Ghost(low)) = align(t, x - y);
    let z: u128 = x - 64;
    let rest: Rest = if lost { Rest::Between } else { Rest::Zero };
    proof {
        let g = pow2((x - y) as nat);
        let pz = pow2(z as nat);
        lemma_pow2_pos((x - y) as nat);
        lemma_pow2_pos(z as nat);
        lemma_aligned(u, v, s as nat, x as nat, t as nat, y as nat, z as nat, p as nat, low);
        assert(p <= t * 0x1_0000_0000_0000_0000) by (nonlinear_arith)
            requires
                t * 0x1_0000_0000_0000_0000 == p * g + low,
                g >= 1,
                low >= 0,
                p >= 0,
        ;
        let c = s * 0x1_0000_0000_0000_0000 + p;
        let n = (u + v) as int;
        assert((u + v) * bb == u * bb + v * bb) by (nonlinear_arith);
        let w = v * bb;
        assert(n * bb == (s * 0x1_0000_0000_0000_0000) * pz + w);
        assert(c * pz == (s * 0x1_0000_0000_0000_0000) * pz + p * pz) by (nonlinear_arith)
            requires
                c == s * 0x1_0000_0000_0000_0000 + p,
        ;
        assert((c + 1) * pz == c * pz + pz) by (nonlinear_arith);
        if lost {
            assert(w > p * pz) by (nonlinear_arith)
                requires
                    w * g == p * g * pz + low * pz,
                    low > 0,
                    pz > 0,
                    g > 0,
            ;
            assert(w < p * pz + pz) by (nonlinear_arith)
                requires
                    w * g == p * g * pz + low * pz,
                    low < g,
                    pz > 0,
                    g > 0,
            ;
        } else {
            assert(w == p * pz) by (nonlinear_arith)
                requires
                    w * g == p * g * pz + low * pz,
                    low == 0,
                    g > 0,
            ;
        }
        assert(pz * 1 == pz);
    }
    let c: u128 = (s as u128) * 0x1_0000_0000_0000_0000 + p;
    round::round(c, z, rest, Ghost((u + v) as int), Ghost(1))
}

/// The magnitude of the difference of two positive finite numbers.
fn subtract_magnitudes(a: u64, b: u64) -> (r: u64)
    requires
        0 < b < a < INFINITY_BITS,
    ensures
        r == round::nearest(binary64::scale(a as nat) - binary64::scale(b as nat), 1),
        r <= INFINITY_BITS,
{
    let (s, x) = unpack(a);
    let (t, y) = unpack(b);
    let ghost u = binary64::scale(a as nat);
    let ghost v = binary64::scale(b as nat);
    let ghost bb = pow2(BIAS as nat);
    proof {
        binary64::lemma_scale_order(b as nat, a as nat);
        lemma_pow2_pos(BIAS as nat);
        assert(v * bb < u * bb) by (nonlinear_arith)
            requires
                v < u,
                bb > 0,
        ;
        lemma_exponent_order(s as nat, x as nat, t as nat, y as nat);
    }
    let (p, lost, Ghost(low)) = align(t, x - y);
    let z: u128 = x - 64;
    let rest: Rest = if lost { Rest::Between } else { Rest::Zero };
    let ghost n: int = u - v;
    proof {
        let g = pow2((x - y) as nat);
        let pz = pow2(z as nat);
        lemma_pow2_pos((x - y) as nat);
        lemma_pow2_pos(z as nat);
        lemma_aligned(u, v, s as nat, x as nat, t as nat, y as nat, z as nat, p as nat, low);
        let top = s * 0x1_0000_0000_0000_0000;
        assert((u - v) * bb == u * bb - v * bb) by (nonlinear_arith);
        let w = v * bb;
        assert(n * bb == top * pz - w);
        assert((top - p) * pz == top * pz - p * pz) by (nonlinear_arith);
        assert((top - p - 1) * pz == top * pz - p * pz - pz) by (nonlinear_arith);
        if lost {
            assert(w > p * pz) by (nonlinear_arith)
                requires
                    w * g == p * g * pz + low * pz,
                    low > 0,
                    pz > 0,
                    g > 0,
            ;
            assert(w < p * pz + pz) by (nonlinear_arith)
                requires
                    w * g == p * g * pz + low * pz,
                    low < g,
                    pz > 0,
                    g > 0,
            ;
            // Digits fall off only past 64 places, so the difference stays large.
            lemma2_to64();
            if x - y >= 2 {
                if x - y > 2 {
                    lemma_pow2_strictly_increases(2, (x - y) as nat);
                }
                assert(4 * p <= t * 0x1_0000_0000_0000_0000) by (nonlinear_arith)
                    requires
                        t * 0x1_0000_0000_0000_0000 == p * g + low,
                        g >= 4,
                        low >= 0,
                        p >= 0,
                ;
            } else if x - y == 1 {
                assert(p * g == 2 * p) by (nonlinear_arith)
                    requires
                        g == 2,
                ;
                assert(low == 0);
            }
            assert(x - y >= 2);
        } else {
            assert(w == p * pz) by (nonlinear_arith)
                requires
                    w * g == p * g * pz + low * pz,
                    low == 0,
                    g > 0,
            ;
            assert(top > p) by (nonlinear_arith)
                requires
                    top * pz > p * pz,
                    pz > 0,
            ;
        }
        assert(pz * 1 == pz);
    }
    let top: u128 = (s as u128) * 0x1_0000_0000_0000_0000;
    let c: u128 = if lost { top - p - 1 } else { top - p };
    round::round(c, z, rest, Ghost(n), Ghost(1))
}

impl F64 {
    /// `-self`.
    pub fn neg(self) -> (r: F64)
        ensures
            r == negation(self),
    {
        if self.bits >= SIGN_BIT {
            F64 { bits: self.bits - SIGN_BIT }
        } else {
            F64 { bits: self.bits + SIGN_BIT }
        }
    }

    /// `self + other`.
    pub fn plus(self, other: F64) -> (r: F64)
        ensures
            r == sum(self, other),
    {
        let a: u64 = self.bits % SIGN_BIT;
        let b: u64 = other.bits % SIGN_BIT;
        let p: bool = self.bits >= SIGN_BIT;
        let q: bool = other.bits >= SIGN_BIT;
        proof {
            binary64::lemma_scale_order(a as nat, b as nat);
            binary64::lemma_scale_order(b as nat, a as nat);
        }
        if a > INFINITY_BITS || b > INFINITY_BITS {
            F64 { bits: NAN_BITS }
        } else if a == INFINITY_BITS {
            if b == INFINITY_BITS && p != q {
                F64 { bits: NAN_BITS }
            } else {
                self
            }
        } else if b == INFINITY_BITS {
            other
        } else if a == 0 && b == 0 {
            binary64::make(p && q, 0)
        } else if b == 0 {
            proof {
                lemma_nearest_exact(a as nat);
            }
            self
        } else if a == 0 {
            proof {
                lemma_nearest_exact(b as nat);
            }
            other
        } else if p == q {
            if b <= a {
                binary64::make(p, add_magnitudes(a, b))
            } else {
                binary64::make(p, add_magnitudes(b, a))
            }
        } else if a == b {
            binary64::make(false, 0)
        } else if b < a {
            binary64::make(p, subtract_magnitudes(a, b))
        } else {
            binary64::make(q, subtract_magnitudes(b, a))
        }
    }

    /// `self - other`.
    pub fn minus(self, other: F64) -> (r: F64)
        ensures
            r == difference(self, other),
    {
        self.plus(other.neg())
    }

    /// `self * other`.
    pub fn times(self, other: F64) -> (r: F64)
        ensures
            r == product(self, other),
    {
        let a: u64 = self.bits % SIGN_BIT;
        let b: u64 = other.bits % SIGN_BIT;
        let negative: bool = (self.bits >= SIGN_BIT) != (other.bits >= SIGN_BIT);
        if a > INFINITY_BITS || b > INFINITY_BITS {
            F64 { bits: NAN_BITS }
        } else if a == INFINITY_BITS || b == INFINITY_BITS {
            if a == 0 || b == 0 {
                F64 { bits: NAN_BITS }
            } else {
                binary64::make(negative, INFINITY_BITS)
            }
        } else if a == 0 || b == 0 {
            proof {
                lemma_pow2_pos(unit_exponent());
                lemma_nearest_zero(pow2(unit_exponent()) as int);
                assert(binary64::scale(0) == 0);
                assert(absolute(self.units()) * absolute(other.units()) == 0) by (nonlinear_arith)
                    requires
                        absolute(self.units()) == 0 || absolute(other.units()) == 0,
                ;
            }
            binary64::make(negative, 0)
        } else {
            binary64::make(negative, multiply(a, b))
        }
    }

    /// `self / other`.
    pub fn over(self, other: F64) -> (r: F64)
        ensures
            r == quotient(self, other),
    {
        let a: u64 = self.bits % SIGN_BIT;
        let b: u64 = other.bits % SIGN_BIT;
        let negative: bool = (self.bits >= SIGN_BIT) != (other.bits >= SIGN_BIT);
        if a > INFINITY_BITS || b > INFINITY_BITS || (a == INFINITY_BITS && b == INFINITY_BITS) || (a
            == 0 && b == 0) {
            F64 { bits: NAN_BITS }
        } else if a == INFINITY_BITS || b == 0 {
            binary64::make(negative, INFINITY_BITS)
        } else if b == INFINITY_BITS {
            binary64::make(negative, 0)
        } else if a == 0 {
            proof {
                binary64::lemma_scale_order(b as nat, 0);
                lemma_nearest_zero(absolute(other.units()));
                assert(binary64::scale(0) == 0);
                assert(0 * pow2(unit_exponent()) == 0);
            }
            binary64::make(negative, 0)
        } else {
            binary64::make(negative, divide(a, b))
        }
    }
}

} // verus!
