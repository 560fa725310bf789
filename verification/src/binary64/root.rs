//! The square root.

use vstd::prelude::*;
use vstd::arithmetic::power2::*;
use crate::binary64;
use crate::binary64::{F64, HIDDEN_BIT, INFINITY_BITS, NAN_BITS, SIGN_BIT};
use crate::binary64::arith;
use crate::binary64::round;
use crate::binary64::round::{Rest, BIAS};

verus! {

/// Whether `m` is the magnitude of the binary64 number nearest to the square
/// root of `n` units: the root lies between the midpoints on either side of `m`.
pub open spec fn is_nearest_root(n: int, m: nat) -> bool {
    &&& 0 < m < INFINITY_BITS
    &&& {
        let low = binary64::scale((m - 1) as nat) + binary64::scale(m);
        if m % 2 == 0 { low * low <= 4 * n } else { low * low < 4 * n }
    }
    &&& {
        let high = binary64::scale(m) + binary64::scale(m + 1);
        if m % 2 == 0 { 4 * n <= high * high } else { 4 * n < high * high }
    }
}

/// The magnitude of the number nearest to the square root of `n` units.
pub open spec fn nearest_root(n: int) -> nat {
    choose|m: nat| is_nearest_root(n, m)
}

/// The square root of a number: the nearest number to the exact root. That of a
/// zero is the zero itself, a negative number has none.
pub open spec fn square_root(a: F64) -> F64 {
    if a.nan() {
        arith::not_a_number()
    } else if a.magnitude() == 0 {
        a
    } else if a.negative() {
        arith::not_a_number()
    } else if a.infinite() {
        a
    } else {
        binary64::signed(
            false,
            nearest_root((binary64::scale(a.magnitude()) * pow2(arith::unit_exponent())) as int),
        )
    }
}

/// A value has no two nearest roots.
proof fn lemma_root_unique(n: int, a: nat, b: nat)
    requires
        a <= b,
        is_nearest_root(n, a),
        is_nearest_root(n, b),
    ensures
        a == b,
{
    if a < b {
        let high = binary64::scale(a) + binary64::scale(a + 1);
        let low = binary64::scale((b - 1) as nat) + binary64::scale(b);
        if a + 1 < b {
            binary64::lemma_scale_increases(a, (b - 1) as nat);
            binary64::lemma_scale_increases(a + 1, b);
            assert(high * high < low * low) by (nonlinear_arith)
                requires
                    0 <= high < low,
            ;
        }
    }
}

proof fn lemma_root_is(n: int, m: nat)
    requires
        is_nearest_root(n, m),
    ensures
        nearest_root(n) == m,
{
    let r = nearest_root(n);
    if m <= r {
        lemma_root_unique(n, m, r);
    } else {
        lemma_root_unique(n, r, m);
    }
}

/// The integer square root.
fn integer_root(w: u128) -> (c: u128)
    requires
        w < 0x4000_0000_0000_0000_0000_0000_0000_0000,
    ensures
        c * c <= w < (c + 1) * (c + 1),
        c < 0x8000_0000_0000_0000,
{
    let mut low: u128 = 0;
    let mut high: u128 = 0x8000_0000_0000_0000;
    while high - low > 1
        invariant
            low < high <= 0x8000_0000_0000_0000,
            low * low <= w < high * high,
        decreases high - low,
    {
        let mid: u128 = low + (high - low) / 2;
        assert(mid * mid < 0x4000_0000_0000_0000_0000_0000_0000_0000) by (nonlinear_arith)
            requires
                0 <= mid < 0x8000_0000_0000_0000,
        ;
        if mid * mid <= w {
            low = mid;
        } else {
            high = mid;
        }
    }
    low
}

/// Magnitudes from `(k + 1) * HIDDEN_BIT` on have values that are whole
/// multiples of two to the power `k`.
proof fn lemma_scale_multiple(m: nat, k: nat) -> (f: nat)
    requires
        m >= (k + 1) * HIDDEN_BIT,
    ensures
        binary64::scale(m) == f * pow2(k),
{
    let h = HIDDEN_BIT as nat;
    let e = m / h;
    assert(e >= k + 1) by {
        vstd::arithmetic::div_mod::lemma_div_is_ordered(((k + 1) * h) as int, m as int, h as int);
        vstd::arithmetic::div_mod::lemma_div_by_multiple((k + 1) as int, h as int);
    }
    let s = (h + m % h) as nat;
    let j = (e - 1 - k) as nat;
    lemma_pow2_adds(j, k);
    assert(s * (pow2(j) * pow2(k)) == (s * pow2(j)) * pow2(k)) by (nonlinear_arith);
    s * pow2(j)
}

/// A root that is not exact rounds as the value halfway up its last digit.
///
/// `c` is the root's whole part at the weight of the exponent `z`, and `m` the
/// number nearest to `c` and the part `half` of one half or nothing.
proof fn lemma_root_digits(n: int, w: nat, c: nat, z: nat, exact: bool, m: nat)
    requires
        n * (pow2(BIAS as nat) * pow2(BIAS as nat)) == w * (pow2(z) * pow2(z)),
        c >= 0x4000_0000_0000_0000,
        c * c <= w < (c + 1) * (c + 1),
        exact == (c * c == w),
        c < 0x8000_0000_0000_0000,
        BIAS + 2 <= z <= BIAS + 1900,
        round::is_nearest(
            if exact { (2 * c * pow2(z)) as int } else { ((2 * c + 1) * pow2(z)) as int },
            2 * pow2(BIAS as nat) as int,
            m,
        ),
    ensures
        is_nearest_root(n, m),
{
    let b = pow2(BIAS as nat);
    let pz = pow2(z);
    let k = (z + 1 - BIAS) as nat;
    let pk = pow2(k);
    lemma_pow2_pos(BIAS as nat);
    lemma_pow2_pos(z);
    lemma_pow2_pos(k);
    lemma_pow2_unfold(z + 1);
    lemma_pow2_adds(BIAS as nat, k);
    assert(b * pk == 2 * pz);
    let h = HIDDEN_BIT as nat;
    let num: int = if exact { (2 * c * pz) as int } else { ((2 * c + 1) * pz) as int };
    // A magnitude whose neighbours are finer than the digits would be too small.
    assert(m >= (k + 1) * h + 1) by {
        if m < (k + 1) * h + 1 {
            let top = ((k + 1) * h + 1) as nat;
            assert((k + 1) * h + 1 <= INFINITY_BITS) by (nonlinear_arith)
                requires
                    h == 0x10_0000_0000_0000,
                    k <= 1901,
                    INFINITY_BITS == 0x7ff0_0000_0000_0000u64,
            ;
            binary64::lemma_scale_order(m + 1, top);
            binary64::lemma_scale_order(m, m + 1);
            vstd::arithmetic::div_mod::lemma_fundamental_div_mod_converse(
                top as int,
                h as int,
                k as int + 1,
                1,
            );
            assert(binary64::scale(top) == (h + 1) * pk);
            let high = binary64::scale(m) + binary64::scale(m + 1);
            assert(high <= 2 * ((h + 1) * pk));
            let hb = high * (2 * b);
            assert(hb <= 8 * ((h + 1) * pz)) by (nonlinear_arith)
                requires
                    hb == high * (2 * b),
                    high <= 2 * ((h + 1) * pk),
                    b * pk == 2 * pz,
                    b > 0,
            ;
            assert(2 * num >= 4 * (c * pz)) by (nonlinear_arith)
                requires
                    num == 2 * c * pz || num == (2 * c + 1) * pz,
                    pz > 0,
            ;
            assert(4 * (c * pz) > 8 * ((h + 1) * pz)) by (nonlinear_arith)
                requires
                    c >= 0x4000_0000_0000_0000,
                    h == 0x10_0000_0000_0000,
                    pz > 0,
            ;
        }
    }
    assert(m < INFINITY_BITS) by {
        if m >= INFINITY_BITS {
            let i = INFINITY_BITS as nat;
            let low = binary64::scale((i - 1) as nat) + binary64::scale(i);
            assert(i / h == 2047 && i % h == 0);
            assert(binary64::scale(i) == h * pow2(2046));
            lemma_pow2_strictly_increases(k, 2000);
            lemma_pow2_adds(2000, 46);
            lemma2_to64_rest();
            lemma2_to64();
            assert(pow2(46) == 0x4000_0000_0000);
            let p46 = pow2(2046);
            assert(p46 == pow2(2000) * 0x4000_0000_0000);
            assert(p46 >= pk * 0x4000_0000_0000);
            let lb = low * (2 * b);
            assert(lb >= (h * (pk * 0x4000_0000_0000)) * (2 * b)) by (nonlinear_arith)
                requires
                    lb == low * (2 * b),
                    low >= h * p46,
                    p46 >= pk * 0x4000_0000_0000,
                    b > 0,
                    h >= 0,
            ;
            assert((h * (pk * 0x4000_0000_0000)) * (2 * b) == (h * 0x1_0000_0000_0000) * pz)
                by (nonlinear_arith)
                requires
                    b * pk == 2 * pz,
            ;
            assert(2 * num <= (4 * c + 2) * pz) by (nonlinear_arith)
                requires
                    num == 2 * c * pz || num == (2 * c + 1) * pz,
                    pz > 0,
            ;
            assert((h * 0x1_0000_0000_0000) * pz > (4 * c + 2) * pz) by (nonlinear_arith)
                requires
                    c < 0x8000_0000_0000_0000,
                    h == 0x10_0000_0000_0000,
                    pz > 0,
            ;
        }
    }
    assert((k + 1) * h >= 1) by (nonlinear_arith)
        requires
            h >= 1,
    ;
    let f0 = lemma_scale_multiple((m - 1) as nat, k);
    let f1 = lemma_scale_multiple(m, k);
    let f2 = lemma_scale_multiple(m + 1, k);
    let low = binary64::scale((m - 1) as nat) + binary64::scale(m);
    let high = binary64::scale(m) + binary64::scale(m + 1);
    assert(low == (f0 + f1) * pk && high == (f1 + f2) * pk) by (nonlinear_arith)
        requires
            low == f0 * pk + f1 * pk,
            high == f1 * pk + f2 * pk,
    ;
    lemma_side(n, w, c, z, exact, low, f0 + f1);
    lemma_side(n, w, c, z, exact, high, f1 + f2);
}

/// Where a midpoint `a` lies from the root, by where it lies from the digits.
proof fn lemma_side(n: int, w: nat, c: nat, z: nat, exact: bool, a: nat, f: nat)
    requires
        n * (pow2(BIAS as nat) * pow2(BIAS as nat)) == w * (pow2(z) * pow2(z)),
        c * c <= w < (c + 1) * (c + 1),
        exact == (c * c == w),
        z >= BIAS,
        a == f * pow2((z + 1 - BIAS) as nat),
    ensures
        ({
            let num = if exact { (2 * c * pow2(z)) as int } else { ((2 * c + 1) * pow2(z)) as int };
            let mid = a * (2 * pow2(BIAS as nat) as int);
            &&& mid < 2 * num ==> a * a < 4 * n
            &&& mid == 2 * num ==> a * a == 4 * n
            &&& mid > 2 * num ==> a * a > 4 * n
        }),
{
    let b = pow2(BIAS as nat);
    let pz = pow2(z);
    let k = (z + 1 - BIAS) as nat;
    let pk = pow2(k);
    lemma_pow2_pos(BIAS as nat);
    lemma_pow2_pos(z);
    lemma_pow2_unfold(z + 1);
    lemma_pow2_adds(BIAS as nat, k);
    let num: int = if exact { (2 * c * pz) as int } else { ((2 * c + 1) * pz) as int };
    let mid = a * (2 * b);
    // In digits: the midpoint is f of them, doubled, and the root squared is w.
    assert(a * b == (2 * f) * pz) by (nonlinear_arith)
        requires
            a == f * pk,
            b * pk == 2 * pz,
    ;
    assert(mid == (4 * f) * pz) by (nonlinear_arith)
        requires
            mid == a * (2 * b),
            a * b == (2 * f) * pz,
    ;
    let bb = b * b;
    let zz = pz * pz;
    assert(bb > 0) by (nonlinear_arith)
        requires
            bb == b * b,
            b > 0,
    ;
    assert(zz > 0) by (nonlinear_arith)
        requires
            zz == pz * pz,
            pz > 0,
    ;
    assert((a * a) * bb == (4 * (f * f)) * zz) by (nonlinear_arith)
        requires
            a * b == (2 * f) * pz,
            bb == b * b,
            zz == pz * pz,
    ;
    assert((4 * n) * bb == (4 * w) * zz) by (nonlinear_arith)
        requires
            n * bb == w * zz,
    ;
    lemma_order((a * a) as int, 4 * n, bb as int, (4 * (f * f)) as int, (4 * w) as int, zz as int);
    if exact {
        assert(num == (2 * c) * pz);
        assert(2 * num == (4 * c) * pz) by (nonlinear_arith)
            requires
                num == (2 * c) * pz,
        ;
        lemma_products(4 * f as int, 4 * c as int, pz as int);
        lemma_squares(f, c);
    } else {
        assert(2 * num == (4 * c + 2) * pz) by (nonlinear_arith)
            requires
                num == (2 * c + 1) * pz,
        ;
        lemma_products(4 * f as int, 4 * c as int + 2, pz as int);
        if f <= c {
            lemma_squares(f, c);
        } else {
            lemma_squares(c + 1, f);
        }
    }
}

proof fn lemma_order(x: int, y: int, p: int, u: int, v: int, q: int)
    requires
        p > 0,
        q > 0,
        x * p == u * q,
        y * p == v * q,
    ensures
        x < y <==> u < v,
        x == y <==> u == v,
{
    lemma_products(x, y, p);
    lemma_products(u, v, q);
}

proof fn lemma_products(x: int, y: int, p: int)
    requires
        p > 0,
    ensures
        x * p < y * p <==> x < y,
        x * p == y * p <==> x == y,
{
    assert(x * p < y * p <==> x < y) by (nonlinear_arith)
        requires
            p > 0,
    ;
    assert(x * p == y * p <==> x == y) by (nonlinear_arith)
        requires
            p > 0,
    ;
}

proof fn lemma_squares(x: nat, y: nat)
    ensures
        x * x < y * y <==> x < y,
        x * x == y * y <==> x == y,
{
    assert(x * x < y * y <==> x < y) by (nonlinear_arith)
        requires
            x >= 0,
            y >= 0,
    ;
    assert(x * x == y * y <==> x == y) by (nonlinear_arith)
        requires
            x >= 0,
            y >= 0,
    ;
}

/// The magnitude of the square root of a positive finite number.
fn root(m: u64) -> (r: u64)
    requires
        0 < m < INFINITY_BITS,
    ensures
        r == nearest_root((binary64::scale(m as nat) * pow2(arith::unit_exponent())) as int),
        r < INFINITY_BITS,
{
    let (s, x) = arith::unpack(m);
    // An even number of places goes to the exponent, the others to the digits.
    let odd: bool = (x + 1074 + BIAS) % 2 == 1;
    let (w, z): (u128, u128) = if odd {
        ((s as u128) * 0x200_0000_0000_0000_0000, (x + 1074 + BIAS - 73) / 2)
    } else {
        ((s as u128) * 0x100_0000_0000_0000_0000, (x + 1074 + BIAS - 72) / 2)
    };
    let c: u128 = integer_root(w);
    let ghost n: int = (binary64::scale(m as nat) * pow2(arith::unit_exponent())) as int;
    let ghost b = pow2(BIAS as nat);
    let ghost pz = pow2(z as nat);
    proof {
        assert(c >= 0x4000_0000_0000_0000) by (nonlinear_arith)
            requires
                w < (c + 1) * (c + 1),
                w >= 0x1000_0000_0000_0000_0000_0000_0000_0000,
                c >= 0,
        ;
        let j: nat = if odd { 73 } else { 72 };
        lemma2_to64_rest();
        lemma2_to64();
        lemma_pow2_adds(64, 8);
        lemma_pow2_adds(64, 9);
        assert(w == s * pow2(j));
        lemma_pow2_adds(z as nat, z as nat);
        lemma_pow2_adds(j, (z + z) as nat);
        lemma_pow2_adds(x as nat, 1074);
        lemma_pow2_adds((x + 1074) as nat, BIAS as nat);
        let u = binary64::scale(m as nat);
        let e = pow2(1074);
        let px = pow2(x as nat);
        assert(n * (b * b) == ((u * b) * e) * b) by (nonlinear_arith)
            requires
                n == u * e,
        ;
        assert(((s * px) * e) * b == s * ((px * e) * b)) by (nonlinear_arith);
        assert(s * (pow2(j) * (pz * pz)) == (s * pow2(j)) * (pz * pz)) by (nonlinear_arith);
        assert(n * (b * b) == w * (pz * pz));
        lemma_pow2_pos(BIAS as nat);
    }
    let exact: bool = c * c == w;
    let rest: Rest = if exact { Rest::Zero } else { Rest::Between };
    let ghost num: int = if exact { 2 * c * pz } else { (2 * c + 1) * pz };
    let ghost den: int = 2 * b as int;
    proof {
        let v = num * b;
        let q = pz * den;
        assert(q == 2 * (pz * b)) by (nonlinear_arith)
            requires
                q == pz * den,
                den == 2 * b,
        ;
        let g = pz * b;
        lemma_pow2_pos(z as nat);
        assert(g > 0) by (nonlinear_arith)
            requires
                g == pz * b,
                pz > 0,
                b > 0,
        ;
        assert(v == (2 * c) * g || v == (2 * c + 1) * g) by (nonlinear_arith)
            requires
                v == num * b,
                num == 2 * c * pz || num == (2 * c + 1) * pz,
                g == pz * b,
        ;
        if exact {
            assert(v == (2 * c) * g) by (nonlinear_arith)
                requires
                    v == num * b,
                    num == 2 * c * pz,
                    g == pz * b,
            ;
        } else {
            assert(v == (2 * c + 1) * g) by (nonlinear_arith)
                requires
                    v == num * b,
                    num == (2 * c + 1) * pz,
                    g == pz * b,
            ;
        }
        assert(c * (2 * g) == (2 * c) * g) by (nonlinear_arith);
        assert((c + 1) * (2 * g) == (2 * c) * g + 2 * g) by (nonlinear_arith);
        assert((2 * c + 1) * g == (2 * c) * g + g) by (nonlinear_arith);
    }
    let r: u64 = round::round(c, z, rest, Ghost(num), Ghost(den));
    proof {
        lemma_root_digits(n, w as nat, c as nat, z as nat, exact, r as nat);
        lemma_root_is(n, r as nat);
    }
    r
}

impl F64 {
    /// The square root of `self`.
    pub fn sqrt(self) -> (r: F64)
        ensures
            r == square_root(self),
    {
        let m: u64 = self.bits % SIGN_BIT;
        if m > INFINITY_BITS {
            F64 { bits: NAN_BITS }
        } else if m == 0 {
            self
        } else if self.bits >= SIGN_BIT {
            F64 { bits: NAN_BITS }
        } else if m == INFINITY_BITS {
            self
        } else {
            binary64::make(false, root(m))
        }
    }
}

} // verus!
