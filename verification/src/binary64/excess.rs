//! How far a value that was rounded several times can lie above another.

use vstd::prelude::*;
use vstd::arithmetic::power2::*;
use crate::binary64;
use crate::binary64::{F64, HIDDEN_BIT};
use crate::binary64::cast;
use crate::binary64::error;
use crate::binary64::laws;
use crate::binary64::root;

verus! {

/// Whether `a` is above `b` by no more than the part `j / 1048576` of `b`.
pub open spec fn within_parts(a: int, b: int, j: int) -> bool {
    a * 0x10_0000 <= b * (0x10_0000 + j)
}

/// The parts add up, with one for their product.
pub proof fn lemma_chain(a: int, b: int, c: int, j: int, k: int)
    requires
        within_parts(a, b, j),
        within_parts(b, c, k),
        0 <= j <= 1000,
        0 <= k <= 1000,
        c >= 0,
    ensures
        within_parts(a, c, j + k + 1),
{
    let m = 0x10_0000int;
    assert((a * m) * m <= (b * (m + j)) * m) by (nonlinear_arith)
        requires
            a * m <= b * (m + j),
            m > 0,
    ;
    assert((b * m) * (m + j) <= (c * (m + k)) * (m + j)) by (nonlinear_arith)
        requires
            b * m <= c * (m + k),
            m + j > 0,
    ;
    assert((b * (m + j)) * m == (b * m) * (m + j)) by (nonlinear_arith);
    lemma_parts_product(c, j, k);
    assert(a * m <= c * (m + (j + k + 1))) by (nonlinear_arith)
        requires
            (a * m) * m <= (c * (m + (j + k + 1))) * m,
            m > 0,
    ;
}

proof fn lemma_parts_product(c: int, j: int, k: int)
    requires
        c >= 0,
        0 <= j <= 1000,
        0 <= k <= 1000,
    ensures
        (c * (0x10_0000 + k)) * (0x10_0000 + j) <= (c * (0x10_0000 + (j + k + 1))) * 0x10_0000,
{
    let m = 0x10_0000int;
    assert((m + k) * (m + j) <= (m + (j + k + 1)) * m) by (nonlinear_arith)
        requires
            0 <= j <= 1000,
            0 <= k <= 1000,
            m == 0x10_0000,
    ;
    assert(c * ((m + k) * (m + j)) <= c * ((m + (j + k + 1)) * m)) by (nonlinear_arith)
        requires
            c >= 0,
            (m + k) * (m + j) <= (m + (j + k + 1)) * m,
    ;
    assert(c * ((m + k) * (m + j)) == (c * (m + k)) * (m + j)) by (nonlinear_arith);
    assert(c * ((m + (j + k + 1)) * m) == (c * (m + (j + k + 1))) * m) by (nonlinear_arith);
}

/// A factor of both sides can be added.
pub proof fn lemma_times(a: int, b: int, j: int, k: int)
    requires
        within_parts(a, b, j),
        k >= 0,
    ensures
        within_parts(a * k, b * k, j),
{
    let m = 0x10_0000int;
    assert((a * m) * k <= (b * (m + j)) * k) by (nonlinear_arith)
        requires
            a * m <= b * (m + j),
            k >= 0,
    ;
    assert((a * m) * k == (a * k) * m) by (nonlinear_arith);
    assert((b * (m + j)) * k == (b * k) * (m + j)) by (nonlinear_arith);
}

/// A positive factor of both sides can be dropped.
pub proof fn lemma_cancel(a: int, b: int, j: int, k: int)
    requires
        within_parts(a * k, b * k, j),
        k > 0,
    ensures
        within_parts(a, b, j),
{
    let m = 0x10_0000int;
    assert((a * k) * m == (a * m) * k) by (nonlinear_arith);
    assert((b * k) * (m + j) == (b * (m + j)) * k) by (nonlinear_arith);
    assert(a * m <= b * (m + j)) by (nonlinear_arith)
        requires
            (a * m) * k <= (b * (m + j)) * k,
            k > 0,
    ;
}

/// What is not above another stays so with parts added.
pub proof fn lemma_not_above(a: int, b: int, j: int)
    requires
        a <= b,
        b >= 0,
        j >= 0,
    ensures
        within_parts(a, b, j),
{
    assert(b * j >= 0) by (nonlinear_arith)
        requires
            b >= 0,
            j >= 0,
    ;
    assert(b * (0x10_0000 + j) == b * 0x10_0000 + b * j) by (nonlinear_arith);
}

/// A larger bound can take the place of a bound.
pub proof fn lemma_larger_bound(a: int, b: int, c: int, j: int)
    requires
        within_parts(a, b, j),
        b <= c,
        j >= 0,
    ensures
        within_parts(a, c, j),
{
    assert(b * (0x10_0000 + j) <= c * (0x10_0000 + j)) by (nonlinear_arith)
        requires
            b <= c,
            j >= 0,
    ;
}

/// The parts of factors add up in their product.
pub proof fn lemma_both(a: int, b: int, c: int, d: int, j: int, k: int)
    requires
        within_parts(a, b, j),
        within_parts(c, d, k),
        0 <= j <= 1000,
        0 <= k <= 1000,
        a >= 0,
        b >= 0,
        c >= 0,
        d >= 0,
    ensures
        within_parts(a * c, b * d, j + k + 1),
{
    lemma_times(a, b, j, c);
    lemma_times(c, d, k, b);
    assert(c * b == b * c && d * b == b * d) by (nonlinear_arith);
    assert(b * d >= 0) by (nonlinear_arith)
        requires
            b >= 0,
            d >= 0,
    ;
    lemma_chain(a * c, b * c, b * d, j, k);
}

/// Rounding adds a part at most, where the bound is no smaller than half a unit
/// times two to the power 53.
pub proof fn lemma_close_above(v: int, n: int, d: int, b: int, j: int)
    requires
        error::is_close(v, n, d),
        within_parts(n, b, j),
        n >= 0,
        HIDDEN_BIT * d <= b,
        0 <= j <= 1000,
    ensures
        within_parts(v, b, j + 1),
{
    let m = 0x10_0000int;
    let h = HIDDEN_BIT as int;
    let e = h * d;
    assert((v - n) * (2 * h) == v * (2 * h) - n * (2 * h)) by (nonlinear_arith);
    assert(n * (2 * h) + n == n * (2 * h + 1)) by (nonlinear_arith);
    assert(v * (2 * h) <= n * (2 * h + 1) + e);
    assert((n * m) * (2 * h + 1) <= (b * (m + j)) * (2 * h + 1)) by (nonlinear_arith)
        requires
            n * m <= b * (m + j),
            h > 0,
    ;
    assert((v * (2 * h)) * m <= (n * (2 * h + 1) + e) * m) by (nonlinear_arith)
        requires
            v * (2 * h) <= n * (2 * h + 1) + e,
            m > 0,
    ;
    assert((n * (2 * h + 1) + e) * m == (n * m) * (2 * h + 1) + e * m) by (nonlinear_arith);
    assert(e * m <= b * m) by (nonlinear_arith)
        requires
            e <= b,
            m > 0,
    ;
    assert(b >= 0) by (nonlinear_arith)
        requires
            n * m <= b * (m + j),
            n >= 0,
            m > 0,
            j >= 0,
    ;
    assert((m + j) * (2 * h + 1) + m <= (m + j + 1) * (2 * h)) by (nonlinear_arith)
        requires
            0 <= j <= 1000,
            m == 0x10_0000,
            h == 0x10_0000_0000_0000,
    ;
    assert(b * ((m + j) * (2 * h + 1) + m) <= b * ((m + j + 1) * (2 * h))) by (nonlinear_arith)
        requires
            b >= 0,
            (m + j) * (2 * h + 1) + m <= (m + j + 1) * (2 * h),
    ;
    assert(b * ((m + j) * (2 * h + 1) + m) == (b * (m + j)) * (2 * h + 1) + b * m)
        by (nonlinear_arith);
    assert(b * ((m + j + 1) * (2 * h)) == (b * (m + j + 1)) * (2 * h)) by (nonlinear_arith);
    assert((v * (2 * h)) * m == (v * m) * (2 * h)) by (nonlinear_arith);
    assert(v * m <= b * (m + j + 1)) by (nonlinear_arith)
        requires
            (v * m) * (2 * h) <= (b * (m + j + 1)) * (2 * h),
            h > 0,
    ;
}

/// Rounding takes a part off at most.
pub proof fn lemma_close_below(v: int, n: int, d: int)
    requires
        error::is_close(v, n, d),
        n >= 0,
        HIDDEN_BIT * d <= n,
    ensures
        within_parts(n, v, 1),
{
    let m = 0x10_0000int;
    let h = HIDDEN_BIT as int;
    assert((n - v) * (2 * h) == 2 * ((n - v) * h)) by (nonlinear_arith);
    assert((n - v) * h == n * h - v * h) by (nonlinear_arith);
    assert(n * h - n <= v * h);
    assert((n * h - n) * (m + 1) <= (v * h) * (m + 1)) by (nonlinear_arith)
        requires
            n * h - n <= v * h,
            m > 0,
    ;
    assert((n * m) * h <= (n * h - n) * (m + 1)) by (nonlinear_arith)
        requires
            n >= 0,
            m == 0x10_0000,
            h == 0x10_0000_0000_0000,
    ;
    assert((v * h) * (m + 1) == (v * (m + 1)) * h) by (nonlinear_arith);
    assert(n * m <= v * (m + 1)) by (nonlinear_arith)
        requires
            (n * m) * h <= (v * (m + 1)) * h,
            h > 0,
    ;
}

/// Closeness does not depend on the scale.
pub proof fn lemma_close_times(v: int, n: int, d: int, k: int)
    requires
        error::is_close(v, n, d),
        n >= 0,
        k >= 0,
    ensures
        error::is_close(v * k, n * k, d * k),
{
    let h = HIDDEN_BIT as int;
    assert(n * k >= 0) by (nonlinear_arith)
        requires
            n >= 0,
            k >= 0,
    ;
    assert(((v - n) * (2 * h)) * k <= (n + h * d) * k) by (nonlinear_arith)
        requires
            (v - n) * (2 * h) <= n + h * d,
            k >= 0,
    ;
    assert(((n - v) * (2 * h)) * k <= (n + h * d) * k) by (nonlinear_arith)
        requires
            (n - v) * (2 * h) <= n + h * d,
            k >= 0,
    ;
    assert(((v - n) * (2 * h)) * k == (v * k - n * k) * (2 * h)) by (nonlinear_arith);
    assert(((n - v) * (2 * h)) * k == (n * k - v * k) * (2 * h)) by (nonlinear_arith);
    assert((n + h * d) * k == n * k + h * (d * k)) by (nonlinear_arith);
}

/// What is known of the weight of one.
pub proof fn lemma_weight_of_one()
    ensures
        cast::one() >= 0x1_0000_0000_0000_0000_0000_0000_0000_0000_0000_0000_0000_0000int,
        error::limit() == cast::one() * 0x1000_0000_0000_0000,
{
    lemma2_to64_rest();
    lemma_pow2_adds(64, 64);
    lemma_pow2_adds(128, 64);
    lemma_pow2_adds(192, 882);
    lemma_pow2_pos(882);
    lemma_pow2_adds(1074, 60);
    let (a, b) = (pow2(192) as int, pow2(882) as int);
    assert(a * b >= a) by (nonlinear_arith)
        requires
            a >= 0,
            b >= 1,
    ;
}

/// The last magnitude whose square is not above `n`.
proof fn lemma_last_root(n: int, m: nat) -> (t: nat)
    requires
        0 <= n < binary64::scale(m) * binary64::scale(m),
    ensures
        t < m,
        binary64::scale(t) * binary64::scale(t) <= n,
        n < binary64::scale(t + 1) * binary64::scale(t + 1),
    decreases m,
{
    assert(binary64::scale(0) == 0);
    assert(0nat * 0nat == 0);
    let p = (m - 1) as nat;
    if n < binary64::scale(p) * binary64::scale(p) {
        lemma_last_root(n, p)
    } else {
        p
    }
}

proof fn lemma_square_order(a: int, b: int)
    requires
        0 <= a < b,
    ensures
        a * a < b * b,
{
    assert(a * a < b * b) by (nonlinear_arith)
        requires
            0 <= a < b,
    ;
}

/// A value has a nearest root.
pub proof fn lemma_root_exists(n: int, e: nat)
    requires
        0 < e < 2047,
        1 <= n < pow2(e + 51) * pow2(e + 51),
    ensures
        root::is_nearest_root(n, root::nearest_root(n)),
{
    let h = HIDDEN_BIT as nat;
    laws::lemma_scale_power(e);
    let t = lemma_last_root(n, e * h);
    assert(e * h <= 2046 * h) by (nonlinear_arith)
        requires
            e <= 2046,
            h > 0,
    ;
    let s = binary64::scale(t) as int;
    let s1 = binary64::scale(t + 1) as int;
    binary64::lemma_scale_increases(t, t + 1);
    binary64::lemma_scale_increases(t + 1, t + 2);
    if t == 0 {
        lemma2_to64();
        binary64::lemma_scale_step(0);
        assert(s1 == 1);
        assert(1int * 1int == 1);
    }
    binary64::lemma_scale_increases((t - 1) as nat, t);
    let mid = s + s1;
    if mid * mid < 4 * n || (mid * mid == 4 * n && t % 2 == 1) {
        let high = s1 + binary64::scale(t + 2);
        lemma_square_order(2 * s1, high);
        assert((2 * s1) * (2 * s1) == 4 * (s1 * s1)) by (nonlinear_arith);
        assert(root::is_nearest_root(n, t + 1));
    } else {
        let low = binary64::scale((t - 1) as nat) + s;
        lemma_square_order(low, 2 * s);
        assert((2 * s) * (2 * s) == 4 * (s * s)) by (nonlinear_arith);
        assert(root::is_nearest_root(n, t));
    }
}

/// A root is not above the exact one by more than a part.
pub proof fn lemma_root_above(a: F64)
    requires
        a.finite(),
        a.units() > 0,
        a.units() <= error::limit(),
    ensures
        ({
            let r = root::square_root(a);
            &&& r.finite() && !r.negative()
            &&& r.units() > 0
            &&& within_parts(r.units() * r.units(), a.units() * cast::one(), 1)
        }),
{
    let o = cast::one();
    let l = error::limit();
    let u = a.units();
    let n = u * o;
    let h = HIDDEN_BIT as int;
    lemma_weight_of_one();
    binary64::lemma_scale_order(a.magnitude(), 0);
    assert(o <= n < l * l) by (nonlinear_arith)
        requires
            n == u * o,
            0 < u <= l,
            0 < o < l,
    ;
    lemma_root_exists(n, 1083);
    let m = root::nearest_root(n);
    laws::lemma_signed(false, m);
    let s = binary64::scale(m) as int;
    let up = binary64::scale(m + 1) - s;
    let down = s - binary64::scale((m - 1) as nat);
    error::lemma_neighbours(m);
    binary64::lemma_scale_order(m, 0);
    let high = s + (s + up);
    let low = (s - down) + s;
    if s <= h {
        assert(up <= 1) by (nonlinear_arith)
            requires
                up == 1 || h * up <= s,
                s <= h,
                h > 0,
        ;
        assert(high * high <= (2 * h + 1) * (2 * h + 1)) by (nonlinear_arith)
            requires
                0 <= high <= 2 * h + 1,
        ;
        assert((2 * h + 1) * (2 * h + 1) < o) by (nonlinear_arith)
            requires
                h == 0x10_0000_0000_0000,
                o >= 0x1_0000_0000_0000_0000_0000_0000_0000_0000_0000_0000_0000_0000int,
        ;
    }
    assert((2 * h + 1) * down <= 2 * s) by {
        if down == 1 {
            assert((2 * h + 1) * 1 == 2 * h + 1);
        }
    }
    lemma_root_parts(n, s, low, down, h);
}

proof fn lemma_root_parts(n: int, s: int, low: int, down: int, h: int)
    requires
        n >= 0,
        s > 0,
        h == 0x10_0000_0000_0000,
        low == 2 * s - down,
        low * low <= 4 * n,
        (2 * h + 1) * down <= 2 * s,
    ensures
        within_parts(s * s, n, 1),
{
    let m = 0x10_0000int;
    let k = 2 * h + 1;
    assert(4 * (s * h) <= low * k) by (nonlinear_arith)
        requires
            low == 2 * s - down,
            k * down <= 2 * s,
            k == 2 * h + 1,
    ;
    let (x, y) = (4 * (s * h), low * k);
    assert(x >= 0) by (nonlinear_arith)
        requires
            x == 4 * (s * h),
            s > 0,
            h > 0,
    ;
    assert(x * x <= y * y) by (nonlinear_arith)
        requires
            0 <= x <= y,
    ;
    assert(y * y == (low * low) * (k * k)) by (nonlinear_arith)
        requires
            y == low * k,
    ;
    assert((low * low) * (k * k) <= (4 * n) * (k * k)) by (nonlinear_arith)
        requires
            low * low <= 4 * n,
    ;
    let q = s * s;
    assert(x * x == 4 * (q * (4 * (h * h)))) by (nonlinear_arith)
        requires
            x == 4 * (s * h),
            q == s * s,
    ;
    assert((4 * n) * (k * k) == 4 * (n * (k * k))) by (nonlinear_arith);
    let g = 4 * (h * h);
    assert(q * g <= n * (k * k));
    assert((q * g) * m <= (n * (k * k)) * m) by (nonlinear_arith)
        requires
            q * g <= n * (k * k),
            m > 0,
    ;
    assert((k * k) * m <= (m + 1) * g) by (nonlinear_arith)
        requires
            k == 2 * h + 1,
            g == 4 * (h * h),
            m == 0x10_0000,
            h == 0x10_0000_0000_0000,
    ;
    assert(n * ((k * k) * m) <= n * ((m + 1) * g)) by (nonlinear_arith)
        requires
            n >= 0,
            (k * k) * m <= (m + 1) * g,
    ;
    assert((n * (k * k)) * m == n * ((k * k) * m)) by (nonlinear_arith);
    assert(n * ((m + 1) * g) == (n * (m + 1)) * g) by (nonlinear_arith);
    assert((q * g) * m == (q * m) * g) by (nonlinear_arith);
    assert(q * m <= n * (m + 1)) by (nonlinear_arith)
        requires
            (q * m) * g <= (n * (m + 1)) * g,
            g > 0,
    ;
}

} // verus!
