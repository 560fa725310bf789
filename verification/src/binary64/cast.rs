//! Whole numbers: conversions from and to integers, and rounding to a whole
//! number.

use vstd::prelude::*;
use vstd::arithmetic::power2::*;
use vstd::arithmetic::div_mod::*;
use crate::binary64;
use crate::binary64::{F64, HIDDEN_BIT, INFINITY_BITS, SIGN_BIT};
use crate::binary64::arith;
use crate::binary64::round;
use crate::binary64::round::{Rest, BIAS};

verus! {

/// The number one, in units.
pub open spec fn one() -> int {
    pow2(arith::unit_exponent()) as int
}

/// The number nearest to the integer `i`.
pub open spec fn of_integer(i: int) -> F64 {
    binary64::signed(i < 0, round::nearest(arith::absolute(i) * one(), 1))
}

/// The integer that a number becomes when what follows the point is dropped.
pub open spec fn truncated(a: F64) -> int {
    let whole = binary64::scale(a.magnitude()) as int / one();
    if a.negative() { -whole } else { whole }
}

/// The largest integer that is not above the number.
pub open spec fn floored(a: F64) -> int {
    a.units() / one()
}

/// The smallest integer that is not below the number.
pub open spec fn ceiled(a: F64) -> int {
    -((-a.units()) / one())
}

/// The nearest integer; one that is as near as another and farther from zero wins.
pub open spec fn rounded(a: F64) -> int {
    let whole = (2 * binary64::scale(a.magnitude()) + one()) / (2 * one());
    if a.negative() { -whole } else { whole }
}

/// `i`, or the bound of the range that it lies beyond.
pub open spec fn clamped(i: int, low: int, high: int) -> int {
    if i < low { low } else if i > high { high } else { i }
}

/// The 32-bit integer that a number becomes: without what follows the point, and
/// the nearest one where it does not fit. A NaN becomes zero.
pub open spec fn as_i32(a: F64) -> int {
    if a.nan() { 0 } else { clamped(truncated(a), i32::MIN as int, i32::MAX as int) }
}

/// The count that a number becomes, by the same rule.
pub open spec fn as_usize(a: F64) -> int {
    if a.nan() { 0 } else { clamped(truncated(a), 0, usize::MAX as int) }
}

/// A number made of the integer `whole` with the sign of `a`; an infinity or a
/// NaN stays what it is.
pub open spec fn with_whole(a: F64, whole: int) -> F64 {
    if a.finite() {
        binary64::signed(a.negative(), round::nearest(arith::absolute(whole) * one(), 1))
    } else {
        a
    }
}

/// Reads the whole part and the rest off a split at the weight of one.
proof fn lemma_split_at_one(n: nat, t: nat, rest: Rest)
    requires
        round::splits(n as int, 1, t, BIAS as nat + 1074, rest),
    ensures
        one() > 0,
        n as int / one() == t,
        t * one() <= n < (t + 1) * one(),
        rest == Rest::Zero ==> n == t * one(),
        rest == Rest::BelowHalf ==> t * one() < n && 2 * n < (2 * t + 1) * one(),
        rest == Rest::Half ==> 2 * n == (2 * t + 1) * one(),
        rest == Rest::AboveHalf ==> (2 * t + 1) * one() < 2 * n,
{
    let b = pow2(BIAS as nat) as int;
    let o = one();
    lemma_pow2_pos(BIAS as nat);
    lemma_pow2_pos(1074);
    lemma_pow2_adds(BIAS as nat, 1074);
    let q = pow2(BIAS as nat + 1074) * 1;
    let v = n * b;
    assert(q == b * o);
    assert(t * q == (t * o) * b) by (nonlinear_arith)
        requires
            q == b * o,
    ;
    assert((t + 1) * q == ((t + 1) * o) * b) by (nonlinear_arith)
        requires
            q == b * o,
    ;
    assert((2 * t + 1) * q == ((2 * t + 1) * o) * b) by (nonlinear_arith)
        requires
            q == b * o,
    ;
    assert((t + 1) * q == t * q + q) by (nonlinear_arith);
    assert((2 * t + 1) * q == 2 * (t * q) + q) by (nonlinear_arith);
    assert(q > 0) by (nonlinear_arith)
        requires
            q == b * o,
            b > 0,
            o > 0,
    ;
    assert(2 * v == (2 * n) * b) by (nonlinear_arith)
        requires
            v == n * b,
    ;
    lemma_cancel(t * o, n as int, b);
    lemma_cancel(n as int, (t + 1) * o, b);
    lemma_cancel(2 * n as int, (2 * t + 1) * o, b);
    lemma_cancel((2 * t + 1) * o, 2 * n as int, b);
    assert((t + 1) * o == t * o + o) by (nonlinear_arith);
    lemma_fundamental_div_mod_converse(n as int, o, t as int, n - t * o);
}

/// A positive factor of both sides can be dropped.
proof fn lemma_cancel(x: int, y: int, b: int)
    requires
        b > 0,
    ensures
        x * b < y * b <==> x < y,
        x * b <= y * b <==> x <= y,
        x * b == y * b <==> x == y,
{
    assert(x * b < y * b <==> x < y) by (nonlinear_arith)
        requires
            b > 0,
    ;
    assert(x * b <= y * b <==> x <= y) by (nonlinear_arith)
        requires
            b > 0,
    ;
    assert(x * b == y * b <==> x == y) by (nonlinear_arith)
        requires
            b > 0,
    ;
}

/// The whole part of a positive number below two to the power 52, and what is
/// left of it.
fn whole_part(m: u64) -> (r: (u64, Rest))
    requires
        m < 1075 * HIDDEN_BIT,
    ensures
        round::splits(binary64::scale(m as nat) as int, 1, r.0 as nat, BIAS as nat + 1074, r.1),
        r.1 != Rest::Between,
        r.0 < 2 * HIDDEN_BIT,
{
    let e: u64 = m / HIDDEN_BIT;
    let f: u64 = m % HIDDEN_BIT;
    let ghost n = binary64::scale(m as nat) as int;
    let mut t: u64 = if e == 0 { f } else { HIDDEN_BIT + f };
    let mut x: u128 = if e == 0 { BIAS } else { BIAS + (e as u128) - 1 };
    let mut rest: Rest = Rest::Zero;
    proof {
        let b = pow2(BIAS as nat);
        if e == 0 {
            assert(n * b == t * (b * 1));
        } else {
            let p = pow2((e - 1) as nat);
            lemma_pow2_adds((e - 1) as nat, BIAS as nat);
            assert((t * p) * b == t * ((p * b) * 1)) by (nonlinear_arith);
        }
    }
    while x < BIAS + 1074
        invariant
            BIAS <= x <= BIAS + 1074,
            t < 2 * HIDDEN_BIT,
            rest != Rest::Between,
            round::splits(n, 1, t as nat, x as nat, rest),
        decreases BIAS + 1074 - x,
    {
        proof {
            round::lemma_halve(n, 1, t as nat, x as nat, rest);
        }
        if t % 2 == 0 {
            rest = if rest == Rest::Zero { Rest::Zero } else { Rest::BelowHalf };
        } else {
            rest = if rest == Rest::Zero { Rest::Half } else { Rest::AboveHalf };
        }
        t = t / 2;
        x = x + 1;
    }
    (t, rest)
}

/// From two to the power 52 on, every number is whole.
proof fn lemma_large_is_whole(m: nat)
    requires
        1075 * HIDDEN_BIT <= m,
    ensures
        one() > 0,
        ({
            let k = (m / HIDDEN_BIT as nat - 1075) as nat;
            let w = (HIDDEN_BIT + m % HIDDEN_BIT as nat) * pow2(k);
            binary64::scale(m) == w * one() && binary64::scale(m) as int / one() == w
        }),
{
    let h = HIDDEN_BIT as nat;
    let e = m / h;
    let k = (e - 1075) as nat;
    let s = (h + m % h) as nat;
    assert(e >= 1075) by {
        lemma_div_is_ordered((1075 * h) as int, m as int, h as int);
        assert((1075 * h) / h == 1075);
    }
    lemma_pow2_adds(k, 1074);
    lemma_pow2_pos(1074);
    assert(s * (pow2(k) * pow2(1074)) == (s * pow2(k)) * pow2(1074)) by (nonlinear_arith);
    lemma_div_multiples_vanish((s * pow2(k)) as int, one());
    assert(one() * (s * pow2(k)) == (s * pow2(k)) * one()) by (nonlinear_arith);
}

/// The magnitude of the number nearest to an integer.
fn of_whole(k: u64) -> (r: u64)
    ensures
        r == round::nearest(k * one(), 1),
        r <= INFINITY_BITS,
{
    if k == 0 {
        proof {
            arith::lemma_nearest_zero(1);
            assert(0 * one() == 0);
        }
        0
    } else {
        proof {
            lemma_pow2_adds(BIAS as nat, 1074);
            let b = pow2(BIAS as nat);
            let o = pow2(1074);
            assert((k * o) * b == k * ((b * o) * 1)) by (nonlinear_arith);
        }
        round::round(k as u128, BIAS + 1074, Rest::Zero, Ghost(k * one()), Ghost(1))
    }
}

/// How the floor, the ceiling and the rounding of `units`, whose absolute value
/// is `n`, come from the whole part of `n`.
proof fn lemma_round_whole(n: nat, t: nat, rest: Rest)
    requires
        rest != Rest::Between,
        round::splits(n as int, 1, t, BIAS as nat + 1074, rest),
    ensures
        n as int / one() == t,
        (-(n as int)) / one() == -(if rest == Rest::Zero { t as int } else { t as int + 1 }),
        (2 * n + one()) / (2 * one()) == (if rest == Rest::Half || rest == Rest::AboveHalf {
            t as int + 1
        } else {
            t as int
        }),
{
    let o = one();
    lemma_split_at_one(n, t, rest);
    assert((t + 1) * o == t * o + o) by (nonlinear_arith);
    assert((2 * t + 1) * o == 2 * (t * o) + o) by (nonlinear_arith);
    if rest == Rest::Zero {
        assert(-(n as int) == (-(t as int)) * o) by (nonlinear_arith)
            requires
                n == t * o,
        ;
        lemma_fundamental_div_mod_converse(-(n as int), o, -(t as int), 0);
    } else {
        assert((-(t as int) - 1) * o == -(t * o) - o) by (nonlinear_arith);
        lemma_fundamental_div_mod_converse(-(n as int), o, -(t as int) - 1, (t + 1) * o - n);
    }
    if rest == Rest::Half || rest == Rest::AboveHalf {
        assert((t as int + 1) * (2 * o) == 2 * (t * o) + 2 * o) by (nonlinear_arith);
        lemma_fundamental_div_mod_converse(2 * n + o, 2 * o, t as int + 1, 2 * n - (2 * t + 1) * o);
    } else {
        assert((t as int) * (2 * o) == 2 * (t * o)) by (nonlinear_arith);
        lemma_fundamental_div_mod_converse(2 * n + o, 2 * o, t as int, 2 * n + o - 2 * (t * o));
    }
}

/// Floor, ceiling and rounding leave a whole number as it is.
proof fn lemma_whole_stays(n: nat, w: nat)
    requires
        one() > 0,
        n == w * one(),
    ensures
        n as int / one() == w,
        (-(n as int)) / one() == -(w as int),
        (2 * n + one()) / (2 * one()) == w,
{
    let o = one();
    lemma_fundamental_div_mod_converse(n as int, o, w as int, 0);
    assert((-(w as int)) * o == -(w * o)) by (nonlinear_arith);
    lemma_fundamental_div_mod_converse(-(n as int), o, -(w as int), 0);
    assert((w as int) * (2 * o) == 2 * (w * o)) by (nonlinear_arith);
    lemma_fundamental_div_mod_converse(2 * n + o, 2 * o, w as int, o);
}

impl F64 {
    /// The number nearest to an integer.
    pub fn from_i32(i: i32) -> (r: F64)
        ensures
            r == of_integer(i as int),
    {
        let k: u64 = if i < 0 { (-(i as i64)) as u64 } else { i as u64 };
        binary64::make(i < 0, of_whole(k))
    }

    /// The number nearest to a count.
    pub fn from_usize(i: usize) -> (r: F64)
        ensures
            r == of_integer(i as int),
    {
        binary64::make(false, of_whole(i as u64))
    }

    /// The integer that is left without what follows the point; one that does
    /// not fit becomes the nearest that does, and a NaN becomes zero.
    pub fn to_i32(self) -> (r: i32)
        ensures
            r == as_i32(self),
    {
        let m: u64 = self.bits % SIGN_BIT;
        let negative: bool = self.bits >= SIGN_BIT;
        if m > INFINITY_BITS {
            0
        } else if m >= 1075 * HIDDEN_BIT {
            proof {
                lemma_large_is_whole(m as nat);
                let k = (m as nat / HIDDEN_BIT as nat - 1075) as nat;
                let s = HIDDEN_BIT + m as nat % HIDDEN_BIT as nat;
                lemma_pow2_pos(k);
                let p = pow2(k);
                assert(s * p >= 0x10_0000_0000_0000) by (nonlinear_arith)
                    requires
                        s >= 0x10_0000_0000_0000,
                        p >= 1,
                ;
            }
            if negative { i32::MIN } else { i32::MAX }
        } else {
            let (t, _rest) = whole_part(m);
            proof {
                lemma_split_at_one(binary64::scale(m as nat), t as nat, _rest);
            }
            if negative {
                if t >= 0x8000_0000 { i32::MIN } else { -(t as i32) }
            } else {
                if t >= 0x8000_0000 { i32::MAX } else { t as i32 }
            }
        }
    }

    /// The count that is left without what follows the point; one that does not
    /// fit becomes the nearest that does, and a NaN becomes zero.
    pub fn to_usize(self) -> (r: usize)
        ensures
            r == as_usize(self),
    {
        let m: u64 = self.bits % SIGN_BIT;
        let negative: bool = self.bits >= SIGN_BIT;
        if m > INFINITY_BITS {
            return 0;
        }
        proof {
            lemma_pow2_pos(1074);
            lemma_div_pos_is_pos(binary64::scale(m as nat) as int, one());
        }
        if negative {
            return 0;
        }
        if m >= 1075 * HIDDEN_BIT {
            let k: u64 = m / HIDDEN_BIT - 1075;
            let mut t: u64 = HIDDEN_BIT + m % HIDDEN_BIT;
            let ghost s: nat = t as nat;
            proof {
                lemma_large_is_whole(m as nat);
                lemma2_to64();
            }
            if k >= 12 {
                proof {
                    if k > 12 {
                        lemma_pow2_strictly_increases(12, k as nat);
                    }
                    let p = pow2(k as nat);
                    assert(s * p >= 0x1_0000_0000_0000_0000) by (nonlinear_arith)
                        requires
                            s >= 0x10_0000_0000_0000,
                            p >= 0x1000,
                    ;
                }
                return usize::MAX;
            }
            let mut i: u64 = 0;
            assert(s * pow2(0) == s) by (nonlinear_arith)
                requires
                    pow2(0) == 1,
            ;
            while i < k
                invariant
                    i <= k < 12,
                    t == s * pow2(i as nat),
                    s < 0x20_0000_0000_0000,
                decreases k - i,
            {
                proof {
                    lemma_pow2_unfold((i + 1) as nat);
                    lemma2_to64();
                    if i < 10 {
                        lemma_pow2_strictly_increases(i as nat, 10);
                    }
                    let p = pow2(i as nat);
                    assert(i == 10 || i < 10);
                    assert(s * p < 0x8000_0000_0000_0000) by (nonlinear_arith)
                        requires
                            s < 0x20_0000_0000_0000,
                            0 <= p <= 0x400,
                    ;
                    assert(s * (2 * p) == 2 * (s * p)) by (nonlinear_arith);
                }
                t = t * 2;
                i = i + 1;
            }
            if t > usize::MAX as u64 { usize::MAX } else { t as usize }
        } else {
            let (t, _rest) = whole_part(m);
            proof {
                lemma_split_at_one(binary64::scale(m as nat), t as nat, _rest);
            }
            if t > usize::MAX as u64 { usize::MAX } else { t as usize }
        }
    }

    /// The largest whole number that is not above `self`.
    pub fn floor(self) -> (r: F64)
        ensures
            r == with_whole(self, floored(self)),
    {
        let m: u64 = self.bits % SIGN_BIT;
        let negative: bool = self.bits >= SIGN_BIT;
        if m >= 1075 * HIDDEN_BIT {
            proof {
                lemma_keeps_large(self);
            }
            self
        } else {
            let (t, rest) = whole_part(m);
            proof {
                lemma_round_whole(binary64::scale(m as nat), t as nat, rest);
            }
            if negative && rest != Rest::Zero {
                binary64::make(negative, of_whole(t + 1))
            } else {
                binary64::make(negative, of_whole(t))
            }
        }
    }

    /// The smallest whole number that is not below `self`.
    pub fn ceil(self) -> (r: F64)
        ensures
            r == with_whole(self, ceiled(self)),
    {
        let m: u64 = self.bits % SIGN_BIT;
        let negative: bool = self.bits >= SIGN_BIT;
        if m >= 1075 * HIDDEN_BIT {
            proof {
                lemma_keeps_large(self);
            }
            self
        } else {
            let (t, rest) = whole_part(m);
            proof {
                lemma_round_whole(binary64::scale(m as nat), t as nat, rest);
            }
            if !negative && rest != Rest::Zero {
                binary64::make(negative, of_whole(t + 1))
            } else {
                binary64::make(negative, of_whole(t))
            }
        }
    }

    /// The nearest whole number, halfway cases away from zero.
    pub fn round(self) -> (r: F64)
        ensures
            r == with_whole(self, rounded(self)),
    {
        let m: u64 = self.bits % SIGN_BIT;
        let negative: bool = self.bits >= SIGN_BIT;
        if m >= 1075 * HIDDEN_BIT {
            proof {
                lemma_keeps_large(self);
            }
            self
        } else {
            let (t, rest) = whole_part(m);
            proof {
                lemma_round_whole(binary64::scale(m as nat), t as nat, rest);
            }
            if rest == Rest::Half || rest == Rest::AboveHalf {
                binary64::make(negative, of_whole(t + 1))
            } else {
                binary64::make(negative, of_whole(t))
            }
        }
    }
}

/// A large number is its own floor, ceiling and rounding.
proof fn lemma_keeps_large(a: F64)
    requires
        a.magnitude() >= 1075 * HIDDEN_BIT,
    ensures
        with_whole(a, floored(a)) == a,
        with_whole(a, ceiled(a)) == a,
        with_whole(a, rounded(a)) == a,
{
    let m = a.magnitude();
    if a.finite() {
        lemma_large_is_whole(m);
        let k = (m / HIDDEN_BIT as nat - 1075) as nat;
        let w = ((HIDDEN_BIT + m % HIDDEN_BIT as nat) * pow2(k)) as nat;
        lemma_whole_stays(binary64::scale(m), w);
        arith::lemma_nearest_exact(m);
    }
}

} // verus!
