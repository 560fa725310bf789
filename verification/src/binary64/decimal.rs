//! Reading a number from decimal text.

use vstd::prelude::*;
use vstd::arithmetic::power::*;
use vstd::arithmetic::power2::*;
use crate::bignat::BigNat;
use crate::binary64;
use crate::binary64::{F64, HIDDEN_BIT, INFINITY_BITS, NAN_BITS, SIGN_BIT};
use crate::binary64::arith;
use crate::binary64::cast;
use crate::binary64::exact;
use crate::binary64::laws;
use crate::binary64::round;
use crate::binary64::round::{Rest, BIAS};
use crate::text;

verus! {

/// The magnitude of the number nearest to `m` times ten to the power `k`.
pub open spec fn decimal(m: nat, k: int) -> nat {
    let units = pow2(arith::unit_exponent());
    if k >= 0 {
        round::nearest(m * pow(10, k as nat) * units, 1)
    } else {
        round::nearest((m * units) as int, pow(10, (-k) as nat))
    }
}

/// How many digits `s` starts with.
pub open spec fn leading_digits(s: Seq<char>) -> nat
    decreases s.len(),
{
    if s.len() == 0 || !text::is_digit(s[0]) { 0 } else { 1 + leading_digits(s.drop_first()) }
}

/// `c`, or its lower-case form if it is an ASCII letter.
pub open spec fn lower(c: char) -> char {
    if 'A' <= c <= 'Z' { (c as u32 + 32) as char } else { c }
}

/// Whether `s` is `word`, apart from the case of its letters.
pub open spec fn is_word(s: Seq<char>, word: Seq<char>) -> bool {
    s.len() == word.len() && forall|i: int| 0 <= i < s.len() ==> lower(#[trigger] s[i]) == word[i]
}

/// The exponent that `s` writes: nothing, or the letter e and an integer.
pub open spec fn exponent(s: Seq<char>) -> Option<int> {
    if s.len() == 0 {
        Some(0int)
    } else if s[0] == 'e' || s[0] == 'E' {
        text::integer(s.skip(1))
    } else {
        None
    }
}

/// The magnitude of the number that `s` writes without a sign: digits, of which
/// there is at least one and among which one point may stand, and an exponent.
pub open spec fn unsigned(s: Seq<char>) -> Option<nat> {
    let i = leading_digits(s) as int;
    let point = i < s.len() && s[i] == '.';
    let fraction = if point { s.skip(i + 1) } else { Seq::empty() };
    let j = leading_digits(fraction) as int;
    let rest = if point { fraction.skip(j) } else { s.skip(i) };
    match exponent(rest) {
        Some(e) => if i + j > 0 {
            Some(decimal(text::number(s.take(i) + fraction.take(j)), e - j))
        } else {
            None
        },
        None => None,
    }
}

/// The number that `s` writes: behind a sign or none, a decimal number, or in any
/// case of letters the words for infinity and not-a-number.
pub open spec fn parsed(s: Seq<char>) -> Option<F64> {
    let signed = s.len() > 0 && (s[0] == '-' || s[0] == '+');
    let negative = signed && s[0] == '-';
    let body = if signed { s.skip(1) } else { s };
    if is_word(body, seq!['i', 'n', 'f']) || is_word(
        body,
        seq!['i', 'n', 'f', 'i', 'n', 'i', 't', 'y'],
    ) {
        Some(binary64::signed(negative, INFINITY_BITS as nat))
    } else if is_word(body, seq!['n', 'a', 'n']) {
        Some(binary64::signed(negative, NAN_BITS as nat))
    } else {
        match unsigned(body) {
            Some(m) => Some(binary64::signed(negative, m)),
            None => None,
        }
    }
}

/// The state of a long division: `n / d` units is `c` and the fraction
/// `num / den`, at the weight of the exponent `x`.
spec fn dividing(n: int, d: int, c: nat, num: nat, den: nat, x: nat) -> bool {
    n * pow2(BIAS as nat) * den == (c * den + num) * (pow2(x) * d)
}

proof fn lemma_next_digit(n: int, d: int, c: nat, num: nat, den: nat, x: nat)
    requires
        x > 0,
        dividing(n, d, c, num, den, x),
    ensures
        dividing(n, d, 2 * c, 2 * num, den, (x - 1) as nat),
{
    lemma_pow2_unfold(x);
    let p = pow2((x - 1) as nat);
    assert(((2 * c) * den + 2 * num) * (p * d) == (c * den + num) * ((2 * p) * d))
        by (nonlinear_arith);
}

proof fn lemma_wider(n: int, d: int, num: nat, den: nat, x: nat)
    requires
        dividing(n, d, 0, num, den, x),
    ensures
        dividing(n, d, 0, num, 2 * den, x + 1),
{
    lemma_pow2_unfold(x + 1);
    let p = pow2(x);
    let v = n * pow2(BIAS as nat);
    assert(v * (2 * den) == 2 * (v * den)) by (nonlinear_arith);
    assert(0 * den == 0 && 0 * (2 * den) == 0);
    assert(num * ((2 * p) * d) == 2 * (num * (p * d))) by (nonlinear_arith);
}

proof fn lemma_count(n: int, d: int, c: nat, num: nat, den: nat, x: nat)
    requires
        num >= den,
        dividing(n, d, c, num, den, x),
    ensures
        dividing(n, d, c + 1, (num - den) as nat, den, x),
{
    assert((c + 1) * den + (num - den) == c * den + num) by (nonlinear_arith);
}

/// The magnitude of the number nearest to a quotient.
fn divide(num: BigNat, den: BigNat, exponent: u128, Ghost(n): Ghost<int>, Ghost(d): Ghost<int>) -> (r:
    u64)
    requires
        d > 0,
        num.value() > 0,
        den.value() > 0,
        BIAS <= 2 * exponent,
        2 * exponent <= 3 * BIAS,
        dividing(n, d, 0, num.value(), den.value(), exponent as nat),
    ensures
        r == round::nearest(n, d),
        r <= INFINITY_BITS,
{
    let mut num: BigNat = num;
    let mut den: BigNat = den;
    let mut x: u128 = exponent;
    let ghost mut steps: nat = 0;
    let ghost first = num.value();
    let ghost bound = den.width();
    proof {
        den.lemma_width();
        lemma2_to64();
        assert(first * pow2(0) == first) by (nonlinear_arith)
            requires
                pow2(0) == 1,
        ;
    }
    while num.less(&den)
        invariant
            num.value() > 0,
            first > 0,
            den.value() < pow2(32 * bound),
            bound <= usize::MAX,
            BIAS <= 2 * exponent,
            2 * exponent <= 3 * BIAS,
            x + steps == exponent,
            steps <= 32 * bound,
            num.value() == first * pow2(steps),
            dividing(n, d, 0, num.value(), den.value(), x as nat),
        decreases if num.value() < den.value() { den.value() - num.value() } else { 0 },
    {
        proof {
            let v = num.value();
            assert(pow2(steps) <= v) by (nonlinear_arith)
                requires
                    v == first * pow2(steps),
                    first >= 1,
                    pow2(steps) >= 0,
            ;
            if steps >= 32 * bound {
                if steps > 32 * bound {
                    lemma_pow2_strictly_increases(32 * bound, steps);
                }
            }
            lemma_next_digit(n, d, 0, v, den.value(), x as nat);
            lemma_pow2_unfold(steps + 1);
            let p = pow2(steps);
            assert(first * (2 * p) == 2 * (first * p)) by (nonlinear_arith);
            steps = steps + 1;
        }
        num.multiply_add(2, 0);
        x = x - 1;
    }
    let ghost first = den.value();
    let ghost bound = num.width();
    let ghost start = x;
    let ghost mut steps: nat = 0;
    proof {
        num.lemma_width();
        assert(first * pow2(0) == first) by (nonlinear_arith)
            requires
                pow2(0) == 1,
        ;
    }
    while !num.less(&den)
        invariant
            num.value() > 0,
            first > 0,
            0 < den.value() <= 2 * num.value(),
            num.value() < pow2(32 * bound),
            bound <= usize::MAX,
            x == start + steps,
            steps <= 32 * bound,
            BIAS <= 2 * start + 0x100_0000_0000_0000_0000,
            2 * start <= 3 * BIAS,
            den.value() == first * pow2(steps),
            dividing(n, d, 0, num.value(), den.value(), x as nat),
        decreases 2 * num.value() - den.value(),
    {
        proof {
            let v = den.value();
            assert(pow2(steps) <= v) by (nonlinear_arith)
                requires
                    v == first * pow2(steps),
                    first >= 1,
                    pow2(steps) >= 0,
            ;
            if steps > 32 * bound {
                lemma_pow2_strictly_increases(32 * bound, steps);
            }
            lemma_wider(n, d, num.value(), v, x as nat);
            lemma_pow2_unfold(steps + 1);
            let p = pow2(steps);
            assert(first * (2 * p) == 2 * (first * p)) by (nonlinear_arith);
            steps = steps + 1;
        }
        den.multiply_add(2, 0);
        x = x + 1;
    }
    let mut c: u128 = 0;
    let mut i: u128 = 0;
    let ghost top = x;
    while i < 60
        invariant
            i <= 60,
            x + i == top,
            BIAS <= 2 * top + 0x200_0000_0000_0000_0000,
            top <= 2 * BIAS,
            num.value() < den.value(),
            i == 0 ==> den.value() <= 2 * num.value() && c == 0,
            i > 0 ==> pow2((i - 1) as nat) <= c,
            c < pow2(i as nat),
            dividing(n, d, c as nat, num.value(), den.value(), x as nat),
        decreases 60 - i,
    {
        proof {
            lemma_next_digit(n, d, c as nat, num.value(), den.value(), x as nat);
            lemma_pow2_unfold((i + 1) as nat);
            lemma2_to64();
            lemma2_to64_rest();
            if i > 0 {
                lemma_pow2_unfold(i as nat);
            }
            if i < 60 {
                lemma_pow2_strictly_increases(i as nat, 60);
            }
        }
        num.multiply_add(2, 0);
        x = x - 1;
        c = c * 2;
        if !num.less(&den) {
            proof {
                lemma_count(n, d, c as nat, num.value(), den.value(), x as nat);
            }
            num.subtract(&den);
            c = c + 1;
        }
        i = i + 1;
    }
    let zero: BigNat = BigNat::zero();
    let exact: bool = !zero.less(&num);
    proof {
        lemma2_to64();
        lemma2_to64_rest();
        let v = n * pow2(BIAS as nat);
        let q = pow2(x as nat) * d;
        let e = den.value() as int;
        let u = num.value() as int;
        lemma_pow2_pos(x as nat);
        assert(q > 0) by (nonlinear_arith)
            requires
                q == pow2(x as nat) * d,
                pow2(x as nat) > 0,
                d > 0,
        ;
        assert(v * e == (c * q) * e + u * q) by (nonlinear_arith)
            requires
                v * e == (c * e + u) * q,
        ;
        assert((c + 1) * q == c * q + q) by (nonlinear_arith);
        if exact {
            assert(v == c * q) by (nonlinear_arith)
                requires
                    v * e == (c * q) * e + u * q,
                    u == 0,
                    e > 0,
            ;
        } else {
            assert(v > c * q) by (nonlinear_arith)
                requires
                    v * e == (c * q) * e + u * q,
                    u > 0,
                    q > 0,
                    e > 0,
            ;
            assert(v < c * q + q) by (nonlinear_arith)
                requires
                    v * e == (c * q) * e + u * q,
                    u < e,
                    q > 0,
                    e > 0,
            ;
        }
    }
    let rest: Rest = if exact { Rest::Zero } else { Rest::Between };
    round::round(c, x, rest, Ghost(n), Ghost(d))
}

/// Ten is more than two to the power three, and so are their powers.
proof fn lemma_tens(e: nat)
    ensures
        pow(10, e) >= pow2(3 * e),
    decreases e,
{
    reveal(pow);
    lemma2_to64();
    if e > 0 {
        let f = (e - 1) as nat;
        lemma_tens(f);
        lemma_pow2_adds(3 * f, 3);
        let p = pow2(3 * f);
        let t = pow(10, f);
        assert(10 * t >= p * 8) by (nonlinear_arith)
            requires
                t >= p,
                p >= 0,
        ;
    }
}

/// The number that digits write has no more places than there are digits, and as
/// many if the first is not zero.
proof fn lemma_number_places(s: Seq<char>)
    requires
        forall|i: int| 0 <= i < s.len() ==> text::is_digit(#[trigger] s[i]),
    ensures
        text::number(s) < pow(10, s.len()),
        s.len() > 0 && s[0] != '0' ==> text::number(s) >= pow(10, (s.len() - 1) as nat),
    decreases s.len(),
{
    reveal(pow);
    if s.len() > 0 {
        let t = s.drop_last();
        lemma_number_places(t);
        assert(text::is_digit(s.last()));
        if t.len() > 0 {
            assert(s[0] == t[0]);
        }
    }
}

/// Zeros in front do not count.
proof fn lemma_leading_zeros(s: Seq<char>, z: int)
    requires
        0 <= z <= s.len(),
        forall|i: int| 0 <= i < z ==> s[i] == '0',
    ensures
        text::number(s) == text::number(s.skip(z)),
    decreases s.len(),
{
    if s.len() == 0 {
        assert(s.skip(z) =~= s);
    } else if z == s.len() {
        lemma_leading_zeros(s.drop_last(), z - 1);
        assert(s.drop_last().skip(z - 1) =~= Seq::empty());
        assert(s.skip(z) =~= Seq::empty());
    } else {
        lemma_leading_zeros(s.drop_last(), z);
        assert(s.drop_last().skip(z) =~= s.skip(z).drop_last());
    }
}

/// A value of at least ten to the power 400 is past the largest number.
proof fn lemma_huge(n: int, d: int, t: nat)
    requires
        d > 0,
        t >= 400,
        n >= pow(10, t) * pow2(1074) * d,
    ensures
        round::nearest(n, d) == INFINITY_BITS,
{
    let i = INFINITY_BITS as nat;
    let h = HIDDEN_BIT as nat;
    assert(i / h == 2047 && i % h == 0);
    assert(binary64::scale(i) == h * pow2(2046));
    lemma2_to64_rest();
    lemma_pow2_adds(52, 2046);
    lemma_pow2_adds(1024, 1074);
    lemma_tens(t);
    lemma_pow2_strictly_increases(1024, 3 * t);
    lemma_pow2_pos(1074);
    binary64::lemma_scale_increases((i - 1) as nat, i);
    let u = pow2(1074) as int;
    let s = binary64::scale(i) as int;
    let p = pow(10, t);
    let k = pow2(1024) as int;
    let low = binary64::scale((i - 1) as nat) + s;
    assert(low * d <= 2 * n) by (nonlinear_arith)
        requires
            low <= 2 * s,
            s == k * u,
            p >= k,
            n >= p * u * d,
            u > 0,
            d > 0,
    ;
    round::lemma_nearest_is(n, d, i);
}

/// A value of less than ten to the power -400 is nearest to zero.
proof fn lemma_tiny(n: int, d: int, t: nat)
    requires
        d > 0,
        0 <= n,
        t >= 400,
        n * pow(10, t) <= pow2(1074) * d,
    ensures
        round::nearest(n, d) == 0,
{
    lemma_tens(t);
    lemma_pow2_strictly_increases(1075, 3 * t);
    lemma_pow2_unfold(1075);
    lemma_pow2_pos(1074);
    let u = pow2(1074) as int;
    let p = pow(10, t);
    assert(2 * n <= d) by (nonlinear_arith)
        requires
            n * p <= u * d,
            p >= 2 * u,
            n >= 0,
            u > 0,
            d > 0,
    ;
    binary64::lemma_scale_step(0);
    lemma2_to64();
    assert(binary64::scale(0) == 0);
    assert((0 + 1) * d == d);
    round::lemma_nearest_is(n, d, 0);
}

/// A power of ten as powers of two and five.
proof fn lemma_ten(e: nat)
    ensures
        pow(10, e) == pow(5, e) * pow2(e),
        pow(5, e) > 0,
{
    lemma_pow_distributes(5, 2, e);
    lemma_pow2(e);
    lemma_pow_positive(5, e);
}

/// No digits but zeros make zero, whatever the exponent.
proof fn lemma_decimal_zero(k: int)
    ensures
        decimal(0, k) == 0,
{
    let units = pow2(1074) as int;
    if k >= 0 {
        arith::lemma_nearest_zero(1);
        let t = pow(10, k as nat);
        assert(0 * t * units == 0) by (nonlinear_arith);
    } else {
        lemma_pow_positive(10, (-k) as nat);
        arith::lemma_nearest_zero(pow(10, (-k) as nat));
        assert(0 * units == 0);
    }
}

/// A number with enough places before the point is past the largest number.
proof fn lemma_decimal_huge(m: nat, places: nat, k: int)
    requires
        places > 0,
        m >= pow(10, (places - 1) as nat),
        places + k > 400,
    ensures
        decimal(m, k) == INFINITY_BITS,
{
    let units = pow2(1074) as int;
    let t = (places - 1 + k) as nat;
    let p = pow(10, t);
    let a = pow(10, (places - 1) as nat);
    lemma_pow2_pos(1074);
    if k >= 0 {
        lemma_pow_adds(10, (places - 1) as nat, k as nat);
        let b = pow(10, k as nat);
        lemma_pow_positive(10, k as nat);
        assert(m * b * units >= p * units * 1) by (nonlinear_arith)
            requires
                m >= a,
                p == a * b,
                b > 0,
                units > 0,
        ;
        lemma_huge(m * b * units, 1, t);
    } else {
        let d = pow(10, (-k) as nat);
        lemma_pow_positive(10, (-k) as nat);
        lemma_pow_adds(10, t, (-k) as nat);
        assert(m * units >= p * units * d) by (nonlinear_arith)
            requires
                m >= a,
                a == p * d,
                units > 0,
        ;
        lemma_huge(m * units, d, t);
    }
}

/// A number with enough zeros behind the point is nearest to zero.
proof fn lemma_decimal_tiny(m: nat, places: nat, k: int)
    requires
        m < pow(10, places),
        places + k < -400,
    ensures
        decimal(m, k) == 0,
{
    let units = pow2(1074) as int;
    let t = (-k - places) as nat;
    lemma_pow_adds(10, places, t);
    let a = pow(10, places);
    let p = pow(10, t);
    let d = pow(10, (-k) as nat);
    lemma_pow_positive(10, t);
    lemma_pow_positive(10, (-k) as nat);
    lemma_pow2_pos(1074);
    let n = m * units;
    assert(n * p <= units * d) by (nonlinear_arith)
        requires
            n == m * units,
            m < a,
            d == a * p,
            p > 0,
            units > 0,
    ;
    assert(n >= 0) by (nonlinear_arith)
        requires
            n == m * units,
            m >= 0,
            units > 0,
    ;
    lemma_tiny(n, d, t);
}

/// The bound that exponents are cut to: past it they make no difference.
const EXPONENT_LIMIT: i128 = 0x1_0000_0000_0000_0000_0000;

/// Cutting an exponent down changes nothing.
proof fn lemma_decimal_cut(digits: Seq<char>, e: int, j: int)
    requires
        forall|i: int| 0 <= i < digits.len() ==> text::is_digit(#[trigger] digits[i]),
        digits.len() <= 2 * usize::MAX,
        0 <= j <= usize::MAX,
    ensures
        decimal(text::number(digits), e - j) == decimal(
            text::number(digits),
            cast::clamped(e, -EXPONENT_LIMIT, EXPONENT_LIMIT as int) - j,
        ),
    decreases digits.len(),
{
    let m = text::number(digits);
    let f = cast::clamped(e, -EXPONENT_LIMIT, EXPONENT_LIMIT as int);
    if digits.len() == 0 {
        lemma_decimal_zero(e - j);
        lemma_decimal_zero(f - j);
    } else if digits[0] == '0' {
        let t = digits.skip(1);
        lemma_leading_zeros(digits, 1);
        assert forall|i: int| 0 <= i < t.len() implies text::is_digit(#[trigger] t[i]) by {
            assert(t[i] == digits[i + 1]);
        }
        lemma_decimal_cut(t, e, j);
    } else {
        lemma_number_places(digits);
        if e > EXPONENT_LIMIT {
            lemma_decimal_huge(m, digits.len(), e - j);
            lemma_decimal_huge(m, digits.len(), f - j);
        } else if e < -EXPONENT_LIMIT {
            lemma_decimal_tiny(m, digits.len(), e - j);
            lemma_decimal_tiny(m, digits.len(), f - j);
        }
    }
}

/// Five to the power `e`, times `start`.
fn times_fives(start: BigNat, e: u128) -> (r: BigNat)
    ensures
        r.value() == start.value() * pow(5, e as nat),
{
    let ghost first = start.value();
    let mut r: BigNat = start;
    let mut i: u128 = 0;
    proof {
        lemma_pow0(5);
        assert(first * 1 == first);
    }
    while i < e
        invariant
            i <= e,
            r.value() == first * pow(5, i as nat),
        decreases e - i,
    {
        proof {
            reveal(pow);
            let p = pow(5, i as nat);
            assert(first * (5 * p) == (first * p) * 5) by (nonlinear_arith);
        }
        r.multiply_add(5, 0);
        i = i + 1;
    }
    r
}

/// The magnitude of the number nearest to the digits times ten to the power `k`.
fn round_decimal(digits: &[char], k: i128) -> (r: u64)
    requires
        forall|i: int| 0 <= i < digits@.len() ==> text::is_digit(#[trigger] digits@[i]),
        -0x4_0000_0000_0000_0000_0000_0000 <= k <= 0x4_0000_0000_0000_0000_0000_0000,
    ensures
        r == decimal(text::number(digits@), k as int),
        r <= INFINITY_BITS,
{
    let ghost m = text::number(digits@);
    let mut zeros: usize = 0;
    while zeros < digits.len() && digits[zeros] == '0'
        invariant
            zeros <= digits@.len(),
            forall|i: int| 0 <= i < zeros ==> digits@[i] == '0',
        decreases digits@.len() - zeros,
    {
        zeros = zeros + 1;
    }
    let ghost units = pow2(1074) as int;
    let ghost n: int = if k >= 0 { m * pow(10, k as nat) * units } else { m * units };
    let ghost d: int = if k >= 0 { 1 } else { pow(10, (-k) as nat) };
    let ghost tail = digits@.skip(zeros as int);
    proof {
        lemma_leading_zeros(digits@, zeros as int);
        assert forall|i: int| 0 <= i < tail.len() implies text::is_digit(#[trigger] tail[i]) by {
            assert(tail[i] == digits@[i + zeros]);
        }
        lemma_number_places(tail);
        if k < 0 {
            lemma_pow_positive(10, (-k) as nat);
        }
        lemma_pow2_pos(1074);
    }
    if zeros == digits.len() {
        proof {
            assert(tail.len() == 0);
            assert(m == 0);
            lemma_decimal_zero(k as int);
        }
        return 0;
    }
    let places: i128 = (digits.len() - zeros) as i128;
    proof {
        assert(tail.len() == places);
        assert(tail[0] == digits@[zeros as int]);
        assert(m >= pow(10, (places - 1) as nat));
        assert(m < pow(10, places as nat));
    }
    if places + k > 400 {
        proof {
            lemma_decimal_huge(m, places as nat, k as int);
        }
        return INFINITY_BITS;
    }
    if places + k < -400 {
        proof {
            lemma_decimal_tiny(m, places as nat, k as int);
        }
        return 0;
    }
    let mut num: BigNat = BigNat::zero();
    let mut i: usize = zeros;
    assert(tail.take(0) =~= Seq::empty());
    while i < digits.len()
        invariant
            zeros <= i <= digits@.len(),
            tail == digits@.skip(zeros as int),
            forall|i: int| 0 <= i < digits@.len() ==> text::is_digit(#[trigger] digits@[i]),
            num.value() == text::number(tail.take(i - zeros)),
        decreases digits@.len() - i,
    {
        proof {
            let j = i - zeros;
            assert(tail.take(j + 1).drop_last() =~= tail.take(j));
            assert(tail.take(j + 1).last() == digits@[i as int]);
            assert(text::is_digit(digits@[i as int]));
        }
        if let Some(v) = text::digit(digits[i]) {
            num.multiply_add(10, v);
        }
        i = i + 1;
    }
    assert(tail.take(digits@.len() - zeros) =~= tail);
    assert(num.value() == m);
    proof {
        lemma_pow_positive(10, (places - 1) as nat);
    }
    if k >= 0 {
        let power: u128 = k as u128;
        let top: BigNat = times_fives(num, power);
        let one: BigNat = BigNat::one();
        let x: u128 = BIAS + 1074 + power;
        proof {
            let f = pow(5, k as nat);
            let p = pow2(k as nat) as int;
            let b = pow2(BIAS as nat) as int;
            lemma_ten(k as nat);
            lemma_pow2_adds(BIAS as nat, 1074);
            lemma_pow2_adds(BIAS as nat + 1074, k as nat);
            assert(m * f > 0) by (nonlinear_arith)
                requires
                    m > 0,
                    f > 0,
            ;
            assert((m * (f * p) * units) * b * 1 == (0 * 1 + m * f) * (((b * units) * p) * 1))
                by (nonlinear_arith);
        }
        divide(top, one, x, Ghost(n), Ghost(d))
    } else {
        let power: u128 = (-k) as u128;
        let one: BigNat = BigNat::one();
        let bottom: BigNat = times_fives(one, power);
        let x: u128 = BIAS + 1074 - power;
        proof {
            let f = pow(5, power as nat);
            let p = pow2(power as nat) as int;
            let b = pow2(BIAS as nat) as int;
            lemma_ten(power as nat);
            lemma_pow2_adds(BIAS as nat, 1074);
            lemma_pow2_adds(x as nat, power as nat);
            let g = pow2(x as nat) as int;
            assert(g * p == b * units);
            assert((m * units) * b * f == (0 * f + m) * (g * (f * p))) by (nonlinear_arith)
                requires
                    g * p == b * units,
            ;
        }
        divide(num, bottom, x, Ghost(n), Ghost(d))
    }
}

/// What is known of a run of digits at the start.
proof fn lemma_leading_digits(s: Seq<char>)
    ensures
        leading_digits(s) <= s.len(),
        forall|i: int| 0 <= i < leading_digits(s) ==> text::is_digit(#[trigger] s[i]),
        leading_digits(s) < s.len() ==> !text::is_digit(s[leading_digits(s) as int]),
    decreases s.len(),
{
    if s.len() > 0 && text::is_digit(s[0]) {
        let t = s.drop_first();
        lemma_leading_digits(t);
        assert forall|i: int| 0 <= i < leading_digits(s) implies text::is_digit(#[trigger] s[i]) by {
            if i > 0 {
                assert(s[i] == t[i - 1]);
            }
        }
    }
}

/// How many digits a text starts with.
fn count_digits(s: &[char]) -> (r: usize)
    ensures
        r == leading_digits(s@),
{
    proof {
        lemma_leading_digits(s@);
    }
    let mut i: usize = 0;
    while i < s.len() && text::digit(s[i]).is_some()
        invariant
            i <= leading_digits(s@) <= s@.len(),
            forall|j: int| 0 <= j < leading_digits(s@) ==> text::is_digit(#[trigger] s@[j]),
            leading_digits(s@) < s@.len() ==> !text::is_digit(s@[leading_digits(s@) as int]),
        decreases s@.len() - i,
    {
        i = i + 1;
    }
    i
}

/// Whether a text is a word, apart from the case of its letters.
fn matches_word(s: &[char], word: &[char]) -> (r: bool)
    ensures
        r == is_word(s@, word@),
{
    if s.len() != word.len() {
        return false;
    }
    let mut i: usize = 0;
    while i < s.len()
        invariant
            i <= s@.len(),
            s@.len() == word@.len(),
            forall|j: int| 0 <= j < i ==> lower(#[trigger] s@[j]) == word@[j],
        decreases s@.len() - i,
    {
        let c: char = s[i];
        let l: char = if 'A' <= c && c <= 'Z' { ((c as u8) + 32) as char } else { c };
        if l != word[i] {
            return false;
        }
        i = i + 1;
    }
    true
}

/// The exponent that a text writes, cut to the limit.
fn read_exponent(s: &[char]) -> (r: Option<i128>)
    ensures
        match exponent(s@) {
            Some(e) => r is Some && r->0 == cast::clamped(
                e,
                -EXPONENT_LIMIT,
                EXPONENT_LIMIT as int,
            ),
            None => r is None,
        },
{
    if s.len() == 0 {
        return Some(0);
    }
    if s[0] != 'e' && s[0] != 'E' {
        return None;
    }
    let ghost t = s@.skip(1);
    let signed: bool = s.len() > 1 && (s[1] == '-' || s[1] == '+');
    let negative: bool = signed && s[1] == '-';
    let start: usize = if signed { 2 } else { 1 };
    let ghost digits = s@.skip(start as int);
    proof {
        if signed {
            assert(t.skip(1) =~= digits);
        }
    }
    if start >= s.len() {
        return None;
    }
    let mut v: i128 = 0;
    let mut large: bool = false;
    let mut i: usize = start;
    assert(digits.take(0) =~= Seq::empty());
    while i < s.len()
        invariant
            1 <= start <= i <= s@.len(),
            start < s@.len(),
            t == s@.skip(1),
            s@[0] == 'e' || s@[0] == 'E',
            signed == (s@.len() > 1 && (s@[1] == '-' || s@[1] == '+')),
            digits == (if signed { t.skip(1) } else { t }),
            digits == s@.skip(start as int),
            forall|j: int| 0 <= j < i - start ==> text::is_digit(#[trigger] digits[j]),
            0 <= v <= EXPONENT_LIMIT,
            !large ==> v == text::number(digits.take(i - start)),
            large ==> text::number(digits.take(i - start)) > EXPONENT_LIMIT,
        decreases s@.len() - i,
    {
        match text::digit(s[i]) {
            None => {
                assert(!text::is_digit(digits[i - start]));
                assert(t[0] == s@[1]);
                return None;
            },
            Some(d) => {
                proof {
                    let k = i - start;
                    assert(digits.take(k + 1).drop_last() =~= digits.take(k));
                    assert(digits.take(k + 1).last() == s@[i as int]);
                }
                let w: i128 = v * 10 + d as i128;
                if large || w > EXPONENT_LIMIT {
                    large = true;
                } else {
                    v = w;
                }
            },
        }
        i = i + 1;
    }
    assert(digits.take(s@.len() - start) =~= digits);
    assert(t[0] == s@[1]);
    let size: i128 = if large { EXPONENT_LIMIT } else { v };
    if negative {
        Some(-size)
    } else {
        Some(size)
    }
}

/// The magnitude of the number that a text writes without a sign.
fn read_unsigned(s: &[char]) -> (r: Option<u64>)
    ensures
        match unsigned(s@) {
            Some(m) => r is Some && r->0 == m && r->0 <= INFINITY_BITS,
            None => r is None,
        },
{
    let i: usize = count_digits(s);
    proof {
        lemma_leading_digits(s@);
    }
    let point: bool = i < s.len() && s[i] == '.';
    let fraction: &[char] = if point { &s[i + 1..s.len()] } else { &s[0..0] };
    let j: usize = count_digits(fraction);
    let ghost whole = if point { s@.skip(i + 1) } else { Seq::empty() };
    proof {
        lemma_leading_digits(fraction@);
        assert(fraction@ =~= whole);
    }
    let rest: &[char] = if point { &fraction[j..fraction.len()] } else { &s[i..s.len()] };
    assert(rest@ =~= (if point { whole.skip(j as int) } else { s@.skip(i as int) }));
    match read_exponent(rest) {
        None => None,
        Some(e) => {
            if i == 0 && j == 0 {
                return None;
            }
            let mut digits: Vec<char> = Vec::new();
            let mut k: usize = 0;
            while k < i
                invariant
                    k <= i <= s@.len(),
                    digits@ == s@.take(k as int),
                decreases i - k,
            {
                digits.push(s[k]);
                assert(s@.take(k + 1) =~= s@.take(k as int).push(s@[k as int]));
                k = k + 1;
            }
            let ghost front = digits@;
            let mut k: usize = 0;
            assert(front + fraction@.take(0) =~= front);
            while k < j
                invariant
                    k <= j <= fraction@.len(),
                    digits@ == front + fraction@.take(k as int),
                decreases j - k,
            {
                digits.push(fraction[k]);
                assert(front + fraction@.take(k + 1) =~= (front + fraction@.take(k as int)).push(
                    fraction@[k as int],
                ));
                k = k + 1;
            }
            proof {
                assert forall|q: int| 0 <= q < digits@.len() implies text::is_digit(
                    #[trigger] digits@[q],
                ) by {
                    if q < i {
                        assert(digits@[q] == s@[q]);
                    } else {
                        assert(digits@[q] == fraction@[q - i]);
                    }
                }
                lemma_decimal_cut(digits@, exponent(rest@)->0, j as int);
            }
            Some(round_decimal(digits.as_slice(), e - j as i128))
        },
    }
}

impl F64 {
    /// The number that a text writes, if it writes one.
    pub fn parse(s: &[char]) -> (r: Option<F64>)
        ensures
            r == parsed(s@),
    {
        let signed: bool = s.len() > 0 && (s[0] == '-' || s[0] == '+');
        let negative: bool = signed && s[0] == '-';
        let body: &[char] = if signed { &s[1..s.len()] } else { s };
        let ghost b = if signed { s@.skip(1) } else { s@ };
        assert(body@ =~= b);
        let inf: [char; 3] = ['i', 'n', 'f'];
        let infinity: [char; 8] = ['i', 'n', 'f', 'i', 'n', 'i', 't', 'y'];
        let nan: [char; 3] = ['n', 'a', 'n'];
        assert(inf@ =~= seq!['i', 'n', 'f']);
        assert(infinity@ =~= seq!['i', 'n', 'f', 'i', 'n', 'i', 't', 'y']);
        assert(nan@ =~= seq!['n', 'a', 'n']);
        if matches_word(body, &inf) || matches_word(body, &infinity) {
            Some(binary64::make(negative, INFINITY_BITS))
        } else if matches_word(body, &nan) {
            if negative {
                Some(F64 { bits: SIGN_BIT + NAN_BITS })
            } else {
                Some(F64 { bits: NAN_BITS })
            }
        } else {
            match read_unsigned(body) {
                Some(m) => Some(binary64::make(negative, m)),
                None => None,
            }
        }
    }
}

/// Whether `c` may occur in a number's text.
spec fn plain(c: char) -> bool {
    c != ',' && c != ' '
}

spec fn all_plain(s: Seq<char>) -> bool {
    forall|i: int| 0 <= i < s.len() ==> plain(#[trigger] s[i])
}

proof fn lemma_plain_parts(s: Seq<char>, n: int)
    requires
        0 <= n <= s.len(),
        all_plain(s.take(n)),
        all_plain(s.skip(n)),
    ensures
        all_plain(s),
{
    assert forall|i: int| 0 <= i < s.len() implies plain(#[trigger] s[i]) by {
        if i < n {
            assert(s[i] == s.take(n)[i]);
        } else {
            assert(s[i] == s.skip(n)[i - n]);
        }
    }
}

proof fn lemma_plain_exponent(s: Seq<char>)
    requires
        exponent(s) is Some,
    ensures
        all_plain(s),
{
    if s.len() > 0 {
        let t = s.skip(1);
        let signed = t.len() > 0 && (t[0] == '-' || t[0] == '+');
        let digits = if signed { t.skip(1) } else { t };
        assert forall|i: int| 0 <= i < s.len() implies plain(#[trigger] s[i]) by {
            if i > 0 {
                assert(s[i] == t[i - 1]);
                if signed && i > 1 {
                    assert(text::is_digit(digits[i - 2]));
                } else if !signed {
                    assert(text::is_digit(digits[i - 1]));
                }
            }
        }
    }
}

proof fn lemma_plain_unsigned(s: Seq<char>)
    requires
        unsigned(s) is Some,
    ensures
        s.len() > 0,
        all_plain(s),
{
    let i = leading_digits(s) as int;
    lemma_leading_digits(s);
    let point = i < s.len() && s[i] == '.';
    let fraction = if point { s.skip(i + 1) } else { Seq::empty() };
    let j = leading_digits(fraction) as int;
    lemma_leading_digits(fraction);
    let rest = if point { fraction.skip(j) } else { s.skip(i) };
    lemma_plain_exponent(rest);
    assert forall|k: int| 0 <= k < i implies plain(#[trigger] s.take(i)[k]) by {
        assert(text::is_digit(s[k]));
    }
    if point {
        assert forall|k: int| 0 <= k < j implies plain(#[trigger] fraction.take(j)[k]) by {
            assert(text::is_digit(fraction[k]));
        }
        lemma_plain_parts(fraction, j);
        let t = s.skip(i);
        assert forall|k: int| 0 <= k < t.len() implies plain(#[trigger] t[k]) by {
            if k > 0 {
                assert(t[k] == fraction[k - 1]);
            }
        }
    }
    lemma_plain_parts(s, i);
}

/// No comma or space occurs in the text of a number.
pub proof fn lemma_number_is_field(s: Seq<char>)
    requires
        parsed(s) is Some,
    ensures
        text::is_field(s, text::Separator::CommaOrSpace),
{
    let signed = s.len() > 0 && (s[0] == '-' || s[0] == '+');
    let body = if signed { s.skip(1) } else { s };
    let inf = seq!['i', 'n', 'f'];
    let infinity = seq!['i', 'n', 'f', 'i', 'n', 'i', 't', 'y'];
    let nan = seq!['n', 'a', 'n'];
    assert(all_plain(body) && body.len() > 0) by {
        if is_word(body, inf) || is_word(body, infinity) || is_word(body, nan) {
            assert forall|i: int| 0 <= i < body.len() implies plain(#[trigger] body[i]) by {
                let c = lower(body[i]);
                assert(c == 'i' || c == 'n' || c == 'f' || c == 't' || c == 'y' || c == 'a');
            }
        } else {
            lemma_plain_unsigned(body);
        }
    }
    assert forall|i: int| 0 <= i < s.len() implies plain(#[trigger] s[i]) by {
        if signed && i > 0 {
            assert(s[i] == body[i - 1]);
        }
    }
    assert forall|i: int| 0 <= i < s.len() implies !text::Separator::CommaOrSpace.separates(
        #[trigger] s[i],
    ) by {
        assert(plain(s[i]));
    }
}

/// Whether a text is made of digits, of none too.
pub open spec fn are_digits(s: Seq<char>) -> bool {
    forall|i: int| 0 <= i < s.len() ==> '0' <= #[trigger] s[i] <= '9'
}

/// The digits that a text starts with.
proof fn lemma_digits_before(d: Seq<char>, rest: Seq<char>)
    requires
        are_digits(d),
        rest.len() > 0 ==> !text::is_digit(rest[0]),
    ensures
        leading_digits(d + rest) == d.len(),
{
    let s = d + rest;
    lemma_leading_digits(s);
    let n = leading_digits(s) as int;
    if n < d.len() {
        assert(s[n] == d[n]);
        assert(text::is_digit(d[n]));
    } else if n > d.len() {
        let m = d.len() as int;
        assert(text::is_digit(s[m]));
        assert(s[m] == rest[0]);
    }
}

/// Whether `r` is the number nearest to `m` times ten to the power `k`.
pub open spec fn is_nearest_decimal(r: F64, m: int, k: int) -> bool {
    if k >= 0 {
        exact::is_nearest_number(r, m * pow(10, k as nat) * cast::one(), 1)
    } else {
        exact::is_nearest_number(r, m * cast::one(), pow(10, (-k) as nat))
    }
}

proof fn lemma_decimal_is_nearest(negative: bool, m: nat, k: int)
    ensures
        ({
            let r = binary64::signed(negative, decimal(m, k));
            is_nearest_decimal(r, if negative { -(m as int) } else { m as int }, k)
        }),
{
    let units = pow2(arith::unit_exponent()) as int;
    lemma_pow2_pos(1074);
    if k >= 0 {
        let t = pow(10, k as nat);
        lemma_pow_positive(10, k as nat);
        let n = m * t * units;
        assert(n >= 0) by (nonlinear_arith)
            requires
                n == m * t * units,
                m >= 0,
                t >= 0,
                units >= 0,
        ;
        exact::lemma_nearest_number(negative, n, 1);
        assert((-(m as int)) * t * units == -n) by (nonlinear_arith)
            requires
                n == m * t * units,
        ;
    } else {
        let t = pow(10, (-k) as nat);
        lemma_pow_positive(10, (-k) as nat);
        let n = m * units;
        assert(n >= 0) by (nonlinear_arith)
            requires
                n == m * units,
                m >= 0,
                units >= 0,
        ;
        exact::lemma_nearest_number(negative, n, t);
        assert((-(m as int)) * units == -n) by (nonlinear_arith)
            requires
                n == m * units,
        ;
    }
}

/// What is written before the exponent, and the exponent.
proof fn lemma_unsigned_text(whole: Seq<char>, fraction: Seq<char>, tail: Seq<char>, point: bool)
    requires
        are_digits(whole) && are_digits(fraction),
        whole.len() + fraction.len() > 0,
        !point ==> fraction.len() == 0,
        tail.len() > 0 ==> tail[0] == 'e' || tail[0] == 'E',
    ensures
        ({
            let dot = if point { seq!['.'] } else { Seq::empty() };
            let s = whole + dot + fraction + tail;
            unsigned(s) == match exponent(tail) {
                Some(e) => Some(decimal(text::number(whole + fraction), e - fraction.len())),
                None => None,
            }
        }),
{
    let dot = if point { seq!['.'] } else { Seq::empty() };
    let s = whole + dot + fraction + tail;
    let after = dot + fraction + tail;
    assert(s =~= whole + after);
    lemma_digits_before(whole, after);
    lemma_digits_before(fraction, tail);
    let i = whole.len() as int;
    assert(s.take(i) =~= whole);
    if point {
        assert(s[i] == '.');
        assert(s.skip(i + 1) =~= fraction + tail);
        let f = fraction + tail;
        assert(f.take(fraction.len() as int) =~= fraction);
        assert(f.skip(fraction.len() as int) =~= tail);
    } else {
        assert(s.skip(i) =~= tail);
        if i < s.len() {
            assert(s[i] == tail[0]);
        }
        let none = Seq::<char>::empty();
        assert(leading_digits(none) == 0);
        assert(none.take(0) =~= fraction);
    }
}

/// Digits with a point or without, behind a sign or none, read as the number nearest to
/// what they write; an exponent behind the letter e says by which power of ten that is to be
/// multiplied.
#[verifier::spinoff_prover]
pub proof fn law_decimals_are_read(
    s: &[char],
    r: Option<F64>,
    sign: Seq<char>,
    whole: Seq<char>,
    point: bool,
    fraction: Seq<char>,
    power: int,
    tail: Seq<char>,
)
    requires
        call_ensures(F64::parse, (s,), r),
        are_digits(whole) && are_digits(fraction),
        whole.len() + fraction.len() > 0,
        !point ==> fraction.len() == 0,
        sign.len() == 0 || sign == seq!['-'] || sign == seq!['+'],
        (tail.len() == 0 && power == 0) || tail == seq!['e'] + text::numeral(power) || tail
            == seq!['E'] + text::numeral(power),
        s@ == sign + whole + (if point { seq!['.'] } else { Seq::empty() }) + fraction + tail,
    ensures
        ({
            let m = text::number(whole + fraction) as int;
            &&& r matches Some(v)
            &&& v.negative() == (sign == seq!['-'])
            &&& is_nearest_decimal(v, if v.negative() { -m } else { m }, power - fraction.len())
        }),
{
    let dot = if point { seq!['.'] } else { Seq::empty() };
    let body = whole + dot + fraction + tail;
    assert(s@ =~= sign + body);
    text::law_large_numerals_are_not_read(power);
    if tail.len() > 0 {
        assert(tail.skip(1) =~= text::numeral(power));
    }
    assert(exponent(tail) == Some(power));
    lemma_unsigned_text(whole, fraction, tail, point);
    if whole.len() > 0 {
        assert(body[0] == whole[0]);
    } else {
        assert(body[0] == '.');
    }
    lemma_signed_text(sign, body);
    let m = text::number(whole + fraction);
    let k = power - fraction.len();
    let negative = sign == seq!['-'];
    lemma_decimal_is_nearest(negative, m, k);
    lemma_decimal_is_number(m, k);
    laws::lemma_signed(negative, decimal(m, k));
}

/// A number behind a sign or none.
#[verifier::spinoff_prover]
proof fn lemma_signed_text(sign: Seq<char>, body: Seq<char>)
    requires
        sign.len() == 0 || sign == seq!['-'] || sign == seq!['+'],
        body.len() > 0,
        '0' <= body[0] <= '9' || body[0] == '.',
    ensures
        parsed(sign + body) == match unsigned(body) {
            Some(m) => Some(binary64::signed(sign == seq!['-'], m)),
            None => None,
        },
{
    let s = sign + body;
    let c = body[0];
    assert(lower(c) == c);
    assert(c != 'i' && c != 'n');
    assert(!is_word(body, seq!['i', 'n', 'f'])) by {
        assert(lower(body[0]) != 'i');
    }
    assert(!is_word(body, seq!['i', 'n', 'f', 'i', 'n', 'i', 't', 'y'])) by {
        assert(lower(body[0]) != 'i');
    }
    assert(!is_word(body, seq!['n', 'a', 'n'])) by {
        assert(lower(body[0]) != 'n');
    }
    if sign.len() > 0 {
        assert(s[0] == sign[0]);
        assert(s.skip(1) =~= body);
        if sign == seq!['-'] {
            assert(sign[0] == '-');
        } else {
            assert(sign[0] == '+');
        }
    } else {
        assert(s =~= body);
    }
}

proof fn lemma_decimal_is_number(m: nat, k: int)
    ensures
        decimal(m, k) <= INFINITY_BITS,
{
    let units = pow2(arith::unit_exponent()) as int;
    lemma_pow2_pos(1074);
    if k >= 0 {
        let t = pow(10, k as nat);
        lemma_pow_positive(10, k as nat);
        let n = m * t * units;
        assert(n >= 0) by (nonlinear_arith)
            requires
                n == m * t * units,
                m >= 0,
                t >= 0,
                units >= 0,
        ;
        round::lemma_nearest_exists(n, 1);
    } else {
        let t = pow(10, (-k) as nat);
        lemma_pow_positive(10, (-k) as nat);
        let n = m * units;
        assert(n >= 0) by (nonlinear_arith)
            requires
                n == m * units,
                m >= 0,
                units >= 0,
        ;
        round::lemma_nearest_exists(n, t);
    }
}

/// Whether a text is a word, in small letters, in capitals or in both.
pub open spec fn spells(s: Seq<char>, small: Seq<char>, large: Seq<char>) -> bool {
    s.len() == small.len() && forall|i: int|
        0 <= i < s.len() ==> #[trigger] s[i] == small[i] || s[i] == large[i]
}

/// Whether a text is one of the words for infinity.
pub open spec fn spells_infinity(s: Seq<char>) -> bool {
    spells(s, seq!['i', 'n', 'f'], seq!['I', 'N', 'F']) || spells(
        s,
        seq!['i', 'n', 'f', 'i', 'n', 'i', 't', 'y'],
        seq!['I', 'N', 'F', 'I', 'N', 'I', 'T', 'Y'],
    )
}

proof fn lemma_spells(s: Seq<char>)
    ensures
        spells_infinity(s) <==> is_word(s, seq!['i', 'n', 'f']) || is_word(
            s,
            seq!['i', 'n', 'f', 'i', 'n', 'i', 't', 'y'],
        ),
        spells(s, seq!['n', 'a', 'n'], seq!['N', 'A', 'N']) <==> is_word(s, seq!['n', 'a', 'n']),
{
    lemma_spells_word(s, seq!['i', 'n', 'f'], seq!['I', 'N', 'F']);
    lemma_spells_word(
        s,
        seq!['i', 'n', 'f', 'i', 'n', 'i', 't', 'y'],
        seq!['I', 'N', 'F', 'I', 'N', 'I', 'T', 'Y'],
    );
    lemma_spells_word(s, seq!['n', 'a', 'n'], seq!['N', 'A', 'N']);
}

proof fn lemma_spells_word(s: Seq<char>, small: Seq<char>, large: Seq<char>)
    requires
        small.len() == large.len(),
        forall|i: int|
            0 <= i < small.len() ==> 'a' <= #[trigger] small[i] <= 'z' && large[i] as int + 32
                == small[i] as int,
    ensures
        spells(s, small, large) <==> is_word(s, small),
{
    if spells(s, small, large) {
        assert forall|i: int| 0 <= i < s.len() implies lower(#[trigger] s[i]) == small[i] by {
            assert('a' <= small[i] <= 'z');
            assert(s[i] == small[i] || s[i] == large[i]);
        }
    }
    if is_word(s, small) {
        assert forall|i: int| 0 <= i < s.len() implies #[trigger] s[i] == small[i] || s[i]
            == large[i] by {
            assert(lower(s[i]) == small[i]);
            assert('a' <= small[i] <= 'z');
        }
    }
}

/// The words for infinity and for what is no number are read as these, in letters of either
/// kind and behind a sign or none.
#[verifier::spinoff_prover]
pub proof fn law_words_are_read(s: &[char], r: Option<F64>, sign: Seq<char>, word: Seq<char>)
    requires
        call_ensures(F64::parse, (s,), r),
        sign.len() == 0 || sign == seq!['-'] || sign == seq!['+'],
        s@ == sign + word,
    ensures
        spells_infinity(word) ==> (r matches Some(v) && v.infinite() && v.negative() == (sign
            == seq!['-'])),
        spells(word, seq!['n', 'a', 'n'], seq!['N', 'A', 'N']) ==> (r matches Some(v) && v.nan()),
{
    lemma_spells(word);
    let negative = sign == seq!['-'];
    laws::lemma_signed(negative, INFINITY_BITS as nat);
    laws::lemma_signed(negative, NAN_BITS as nat);
    if sign.len() > 0 {
        assert(s@[0] == sign[0]);
        assert(s@.skip(1) =~= word);
        if negative {
            assert(sign[0] == '-');
        } else {
            assert(sign[0] == '+');
        }
    } else {
        assert(s@ =~= word);
        if word.len() > 0 {
            assert(lower('-') == '-' && lower('+') == '+');
        }
        if is_word(word, seq!['i', 'n', 'f']) || is_word(
            word,
            seq!['i', 'n', 'f', 'i', 'n', 'i', 't', 'y'],
        ) || is_word(word, seq!['n', 'a', 'n']) {
            assert(lower(word[0]) == 'i' || lower(word[0]) == 'n');
        }
    }
}

/// Nothing else is read: a text that is read is one of these words, or digits, of which
/// there is at least one, with a point among them or without, and with an integer behind the
/// letter e or without, all behind a sign or none.
#[verifier::spinoff_prover]
pub proof fn law_only_numbers_are_read(s: &[char], r: Option<F64>) -> (parts: (
    Seq<char>,
    Seq<char>,
    bool,
    Seq<char>,
    Seq<char>,
))
    requires
        call_ensures(F64::parse, (s,), r),
        r is Some,
    ensures
        ({
            let (sign, whole, point, fraction, tail) = parts;
            let word = s@.skip(sign.len() as int);
            &&& sign.len() == 0 || sign == seq!['-'] || sign == seq!['+']
            &&& sign.is_prefix_of(s@)
            &&& spells_infinity(word) || spells(word, seq!['n', 'a', 'n'], seq!['N', 'A', 'N']) || {
                &&& s@ == sign + whole + (if point { seq!['.'] } else { Seq::empty() }) + fraction
                    + tail
                &&& are_digits(whole) && are_digits(fraction)
                &&& whole.len() + fraction.len() > 0
                &&& tail.len() == 0 || ((tail[0] == 'e' || tail[0] == 'E') && text::integer(
                    tail.skip(1),
                ) is Some)
            }
        }),
{
    let none = Seq::<char>::empty();
    let signed = s@.len() > 0 && (s@[0] == '-' || s@[0] == '+');
    let sign = if signed { s@.take(1) } else { none };
    let b = if signed { s@.skip(1) } else { s@ };
    assert(s@.skip(sign.len() as int) =~= b);
    assert(s@ =~= sign + b);
    assert(sign =~= s@.subrange(0, sign.len() as int));
    if signed {
        if s@[0] == '-' {
            assert(sign =~= seq!['-']);
        } else {
            assert(sign =~= seq!['+']);
        }
    }
    lemma_spells(b);
    if spells_infinity(b) || spells(b, seq!['n', 'a', 'n'], seq!['N', 'A', 'N']) {
        (sign, none, false, none, none)
    } else {
        let (whole, point, fraction, tail) = lemma_unsigned_parts(b);
        let dot = if point { seq!['.'] } else { Seq::empty() };
        assert(s@ =~= sign + whole + dot + fraction + tail);
        (sign, whole, point, fraction, tail)
    }
}

/// The parts of a number without a sign.
#[verifier::spinoff_prover]
proof fn lemma_unsigned_parts(b: Seq<char>) -> (parts: (Seq<char>, bool, Seq<char>, Seq<char>))
    requires
        unsigned(b) is Some,
    ensures
        ({
            let (whole, point, fraction, tail) = parts;
            &&& b == whole + (if point { seq!['.'] } else { Seq::empty() }) + fraction + tail
            &&& are_digits(whole) && are_digits(fraction)
            &&& whole.len() + fraction.len() > 0
            &&& tail.len() == 0 || ((tail[0] == 'e' || tail[0] == 'E') && text::integer(
                tail.skip(1),
            ) is Some)
        }),
{
    let i = leading_digits(b) as int;
    lemma_leading_digits(b);
    let point = i < b.len() && b[i] == '.';
    let f = if point { b.skip(i + 1) } else { Seq::empty() };
    let j = leading_digits(f) as int;
    lemma_leading_digits(f);
    let tail = if point { f.skip(j) } else { b.skip(i) };
    let (whole, fraction) = (b.take(i), f.take(j));
    let dot = if point { seq!['.'] } else { Seq::empty() };
    assert forall|k: int| 0 <= k < whole.len() implies '0' <= #[trigger] whole[k] <= '9' by {
        assert(text::is_digit(b[k]));
    }
    assert forall|k: int| 0 <= k < fraction.len() implies '0' <= #[trigger] fraction[k] <= '9' by {
        assert(text::is_digit(f[k]));
    }
    assert(b =~= whole + dot + fraction + tail);
    (whole, point, fraction, tail)
}

} // verus!
