//! Natural numbers of any size, as far as exact decimal conversion needs them.

use vstd::prelude::*;
use vstd::arithmetic::power2::*;

verus! {

/// A natural number, by its digits in base two to the power 32, lowest first.
pub struct BigNat {
    limbs: Vec<u32>,
}

/// The number whose digits are `s`.
pub closed spec fn limbs_value(s: Seq<u32>) -> nat
    decreases s.len(),
{
    if s.len() == 0 {
        0
    } else {
        limbs_value(s.drop_last()) + s.last() as nat * pow2(32 * (s.len() - 1) as nat)
    }
}

/// The digit at place `i`, zero past the leading one.
spec fn digit(s: Seq<u32>, i: int) -> u32 {
    if i < s.len() { s[i] } else { 0 }
}

/// The number that the lowest `k` digits of `s` make.
spec fn low_value(s: Seq<u32>, k: nat) -> nat
    decreases k,
{
    if k == 0 {
        0
    } else {
        low_value(s, (k - 1) as nat) + digit(s, k - 1) as nat * pow2(32 * (k - 1) as nat)
    }
}

proof fn lemma_low_prefix(s: Seq<u32>, t: Seq<u32>, k: nat)
    requires
        forall|i: int| 0 <= i < k ==> digit(s, i) == digit(t, i),
    ensures
        low_value(s, k) == low_value(t, k),
    decreases k,
{
    if k > 0 {
        lemma_low_prefix(s, t, (k - 1) as nat);
    }
}

proof fn lemma_low_whole(s: Seq<u32>)
    ensures
        low_value(s, s.len()) == limbs_value(s),
    decreases s.len(),
{
    if s.len() > 0 {
        let p = s.drop_last();
        lemma_low_whole(p);
        assert forall|i: int| 0 <= i < p.len() implies digit(s, i) == digit(p, i) by {}
        lemma_low_prefix(s, p, p.len());
    }
}

/// Places past the leading digit add nothing.
proof fn lemma_low_past(s: Seq<u32>, k: nat)
    requires
        k >= s.len(),
    ensures
        low_value(s, k) == limbs_value(s),
    decreases k,
{
    if k == s.len() {
        lemma_low_whole(s);
    } else {
        lemma_low_past(s, (k - 1) as nat);
        assert(0 * pow2(32 * (k - 1) as nat) == 0);
    }
}

proof fn lemma_low_bound(s: Seq<u32>, k: nat)
    ensures
        low_value(s, k) < pow2(32 * k),
    decreases k,
{
    lemma2_to64();
    if k > 0 {
        let j = (k - 1) as nat;
        lemma_low_bound(s, j);
        lemma_pow2_adds(32 * j, 32);
        let p = pow2(32 * j);
        let d = digit(s, j as int) as nat;
        assert(d * p + p <= p * 0x1_0000_0000) by (nonlinear_arith)
            requires
                d < 0x1_0000_0000,
                p >= 0,
        ;
    }
}

impl BigNat {
    /// The number itself.
    pub closed spec fn value(&self) -> nat {
        limbs_value(self.limbs@)
    }

    /// A bound that the number stays below.
    pub closed spec fn width(&self) -> nat {
        self.limbs@.len()
    }

    /// A number is below two to the power of 32 times its digits.
    pub proof fn lemma_width(&self)
        ensures
            self.value() < pow2(32 * self.width()),
            self.width() <= usize::MAX,
    {
        lemma_low_whole(self.limbs@);
        lemma_low_bound(self.limbs@, self.limbs@.len());
        assert(self.limbs.len() <= usize::MAX);
    }

    pub fn zero() -> (r: BigNat)
        ensures
            r.value() == 0,
    {
        BigNat { limbs: Vec::new() }
    }

    pub fn one() -> (r: BigNat)
        ensures
            r.value() == 1,
    {
        let mut limbs: Vec<u32> = Vec::new();
        limbs.push(1);
        proof {
            lemma2_to64();
            assert(limbs@.drop_last() =~= Seq::<u32>::empty());
            assert(limbs_value(limbs@.drop_last()) == 0);
            assert(1 * pow2(0) == 1);
        }
        BigNat { limbs }
    }

    /// Replaces the number by `m` times it, and `a` more.
    pub fn multiply_add(&mut self, m: u32, a: u32)
        ensures
            final(self).value() == old(self).value() * m + a,
    {
        let ghost before = self.limbs@;
        let len: usize = self.limbs.len();
        let mut carry: u64 = a as u64;
        let mut i: usize = 0;
        proof {
            lemma2_to64();
            assert(0 * m == 0);
            assert(carry * pow2(0) == carry) by (nonlinear_arith)
                requires
                    pow2(0) == 1,
            ;
        }
        while i < len
            invariant
                i <= len,
                len == self.limbs@.len(),
                len == before.len(),
                carry < 0x1_0000_0000,
                forall|j: int| i <= j < len ==> self.limbs@[j] == before[j],
                low_value(self.limbs@, i as nat) + carry * pow2(32 * i as nat) == low_value(
                    before,
                    i as nat,
                ) * m + a,
            decreases len - i,
        {
            let limb: u32 = self.limbs[i];
            assert(limb * m <= 0xffff_ffff * 0xffff_ffff) by (nonlinear_arith)
                requires
                    0 <= limb <= 0xffff_ffff,
                    0 <= m <= 0xffff_ffff,
            ;
            let t: u64 = (limb as u64) * (m as u64) + carry;
            let d: u32 = (t % 0x1_0000_0000) as u32;
            let c: u64 = t / 0x1_0000_0000;
            let ghost mid = self.limbs@;
            self.limbs.set(i, d);
            proof {
                let p = pow2(32 * i as nat);
                lemma_low_prefix(mid, self.limbs@, i as nat);
                lemma_pow2_adds(32 * i as nat, 32);
                lemma2_to64();
                assert(pow2(32 * (i + 1) as nat) == p * 0x1_0000_0000);
                assert(d + c * 0x1_0000_0000 == limb * m + carry);
                let low = low_value(before, i as nat);
                assert(d * p + c * (p * 0x1_0000_0000) == (limb * p) * m + carry * p)
                    by (nonlinear_arith)
                    requires
                        d + c * 0x1_0000_0000 == limb * m + carry,
                ;
                assert((low + limb * p) * m == low * m + (limb * p) * m) by (nonlinear_arith);
                assert(c < 0x1_0000_0000) by (nonlinear_arith)
                    requires
                        d + c * 0x1_0000_0000 == limb * m + carry,
                        0 <= limb <= 0xffff_ffff,
                        0 <= m <= 0xffff_ffff,
                        carry < 0x1_0000_0000,
                        d >= 0,
                ;
            }
            carry = c;
            i = i + 1;
        }
        proof {
            lemma_low_whole(before);
            lemma_low_whole(self.limbs@);
        }
        if carry > 0 {
            let ghost mid = self.limbs@;
            self.limbs.push(carry as u32);
            assert(self.limbs@.drop_last() =~= mid);
        } else {
            assert(0 * pow2(32 * len as nat) == 0);
        }
    }

    fn limb(&self, i: usize) -> (r: u32)
        ensures
            r == digit(self.limbs@, i as int),
    {
        if i < self.limbs.len() {
            self.limbs[i]
        } else {
            0
        }
    }

    /// `self < other`.
    pub fn less(&self, other: &BigNat) -> (r: bool)
        ensures
            r == (self.value() < other.value()),
    {
        let len: usize = if self.limbs.len() < other.limbs.len() {
            other.limbs.len()
        } else {
            self.limbs.len()
        };
        let mut r: bool = false;
        let mut i: usize = 0;
        while i < len
            invariant
                i <= len,
                r == (low_value(self.limbs@, i as nat) < low_value(other.limbs@, i as nat)),
            decreases len - i,
        {
            let a: u32 = self.limb(i);
            let b: u32 = other.limb(i);
            proof {
                let p = pow2(32 * i as nat);
                lemma_low_bound(self.limbs@, i as nat);
                lemma_low_bound(other.limbs@, i as nat);
                assert(a < b ==> a * p + p <= b * p) by (nonlinear_arith)
                    requires
                        p >= 0,
                ;
                assert(b < a ==> b * p + p <= a * p) by (nonlinear_arith)
                    requires
                        p >= 0,
                ;
            }
            if a < b {
                r = true;
            } else if b < a {
                r = false;
            }
            i = i + 1;
        }
        proof {
            lemma_low_past(self.limbs@, len as nat);
            lemma_low_past(other.limbs@, len as nat);
        }
        r
    }

    /// Takes `other`, which is no larger, off the number.
    pub fn subtract(&mut self, other: &BigNat)
        requires
            other.value() <= old(self).value(),
        ensures
            final(self).value() == old(self).value() - other.value(),
    {
        let ghost before = self.limbs@;
        let len: usize = self.limbs.len();
        let mut borrow: u64 = 0;
        let mut i: usize = 0;
        while i < len
            invariant
                i <= len,
                len == self.limbs@.len(),
                len == before.len(),
                borrow <= 1,
                forall|j: int| i <= j < len ==> self.limbs@[j] == before[j],
                low_value(self.limbs@, i as nat) + low_value(other.limbs@, i as nat) == low_value(
                    before,
                    i as nat,
                ) + borrow * pow2(32 * i as nat),
            decreases len - i,
        {
            let x: u64 = self.limbs[i] as u64;
            let y: u64 = other.limb(i) as u64 + borrow;
            let (d, b): (u64, u64) = if x >= y { (x - y, 0) } else { (x + 0x1_0000_0000 - y, 1) };
            let ghost mid = self.limbs@;
            self.limbs.set(i, d as u32);
            proof {
                let p = pow2(32 * i as nat);
                lemma_low_prefix(mid, self.limbs@, i as nat);
                lemma_pow2_adds(32 * i as nat, 32);
                lemma2_to64();
                assert(pow2(32 * (i + 1) as nat) == p * 0x1_0000_0000);
                let o = digit(other.limbs@, i as int) as int;
                assert(d * p + o * p + borrow * p == x * p + b * (p * 0x1_0000_0000))
                    by (nonlinear_arith)
                    requires
                        d + o + borrow == x + b * 0x1_0000_0000,
                ;
            }
            borrow = b;
            i = i + 1;
        }
        proof {
            lemma_low_whole(before);
            lemma_low_whole(self.limbs@);
            let whole: nat = if len < other.limbs@.len() { other.limbs@.len() } else { len as nat };
            lemma_low_past(other.limbs@, whole);
            lemma_low_monotone(other.limbs@, len as nat, whole);
            lemma_low_bound(self.limbs@, len as nat);
            let p = pow2(32 * len as nat);
            // No borrow is left, and nothing of `other` lies past the digits.
            if borrow == 1 {
                assert(1 * p == p);
            } else {
                assert(0 * p == 0);
            }
            if low_value(other.limbs@, len as nat) < other.value() {
                lemma_low_jump(other.limbs@, len as nat, whole);
                lemma_low_bound(before, len as nat);
            }
        }
    }
}

/// More digits make no smaller number.
proof fn lemma_low_monotone(s: Seq<u32>, j: nat, k: nat)
    requires
        j <= k,
    ensures
        low_value(s, j) <= low_value(s, k),
    decreases k,
{
    if j < k {
        lemma_low_monotone(s, j, (k - 1) as nat);
    }
}

/// A digit past place `j` makes the number at least as large as its weight.
proof fn lemma_low_jump(s: Seq<u32>, j: nat, k: nat)
    requires
        j <= k,
        low_value(s, j) < low_value(s, k),
    ensures
        low_value(s, k) >= pow2(32 * j),
    decreases k,
{
    if j < k {
        let i = (k - 1) as nat;
        if low_value(s, j) < low_value(s, i) {
            lemma_low_jump(s, j, i);
        } else {
            lemma_low_monotone(s, j, i);
            let d = digit(s, i as int);
            let p = pow2(32 * i);
            assert(d >= 1) by {
                if d == 0 {
                    assert(0 * p == 0);
                }
            }
            if j < i {
                lemma_pow2_strictly_increases(32 * j, 32 * i);
            }
            assert(d * p >= p) by (nonlinear_arith)
                requires
                    d >= 1,
                    p >= 0,
            ;
        }
    }
}

} // verus!
