//! Numbers as bytes, the lowest byte first.

use vstd::prelude::*;
use vstd::arithmetic::power::*;

verus! {

/// The number that bytes write.
pub open spec fn value(b: Seq<u8>) -> nat
    decreases b.len(),
{
    if b.len() == 0 { 0 } else { b[0] as nat + 256 * value(b.drop_first()) }
}

/// The `n` lowest bytes of `v`.
pub open spec fn low_bytes(v: nat, n: nat) -> Seq<u8>
    decreases n,
{
    if n == 0 {
        Seq::empty()
    } else {
        seq![(v % 256) as u8] + low_bytes(v / 256, (n - 1) as nat)
    }
}

/// How many numbers `n` bytes can write.
pub open spec fn range(n: nat) -> nat {
    pow(256, n) as nat
}

pub proof fn lemma_range(n: nat)
    ensures
        range(n + 1) == 256 * range(n),
        range(n) > 0,
        range(0) == 1,
        range(4) == 0x1_0000_0000,
        range(8) == 0x1_0000_0000_0000_0000,
{
    lemma_pow_positive(256, n);
    lemma_pow_positive(256, n + 1);
    reveal(pow);
    assert(pow(256, n + 1) == 256 * pow(256, n));
    assert(pow(256, 0) == 1);
    assert(pow(256, 1) == 256 * pow(256, 0));
    assert(pow(256, 2) == 256 * pow(256, 1));
    assert(pow(256, 3) == 256 * pow(256, 2));
    assert(pow(256, 4) == 256 * pow(256, 3));
    assert(pow(256, 5) == 256 * pow(256, 4));
    assert(pow(256, 6) == 256 * pow(256, 5));
    assert(pow(256, 7) == 256 * pow(256, 6));
    assert(pow(256, 8) == 256 * pow(256, 7));
}

/// Bytes write a number in their range.
pub proof fn lemma_value_bound(b: Seq<u8>)
    ensures
        value(b) < range(b.len()),
    decreases b.len(),
{
    lemma_range(0);
    if b.len() > 0 {
        lemma_value_bound(b.drop_first());
        lemma_range((b.len() - 1) as nat);
    }
}

/// A number in range reads back from its bytes.
pub proof fn lemma_reads_back(v: nat, n: nat)
    requires
        v < range(n),
    ensures
        low_bytes(v, n).len() == n,
        value(low_bytes(v, n)) == v,
    decreases n,
{
    lemma_range(0);
    if n > 0 {
        lemma_range((n - 1) as nat);
        lemma_reads_back(v / 256, (n - 1) as nat);
        assert(low_bytes(v, n).drop_first() =~= low_bytes(v / 256, (n - 1) as nat));
    }
}

/// Zeros write zero.
pub proof fn lemma_zeros(b: Seq<u8>)
    requires
        forall|i: int| 0 <= i < b.len() ==> #[trigger] b[i] == 0,
    ensures
        value(b) == 0,
    decreases b.len(),
{
    if b.len() > 0 {
        let t = b.drop_first();
        assert forall|i: int| 0 <= i < t.len() implies #[trigger] t[i] == 0 by {
            assert(t[i] == b[i + 1]);
        }
        lemma_zeros(t);
    }
}

/// Reads a number.
pub fn decode(b: &[u8]) -> (r: u64)
    requires
        b@.len() <= 8,
    ensures
        r == value(b@),
{
    let mut r: u64 = 0;
    let mut i: usize = b.len();
    assert(b@.skip(i as int) =~= Seq::empty());
    while i > 0
        invariant
            i <= b@.len() <= 8,
            r == value(b@.skip(i as int)),
        decreases i,
    {
        i = i - 1;
        let ghost t = b@.skip(i as int);
        proof {
            assert(t.drop_first() =~= b@.skip(i + 1));
            lemma_value_bound(t);
            lemma_range(t.len());
            lemma_range_rises(t.len(), 8);
            lemma_range(8);
        }
        r = b[i] as u64 + 256 * r;
    }
    assert(b@.skip(0) =~= b@);
    r
}

proof fn lemma_range_rises(m: nat, n: nat)
    requires
        m <= n,
    ensures
        range(m) <= range(n),
    decreases n - m,
{
    if m < n {
        lemma_range(m);
        lemma_range_rises(m + 1, n);
    }
}

/// Writes a number in `n` bytes.
pub fn encode(v: u64, n: usize) -> (r: Vec<u8>)
    ensures
        r@ == low_bytes(v as nat, n as nat),
{
    let mut r: Vec<u8> = Vec::new();
    let mut w: u64 = v;
    let mut i: usize = 0;
    assert(r@ + low_bytes(v as nat, n as nat) =~= low_bytes(v as nat, n as nat));
    while i < n
        invariant
            i <= n,
            r@ + low_bytes(w as nat, (n - i) as nat) == low_bytes(v as nat, n as nat),
        decreases n - i,
    {
        let ghost before = r@;
        let low: u8 = (w % 256) as u8;
        r.push(low);
        assert(r@ + low_bytes((w / 256) as nat, (n - i - 1) as nat) =~= before + (seq![low]
            + low_bytes((w / 256) as nat, (n - i - 1) as nat)));
        w = w / 256;
        i = i + 1;
    }
    assert(r@ + Seq::<u8>::empty() =~= r@);
    r
}

/// Bytes are read with the lowest first: each counts 256 times what the one before counts.
pub proof fn law_lowest_byte_first(b: &[u8], r: u64)
    requires
        call_ensures(decode, (b,), r),
    ensures
        b@.len() == 4 ==> r == b@[0] + 0x100 * b@[1] + 0x1_0000 * b@[2] + 0x100_0000 * b@[3],
        b@.len() == 8 ==> r == b@[0] + 0x100 * b@[1] + 0x1_0000 * b@[2] + 0x100_0000 * b@[3]
            + 0x1_0000_0000 * b@[4] + 0x100_0000_0000 * b@[5] + 0x1_0000_0000_0000 * b@[6]
            + 0x100_0000_0000_0000 * b@[7],
{
    if b@.len() == 4 {
        lemma_four_bytes(b@);
    }
    if b@.len() == 8 {
        lemma_eight_bytes(b@);
    }
}

pub proof fn lemma_four_bytes(s: Seq<u8>)
    requires
        s.len() == 4,
    ensures
        value(s) == s[0] + 0x100 * s[1] + 0x1_0000 * s[2] + 0x100_0000 * s[3],
{
    let t = s.drop_first();
    let u = t.drop_first();
    let v = u.drop_first();
    let w = v.drop_first();
    assert(value(w) == 0);
    assert(value(v) == s[3]);
    assert(value(u) == s[2] + 0x100 * s[3]);
    assert(value(t) == s[1] + 0x100 * s[2] + 0x1_0000 * s[3]);
}

pub proof fn lemma_eight_bytes(s: Seq<u8>)
    requires
        s.len() == 8,
    ensures
        value(s) == s[0] + 0x100 * s[1] + 0x1_0000 * s[2] + 0x100_0000 * s[3] + 0x1_0000_0000 * s[4]
            + 0x100_0000_0000 * s[5] + 0x1_0000_0000_0000 * s[6] + 0x100_0000_0000_0000 * s[7],
{
    let t = s.drop_first();
    let u = t.drop_first();
    let v = u.drop_first();
    let w = v.drop_first();
    lemma_four_bytes(w);
    assert(value(v) == s[3] + 0x100 * value(w));
    assert(value(u) == s[2] + 0x100 * value(v));
    assert(value(t) == s[1] + 0x100 * value(u));
    assert(value(s) == s[0] + 0x100 * value(t));
}

/// A number is written in as many bytes as are asked for, and reads back from them where it
/// fits in them.
pub proof fn law_numbers_read_back(v: u64, n: usize, b: Vec<u8>, s: &[u8], r: u64)
    requires
        call_ensures(encode, (v, n), b),
        n == 8 || (n == 4 && v < 0x1_0000_0000),
        s@ == b@,
        call_ensures(decode, (s,), r),
    ensures
        b@.len() == n,
        r == v,
{
    lemma_range(0);
    lemma_reads_back(v as nat, n as nat);
}

} // verus!
