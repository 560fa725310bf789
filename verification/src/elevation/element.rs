//! What a grid can hold.

use vstd::prelude::*;
use crate::binary32::F32;
use crate::binary64::F64;
use crate::elevation::bytes;

verus! {

/// A number that a grid can hold: it is its bits, which take a fixed count of
/// bytes, and the bits of its zero are zero.
pub trait GridElement: Copy + Send + Sync + 'static {
    /// How many bytes an element takes.
    spec fn width() -> nat;

    /// The bits of an element.
    spec fn bits(self) -> nat;

    /// The element with the given bits.
    spec fn of_bits(bits: nat) -> Self;

    /// Whether two elements are the same number.
    spec fn alike(self, other: Self) -> bool;

    /// Elements and their bits are the same thing.
    proof fn lemma_bits(self)
        ensures
            self.bits() < bytes::range(Self::width()),
            Self::of_bits(self.bits()) == self,
    ;

    /// How many bytes an element takes.
    fn byte_width() -> (r: usize)
        ensures
            r == Self::width(),
            1 <= r <= 8,
    ;

    /// The bits of an element.
    fn to_raw(self) -> (r: u64)
        ensures
            r == self.bits(),
    ;

    /// The element with the given bits.
    fn from_raw(bits: u64) -> (r: Self)
        requires
            bits < bytes::range(Self::width()),
        ensures
            r == Self::of_bits(bits as nat),
    ;

    /// Whether two elements are the same number.
    fn same(self, other: Self) -> (r: bool)
        ensures
            r == self.alike(other),
    ;
}

impl GridElement for F32 {
    open spec fn width() -> nat {
        4
    }

    open spec fn bits(self) -> nat {
        self.bits as nat
    }

    open spec fn of_bits(bits: nat) -> F32 {
        F32 { bits: bits as u32 }
    }

    open spec fn alike(self, other: F32) -> bool {
        self.same_number(other)
    }

    proof fn lemma_bits(self) {
        bytes::lemma_range(0);
    }

    fn byte_width() -> (r: usize) {
        4
    }

    fn to_raw(self) -> (r: u64) {
        self.bits as u64
    }

    fn from_raw(bits: u64) -> (r: F32) {
        proof {
            bytes::lemma_range(0);
        }
        F32 { bits: bits as u32 }
    }

    fn same(self, other: F32) -> (r: bool) {
        self == other
    }
}

impl GridElement for F64 {
    open spec fn width() -> nat {
        8
    }

    open spec fn bits(self) -> nat {
        self.bits as nat
    }

    open spec fn of_bits(bits: nat) -> F64 {
        F64 { bits: bits as u64 }
    }

    open spec fn alike(self, other: F64) -> bool {
        self.same_number(other)
    }

    proof fn lemma_bits(self) {
        bytes::lemma_range(0);
    }

    fn byte_width() -> (r: usize) {
        8
    }

    fn to_raw(self) -> (r: u64) {
        self.bits
    }

    fn from_raw(bits: u64) -> (r: F64) {
        F64 { bits }
    }

    fn same(self, other: F64) -> (r: bool) {
        self == other
    }
}

} // verus!
