//! Memory-mapped bytes.

use vstd::prelude::*;
use memmap2::MmapMut;

verus! {

/// A writable mapping of bytes.
#[verifier::external_type_specification]
#[verifier::external_body]
pub struct ExMmapMut(MmapMut);

/// The bytes that a mapping holds. They change only where they are written
/// through it: the file behind it is nobody else's.
pub uninterp spec fn mapped(m: MmapMut) -> Seq<u8>;

/// `s` with `bytes` in place of what stood from `at` on.
pub open spec fn overwritten(s: Seq<u8>, at: int, bytes: Seq<u8>) -> Seq<u8> {
    Seq::new(
        s.len(),
        |i: int| if at <= i < at + bytes.len() { bytes[i - at] } else { s[i] },
    )
}

/// Reads a mapping, with `MmapMut`'s `AsRef::as_ref`: all its bytes, as they are.
#[verifier::external_body]
pub(crate) fn bytes_of(m: &MmapMut) -> (r: &[u8])
    ensures
        r@ == mapped(*m),
{
    m.as_ref()
}

/// Writes to a mapping, through the slice of `MmapMut`'s `AsMut::as_mut`: the
/// bytes from `from` to `to` become those that are given, and the others stay.
/// With a range that fits this does not panic.
#[verifier::external_body]
pub(crate) fn copy_into(m: &mut MmapMut, from: usize, to: usize, bytes: &[u8])
    requires
        from <= to <= mapped(*old(m)).len(),
        to - from == bytes@.len(),
    ensures
        mapped(*final(m)) == overwritten(mapped(*old(m)), from as int, bytes@),
    no_unwind
{
    m.as_mut()[from..to].copy_from_slice(bytes)
}

} // verus!
