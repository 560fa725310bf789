//! Work on pieces of a slice, done in parallel.

use vstd::prelude::*;
use rayon::iter::{IndexedParallelIterator, ParallelIterator};
use rayon::slice::ParallelSlice;

verus! {

/// How many pieces of the length `size` it takes to cover a length; the last may
/// be shorter.
pub open spec fn piece_count(length: int, size: int) -> int {
    (length + size - 1) / size
}

/// Piece `i` of `s`.
pub open spec fn piece<A>(s: Seq<A>, size: int, i: int) -> Seq<A> {
    let end = (i + 1) * size;
    s.subrange(i * size, if end < s.len() { end } else { s.len() as int })
}

/// Cuts bytes into pieces and calls `f` on each of them and its number, in
/// parallel, with rayon's `par_chunks`, `enumerate`, `map` and `collect`. What `f`
/// returns comes back in the order of the pieces.
#[verifier::external_body]
pub(crate) fn map_pieces<R: Send, F: Fn(usize, &[u8]) -> R + Send + Sync>(
    bytes: &[u8],
    size: usize,
    f: F,
) -> (r: Vec<R>)
    requires
        size > 0,
        forall|i: usize, p: &[u8]|
            i < piece_count(bytes@.len() as int, size as int) && p@ == piece(
                bytes@,
                size as int,
                i as int,
            ) ==> #[trigger] call_requires(f, (i, p)),
    ensures
        r@.len() == piece_count(bytes@.len() as int, size as int),
        forall|i: int|
            0 <= i < r@.len() ==> exists|p: &[u8]|
                p@ == piece(bytes@, size as int, i) && #[trigger] call_ensures(
                    f,
                    (i as usize, p),
                    #[trigger] r@[i],
                ),
{
    bytes.par_chunks(size).enumerate().map(|(i, p)| f(i, p)).collect()
}

} // verus!
