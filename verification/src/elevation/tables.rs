//! What a grid holds, seen through what its functions return.

use vstd::prelude::*;
use memmap2::MmapMut;
use crate::binary32::F32;
use crate::binary64::F64;
use crate::elevation::bytes;
use crate::elevation::element::GridElement;
use crate::elevation::mapping;
use crate::elevation::mmap_grid;
use crate::elevation::mmap_grid::{MmapGrid, MmapGridRows, WrongLength};

verus! {

/// A grid takes as many bytes as its elements do, and one if it has none. What a machine
/// cannot count it does not take.
pub proof fn law_bytes_of_a_grid<T: GridElement>(rows: usize, cols: usize, r: Option<usize>)
    requires
        call_ensures(MmapGrid::<T>::byte_len, (rows, cols), r),
        1 <= T::width() <= 8,
    ensures
        r is Some <==> rows * cols * T::width() <= usize::MAX,
        r matches Some(n) ==> if rows == 0 || cols == 0 {
            n == 1
        } else {
            n == rows * cols * T::width()
        },
{
    let (a, w) = (rows * cols, T::width() as int);
    if rows == 0 || cols == 0 {
        assert(a == 0) by (nonlinear_arith)
            requires
                a == rows * cols,
                rows == 0 || cols == 0,
        ;
        assert(0 * w == 0);
    } else {
        assert(a >= 1) by (nonlinear_arith)
            requires
                a == rows * cols,
                rows >= 1,
                cols >= 1,
        ;
        assert(a * w >= 1) by (nonlinear_arith)
            requires
                a >= 1,
                w >= 1,
        ;
    }
}

/// A mapping is taken for a grid if and only if it is as long as the grid's elements, or of
/// one byte if there are none.
pub proof fn law_grids_take_their_bytes<T: GridElement>(
    mmap: MmapMut,
    rows: usize,
    cols: usize,
    r: Result<MmapGrid<T>, WrongLength>,
)
    requires
        call_ensures(MmapGrid::<T>::new, (mmap, rows, cols), r),
        1 <= T::width() <= 8,
    ensures
        r is Ok <==> mapping::mapped(mmap).len() == (if rows == 0 || cols == 0 {
            1
        } else {
            rows * cols * T::width()
        }),
        r matches Ok(g) ==> g@.rows == rows && g@.cols == cols,
{
    let (a, w) = (rows * cols, T::width() as int);
    if rows == 0 || cols == 0 {
        assert(a == 0) by (nonlinear_arith)
            requires
                a == rows * cols,
                rows == 0 || cols == 0,
        ;
        assert(0 * w == 0);
    } else {
        assert(a >= 1) by (nonlinear_arith)
            requires
                a == rows * cols,
                rows >= 1,
                cols >= 1,
        ;
        assert(a * w >= 1) by (nonlinear_arith)
            requires
                a >= 1,
                w >= 1,
        ;
    }
}

/// An element of double precision in row `y` and column `x` has the bits that the eight
/// bytes from its place on write, the lowest first; the elements stand row by row.
pub proof fn law_doubles_are_eight_bytes(
    mmap: MmapMut,
    rows: usize,
    cols: usize,
    grid: MmapGrid<F64>,
    y: usize,
    x: usize,
    v: F64,
)
    requires
        call_ensures(MmapGrid::<F64>::new, (mmap, rows, cols), Ok(grid)),
        call_ensures(MmapGrid::<F64>::get, (&grid, y, x), v),
        y < rows && x < cols,
    ensures
        ({
            let (b, i) = (mapping::mapped(mmap), (y * cols + x) * 8);
            &&& 0 <= i && i + 8 <= b.len()
            &&& v.bits == b[i] + 0x100 * b[i + 1] + 0x1_0000 * b[i + 2] + 0x100_0000 * b[i + 3]
                + 0x1_0000_0000 * b[i + 4] + 0x100_0000_0000 * b[i + 5] + 0x1_0000_0000_0000 * b[i
                + 6] + 0x100_0000_0000_0000 * b[i + 7]
        }),
{
    let (b, k) = (mapping::mapped(mmap), y * cols + x);
    mmap_grid::lemma_place(rows as int, cols as int, y as int, x as int);
    let n = rows * cols;
    assert(0 <= k * 8 && k * 8 + 8 <= n * 8);
    let e = b.subrange(k * 8, k * 8 + 8);
    bytes::lemma_eight_bytes(e);
    bytes::lemma_value_bound(e);
    bytes::lemma_range(8);
    assert(grid@.cells[k] == mmap_grid::element::<F64>(b, k));
}

/// An element of single precision in row `y` and column `x` has the bits that the four
/// bytes from its place on write, the lowest first; the elements stand row by row.
pub proof fn law_singles_are_four_bytes(
    mmap: MmapMut,
    rows: usize,
    cols: usize,
    grid: MmapGrid<F32>,
    y: usize,
    x: usize,
    v: F32,
)
    requires
        call_ensures(MmapGrid::<F32>::new, (mmap, rows, cols), Ok(grid)),
        call_ensures(MmapGrid::<F32>::get, (&grid, y, x), v),
        y < rows && x < cols,
    ensures
        ({
            let (b, i) = (mapping::mapped(mmap), (y * cols + x) * 4);
            &&& 0 <= i && i + 4 <= b.len()
            &&& v.bits == b[i] + 0x100 * b[i + 1] + 0x1_0000 * b[i + 2] + 0x100_0000 * b[i + 3]
        }),
{
    let (b, k) = (mapping::mapped(mmap), y * cols + x);
    mmap_grid::lemma_place(rows as int, cols as int, y as int, x as int);
    let n = rows * cols;
    assert(0 <= k * 4 && k * 4 + 4 <= n * 4);
    let e = b.subrange(k * 4, k * 4 + 4);
    bytes::lemma_four_bytes(e);
    bytes::lemma_value_bound(e);
    bytes::lemma_range(4);
    assert(grid@.cells[k] == mmap_grid::element::<F32>(b, k));
}

/// A grid read at a place, by the row, all at once and row after row gives the same
/// elements: they stand row by row, from the first column on.
pub proof fn law_elements_stand_row_by_row<T: GridElement>(
    grid: MmapGrid<T>,
    rows: usize,
    cols: usize,
    empty: bool,
    y: usize,
    x: usize,
    v: T,
    row: Vec<T>,
    first: Option<Vec<T>>,
    flat: Vec<T>,
    list: Vec<Vec<T>>,
)
    requires
        call_ensures(MmapGrid::<T>::len, (&grid,), rows),
        call_ensures(MmapGrid::<T>::cols, (&grid,), cols),
        call_ensures(MmapGrid::<T>::is_empty, (&grid,), empty),
        call_ensures(MmapGrid::<T>::get, (&grid, y, x), v),
        call_ensures(MmapGrid::<T>::row, (&grid, y), row),
        call_ensures(MmapGrid::<T>::first, (&grid,), first),
        call_ensures(MmapGrid::<T>::as_flat_slice, (&grid,), flat),
        call_ensures(MmapGrid::<T>::par_iter, (&grid,), list),
        y < rows && x < cols,
    ensures
        !empty,
        flat@.len() == rows * cols,
        0 <= y * cols + x < flat@.len(),
        v == flat@[y * cols + x],
        row@.len() == cols,
        row@[x as int] == v,
        first is Some,
        y == 0 ==> first->0@ == row@,
        list@.len() == rows,
        list@[y as int]@ == row@,
{
    mmap_grid::lemma_place(rows as int, cols as int, y as int, x as int);
    let lists = mmap_grid::lists(list@);
    assert(lists.len() == list@.len());
    assert(lists[y as int] == list@[y as int]@);
}

/// The rows that are still to come are at first all rows, in order.
pub proof fn law_rows_come_in_order<T: GridElement>(
    grid: MmapGrid<T>,
    rows: usize,
    list: MmapGridRows<T>,
    y: usize,
    row: Vec<T>,
)
    requires
        call_ensures(MmapGrid::<T>::len, (&grid,), rows),
        call_ensures(MmapGrid::<T>::iter, (&grid,), list),
        call_ensures(MmapGrid::<T>::row, (&grid, y), row),
        y < rows,
    ensures
        list@.len() == rows,
        list@[y as int] == row@,
{
}

/// A grid without rows is empty, and has no first row.
pub proof fn law_empty_grids<T: GridElement>(
    grid: MmapGrid<T>,
    rows: usize,
    empty: bool,
    first: Option<Vec<T>>,
)
    requires
        call_ensures(MmapGrid::<T>::len, (&grid,), rows),
        call_ensures(MmapGrid::<T>::is_empty, (&grid,), empty),
        call_ensures(MmapGrid::<T>::first, (&grid,), first),
    ensures
        empty <==> rows == 0,
        first is None <==> rows == 0,
{
}

/// A grid that is made of rows has as many rows, and as many columns as the longest has
/// elements. A row's elements stand in its places, and zeros behind them.
pub proof fn law_grids_of_rows<T: GridElement>(
    mmap: MmapMut,
    rows: Vec<Vec<T>>,
    grid: MmapGrid<T>,
    y: usize,
    x: usize,
    v: T,
)
    requires
        call_ensures(MmapGrid::<T>::from_rows, (mmap, &rows), Ok(grid)),
    ensures
        grid@.rows == rows@.len(),
        forall|i: int| 0 <= i < rows@.len() ==> (#[trigger] rows@[i])@.len() <= grid@.cols,
        grid@.cols == 0 || exists|i: int|
            0 <= i < rows@.len() && (#[trigger] rows@[i])@.len() == grid@.cols,
        call_ensures(MmapGrid::<T>::get, (&grid, y, x), v) && y < rows@.len() && x < grid@.cols
            ==> v == (if x < rows@[y as int]@.len() {
            rows@[y as int]@[x as int]
        } else {
            T::of_bits(0)
        }),
{
    assert forall|i: int| 0 <= i < rows@.len() implies (#[trigger] rows@[i])@.len()
        <= grid@.cols by {
        mmap_grid::lemma_longest(rows@, i);
    }
    lemma_longest_is_one(rows@);
    if y < rows@.len() && x < grid@.cols {
        mmap_grid::law_tables_hold_their_rows(rows@, y as int, x as int);
    }
}

proof fn lemma_longest_is_one<T>(rows: Seq<Vec<T>>)
    ensures
        mmap_grid::longest(rows) == 0 || exists|i: int|
            0 <= i < rows.len() && (#[trigger] rows[i])@.len() == mmap_grid::longest(rows),
    decreases rows.len(),
{
    if rows.len() > 0 {
        let rest = rows.drop_last();
        let n = mmap_grid::longest(rows);
        lemma_longest_is_one(rest);
        if n == rows.last()@.len() {
            assert(rows[rows.len() - 1]@.len() == n);
        } else if n != 0 {
            let i = choose|i: int| 0 <= i < rest.len() && (#[trigger] rest[i])@.len() == n;
            assert(rows[i]@.len() == n);
        }
    }
}

/// A transposed copy has the columns of a grid as its rows, and holds in row `x` and column
/// `y` what the grid holds in row `y` and column `x`.
pub proof fn law_copies_are_transposed<T: GridElement>(
    grid: MmapGrid<T>,
    rows: usize,
    cols: usize,
    mmap: MmapMut,
    copy: MmapGrid<T>,
    y: usize,
    x: usize,
    v: T,
    w: T,
)
    requires
        call_ensures(MmapGrid::<T>::len, (&grid,), rows),
        call_ensures(MmapGrid::<T>::cols, (&grid,), cols),
        call_ensures(MmapGrid::<T>::transpose, (&grid, mmap), Ok(copy)),
        y < rows && x < cols,
        call_ensures(MmapGrid::<T>::get, (&grid, y, x), v),
        call_ensures(MmapGrid::<T>::get, (&copy, x, y), w),
    ensures
        copy@.rows == cols && copy@.cols == rows,
        w == v,
{
    grid@.law_transposed_cells(y as int, x as int);
}

/// A copy has the shape of the grid, and the same elements.
pub proof fn law_copies_are_the_same<T: GridElement>(
    grid: MmapGrid<T>,
    mmap: MmapMut,
    copy: MmapGrid<T>,
    flat: Vec<T>,
    copy_flat: Vec<T>,
)
    requires
        call_ensures(MmapGrid::<T>::clone_into, (&grid, mmap), Ok(copy)),
        call_ensures(MmapGrid::<T>::as_flat_slice, (&grid,), flat),
        call_ensures(MmapGrid::<T>::as_flat_slice, (&copy,), copy_flat),
    ensures
        copy@.rows == grid@.rows && copy@.cols == grid@.cols,
        copy_flat@ == flat@,
{
}

/// Grids are equal if and only if they have the same shape and equal numbers in each place.
pub proof fn law_equal_grids<T: GridElement>(
    a: MmapGrid<T>,
    b: MmapGrid<T>,
    equal: bool,
    a_flat: Vec<T>,
    b_flat: Vec<T>,
)
    requires
        a@.valid() && b@.valid(),
        call_ensures(MmapGrid::<T>::eq, (&a, &b), equal),
        call_ensures(MmapGrid::<T>::as_flat_slice, (&a,), a_flat),
        call_ensures(MmapGrid::<T>::as_flat_slice, (&b,), b_flat),
    ensures
        equal <==> a@.rows == b@.rows && a@.cols == b@.cols && forall|i: int|
            0 <= i < a_flat@.len() ==> (#[trigger] a_flat@[i]).alike(b_flat@[i]),
{
}

/// Numbers of single precision are equal if their bits are, or if both are zeros; what is no
/// number equals nothing.
pub proof fn law_equal_singles(a: F32, b: F32)
    ensures
        ({
            let (x, y) = (a.bits % 0x8000_0000, b.bits % 0x8000_0000);
            a.alike(b) <==> x <= 0x7f80_0000 && y <= 0x7f80_0000 && (a.bits == b.bits || (x == 0 && y
                == 0))
        }),
{
}

/// Numbers of double precision are equal if their bits are, or if both are zeros; what is no
/// number equals nothing.
pub proof fn law_equal_doubles(a: F64, b: F64)
    ensures
        ({
            let (x, y) = (a.bits % 0x8000_0000_0000_0000, b.bits % 0x8000_0000_0000_0000);
            a.alike(b) <==> x <= 0x7ff0_0000_0000_0000 && y <= 0x7ff0_0000_0000_0000 && (a.bits
                == b.bits || (x == 0 && y == 0))
        }),
{
    let (x, y) = (a.magnitude(), b.magnitude());
    crate::binary64::lemma_scale_order(x, y);
    crate::binary64::lemma_scale_order(x, 0);
    crate::binary64::lemma_scale_order(y, 0);
}

} // verus!
