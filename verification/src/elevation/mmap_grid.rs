//! A grid of numbers in a memory-mapped file.
//!
//! The elements stand in the mapping row by row. What a mapping holds need not
//! stay in memory: the system can write pages that are not in use back to the
//! file, and read them again.

use std::marker::PhantomData;
use vstd::prelude::*;
use vstd::arithmetic::div_mod::*;
use memmap2::MmapMut;
use crate::elevation::bytes;
use crate::elevation::element::GridElement;
use crate::elevation::mapping;
use crate::elevation::parallel;

verus! {

/// A grid of elements, held in a mapping.
pub struct MmapGrid<T: GridElement> {
    mmap: MmapMut,
    rows: usize,
    cols: usize,
    marker: PhantomData<T>,
}

/// A mapping is not of the length that a grid takes.
#[derive(Clone, Copy, Debug)]
pub struct WrongLength;

/// A table of elements: the cells, row by row.
#[verifier::ext_equal]
pub struct Table<T> {
    pub rows: int,
    pub cols: int,
    pub cells: Seq<T>,
}

impl<T> Table<T> {
    pub open spec fn valid(self) -> bool {
        0 <= self.rows && 0 <= self.cols && self.cells.len() == self.rows * self.cols
    }

    /// The cell in row `y` and column `x`.
    pub open spec fn at(self, y: int, x: int) -> T {
        self.cells[y * self.cols + x]
    }

    /// Row `y`.
    pub open spec fn row(self, y: int) -> Seq<T> {
        Seq::new(self.cols as nat, |x: int| self.at(y, x))
    }

    /// The rows, one by one.
    pub open spec fn row_list(self) -> Seq<Seq<T>> {
        Seq::new(self.rows as nat, |y: int| self.row(y))
    }

    /// The table with `v` in row `y` and column `x`.
    pub open spec fn with(self, y: int, x: int, v: T) -> Table<T> {
        Table { cells: self.cells.update(y * self.cols + x, v), ..self }
    }

    /// The table whose rows are the columns of this one.
    pub open spec fn transposed(self) -> Table<T> {
        Table {
            rows: self.cols,
            cols: self.rows,
            cells: Seq::new(
                self.cells.len(),
                |i: int| self.at(i % self.rows, i / self.rows),
            ),
        }
    }
}

/// Element `i` of what bytes hold.
pub open spec fn element<T: GridElement>(b: Seq<u8>, i: int) -> T {
    T::of_bits(bytes::value(b.subrange(i * T::width(), i * T::width() + T::width())))
}

/// The bytes that a grid takes: those of its cells, but at least one, since
/// nothing cannot be mapped.
pub open spec fn byte_count<T: GridElement>(rows: int, cols: int) -> int {
    let n = rows * cols * T::width();
    if n < 1 { 1 } else { n }
}

/// The table that bytes hold.
pub open spec fn table<T: GridElement>(b: Seq<u8>, rows: int, cols: int) -> Table<T> {
    Table {
        rows,
        cols,
        cells: Seq::new((rows * cols) as nat, |i: int| element::<T>(b, i)),
    }
}

/// A cell's place is within the table, and no other cell is there.
pub proof fn lemma_place(rows: int, cols: int, y: int, x: int)
    requires
        0 <= y < rows,
        0 <= x < cols,
    ensures
        0 <= y * cols + x < rows * cols,
        (y * cols + x) / cols == y,
        (y * cols + x) % cols == x,
        0 <= y * cols <= y * cols + cols <= rows * cols,
{
    assert(y * cols + cols <= rows * cols) by (nonlinear_arith)
        requires
            y + 1 <= rows,
            0 <= cols,
    ;
    assert(0 <= y * cols) by (nonlinear_arith)
        requires
            0 <= y,
            0 <= cols,
    ;
    lemma_fundamental_div_mod_converse(y * cols + x, cols, y, x);
}

/// Elements that are not the same do not overlap.
proof fn lemma_element_place(n: int, w: int, i: int)
    requires
        0 <= i < n,
        1 <= w,
    ensures
        0 <= i * w,
        i * w + w <= n * w,
        forall|j: int| 0 <= j < i ==> #[trigger] (j * w) + w <= i * w,
        forall|j: int| i < j ==> i * w + w <= #[trigger] (j * w),
{
    assert(0 <= i * w) by (nonlinear_arith)
        requires
            0 <= i,
            1 <= w,
    ;
    assert(i * w + w <= n * w) by (nonlinear_arith)
        requires
            i + 1 <= n,
            1 <= w,
    ;
    assert forall|j: int| 0 <= j < i implies #[trigger] (j * w) + w <= i * w by {
        assert(j * w + w <= i * w) by (nonlinear_arith)
            requires
                j + 1 <= i,
                1 <= w,
        ;
    }
    assert forall|j: int| i < j implies i * w + w <= #[trigger] (j * w) by {
        assert(i * w + w <= j * w) by (nonlinear_arith)
            requires
                i + 1 <= j,
                1 <= w,
        ;
    }
}

/// Writing an element's bytes in its place changes that element only.
proof fn lemma_write<T: GridElement>(b: Seq<u8>, n: int, i: int, v: T)
    requires
        0 <= i < n,
        1 <= T::width() <= 8,
        n * T::width() <= b.len(),
    ensures
        ({
            let w = T::width();
            let c = mapping::overwritten(b, i * w, bytes::low_bytes(v.bits(), w));
            &&& bytes::low_bytes(v.bits(), w).len() == w
            &&& element::<T>(c, i) == v
            &&& forall|j: int|
                0 <= j < n && j != i ==> #[trigger] element::<T>(c, j) == element::<T>(b, j)
        }),
{
    let w = T::width() as int;
    v.lemma_bits();
    bytes::lemma_reads_back(v.bits(), T::width());
    let e = bytes::low_bytes(v.bits(), T::width());
    let c = mapping::overwritten(b, i * w, e);
    lemma_element_place(n, w, i);
    assert(c.subrange(i * w, i * w + w) =~= e);
    assert forall|j: int| 0 <= j < n && j != i implies #[trigger] element::<T>(c, j) == element::<
        T,
    >(b, j) by {
        lemma_element_place(n, w, j);
        assert(j * w + w <= i * w || i * w + w <= j * w);
        assert(c.subrange(j * w, j * w + w) =~= b.subrange(j * w, j * w + w));
    }
}

impl<T: GridElement> View for MmapGrid<T> {
    type V = Table<T>;

    closed spec fn view(&self) -> Table<T> {
        table(mapping::mapped(self.mmap), self.rows as int, self.cols as int)
    }
}

impl<T: GridElement> MmapGrid<T> {
    /// The mapping is of the length that the grid takes.
    #[verifier::type_invariant]
    closed spec fn valid(self) -> bool {
        &&& mapping::mapped(self.mmap).len() == byte_count::<T>(self.rows as int, self.cols as int)
        &&& byte_count::<T>(self.rows as int, self.cols as int) <= usize::MAX
        &&& 1 <= T::width() <= 8
    }

    /// The length of the mapping that a grid takes, if a machine can count it.
    pub fn byte_len(rows: usize, cols: usize) -> (r: Option<usize>)
        ensures
            match r {
                Some(n) => n == byte_count::<T>(rows as int, cols as int),
                None => byte_count::<T>(rows as int, cols as int) > usize::MAX,
            },
    {
        let w: usize = T::byte_width();
        let cells: usize = match rows.checked_mul(cols) {
            Some(n) => n,
            None => {
                assert(rows * cols * w >= rows * cols) by (nonlinear_arith)
                    requires
                        rows >= 0,
                        cols >= 0,
                        w >= 1,
                ;
                return None;
            },
        };
        match cells.checked_mul(w) {
            Some(n) => Some(if n < 1 { 1 } else { n }),
            None => None,
        }
    }

    /// The grid of `rows` by `cols` elements that a mapping holds, if it is of the
    /// length that the grid takes. In a mapping that is all zeros every element
    /// is zero.
    pub fn new(mmap: MmapMut, rows: usize, cols: usize) -> (r: Result<MmapGrid<T>, WrongLength>)
        ensures
            ({
                let b = mapping::mapped(mmap);
                match r {
                    Ok(g) => b.len() == byte_count::<T>(rows as int, cols as int) && g@ == table::<
                        T,
                    >(b, rows as int, cols as int) && g@.valid(),
                    Err(_) => b.len() != byte_count::<T>(rows as int, cols as int),
                }
            }),
    {
        let length: usize = mapping::bytes_of(&mmap).len();
        let w: usize = T::byte_width();
        match MmapGrid::<T>::byte_len(rows, cols) {
            Some(n) => {
                if n == length {
                    let grid: MmapGrid<T> = MmapGrid { mmap, rows, cols, marker: PhantomData };
                    proof {
                        grid.lemma_valid();
                    }
                    Ok(grid)
                } else {
                    Err(WrongLength)
                }
            },
            None => Err(WrongLength),
        }
    }

    /// How many rows there are.
    pub fn len(&self) -> (r: usize)
        ensures
            r == self@.rows,
            self@.valid(),
    {
        proof {
            self.lemma_valid();
        }
        self.rows
    }

    proof fn lemma_valid(&self)
        ensures
            self@.valid(),
    {
        assert(self.rows * self.cols >= 0) by (nonlinear_arith)
            requires
                self.rows >= 0,
                self.cols >= 0,
        ;
    }

    /// Whether there are no rows.
    pub fn is_empty(&self) -> (r: bool)
        ensures
            r == (self@.rows == 0),
    {
        self.rows == 0
    }

    /// How many columns there are.
    pub fn cols(&self) -> (r: usize)
        ensures
            r == self@.cols,
            self@.valid(),
    {
        proof {
            self.lemma_valid();
        }
        self.cols
    }

    /// Element `i`, counted row by row.
    fn read(&self, i: usize) -> (r: T)
        requires
            i < self@.cells.len(),
        ensures
            r == self@.cells[i as int],
    {
        proof {
            use_type_invariant(self);
            self.lemma_valid();
        }
        let w: usize = T::byte_width();
        let b: &[u8] = mapping::bytes_of(&self.mmap);
        proof {
            lemma_element_place(self.rows * self.cols, w as int, i as int);
        }
        let e: &[u8] = &b[i * w..i * w + w];
        proof {
            bytes::lemma_value_bound(e@);
        }
        T::from_raw(bytes::decode(e))
    }

    /// Puts `v` in place of element `i`, counted row by row.
    fn write(&mut self, i: usize, v: T)
        requires
            i < old(self)@.cells.len(),
        ensures
            final(self)@ == (Table { cells: old(self)@.cells.update(i as int, v), ..old(self)@ }),
    {
        proof {
            use_type_invariant(&*self);
            self.lemma_valid();
        }
        let ghost b = mapping::mapped(self.mmap);
        let w: usize = T::byte_width();
        let e: Vec<u8> = bytes::encode(v.to_raw(), w);
        let n: Ghost<int> = Ghost(self.rows * self.cols);
        proof {
            lemma_element_place(n@, w as int, i as int);
            lemma_write::<T>(b, n@, i as int, v);
        }
        let from: usize = i * w;
        let to: usize = from + w;
        mapping::copy_into(&mut self.mmap, from, to, e.as_slice());
        assert(self@.cells =~= old(self)@.cells.update(i as int, v));
    }

    /// The element in row `y` and column `x`.
    pub fn get(&self, y: usize, x: usize) -> (r: T)
        requires
            y < self@.rows,
            x < self@.cols,
        ensures
            r == self@.at(y as int, x as int),
            self@.valid(),
    {
        proof {
            use_type_invariant(self);
            self.lemma_valid();
            lemma_place(self.rows as int, self.cols as int, y as int, x as int);
            self.lemma_cells_fit();
        }
        self.read(y * self.cols + x)
    }

    /// Puts `v` in row `y` and column `x`.
    pub fn set(&mut self, y: usize, x: usize, v: T)
        requires
            y < old(self)@.rows,
            x < old(self)@.cols,
        ensures
            final(self)@ == old(self)@.with(y as int, x as int, v),
            old(self)@.valid(),
    {
        proof {
            use_type_invariant(&*self);
            self.lemma_valid();
            lemma_place(self.rows as int, self.cols as int, y as int, x as int);
            self.lemma_cells_fit();
        }
        let i: usize = y * self.cols + x;
        self.write(i, v);
    }

    /// The count of cells fits in the machine's integers.
    proof fn lemma_cells_fit(&self)
        requires
            self.valid(),
        ensures
            self.rows * self.cols <= usize::MAX,
    {
        let n = self.rows * self.cols;
        assert(n >= 0) by (nonlinear_arith)
            requires
                n == self.rows * self.cols,
        ;
        assert(n * T::width() >= n) by (nonlinear_arith)
            requires
                n >= 0,
                T::width() >= 1,
        ;
    }
}

/// The elements that bytes hold, as many as there are.
pub open spec fn elements<T: GridElement>(b: Seq<u8>) -> Seq<T> {
    Seq::new(b.len() / T::width(), |i: int| element::<T>(b, i))
}

/// Reads the elements that bytes hold.
fn decode_all<T: GridElement>(b: &[u8]) -> (r: Vec<T>)
    ensures
        r@ == elements::<T>(b@),
{
    let w: usize = T::byte_width();
    let length: usize = b.len();
    let n: usize = length / w;
    proof {
        lemma_fundamental_div_mod(b@.len() as int, w as int);
        vstd::arithmetic::mul::lemma_mul_is_commutative(w as int, n as int);
    }
    let mut r: Vec<T> = Vec::new();
    let mut i: usize = 0;
    while i < n
        invariant
            i <= n,
            n == b@.len() / T::width(),
            w == T::width(),
            1 <= w <= 8,
            n * w <= b@.len() == length,
            r@ == elements::<T>(b@).take(i as int),
        decreases n - i,
    {
        proof {
            lemma_element_place(n as int, w as int, i as int);
        }
        let e: &[u8] = &b[i * w..i * w + w];
        proof {
            bytes::lemma_value_bound(e@);
        }
        let v: T = T::from_raw(bytes::decode(e));
        r.push(v);
        assert(r@ =~= elements::<T>(b@).take(i + 1));
        i = i + 1;
    }
    assert(elements::<T>(b@).take(n as int) =~= elements::<T>(b@));
    r
}

/// Elements of a part of some bytes are elements of the whole.
proof fn lemma_part<T: GridElement>(b: Seq<u8>, first: int, count: int)
    requires
        0 <= first,
        0 <= count,
        1 <= T::width(),
        (first + count) * T::width() <= b.len(),
    ensures
        ({
            let w = T::width() as int;
            let part = b.subrange(first * w, first * w + count * w);
            &&& 0 <= first * w <= first * w + count * w <= b.len()
            &&& elements::<T>(part).len() == count
            &&& forall|i: int|
                0 <= i < count ==> #[trigger] elements::<T>(part)[i] == element::<T>(b, first + i)
        }),
{
    let w = T::width() as int;
    assert(first * w >= 0 && count * w >= 0) by (nonlinear_arith)
        requires
            first >= 0,
            count >= 0,
            w >= 1,
    ;
    assert((first + count) * w == first * w + count * w) by (nonlinear_arith);
    let part = b.subrange(first * w, first * w + count * w);
    lemma_fundamental_div_mod_converse(part.len() as int, w, count, 0);
    assert forall|i: int| 0 <= i < count implies #[trigger] elements::<T>(part)[i] == element::<T>(
        b,
        first + i,
    ) by {
        lemma_element_place(count, w, i);
        assert((first + i) * w == first * w + i * w) by (nonlinear_arith);
        assert(part.subrange(i * w, i * w + w) =~= b.subrange(
            (first + i) * w,
            (first + i) * w + w,
        ));
    }
}

impl<T: GridElement> MmapGrid<T> {
    /// Where the bytes of row `row` start and end.
    fn row_byte_range(&self, row: usize) -> (r: (usize, usize))
        requires
            row < self@.rows,
        ensures
            r.0 == row * self@.cols * T::width(),
            r.1 == r.0 + self@.cols * T::width(),
            r.1 <= mapping::mapped(self.mmap).len(),
    {
        proof {
            use_type_invariant(self);
            self.lemma_cells_fit();
        }
        let w: usize = T::byte_width();
        proof {
            let n = self.rows * self.cols;
            let a = row * self.cols;
            let c = self.cols as int;
            assert(0 <= a && a + c <= n) by (nonlinear_arith)
                requires
                    a == row * self.cols,
                    c == self.cols,
                    n == self.rows * self.cols,
                    row + 1 <= self.rows,
                    row >= 0,
                    c >= 0,
            ;
            assert(0 <= a * w && 0 <= c * w && a * w + c * w <= n * w) by (nonlinear_arith)
                requires
                    0 <= a,
                    0 <= c,
                    a + c <= n,
                    w >= 1,
            ;
        }
        let start: usize = row * self.cols * w;
        (start, start + self.cols * w)
    }

    /// The elements of row `row`.
    pub fn row(&self, row: usize) -> (r: Vec<T>)
        requires
            row < self@.rows,
        ensures
            r@ == self@.row(row as int),
    {
        proof {
            use_type_invariant(self);
        }
        let (start, end) = self.row_byte_range(row);
        let b: &[u8] = mapping::bytes_of(&self.mmap);
        let part: &[u8] = &b[start..end];
        let r: Vec<T> = decode_all(part);
        proof {
            let w = T::width() as int;
            let c = self.cols as int;
            let first = row * c;
            assert((first + c) * w == first * w + c * w) by (nonlinear_arith);
            assert(0 <= first) by (nonlinear_arith)
                requires
                    first == row * c,
                    c >= 0,
                    row >= 0,
            ;
            lemma_part::<T>(b@, first, c);
            assert forall|x: int| 0 <= x < c implies r@[x] == #[trigger] self@.row(row as int)[x] by {
                lemma_place(self.rows as int, c, row as int, x);
                assert(elements::<T>(part@)[x] == element::<T>(b@, first + x));
            }
            assert(r@ =~= self@.row(row as int));
        }
        r
    }

    /// The first row, if there is one.
    pub fn first(&self) -> (r: Option<Vec<T>>)
        ensures
            match r {
                Some(row) => self@.rows > 0 && row@ == self@.row(0),
                None => self@.rows == 0,
            },
    {
        if self.rows == 0 {
            None
        } else {
            Some(self.row(0))
        }
    }

    /// The rows from the first on.
    pub fn iter(&self) -> (r: MmapGridRows<'_, T>)
        ensures
            r@ == self@.row_list(),
    {
        let r: MmapGridRows<'_, T> = MmapGridRows { grid: self, row: 0 };
        assert(r@ =~= self@.row_list());
        r
    }

    /// All elements, row by row, as a copy.
    pub fn as_flat_slice(&self) -> (r: Vec<T>)
        ensures
            r@ == self@.cells,
    {
        proof {
            use_type_invariant(self);
            self.lemma_valid();
            self.lemma_cells_fit();
        }
        let w: usize = T::byte_width();
        let b: &[u8] = mapping::bytes_of(&self.mmap);
        let part: &[u8] = &b[0..self.rows * self.cols * w];
        let r: Vec<T> = decode_all(part);
        proof {
            let n = self.rows * self.cols;
            assert(0 * T::width() == 0);
            lemma_part::<T>(b@, 0, n);
            assert(part@ =~= b@.subrange(0, n * T::width()));
            assert forall|i: int| 0 <= i < n implies r@[i] == #[trigger] self@.cells[i] by {
                assert(elements::<T>(part@)[i] == element::<T>(b@, 0 + i));
            }
            assert(r@ =~= self@.cells);
        }
        r
    }

    /// Copies the grid into another mapping. The copy shares nothing with it.
    pub fn clone_into(&self, mmap: MmapMut) -> (r: Result<MmapGrid<T>, WrongLength>)
        ensures
            match r {
                Ok(g) => mapping::mapped(mmap).len() == byte_count::<T>(self@.rows, self@.cols)
                    && g@ == self@,
                Err(_) => mapping::mapped(mmap).len() != byte_count::<T>(self@.rows, self@.cols),
            },
    {
        proof {
            use_type_invariant(self);
        }
        let mut copy: MmapMut = mmap;
        let b: &[u8] = mapping::bytes_of(&self.mmap);
        let length: usize = mapping::bytes_of(&copy).len();
        if length != b.len() {
            return Err(WrongLength);
        }
        mapping::copy_into(&mut copy, 0, length, b);
        assert(mapping::mapped(copy) =~= b@);
        Ok(MmapGrid { mmap: copy, rows: self.rows, cols: self.cols, marker: PhantomData })
    }

    /// Takes over the elements of a grid of the same shape, in the mapping that
    /// is there.
    pub fn clone_from(&mut self, source: &MmapGrid<T>)
        requires
            old(self)@.rows == source@.rows,
            old(self)@.cols == source@.cols,
        ensures
            final(self)@ == source@,
    {
        proof {
            use_type_invariant(&*self);
            use_type_invariant(source);
        }
        let b: &[u8] = mapping::bytes_of(&source.mmap);
        let length: usize = b.len();
        mapping::copy_into(&mut self.mmap, 0, length, b);
        assert(mapping::mapped(self.mmap) =~= b@);
    }
}

/// The cells of rows, each as wide as the widest and filled up with zeros.
pub open spec fn padded<T: GridElement>(rows: Seq<Vec<T>>, cols: int, i: int) -> T {
    let row = rows[i / cols]@;
    if i % cols < row.len() { row[i % cols] } else { T::of_bits(0) }
}

/// The length of the longest row.
pub open spec fn longest<T>(rows: Seq<Vec<T>>) -> int
    decreases rows.len(),
{
    if rows.len() == 0 {
        0
    } else {
        let before = longest(rows.drop_last());
        let last = rows.last()@.len() as int;
        if before < last { last } else { before }
    }
}

/// The table that rows make up.
pub open spec fn table_of_rows<T: GridElement>(rows: Seq<Vec<T>>) -> Table<T> {
    let cols = longest(rows);
    Table {
        rows: rows.len() as int,
        cols,
        cells: Seq::new((rows.len() * cols) as nat, |i: int| padded(rows, cols, i)),
    }
}

/// No row is cut short: a table that is made of rows holds all their elements, and
/// behind a row that is shorter than others zeros.
pub proof fn law_tables_hold_their_rows<T: GridElement>(rows: Seq<Vec<T>>, y: int, x: int)
    requires
        0 <= y < rows.len(),
        0 <= x < longest(rows),
    ensures
        rows[y]@.len() <= table_of_rows(rows).cols,
        table_of_rows(rows).valid(),
        table_of_rows(rows).at(y, x) == (if x < rows[y]@.len() {
            rows[y]@[x]
        } else {
            T::of_bits(0)
        }),
{
    lemma_longest(rows, y);
    lemma_place(rows.len() as int, longest(rows), y, x);
}

pub proof fn lemma_longest<T>(rows: Seq<Vec<T>>, i: int)
    requires
        0 <= i < rows.len(),
    ensures
        rows[i]@.len() <= longest(rows),
    decreases rows.len(),
{
    if i < rows.len() - 1 {
        lemma_longest(rows.drop_last(), i);
    }
}

/// The length of the longest row: the columns of a grid that is made of rows.
pub fn widest<T>(rows: &Vec<Vec<T>>) -> (r: usize)
    ensures
        r == longest(rows@),
{
    let mut r: usize = 0;
    let mut i: usize = 0;
    assert(rows@.take(0) =~= Seq::empty());
    while i < rows.len()
        invariant
            i <= rows@.len(),
            r == longest(rows@.take(i as int)),
        decreases rows@.len() - i,
    {
        assert(rows@.take(i + 1).drop_last() =~= rows@.take(i as int));
        if r < rows[i].len() {
            r = rows[i].len();
        }
        i = i + 1;
    }
    assert(rows@.take(i as int) =~= rows@);
    r
}

/// Blocks that a transposed copy is made by, so that what is read and written at
/// a time lies close together.
pub const BLOCK: usize = 512;

/// The rows that are made before they are written.
pub const BATCH: usize = 64;

/// Whether the cell in row `y` and column `x` has been copied, when the rows
/// before `y0` are done, of those before `y1` the columns before `x0`, and of
/// those before `y2` the columns before `x1`.
spec fn is_done(y: int, x: int, y0: int, y1: int, x0: int, y2: int, x1: int) -> bool {
    y < y0 || (y < y1 && x < x0) || (y < y2 && x < x1)
}

impl<T: GridElement> MmapGrid<T> {
    /// The grid that rows make up, in a mapping of the length that it takes. Rows
    /// that are shorter than the longest are filled up with zeros.
    pub fn from_rows(mmap: MmapMut, rows_data: &Vec<Vec<T>>) -> (r: Result<
        MmapGrid<T>,
        WrongLength,
    >)
        ensures
            ({
                let t = table_of_rows(rows_data@);
                match r {
                    Ok(g) => mapping::mapped(mmap).len() == byte_count::<T>(t.rows, t.cols) && g@
                        == t,
                    Err(_) => mapping::mapped(mmap).len() != byte_count::<T>(t.rows, t.cols),
                }
            }),
    {
        let cols: usize = widest(rows_data);
        let rows: usize = rows_data.len();
        let mut grid: MmapGrid<T> = match MmapGrid::new(mmap, rows, cols) {
            Err(e) => return Err(e),
            Ok(g) => g,
        };
        let ghost t = table_of_rows(rows_data@);
        proof {
            bytes::lemma_range(T::width());
        }
        let zero: T = T::from_raw(0);
        let mut y: usize = 0;
        assert(0 * cols == 0);
        while y < rows
            invariant
                y <= rows == rows_data@.len(),
                t == table_of_rows(rows_data@),
                t.rows == rows,
                t.cols == cols,
                cols == longest(rows_data@),
                zero == T::of_bits(0),
                grid@.rows == rows,
                grid@.cols == cols,
                grid@.cells.len() == rows * cols,
                forall|i: int| 0 <= i < y * cols ==> grid@.cells[i] == t.cells[i],
            decreases rows - y,
        {
            let mut x: usize = 0;
            let row: &Vec<T> = &rows_data[y];
            while x < cols
                invariant
                    x <= cols,
                    y < rows == rows_data@.len(),
                    t == table_of_rows(rows_data@),
                    t.rows == rows,
                    t.cols == cols,
                    cols == longest(rows_data@),
                    zero == T::of_bits(0),
                    *row == rows_data@[y as int],
                    grid@.rows == rows,
                    grid@.cols == cols,
                    grid@.cells.len() == rows * cols,
                    forall|i: int| 0 <= i < y * cols + x ==> grid@.cells[i] == t.cells[i],
                decreases cols - x,
            {
                let v: T = if x < row.len() { row[x] } else { zero };
                proof {
                    lemma_place(rows as int, cols as int, y as int, x as int);
                }
                grid.set(y, x, v);
                x = x + 1;
            }
            proof {
                assert((y + 1) * cols == y * cols + cols) by (nonlinear_arith);
            }
            y = y + 1;
        }
        assert(grid@ =~= t);
        Ok(grid)
    }

    /// A transposed copy, in a mapping of the same length. It is made block by
    /// block.
    pub fn transpose(&self, mmap: MmapMut) -> (r: Result<MmapGrid<T>, WrongLength>)
        ensures
            match r {
                Ok(g) => mapping::mapped(mmap).len() == byte_count::<T>(self@.cols, self@.rows)
                    && g@ == self@.transposed(),
                Err(_) => mapping::mapped(mmap).len() != byte_count::<T>(self@.cols, self@.rows),
            },
    {
        let rows: usize = self.len();
        let cols: usize = self.cols();
        let mut out: MmapGrid<T> = match MmapGrid::new(mmap, cols, rows) {
            Err(e) => return Err(e),
            Ok(g) => g,
        };
        let ghost n = self@.cells.len();
        proof {
            vstd::arithmetic::mul::lemma_mul_is_commutative(rows as int, cols as int);
        }
        let mut row_block: usize = 0;
        while row_block < rows
            invariant
                row_block <= rows,
                rows == self@.rows && cols == self@.cols,
                self@.valid(),
                out@.rows == cols && out@.cols == rows,
                out@.cells.len() == cols * rows,
                forall|y: int, x: int|
                    0 <= y < row_block && 0 <= x < cols ==> out@.at(x, y) == #[trigger] self@.at(
                        y,
                        x,
                    ),
            decreases rows - row_block,
        {
            let row_end: usize = if rows - row_block < BLOCK { rows } else { row_block + BLOCK };
            let mut col_block: usize = 0;
            while col_block < cols
                invariant
                    row_block < row_end <= rows,
                    col_block <= cols,
                    rows == self@.rows && cols == self@.cols,
                    self@.valid(),
                    out@.rows == cols && out@.cols == rows,
                    out@.cells.len() == cols * rows,
                    forall|y: int, x: int|
                        0 <= y && 0 <= x < cols && is_done(
                            y,
                            x,
                            row_block as int,
                            row_end as int,
                            col_block as int,
                            0,
                            0,
                        ) ==> out@.at(x, y) == #[trigger] self@.at(y, x),
                decreases cols - col_block,
            {
                let col_end: usize = if cols - col_block < BLOCK {
                    cols
                } else {
                    col_block + BLOCK
                };
                let mut y: usize = row_block;
                while y < row_end
                    invariant
                        row_block <= y <= row_end <= rows,
                        col_block < col_end <= cols,
                        rows == self@.rows && cols == self@.cols,
                        self@.valid(),
                        out@.rows == cols && out@.cols == rows,
                        out@.cells.len() == cols * rows,
                        forall|v: int, u: int|
                            0 <= v && 0 <= u < cols && is_done(
                                v,
                                u,
                                row_block as int,
                                row_end as int,
                                col_block as int,
                                y as int,
                                col_end as int,
                            ) ==> out@.at(u, v) == #[trigger] self@.at(v, u),
                    decreases row_end - y,
                {
                    let mut x: usize = col_block;
                    while x < col_end
                        invariant
                            row_block <= y < row_end <= rows,
                            col_block <= x <= col_end <= cols,
                            rows == self@.rows && cols == self@.cols,
                            self@.valid(),
                            out@.rows == cols && out@.cols == rows,
                            out@.cells.len() == cols * rows,
                            forall|v: int, u: int|
                                0 <= v && 0 <= u < cols && (is_done(
                                    v,
                                    u,
                                    row_block as int,
                                    row_end as int,
                                    col_block as int,
                                    y as int,
                                    col_end as int,
                                ) || (v == y && u < x)) ==> out@.at(u, v) == #[trigger] self@.at(
                                    v,
                                    u,
                                ),
                        decreases col_end - x,
                    {
                        let ghost before = out@;
                        out.set(x, y, self.get(y, x));
                        proof {
                            lemma_place(cols as int, rows as int, x as int, y as int);
                            assert forall|v: int, u: int|
                                0 <= v && 0 <= u < cols && (is_done(
                                    v,
                                    u,
                                    row_block as int,
                                    row_end as int,
                                    col_block as int,
                                    y as int,
                                    col_end as int,
                                ) || (v == y && u < x + 1)) implies out@.at(u, v)
                                == #[trigger] self@.at(v, u) by {
                                lemma_place(cols as int, rows as int, u, v);
                                if !(v == y && u == x) {
                                    assert(u * rows + v != x * rows + y);
                                    assert(before.at(u, v) == self@.at(v, u));
                                }
                            }
                        }
                        x = x + 1;
                    }
                    y = y + 1;
                }
                col_block = col_end;
            }
            row_block = row_end;
        }
        proof {
            let t = self@.transposed();
            assert forall|i: int| 0 <= i < out@.cells.len() implies #[trigger] out@.cells[i]
                == t.cells[i] by {
                let (x, y) = (i / rows as int, i % rows as int);
                lemma_cell(cols as int, rows as int, i);
                assert(out@.at(x, y) == self@.at(y, x));
            }
            assert(out@ =~= t);
        }
        Ok(out)
    }
}

/// The row and the column of a cell.
proof fn lemma_cell(rows: int, cols: int, i: int)
    requires
        0 <= rows && 0 <= cols,
        0 <= i < rows * cols,
    ensures
        0 < cols,
        0 <= i / cols < rows,
        0 <= i % cols < cols,
        i == i / cols * cols + i % cols,
{
    assert(0 < cols) by {
        if cols == 0 {
            assert(rows * cols == 0);
        }
    }
    lemma_fundamental_div_mod(i, cols);
    lemma_div_pos_is_pos(i, cols);
    vstd::arithmetic::mul::lemma_mul_is_commutative(cols, i / cols);
    if i / cols >= rows {
        assert(i / cols * cols >= rows * cols) by (nonlinear_arith)
            requires
                i / cols >= rows,
                cols > 0,
        ;
    }
}

/// The rows of a grid that are still to come.
pub struct MmapGridRows<'a, T: GridElement> {
    grid: &'a MmapGrid<T>,
    row: usize,
}

impl<'a, T: GridElement> View for MmapGridRows<'a, T> {
    type V = Seq<Seq<T>>;

    closed spec fn view(&self) -> Seq<Seq<T>> {
        self.grid@.row_list().skip(self.row as int)
    }
}

impl<'a, T: GridElement> MmapGridRows<'a, T> {
    #[verifier::type_invariant]
    closed spec fn valid(self) -> bool {
        self.row <= self.grid@.rows
    }

    /// The next row, if one is left.
    pub fn next(&mut self) -> (r: Option<Vec<T>>)
        ensures
            match r {
                Some(row) => old(self)@.len() > 0 && row@ == old(self)@[0] && final(self)@
                    == old(self)@.drop_first(),
                None => old(self)@.len() == 0 && final(self)@ == old(self)@,
            },
    {
        proof {
            use_type_invariant(&*self);
        }
        if self.row >= self.grid.len() {
            return None;
        }
        let row: Vec<T> = self.grid.row(self.row);
        self.row = self.row + 1;
        assert(self@ =~= old(self)@.drop_first());
        Some(row)
    }
}

impl<T: GridElement> PartialEq for MmapGrid<T> {
    fn eq(&self, other: &MmapGrid<T>) -> (r: bool) {
        if self.rows != other.rows || self.cols != other.cols {
            return false;
        }
        proof {
            use_type_invariant(self);
            self.lemma_valid();
            self.lemma_cells_fit();
            other.lemma_valid();
        }
        let n: usize = self.rows * self.cols;
        let mut i: usize = 0;
        while i < n
            invariant
                i <= n,
                n == self@.cells.len(),
                n == other@.cells.len(),
                self@.rows == other@.rows,
                self@.cols == other@.cols,
                forall|j: int| 0 <= j < i ==> (#[trigger] self@.cells[j]).alike(other@.cells[j]),
            decreases n - i,
        {
            if !self.read(i).same(other.read(i)) {
                assert(!self@.cells[i as int].alike(other@.cells[i as int]));
                return false;
            }
            i = i + 1;
        }
        true
    }
}

impl<T: GridElement> vstd::std_specs::cmp::PartialEqSpecImpl for MmapGrid<T> {
    open spec fn obeys_eq_spec() -> bool {
        true
    }

    /// Grids are equal if they have the same shape and the same numbers.
    open spec fn eq_spec(&self, other: &MmapGrid<T>) -> bool {
        &&& self@.rows == other@.rows
        &&& self@.cols == other@.cols
        &&& forall|i: int|
            0 <= i < self@.cells.len() ==> (#[trigger] self@.cells[i]).alike(other@.cells[i])
    }
}

/// The elements of each vector.
pub open spec fn lists<T>(rows: Seq<Vec<T>>) -> Seq<Seq<T>> {
    rows.map_values(|row: Vec<T>| row@)
}

impl<T: GridElement> MmapGrid<T> {
    /// The bytes of rows, from row `first` to the one before row `end`, fall into
    /// pieces that are the rows.
    proof fn lemma_row_pieces(&self, first: int, end: int, part: Seq<u8>)
        requires
            self.valid(),
            self.cols > 0,
            0 <= first <= end <= self.rows,
            ({
                let size = self.cols * T::width();
                part == mapping::mapped(self.mmap).subrange(first * size, end * size)
            }),
        ensures
            ({
                let size = self.cols * T::width();
                &&& 0 < size
                &&& 0 <= first * size <= end * size <= mapping::mapped(self.mmap).len()
                &&& parallel::piece_count(part.len() as int, size) == end - first
                &&& forall|i: int|
                    0 <= i < end - first ==> elements::<T>(
                        #[trigger] parallel::piece(part, size, i),
                    ) == self@.row(first + i)
            }),
    {
        let (m, c, w) = (self.rows as int, self.cols as int, T::width() as int);
        let b = mapping::mapped(self.mmap);
        let size = c * w;
        let n = end - first;
        assert(m * c * w == m * size) by (nonlinear_arith)
            requires
                size == c * w,
        ;
        assert(size > 0) by (nonlinear_arith)
            requires
                size == c * w,
                c > 0,
                w > 0,
        ;
        assert(0 <= first * size <= end * size <= m * size) by (nonlinear_arith)
            requires
                0 <= first <= end <= m,
                size > 0,
        ;
        assert(end * size - first * size == n * size) by (nonlinear_arith)
            requires
                n == end - first,
        ;
        lemma_fundamental_div_mod_converse(n * size + size - 1, size, n, size - 1);
        assert forall|i: int| 0 <= i < n implies elements::<T>(
            #[trigger] parallel::piece(part, size, i),
        ) == self@.row(first + i) by {
            let y = first + i;
            let p = parallel::piece(part, size, i);
            let start = y * c;
            assert(start * w == first * size + i * size) by (nonlinear_arith)
                requires
                    start == y * c,
                    y == first + i,
                    size == c * w,
            ;
            assert((i + 1) * size == i * size + size) by (nonlinear_arith);
            assert(0 <= i * size && (i + 1) * size <= n * size) by (nonlinear_arith)
                requires
                    0 <= i,
                    i + 1 <= n,
                    size > 0,
            ;
            assert(0 <= start) by (nonlinear_arith)
                requires
                    start == y * c,
                    y >= 0,
                    c > 0,
            ;
            assert((start + c) * w == start * w + c * w) by (nonlinear_arith);
            assert(p =~= b.subrange(start * w, start * w + c * w));
            lemma_part::<T>(b, start, c);
            assert forall|x: int| 0 <= x < c implies #[trigger] elements::<T>(p)[x] == self@.row(
                y,
            )[x] by {
                lemma_place(m, c, y, x);
                assert(elements::<T>(p)[x] == element::<T>(b, start + x));
            }
            assert(elements::<T>(p) =~= self@.row(y));
        }
    }

    /// What `f` makes of the rows from `first` to the one before `end`, each with
    /// its number. The rows are made in parallel and given in order.
    fn make_rows<R: Send, F: Fn(usize, Vec<T>) -> R + Send + Sync>(
        &self,
        first: usize,
        end: usize,
        f: &F,
    ) -> (r: Vec<R>)
        requires
            first <= end <= self@.rows,
            forall|y: usize| first <= y < end ==> #[trigger] takes(f, y, self@.row(y as int)),
        ensures
            r@.len() == end - first,
            forall|y: usize|
                first <= y < end ==> #[trigger] makes(f, y, self@.row(y as int), r@[y - first]),
    {
        proof {
            use_type_invariant(self);
            self.lemma_valid();
            self.lemma_cells_fit();
        }
        if self.cols == 0 {
            let mut made: Vec<R> = Vec::new();
            let mut y: usize = first;
            while y < end
                invariant
                    first <= y <= end <= self@.rows,
                    self@.cols == 0,
                    forall|u: usize|
                        first <= u < end ==> #[trigger] takes(f, u, self@.row(u as int)),
                    made@.len() == y - first,
                    forall|u: usize|
                        first <= u < y ==> #[trigger] makes(
                            f,
                            u,
                            self@.row(u as int),
                            made@[u - first],
                        ),
                decreases end - y,
            {
                let row: Vec<T> = Vec::new();
                assert(row@ =~= self@.row(y as int));
                assert(takes(f, y, self@.row(y as int)));
                let new: R = f(y, row);
                assert(makes(f, y, self@.row(y as int), new));
                made.push(new);
                y = y + 1;
            }
            return made;
        }
        let w: usize = T::byte_width();
        let b: &[u8] = mapping::bytes_of(&self.mmap);
        let ghost size = self.cols * T::width();
        let ghost bytes = b@.subrange(first * size, end * size);
        proof {
            self.lemma_row_pieces(first as int, end as int, bytes);
            if first < end {
                assert(size <= end * size) by (nonlinear_arith)
                    requires
                        end >= 1,
                        size > 0,
                ;
            }
        }
        if first == end {
            return Vec::new();
        }
        let step: usize = self.cols * w;
        let part: &[u8] = &b[first * step..end * step];
        assert(part@ == bytes);
        let make = |i: usize, p: &[u8]| -> (made: R)
            requires
                i < end - first,
                takes(f, (first + i) as usize, elements::<T>(p@)),
            ensures
                makes(f, (first + i) as usize, elements::<T>(p@), made),
            {
                let row: Vec<T> = decode_all(p);
                f(first + i, row)
            };
        proof {
            assert forall|i: usize, p: &[u8]|
                i < end - first && p@ == parallel::piece(bytes, size, i as int) implies
                #[trigger] call_requires(make, (i, p)) by {
                let y = (first + i) as usize;
                assert(elements::<T>(p@) == self@.row(first + i));
                assert(takes(f, y, self@.row(y as int)));
            }
        }
        let made: Vec<R> = parallel::map_pieces(part, step, make);
        proof {
            assert forall|y: usize| first <= y < end implies #[trigger] makes(
                f,
                y,
                self@.row(y as int),
                made@[y - first],
            ) by {
                let i = y - first;
                let p = choose|p: &[u8]|
                    p@ == parallel::piece(bytes, size, i) && #[trigger] call_ensures(
                        make,
                        (i as usize, p),
                        made@[i],
                    );
                assert(elements::<T>(p@) == self@.row(first + i));
            }
        }
        made
    }

    /// What `f` makes of each row and its number, made in parallel and given in order.
    /// A row is in memory only while `f` is at work on it.
    pub fn par_map<R: Send, F: Fn(usize, Vec<T>) -> R + Send + Sync>(&self, f: F) -> (r: Vec<R>)
        requires
            forall|y: usize| y < self@.rows ==> #[trigger] takes(&f, y, self@.row(y as int)),
        ensures
            r@.len() == self@.rows,
            forall|y: usize|
                y < self@.rows ==> #[trigger] makes(&f, y, self@.row(y as int), r@[y as int]),
    {
        let rows: usize = self.len();
        let r: Vec<R> = self.make_rows(0, rows, &f);
        proof {
            assert forall|y: usize| y < self@.rows implies #[trigger] makes(
                &f,
                y,
                self@.row(y as int),
                r@[y as int],
            ) by {
                assert(makes(&f, y, self@.row(y as int), r@[y - 0]));
            }
        }
        r
    }

    /// The rows, read in parallel and given in order. They are copies, all in memory at
    /// once; `par_map` works on one at a time.
    pub fn par_iter(&self) -> (r: Vec<Vec<T>>)
        ensures
            lists(r@) == self@.row_list(),
    {
        let rows: usize = self.len();
        let keep = |y: usize, row: Vec<T>| -> (same: Vec<T>)
            ensures
                same == row,
            { row };
        let r: Vec<Vec<T>> = self.par_map(keep);
        proof {
            assert forall|y: int| 0 <= y < rows implies #[trigger] lists(r@)[y] == self@.row(
                y,
            ) by {
                let u = y as usize;
                assert(makes(&keep, u, self@.row(u as int), r@[u as int]));
            }
            assert(lists(r@) =~= self@.row_list());
        }
        r
    }

    /// Replaces row `row`.
    pub fn set_row(&mut self, row: usize, values: &Vec<T>)
        requires
            row < old(self)@.rows,
            values@.len() == old(self)@.cols,
        ensures
            final(self)@.rows == old(self)@.rows,
            final(self)@.cols == old(self)@.cols,
            final(self)@.valid(),
            final(self)@.row(row as int) == values@,
            forall|y: int|
                0 <= y < old(self)@.rows && y != row ==> #[trigger] final(self)@.row(y) == old(
                    self,
                )@.row(y),
    {
        let rows: usize = self.len();
        let cols: usize = self.cols();
        let ghost before = self@;
        let mut x: usize = 0;
        while x < cols
            invariant
                x <= cols,
                row < rows,
                values@.len() == cols,
                before.rows == rows && before.cols == cols && before.valid(),
                self@.rows == rows && self@.cols == cols && self@.valid(),
                forall|y: int, u: int|
                    0 <= y < rows && 0 <= u < cols ==> #[trigger] self@.at(y, u) == (if y == row
                        && u < x {
                        values@[u]
                    } else {
                        before.at(y, u)
                    }),
            decreases cols - x,
        {
            let ghost last = self@;
            self.set(row, x, values[x]);
            proof {
                lemma_place(rows as int, cols as int, row as int, x as int);
                assert forall|y: int, u: int|
                    0 <= y < rows && 0 <= u < cols implies #[trigger] self@.at(y, u) == (if y == row
                    && u < x + 1 {
                    values@[u]
                } else {
                    before.at(y, u)
                }) by {
                    lemma_place(rows as int, cols as int, y, u);
                    if !(y == row && u == x) {
                        assert(y * cols + u != row * cols + x);
                        assert(self@.at(y, u) == last.at(y, u));
                    }
                }
            }
            x = x + 1;
        }
        assert(self@.row(row as int) =~= values@);
        assert forall|y: int| 0 <= y < rows && y != row implies #[trigger] self@.row(y)
            == before.row(y) by {
            assert(self@.row(y) =~= before.row(y));
        }
    }

    /// Replaces each row by what `f` makes of it and its number. The rows are made
    /// in parallel, a batch at a time, so that only a batch is in memory.
    pub fn par_iter_mut<F: Fn(usize, Vec<T>) -> Vec<T> + Send + Sync>(&mut self, f: F)
        requires
            forall|y: usize|
                y < old(self)@.rows ==> #[trigger] takes(&f, y, old(self)@.row(y as int)),
            forall|y: usize, made: Vec<T>|
                y < old(self)@.rows && #[trigger] makes(&f, y, old(self)@.row(y as int), made)
                    ==> made@.len() == old(self)@.cols,
        ensures
            final(self)@.rows == old(self)@.rows,
            final(self)@.cols == old(self)@.cols,
            final(self)@.valid(),
            forall|y: usize|
                y < old(self)@.rows ==> #[trigger] turns_into(
                    &f,
                    y,
                    old(self)@.row(y as int),
                    final(self)@.row(y as int),
                ),
    {
        let ghost before = self@;
        let rows: usize = self.len();
        let mut first: usize = 0;
        while first < rows
            invariant
                first <= rows == before.rows,
                self@.rows == before.rows,
                self@.cols == before.cols,
                self@.valid(),
                forall|u: usize| u < rows ==> #[trigger] takes(&f, u, before.row(u as int)),
                forall|u: usize, m: Vec<T>|
                    u < rows && #[trigger] makes(&f, u, before.row(u as int), m) ==> m@.len()
                        == before.cols,
                forall|u: usize|
                    u < first ==> #[trigger] turns_into(
                        &f,
                        u,
                        before.row(u as int),
                        self@.row(u as int),
                    ),
                forall|u: int| first <= u < rows ==> #[trigger] self@.row(u) == before.row(u),
            decreases rows - first,
        {
            let end: usize = if rows - first < BATCH { rows } else { first + BATCH };
            assert forall|u: usize| first <= u < end implies #[trigger] takes(
                &f,
                u,
                self@.row(u as int),
            ) by {
                assert(takes(&f, u, before.row(u as int)));
            }
            let made: Vec<Vec<T>> = self.make_rows(first, end, &f);
            assert forall|u: usize| first <= u < end implies #[trigger] makes(
                &f,
                u,
                before.row(u as int),
                made@[u - first],
            ) by {
                assert(self@.row(u as int) == before.row(u as int));
                assert(makes(&f, u, self@.row(u as int), made@[u - first]));
            }
            let ghost start = self@;
            let mut y: usize = first;
            while y < end
                invariant
                    first <= y <= end <= rows == before.rows,
                    made@.len() == end - first,
                    self@.rows == before.rows,
                    self@.cols == before.cols,
                    self@.valid(),
                    start.rows == before.rows,
                    forall|u: usize, m: Vec<T>|
                        u < rows && #[trigger] makes(&f, u, before.row(u as int), m) ==> m@.len()
                            == before.cols,
                    forall|u: usize|
                        first <= u < end ==> #[trigger] makes(
                            &f,
                            u,
                            before.row(u as int),
                            made@[u - first],
                        ),
                    forall|u: int|
                        0 <= u < rows && !(first <= u < y) ==> #[trigger] self@.row(u)
                            == start.row(u),
                    forall|u: int| first <= u < y ==> #[trigger] self@.row(u) == made@[u - first]@,
                decreases end - y,
            {
                assert(makes(&f, y, before.row(y as int), made@[y - first]));
                self.set_row(y, &made[y - first]);
                y = y + 1;
            }
            assert forall|u: usize| u < end implies #[trigger] turns_into(
                &f,
                u,
                before.row(u as int),
                self@.row(u as int),
            ) by {
                if u < first {
                    assert(turns_into(&f, u, before.row(u as int), start.row(u as int)));
                    assert(self@.row(u as int) == start.row(u as int));
                } else {
                    assert(makes(&f, u, before.row(u as int), made@[u - first]));
                    assert(made@[u - first]@ == self@.row(u as int));
                }
            }
            first = end;
        }
    }

    /// Replaces all elements by what `f` makes of them, row by row.
    pub fn as_flat_mut_slice<F: Fn(Vec<T>) -> Vec<T>>(&mut self, f: F)
        requires
            forall|cells: Vec<T>|
                cells@ == old(self)@.cells ==> #[trigger] call_requires(f, (cells,)),
            forall|cells: Vec<T>, made: Vec<T>|
                cells@ == old(self)@.cells && #[trigger] call_ensures(f, (cells,), made)
                    ==> made@.len() == old(self)@.cells.len(),
        ensures
            final(self)@.rows == old(self)@.rows,
            final(self)@.cols == old(self)@.cols,
            exists|cells: Vec<T>, made: Vec<T>|
                cells@ == old(self)@.cells && made@ == final(self)@.cells
                    && #[trigger] call_ensures(f, (cells,), made),
    {
        let ghost before = self@;
        let cells: Vec<T> = self.as_flat_slice();
        let ghost kept = cells;
        let made: Vec<T> = f(cells);
        assert(call_ensures(f, (kept,), made));
        let mut i: usize = 0;
        while i < made.len()
            invariant
                i <= made@.len() == self@.cells.len(),
                self@.rows == before.rows,
                self@.cols == before.cols,
                forall|j: int| 0 <= j < i ==> self@.cells[j] == made@[j],
            decreases made@.len() - i,
        {
            self.write(i, made[i]);
            i = i + 1;
        }
        assert(self@.cells =~= made@);
    }
}

/// Whether `f` can be called on a row with these elements and this number.
pub open spec fn takes<T, R, F: Fn(usize, Vec<T>) -> R>(f: &F, y: usize, cells: Seq<T>) -> bool {
    forall|row: Vec<T>| row@ == cells ==> #[trigger] call_requires(*f, (y, row))
}

/// Whether `made` is what `f` may make of a row with these elements and this
/// number.
pub open spec fn makes<T, R, F: Fn(usize, Vec<T>) -> R>(
    f: &F,
    y: usize,
    cells: Seq<T>,
    made: R,
) -> bool {
    exists|row: Vec<T>| row@ == cells && #[trigger] call_ensures(*f, (y, row), made)
}

/// Whether `f` may make the elements `after` of a row with the elements `before`.
pub open spec fn turns_into<T, F: Fn(usize, Vec<T>) -> Vec<T>>(
    f: &F,
    y: usize,
    before: Seq<T>,
    after: Seq<T>,
) -> bool {
    exists|made: Vec<T>| made@ == after && #[trigger] makes(f, y, before, made)
}

impl<T> Table<T> {
    /// What is written in a cell is read back from it, bit for bit, and the other
    /// cells stay as they were.
    pub proof fn law_write_then_read(self, y: int, x: int, v: T, u: int, t: int)
        requires
            self.valid(),
            0 <= y < self.rows,
            0 <= x < self.cols,
            0 <= u < self.rows,
            0 <= t < self.cols,
        ensures
            self.with(y, x, v).valid(),
            self.with(y, x, v).at(y, x) == v,
            (u, t) != (y, x) ==> self.with(y, x, v).at(u, t) == self.at(u, t),
    {
        lemma_place(self.rows, self.cols, y, x);
        lemma_place(self.rows, self.cols, u, t);
    }

    /// A transposed table holds in row `x` and column `y` what the table holds in
    /// row `y` and column `x`.
    pub proof fn law_transposed_cells(self, y: int, x: int)
        requires
            self.valid(),
            0 <= y < self.rows,
            0 <= x < self.cols,
        ensures
            self.transposed().valid(),
            self.transposed().at(x, y) == self.at(y, x),
    {
        self.lemma_transposed_is_valid();
        lemma_place(self.cols, self.rows, x, y);
    }

    proof fn lemma_transposed_is_valid(self)
        requires
            self.valid(),
        ensures
            self.transposed().valid(),
    {
        vstd::arithmetic::mul::lemma_mul_is_commutative(self.rows, self.cols);
    }

    /// A table that is transposed twice is the table again.
    pub proof fn law_transposed_twice(self)
        requires
            self.valid(),
        ensures
            self.transposed().transposed() == self,
    {
        let t = self.transposed();
        self.lemma_transposed_is_valid();
        t.lemma_transposed_is_valid();
        assert forall|i: int| 0 <= i < self.cells.len() implies #[trigger] t.transposed().cells[i]
            == self.cells[i] by {
            lemma_cell(self.rows, self.cols, i);
            self.law_transposed_cells(i / self.cols, i % self.cols);
        }
        assert(t.transposed() =~= self);
    }
}

/// In bytes that are all zero every element is zero.
pub proof fn law_zero_bytes_hold_zeros<T: GridElement>(b: Seq<u8>, rows: int, cols: int, i: int)
    requires
        0 <= rows && 0 <= cols,
        1 <= T::width(),
        b.len() == byte_count::<T>(rows, cols),
        forall|j: int| 0 <= j < b.len() ==> #[trigger] b[j] == 0,
        0 <= i < rows * cols,
    ensures
        table::<T>(b, rows, cols).cells[i] == T::of_bits(0),
{
    let w = T::width() as int;
    lemma_element_place(rows * cols, w, i);
    let e = b.subrange(i * w, i * w + w);
    assert forall|j: int| 0 <= j < e.len() implies #[trigger] e[j] == 0 by {
        assert(e[j] == b[i * w + j]);
    }
    bytes::lemma_zeros(e);
}

} // verus!
