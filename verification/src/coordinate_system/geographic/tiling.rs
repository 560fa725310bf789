//! The size of a box, and cutting a large box into tiles.

use vstd::prelude::*;
use crate::binary64;
use crate::binary64::F64;
use crate::binary64::arith;
use crate::binary64::cast;
use crate::binary64::laws;
use crate::binary64::order;
use crate::binary64::root;
use crate::coordinate_system::angle;
use crate::coordinate_system::geographic::llbbox::{Edges, LLBBox};
use crate::coordinate_system::geographic::llpoint;

verus! {

/// The meters in a degree of latitude, as far as sizes here go.
pub const METERS_PER_DEGREE: i32 = 111_320;

/// The square meters in a square kilometer.
pub const SQUARE_METERS: i32 = 1_000_000;

/// The bits of the number nearest to a millionth, the smallest cosine that a
/// width is computed with.
pub const SMALLEST_COSINE_BITS: u64 = 0x3eb0_c6f7_a0b5_ed8d;

impl Edges {
    pub open spec fn lat_span(self) -> F64 {
        arith::difference(self.max_lat, self.min_lat)
    }

    pub open spec fn lng_span(self) -> F64 {
        arith::difference(self.max_lng, self.min_lng)
    }

    /// The latitude halfway between the edges, in radians.
    pub open spec fn middle(self) -> F64 {
        angle::radians(
            arith::quotient(arith::sum(self.min_lat, self.max_lat), cast::of_integer(2)),
        )
    }

    /// The ground area in square kilometers, taken as that of a rectangle whose
    /// width is measured at the latitude with the cosine `cosine`.
    pub open spec fn area(self, cosine: F64) -> F64 {
        ground(self.lng_span(), self.lat_span(), cosine)
    }

    /// The middle latitude of row `r` of `rows`, in radians.
    pub open spec fn row_middle(self, rows: int, r: int) -> F64 {
        let (south, north) = (
            cut(self.min_lat, self.max_lat, rows, r),
            cut(self.min_lat, self.max_lat, rows, r + 1),
        );
        angle::radians(arith::quotient(arith::sum(south, north), cast::of_integer(2)))
    }

    /// How many of the first `n` of `rows` rows there are up to the last whose middle
    /// lies south of the equator.
    pub open spec fn south_rows(self, rows: int, n: nat) -> int
        decreases n,
    {
        if n == 0 {
            0
        } else if self.row_middle(rows, n - 1).below(cast::of_integer(0)) {
            n as int
        } else {
            self.south_rows(rows, (n - 1) as nat)
        }
    }

    /// The row whose middle is nearest to the equator: the last south of it or the
    /// first that is not.
    pub open spec fn widest_row(self, rows: int) -> int {
        let k = self.south_rows(rows, rows as nat);
        if k == rows || (k > 0 && self.row_middle(rows, k - 1).unsigned().below(
            self.row_middle(rows, k).unsigned(),
        )) {
            k - 1
        } else {
            k
        }
    }

    /// The middle latitude of the row of tiles where tiles are widest, in radians.
    pub open spec fn widest(self, max_area: F64) -> F64 {
        let rows = rows_of(self, max_area);
        self.row_middle(rows, self.widest_row(rows))
    }
}

/// The ground area in square kilometers of what spans the given degrees at the
/// latitude with the cosine `cosine`.
pub open spec fn ground(lng_span: F64, lat_span: F64, cosine: F64) -> F64 {
    let width = arith::product(meters(lng_span), cosine);
    let height = meters(lat_span);
    arith::quotient(
        arith::product(width, height).unsigned(),
        cast::of_integer(SQUARE_METERS as int),
    )
}

/// The length in meters of degrees along a meridian.
pub open spec fn meters(degrees: F64) -> F64 {
    arith::product(degrees, cast::of_integer(METERS_PER_DEGREE as int))
}

/// The length in meters of the side of a square of the area `max_area`.
pub open spec fn side(max_area: F64) -> F64 {
    root::square_root(arith::product(max_area, cast::of_integer(SQUARE_METERS as int)))
}

/// How many pieces of the length `side` it takes to cover `length`, at least one.
pub open spec fn pieces(length: F64, side: F64) -> int {
    let q = arith::quotient(length, side);
    let count = cast::as_usize(cast::with_whole(q, cast::ceiled(q)));
    if count < 1 { 1 } else { count }
}

/// The step between the cuts from `start` to `end` that make `count` pieces.
pub open spec fn step(start: F64, end: F64, count: int) -> F64 {
    arith::quotient(arith::difference(end, start), cast::of_integer(count))
}

/// Where piece `i` of `count` starts: `i` steps from `start`, but never past
/// `end`, and at `end` behind the last piece.
pub open spec fn cut(start: F64, end: F64, count: int, i: int) -> F64 {
    if i == count {
        end
    } else {
        let step = step(start, end, count);
        arith::sum(start, arith::product(step, cast::of_integer(i))).lesser(end)
    }
}

/// The cosine without its sign, kept away from zero.
pub open spec fn safe(cosine: F64) -> F64 {
    cosine.unsigned().greater(F64 { bits: SMALLEST_COSINE_BITS })
}

/// How many rows of tiles of the area `max_area` a box takes.
pub open spec fn rows_of(edges: Edges, max_area: F64) -> int {
    pieces(meters(edges.lat_span()), side(max_area))
}

/// How many columns of tiles of the area `max_area` a box takes at the latitude with
/// the cosine `cosine`.
pub open spec fn cols_at(edges: Edges, max_area: F64, cosine: F64) -> int {
    pieces(arith::product(meters(edges.lng_span()), safe(cosine)), side(max_area))
}

/// Whether a tile of the given rows and columns is within the limit at the latitude
/// with the cosine `cosine`.
pub open spec fn fits(edges: Edges, rows: int, cols: int, max_area: F64, cosine: F64) -> bool {
    ground(
        step(edges.min_lng, edges.max_lng, cols),
        step(edges.min_lat, edges.max_lat, rows),
        safe(cosine),
    ).at_most(max_area)
}

/// A box cut into rows and columns.
pub struct Grid {
    pub edges: Edges,
    pub rows: int,
    pub cols: int,
}

impl Grid {
    pub open spec fn lat_cut(self, i: int) -> F64 {
        cut(self.edges.min_lat, self.edges.max_lat, self.rows, i)
    }

    pub open spec fn lng_cut(self, i: int) -> F64 {
        cut(self.edges.min_lng, self.edges.max_lng, self.cols, i)
    }

    /// The cell in row `r` and column `c`.
    pub open spec fn cell(self, r: int, c: int) -> Edges {
        Edges {
            min_lat: self.lat_cut(r),
            min_lng: self.lng_cut(c),
            max_lat: self.lat_cut(r + 1),
            max_lng: self.lng_cut(c + 1),
        }
    }

    /// The tiles among the first `n` cells, which go from west to east and row by
    /// row from south to north. A cell with no extent is no tile.
    pub open spec fn tiles(self, n: nat) -> Seq<Edges>
        decreases n,
    {
        if n == 0 {
            Seq::empty()
        } else {
            let k = n - 1;
            let cell = self.cell(k / self.cols, k % self.cols);
            let before = self.tiles(k as nat);
            if cell.valid() { before.push(cell) } else { before }
        }
    }

    /// All tiles.
    pub open spec fn all(self) -> Seq<Edges> {
        self.tiles((self.rows * self.cols) as nat)
    }

    /// The grid of a box whose cells are to be no larger than `max_area`. The columns
    /// are those that it takes at the middle latitude, with the cosine `cos_mid`. Where
    /// tiles that are measured at the widest row, with the cosine `cos_widest`, would
    /// exceed the limit, they are those that it takes there.
    pub open spec fn of(edges: Edges, max_area: F64, cos_mid: F64, cos_widest: F64) -> Grid {
        let rows = rows_of(edges, max_area);
        let cols = cols_at(edges, max_area, cos_mid);
        Grid {
            edges,
            rows,
            cols: if fits(edges, rows, cols, max_area, cos_widest) {
                cols
            } else {
                cols_at(edges, max_area, cos_widest)
            },
        }
    }
}

/// The edges of boxes.
pub open spec fn edges_of(boxes: Seq<LLBBox>) -> Seq<Edges> {
    boxes.map_values(|b: LLBBox| b@)
}

/// Computes `pieces`.
fn count_pieces(length: F64, side: F64) -> (r: usize)
    ensures
        r == pieces(length, side),
        r >= 1,
{
    let n: usize = length.over(side).ceil().to_usize();
    if n < 1 { 1 } else { n }
}

/// Computes `cut`, given the step.
fn cut_at(start: F64, end: F64, distance: F64, count: usize, i: usize) -> (r: F64)
    requires
        distance == step(start, end, count as int),
    ensures
        r == cut(start, end, count as int, i as int),
{
    if i == count {
        end
    } else {
        start.plus(distance.times(F64::from_usize(i))).min(end)
    }
}

/// Computes `ground`.
fn measure(lng_span: F64, lat_span: F64, cosine: F64) -> (r: F64)
    ensures
        r == ground(lng_span, lat_span, cosine),
{
    let per_degree: F64 = F64::from_i32(METERS_PER_DEGREE);
    let width: F64 = lng_span.times(per_degree).times(cosine);
    let height: F64 = lat_span.times(per_degree);
    width.times(height).abs().over(F64::from_i32(SQUARE_METERS))
}

/// Computes `safe`.
fn keep_from_zero(cosine: F64) -> (r: F64)
    ensures
        r == safe(cosine),
{
    cosine.abs().max(F64::from_bits(SMALLEST_COSINE_BITS))
}

/// Computes `side`.
fn side_of(max_area: F64) -> (r: F64)
    ensures
        r == side(max_area),
{
    max_area.times(F64::from_i32(SQUARE_METERS)).sqrt()
}

/// Computes `rows_of`.
fn count_rows(b: &LLBBox, max_area: F64) -> (r: usize)
    ensures
        r == rows_of(b@, max_area),
        r >= 1,
{
    let height: F64 = b.max().lat().minus(b.min().lat()).times(F64::from_i32(METERS_PER_DEGREE));
    count_pieces(height, side_of(max_area))
}

/// Computes `cols_at`.
fn count_cols(b: &LLBBox, max_area: F64, cosine: F64) -> (r: usize)
    ensures
        r == cols_at(b@, max_area, cosine),
        r >= 1,
{
    let length: F64 = b.max().lng().minus(b.min().lng()).times(F64::from_i32(METERS_PER_DEGREE));
    count_pieces(length.times(keep_from_zero(cosine)), side_of(max_area))
}

/// Computes `Edges::row_middle`, given the step.
fn row_middle_at(b: &LLBBox, lat_step: F64, rows: usize, r: usize) -> (lat: F64)
    requires
        r < rows,
        lat_step == step(b@.min_lat, b@.max_lat, rows as int),
    ensures
        lat == b@.row_middle(rows as int, r as int),
{
    let south: F64 = cut_at(b.min().lat(), b.max().lat(), lat_step, rows, r);
    let north: F64 = cut_at(b.min().lat(), b.max().lat(), lat_step, rows, r + 1);
    angle::to_radians(south.plus(north).over(F64::from_i32(2)))
}

impl LLBBox {
    /// The latitude halfway between the edges, in radians: the one that widths
    /// are measured at.
    pub fn mid_lat_radians(&self) -> (r: F64)
        ensures
            r == self@.middle(),
    {
        angle::to_radians(self.min().lat().plus(self.max().lat()).over(F64::from_i32(2)))
    }

    /// The middle latitude of the row nearest to the equator, in radians, of the rows
    /// that `split_into_grid` cuts the box into: tiles are widest there.
    pub fn widest_lat_radians(&self, max_area_km2: F64) -> (r: F64)
        ensures
            r == self@.widest(max_area_km2),
    {
        proof {
            use_type_invariant(self);
        }
        let rows: usize = count_rows(self, max_area_km2);
        let lat_step: F64 = self.max().lat().minus(self.min().lat()).over(F64::from_usize(rows));
        // The first row whose middle is not south of the equator, from `low` to `high`.
        let mut low: usize = 0;
        let mut high: usize = rows;
        while low < high
            invariant
                low <= high <= rows,
                self@.valid(),
                lat_step == step(self@.min_lat, self@.max_lat, rows as int),
                forall|r: int|
                    0 <= r < low ==> (#[trigger] self@.row_middle(rows as int, r)).below(
                        cast::of_integer(0),
                    ),
                forall|r: int|
                    high <= r < rows ==> !(#[trigger] self@.row_middle(rows as int, r)).below(
                        cast::of_integer(0),
                    ),
            decreases high - low,
        {
            let mid: usize = low + (high - low) / 2;
            if row_middle_at(self, lat_step, rows, mid).lt(F64::from_i32(0)) {
                proof {
                    assert forall|r: int| 0 <= r < mid + 1 implies (#[trigger] self@.row_middle(
                        rows as int,
                        r,
                    )).below(cast::of_integer(0)) by {
                        lemma_middles_in_order(self@, rows as int, r, mid as int);
                    }
                }
                low = mid + 1;
            } else {
                proof {
                    assert forall|r: int| mid <= r < rows implies !(#[trigger] self@.row_middle(
                        rows as int,
                        r,
                    )).below(cast::of_integer(0)) by {
                        lemma_middles_in_order(self@, rows as int, mid as int, r);
                    }
                }
                high = mid;
            }
        }
        proof {
            lemma_south_rows(self@, rows as int, rows as nat, low as int);
        }
        if low == rows {
            return row_middle_at(self, lat_step, rows, rows - 1);
        }
        let north: F64 = row_middle_at(self, lat_step, rows, low);
        if low > 0 {
            let south: F64 = row_middle_at(self, lat_step, rows, low - 1);
            if south.abs().lt(north.abs()) {
                return south;
            }
        }
        north
    }

    /// The ground area in square kilometers, on an equirectangular approximation
    /// taken at the middle latitude, whose cosine is `cos_mid_lat`. Good enough
    /// to judge sizes by; it is no exact geodesic area.
    pub fn area_km2(&self, cos_mid_lat: F64) -> (r: F64)
        ensures
            r == self@.area(cos_mid_lat),
    {
        measure(
            self.max().lng().minus(self.min().lng()),
            self.max().lat().minus(self.min().lat()),
            cos_mid_lat,
        )
    }

    /// Cuts the box into a grid of tiles that are no larger than `max_area_km2`, but
    /// for rounding, and together make up the box. A box that is small enough is its
    /// only tile, and so is any box where `max_area_km2` is not positive.
    ///
    /// `cos_mid_lat` is the cosine of the middle latitude, at which the box is measured
    /// and its columns are counted, and `cos_widest` that of the middle latitude of the
    /// widest row of tiles. Where tiles of that row would come out larger than the
    /// limit, columns are counted there.
    pub fn split_into_grid(&self, max_area_km2: F64, cos_mid_lat: F64, cos_widest: F64) -> (r: Vec<
        LLBBox,
    >)
        ensures
            edges_of(r@) == (if max_area_km2.at_most(cast::of_integer(0)) || self@.area(
                cos_mid_lat,
            ).at_most(max_area_km2) {
                seq![self@]
            } else {
                Grid::of(self@, max_area_km2, cos_mid_lat, cos_widest).all()
            }),
    {
        let mut tiles: Vec<LLBBox> = Vec::new();
        if max_area_km2.le(F64::from_i32(0)) || self.area_km2(cos_mid_lat).le(max_area_km2) {
            tiles.push(*self);
            assert(edges_of(tiles@) =~= seq![self@]);
            return tiles;
        }
        let (south, north) = (self.min().lat(), self.max().lat());
        let (west, east) = (self.min().lng(), self.max().lng());
        let rows: usize = count_rows(self, max_area_km2);
        let mut cols: usize = count_cols(self, max_area_km2, cos_mid_lat);
        let lat_step: F64 = north.minus(south).over(F64::from_usize(rows));
        let mut lng_step: F64 = east.minus(west).over(F64::from_usize(cols));
        if !measure(lng_step, lat_step, keep_from_zero(cos_widest)).le(max_area_km2) {
            cols = count_cols(self, max_area_km2, cos_widest);
            lng_step = east.minus(west).over(F64::from_usize(cols));
        }
        let ghost grid = Grid::of(self@, max_area_km2, cos_mid_lat, cos_widest);
        let ghost mut done: nat = 0;
        assert(edges_of(tiles@) =~= Seq::empty());
        let mut r: usize = 0;
        assert(0 * cols == 0);
        while r < rows
            invariant
                r <= rows,
                cols >= 1,
                grid.edges == self@,
                grid.rows == rows && grid.cols == cols,
                south == self@.min_lat && north == self@.max_lat,
                west == self@.min_lng && east == self@.max_lng,
                lat_step == step(south, north, rows as int),
                lng_step == step(west, east, cols as int),
                done == r * cols,
                edges_of(tiles@) == grid.tiles(done),
            decreases rows - r,
        {
            let min_lat: F64 = cut_at(south, north, lat_step, rows, r);
            let max_lat: F64 = cut_at(south, north, lat_step, rows, r + 1);
            let mut c: usize = 0;
            while c < cols
                invariant
                    r < rows,
                    c <= cols,
                    cols >= 1,
                    grid.edges == self@,
                    grid.rows == rows && grid.cols == cols,
                    west == self@.min_lng && east == self@.max_lng,
                    lng_step == step(west, east, cols as int),
                    min_lat == grid.lat_cut(r as int),
                    max_lat == grid.lat_cut(r + 1),
                    done == r * cols + c,
                    edges_of(tiles@) == grid.tiles(done),
                decreases cols - c,
            {
                let min_lng: F64 = cut_at(west, east, lng_step, cols, c);
                let max_lng: F64 = cut_at(west, east, lng_step, cols, c + 1);
                proof {
                    vstd::arithmetic::div_mod::lemma_fundamental_div_mod_converse(
                        done as int,
                        cols as int,
                        r as int,
                        c as int,
                    );
                    done = done + 1;
                }
                if let Ok(tile) = LLBBox::new(min_lat, min_lng, max_lat, max_lng) {
                    assert(edges_of(tiles@.push(tile)) =~= edges_of(tiles@).push(tile@));
                    tiles.push(tile);
                }
                c = c + 1;
            }
            proof {
                assert((r + 1) * cols == r * cols + cols) by (nonlinear_arith);
            }
            r = r + 1;
        }
        tiles
    }
}

impl Edges {
    /// Whether the point at `lat` and `lng` lies within the edges, on none of them.
    pub open spec fn encloses(self, lat: F64, lng: F64) -> bool {
        &&& self.min_lat.below(lat)
        &&& lat.below(self.max_lat)
        &&& self.min_lng.below(lng)
        &&& lng.below(self.max_lng)
    }
}

impl Grid {
    /// The grid of a box, of counts that a machine can hold.
    pub open spec fn valid(self) -> bool {
        &&& self.edges.valid()
        &&& 1 <= self.rows <= usize::MAX
        &&& 1 <= self.cols <= usize::MAX
    }
}

/// A coordinate is a finite number, and so is the distance of two.
pub proof fn lemma_span(a: F64, b: F64, limit: int)
    requires
        0 <= limit <= 180,
        llpoint::within(a, limit),
        llpoint::within(b, limit),
        a.below(b),
    ensures
        a.finite() && b.finite(),
        arith::difference(b, a).finite(),
        arith::difference(b, a).magnitude() != 0,
        !arith::difference(b, a).negative(),
{
    vstd::arithmetic::power2::lemma2_to64();
    let h = binary64::HIDDEN_BIT as nat;
    laws::lemma_integer_bound(limit, 8);
    laws::lemma_integer_bound(-limit, 8);
    laws::lemma_scale_power(1031);
    laws::lemma_scale_power(1032);
    vstd::arithmetic::power2::lemma_pow2_unfold(1083);
    let top = cast::of_integer(limit).magnitude();
    let low = cast::of_integer(-limit).magnitude();
    let i = binary64::INFINITY_BITS as nat;
    binary64::lemma_scale_order(1031 * h, top);
    binary64::lemma_scale_order(1031 * h, low);
    binary64::lemma_scale_order(1031 * h, i);
    binary64::lemma_scale_order(a.magnitude(), i);
    binary64::lemma_scale_order(b.magnitude(), i);
    laws::law_difference_of_distinct(a, b);
    let s = b.units() - a.units();
    laws::lemma_made_of_parts(a);
    laws::lemma_signed(!a.negative(), a.magnitude());
    arith::lemma_nearest_exact(1032 * h);
    crate::binary64::round::lemma_nearest_monotone(s, 1, binary64::scale(1032 * h) as int, 1);
    laws::lemma_signed(false, crate::binary64::round::nearest(s, 1));
}

/// The step between cuts is a finite number that is not negative.
proof fn lemma_step(start: F64, end: F64, count: int, limit: int)
    requires
        0 <= limit <= 180,
        llpoint::within(start, limit),
        llpoint::within(end, limit),
        start.below(end),
        1 <= count <= usize::MAX,
    ensures
        ({
            let step = step(start, end, count);
            step.finite() && !step.negative()
        }),
{
    lemma_span(start, end, limit);
    vstd::arithmetic::power2::lemma2_to64_rest();
    laws::lemma_integer_bound(count, 64);
    laws::law_integers_keep_order(1, count);
    laws::lemma_one();
    let span = arith::difference(end, start);
    let n = cast::of_integer(count);
    let u = span.units();
    let v = n.units();
    let o = cast::one();
    assert(u * o >= 0) by (nonlinear_arith)
        requires
            u >= 0,
            o > 0,
    ;
    assert((u * o) * 1 <= u * v) by (nonlinear_arith)
        requires
            u >= 0,
            v >= o,
    ;
    binary64::lemma_scale_order(n.magnitude(), 0);
    arith::lemma_nearest_exact(span.magnitude());
    crate::binary64::round::lemma_nearest_monotone(u * o, v, u, 1);
    laws::lemma_signed(false, crate::binary64::round::nearest(u * o, v));
}

/// Cuts are in order, from the near edge on.
proof fn lemma_cuts_in_order(start: F64, end: F64, count: int, limit: int, i: int, j: int)
    requires
        0 <= limit <= 180,
        llpoint::within(start, limit),
        llpoint::within(end, limit),
        start.below(end),
        1 <= count <= usize::MAX,
        0 <= i <= j <= count,
    ensures
        cut(start, end, count, i).at_most(cut(start, end, count, j)),
        cut(start, end, count, 0).same_number(start),
{
    let step = step(start, end, count);
    lemma_span(start, end, limit);
    lemma_step(start, end, count, limit);
    let zero = cast::of_integer(0);
    arith::lemma_nearest_zero(1);
    assert(0 * cast::one() == 0);
    laws::lemma_signed(false, 0);
    laws::law_zero_product(zero, step);
    laws::law_zero_adds_nothing(start, arith::product(step, zero));
    if i < count {
        let k = if j < count { j } else { i };
        lemma_cuts_rise(start, step, i, k);
    }
}

proof fn lemma_cuts_rise(start: F64, step: F64, i: int, j: int)
    requires
        start.finite(),
        step.finite() && !step.negative(),
        0 <= i <= j <= usize::MAX,
    ensures
        arith::sum(start, arith::product(step, cast::of_integer(i))).at_most(
            arith::sum(start, arith::product(step, cast::of_integer(j))),
        ),
{
    vstd::arithmetic::power2::lemma2_to64_rest();
    laws::lemma_integer_bound(i, 64);
    laws::lemma_integer_bound(j, 64);
    laws::law_integers_keep_order(i, j);
    laws::law_products_keep_order(step, cast::of_integer(i), cast::of_integer(j));
    laws::law_sums_keep_order(
        start,
        arith::product(step, cast::of_integer(i)),
        arith::product(step, cast::of_integer(j)),
    );
}

/// Middles of rows go from south to north.
proof fn lemma_middles_in_order(edges: Edges, rows: int, q: int, r: int)
    requires
        edges.valid(),
        1 <= rows <= usize::MAX,
        0 <= q <= r < rows,
    ensures
        edges.row_middle(rows, q).at_most(edges.row_middle(rows, r)),
{
    let (s, e) = (edges.min_lat, edges.max_lat);
    lemma_span(s, e, 90);
    lemma_cuts_in_order(s, e, rows, 90, q, r);
    lemma_cuts_in_order(s, e, rows, 90, q + 1, r + 1);
    let (a, b) = (cut(s, e, rows, q), cut(s, e, rows, q + 1));
    let (c, d) = (cut(s, e, rows, r), cut(s, e, rows, r + 1));
    lemma_cut_is_finite(s, e, rows, 90, q);
    lemma_cut_is_finite(s, e, rows, 90, r + 1);
    lemma_sums_in_order(a, b, c, d);
    lemma_halves_in_order(arith::sum(a, b), arith::sum(c, d));
}

proof fn lemma_sums_in_order(a: F64, b: F64, c: F64, d: F64)
    requires
        a.finite() && d.finite(),
        a.at_most(c),
        b.at_most(d),
    ensures
        arith::sum(a, b).at_most(arith::sum(c, d)),
{
    laws::law_sums_keep_order(a, b, d);
    laws::law_sums_keep_order(d, a, c);
    order::law_sums_commute(a, d);
    order::law_sums_commute(c, d);
}

proof fn lemma_halves_in_order(x: F64, y: F64)
    requires
        x.at_most(y),
    ensures
        angle::radians(arith::quotient(x, cast::of_integer(2))).at_most(
            angle::radians(arith::quotient(y, cast::of_integer(2))),
        ),
{
    vstd::arithmetic::power2::lemma2_to64();
    laws::lemma_integer_bound(2, 2);
    laws::law_integers_keep_order(1, 2);
    laws::lemma_one();
    let two = cast::of_integer(2);
    binary64::lemma_scale_order(two.magnitude(), 0);
    order::law_quotients_by_a_positive_number_keep_order(x, y, two);
    order::law_products_by_a_positive_number_keep_order(
        F64 { bits: angle::RADIANS_PER_DEGREE_BITS },
        arith::quotient(x, two),
        arith::quotient(y, two),
    );
}

/// Cuts are finite.
proof fn lemma_cut_is_finite(start: F64, end: F64, count: int, limit: int, i: int)
    requires
        0 <= limit <= 180,
        llpoint::within(start, limit),
        llpoint::within(end, limit),
        start.below(end),
        1 <= count <= usize::MAX,
        0 <= i <= count,
    ensures
        cut(start, end, count, i).finite(),
{
    lemma_span(start, end, limit);
    lemma_cuts_in_order(start, end, count, limit, 0, i);
    lemma_cuts_in_order(start, end, count, limit, i, count);
    let a = cut(start, end, count, i);
    let top = binary64::INFINITY_BITS as nat;
    binary64::lemma_scale_order(a.magnitude(), top);
    binary64::lemma_scale_order(start.magnitude(), top);
    binary64::lemma_scale_order(end.magnitude(), top);
}

/// The rows south of the equator, counted.
proof fn lemma_south_rows(edges: Edges, rows: int, n: nat, k: int)
    requires
        0 <= k <= n,
        k > 0 ==> edges.row_middle(rows, k - 1).below(cast::of_integer(0)),
        forall|r: int|
            k <= r < n ==> !(#[trigger] edges.row_middle(rows, r)).below(cast::of_integer(0)),
    ensures
        edges.south_rows(rows, n) == k,
    decreases n,
{
    if k < n {
        assert(!edges.row_middle(rows, n - 1).below(cast::of_integer(0)));
        lemma_south_rows(edges, rows, (n - 1) as nat, k);
    }
}

impl Grid {
    proof fn lemma_lat_order(self, i: int, j: int)
        requires
            self.valid(),
            0 <= i <= j <= self.rows,
        ensures
            self.lat_cut(i).at_most(self.lat_cut(j)),
            self.lat_cut(0).same_number(self.edges.min_lat),
            self.lat_cut(self.rows) == self.edges.max_lat,
    {
        let e = self.edges;
        lemma_cuts_in_order(e.min_lat, e.max_lat, self.rows, 90, i, j);
    }

    proof fn lemma_lng_order(self, i: int, j: int)
        requires
            self.valid(),
            0 <= i <= j <= self.cols,
        ensures
            self.lng_cut(i).at_most(self.lng_cut(j)),
            self.lng_cut(0).same_number(self.edges.min_lng),
            self.lng_cut(self.cols) == self.edges.max_lng,
    {
        let e = self.edges;
        lemma_cuts_in_order(e.min_lng, e.max_lng, self.cols, 180, i, j);
    }

    /// The row that a latitude falls into, among the first `k`.
    proof fn find_row(self, lat: F64, k: int) -> (r: int)
        requires
            self.valid(),
            1 <= k <= self.rows,
            self.lat_cut(0).at_most(lat),
            lat.at_most(self.lat_cut(k)),
            self.lat_cut(0).below(self.lat_cut(k)),
        ensures
            0 <= r < k,
            self.lat_cut(r).at_most(lat),
            lat.at_most(self.lat_cut(r + 1)),
            self.lat_cut(r).below(self.lat_cut(r + 1)),
        decreases k,
    {
        self.lemma_lat_order(k - 1, k);
        if self.lat_cut(k - 1).below(self.lat_cut(k)) && self.lat_cut(k - 1).at_most(lat) {
            k - 1
        } else {
            self.find_row(lat, k - 1)
        }
    }

    /// The column that a longitude falls into, among the first `k`.
    proof fn find_col(self, lng: F64, k: int) -> (c: int)
        requires
            self.valid(),
            1 <= k <= self.cols,
            self.lng_cut(0).at_most(lng),
            lng.at_most(self.lng_cut(k)),
            self.lng_cut(0).below(self.lng_cut(k)),
        ensures
            0 <= c < k,
            self.lng_cut(c).at_most(lng),
            lng.at_most(self.lng_cut(c + 1)),
            self.lng_cut(c).below(self.lng_cut(c + 1)),
        decreases k,
    {
        self.lemma_lng_order(k - 1, k);
        if self.lng_cut(k - 1).below(self.lng_cut(k)) && self.lng_cut(k - 1).at_most(lng) {
            k - 1
        } else {
            self.find_col(lng, k - 1)
        }
    }

    /// A cell with an extent is one of the tiles.
    proof fn lemma_cell_is_tile(self, k: nat, n: nat) -> (t: int)
        requires
            k < n,
            self.cell(k as int / self.cols, k as int % self.cols).valid(),
        ensures
            0 <= t < self.tiles(n).len(),
            self.tiles(n)[t] == self.cell(k as int / self.cols, k as int % self.cols),
        decreases n,
    {
        if k == n - 1 {
            self.tiles(n).len() - 1
        } else {
            self.lemma_cell_is_tile(k, (n - 1) as nat)
        }
    }

    /// Two tiles are two cells, in the same order.
    proof fn lemma_tiles_are_cells(self, n: nat, s: int, t: int) -> (r: (nat, nat))
        requires
            0 <= s < t < self.tiles(n).len(),
        ensures
            r.0 < r.1 < n,
            self.tiles(n)[s] == self.cell(r.0 as int / self.cols, r.0 as int % self.cols),
            self.tiles(n)[t] == self.cell(r.1 as int / self.cols, r.1 as int % self.cols),
        decreases n,
    {
        let k = (n - 1) as nat;
        let before = self.tiles(k);
        if t < before.len() {
            self.lemma_tiles_are_cells(k, s, t)
        } else {
            (self.lemma_tile_is_cell(k, s), k)
        }
    }

    proof fn lemma_tile_is_cell(self, n: nat, t: int) -> (k: nat)
        requires
            0 <= t < self.tiles(n).len(),
        ensures
            k < n,
            self.tiles(n)[t] == self.cell(k as int / self.cols, k as int % self.cols),
            self.tiles(n)[t].valid(),
        decreases n,
    {
        let k = (n - 1) as nat;
        if t < self.tiles(k).len() {
            self.lemma_tile_is_cell(k, t)
        } else {
            k
        }
    }

    /// The row and the column of a tile, which is the box of a cell.
    pub proof fn lemma_tile_place(self, t: int) -> (place: (int, int))
        requires
            self.rows >= 1,
            self.cols >= 1,
            0 <= t < self.all().len(),
        ensures
            0 <= place.0 < self.rows,
            0 <= place.1 < self.cols,
            self.all()[t] == self.cell(place.0, place.1),
            self.all()[t].valid(),
    {
        let k = self.lemma_tile_is_cell((self.rows * self.cols) as nat, t);
        self.lemma_cell_place(k);
        (k as int / self.cols, k as int % self.cols)
    }

    /// The row and the column of a cell.
    proof fn lemma_cell_place(self, k: nat)
        requires
            self.rows >= 1,
            self.cols >= 1,
            k < self.rows * self.cols,
        ensures
            0 <= k as int / self.cols < self.rows,
            0 <= k as int % self.cols < self.cols,
            k == (k as int / self.cols) * self.cols + k as int % self.cols,
    {
        let q = k as int / self.cols;
        let m = k as int % self.cols;
        let c = self.cols;
        let r = self.rows;
        vstd::arithmetic::div_mod::lemma_fundamental_div_mod(k as int, c);
        assert(k == q * c + m) by (nonlinear_arith)
            requires
                k == c * q + m,
        ;
        assert(0 <= q < r) by (nonlinear_arith)
            requires
                k == q * c + m,
                0 <= m < c,
                0 <= k < r * c,
        ;
    }

    /// A later cell lies in a later row, or later in the same one.
    proof fn lemma_cell_order(self, i: nat, j: nat)
        requires
            self.rows >= 1,
            self.cols >= 1,
            i <= j < self.rows * self.cols,
        ensures
            ({
                let (r, c) = (i as int / self.cols, i as int % self.cols);
                let (q, d) = (j as int / self.cols, j as int % self.cols);
                r < q || (r == q && c <= d)
            }),
    {
        self.lemma_cell_place(i);
        self.lemma_cell_place(j);
        let (r, c) = (i as int / self.cols, i as int % self.cols);
        let (q, d) = (j as int / self.cols, j as int % self.cols);
        let cols = self.cols;
        assert(r < q || (r == q && c <= d)) by (nonlinear_arith)
            requires
                i == r * cols + c,
                j == q * cols + d,
                i <= j,
                0 <= c < cols,
                0 <= d < cols,
        ;
    }

    /// The first cell with an extent is the first tile.
    proof fn lemma_first_tile(self, n: nat) -> (k: nat)
        requires
            self.tiles(n).len() > 0,
        ensures
            k < n,
            self.tiles(n)[0] == self.cell(k as int / self.cols, k as int % self.cols),
            self.tiles(n)[0].valid(),
            forall|j: nat|
                j < k ==> !(#[trigger] self.cell(j as int / self.cols, j as int % self.cols)).valid(),
        decreases n,
    {
        let k = (n - 1) as nat;
        if self.tiles(k).len() > 0 {
            self.lemma_first_tile(k)
        } else {
            assert forall|j: nat| j < k implies !(#[trigger] self.cell(
                j as int / self.cols,
                j as int % self.cols,
            )).valid() by {
                if self.cell(j as int / self.cols, j as int % self.cols).valid() {
                    let t = self.lemma_cell_is_tile(j, k);
                }
            }
            k
        }
    }

    /// The last cell with an extent is the last tile.
    proof fn lemma_last_tile(self, n: nat) -> (k: nat)
        requires
            self.tiles(n).len() > 0,
        ensures
            k < n,
            self.tiles(n).last() == self.cell(k as int / self.cols, k as int % self.cols),
            self.tiles(n).last().valid(),
            forall|j: nat|
                k < j < n ==> !(#[trigger] self.cell(
                    j as int / self.cols,
                    j as int % self.cols,
                )).valid(),
        decreases n,
    {
        let k = (n - 1) as nat;
        if self.cell(k as int / self.cols, k as int % self.cols).valid() {
            k
        } else {
            self.lemma_last_tile(k)
        }
    }

    /// A row and a column with an extent meet in a cell with an extent.
    proof fn lemma_meeting_cell(self, r: int, c: int) -> (k: nat)
        requires
            self.valid(),
            0 <= r < self.rows,
            0 <= c < self.cols,
            self.lat_cut(r).below(self.lat_cut(r + 1)),
            self.lng_cut(c).below(self.lng_cut(c + 1)),
        ensures
            k < self.rows * self.cols,
            k as int / self.cols == r,
            k as int % self.cols == c,
            self.cell(r, c).valid(),
    {
        self.lemma_lat_order(0, r);
        self.lemma_lat_order(r + 1, self.rows);
        self.lemma_lng_order(0, c);
        self.lemma_lng_order(c + 1, self.cols);
        let k = r * self.cols + c;
        let (rows, cols) = (self.rows, self.cols);
        assert(0 <= k < rows * cols) by (nonlinear_arith)
            requires
                k == r * cols + c,
                0 <= r < rows,
                0 <= c < cols,
        ;
        vstd::arithmetic::div_mod::lemma_fundamental_div_mod_converse(k, cols, r, c);
        k as nat
    }

    /// The first tile starts where the box does, and the last tile ends where the box
    /// does.
    pub proof fn law_tiles_start_and_end_with_the_box(self)
        requires
            self.valid(),
        ensures
            self.all().len() > 0,
            self.all()[0].min_lat.same_number(self.edges.min_lat),
            self.all()[0].min_lng.same_number(self.edges.min_lng),
            self.all().last().max_lat.same_number(self.edges.max_lat),
            self.all().last().max_lng.same_number(self.edges.max_lng),
    {
        let n = (self.rows * self.cols) as nat;
        let e = self.edges;
        self.law_tiles_leave_no_gap(e.min_lat, e.min_lng);
        self.lemma_lat_order(0, self.rows);
        self.lemma_lng_order(0, self.cols);
        let r = self.find_row(self.lat_cut(0), self.rows);
        let c = self.find_col(self.lng_cut(0), self.cols);
        let k = self.lemma_first_tile(n);
        self.lemma_cell_place(k);
        let (q, d) = (k as int / self.cols, k as int % self.cols);
        self.lemma_lat_order(0, q);
        self.lemma_lng_order(0, d);
        let j = self.lemma_meeting_cell(r, c);
        assert(k <= j);
        self.lemma_cell_order(k, j);
        self.lemma_lat_order(q, r);
        let i = self.lemma_meeting_cell(q, c);
        assert(k <= i);
        self.lemma_cell_order(k, i);
        self.lemma_lng_order(d, c);
        let r = self.find_row(e.max_lat, self.rows);
        let c = self.find_col(e.max_lng, self.cols);
        let k = self.lemma_last_tile(n);
        self.lemma_cell_place(k);
        let (q, d) = (k as int / self.cols, k as int % self.cols);
        self.lemma_lat_order(q + 1, self.rows);
        self.lemma_lng_order(d + 1, self.cols);
        let j = self.lemma_meeting_cell(r, c);
        assert(k >= j);
        self.lemma_cell_order(j, k);
        self.lemma_lat_order(r + 1, q + 1);
        let i = self.lemma_meeting_cell(q, c);
        assert(k >= i);
        self.lemma_cell_order(i, k);
        self.lemma_lng_order(c + 1, d + 1);
    }

    /// No gaps: every point of the box lies in a tile.
    pub proof fn law_tiles_leave_no_gap(self, lat: F64, lng: F64)
        requires
            self.valid(),
            self.edges.covers(lat, lng),
        ensures
            exists|t: int|
                0 <= t < self.all().len() && (#[trigger] self.all()[t]).covers(lat, lng),
    {
        self.lemma_lat_order(0, self.rows);
        self.lemma_lng_order(0, self.cols);
        let r = self.find_row(lat, self.rows);
        let c = self.find_col(lng, self.cols);
        self.lemma_lat_order(0, r);
        self.lemma_lat_order(r + 1, self.rows);
        self.lemma_lng_order(0, c);
        self.lemma_lng_order(c + 1, self.cols);
        let k = r * self.cols + c;
        let cols = self.cols;
        let rows = self.rows;
        assert(0 <= k < rows * cols) by (nonlinear_arith)
            requires
                k == r * cols + c,
                0 <= r < rows,
                0 <= c < cols,
        ;
        vstd::arithmetic::div_mod::lemma_fundamental_div_mod_converse(k, cols, r, c);
        assert(self.cell(r, c).valid());
        let t = self.lemma_cell_is_tile(k as nat, (rows * cols) as nat);
        assert(self.all()[t].covers(lat, lng));
    }

    /// Nothing outside: a point in a tile lies in the box.
    pub proof fn law_tiles_stay_inside(self, t: int, lat: F64, lng: F64)
        requires
            self.valid(),
            0 <= t < self.all().len(),
            self.all()[t].covers(lat, lng),
        ensures
            self.edges.covers(lat, lng),
    {
        let n = (self.rows * self.cols) as nat;
        let k = self.lemma_tile_is_cell(n, t);
        self.lemma_cell_place(k);
        let r = k as int / self.cols;
        let c = k as int % self.cols;
        self.lemma_lat_order(0, r);
        self.lemma_lat_order(r + 1, self.rows);
        self.lemma_lng_order(0, c);
        self.lemma_lng_order(c + 1, self.cols);
    }

    /// No overlaps: a point inside a tile lies in no other, not on its edge either.
    pub proof fn law_tiles_do_not_overlap(self, s: int, t: int, lat: F64, lng: F64)
        requires
            self.valid(),
            0 <= s < self.all().len(),
            0 <= t < self.all().len(),
            s != t,
            self.all()[s].encloses(lat, lng),
        ensures
            !self.all()[t].covers(lat, lng),
    {
        let n = (self.rows * self.cols) as nat;
        let (i, j) = if s < t {
            self.lemma_tiles_are_cells(n, s, t)
        } else {
            self.lemma_tiles_are_cells(n, t, s)
        };
        self.lemma_cell_place(i);
        self.lemma_cell_place(j);
        let (r, c) = (i as int / self.cols, i as int % self.cols);
        let (q, d) = (j as int / self.cols, j as int % self.cols);
        let cols = self.cols;
        // A later cell lies in a later row, or later in the same one.
        assert(r < q || (r == q && c < d)) by (nonlinear_arith)
            requires
                i == r * cols + c,
                j == q * cols + d,
                i < j,
                0 <= c < cols,
                0 <= d < cols,
        ;
        if r < q {
            self.lemma_lat_order(r + 1, q);
        } else {
            self.lemma_lng_order(c + 1, d);
        }
    }
}

/// No tile has its middle nearer to the equator than the widest row of tiles.
pub proof fn law_no_tile_is_wider_than_the_widest_row(
    edges: Edges,
    max_area: F64,
    cos_mid: F64,
    cos_widest: F64,
    t: int,
)
    requires
        edges.valid(),
        0 <= t < Grid::of(edges, max_area, cos_mid, cos_widest).all().len(),
    ensures
        edges.widest(max_area).unsigned().at_most(
            Grid::of(edges, max_area, cos_mid, cos_widest).all()[t].middle().unsigned(),
        ),
{
    let grid = Grid::of(edges, max_area, cos_mid, cos_widest);
    let rows = grid.rows;
    let (r, c) = grid.lemma_tile_place(t);
    assert(grid.all()[t].middle() == edges.row_middle(rows, r));
    let k = edges.south_rows(rows, rows as nat);
    lemma_south_rows_place(edges, rows, rows as nat);
    if k > 0 {
        lemma_distance_to_equator(edges, rows, k - 1, r);
    }
    if k < rows {
        lemma_distance_to_equator(edges, rows, k, r);
    }
}

/// The latitude of the widest row is the middle of one of the rows that a box is cut into,
/// and no row has its middle nearer to the equator.
pub proof fn law_widest_row_is_nearest_to_the_equator(
    bbox: LLBBox,
    max_area: F64,
    r: F64,
    q: int,
) -> (row: int)
    requires
        bbox@.valid(),
        call_ensures(LLBBox::widest_lat_radians, (&bbox, max_area), r),
        0 <= q < rows_of(bbox@, max_area),
    ensures
        ({
            let (e, rows) = (bbox@, rows_of(bbox@, max_area));
            let middle = |i: int|
                angle::radians(
                    arith::quotient(
                        arith::sum(
                            cut(e.min_lat, e.max_lat, rows, i),
                            cut(e.min_lat, e.max_lat, rows, i + 1),
                        ),
                        cast::of_integer(2),
                    ),
                );
            &&& 0 <= row < rows
            &&& r == middle(row)
            &&& r.unsigned().at_most(middle(q).unsigned())
        }),
{
    let e = bbox@;
    let rows = rows_of(e, max_area);
    let k = e.south_rows(rows, rows as nat);
    lemma_south_rows_place(e, rows, rows as nat);
    if k > 0 {
        lemma_distance_to_equator(e, rows, k - 1, q);
    }
    if k < rows {
        lemma_distance_to_equator(e, rows, k, q);
    }
    e.widest_row(rows)
}

/// What the count of the rows south of the equator says of the rows.
proof fn lemma_south_rows_place(edges: Edges, rows: int, n: nat)
    ensures
        ({
            let k = edges.south_rows(rows, n);
            &&& 0 <= k <= n
            &&& k > 0 ==> edges.row_middle(rows, k - 1).below(cast::of_integer(0))
            &&& forall|r: int|
                k <= r < n ==> !(#[trigger] edges.row_middle(rows, r)).below(cast::of_integer(0))
        }),
    decreases n,
{
    if n > 0 && !edges.row_middle(rows, n - 1).below(cast::of_integer(0)) {
        lemma_south_rows_place(edges, rows, (n - 1) as nat);
    }
}

/// Rows on one side of the equator are the farther from it the farther they go.
proof fn lemma_distance_to_equator(edges: Edges, rows: int, q: int, r: int)
    requires
        edges.valid(),
        1 <= rows <= usize::MAX,
        0 <= q < rows,
        0 <= r < rows,
    ensures
        ({
            let zero = cast::of_integer(0);
            let (a, b) = (edges.row_middle(rows, q), edges.row_middle(rows, r));
            &&& !a.nan() && !b.nan()
            &&& !a.unsigned().nan() && !b.unsigned().nan()
            &&& a.below(zero) && r <= q ==> a.unsigned().at_most(b.unsigned())
            &&& !a.below(zero) && q <= r ==> a.unsigned().at_most(b.unsigned())
        }),
{
    let (a, b) = (edges.row_middle(rows, q), edges.row_middle(rows, r));
    if q <= r {
        lemma_middles_in_order(edges, rows, q, r);
    } else {
        lemma_middles_in_order(edges, rows, r, q);
    }
    arith::lemma_nearest_zero(1);
    assert(0 * cast::one() == 0);
    laws::lemma_signed(false, 0);
    assert(binary64::scale(0) == 0);
    laws::lemma_made_of_parts(a);
    laws::lemma_made_of_parts(b);
    laws::lemma_signed(false, a.magnitude());
    laws::lemma_signed(false, b.magnitude());
}

/// The grid that a box is cut into is a valid one, whatever the sizes.
pub proof fn law_grid_of_a_box_is_valid(
    edges: Edges,
    max_area: F64,
    cos_mid: F64,
    cos_widest: F64,
)
    requires
        edges.valid(),
    ensures
        Grid::of(edges, max_area, cos_mid, cos_widest).valid(),
        Grid::of(edges, max_area, cos_mid, cos_widest).edges == edges,
{
}

} // verus!
