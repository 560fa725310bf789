//! Cutting a world into chunks.

use vstd::prelude::*;
use vstd::arithmetic::div_mod::*;
use vstd::arithmetic::mul::*;

verus! {

/// The blocks along a side of a region.
pub const REGION_BLOCKS: i32 = 512;

/// One chunk: the regions it owns and the blocks it generates.
#[derive(Clone, Copy, Debug, PartialEq, Eq)]
pub struct ChunkPlan {
    pub index: usize,
    /// The owned regions, from the first to the one behind the last.
    pub region_x: (i32, i32),
    pub region_z: (i32, i32),
    /// The generated blocks, those of the owned regions and of the margin: from the
    /// first to the one behind the last. The first are the chunk's origin in the
    /// world.
    pub block_x: (i32, i32),
    pub block_z: (i32, i32),
}

pub open spec fn smaller(a: int, b: int) -> int {
    if b < a { b } else { a }
}

pub open spec fn larger(a: int, b: int) -> int {
    if a < b { b } else { a }
}

/// One axis of a world that spans the blocks from zero to `last`, cut into chunks
/// of `side` regions that are generated with `margin` regions around them.
pub struct Axis {
    pub last: int,
    pub side: int,
    pub margin: int,
}

impl Axis {
    /// How many regions hold the blocks.
    pub open spec fn regions(self) -> int {
        self.last / REGION_BLOCKS as int + 1
    }

    /// How many chunks it takes to cover the regions.
    pub open spec fn chunks(self) -> int {
        (self.regions() + self.side - 1) / self.side
    }

    /// The first region that chunk `k` owns.
    pub open spec fn start(self, k: int) -> int {
        k * self.side
    }

    /// The region behind the last that chunk `k` owns.
    pub open spec fn stop(self, k: int) -> int {
        smaller((k + 1) * self.side, self.regions())
    }

    /// The first block that chunk `k` generates.
    pub open spec fn first_block(self, k: int) -> int {
        larger(self.start(k) - self.margin, 0) * REGION_BLOCKS
    }

    /// The block behind the last that chunk `k` generates.
    pub open spec fn end_block(self, k: int) -> int {
        smaller((self.stop(k) + self.margin) * REGION_BLOCKS, self.last + 1)
    }

    /// The world does not end before it starts, chunks own something, and block
    /// numbers fit in an integer, out to the margin.
    pub open spec fn valid(self) -> bool {
        &&& 0 <= self.last
        &&& 1 <= self.side
        &&& (self.regions() + larger(self.margin, -self.margin)) * REGION_BLOCKS <= i32::MAX
    }
}

/// A world cut into chunks along both axes.
pub struct World {
    pub x: Axis,
    pub z: Axis,
}

impl World {
    /// The world that spans the blocks from zero to `max_x` and `max_z`.
    pub open spec fn of(max_x: i32, max_z: i32, side: i32, margin: i32) -> World {
        World {
            x: Axis { last: max_x as int, side: side as int, margin: margin as int },
            z: Axis { last: max_z as int, side: side as int, margin: margin as int },
        }
    }

    pub open spec fn valid(self) -> bool {
        self.x.valid() && self.z.valid()
    }

    /// How many chunks there are.
    pub open spec fn chunks(self) -> int {
        self.z.chunks() * self.x.chunks()
    }

    /// The chunk with the given number. They go from west to east, and row by row
    /// from north to south.
    pub open spec fn chunk(self, index: int) -> ChunkPlan {
        let (i, k) = (index % self.x.chunks(), index / self.x.chunks());
        ChunkPlan {
            index: index as usize,
            region_x: (self.x.start(i) as i32, self.x.stop(i) as i32),
            region_z: (self.z.start(k) as i32, self.z.stop(k) as i32),
            block_x: (self.x.first_block(i) as i32, self.x.end_block(i) as i32),
            block_z: (self.z.first_block(k) as i32, self.z.end_block(k) as i32),
        }
    }

    /// All chunks.
    pub open spec fn plans(self) -> Seq<ChunkPlan> {
        Seq::new(self.chunks() as nat, |i: int| self.chunk(i))
    }
}

impl ChunkPlan {
    /// Whether the chunk owns the region at `rx` and `rz`.
    pub open spec fn owner_of(self, rx: int, rz: int) -> bool {
        self.region_x.0 <= rx < self.region_x.1 && self.region_z.0 <= rz < self.region_z.1
    }

    /// Whether the chunk owns the region at `rx` and `rz`.
    pub fn owns(&self, rx: i32, rz: i32) -> (r: bool)
        ensures
            r == self.owner_of(rx as int, rz as int),
    {
        self.region_x.0 <= rx && rx < self.region_x.1 && self.region_z.0 <= rz && rz
            < self.region_z.1
    }
}

impl Axis {
    /// What is known of a region number that a chunk starts at.
    proof fn lemma_start(self, k: int)
        requires
            self.valid(),
            0 <= k,
        ensures
            self.regions() >= 1,
            self.regions() <= 4_194_303,
            self.chunks() >= 1,
            self.start(k) < self.regions() <==> k < self.chunks(),
            0 <= self.start(k),
            self.start(k + 1) == self.start(k) + self.side,
            self.start(0) == 0,
            k + 1 < self.chunks() ==> self.stop(k) == self.start(k + 1),
            k + 1 == self.chunks() ==> self.stop(k) == self.regions(),
            self.chunks() <= self.regions(),
            0 < k < self.chunks() ==> self.side < self.regions(),
    {
        let n = self.regions();
        let s = self.side;
        lemma_div_pos_is_pos(self.last, REGION_BLOCKS as int);
        let c = self.chunks();
        lemma_fundamental_div_mod(n + s - 1, s);
        assert((k + 1) * s == k * s + s) by (nonlinear_arith);
        assert(0 <= k * s) by (nonlinear_arith)
            requires
                0 <= k,
                1 <= s,
        ;
        assert(0 * s == 0);
        if 0 < k {
            assert(k * s >= s) by (nonlinear_arith)
                requires
                    1 <= k,
                    1 <= s,
            ;
        }
        assert(s * c == c * s) by (nonlinear_arith);
        if k < c {
            assert((k + 1) * s <= c * s) by (nonlinear_arith)
                requires
                    k + 1 <= c,
                    1 <= s,
            ;
        } else {
            assert(k * s >= c * s) by (nonlinear_arith)
                requires
                    k >= c,
                    1 <= s,
            ;
        }
        if k + 1 < c {
            assert((k + 1 + 1) * s <= c * s) by (nonlinear_arith)
                requires
                    k + 2 <= c,
                    1 <= s,
            ;
            assert((k + 1 + 1) * s == (k + 1) * s + s) by (nonlinear_arith);
        }
        assert(c >= 1) by {
            if c <= 0 {
                assert(c * s <= 0) by (nonlinear_arith)
                    requires
                        c <= 0,
                        1 <= s,
                ;
            }
        }
        assert(c <= n) by {
            if c > n {
                assert(c * s >= (n + 1) * s) by (nonlinear_arith)
                    requires
                        c >= n + 1,
                        1 <= s,
                ;
                assert((n + 1) * s == n * s + s) by (nonlinear_arith);
                assert(n * s >= n) by (nonlinear_arith)
                    requires
                        n >= 1,
                        s >= 1,
                ;
            }
        }
    }
}

/// Cuts a world that spans the blocks from zero to `max_x` and `max_z` into
/// chunks that own `chunk_regions` by `chunk_regions` regions. Each is generated
/// with `margin_regions` more on every side, where the world has them.
pub fn plan_chunks(max_x: i32, max_z: i32, chunk_regions: i32, margin_regions: i32) -> (r: Vec<
    ChunkPlan,
>)
    requires
        World::of(max_x, max_z, chunk_regions, margin_regions).valid(),
    ensures
        r@ == World::of(max_x, max_z, chunk_regions, margin_regions).plans(),
{
    let ghost w = World::of(max_x, max_z, chunk_regions, margin_regions);
    let regions_x: i32 = max_x / REGION_BLOCKS + 1;
    let regions_z: i32 = max_z / REGION_BLOCKS + 1;
    let mut plans: Vec<ChunkPlan> = Vec::new();
    let mut rz: i32 = 0;
    let ghost mut k: int = 0;
    proof {
        w.z.lemma_start(0);
        w.x.lemma_start(0);
        assert(0 * w.x.chunks() == 0);
    }
    while rz < regions_z
        invariant
            w == World::of(max_x, max_z, chunk_regions, margin_regions),
            w.valid(),
            regions_x == w.x.regions(),
            regions_z == w.z.regions(),
            regions_x <= 4_194_303,
            regions_z <= 4_194_303,
            0 <= k <= w.z.chunks(),
            k < w.z.chunks() ==> rz == w.z.start(k),
            k == w.z.chunks() ==> rz == regions_z,
            plans@.len() == k * w.x.chunks(),
            forall|j: int| 0 <= j < plans@.len() ==> plans@[j] == w.chunk(j),
        decreases regions_z - rz,
    {
        proof {
            w.z.lemma_start(k);
            w.x.lemma_start(0);
        }
        let rz_end: i32 = if rz + chunk_regions < regions_z {
            rz + chunk_regions
        } else {
            regions_z
        };
        let mut rx: i32 = 0;
        let ghost mut i: int = 0;
        while rx < regions_x
            invariant
                w == World::of(max_x, max_z, chunk_regions, margin_regions),
                w.valid(),
                regions_x == w.x.regions(),
                regions_z == w.z.regions(),
                regions_x <= 4_194_303,
                regions_z <= 4_194_303,
                0 <= k < w.z.chunks(),
                rz == w.z.start(k),
                rz_end == w.z.stop(k),
                0 <= i <= w.x.chunks(),
                i < w.x.chunks() ==> rx == w.x.start(i),
                i == w.x.chunks() ==> rx == regions_x,
                plans@.len() == k * w.x.chunks() + i,
                forall|j: int| 0 <= j < plans@.len() ==> plans@[j] == w.chunk(j),
            decreases regions_x - rx,
        {
            proof {
                w.z.lemma_start(k);
                w.x.lemma_start(i);
            }
            let rx_end: i32 = if rx + chunk_regions < regions_x {
                rx + chunk_regions
            } else {
                regions_x
            };
            let bx0: i32 = (if rx - margin_regions < 0 {
                0
            } else {
                rx - margin_regions
            }) * REGION_BLOCKS;
            let bz0: i32 = (if rz - margin_regions < 0 {
                0
            } else {
                rz - margin_regions
            }) * REGION_BLOCKS;
            let ex: i32 = (rx_end + margin_regions) * REGION_BLOCKS;
            let ez: i32 = (rz_end + margin_regions) * REGION_BLOCKS;
            let bx1: i32 = if ex <= max_x { ex } else { max_x + 1 };
            let bz1: i32 = if ez <= max_z { ez } else { max_z + 1 };
            let index: usize = plans.len();
            proof {
                let c = w.x.chunks();
                lemma_mul_is_commutative(k, c);
                lemma_fundamental_div_mod_converse(index as int, c, k, i);
            }
            plans.push(
                ChunkPlan {
                    index,
                    region_x: (rx, rx_end),
                    region_z: (rz, rz_end),
                    block_x: (bx0, bx1),
                    block_z: (bz0, bz1),
                },
            );
            assert(plans@[index as int] == w.chunk(index as int));
            rx = rx_end;
            proof {
                i = i + 1;
            }
        }
        rz = rz_end;
        proof {
            w.x.lemma_start(i);
            let c = w.x.chunks();
            assert((k + 1) * c == k * c + c) by (nonlinear_arith);
            k = k + 1;
        }
    }
    proof {
        w.z.lemma_start(k);
    }
    assert(plans@ =~= w.plans());
    plans
}

impl Axis {
    /// What is known of the numbers of chunk `k`: they all fit in an integer.
    proof fn lemma_chunk(self, k: int)
        requires
            self.valid(),
            0 <= k < self.chunks(),
        ensures
            0 <= self.start(k) < self.stop(k) <= self.regions() <= 4_194_303,
            0 <= self.first_block(k) <= i32::MAX,
            i32::MIN <= self.end_block(k) <= i32::MAX,
    {
        self.lemma_start(k);
    }

    /// The chunk that owns region `r`.
    proof fn lemma_owner(self, r: int)
        requires
            self.valid(),
            0 <= r < self.regions(),
        ensures
            0 <= r / self.side < self.chunks(),
            self.start(r / self.side) <= r < self.stop(r / self.side),
    {
        let k = r / self.side;
        lemma_fundamental_div_mod(r, self.side);
        lemma_div_pos_is_pos(r, self.side);
        lemma_mul_is_commutative(self.side, k);
        assert((k + 1) * self.side == k * self.side + self.side) by (nonlinear_arith);
        self.lemma_start(k);
    }

    /// No other chunk owns region `r`.
    proof fn lemma_only_owner(self, r: int, k: int)
        requires
            self.valid(),
            0 <= k < self.chunks(),
            self.start(k) <= r < self.stop(k),
        ensures
            k == r / self.side,
    {
        self.lemma_start(k);
        lemma_fundamental_div_mod_converse(r, self.side, k, r - self.start(k));
    }
}

impl World {
    /// The numbers of a chunk are those of its place along each axis.
    proof fn lemma_chunk(self, index: int)
        requires
            self.valid(),
            0 <= index < self.chunks(),
            self.chunks() <= usize::MAX,
        ensures
            ({
                let (i, k) = (index % self.x.chunks(), index / self.x.chunks());
                let p = self.chunk(index);
                &&& 0 <= i < self.x.chunks()
                &&& 0 <= k < self.z.chunks()
                &&& p.index == index
                &&& p.region_x.0 == self.x.start(i) && p.region_x.1 == self.x.stop(i)
                &&& p.region_z.0 == self.z.start(k) && p.region_z.1 == self.z.stop(k)
                &&& p.block_x.0 == self.x.first_block(i) && p.block_x.1 == self.x.end_block(i)
                &&& p.block_z.0 == self.z.first_block(k) && p.block_z.1 == self.z.end_block(k)
            }),
    {
        let c = self.x.chunks();
        let (i, k) = (index % c, index / c);
        self.x.lemma_start(0);
        self.z.lemma_start(0);
        lemma_fundamental_div_mod(index, c);
        lemma_div_pos_is_pos(index, c);
        if k >= self.z.chunks() {
            assert(c * k >= self.z.chunks() * c) by (nonlinear_arith)
                requires
                    k >= self.z.chunks(),
                    c >= 1,
            ;
        }
        self.x.lemma_chunk(i);
        self.z.lemma_chunk(k);
    }

    /// Every region of the world has one owner among the chunks, and only one.
    pub proof fn law_each_region_is_owned_once(self, rx: int, rz: int)
        requires
            self.valid(),
            self.chunks() <= usize::MAX,
            0 <= rx < self.x.regions(),
            0 <= rz < self.z.regions(),
        ensures
            ({
                let plans = self.plans();
                exists|i: int|
                    0 <= i < plans.len() && (#[trigger] plans[i]).owner_of(rx, rz) && forall|j: int|
                        0 <= j < plans.len() && (#[trigger] plans[j]).owner_of(rx, rz) ==> j == i
            }),
    {
        let plans = self.plans();
        let c = self.x.chunks();
        let (i, k) = (rx / self.x.side, rz / self.z.side);
        self.x.lemma_owner(rx);
        self.z.lemma_owner(rz);
        let n = k * c + i;
        lemma_mul_is_commutative(k, c);
        lemma_fundamental_div_mod_converse(n, c, k, i);
        assert(0 <= n < self.z.chunks() * c) by (nonlinear_arith)
            requires
                n == k * c + i,
                0 <= i < c,
                0 <= k < self.z.chunks(),
        ;
        self.lemma_chunk(n);
        assert(plans[n].owner_of(rx, rz));
        assert forall|j: int|
            0 <= j < plans.len() && (#[trigger] plans[j]).owner_of(rx, rz) implies j == n by {
            self.lemma_chunk(j);
            self.x.lemma_only_owner(rx, j % c);
            self.z.lemma_only_owner(rz, j / c);
            lemma_fundamental_div_mod(j, c);
        }
    }

    /// A chunk owns regions of the world, at least one, and no others.
    pub proof fn law_owned_regions_are_of_the_world(self, index: int)
        requires
            self.valid(),
            0 <= index < self.chunks() <= usize::MAX,
        ensures
            ({
                let p = self.plans()[index];
                &&& 0 <= p.region_x.0 < p.region_x.1 <= self.x.regions()
                &&& 0 <= p.region_z.0 < p.region_z.1 <= self.z.regions()
            }),
    {
        self.lemma_chunk(index);
        self.x.lemma_chunk(index % self.x.chunks());
        self.z.lemma_chunk(index / self.x.chunks());
    }

    /// A chunk starts where a region starts.
    pub proof fn law_chunks_start_with_a_region(self, index: int)
        requires
            self.valid(),
            0 <= index < self.chunks() <= usize::MAX,
        ensures
            ({
                let p = self.plans()[index];
                p.block_x.0 >= 0 && p.block_z.0 >= 0 && p.block_x.0 as int % 512 == 0
                    && p.block_z.0 as int % 512 == 0
            }),
    {
        self.lemma_chunk(index);
        self.x.lemma_chunk(index % self.x.chunks());
        self.z.lemma_chunk(index / self.x.chunks());
    }

    /// A chunk starts in the world.
    pub proof fn law_chunks_start_in_the_world(self, index: int)
        requires
            self.valid(),
            self.x.margin >= 0 && self.z.margin >= 0,
            0 <= index < self.chunks() <= usize::MAX,
        ensures
            self.plans()[index].block_x.0 <= self.x.last,
            self.plans()[index].block_z.0 <= self.z.last,
    {
        self.lemma_chunk(index);
        self.x.lemma_chunk(index % self.x.chunks());
        self.z.lemma_chunk(index / self.x.chunks());
    }

    /// A chunk generates something, and starts before the last block of the world:
    /// always with a margin, and without one unless the last block starts a region.
    pub proof fn law_chunks_have_extent(self, index: int)
        requires
            self.valid(),
            self.x.margin >= 0 && self.z.margin >= 0,
            self.x.last >= 1 && self.z.last >= 1,
            self.x.margin >= 1 || self.x.last % 512 != 0,
            self.z.margin >= 1 || self.z.last % 512 != 0,
            0 <= index < self.chunks() <= usize::MAX,
        ensures
            ({
                let p = self.plans()[index];
                &&& 0 <= p.block_x.0 < p.block_x.1 && p.block_x.0 < self.x.last
                &&& 0 <= p.block_z.0 < p.block_z.1 && p.block_z.0 < self.z.last
            }),
    {
        self.lemma_chunk(index);
        self.x.lemma_chunk(index % self.x.chunks());
        self.z.lemma_chunk(index / self.x.chunks());
    }

    /// What a chunk generates holds the blocks of the regions that it owns and of
    /// those within the margin around them, as far as the world has them.
    pub proof fn law_owned_blocks_and_margin_are_generated(
        self,
        index: int,
        rx: int,
        rz: int,
        x: int,
        z: int,
    )
        requires
            self.valid(),
            self.x.margin >= 0 && self.z.margin >= 0,
            0 <= index < self.chunks() <= usize::MAX,
            self.plans()[index].owner_of(rx, rz),
            0 <= x <= self.x.last,
            0 <= z <= self.z.last,
            rx - self.x.margin <= x / 512 <= rx + self.x.margin,
            rz - self.z.margin <= z / 512 <= rz + self.z.margin,
        ensures
            ({
                let p = self.plans()[index];
                p.block_x.0 <= x < p.block_x.1 && p.block_z.0 <= z < p.block_z.1
            }),
    {
        self.lemma_chunk(index);
        self.x.lemma_chunk(index % self.x.chunks());
        self.z.lemma_chunk(index / self.x.chunks());
    }

    /// The first chunk starts where the world does.
    pub proof fn law_first_chunk_starts_the_world(self)
        requires
            self.valid(),
            self.x.margin >= 0 && self.z.margin >= 0,
            self.chunks() <= usize::MAX,
        ensures
            self.plans().len() > 0,
            self.plans()[0].block_x.0 == 0,
            self.plans()[0].block_z.0 == 0,
    {
        self.x.lemma_start(0);
        self.z.lemma_start(0);
        let c = self.x.chunks();
        assert(self.z.chunks() * c >= 1) by (nonlinear_arith)
            requires
                self.z.chunks() >= 1,
                c >= 1,
        ;
        lemma_small_mod(0, c as nat);
        lemma_basic_div(0, c);
        self.lemma_chunk(0);
    }

    /// Each chunk carries its place among the chunks as its number.
    pub proof fn law_chunks_are_numbered(self, index: int)
        requires
            self.valid(),
            0 <= index < self.chunks() <= usize::MAX,
        ensures
            self.plans()[index].index == index,
    {
        self.lemma_chunk(index);
    }
}

/// Whether a world of the blocks from zero to `max_x` and `max_z` can be cut into chunks
/// of `side` regions with a margin of `margin`: there are blocks, and their numbers fit
/// in an integer, out to the margin.
pub open spec fn can_be_planned(max_x: i32, max_z: i32, side: i32, margin: i32) -> bool {
    &&& 0 <= max_x && 0 <= max_z && 1 <= side && 0 <= margin
    &&& (max_x / 512 + 1 + margin) * 512 <= i32::MAX
    &&& (max_z / 512 + 1 + margin) * 512 <= i32::MAX
}

/// A chunk generates the blocks of the regions that it owns and of the margin around
/// them, as far as the world has them, and no others.
pub proof fn law_chunks_generate_no_more_than_their_margin(
    max_x: i32,
    max_z: i32,
    side: i32,
    margin: i32,
    index: int,
    b: int,
)
    requires
        can_be_planned(max_x, max_z, side, margin),
        0 <= index < World::of(max_x, max_z, side, margin).plans().len() <= usize::MAX,
    ensures
        ({
            let p = World::of(max_x, max_z, side, margin).plans()[index];
            &&& (p.block_x.0 <= b < p.block_x.1) <==> (0 <= b <= max_x && p.region_x.0 - margin <= b
                / 512 < p.region_x.1 + margin)
            &&& (p.block_z.0 <= b < p.block_z.1) <==> (0 <= b <= max_z && p.region_z.0 - margin <= b
                / 512 < p.region_z.1 + margin)
        }),
{
    let w = World::of(max_x, max_z, side, margin);
    w.x.lemma_start(0);
    w.z.lemma_start(0);
    lemma_count_is_positive(w);
    w.lemma_chunk(index);
    w.x.lemma_chunk(index % w.x.chunks());
    w.z.lemma_chunk(index / w.x.chunks());
}

proof fn lemma_count_is_positive(w: World)
    requires
        w.valid(),
    ensures
        w.chunks() >= 1,
        w.plans().len() == w.chunks(),
{
    w.x.lemma_start(0);
    w.z.lemma_start(0);
    let (a, b) = (w.z.chunks(), w.x.chunks());
    assert(a * b >= 1) by (nonlinear_arith)
        requires
            a >= 1,
            b >= 1,
    ;
}

/// Chunks own squares of `side` by `side` regions, which start at multiples of `side`;
/// only at the end of the world they are cut off. A world has as many as cover it, and
/// they are numbered from west to east, and row by row from north to south.
pub proof fn law_chunks_own_squares(max_x: i32, max_z: i32, side: i32, margin: i32, index: int)
    requires
        can_be_planned(max_x, max_z, side, margin),
        World::of(max_x, max_z, side, margin).plans().len() <= usize::MAX,
    ensures
        ({
            let plans = World::of(max_x, max_z, side, margin).plans();
            let (rows, cols) = (max_z as int / 512 / side as int + 1, max_x as int / 512
                / side as int + 1);
            &&& plans.len() == rows * cols
            &&& 0 <= index < plans.len() ==> {
                let p = plans[index];
                &&& p.index == index
                &&& 0 <= p.region_x.0 < p.region_x.1 <= max_x / 512 + 1
                &&& 0 <= p.region_z.0 < p.region_z.1 <= max_z / 512 + 1
                &&& p.region_x.0 == (index % cols) * side
                &&& p.region_z.0 == (index / cols) * side
                &&& p.region_x.1 == p.region_x.0 + side || (p.region_x.1 == max_x / 512 + 1
                    && p.region_x.1 < p.region_x.0 + side)
                &&& p.region_z.1 == p.region_z.0 + side || (p.region_z.1 == max_z / 512 + 1
                    && p.region_z.1 < p.region_z.0 + side)
            }
        }),
{
    let w = World::of(max_x, max_z, side, margin);
    lemma_count_is_positive(w);
    lemma_chunks_along(w.x);
    lemma_chunks_along(w.z);
    if 0 <= index < w.plans().len() {
        w.lemma_chunk(index);
        w.x.lemma_start(index % w.x.chunks());
        w.z.lemma_start(index / w.x.chunks());
    }
}

/// The chunks along an axis, counted another way.
proof fn lemma_chunks_along(a: Axis)
    requires
        a.valid(),
    ensures
        a.chunks() == a.last / 512 / a.side + 1,
{
    let n = a.last / 512;
    lemma_div_pos_is_pos(a.last, 512);
    assert(a.regions() + a.side - 1 == n + a.side);
    lemma_div_plus_one(n, a.side);
}

/// The regions and the blocks of a chunk are fixed by its number: the chunk that follows
/// another in its row owns the regions that follow, and the first of a row those of the
/// next row.
pub proof fn law_chunks_follow_each_other(
    max_x: i32,
    max_z: i32,
    side: i32,
    margin: i32,
    index: int,
)
    requires
        can_be_planned(max_x, max_z, side, margin),
        0 <= index < World::of(max_x, max_z, side, margin).plans().len() - 1,
        World::of(max_x, max_z, side, margin).plans().len() <= usize::MAX,
    ensures
        ({
            let plans = World::of(max_x, max_z, side, margin).plans();
            let (p, q) = (plans[index], plans[index + 1]);
            if p.region_x.1 == max_x / 512 + 1 {
                q.region_x.0 == 0 && q.region_z.0 == p.region_z.1
            } else {
                q.region_x.0 == p.region_x.1 && q.region_z == p.region_z && q.block_z == p.block_z
            }
        }),
{
    let w = World::of(max_x, max_z, side, margin);
    lemma_count_is_positive(w);
    let c = w.x.chunks();
    w.lemma_chunk(index);
    w.lemma_chunk(index + 1);
    let (i, k) = (index % c, index / c);
    w.x.lemma_start(i);
    w.z.lemma_start(k);
    w.z.lemma_start(k + 1);
    lemma_fundamental_div_mod(index, c);
    if i + 1 < c {
        assert(c * k == k * c) by (nonlinear_arith);
        lemma_fundamental_div_mod_converse(index + 1, c, k, i + 1);
    } else {
        assert(c * k + c == (k + 1) * c) by (nonlinear_arith);
        lemma_fundamental_div_mod_converse(index + 1, c, k + 1, 0);
    }
    w.x.lemma_start(i + 1);
    w.x.lemma_chunk(i);
}

/// A world is cut into as many chunks as cover it, from west to east and row by row from
/// north to south. A chunk owns a square of `side` by `side` regions, cut off at the end of
/// the world, and generates the blocks of the regions that it owns and of the `margin`
/// regions around them, as far as the world has them, and no others.
pub proof fn law_worlds_are_cut_into_chunks(
    max_x: i32,
    max_z: i32,
    side: i32,
    margin: i32,
    plans: Vec<ChunkPlan>,
    index: int,
    b: int,
)
    requires
        can_be_planned(max_x, max_z, side, margin),
        call_ensures(plan_chunks, (max_x, max_z, side, margin), plans),
    ensures
        ({
            let (rows, cols) = (max_z as int / 512 / side as int + 1, max_x as int / 512
                / side as int + 1);
            &&& plans@.len() == rows * cols
            &&& 0 <= index < plans@.len() ==> {
                let p = plans@[index];
                &&& p.index == index
                &&& p.region_x.0 == (index % cols) * side
                &&& p.region_z.0 == (index / cols) * side
                &&& 0 <= p.region_x.0 < p.region_x.1 <= max_x / 512 + 1
                &&& 0 <= p.region_z.0 < p.region_z.1 <= max_z / 512 + 1
                &&& p.region_x.1 == p.region_x.0 + side || (p.region_x.1 == max_x / 512 + 1
                    && p.region_x.1 < p.region_x.0 + side)
                &&& p.region_z.1 == p.region_z.0 + side || (p.region_z.1 == max_z / 512 + 1
                    && p.region_z.1 < p.region_z.0 + side)
                &&& (p.block_x.0 <= b < p.block_x.1) <==> (0 <= b <= max_x && p.region_x.0 - margin
                    <= b / 512 < p.region_x.1 + margin)
                &&& (p.block_z.0 <= b < p.block_z.1) <==> (0 <= b <= max_z && p.region_z.0 - margin
                    <= b / 512 < p.region_z.1 + margin)
            }
        }),
{
    assert(plans.len() <= usize::MAX);
    law_chunks_own_squares(max_x, max_z, side, margin, index);
    if 0 <= index < plans@.len() {
        law_chunks_generate_no_more_than_their_margin(max_x, max_z, side, margin, index, b);
    }
}

/// A chunk owns a region if and only if the region is in the chunk's range along x and
/// in its range along z.
pub proof fn law_ownership(plan: ChunkPlan, rx: i32, rz: i32, owned: bool)
    requires
        call_ensures(ChunkPlan::owns, (&plan, rx, rz), owned),
    ensures
        owned <==> plan.region_x.0 <= rx && rx < plan.region_x.1 && plan.region_z.0 <= rz && rz
            < plan.region_z.1,
{
}

} // verus!
