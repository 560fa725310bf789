//! The order in which chunks are measured and generated, and what each is given.

use vstd::prelude::*;
use crate::binary64::F64;
use crate::chunked::plan::ChunkPlan;
use crate::chunked::probe;
use crate::chunked::probe::Measurement;

verus! {

/// How far a run has come.
#[derive(Clone, Copy, Debug)]
pub enum Stage {
    /// This many chunks have been measured, and this is what is known of them.
    Measuring(usize, Measurement),
    /// This many chunks have been generated, and the next numbers its maps from
    /// this id.
    Generating(usize, i32),
}

/// What is to be done next.
#[derive(Clone, Copy, Debug)]
pub enum Action {
    /// Measure the terrain of a chunk.
    Measure(ChunkPlan),
    /// Generate a chunk and merge it into the world.
    Generate {
        plan: ChunkPlan,
        map_id_base: i32,
        elevation_range: Option<(F64, F64)>,
        terrain_base: Option<i32>,
    },
    /// All chunks are in the world.
    Finish,
}

/// A run over all chunks.
pub struct Driver {
    plans: Vec<ChunkPlan>,
    first_map_id: i32,
    elevation_range: Option<(F64, F64)>,
    terrain_base: Option<i32>,
    stage: Stage,
}

/// What a run knows.
pub struct Progress {
    pub plans: Seq<ChunkPlan>,
    pub first_map_id: i32,
    pub elevation_range: Option<(F64, F64)>,
    pub terrain_base: Option<i32>,
    pub stage: Stage,
}

impl Progress {
    /// Whether the run has not gone past its chunks.
    pub open spec fn valid(self) -> bool {
        match self.stage {
            Stage::Measuring(n, _) => n < self.plans.len(),
            Stage::Generating(n, _) => n <= self.plans.len(),
        }
    }

    /// A run that has measured everything goes on to generate. What was not given
    /// is then taken from what was measured.
    pub open spec fn settled(self) -> Progress {
        match self.stage {
            Stage::Measuring(n, m) => if n == self.plans.len() {
                Progress {
                    elevation_range: Some(
                        match self.elevation_range {
                            Some(range) => range,
                            None => (m.lo, m.hi),
                        },
                    ),
                    terrain_base: Some(
                        match self.terrain_base {
                            Some(base) => base,
                            None => m.base,
                        },
                    ),
                    stage: Stage::Generating(0, self.first_map_id),
                    ..self
                }
            } else {
                self
            },
            Stage::Generating(_, _) => self,
        }
    }

    /// The start of a run. Chunks are measured only if there is terrain and
    /// something of it is not given.
    pub open spec fn start(
        plans: Seq<ChunkPlan>,
        first_map_id: i32,
        elevation_range: Option<(F64, F64)>,
        terrain_base: Option<i32>,
        terrain: bool,
    ) -> Progress {
        Progress {
            plans,
            first_map_id,
            elevation_range,
            terrain_base,
            stage: if terrain && (elevation_range is None || terrain_base is None) {
                Stage::Measuring(0, Measurement::nothing())
            } else {
                Stage::Generating(0, first_map_id)
            },
        }.settled()
    }

    /// What is to be done next.
    pub open spec fn next(self) -> Action {
        match self.stage {
            Stage::Measuring(n, _) => Action::Measure(self.plans[n as int]),
            Stage::Generating(n, id) => if n < self.plans.len() {
                Action::Generate {
                    plan: self.plans[n as int],
                    map_id_base: id,
                    elevation_range: self.elevation_range,
                    terrain_base: self.terrain_base,
                }
            } else {
                Action::Finish
            },
        }
    }

    /// The run once a chunk's terrain has been measured.
    pub open spec fn measured(self, m: Measurement) -> Progress {
        match self.stage {
            Stage::Measuring(n, before) => (Progress {
                stage: Stage::Measuring((n + 1) as usize, before.joined(m)),
                ..self
            }).settled(),
            Stage::Generating(_, _) => self,
        }
    }

    /// The run once a chunk is in the world, whose next map id is then `id`.
    pub open spec fn generated(self, id: i32) -> Progress {
        match self.stage {
            Stage::Measuring(_, _) => self,
            Stage::Generating(n, _) => Progress {
                stage: Stage::Generating((n + 1) as usize, id),
                ..self
            },
        }
    }

    /// The run once these measurements have come in.
    pub open spec fn measured_all(self, parts: Seq<Measurement>) -> Progress
        decreases parts.len(),
    {
        if parts.len() == 0 {
            self
        } else {
            self.measured_all(parts.drop_last()).measured(parts.last())
        }
    }

    /// The run once chunks have been merged that left the world with these next
    /// map ids.
    pub open spec fn generated_all(self, ids: Seq<i32>) -> Progress
        decreases ids.len(),
    {
        if ids.len() == 0 {
            self
        } else {
            self.generated_all(ids.drop_last()).generated(ids.last())
        }
    }
}

impl View for Driver {
    type V = Progress;

    closed spec fn view(&self) -> Progress {
        Progress {
            plans: self.plans@,
            first_map_id: self.first_map_id,
            elevation_range: self.elevation_range,
            terrain_base: self.terrain_base,
            stage: self.stage,
        }
    }
}

/// Computes `settled`.
fn settle(
    plans: Vec<ChunkPlan>,
    first_map_id: i32,
    elevation_range: Option<(F64, F64)>,
    terrain_base: Option<i32>,
    stage: Stage,
) -> (r: Driver)
    requires
        match stage {
            Stage::Measuring(n, _) => n <= plans@.len(),
            Stage::Generating(n, _) => n <= plans@.len(),
        },
    ensures
        r@ == (Progress {
            plans: plans@,
            first_map_id,
            elevation_range,
            terrain_base,
            stage,
        }).settled(),
{
    match stage {
        Stage::Measuring(n, m) => {
            if n == plans.len() {
                let range: (F64, F64) = match elevation_range {
                    Some(range) => range,
                    None => (m.lo, m.hi),
                };
                let base: i32 = match terrain_base {
                    Some(base) => base,
                    None => m.base,
                };
                return Driver {
                    plans,
                    first_map_id,
                    elevation_range: Some(range),
                    terrain_base: Some(base),
                    stage: Stage::Generating(0, first_map_id),
                };
            }
        },
        Stage::Generating(_, _) => {},
    }
    Driver { plans, first_map_id, elevation_range, terrain_base, stage }
}

impl Driver {
    /// The run has not gone past its chunks.
    #[verifier::type_invariant]
    pub open spec fn valid(self) -> bool {
        self@.valid()
    }

    /// Starts a run over the given chunks. The height range and the terrain base
    /// are measured if there is terrain and one of them is not given. Maps are
    /// numbered from `first_map_id` on.
    pub fn start(
        plans: Vec<ChunkPlan>,
        first_map_id: i32,
        elevation_range: Option<(F64, F64)>,
        terrain_base: Option<i32>,
        terrain: bool,
    ) -> (r: Driver)
        ensures
            r@ == Progress::start(
                plans@,
                first_map_id,
                elevation_range,
                terrain_base,
                terrain,
            ),
    {
        let stage: Stage = if terrain && (elevation_range.is_none() || terrain_base.is_none()) {
            Stage::Measuring(0, Measurement::none())
        } else {
            Stage::Generating(0, first_map_id)
        };
        settle(plans, first_map_id, elevation_range, terrain_base, stage)
    }

    /// What is to be done next.
    pub fn action(&self) -> (r: Action)
        ensures
            r == self@.next(),
            self@.valid(),
    {
        proof {
            use_type_invariant(self);
        }
        match self.stage {
            Stage::Measuring(n, _) => Action::Measure(self.plans[n]),
            Stage::Generating(n, id) => {
                if n < self.plans.len() {
                    Action::Generate {
                        plan: self.plans[n],
                        map_id_base: id,
                        elevation_range: self.elevation_range,
                        terrain_base: self.terrain_base,
                    }
                } else {
                    Action::Finish
                }
            },
        }
    }

    /// Goes on once the chunk that was to be measured has been.
    pub fn measured(self, m: Measurement) -> (r: Driver)
        requires
            self@.next() is Measure,
        ensures
            r@ == self@.measured(m),
    {
        proof {
            use_type_invariant(&self);
        }
        let count: usize = self.plans.len();
        assert(self.plans@.len() == count);
        let stage: Stage = match self.stage {
            Stage::Measuring(n, before) => Stage::Measuring(n + 1, before.join(m)),
            Stage::Generating(n, id) => Stage::Generating(n, id),
        };
        settle(
            self.plans,
            self.first_map_id,
            self.elevation_range,
            self.terrain_base,
            stage,
        )
    }

    /// Goes on once the chunk that was to be generated is in the world, whose next
    /// map id is then `next_map_id`.
    pub fn generated(self, next_map_id: i32) -> (r: Driver)
        requires
            self@.next() is Generate,
        ensures
            r@ == self@.generated(next_map_id),
    {
        proof {
            use_type_invariant(&self);
        }
        let count: usize = self.plans.len();
        assert(self.plans@.len() == count);
        let stage: Stage = match self.stage {
            Stage::Measuring(n, m) => Stage::Measuring(n, m),
            Stage::Generating(n, _) => Stage::Generating(n + 1, next_map_id),
        };
        Driver {
            plans: self.plans,
            first_map_id: self.first_map_id,
            elevation_range: self.elevation_range,
            terrain_base: self.terrain_base,
            stage,
        }
    }
}

/// Chunks are measured one by one and in order.
pub proof fn law_chunks_are_measured_in_order(
    plans: Seq<ChunkPlan>,
    first_map_id: i32,
    elevation_range: Option<(F64, F64)>,
    terrain_base: Option<i32>,
    parts: Seq<Measurement>,
)
    requires
        elevation_range is None || terrain_base is None,
        parts.len() < plans.len() <= usize::MAX,
    ensures
        ({
            let p = Progress::start(plans, first_map_id, elevation_range, terrain_base, true);
            let q = p.measured_all(parts);
            &&& q.next() == Action::Measure(plans[parts.len() as int])
            &&& q == (Progress {
                stage: Stage::Measuring(parts.len() as usize, Measurement::all(parts)),
                plans,
                first_map_id,
                elevation_range,
                terrain_base,
            })
        }),
    decreases parts.len(),
{
    if parts.len() > 0 {
        law_chunks_are_measured_in_order(
            plans,
            first_map_id,
            elevation_range,
            terrain_base,
            parts.drop_last(),
        );
    }
}

/// Once all chunks have been measured, they are generated with what was given, and
/// otherwise with what the measurements say of all chunks together.
pub proof fn law_measurements_are_shared(
    plans: Seq<ChunkPlan>,
    first_map_id: i32,
    elevation_range: Option<(F64, F64)>,
    terrain_base: Option<i32>,
    parts: Seq<Measurement>,
)
    requires
        elevation_range is None || terrain_base is None,
        parts.len() == plans.len(),
        plans.len() <= usize::MAX,
    ensures
        ({
            let p = Progress::start(plans, first_map_id, elevation_range, terrain_base, true);
            let m = Measurement::all(parts);
            p.measured_all(parts) == (Progress {
                plans,
                first_map_id,
                elevation_range: Some(
                    match elevation_range {
                        Some(range) => range,
                        None => (m.lo, m.hi),
                    },
                ),
                terrain_base: Some(
                    match terrain_base {
                        Some(base) => base,
                        None => m.base,
                    },
                ),
                stage: Stage::Generating(0, first_map_id),
            })
        }),
{
    if parts.len() > 0 {
        law_chunks_are_measured_in_order(
            plans,
            first_map_id,
            elevation_range,
            terrain_base,
            parts.drop_last(),
        );
    }
}

/// Chunks are generated one by one and in order, each numbering its maps from
/// where the one before left off, and all with the same height range and terrain
/// base.
pub proof fn law_chunks_are_generated_in_order(p: Progress, ids: Seq<i32>)
    requires
        p.stage == Stage::Generating(0, p.first_map_id),
        ids.len() <= p.plans.len() <= usize::MAX,
    ensures
        ({
            let id = if ids.len() == 0 { p.first_map_id } else { ids.last() };
            let q = p.generated_all(ids);
            &&& q == (Progress { stage: Stage::Generating(ids.len() as usize, id), ..p })
            &&& q.next() == (if ids.len() < p.plans.len() {
                Action::Generate {
                    plan: p.plans[ids.len() as int],
                    map_id_base: id,
                    elevation_range: p.elevation_range,
                    terrain_base: p.terrain_base,
                }
            } else {
                Action::Finish
            })
        }),
    decreases ids.len(),
{
    if ids.len() > 0 {
        law_chunks_are_generated_in_order(p, ids.drop_last());
    }
}

/// Where there is no terrain, or both the height range and the terrain base are given,
/// a run generates at once: the chunks in order, the first with maps from the first id
/// on and each other from where the one before left off, and every one with just the
/// height range and the terrain base that are given.
pub proof fn law_given_terrain_is_used(
    plans: Seq<ChunkPlan>,
    first_map_id: i32,
    elevation_range: Option<(F64, F64)>,
    terrain_base: Option<i32>,
    terrain: bool,
    ids: Seq<i32>,
)
    requires
        !terrain || (elevation_range is Some && terrain_base is Some),
        ids.len() <= plans.len() <= usize::MAX,
    ensures
        Progress::start(
            plans,
            first_map_id,
            elevation_range,
            terrain_base,
            terrain,
        ).generated_all(ids).next() == (if ids.len() == plans.len() {
            Action::Finish
        } else {
            Action::Generate {
                plan: plans[ids.len() as int],
                map_id_base: if ids.len() == 0 { first_map_id } else { ids.last() },
                elevation_range,
                terrain_base,
            }
        }),
{
    let p = Progress::start(plans, first_map_id, elevation_range, terrain_base, terrain);
    law_chunks_are_generated_in_order(p, ids);
}

/// Where there is terrain and the height range or the terrain base is missing, a run
/// measures every chunk in order and then generates them all in order. Each is generated
/// with what was given; what is missing is the lowest of the lowest heights and the
/// highest of the highest, and the highest of the bases.
pub proof fn law_missing_terrain_is_measured(
    plans: Seq<ChunkPlan>,
    first_map_id: i32,
    elevation_range: Option<(F64, F64)>,
    terrain_base: Option<i32>,
    parts: Seq<Measurement>,
    ids: Seq<i32>,
)
    requires
        elevation_range is None || terrain_base is None,
        parts.len() <= plans.len() <= usize::MAX,
        ids.len() <= plans.len(),
        parts.len() < plans.len() ==> ids.len() == 0,
    ensures
        ({
            let p = Progress::start(plans, first_map_id, elevation_range, terrain_base, true);
            let a = p.measured_all(parts).generated_all(ids).next();
            if parts.len() < plans.len() {
                a == Action::Measure(plans[parts.len() as int])
            } else if ids.len() == plans.len() {
                a == Action::Finish
            } else {
                &&& a matches Action::Generate {
                    plan,
                    map_id_base,
                    elevation_range: Some((lo, hi)),
                    terrain_base: Some(base),
                }
                &&& plan == plans[ids.len() as int]
                &&& map_id_base == (if ids.len() == 0 { first_map_id } else { ids.last() })
                &&& elevation_range is Some ==> elevation_range == Some((lo, hi))
                &&& elevation_range is None ==> is_lowest(lo, parts) && is_highest(hi, parts)
                &&& terrain_base is Some ==> terrain_base == Some(base)
                &&& terrain_base is None ==> is_highest_base(base, parts)
            }
        }),
{
    if parts.len() < plans.len() {
        law_chunks_are_measured_in_order(
            plans,
            first_map_id,
            elevation_range,
            terrain_base,
            parts,
        );
    } else {
        law_measurements_are_shared(plans, first_map_id, elevation_range, terrain_base, parts);
        let p = Progress::start(plans, first_map_id, elevation_range, terrain_base, true);
        law_chunks_are_generated_in_order(p.measured_all(parts), ids);
        if parts.len() > 0 {
            probe::lemma_all_is_tight(parts);
        }
    }
}

/// Whether `lo` is the lowest of the lowest heights that are numbers, and one of them.
pub open spec fn is_lowest(lo: F64, parts: Seq<Measurement>) -> bool {
    &&& forall|i: int|
        0 <= i < parts.len() && !(#[trigger] parts[i]).lo.nan() ==> lo.at_most(parts[i].lo)
    &&& (exists|i: int| 0 <= i < parts.len() && (#[trigger] parts[i]).lo == lo) || (forall|i: int|
        0 <= i < parts.len() ==> (#[trigger] parts[i]).lo.nan())
}

/// Whether `hi` is the highest of the highest heights that are numbers, and one of them.
pub open spec fn is_highest(hi: F64, parts: Seq<Measurement>) -> bool {
    &&& forall|i: int|
        0 <= i < parts.len() && !(#[trigger] parts[i]).hi.nan() ==> parts[i].hi.at_most(hi)
    &&& (exists|i: int| 0 <= i < parts.len() && (#[trigger] parts[i]).hi == hi) || (forall|i: int|
        0 <= i < parts.len() ==> (#[trigger] parts[i]).hi.nan())
}

/// Whether `base` is the highest of the bases.
pub open spec fn is_highest_base(base: i32, parts: Seq<Measurement>) -> bool {
    &&& forall|i: int| 0 <= i < parts.len() ==> (#[trigger] parts[i]).base <= base
    &&& exists|i: int| 0 <= i < parts.len() && (#[trigger] parts[i]).base == base
}

/// A run that has gone through some chunks.
proof fn lemma_generated_run(run: Seq<Driver>, ids: Seq<i32>)
    requires
        run.len() == ids.len() + 1,
        forall|k: int|
            0 <= k < ids.len() ==> call_ensures(
                Driver::generated,
                (run[k], #[trigger] ids[k]),
                run[k + 1],
            ),
    ensures
        run.last()@ == run[0]@.generated_all(ids),
    decreases ids.len(),
{
    if ids.len() > 0 {
        let (r, i) = (run.drop_last(), ids.drop_last());
        let n = ids.len() - 1;
        assert forall|k: int| 0 <= k < i.len() implies call_ensures(
            Driver::generated,
            (r[k], #[trigger] i[k]),
            r[k + 1],
        ) by {
            assert(i[k] == ids[k]);
        }
        lemma_generated_run(r, i);
        assert(ids[n] == ids.last());
        assert(run[n] == r.last());
        assert(run.last()@ == run[n]@.generated(ids[n]));
    }
}

/// A run that has measured some chunks.
proof fn lemma_measured_run(run: Seq<Driver>, parts: Seq<Measurement>)
    requires
        run.len() == parts.len() + 1,
        forall|k: int|
            0 <= k < parts.len() ==> call_ensures(
                Driver::measured,
                (run[k], #[trigger] parts[k]),
                run[k + 1],
            ),
    ensures
        run.last()@ == run[0]@.measured_all(parts),
    decreases parts.len(),
{
    if parts.len() > 0 {
        let (r, i) = (run.drop_last(), parts.drop_last());
        let n = parts.len() - 1;
        assert forall|k: int| 0 <= k < i.len() implies call_ensures(
            Driver::measured,
            (r[k], #[trigger] i[k]),
            r[k + 1],
        ) by {
            assert(i[k] == parts[k]);
        }
        lemma_measured_run(r, i);
        assert(parts[n] == parts.last());
        assert(run[n] == r.last());
        assert(run.last()@ == run[n]@.measured(parts[n]));
    }
}

/// A run that was started without terrain, or with both the height range and the terrain
/// base, and was told of each chunk that was generated: it asks for the next chunk in
/// order, the first with maps from the first id on and each other from where the one
/// before left off, and every one with just the height range and the terrain base that
/// were given. After the last it finishes.
pub proof fn law_runs_use_what_is_given(
    plans: Vec<ChunkPlan>,
    first_map_id: i32,
    elevation_range: Option<(F64, F64)>,
    terrain_base: Option<i32>,
    terrain: bool,
    run: Seq<Driver>,
    ids: Seq<i32>,
    action: Action,
)
    requires
        !terrain || (elevation_range is Some && terrain_base is Some),
        ids.len() <= plans@.len(),
        run.len() == ids.len() + 1,
        call_ensures(
            Driver::start,
            (plans, first_map_id, elevation_range, terrain_base, terrain),
            run[0],
        ),
        forall|k: int|
            0 <= k < ids.len() ==> call_ensures(
                Driver::generated,
                (run[k], #[trigger] ids[k]),
                run[k + 1],
            ),
        call_ensures(Driver::action, (&run.last(),), action),
    ensures
        action == (if ids.len() == plans@.len() {
            Action::Finish
        } else {
            Action::Generate {
                plan: plans@[ids.len() as int],
                map_id_base: if ids.len() == 0 { first_map_id } else { ids.last() },
                elevation_range,
                terrain_base,
            }
        }),
{
    assert(plans.len() <= usize::MAX);
    lemma_generated_run(run, ids);
    law_given_terrain_is_used(
        plans@,
        first_map_id,
        elevation_range,
        terrain_base,
        terrain,
        ids,
    );
}

/// A run that was started with terrain and without the height range or without the
/// terrain base, was told of each measurement and then of each chunk that was generated:
/// it asks for every chunk to be measured, in order, and then to be generated, in order,
/// with what was given and otherwise with what spans all measurements and no more.
pub proof fn law_runs_measure_what_is_missing(
    plans: Vec<ChunkPlan>,
    first_map_id: i32,
    elevation_range: Option<(F64, F64)>,
    terrain_base: Option<i32>,
    measuring: Seq<Driver>,
    parts: Seq<Measurement>,
    run: Seq<Driver>,
    ids: Seq<i32>,
    action: Action,
)
    requires
        elevation_range is None || terrain_base is None,
        parts.len() <= plans@.len(),
        ids.len() <= plans@.len(),
        parts.len() < plans@.len() ==> ids.len() == 0,
        measuring.len() == parts.len() + 1,
        run.len() == ids.len() + 1,
        call_ensures(
            Driver::start,
            (plans, first_map_id, elevation_range, terrain_base, true),
            measuring[0],
        ),
        forall|k: int|
            0 <= k < parts.len() ==> call_ensures(
                Driver::measured,
                (measuring[k], #[trigger] parts[k]),
                measuring[k + 1],
            ),
        run[0] == measuring.last(),
        forall|k: int|
            0 <= k < ids.len() ==> call_ensures(
                Driver::generated,
                (run[k], #[trigger] ids[k]),
                run[k + 1],
            ),
        call_ensures(Driver::action, (&run.last(),), action),
    ensures
        if parts.len() < plans@.len() {
            action == Action::Measure(plans@[parts.len() as int])
        } else if ids.len() == plans@.len() {
            action == Action::Finish
        } else {
            &&& action matches Action::Generate {
                plan,
                map_id_base,
                elevation_range: Some((lo, hi)),
                terrain_base: Some(base),
            }
            &&& plan == plans@[ids.len() as int]
            &&& map_id_base == (if ids.len() == 0 { first_map_id } else { ids.last() })
            &&& elevation_range is Some ==> elevation_range == Some((lo, hi))
            &&& elevation_range is None ==> is_lowest(lo, parts) && is_highest(hi, parts)
            &&& terrain_base is Some ==> terrain_base == Some(base)
            &&& terrain_base is None ==> is_highest_base(base, parts)
        },
{
    assert(plans.len() <= usize::MAX);
    lemma_measured_run(measuring, parts);
    lemma_generated_run(run, ids);
    law_missing_terrain_is_measured(
        plans@,
        first_map_id,
        elevation_range,
        terrain_base,
        parts,
        ids,
    );
}

} // verus!
