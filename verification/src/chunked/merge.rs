//! Which files of a finished chunk go into the world.
//!
//! The first chunk's world becomes the world, and loses the region files that the
//! chunk does not own. Of every later chunk the region files that it owns are
//! copied, and the maps that it numbered.

use vstd::prelude::*;
use crate::chunked::names;
use crate::chunked::plan::{ChunkPlan, World};

verus! {

/// Whether a region file of a chunk's world is kept: the chunk owns the region.
pub open spec fn is_kept(plan: ChunkPlan, name: Seq<char>) -> bool {
    match names::region_of(name) {
        Some((rx, rz)) => plan.owner_of(rx as int, rz as int),
        None => false,
    }
}

/// Whether a file holds a map that the chunk numbered: one from `base` up. The
/// maps below are of the chunk alone.
pub open spec fn is_signage(name: Seq<char>, base: i32) -> bool {
    names::map_id_of(name) matches Some(id) && id >= base
}

/// The places at which `marks` is true, in order.
pub open spec fn marked(marks: Seq<bool>) -> Seq<usize>
    decreases marks.len(),
{
    if marks.len() == 0 {
        Seq::empty()
    } else {
        let before = marked(marks.drop_last());
        if marks.last() { before.push((marks.len() - 1) as usize) } else { before }
    }
}

/// The marks of the names that are kept, or of those that are not.
pub open spec fn kept_marks(plan: ChunkPlan, names: Seq<String>, kept: bool) -> Seq<bool> {
    names.map_values(|s: String| is_kept(plan, s@) == kept)
}

/// The marks of the maps that a chunk numbered.
pub open spec fn signage_marks(names: Seq<String>, base: i32) -> Seq<bool> {
    names.map_values(|s: String| is_signage(s@, base))
}

/// What is to be done with the region files of a chunk. The files are given by
/// their places in a list of names.
#[derive(Debug)]
pub enum RegionWork {
    /// These are to be removed from the world that the first chunk became.
    Remove(Vec<usize>),
    /// These are to be copied into the world.
    Copy(Vec<usize>),
}

fn keeps(plan: &ChunkPlan, name: &str) -> (r: bool)
    ensures
        r == is_kept(*plan, name@),
{
    match names::parse_region_name(name) {
        Some((rx, rz)) => plan.owns(rx, rz),
        None => false,
    }
}

fn find_kept(plan: &ChunkPlan, names: &Vec<String>, kept: bool) -> (r: Vec<usize>)
    ensures
        r@ == marked(kept_marks(*plan, names@, kept)),
{
    let ghost marks = kept_marks(*plan, names@, kept);
    let mut r: Vec<usize> = Vec::new();
    let mut i: usize = 0;
    assert(marked(marks.take(0)) =~= Seq::empty());
    while i < names.len()
        invariant
            i <= names@.len(),
            marks == kept_marks(*plan, names@, kept),
            r@ == marked(marks.take(i as int)),
        decreases names@.len() - i,
    {
        assert(marks.take(i + 1).drop_last() =~= marks.take(i as int));
        if keeps(plan, names[i].as_str()) == kept {
            r.push(i);
        }
        i = i + 1;
    }
    assert(marks.take(i as int) =~= marks);
    r
}

/// What is to be done with the region files that have the given names: those of
/// the world that the first chunk became, or those of a later chunk.
pub fn region_work(plan: &ChunkPlan, names: &Vec<String>) -> (r: RegionWork)
    ensures
        match r {
            RegionWork::Remove(files) => plan.index == 0 && files@ == marked(
                kept_marks(*plan, names@, false),
            ),
            RegionWork::Copy(files) => plan.index != 0 && files@ == marked(
                kept_marks(*plan, names@, true),
            ),
        },
{
    if plan.index == 0 {
        RegionWork::Remove(find_kept(plan, names, false))
    } else {
        RegionWork::Copy(find_kept(plan, names, true))
    }
}

/// The maps of a later chunk that are to be copied into the world, by their places
/// in the list of names. `map_id_base` is what the chunk numbered its maps from.
pub fn maps_to_copy(names: &Vec<String>, map_id_base: i32) -> (r: Vec<usize>)
    ensures
        r@ == marked(signage_marks(names@, map_id_base)),
{
    let ghost marks = signage_marks(names@, map_id_base);
    let mut r: Vec<usize> = Vec::new();
    let mut i: usize = 0;
    assert(marked(marks.take(0)) =~= Seq::empty());
    while i < names.len()
        invariant
            i <= names@.len(),
            marks == signage_marks(names@, map_id_base),
            r@ == marked(marks.take(i as int)),
        decreases names@.len() - i,
    {
        assert(marks.take(i + 1).drop_last() =~= marks.take(i as int));
        let signage: bool = match names::parse_map_id(names[i].as_str()) {
            Some(id) => id >= map_id_base,
            None => false,
        };
        if signage {
            r.push(i);
        }
        i = i + 1;
    }
    assert(marks.take(i as int) =~= marks);
    r
}

/// The smallest id that is not below `at_least` and above those of all maps with
/// the given names.
pub open spec fn next_id(names: Seq<String>, at_least: int) -> int
    decreases names.len(),
{
    if names.len() == 0 {
        at_least
    } else {
        let before = next_id(names.drop_last(), at_least);
        match names::map_id_of(names.last()@) {
            Some(id) => if before < id + 1 { id + 1 } else { before },
            None => before,
        }
    }
}

/// Whether a map has the largest id there is, above which none is free.
pub open spec fn has_largest_id(names: Seq<String>) -> bool {
    exists|i: int|
        0 <= i < names.len() && names::map_id_of((#[trigger] names[i])@) == Some(i32::MAX)
}

/// Whether a map has the largest id there is.
pub fn holds_largest_id(names: &Vec<String>) -> (r: bool)
    ensures
        r == has_largest_id(names@),
{
    let mut i: usize = 0;
    while i < names.len()
        invariant
            i <= names@.len(),
            forall|j: int|
                0 <= j < i ==> names::map_id_of((#[trigger] names@[j])@) != Some(i32::MAX),
        decreases names@.len() - i,
    {
        let found: bool = match names::parse_map_id(names[i].as_str()) {
            Some(id) => id == i32::MAX,
            None => false,
        };
        if found {
            assert(names::map_id_of(names@[i as int]@) == Some(i32::MAX));
            return true;
        }
        i = i + 1;
    }
    false
}

/// The id that the next chunk numbers its maps from, given the names of the files
/// in the world's data.
pub fn next_free_map_id(names: &Vec<String>, at_least: i32) -> (r: i32)
    requires
        !has_largest_id(names@),
    ensures
        r == next_id(names@, at_least as int),
{
    let mut next: i32 = at_least;
    let mut i: usize = 0;
    assert(names@.take(0) =~= Seq::empty());
    while i < names.len()
        invariant
            i <= names@.len(),
            !has_largest_id(names@),
            next == next_id(names@.take(i as int), at_least as int),
        decreases names@.len() - i,
    {
        assert(names@.take(i + 1).drop_last() =~= names@.take(i as int));
        match names::parse_map_id(names[i].as_str()) {
            Some(id) => {
                assert(names::map_id_of(names@[i as int]@) == Some(id));
                if next < id + 1 {
                    next = id + 1;
                }
            },
            None => {},
        }
        i = i + 1;
    }
    assert(names@.take(i as int) =~= names@);
    next
}

/// A place is marked just where the mark is set.
pub proof fn law_marked_places(marks: Seq<bool>, i: int)
    requires
        0 <= i < marks.len() <= usize::MAX,
    ensures
        marked(marks).contains(i as usize) <==> marks[i],
    decreases marks.len(),
{
    let rest = marks.drop_last();
    let before = marked(rest);
    let n = (marks.len() - 1) as usize;
    lemma_marked_in_range(rest);
    if i < rest.len() {
        law_marked_places(rest, i);
        if marks.last() {
            if before.contains(i as usize) {
                let j = before.index_of(i as usize);
                assert(before.push(n)[j] == i as usize);
            }
            if before.push(n).contains(i as usize) {
                let j = before.push(n).index_of(i as usize);
                assert(j < before.len());
                assert(before[j] == i as usize);
            }
        }
    } else {
        if marks.last() {
            assert(before.push(n)[before.len() as int] == n);
        } else if before.contains(n) {
            let j = before.index_of(n);
            assert(before[j] < rest.len());
        }
    }
}

proof fn lemma_marked_in_range(marks: Seq<bool>)
    requires
        marks.len() <= usize::MAX,
    ensures
        forall|j: int| 0 <= j < marked(marks).len() ==> #[trigger] marked(marks)[j] < marks.len(),
    decreases marks.len(),
{
    if marks.len() > 0 {
        let rest = marks.drop_last();
        lemma_marked_in_range(rest);
        assert forall|j: int| 0 <= j < marked(marks).len() implies #[trigger] marked(marks)[j]
            < marks.len() by {
            if j < marked(rest).len() {
                assert(marked(marks)[j] == marked(rest)[j]);
            }
        }
    }
}

/// The next id is not below the one before, and above those of all maps.
pub proof fn law_next_id_is_free(names: Seq<String>, at_least: int, i: int)
    requires
        0 <= i < names.len(),
    ensures
        next_id(names, at_least) >= at_least,
        names::map_id_of(names[i]@) matches Some(id) ==> id < next_id(names, at_least),
    decreases names.len(),
{
    let rest = names.drop_last();
    lemma_next_id_rises(rest, at_least);
    if i < rest.len() {
        law_next_id_is_free(rest, at_least, i);
    }
}

proof fn lemma_next_id_rises(names: Seq<String>, at_least: int)
    ensures
        next_id(names, at_least) >= at_least,
    decreases names.len(),
{
    if names.len() > 0 {
        lemma_next_id_rises(names.drop_last(), at_least);
    }
}

/// A map that is copied from a chunk never has the id of a map in the world, if
/// the chunk numbered its maps from the world's next id.
pub proof fn law_copied_maps_do_not_collide(
    world: Seq<String>,
    at_least: int,
    base: i32,
    i: int,
    name: Seq<char>,
)
    requires
        0 <= i < world.len(),
        base == next_id(world, at_least),
        is_signage(name, base),
    ensures
        names::map_id_of(world[i]@) != names::map_id_of(name),
        world[i]@ != name,
{
    law_next_id_is_free(world, at_least, i);
}

/// No region file is kept of two chunks.
pub proof fn law_no_file_is_kept_twice(w: World, i: int, j: int, name: Seq<char>)
    requires
        w.valid(),
        w.chunks() <= usize::MAX,
        0 <= i < w.chunks(),
        0 <= j < w.chunks(),
        is_kept(w.plans()[i], name),
        is_kept(w.plans()[j], name),
    ensures
        i == j,
{
    let (rx, rz) = names::region_of(name)->0;
    w.law_owned_regions_are_of_the_world(i);
    w.law_each_region_is_owned_once(rx as int, rz as int);
    assert(w.plans()[i].owner_of(rx as int, rz as int));
    assert(w.plans()[j].owner_of(rx as int, rz as int));
}

/// Every region file of the world is kept of one chunk.
pub proof fn law_every_region_file_is_kept(w: World, rx: i32, rz: i32)
    requires
        w.valid(),
        w.chunks() <= usize::MAX,
        0 <= rx < w.x.regions(),
        0 <= rz < w.z.regions(),
    ensures
        exists|i: int|
            0 <= i < w.plans().len() && is_kept(
                #[trigger] w.plans()[i],
                names::region_name(rx, rz),
            ),
{
    w.law_each_region_is_owned_once(rx as int, rz as int);
    names::law_region_names_read_back(rx, rz);
    let plans = w.plans();
    let i = choose|i: int|
        0 <= i < plans.len() && (#[trigger] plans[i]).owner_of(rx as int, rz as int);
    assert(is_kept(plans[i], names::region_name(rx, rz)));
}

/// The places come in order.
proof fn lemma_marked_in_order(marks: Seq<bool>)
    requires
        marks.len() <= usize::MAX,
    ensures
        is_rising(marked(marks), marks.len() as int),
    decreases marks.len(),
{
    if marks.len() > 0 {
        let rest = marks.drop_last();
        lemma_marked_in_order(rest);
        lemma_marked_in_range(marks);
        lemma_marked_in_range(rest);
        let (m, b) = (marked(marks), marked(rest));
        assert forall|j: int, k: int| 0 <= j < k < m.len() implies #[trigger] m[j] < #[trigger] m[k] by {
            assert(m[j] == b[j]);
            if k < b.len() {
                assert(m[k] == b[k]);
            }
        }
    }
}

/// Whether places are in order, none twice, and below `n`.
pub open spec fn is_rising(places: Seq<usize>, n: int) -> bool {
    &&& forall|j: int, k: int|
        0 <= j < k < places.len() ==> #[trigger] places[j] < #[trigger] places[k]
    &&& forall|j: int| 0 <= j < places.len() ==> #[trigger] places[j] < n
}

/// Of the world that the first chunk became, those files are removed that are no region
/// of the chunk; of a later chunk, those are copied that are one. A file is taken once,
/// and in the order of the list.
pub proof fn law_region_files_are_kept_or_not(
    plan: ChunkPlan,
    names: Vec<String>,
    work: RegionWork,
    i: int,
)
    requires
        call_ensures(region_work, (&plan, &names), work),
        0 <= i < names@.len(),
    ensures
        ({
            let owned = names::region_of(names@[i]@) matches Some((rx, rz))
                && plan.region_x.0 <= rx && rx < plan.region_x.1 && plan.region_z.0 <= rz && rz
                < plan.region_z.1;
            match work {
                RegionWork::Remove(files) => plan.index == 0 && is_rising(
                    files@,
                    names@.len() as int,
                ) && (files@.contains(i as usize) <==> !owned),
                RegionWork::Copy(files) => plan.index != 0 && is_rising(
                    files@,
                    names@.len() as int,
                ) && (files@.contains(i as usize) <==> owned),
            }
        }),
{
    assert(names.len() <= usize::MAX);
    let (kept, other) = (
        kept_marks(plan, names@, true),
        kept_marks(plan, names@, false),
    );
    law_marked_places(kept, i);
    law_marked_places(other, i);
    lemma_marked_in_order(kept);
    lemma_marked_in_order(other);
}

/// Of a later chunk, those maps are copied whose id is not below the one that the chunk
/// numbered its maps from. A map is taken once, and in the order of the list.
pub proof fn law_numbered_maps_are_copied(
    names: Vec<String>,
    map_id_base: i32,
    files: Vec<usize>,
    i: int,
)
    requires
        call_ensures(maps_to_copy, (&names, map_id_base), files),
        0 <= i < names@.len(),
    ensures
        is_rising(files@, names@.len() as int),
        files@.contains(i as usize) <==> (names::map_id_of(names@[i]@) matches Some(id) && id
            >= map_id_base),
{
    assert(names.len() <= usize::MAX);
    let marks = signage_marks(names@, map_id_base);
    law_marked_places(marks, i);
    lemma_marked_in_order(marks);
}

/// The next id is the least that is not below `at_least` and above the ids of all maps.
pub proof fn law_next_id_is_the_least(names: Vec<String>, at_least: i32, next: i32)
    requires
        call_ensures(next_free_map_id, (&names, at_least), next),
    ensures
        next >= at_least,
        forall|i: int|
            0 <= i < names@.len() ==> (names::map_id_of((#[trigger] names@[i])@) matches Some(id)
                ==> id < next),
        next == at_least || exists|i: int|
            0 <= i < names@.len() && names::map_id_of((#[trigger] names@[i])@) == Some(
                (next - 1) as i32,
            ),
{
    let s = names@;
    lemma_next_id_rises(s, at_least as int);
    assert forall|i: int| 0 <= i < s.len() implies (names::map_id_of((#[trigger] s[i])@) matches Some(
        id,
    ) ==> id < next) by {
        law_next_id_is_free(s, at_least as int, i);
    }
    lemma_next_id_is_reached(s, at_least as int);
}

proof fn lemma_next_id_is_reached(names: Seq<String>, at_least: int)
    ensures
        next_id(names, at_least) == at_least || exists|i: int|
            0 <= i < names.len() && (names::map_id_of((#[trigger] names[i])@) matches Some(id) && id
                + 1 == next_id(names, at_least)),
    decreases names.len(),
{
    if names.len() > 0 {
        let rest = names.drop_last();
        let n = names.len() - 1;
        let next = next_id(names, at_least);
        lemma_next_id_is_reached(rest, at_least);
        if next == next_id(rest, at_least) {
            if next != at_least {
                let i = choose|i: int|
                    0 <= i < rest.len() && (names::map_id_of((#[trigger] rest[i])@) matches Some(id)
                        && id + 1 == next_id(rest, at_least));
                assert(names[i] == rest[i]);
                assert(names::map_id_of(names[i]@) matches Some(id) && id + 1 == next);
            }
        } else {
            assert(names::map_id_of(names[n]@) matches Some(id) && id + 1 == next);
        }
    }
}

/// There is no id above the largest: that a map has it is told just where one does.
pub proof fn law_largest_id_is_found(names: Vec<String>, found: bool)
    requires
        call_ensures(holds_largest_id, (&names,), found),
    ensures
        found <==> exists|i: int|
            0 <= i < names@.len() && names::map_id_of((#[trigger] names@[i])@) == Some(
                0x7fff_ffffi32,
            ),
{
}

} // verus!
