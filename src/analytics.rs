use vstd::prelude::*;
use crate::objects::SpaceObject;

verus! {

/// Aggregate counts of the live population.
#[derive(Clone, Copy, Debug, PartialEq, Eq, Structural)]
pub struct PopulationCounts {
    pub total_objects: usize,
    pub total_satellites: usize,
    pub total_debris: usize,
}

/// Satellites among the first `m` objects.
pub open spec fn satellites_in(objects: Seq<SpaceObject>, m: int) -> nat
    decreases m,
{
    if m <= 0 {
        0
    } else {
        satellites_in(objects, m - 1) + if objects[m - 1].satellite.is_some() {
            1nat
        } else {
            0nat
        }
    }
}

/// Fragments among the first `m` objects.
pub open spec fn debris_in(objects: Seq<SpaceObject>, m: int) -> nat
    decreases m,
{
    if m <= 0 {
        0
    } else {
        debris_in(objects, m - 1) + if objects[m - 1].debris.is_some() {
            1nat
        } else {
            0nat
        }
    }
}

/// Counts the live objects, the satellites and the debris fragments.
pub fn population_counts(objects: &Vec<SpaceObject>) -> (r: PopulationCounts)
    ensures
        r.total_objects == objects@.len(),
        r.total_satellites == satellites_in(objects@, objects@.len() as int),
        r.total_debris == debris_in(objects@, objects@.len() as int),
{
    let mut sats: usize = 0;
    let mut debris: usize = 0;
    let mut i: usize = 0;
    while i < objects.len()
        invariant
            i <= objects@.len(),
            sats == satellites_in(objects@, i as int),
            debris == debris_in(objects@, i as int),
            sats <= i,
            debris <= i,
        decreases objects@.len() - i,
    {
        if objects[i].satellite.is_some() {
            sats += 1;
        }
        if objects[i].debris.is_some() {
            debris += 1;
        }
        i += 1;
    }
    PopulationCounts { total_objects: objects.len(), total_satellites: sats, total_debris: debris }
}

} // verus!
