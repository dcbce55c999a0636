use vstd::prelude::*;
use crate::geometry::Vec3;

verus! {

/// Default collision radius of a satellite (micrometres: 5 m).
pub const SATELLITE_RADIUS: u64 = 5_000_000;

/// Default collision radius of a debris fragment (micrometres: 1 m).
pub const DEBRIS_RADIUS: u64 = 1_000_000;

/// Position (micrometres), velocity (micrometres per second) and mass (grams)
/// of one object, in the inertial frame centred on the primary body.
#[derive(Clone, Copy, Debug, PartialEq, Eq, Structural)]
pub struct OrbitalState {
    pub position: Vec3,
    pub velocity: Vec3,
    pub mass: u64,
}

impl OrbitalState {
    /// Coordinates within the limits and a positive mass.
    pub open spec fn wf(self) -> bool {
        self.position.in_range() && self.velocity.in_range() && self.mass > 0
    }

    pub fn new(position: Vec3, velocity: Vec3, mass: u64) -> (r: OrbitalState)
        ensures
            r == (OrbitalState { position, velocity, mass }),
    {
        OrbitalState { position, velocity, mass }
    }
}

/// Category of an object, which sets its default collision radius.
#[derive(Clone, Copy, Debug, PartialEq, Eq, Structural)]
pub enum ObjectKind {
    Satellite,
    Debris,
}

/// Collision profile of an object.
#[derive(Clone, Copy, Debug, PartialEq, Eq, Structural)]
pub struct PhysicsObject {
    /// Effective radius for the sum-of-radii test (micrometres).
    pub collision_radius: u64,
    pub kind: ObjectKind,
}

impl PhysicsObject {
    pub open spec fn satellite_profile() -> PhysicsObject {
        PhysicsObject { collision_radius: SATELLITE_RADIUS, kind: ObjectKind::Satellite }
    }

    pub fn satellite() -> (r: PhysicsObject)
        ensures
            r == (PhysicsObject { collision_radius: SATELLITE_RADIUS, kind: ObjectKind::Satellite }),
    {
        PhysicsObject { collision_radius: SATELLITE_RADIUS, kind: ObjectKind::Satellite }
    }

    pub fn debris() -> (r: PhysicsObject)
        ensures
            r == (PhysicsObject { collision_radius: DEBRIS_RADIUS, kind: ObjectKind::Debris }),
    {
        PhysicsObject { collision_radius: DEBRIS_RADIUS, kind: ObjectKind::Debris }
    }
}

/// An active satellite.
#[derive(Clone, Debug)]
pub struct Satellite {
    pub name: String,
    pub norad_id: u32,
    pub active: bool,
}

impl Satellite {
    pub fn new(name: String, norad_id: u32, active: bool) -> (r: Satellite)
        ensures
            r.name@ == name@,
            r.norad_id == norad_id,
            r.active == active,
    {
        Satellite { name, norad_id, active }
    }
}

/// Lineage of a debris fragment.
#[derive(Clone, Copy, Debug, PartialEq, Eq, Structural)]
pub struct Debris {
    /// The collision event that created this fragment.
    pub parent_collision: Option<u32>,
    /// 0 for an object not produced by a collision, parent generation + 1
    /// for a fragment.
    pub generation: u32,
    /// Simulation time of creation (milliseconds).
    pub creation_time: u64,
}

/// One more than `g`, held at the largest value.
pub open spec fn next_generation(g: u32) -> u32 {
    if g < u32::MAX {
        (g + 1) as u32
    } else {
        g
    }
}

/// One more than `g`, held at the largest value (see `next_generation`).
pub fn next_generation_of(g: u32) -> (r: u32)
    ensures
        r == next_generation(g),
{
    if g < u32::MAX {
        g + 1
    } else {
        g
    }
}

impl Debris {
    pub fn new(parent_collision: Option<u32>, generation: u32, creation_time: u64) -> (r: Debris)
        ensures
            r == (Debris { parent_collision, generation, creation_time }),
    {
        Debris { parent_collision, generation, creation_time }
    }

    /// A first-generation fragment: one from a collision of objects that
    /// were themselves not produced by collisions.
    pub fn from_collision(collision_id: u32, creation_time: u64) -> (r: Debris)
        ensures
            r == (Debris { parent_collision: Some(collision_id), generation: 1, creation_time }),
    {
        Debris::new(Some(collision_id), 1, creation_time)
    }

    /// A fragment one generation after `parent`.
    pub fn from_debris(parent: &Debris, collision_id: u32, creation_time: u64) -> (r: Debris)
        ensures
            r == (Debris {
                parent_collision: Some(collision_id),
                generation: next_generation(parent.generation),
                creation_time,
            }),
    {
        Debris::new(Some(collision_id), next_generation_of(parent.generation), creation_time)
    }
}

/// One live object of the population: its state, collision profile and,
/// for a fragment, its lineage.
#[derive(Clone, Debug)]
pub struct SpaceObject {
    pub state: OrbitalState,
    pub physics: PhysicsObject,
    pub satellite: Option<Satellite>,
    pub debris: Option<Debris>,
}

impl SpaceObject {
    /// Generation of the object: 0 unless it is a fragment.
    pub open spec fn generation(self) -> u32 {
        match self.debris {
            Some(d) => d.generation,
            None => 0,
        }
    }

    pub fn generation_of(&self) -> (r: u32)
        ensures
            r == self.generation(),
    {
        match &self.debris {
            Some(d) => d.generation,
            None => 0,
        }
    }
}

} // verus!
