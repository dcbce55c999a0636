use vstd::prelude::*;
use rand::Rng;
use crate::geometry::{Vec3, in_limit, sq, isqrt, isqrt_u128, lemma_coord_le_root, lemma_isqrt_unique, tdiv, COORD_LIMIT};
use crate::objects::{Debris, PhysicsObject, SpaceObject, OrbitalState, next_generation, next_generation_of, DEBRIS_RADIUS, ObjectKind};

verus! {

/// rand's seedable generator, handed in by callers so that runs can be
/// reproduced; held opaque.
#[verifier::external_type_specification]
#[verifier::external_body]
pub struct ExStdRng(rand::rngs::StdRng);

/// Fewest fragments a collision produces.
pub const MIN_FRAGMENTS: u64 = 2;

/// Most fragments a collision produces.
pub const MAX_FRAGMENTS: u64 = 50;

/// Cap on the energy's contribution to the fragment count.
pub const ENERGY_TERM_CAP: u64 = 10;

/// Bound on each component of a kick direction.
pub const DIRECTION_SCALE: i64 = 1000;

/// Relies on rand's `Rng::gen_range` over `lo..hi`, which panics on an empty
/// range and otherwise returns a value in `[lo, hi)`.
#[verifier::external_body]
fn draw_range(rng: &mut rand::rngs::StdRng, lo: i64, hi: i64) -> (r: i64)
    requires
        lo < hi,
    ensures
        lo <= r < hi,
{
    rng.gen_range(lo..hi)
}

/// Fragment count of a collision with total mass `total_mass` (grams) and
/// squared relative speed `rel_speed_sq` ((micrometres per second)^2):
/// `floor(sqrt(M / 1000))` for the mass `M` in kilograms, plus
/// `floor(sqrt(E / 1e12))` capped at 10 for the energy
/// `E = M * v^2 / 2` with `v` in km/s, the sum limited to `[2, 50]`.
pub open spec fn fragment_count(total_mass: nat, rel_speed_sq: nat) -> nat {
    let mass_term = isqrt(total_mass / 1_000_000);
    let energy_term = isqrt((total_mass * rel_speed_sq) / 2_000_000_000_000_000_000_000_000_000_000_000);
    let e = if energy_term > 10 { 10 } else { energy_term };
    let n = mass_term + e;
    if n < 2 {
        2
    } else if n > 50 {
        50
    } else {
        n as nat
    }
}

/// Mass of each fragment (grams): a tenth of an equal share of the total,
/// rounded up so that no fragment is massless.
pub open spec fn fragment_mass(total_mass: nat, count: nat) -> nat
    recommends
        count > 0,
{
    ((total_mass + 10 * count - 1) / ((10 * count) as int)) as nat
}

/// Smallest squared length of a kick direction: short integer directions
/// would lengthen the kick through rounding.
pub const MIN_DIRECTION_NORM2: i64 = 250_000;

/// Whether `d` can serve as a kick direction: within the spherical shell of
/// radii `DIRECTION_SCALE / 2` and `DIRECTION_SCALE`.
pub open spec fn valid_direction(d: Vec3) -> bool {
    MIN_DIRECTION_NORM2 <= d.norm2() <= DIRECTION_SCALE * DIRECTION_SCALE
}

/// The velocity `r` differs from the mean of `v1` and `v2` by at most half of
/// `rel_speed`.
pub open spec fn kick_bounded(r: Vec3, v1: Vec3, v2: Vec3, rel_speed: int) -> bool {
    4 * r.dist2(midpoint(v1, v2)) <= sq(rel_speed)
}

pub open spec fn clamp_limit(a: int) -> int {
    if a < -COORD_LIMIT {
        -COORD_LIMIT as int
    } else if a > COORD_LIMIT {
        COORD_LIMIT as int
    } else {
        a
    }
}

/// Velocity of a fragment along one axis: the mean of the parents' velocities
/// plus the kick `mag` along the direction component `d` of length `dn`.
pub open spec fn kick_axis(v1: int, v2: int, mag: int, d: int, dn: int) -> int {
    clamp_limit(tdiv(v1 + v2, 2) + tdiv(mag * d, dn))
}

/// Velocity of a fragment: the mean of the parents' velocities plus a kick of
/// `rel_speed * per_mille / 1000` along direction `d`, each component held
/// within the coordinate limits.
pub open spec fn fragment_velocity(v1: Vec3, v2: Vec3, rel_speed: int, d: Vec3, per_mille: int) -> Vec3 {
    let mag = rel_speed * per_mille / 1000;
    let dn = isqrt(d.norm2() as nat) as int;
    Vec3 {
        x: kick_axis(v1.x as int, v2.x as int, mag, d.x as int, dn) as i64,
        y: kick_axis(v1.y as int, v2.y as int, mag, d.y as int, dn) as i64,
        z: kick_axis(v1.z as int, v2.z as int, mag, d.z as int, dn) as i64,
    }
}

/// Midpoint of two vectors (positions, or velocities for their mean), per
/// axis rounded toward zero.
pub open spec fn midpoint(a: Vec3, b: Vec3) -> Vec3 {
    Vec3 {
        x: tdiv(a.x + b.x, 2) as i64,
        y: tdiv(a.y + b.y, 2) as i64,
        z: tdiv(a.z + b.z, 2) as i64,
    }
}

/// Number of fragments from a collision (see `fragment_count`).
pub fn calculate_debris_count(total_mass: u128, rel_speed_sq: u128) -> (r: u64)
    ensures
        r as nat == fragment_count(total_mass as nat, rel_speed_sq as nat),
        MIN_FRAGMENTS <= r <= MAX_FRAGMENTS,
{
    let base = isqrt_u128(total_mass / 1_000_000);
    proof {
        lemma_isqrt_unique((total_mass / 1_000_000) as nat, base as int);
    }
    let ghost q = (total_mass as nat * rel_speed_sq as nat) / 2_000_000_000_000_000_000_000_000_000_000_000;
    let energy: u64 = match total_mass.checked_mul(rel_speed_sq) {
        None => {
            proof {
                let big = total_mass as nat * rel_speed_sq as nat;
                assert(big > u128::MAX);
                assert(q >= 100) by (nonlinear_arith)
                    requires big > 0xffff_ffff_ffff_ffff_ffff_ffff_ffff_ffffint,
                        q as int == (big as int) / 2_000_000_000_000_000_000_000_000_000_000_000int;
                lemma_isqrt_at_least_ten(q);
            }
            ENERGY_TERM_CAP
        },
        Some(m) => {
            let quotient = m / 2_000_000_000_000_000_000_000_000_000_000_000;
            assert(quotient as nat == q);
            if quotient >= 100 {
                proof {
                    lemma_isqrt_at_least_ten(q);
                }
                ENERGY_TERM_CAP
            } else {
                let e = isqrt_u128(quotient);
                proof {
                    lemma_isqrt_unique(quotient as nat, e as int);
                    assert(e < 10) by (nonlinear_arith)
                        requires e * e <= quotient, quotient < 100;
                }
                e
            }
        },
    };
    assert(energy as nat == (if isqrt(q) > 10 { 10 } else { isqrt(q) }));
    let n: u128 = base as u128 + energy as u128;
    if n < 2 {
        MIN_FRAGMENTS
    } else if n > 50 {
        MAX_FRAGMENTS
    } else {
        n as u64
    }
}

/// At least 100 has a square root of at least 10.
proof fn lemma_isqrt_at_least_ten(n: nat)
    requires
        n >= 100,
    ensures
        isqrt(n) >= 10,
{
    crate::geometry::lemma_isqrt(n);
    let r = isqrt(n) as int;
    if r < 10 {
        assert((r + 1) * (r + 1) <= 100) by (nonlinear_arith)
            requires 0 <= r < 10;
    }
}

/// The fragment count lies in `[2, 50]` for every mass and speed.
pub proof fn lemma_fragment_count_bounds(total_mass: nat, rel_speed_sq: nat)
    ensures
        MIN_FRAGMENTS <= fragment_count(total_mass, rel_speed_sq) <= MAX_FRAGMENTS,
{
}

/// Every fragment of a collision with positive total mass has positive mass.
pub proof fn lemma_fragment_mass_positive(total_mass: nat, rel_speed_sq: nat)
    requires
        total_mass > 0,
    ensures
        fragment_mass(total_mass, fragment_count(total_mass, rel_speed_sq)) > 0,
{
    let c = fragment_count(total_mass, rel_speed_sq);
    assert(total_mass + 10 * c - 1 >= 10 * c);
    assert((total_mass + 10 * c - 1) / ((10 * c) as int) >= 1) by (nonlinear_arith)
        requires total_mass + 10 * c - 1 >= 10 * c, c >= 2;
}

/// Mass of each fragment (see `fragment_mass`).
pub fn calculate_fragment_mass(total_mass: u128, count: u64) -> (r: u128)
    requires
        count >= 1,
        total_mass <= 2 * (u64::MAX as int),
    ensures
        r as nat == fragment_mass(total_mass as nat, count as nat),
        r <= u64::MAX,
        total_mass > 0 ==> r > 0,
{
    let d: u128 = 10 * count as u128;
    let r = (total_mass + d - 1) / d;
    assert(r <= u64::MAX) by (nonlinear_arith)
        requires r as int == (total_mass + d - 1) / (d as int), d >= 10, total_mass <= 2 * (u64::MAX as int);
    assert(total_mass > 0 ==> r > 0) by (nonlinear_arith)
        requires r as int == (total_mass + d - 1) / (d as int), d >= 10;
    r
}

/// Attempts at drawing a kick direction before falling back to the z axis.
pub const DIRECTION_TRIES: u32 = 16;

/// `tdiv(a, 2)`.
fn half_toward_zero(a: i128) -> (r: i128)
    requires
        -0x1_0000_0000_0000_0000 <= a <= 0x1_0000_0000_0000_0000,
    ensures
        r == tdiv(a as int, 2),
{
    if a >= 0 {
        ((a as u128) / 2) as i128
    } else {
        -((((-a) as u128) / 2) as i128)
    }
}

/// Midpoint of two in-range positions (see `midpoint`).
fn midpoint_of(a: Vec3, b: Vec3) -> (r: Vec3)
    requires
        a.in_range(),
        b.in_range(),
    ensures
        r == midpoint(a, b),
        r.in_range(),
{
    Vec3 {
        x: half_toward_zero(a.x as i128 + b.x as i128) as i64,
        y: half_toward_zero(a.y as i128 + b.y as i128) as i64,
        z: half_toward_zero(a.z as i128 + b.z as i128) as i64,
    }
}

/// Velocity of a fragment along one axis (see `kick_axis`).
fn kick_axis_exec(v1: i64, v2: i64, mag: u128, d: i64, dn: u128) -> (r: i64)
    requires
        in_limit(v1 as int),
        in_limit(v2 as int),
        mag <= u64::MAX,
        -1000 <= d <= 1000,
        dn >= 1,
        -(dn as int) <= d <= dn,
    ensures
        r == kick_axis(v1 as int, v2 as int, mag as int, d as int, dn as int),
        sq(r - tdiv(v1 + v2, 2)) * sq(dn as int) <= sq(mag as int) * sq(d as int),
{
    let avg = half_toward_zero(v1 as i128 + v2 as i128);
    let da: u128 = if d >= 0 { d as u128 } else { (-(d as i128)) as u128 };
    assert(mag * da <= u64::MAX * 1000) by (nonlinear_arith)
        requires mag <= u64::MAX, da <= 1000;
    let k: u128 = mag * da / dn;
    assert(k <= mag) by (nonlinear_arith)
        requires k as int == (mag * da) / (dn as int), da <= dn, dn >= 1;
    let ghost kk = tdiv(mag * d, dn as int);
    assert(kk == if d >= 0 { k as int } else { -(k as int) }) by (nonlinear_arith)
        requires
            kk == tdiv(mag * d, dn as int),
            k as int == (mag * da) / (dn as int),
            da == if d >= 0 { d as int } else { -d },
            mag >= 0, dn >= 1;
    let sum: i128 = if d >= 0 { avg + k as i128 } else { avg - k as i128 };
    let r: i64 = if sum < -COORD_LIMIT as i128 {
        -COORD_LIMIT
    } else if sum > COORD_LIMIT as i128 {
        COORD_LIMIT
    } else {
        sum as i64
    };
    proof {
        let e = r - avg;
        assert(-(k as int) <= e <= k);
        assert(k * dn <= mag * da) by (nonlinear_arith)
            requires k as int == (mag * da) / (dn as int), dn >= 1;
        assert(sq(e) * sq(dn as int) <= sq(mag as int) * sq(d as int)) by (nonlinear_arith)
            requires
                -(k as int) <= e <= k,
                k * dn <= mag * da,
                da == if d >= 0 { d as int } else { -d },
                dn >= 1, k >= 0;
    }
    r
}

/// Velocity of a fragment for a given kick direction and fraction (see
/// `fragment_velocity`).
pub fn kick_velocity(v1: Vec3, v2: Vec3, rel_speed: u64, d: Vec3, per_mille: u64) -> (r: Vec3)
    requires
        v1.in_range(),
        v2.in_range(),
        valid_direction(d),
        per_mille <= 1000,
    ensures
        r == fragment_velocity(v1, v2, rel_speed as int, d, per_mille as int),
        r.in_range(),
        per_mille < 500 ==> kick_bounded(r, v1, v2, rel_speed as int),
{
    assert(rel_speed as u128 * per_mille as u128 <= u64::MAX * 1000) by (nonlinear_arith)
        requires per_mille <= 1000;
    let mag: u128 = rel_speed as u128 * per_mille as u128 / 1000;
    assert(mag <= rel_speed) by (nonlinear_arith)
        requires mag as int == (rel_speed as int * per_mille as int) / 1000, per_mille <= 1000;
    proof {
        let (x, y, z) = (d.x as int, d.y as int, d.z as int);
        assert(x * x <= d.norm2() && y * y <= d.norm2() && z * z <= d.norm2()) by (nonlinear_arith)
            requires d.norm2() == x * x + y * y + z * z;
        assert(-1000 <= x <= 1000 && -1000 <= y <= 1000 && -1000 <= z <= 1000) by (nonlinear_arith)
            requires x * x <= 1_000_000, y * y <= 1_000_000, z * z <= 1_000_000;
    }
    let n2 = d.length_squared();
    let dn = isqrt_u128(n2) as u128;
    proof {
        lemma_isqrt_unique(n2 as nat, dn as int);
        assert(dn >= 500) by (nonlinear_arith)
            requires n2 >= 250_000, n2 < (dn + 1) * (dn + 1), dn >= 0;
        lemma_coord_le_root(d.x as int, n2 as int, dn as int);
        lemma_coord_le_root(d.y as int, n2 as int, dn as int);
        lemma_coord_le_root(d.z as int, n2 as int, dn as int);
    }
    let r = Vec3 {
        x: kick_axis_exec(v1.x, v2.x, mag, d.x, dn),
        y: kick_axis_exec(v1.y, v2.y, mag, d.y, dn),
        z: kick_axis_exec(v1.z, v2.z, mag, d.z, dn),
    };
    proof {
        if per_mille < 500 {
            lemma_kick_bound(r, v1, v2, rel_speed as int, d, mag as int, dn as int, per_mille as int);
        }
    }
    r
}

/// Per-axis bounds on the kick add up to a kick of at most half the
/// relative speed, given a direction at least 500 long and a fraction
/// below one half.
proof fn lemma_kick_bound(r: Vec3, v1: Vec3, v2: Vec3, rel: int, d: Vec3, mag: int, dn: int, pm: int)
    requires
        rel >= 0,
        0 <= pm < 500,
        mag == rel * pm / 1000,
        dn >= 500,
        d.norm2() < (dn + 1) * (dn + 1),
        sq(r.x - tdiv(v1.x + v2.x, 2)) * sq(dn) <= sq(mag) * sq(d.x as int),
        sq(r.y - tdiv(v1.y + v2.y, 2)) * sq(dn) <= sq(mag) * sq(d.y as int),
        sq(r.z - tdiv(v1.z + v2.z, 2)) * sq(dn) <= sq(mag) * sq(d.z as int),
    ensures
        kick_bounded(r, v1, v2, rel),
{
    let m = midpoint(v1, v2);
    let s = r.dist2(m);
    let n2 = d.norm2();
    assert(s == sq(r.x - tdiv(v1.x + v2.x, 2)) + sq(r.y - tdiv(v1.y + v2.y, 2)) + sq(
        r.z - tdiv(v1.z + v2.z, 2),
    ));
    let (ex, ey, ez) = (r.x - tdiv(v1.x + v2.x, 2), r.y - tdiv(v1.y + v2.y, 2), r.z - tdiv(v1.z + v2.z, 2));
    assert(s * sq(dn) <= sq(mag) * n2 && s >= 0 && n2 >= 0) by (nonlinear_arith)
        requires
            s == sq(ex) + sq(ey) + sq(ez),
            n2 == sq(d.x as int) + sq(d.y as int) + sq(d.z as int),
            sq(ex) * sq(dn) <= sq(mag) * sq(d.x as int),
            sq(ey) * sq(dn) <= sq(mag) * sq(d.y as int),
            sq(ez) * sq(dn) <= sq(mag) * sq(d.z as int);
    assert(sq(mag) >= 0 && sq(rel) >= 0 && sq(dn) >= 0) by (nonlinear_arith);
    assert(0 <= mag && 1000 * mag <= 499 * rel) by (nonlinear_arith)
        requires mag == rel * pm / 1000, 0 <= pm < 500, rel >= 0;
    assert(sq(mag) * n2 <= sq(mag) * ((dn + 1) * (dn + 1))) by (nonlinear_arith)
        requires n2 < (dn + 1) * (dn + 1), n2 >= 0;
    assert(1_000_000 * sq(mag) <= 499 * 499 * sq(rel)) by (nonlinear_arith)
        requires 0 <= 1000 * mag <= 499 * rel, mag >= 0;
    assert(4 * 499 * 499 * ((dn + 1) * (dn + 1)) <= 1_000_000 * sq(dn)) by (nonlinear_arith)
        requires dn >= 500;
    assert(4 * s * sq(dn) * 1_000_000 <= 1_000_000 * sq(dn) * sq(rel)) by (nonlinear_arith)
        requires
            s * sq(dn) <= sq(mag) * ((dn + 1) * (dn + 1)),
            1_000_000 * sq(mag) <= 499 * 499 * sq(rel),
            4 * 499 * 499 * ((dn + 1) * (dn + 1)) <= 1_000_000 * sq(dn),
            s >= 0, sq(mag) >= 0, sq(rel) >= 0;
    assert(4 * s <= sq(rel)) by (nonlinear_arith)
        requires 4 * s * sq(dn) * 1_000_000 <= 1_000_000 * sq(dn) * sq(rel), dn >= 500;
}

/// Draws a direction uniformly: points of the cube `[-1000, 1000]^3` are
/// drawn until one falls inside the spherical shell of radii 500 and 1000,
/// which gives a uniform direction; after `DIRECTION_TRIES` misses the z
/// axis is used.
fn random_direction(rng: &mut rand::rngs::StdRng) -> (d: Vec3)
    ensures
        valid_direction(d),
{
    let mut tries: u32 = 0;
    while tries < DIRECTION_TRIES
        invariant
            tries <= DIRECTION_TRIES,
        decreases DIRECTION_TRIES - tries,
    {
        let x = draw_range(rng, -DIRECTION_SCALE, DIRECTION_SCALE + 1);
        let y = draw_range(rng, -DIRECTION_SCALE, DIRECTION_SCALE + 1);
        let z = draw_range(rng, -DIRECTION_SCALE, DIRECTION_SCALE + 1);
        assert(-1000 <= x <= 1000 && -1000 <= y <= 1000 && -1000 <= z <= 1000);
        assert(0 <= x * x <= 1_000_000 && 0 <= y * y <= 1_000_000 && 0 <= z * z <= 1_000_000) by (nonlinear_arith)
            requires -1000 <= x <= 1000, -1000 <= y <= 1000, -1000 <= z <= 1000;
        let n2 = x * x + y * y + z * z;
        if n2 >= MIN_DIRECTION_NORM2 && n2 <= DIRECTION_SCALE * DIRECTION_SCALE {
            return Vec3 { x, y, z };
        }
        tries += 1;
    }
    Vec3 { x: 0, y: 0, z: DIRECTION_SCALE }
}

/// Velocity of one fragment: the mean of the parents' velocities plus a kick
/// in a random direction of a random 10% to 50% of the relative speed.
pub fn generate_debris_velocity(
    vel1: Vec3,
    vel2: Vec3,
    relative_speed: u64,
    rng: &mut rand::rngs::StdRng,
) -> (r: Vec3)
    requires
        vel1.in_range(),
        vel2.in_range(),
    ensures
        r.in_range(),
        kick_bounded(r, vel1, vel2, relative_speed as int),
        exists|d: Vec3, k: int|
            valid_direction(d) && 100 <= k < 500 && r == fragment_velocity(
                vel1,
                vel2,
                relative_speed as int,
                d,
                k,
            ),
{
    let d = random_direction(rng);
    let k = draw_range(rng, 100, 500);
    kick_velocity(vel1, vel2, relative_speed, d, k as u64)
}

/// Total mass of two objects (grams).
pub open spec fn total_mass(a: SpaceObject, b: SpaceObject) -> nat {
    (a.state.mass + b.state.mass) as nat
}

/// Squared relative speed of two objects.
pub open spec fn rel_speed_sq(a: SpaceObject, b: SpaceObject) -> nat {
    a.state.velocity.dist2(b.state.velocity) as nat
}

/// Number of fragments the collision of `a` and `b` produces.
pub open spec fn collision_fragments(a: SpaceObject, b: SpaceObject) -> nat {
    fragment_count(total_mass(a, b), rel_speed_sq(a, b))
}

pub open spec fn max_u32(a: u32, b: u32) -> u32 {
    if a >= b {
        a
    } else {
        b
    }
}

/// `f` is a fragment of the collision `collision_id` of `a` and `b` created
/// at `time`: at the midpoint, with the fragment mass, a velocity kicked away
/// from the parents' mean by at most half their relative speed, the debris
/// profile and the next generation after both parents.
pub open spec fn is_fragment(f: SpaceObject, a: SpaceObject, b: SpaceObject, collision_id: u32, time: u64) -> bool {
    &&& f.state.position == midpoint(a.state.position, b.state.position)
    &&& f.state.mass == fragment_mass(total_mass(a, b), collision_fragments(a, b))
    &&& exists|d: Vec3, k: int|
        valid_direction(d) && 100 <= k < 500 && f.state.velocity == fragment_velocity(
            a.state.velocity,
            b.state.velocity,
            isqrt(rel_speed_sq(a, b)) as int,
            d,
            k,
        )
    &&& kick_bounded(
        f.state.velocity,
        a.state.velocity,
        b.state.velocity,
        isqrt(rel_speed_sq(a, b)) as int,
    )
    &&& f.physics == (PhysicsObject { collision_radius: DEBRIS_RADIUS, kind: ObjectKind::Debris })
    &&& f.satellite.is_none()
    &&& f.debris == Some(
        Debris {
            parent_collision: Some(collision_id),
            generation: next_generation(max_u32(a.generation(), b.generation())),
            creation_time: time,
        },
    )
}

/// The fragments of one collision between `a` and `b`.
pub fn breakup(
    a: &SpaceObject,
    b: &SpaceObject,
    collision_id: u32,
    creation_time: u64,
    rng: &mut rand::rngs::StdRng,
) -> (frags: Vec<SpaceObject>)
    requires
        a.state.wf(),
        b.state.wf(),
    ensures
        frags@.len() == collision_fragments(*a, *b),
        forall|i: int|
            0 <= i < frags@.len() ==> is_fragment(#[trigger] frags@[i], *a, *b, collision_id, creation_time)
                && frags@[i].state.wf(),
{
    let pa = a.state.position;
    let pb = b.state.position;
    let point = midpoint_of(pa, pb);
    let rel_sq = a.state.velocity.distance_squared(&b.state.velocity);
    let rel_speed = isqrt_u128(rel_sq);
    proof {
        lemma_isqrt_unique(rel_sq as nat, rel_speed as int);
    }
    let total: u128 = a.state.mass as u128 + b.state.mass as u128;
    let count = calculate_debris_count(total, rel_sq);
    let mass = calculate_fragment_mass(total, count);
    let generation = if a.generation_of() >= b.generation_of() {
        a.generation_of()
    } else {
        b.generation_of()
    };
    let lineage = Debris::new(Some(collision_id), next_generation_of(generation), creation_time);
    let mut frags: Vec<SpaceObject> = Vec::new();
    let mut i: u64 = 0;
    while i < count
        invariant
            a.state.wf(),
            b.state.wf(),
            i <= count,
            frags@.len() == i,
            count == collision_fragments(*a, *b),
            mass == fragment_mass(total_mass(*a, *b), collision_fragments(*a, *b)),
            mass > 0 && mass <= u64::MAX,
            rel_speed == isqrt(rel_speed_sq(*a, *b)),
            point == midpoint(a.state.position, b.state.position),
            lineage == (Debris {
                parent_collision: Some(collision_id),
                generation: next_generation(max_u32(a.generation(), b.generation())),
                creation_time,
            }),
            forall|j: int|
                0 <= j < frags@.len() ==> is_fragment(#[trigger] frags@[j], *a, *b, collision_id, creation_time)
                    && frags@[j].state.wf(),
        decreases count - i,
    {
        let velocity = generate_debris_velocity(a.state.velocity, b.state.velocity, rel_speed, rng);
        let f = SpaceObject {
            state: OrbitalState::new(point, velocity, mass as u64),
            physics: PhysicsObject::debris(),
            satellite: None,
            debris: Some(lineage),
        };
        frags.push(f);
        i += 1;
    }
    frags
}

/// A resolved collision, as reported to the caller.
#[derive(Clone, Copy, Debug, PartialEq, Eq, Structural)]
pub struct CollisionEvent {
    pub collision_id: u32,
    /// Indices of the two objects in the population before the step.
    pub first: usize,
    pub second: usize,
    /// Where the fragments appear (micrometres).
    pub point: Vec3,
    /// Combined mass (grams).
    pub total_mass: u128,
    /// Squared relative speed ((micrometres per second)^2); with the mass it
    /// gives the collision energy.
    pub rel_speed_sq: u128,
    pub fragments: u64,
}

/// The event recorded for the resolved collision of `a` and `b`.
pub open spec fn event_of(id: u32, i: usize, j: usize, a: SpaceObject, b: SpaceObject) -> CollisionEvent {
    CollisionEvent {
        collision_id: id,
        first: i,
        second: j,
        point: midpoint(a.state.position, b.state.position),
        total_mass: total_mass(a, b) as u128,
        rel_speed_sq: rel_speed_sq(a, b) as u128,
        fragments: collision_fragments(a, b) as u64,
    }
}

/// The pair `p` is resolved: both indices name live objects, distinct and not
/// yet consumed by an earlier pair of the same step.
pub open spec fn pair_applies(consumed: Set<int>, n: int, p: (usize, usize)) -> bool {
    &&& p.0 < n
    &&& p.1 < n
    &&& p.0 != p.1
    &&& !consumed.contains(p.0 as int)
    &&& !consumed.contains(p.1 as int)
}

/// Objects consumed by the first `k` pairs.
pub open spec fn consumed_after(n: int, pairs: Seq<(usize, usize)>, k: int) -> Set<int>
    decreases k,
{
    if k <= 0 {
        Set::empty()
    } else {
        let c = consumed_after(n, pairs, k - 1);
        let p = pairs[k - 1];
        if pair_applies(c, n, p) {
            c.insert(p.0 as int).insert(p.1 as int)
        } else {
            c
        }
    }
}

/// How many of the first `k` pairs are resolved.
pub open spec fn applied_before(n: int, pairs: Seq<(usize, usize)>, k: int) -> nat
    decreases k,
{
    if k <= 0 {
        0
    } else if pair_applies(consumed_after(n, pairs, k - 1), n, pairs[k - 1]) {
        applied_before(n, pairs, k - 1) + 1
    } else {
        applied_before(n, pairs, k - 1)
    }
}

/// Fragments produced by the first `k` pairs.
pub open spec fn fragments_before(objects: Seq<SpaceObject>, pairs: Seq<(usize, usize)>, k: int) -> nat
    decreases k,
{
    if k <= 0 {
        0
    } else {
        let p = pairs[k - 1];
        if pair_applies(consumed_after(objects.len() as int, pairs, k - 1), objects.len() as int, p) {
            fragments_before(objects, pairs, k - 1) + collision_fragments(
                objects[p.0 as int],
                objects[p.1 as int],
            )
        } else {
            fragments_before(objects, pairs, k - 1)
        }
    }
}

/// Identifier given to the collision of pair `k`: the first identifier plus the
/// number of collisions resolved before it, wrapping.
pub open spec fn collision_id_at(first: u32, n: int, pairs: Seq<(usize, usize)>, k: int) -> u32 {
    ((first + applied_before(n, pairs, k)) % 0x1_0000_0000) as u32
}

/// The objects from index `m` on that are not consumed, in order.
pub open spec fn kept_from(objects: Seq<SpaceObject>, consumed: Set<int>, m: int) -> Seq<SpaceObject>
    decreases objects.len() - m,
{
    if m >= objects.len() || m < 0 {
        Seq::empty()
    } else if consumed.contains(m) {
        kept_from(objects, consumed, m + 1)
    } else {
        seq![objects[m]].add(kept_from(objects, consumed, m + 1))
    }
}

/// Resolves the collisions of this step in order. A pair naming an object
/// that is missing or already consumed is skipped. Each resolved pair gets the
/// next collision identifier, an event and its fragments; afterwards the
/// consumed objects are removed and the fragments are appended after the
/// survivors.
pub fn debris_generation_system(
    objects: &mut Vec<SpaceObject>,
    collision_pairs: &crate::collision::CollisionPairs,
    next_collision_id: &mut u32,
    creation_time: u64,
    rng: &mut rand::rngs::StdRng,
) -> (events: Vec<CollisionEvent>)
    requires
        forall|i: int| 0 <= i < old(objects)@.len() ==> (#[trigger] old(objects)@[i]).state.wf(),
    ensures
        ({
            let objs = old(objects)@;
            let n = objs.len() as int;
            let pairs = collision_pairs.pairs@;
            let kept = kept_from(objs, consumed_after(n, pairs, pairs.len() as int), 0);
            &&& final(objects)@.len() == kept.len() + fragments_before(objs, pairs, pairs.len() as int)
            &&& final(objects)@.subrange(0, kept.len() as int) == kept
            &&& *final(next_collision_id) == collision_id_at(*old(next_collision_id), n, pairs, pairs.len() as int)
            &&& forall|k: int, t: int|
                0 <= k < pairs.len() && pair_applies(consumed_after(n, pairs, k), n, pairs[k]) && 0 <= t
                    < collision_fragments(objs[pairs[k].0 as int], objs[pairs[k].1 as int]) ==> {
                    let f = #[trigger] final(objects)@[kept.len() + fragments_before(objs, pairs, k) + t];
                    &&& is_fragment(
                        f,
                        objs[pairs[k].0 as int],
                        objs[pairs[k].1 as int],
                        collision_id_at(*old(next_collision_id), n, pairs, k),
                        creation_time,
                    )
                    &&& f.state.wf()
                }
        }),
        forall|i: int| 0 <= i < final(objects)@.len() ==> (#[trigger] final(objects)@[i]).state.wf(),
        ({
            let objs = old(objects)@;
            let n = objs.len() as int;
            let pairs = collision_pairs.pairs@;
            &&& events@.len() == applied_before(n, pairs, pairs.len() as int)
            &&& forall|k: int|
                0 <= k < pairs.len() && pair_applies(consumed_after(n, pairs, k), n, pairs[k]) ==> #[trigger] events@[applied_before(n, pairs, k) as int]
                    == event_of(
                    collision_id_at(*old(next_collision_id), n, pairs, k),
                    pairs[k].0,
                    pairs[k].1,
                    objs[pairs[k].0 as int],
                    objs[pairs[k].1 as int],
                )
        }),
{
    let ghost objs = objects@;
    let ghost pairs = collision_pairs.pairs@;
    let ghost first = *next_collision_id;
    let n = objects.len();
    let mut consumed: Vec<bool> = Vec::new();
    while consumed.len() < n
        invariant
            consumed@.len() <= n,
            forall|x: int| 0 <= x < consumed@.len() ==> !#[trigger] consumed@[x],
        decreases n - consumed@.len(),
    {
        consumed.push(false);
    }
    let mut fragments: Vec<SpaceObject> = Vec::new();
    let mut events: Vec<CollisionEvent> = Vec::new();
    let mut k: usize = 0;
    while k < collision_pairs.pairs.len()
        invariant
            events@.len() == applied_before(n as int, pairs, k as int),
            forall|k2: int|
                0 <= k2 < k && pair_applies(consumed_after(n as int, pairs, k2), n as int, pairs[k2]) ==> #[trigger] events@[applied_before(n as int, pairs, k2) as int]
                    == event_of(
                    collision_id_at(first, n as int, pairs, k2),
                    pairs[k2].0,
                    pairs[k2].1,
                    objs[pairs[k2].0 as int],
                    objs[pairs[k2].1 as int],
                ),
            objects@ == objs,
            n == objs.len(),
            pairs == collision_pairs.pairs@,
            forall|i: int| 0 <= i < objs.len() ==> (#[trigger] objs[i]).state.wf(),
            k <= pairs.len(),
            consumed@.len() == n,
            forall|x: int| 0 <= x < n ==> #[trigger] consumed@[x] == consumed_after(n as int, pairs, k as int).contains(x),
            fragments@.len() == fragments_before(objs, pairs, k as int),
            *next_collision_id == collision_id_at(first, n as int, pairs, k as int),
            forall|j: int| 0 <= j < fragments@.len() ==> (#[trigger] fragments@[j]).state.wf(),
            forall|k2: int, t: int|
                0 <= k2 < k && pair_applies(consumed_after(n as int, pairs, k2), n as int, pairs[k2]) && 0 <= t
                    < collision_fragments(objs[pairs[k2].0 as int], objs[pairs[k2].1 as int]) ==> is_fragment(
                    #[trigger] fragments@[fragments_before(objs, pairs, k2) + t],
                    objs[pairs[k2].0 as int],
                    objs[pairs[k2].1 as int],
                    collision_id_at(first, n as int, pairs, k2),
                    creation_time,
                ),
        decreases pairs.len() - k,
    {
        let (i, j) = collision_pairs.pairs[k];
        let ghost c = consumed_after(n as int, pairs, k as int);
        if i < n && j < n && i != j && !consumed[i] && !consumed[j] {
            let id = *next_collision_id;
            let mut frags = breakup(&objects[i], &objects[j], id, creation_time, rng);
            let ghost events_before = events@;
            events.push(collision_event(id, i, j, &objects[i], &objects[j]));
            let ghost before = fragments@;
            let ghost new_frags = frags@;
            fragments.append(&mut frags);
            consumed[i] = true;
            consumed[j] = true;
            *next_collision_id = if id < u32::MAX {
                id + 1
            } else {
                0
            };
            proof {
                assert(pair_applies(c, n as int, pairs[k as int]));
                assert forall|k2: int|
                    0 <= k2 < k + 1 && pair_applies(consumed_after(n as int, pairs, k2), n as int, pairs[k2]) implies #[trigger] events@[applied_before(n as int, pairs, k2) as int]
                        == event_of(
                        collision_id_at(first, n as int, pairs, k2),
                        pairs[k2].0,
                        pairs[k2].1,
                        objs[pairs[k2].0 as int],
                        objs[pairs[k2].1 as int],
                    ) by {
                    if k2 < k {
                        lemma_applied_before_mono(n as int, pairs, k2 + 1, k as int);
                        assert(events@[applied_before(n as int, pairs, k2) as int] == events_before[applied_before(n as int, pairs, k2) as int]);
                    }
                }
                assert forall|k2: int, t: int|
                    0 <= k2 < k + 1 && pair_applies(consumed_after(n as int, pairs, k2), n as int, pairs[k2])
                        && 0 <= t < collision_fragments(objs[pairs[k2].0 as int], objs[pairs[k2].1 as int])
                        implies is_fragment(
                    #[trigger] fragments@[fragments_before(objs, pairs, k2) + t],
                    objs[pairs[k2].0 as int],
                    objs[pairs[k2].1 as int],
                    collision_id_at(first, n as int, pairs, k2),
                    creation_time,
                ) by {
                    if k2 == k {
                        assert(fragments@[fragments_before(objs, pairs, k2) + t] == new_frags[t]);
                    } else {
                        lemma_fragments_before_mono(objs, pairs, k2 + 1, k as int);
                        assert(fragments@[fragments_before(objs, pairs, k2) + t] == before[fragments_before(objs, pairs, k2) + t]);
                    }
                }
                assert forall|j2: int| 0 <= j2 < fragments@.len() implies (#[trigger] fragments@[j2]).state.wf() by {
                    if j2 >= before.len() {
                        assert(fragments@[j2] == new_frags[j2 - before.len()]);
                    } else {
                        assert(fragments@[j2] == before[j2]);
                    }
                }
            }
        }
        k += 1;
    }
    let ghost c = consumed_after(n as int, pairs, pairs.len() as int);
    let mut m: usize = n;
    while m > 0
        invariant
            m <= n,
            n == objs.len(),
            consumed@.len() == n,
            forall|x: int| 0 <= x < n ==> #[trigger] consumed@[x] == c.contains(x),
            objects@ == objs.subrange(0, m as int) + kept_from(objs, c, m as int),
        decreases m,
    {
        m -= 1;
        if consumed[m] {
            objects.remove(m);
            proof {
                assert(objects@ =~= objs.subrange(0, m as int) + kept_from(objs, c, m as int));
            }
        } else {
            proof {
                assert(objects@ =~= objs.subrange(0, m as int) + kept_from(objs, c, m as int));
            }
        }
    }
    let ghost kept = objects@;
    proof {
        assert(kept =~= kept_from(objs, c, 0));
        lemma_kept_wf(objs, c, 0);
    }
    let ghost frs = fragments@;
    objects.append(&mut fragments);
    proof {
        assert(objects@.subrange(0, kept.len() as int) =~= kept);
        assert forall|k2: int, t: int|
            0 <= k2 < pairs.len() && pair_applies(consumed_after(n as int, pairs, k2), n as int, pairs[k2]) && 0 <= t
                < collision_fragments(objs[pairs[k2].0 as int], objs[pairs[k2].1 as int]) implies {
                let f = #[trigger] objects@[kept.len() + fragments_before(objs, pairs, k2) + t];
                &&& is_fragment(
                    f,
                    objs[pairs[k2].0 as int],
                    objs[pairs[k2].1 as int],
                    collision_id_at(first, n as int, pairs, k2),
                    creation_time,
                )
                &&& f.state.wf()
            } by {
            lemma_fragments_before_mono(objs, pairs, k2 + 1, pairs.len() as int);
            let idx = fragments_before(objs, pairs, k2) + t;
            assert(objects@[kept.len() + idx] == frs[idx]);
            assert(is_fragment(frs[idx], objs[pairs[k2].0 as int], objs[pairs[k2].1 as int], collision_id_at(first, n as int, pairs, k2), creation_time));
        }
        assert forall|i: int| 0 <= i < objects@.len() implies (#[trigger] objects@[i]).state.wf() by {
            if i < kept.len() {
                assert(objects@[i] == kept[i]);
            } else {
                assert(objects@[i] == frs[i - kept.len()]);
            }
        }
    }
    events
}

/// The event for the collision `collision_id` of objects `i` and `j`.
fn collision_event(collision_id: u32, i: usize, j: usize, a: &SpaceObject, b: &SpaceObject) -> (r: CollisionEvent)
    requires
        a.state.wf(),
        b.state.wf(),
    ensures
        r == event_of(collision_id, i, j, *a, *b),
{
    let pa = a.state.position;
    let pb = b.state.position;
    let total: u128 = a.state.mass as u128 + b.state.mass as u128;
    let rel_sq = a.state.velocity.distance_squared(&b.state.velocity);
    CollisionEvent {
        collision_id,
        first: i,
        second: j,
        point: midpoint_of(pa, pb),
        total_mass: total,
        rel_speed_sq: rel_sq,
        fragments: calculate_debris_count(total, rel_sq),
    }
}

/// The count of resolved pairs only grows with the number of pairs considered.
proof fn lemma_applied_before_mono(n: int, pairs: Seq<(usize, usize)>, a: int, b: int)
    requires
        0 <= a <= b,
    ensures
        applied_before(n, pairs, a) <= applied_before(n, pairs, b),
    decreases b - a,
{
    if a < b {
        lemma_applied_before_mono(n, pairs, a, b - 1);
    }
}

/// Fragment counts only grow with the number of pairs considered.
proof fn lemma_fragments_before_mono(objects: Seq<SpaceObject>, pairs: Seq<(usize, usize)>, a: int, b: int)
    requires
        0 <= a <= b,
    ensures
        fragments_before(objects, pairs, a) <= fragments_before(objects, pairs, b),
    decreases b - a,
{
    if a < b {
        lemma_fragments_before_mono(objects, pairs, a, b - 1);
    }
}

/// Kept objects are objects of the population.
proof fn lemma_kept_wf(objects: Seq<SpaceObject>, c: Set<int>, m: int)
    requires
        forall|i: int| 0 <= i < objects.len() ==> (#[trigger] objects[i]).state.wf(),
    ensures
        forall|i: int| 0 <= i < kept_from(objects, c, m).len() ==> (#[trigger] kept_from(objects, c, m)[i]).state.wf(),
    decreases objects.len() - m,
{
    if m < objects.len() && m >= 0 {
        lemma_kept_wf(objects, c, m + 1);
        let rest = kept_from(objects, c, m + 1);
        if !c.contains(m) {
            assert forall|i: int| 0 <= i < kept_from(objects, c, m).len() implies (#[trigger] kept_from(objects, c, m)[i]).state.wf() by {
                if i > 0 {
                    assert(kept_from(objects, c, m)[i] == rest[i - 1]);
                }
            }
        }
    }
}

} // verus!
