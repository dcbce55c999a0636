use vstd::prelude::*;
use crate::geometry::{Vec3, isqrt, isqrt_u128, lemma_isqrt_unique};
use crate::objects::{OrbitalState, PhysicsObject, Satellite, SpaceObject};
use crate::physics::GM_SCALE;
use vstd::std_specs::iter::IteratorSpec;

verus! {

/// Mean radius of the Earth (metres).
pub const EARTH_RADIUS_M: u64 = 6_371_000;

/// Highest altitude a test satellite may be given (metres).
pub const MAX_TEST_ALTITUDE_M: u64 = 1_000_000_000_000;

/// Mass of a test satellite (grams: 1000 kg).
pub const TEST_SATELLITE_MASS: u64 = 1_000_000;

/// What `str::to_uppercase` returns for a string.
pub uninterp spec fn upper_of(s: Seq<char>) -> Seq<char>;

/// Relies on `str::to_uppercase`: the upper-case form of a string depends on
/// its characters alone.
#[verifier::external_body]
fn to_upper(s: &str) -> (r: String)
    ensures
        r@ == upper_of(s@),
{
    s.to_uppercase()
}

/// `p` occurs in `s` as a contiguous run.
pub open spec fn has_substring(s: Seq<char>, p: Seq<char>) -> bool {
    exists|i: int| 0 <= i <= s.len() - p.len() && #[trigger] s.subrange(i, i + p.len()) == p
}

/// Estimated mass (grams) of a satellite from its upper-case name.
pub open spec fn mass_for_name(u: Seq<char>) -> u64 {
    if has_substring(u, "ISS"@) || has_substring(u, "ZARYA"@) {
        450_000_000
    } else if has_substring(u, "HUBBLE"@) {
        11_110_000
    } else if has_substring(u, "GPS"@) {
        2_030_000
    } else if has_substring(u, "TERRA"@) || has_substring(u, "AQUA"@) {
        5_190_000
    } else if has_substring(u, "STARLINK"@) {
        260_000
    } else if has_substring(u, "IRIDIUM"@) {
        689_000
    } else if has_substring(u, "GLOBALSTAR"@) {
        450_000
    } else if has_substring(u, "SPOT"@) || has_substring(u, "LANDSAT"@) {
        2_200_000
    } else {
        1_000_000
    }
}

/// The characters of a string.
fn chars_of(s: &str) -> (r: Vec<char>)
    ensures
        r@ == s@,
{
    let mut it = s.chars();
    let mut r: Vec<char> = Vec::new();
    loop
        invariant
            it.obeys_prophetic_iter_laws(),
            it.decrease() is Some,
            r@ + it.remaining() == s@,
        decreases it.decrease()->0,
    {
        match it.next() {
            Some(c) => {
                r.push(c);
                proof {
                    assert(r@ + it.remaining() =~= s@);
                }
            },
            None => {
                assert(r@ =~= s@);
                return r;
            },
        }
    }
}

/// Whether `p` occurs in `s`.
fn contains_chars(s: &Vec<char>, p: &Vec<char>) -> (r: bool)
    ensures
        r == has_substring(s@, p@),
{
    if p.len() > s.len() {
        return false;
    }
    let mut i: usize = 0;
    while i <= s.len() - p.len()
        invariant
            p@.len() <= s@.len(),
            s@.len() <= usize::MAX,
            i <= s@.len() - p@.len() + 1,
            forall|k: int| 0 <= k < i ==> #[trigger] s@.subrange(k, k + p@.len()) != p@,
        decreases s@.len() - p@.len() + 1 - i,
    {
        let mut j: usize = 0;
        while j < p.len() && s[i + j] == p[j]
            invariant
                p@.len() <= s@.len(),
                s@.len() <= usize::MAX,
                i + p@.len() <= s@.len(),
                j <= p@.len(),
                forall|m: int| 0 <= m < j ==> s@[i + m] == p@[m],
            decreases p@.len() - j,
        {
            j += 1;
        }
        if j == p.len() {
            assert(s@.subrange(i as int, i + p@.len()) =~= p@);
            return true;
        }
        assert(s@.subrange(i as int, i + p@.len())[j as int] != p@[j as int]);
        i += 1;
    }
    false
}

/// Estimated mass (grams) for a name already in upper case: stations,
/// telescopes and known constellations by name, 1000 kg otherwise.
pub fn mass_for_upper_name(upper: &str) -> (r: u64)
    ensures
        r == mass_for_name(upper@),
{
    let u = chars_of(upper);
    if contains_chars(&u, &chars_of("ISS")) || contains_chars(&u, &chars_of("ZARYA")) {
        450_000_000
    } else if contains_chars(&u, &chars_of("HUBBLE")) {
        11_110_000
    } else if contains_chars(&u, &chars_of("GPS")) {
        2_030_000
    } else if contains_chars(&u, &chars_of("TERRA")) || contains_chars(&u, &chars_of("AQUA")) {
        5_190_000
    } else if contains_chars(&u, &chars_of("STARLINK")) {
        260_000
    } else if contains_chars(&u, &chars_of("IRIDIUM")) {
        689_000
    } else if contains_chars(&u, &chars_of("GLOBALSTAR")) {
        450_000
    } else if contains_chars(&u, &chars_of("SPOT")) || contains_chars(&u, &chars_of("LANDSAT")) {
        2_200_000
    } else {
        1_000_000
    }
}

/// Estimated mass (grams) of a satellite from its name, compared without
/// regard to case.
pub fn estimate_satellite_mass(name: &str) -> (r: u64)
    ensures
        r == mass_for_name(upper_of(name@)),
{
    let upper = to_upper(name);
    mass_for_upper_name(upper.as_str())
}

/// Speed of a circular orbit of radius `radius` micrometres under `gm`
/// (m^3/s^2), in micrometres per second, rounded down.
pub fn circular_speed(gm: u64, radius: u64) -> (r: u64)
    requires
        radius > 0,
    ensures
        r == isqrt(((gm as int * GM_SCALE) / radius as int) as nat),
{
    assert(gm as u128 * GM_SCALE <= 0xffff_ffff_ffff_ffff * GM_SCALE) by (nonlinear_arith)
        requires gm <= 0xffff_ffff_ffff_ffffu64;
    let q = gm as u128 * GM_SCALE / radius as u128;
    let r = isqrt_u128(q);
    proof {
        lemma_isqrt_unique(q as nat, r as int);
    }
    r
}

/// A 1000 kg test satellite on a circular orbit at `altitude_m` metres above
/// the Earth's surface: on the x axis, moving along y at circular speed.
pub fn create_test_satellite(name: String, norad_id: u32, altitude_m: u64) -> (r: SpaceObject)
    requires
        altitude_m <= MAX_TEST_ALTITUDE_M,
    ensures
        r.state.position == (Vec3 { x: ((EARTH_RADIUS_M + altitude_m) * 1_000_000) as i64, y: 0, z: 0 }),
        r.state.velocity == (Vec3 {
            x: 0,
            y: isqrt(((crate::physics::EARTH_GM as int * GM_SCALE) / ((EARTH_RADIUS_M + altitude_m) * 1_000_000)) as nat) as i64,
            z: 0,
        }),
        r.state.mass == TEST_SATELLITE_MASS,
        r.state.wf(),
        r.physics == PhysicsObject::satellite_profile(),
        r.satellite matches Some(s) && s.name@ == name@ && s.norad_id == norad_id && s.active,
        r.debris.is_none(),
{
    let radius: u64 = (EARTH_RADIUS_M + altitude_m) * 1_000_000;
    let v = circular_speed(crate::physics::EARTH_GM, radius);
    proof {
        crate::geometry::lemma_isqrt(((crate::physics::EARTH_GM as int * GM_SCALE) / radius as int) as nat);
        let q = ((crate::physics::EARTH_GM as int * GM_SCALE) / radius as int);
        assert(q <= 398_600_441_800_000 * GM_SCALE);
        assert(v <= 0x4000_0000_0000_0000) by (nonlinear_arith)
            requires v * v <= q, q <= 398_600_441_800_000_000_000_000_000_000_000int, v >= 0;
    }
    SpaceObject {
        state: OrbitalState::new(Vec3::new(radius as i64, 0, 0), Vec3::new(0, v as i64, 0), TEST_SATELLITE_MASS),
        physics: PhysicsObject::satellite(),
        satellite: Some(Satellite::new(name, norad_id, true)),
        debris: None,
    }
}

} // verus!
