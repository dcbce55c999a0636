use vstd::prelude::*;
use crate::geometry::{Vec3, in_limit, isqrt, isqrt_u128, lemma_coord_le_root, lemma_isqrt_unique, tdiv, COORD_LIMIT};
use crate::objects::{OrbitalState, SpaceObject};

verus! {

/// Micrometres cubed per metre cubed: converts a gravitational parameter
/// given in m^3/s^2.
pub const GM_SCALE: u128 = 1_000_000_000_000_000_000;

/// Gravitational parameter of the Earth (m^3/s^2).
pub const EARTH_GM: u64 = 398_600_441_800_000;

/// Acceleration along one axis (micrometres per second squared): magnitude
/// `g` scaled by the coordinate over the radius, pointing toward the origin.
pub open spec fn accel_axis(g: int, p: int, r: int) -> int {
    tdiv(-(g * p), r)
}

/// Velocity along one axis after `dt` milliseconds.
pub open spec fn next_velocity(v: int, p: int, g: int, r: int, dt: int) -> int {
    v + tdiv(accel_axis(g, p, r) * dt, 1000)
}

/// Position along one axis after `dt` milliseconds, moved with the new velocity.
pub open spec fn next_position(p: int, v_new: int, dt: int) -> int {
    p + tdiv(v_new * dt, 1000)
}

/// One semi-implicit Euler step of `dt` milliseconds under a central field of
/// gravitational parameter `gm` (m^3/s^2): velocity first, then position with
/// the new velocity. An object at the origin, or one whose new state would
/// leave the coordinate limits, is left as it was.
pub open spec fn gravity_step(s: OrbitalState, gm: int, dt: int) -> OrbitalState {
    let p = s.position;
    let v = s.velocity;
    let r = isqrt(p.norm2() as nat) as int;
    if r == 0 {
        s
    } else {
        let g = (gm * GM_SCALE) / (r * r);
        let vx = next_velocity(v.x as int, p.x as int, g, r, dt);
        let vy = next_velocity(v.y as int, p.y as int, g, r, dt);
        let vz = next_velocity(v.z as int, p.z as int, g, r, dt);
        let px = next_position(p.x as int, vx, dt);
        let py = next_position(p.y as int, vy, dt);
        let pz = next_position(p.z as int, vz, dt);
        if in_limit(vx) && in_limit(vy) && in_limit(vz) && in_limit(px) && in_limit(py)
            && in_limit(pz) {
            OrbitalState {
                position: Vec3 { x: px as i64, y: py as i64, z: pz as i64 },
                velocity: Vec3 { x: vx as i64, y: vy as i64, z: vz as i64 },
                mass: s.mass,
            }
        } else {
            s
        }
    }
}

/// New velocity along one axis, or `None` when it leaves the limits.
fn axis_velocity(v: i64, p: i64, g: u128, r: u128, dt: u64) -> (res: Option<i64>)
    requires
        in_limit(v as int),
        r >= 1,
        -(r as int) <= p <= r,
        g * r <= u128::MAX,
    ensures
        ({
            let nv = next_velocity(v as int, p as int, g as int, r as int, dt as int);
            match res {
                Some(x) => in_limit(nv) && x == nv,
                None => !in_limit(nv),
            }
        }),
{
    let pa: u128 = if p >= 0 { p as u128 } else { (-(p as i128)) as u128 };
    assert(g * pa <= g * r) by (nonlinear_arith)
        requires pa <= r;
    let a_abs: u128 = g * pa / r;
    let ghost acc = accel_axis(g as int, p as int, r as int);
    assert(acc == if p >= 0 { -(a_abs as int) } else { a_abs as int }) by (nonlinear_arith)
        requires
            acc == tdiv(-(g * p), r as int),
            a_abs == (g * pa) / (r as int),
            pa == if p >= 0 { p as int } else { -p },
            r >= 1;
    let ghost nv = next_velocity(v as int, p as int, g as int, r as int, dt as int);
    let prod = a_abs.checked_mul(dt as u128);
    match prod {
        None => {
            assert(nv == v + if p >= 0 { -((a_abs * dt) / 1000) } else { (a_abs * dt) / 1000 })
                by (nonlinear_arith)
                requires
                    nv == v + tdiv(acc * dt, 1000),
                    acc == if p >= 0 { -(a_abs as int) } else { a_abs as int },
                    a_abs >= 0, dt >= 0;
            return None;
        },
        Some(m) => {
            let dv: u128 = m / 1000;
            assert(nv == v + if p >= 0 { -(dv as int) } else { dv as int }) by (nonlinear_arith)
                requires
                    nv == v + tdiv(acc * dt, 1000),
                    acc == if p >= 0 { -(a_abs as int) } else { a_abs as int },
                    m == a_abs * dt,
                    dv == m / 1000,
                    a_abs >= 0, dt >= 0;
            if dv > 0x8000_0000_0000_0000 {
                return None;
            }
            let w: i128 = if p >= 0 { v as i128 - dv as i128 } else { v as i128 + dv as i128 };
            if w < -COORD_LIMIT as i128 || w > COORD_LIMIT as i128 {
                None
            } else {
                Some(w as i64)
            }
        },
    }
}

/// New position along one axis, or `None` when it leaves the limits.
fn axis_position(p: i64, v_new: i64, dt: u64) -> (res: Option<i64>)
    requires
        in_limit(p as int),
        in_limit(v_new as int),
    ensures
        ({
            let np = next_position(p as int, v_new as int, dt as int);
            match res {
                Some(x) => in_limit(np) && x == np,
                None => !in_limit(np),
            }
        }),
{
    let va: u128 = if v_new >= 0 { v_new as u128 } else { (-(v_new as i128)) as u128 };
    assert(va * (dt as u128) <= 0x4000_0000_0000_0000 * 0xffff_ffff_ffff_ffff) by (nonlinear_arith)
        requires va <= 0x4000_0000_0000_0000u128, dt <= 0xffff_ffff_ffff_ffffu64;
    let m: u128 = va * (dt as u128);
    let d: u128 = m / 1000;
    let ghost np = next_position(p as int, v_new as int, dt as int);
    assert(np == p + if v_new >= 0 { d as int } else { -(d as int) }) by (nonlinear_arith)
        requires
            np == p + tdiv(v_new * dt, 1000),
            va == if v_new >= 0 { v_new as int } else { -v_new },
            m == va * dt,
            d == m / 1000,
            dt >= 0;
    let w: i128 = if v_new >= 0 { p as i128 + d as i128 } else { p as i128 - d as i128 };
    if w < -COORD_LIMIT as i128 || w > COORD_LIMIT as i128 {
        None
    } else {
        Some(w as i64)
    }
}

/// Advances one object by one step: `gravity_step` of its state.
pub fn integrate(state: &mut OrbitalState, gm: u64, dt_ms: u64)
    requires
        old(state).position.in_range(),
        old(state).velocity.in_range(),
    ensures
        *final(state) == gravity_step(*old(state), gm as int, dt_ms as int),
        final(state).position.in_range(),
        final(state).velocity.in_range(),
        final(state).mass == old(state).mass,
{
    let p = state.position;
    let v = state.velocity;
    let r2 = p.length_squared();
    let r64 = isqrt_u128(r2);
    proof {
        lemma_isqrt_unique(r2 as nat, r64 as int);
    }
    if r64 == 0 {
        return;
    }
    let r = r64 as u128;
    assert(r * r <= r2);
    let rr = r * r;
    assert(rr >= 1) by (nonlinear_arith)
        requires rr == r * r, r >= 1;
    assert(gm as u128 * GM_SCALE <= 0xffff_ffff_ffff_ffff * GM_SCALE) by (nonlinear_arith)
        requires gm <= 0xffff_ffff_ffff_ffffu64;
    let gm_um: u128 = gm as u128 * GM_SCALE;
    let g: u128 = gm_um / rr;
    assert(g * r <= gm_um) by (nonlinear_arith)
        requires g as int == (gm_um as int) / (rr as int), rr == r * r, r >= 1;
    proof {
        let (x, y, z) = (p.x as int, p.y as int, p.z as int);
        assert(x * x <= p.norm2() && y * y <= p.norm2() && z * z <= p.norm2()) by (nonlinear_arith)
            requires p.norm2() == x * x + y * y + z * z;
        lemma_coord_le_root(p.x as int, p.norm2(), r as int);
        lemma_coord_le_root(p.y as int, p.norm2(), r as int);
        lemma_coord_le_root(p.z as int, p.norm2(), r as int);
    }
    let vx = match axis_velocity(v.x, p.x, g, r, dt_ms) {
        Some(a) => a,
        None => return ,
    };
    let vy = match axis_velocity(v.y, p.y, g, r, dt_ms) {
        Some(a) => a,
        None => return ,
    };
    let vz = match axis_velocity(v.z, p.z, g, r, dt_ms) {
        Some(a) => a,
        None => return ,
    };
    let px = match axis_position(p.x, vx, dt_ms) {
        Some(a) => a,
        None => return ,
    };
    let py = match axis_position(p.y, vy, dt_ms) {
        Some(a) => a,
        None => return ,
    };
    let pz = match axis_position(p.z, vz, dt_ms) {
        Some(a) => a,
        None => return ,
    };
    state.position = Vec3 { x: px, y: py, z: pz };
    state.velocity = Vec3 { x: vx, y: vy, z: vz };
}

/// The simulation clock: elapsed simulated time, integration step, speed
/// multiplier and pause state.
#[derive(Clone, Copy, Debug, PartialEq, Eq, Structural)]
pub struct SimulationTime {
    /// Simulated time elapsed (milliseconds).
    pub current: u64,
    /// Integration step (milliseconds).
    pub timestep: u64,
    /// Simulated milliseconds per real millisecond.
    pub speed: u64,
    pub paused: bool,
}

/// Clock commands from the user.
#[derive(Clone, Copy, Debug, PartialEq, Eq, Structural)]
pub enum TimeControl {
    TogglePause,
    RealTime,
    MinutePerSecond,
    HourPerSecond,
    DayPerSecond,
}

/// `a + b`, held at the largest `u64`.
pub open spec fn sat_add(a: int, b: int) -> int {
    if a + b > u64::MAX {
        u64::MAX as int
    } else {
        a + b
    }
}

/// `a * b`, held at the largest `u64`.
pub open spec fn sat_mul(a: int, b: int) -> int {
    if a * b > u64::MAX {
        u64::MAX as int
    } else {
        a * b
    }
}

impl SimulationTime {
    /// The clock after `real_delta` real milliseconds: a paused clock stands
    /// still, a running one moves by the delta times the speed.
    pub open spec fn advanced(self, real_delta: int) -> SimulationTime {
        if self.paused {
            self
        } else {
            SimulationTime { current: sat_add(self.current as int, sat_mul(real_delta, self.speed as int)) as u64, ..self }
        }
    }

    /// A running clock at real-time speed.
    pub fn new(timestep: u64) -> (r: SimulationTime)
        ensures
            r == (SimulationTime { current: 0, timestep, speed: 1, paused: false }),
    {
        SimulationTime { current: 0, timestep, speed: 1, paused: false }
    }

    pub fn advance(&mut self, real_delta: u64)
        ensures
            *final(self) == old(self).advanced(real_delta as int),
    {
        if !self.paused {
            let d = real_delta.checked_mul(self.speed);
            let d = match d {
                Some(x) => x,
                None => u64::MAX,
            };
            let c = self.current.checked_add(d);
            self.current = match c {
                Some(x) => x,
                None => u64::MAX,
            };
        }
    }

    pub fn pause(&mut self)
        ensures
            *final(self) == (SimulationTime { paused: true, ..*old(self) }),
    {
        self.paused = true;
    }

    pub fn resume(&mut self)
        ensures
            *final(self) == (SimulationTime { paused: false, ..*old(self) }),
    {
        self.paused = false;
    }

    pub fn set_speed(&mut self, speed: u64)
        ensures
            *final(self) == (SimulationTime { speed, ..*old(self) }),
    {
        self.speed = speed;
    }
}

/// Speed multiplier that a clock command selects, if any.
pub open spec fn command_speed(c: TimeControl) -> Option<u64> {
    match c {
        TimeControl::TogglePause => None,
        TimeControl::RealTime => Some(1),
        TimeControl::MinutePerSecond => Some(60),
        TimeControl::HourPerSecond => Some(3600),
        TimeControl::DayPerSecond => Some(86400),
    }
}

/// Applies one clock command: toggle the pause, or set one of the speeds
/// (real time, a minute, an hour or a day per second).
pub fn time_control_system(sim_time: &mut SimulationTime, command: TimeControl)
    ensures
        command == TimeControl::TogglePause ==> *final(sim_time) == (SimulationTime {
            paused: !old(sim_time).paused,
            ..*old(sim_time)
        }),
        command_speed(command) is Some ==> *final(sim_time) == (SimulationTime {
            speed: command_speed(command)->0,
            ..*old(sim_time)
        }),
{
    match command {
        TimeControl::TogglePause => {
            if sim_time.paused {
                sim_time.resume();
            } else {
                sim_time.pause();
            }
        },
        TimeControl::RealTime => sim_time.set_speed(1),
        TimeControl::MinutePerSecond => sim_time.set_speed(60),
        TimeControl::HourPerSecond => sim_time.set_speed(3600),
        TimeControl::DayPerSecond => sim_time.set_speed(86400),
    }
}

/// The object after one integration step; only its state changes.
pub open spec fn stepped(o: SpaceObject, gm: int, dt: int) -> SpaceObject {
    SpaceObject { state: gravity_step(o.state, gm, dt), ..o }
}

/// Advances the clock by `real_delta` real milliseconds and, unless it is
/// paused, moves every object by one step of the clock's timestep.
pub fn physics_system(
    objects: &mut Vec<SpaceObject>,
    sim_time: &mut SimulationTime,
    gm: u64,
    real_delta: u64,
)
    requires
        forall|i: int|
            0 <= i < old(objects)@.len() ==> (#[trigger] old(objects)@[i]).state.position.in_range()
                && old(objects)@[i].state.velocity.in_range(),
    ensures
        *final(sim_time) == old(sim_time).advanced(real_delta as int),
        final(objects)@.len() == old(objects)@.len(),
        forall|i: int|
            0 <= i < old(objects)@.len() ==> #[trigger] final(objects)@[i] == if old(sim_time).paused {
                old(objects)@[i]
            } else {
                stepped(old(objects)@[i], gm as int, old(sim_time).timestep as int)
            },
{
    sim_time.advance(real_delta);
    if sim_time.paused {
        return;
    }
    let dt = sim_time.timestep;
    let mut i: usize = 0;
    while i < objects.len()
        invariant
            dt == old(sim_time).timestep,
            !old(sim_time).paused,
            i <= objects@.len(),
            objects@.len() == old(objects)@.len(),
            forall|j: int|
                0 <= j < i ==> #[trigger] objects@[j] == stepped(old(objects)@[j], gm as int, dt as int),
            forall|j: int| i <= j < objects@.len() ==> #[trigger] objects@[j] == old(objects)@[j],
            forall|j: int|
                0 <= j < old(objects)@.len() ==> (#[trigger] old(objects)@[j]).state.position.in_range()
                    && old(objects)@[j].state.velocity.in_range(),
        decreases objects@.len() - i,
    {
        integrate(&mut objects[i].state, gm, dt);
        i += 1;
    }
}


} // verus!
