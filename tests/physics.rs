use kessler_simulator::data::circular_speed;
use kessler_simulator::geometry::Vec3;
use kessler_simulator::objects::{OrbitalState, PhysicsObject, SpaceObject};
use kessler_simulator::physics::{
    integrate, physics_system, time_control_system, SimulationTime, TimeControl, EARTH_GM,
};

fn radius_km(s: &OrbitalState) -> f64 {
    let x = s.position.x as f64;
    let y = s.position.y as f64;
    let z = s.position.z as f64;
    (x * x + y * y + z * z).sqrt() / 1e9
}

/// Specific mechanical energy in km^2/s^2.
fn energy(s: &OrbitalState) -> f64 {
    let vx = s.velocity.x as f64 / 1e9;
    let vy = s.velocity.y as f64 / 1e9;
    let vz = s.velocity.z as f64 / 1e9;
    let gm_km = EARTH_GM as f64 / 1e9;
    0.5 * (vx * vx + vy * vy + vz * vz) - gm_km / radius_km(s)
}

fn circular_state(r_km: i64) -> OrbitalState {
    let r = r_km * 1_000_000_000;
    let v = circular_speed(EARTH_GM, r as u64);
    OrbitalState::new(Vec3::new(r, 0, 0), Vec3::new(0, v as i64, 0), 1_000_000)
}

#[test]
fn circular_orbit_radius_preserved_after_one_step() {
    let mut s = circular_state(7371);
    integrate(&mut s, EARTH_GM, 1000);
    let r = radius_km(&s);
    assert!((r - 7371.0).abs() / 7371.0 < 1e-4, "radius {}", r);
}

#[test]
fn energy_drift_bounded_over_ten_thousand_steps() {
    let mut s = circular_state(7371);
    let e0 = energy(&s);
    for _ in 0..10_000 {
        integrate(&mut s, EARTH_GM, 1000);
        let e = energy(&s);
        assert!(((e - e0) / e0).abs() < 1e-3, "drift {}", (e - e0) / e0);
    }
}

#[test]
fn one_step_exact_values() {
    let r: i64 = 7_371_000_000_000;
    let v: i64 = 7_353_000_000;
    let mut s = OrbitalState::new(Vec3::new(r, 0, 0), Vec3::new(0, v, 0), 5);
    integrate(&mut s, EARTH_GM, 1000);
    let g = (EARTH_GM as u128 * 1_000_000_000_000_000_000 / ((r as u128) * (r as u128))) as i64;
    assert_eq!(s.velocity, Vec3::new(-g, v, 0));
    assert_eq!(s.position, Vec3::new(r - g, v, 0));
    assert_eq!(s.mass, 5);
}

#[test]
fn object_at_origin_is_left_alone() {
    let mut s = OrbitalState::new(Vec3::zero(), Vec3::new(1, 2, 3), 9);
    integrate(&mut s, EARTH_GM, 1000);
    assert_eq!(s, OrbitalState::new(Vec3::zero(), Vec3::new(1, 2, 3), 9));
}

#[test]
fn circular_speed_value() {
    // sqrt(GM / 7371 km) = 7.3537... km/s
    assert_eq!(circular_speed(EARTH_GM, 7_371_000_000_000) / 1_000_000, 7353);
    assert_eq!(circular_speed(4, 1_000_000_000_000_000_000), 2);
}

#[test]
fn paused_clock_stops_physics() {
    let mut objects = vec![SpaceObject {
        state: circular_state(7000),
        physics: PhysicsObject::satellite(),
        satellite: None,
        debris: None,
    }];
    let before = objects[0].state;
    let mut clock = SimulationTime::new(1000);
    clock.pause();
    physics_system(&mut objects, &mut clock, EARTH_GM, 16);
    assert_eq!(objects[0].state, before);
    assert_eq!(clock.current, 0);

    clock.resume();
    physics_system(&mut objects, &mut clock, EARTH_GM, 16);
    assert_ne!(objects[0].state, before);
    assert_eq!(clock.current, 16);
}

#[test]
fn time_controls_set_speed_and_pause() {
    let mut clock = SimulationTime::new(1000);
    time_control_system(&mut clock, TimeControl::HourPerSecond);
    assert_eq!(clock.speed, 3600);
    clock.advance(10);
    assert_eq!(clock.current, 36_000);
    time_control_system(&mut clock, TimeControl::TogglePause);
    assert!(clock.paused);
    clock.advance(10);
    assert_eq!(clock.current, 36_000);
    time_control_system(&mut clock, TimeControl::TogglePause);
    assert!(!clock.paused);
    time_control_system(&mut clock, TimeControl::DayPerSecond);
    assert_eq!(clock.speed, 86_400);
    clock.advance(u64::MAX);
    assert_eq!(clock.current, u64::MAX);
}
