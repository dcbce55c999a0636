use kessler_simulator::analytics::population_counts;
use kessler_simulator::data::{create_test_satellite, estimate_satellite_mass, mass_for_upper_name};
use kessler_simulator::objects::{Debris, PhysicsObject, Satellite};
use kessler_simulator::stress_test::{
    stress_test_cleanup_system, stress_test_spawn_system, StressTestCommand, StressTestConfig,
};

#[test]
fn mass_estimates_ignore_case() {
    assert_eq!(estimate_satellite_mass("iss (zarya)"), 450_000_000);
    assert_eq!(estimate_satellite_mass("Hubble Space Telescope"), 11_110_000);
    assert_eq!(estimate_satellite_mass("gps biif-1"), 2_030_000);
    assert_eq!(estimate_satellite_mass("Starlink-1007"), 260_000);
    assert_eq!(estimate_satellite_mass("Landsat-8"), 2_200_000);
    assert_eq!(estimate_satellite_mass("SENTINEL-1A"), 1_000_000);
    assert_eq!(estimate_satellite_mass(""), 1_000_000);
}

#[test]
fn mass_for_upper_names() {
    assert_eq!(mass_for_upper_name("AQUA"), 5_190_000);
    assert_eq!(mass_for_upper_name("IRIDIUM 33"), 689_000);
    assert_eq!(mass_for_upper_name("GLOBALSTAR M001"), 450_000);
    assert_eq!(mass_for_upper_name("hubble"), 1_000_000);
}

#[test]
fn test_satellite_on_circular_orbit() {
    let s = create_test_satellite("ISS (ZARYA)".to_string(), 25544, 408_000);
    assert_eq!(s.state.position.x, 6_779_000_000_000);
    assert_eq!(s.state.position.y, 0);
    assert_eq!(s.state.velocity.x, 0);
    assert_eq!(s.state.velocity.y / 1_000_000, 7668);
    assert_eq!(s.state.mass, 1_000_000);
    assert_eq!(s.physics, PhysicsObject::satellite());
    let sat = s.satellite.unwrap();
    assert_eq!(sat.name, "ISS (ZARYA)");
    assert_eq!(sat.norad_id, 25544);
    assert!(sat.active);
}

#[test]
fn debris_lineage() {
    let d = Debris::from_collision(7, 100);
    assert_eq!(d, Debris::new(Some(7), 1, 100));
    let e = Debris::from_debris(&d, 8, 200);
    assert_eq!(e.generation, 2);
    assert_eq!(e.parent_collision, Some(8));
    let top = Debris::new(None, u32::MAX, 0);
    assert_eq!(Debris::from_debris(&top, 1, 0).generation, u32::MAX);
}

#[test]
fn counts_by_kind() {
    let mut objects = vec![create_test_satellite("A".to_string(), 1, 500_000)];
    let mut frag = create_test_satellite("B".to_string(), 2, 600_000);
    frag.satellite = None;
    frag.debris = Some(Debris::from_collision(1, 0));
    objects.push(frag);
    objects.push(create_test_satellite("C".to_string(), 3, 700_000));
    let c = population_counts(&objects);
    assert_eq!(c.total_objects, 3);
    assert_eq!(c.total_satellites, 2);
    assert_eq!(c.total_debris, 1);
    let s = Satellite::new("X".to_string(), 5, false);
    assert!(!s.active);
}

#[test]
fn stress_test_spawning() {
    let mut config = StressTestConfig::default();
    assert_eq!(config.target_objects, 1000);
    assert_eq!(config.spawn_rate, 50);
    assert!(!config.enabled);
    assert_eq!(stress_test_spawn_system(&mut config, &vec![], 0), 0);
    assert_eq!(stress_test_spawn_system(&mut config, &vec![StressTestCommand::Toggle], 0), 50);
    assert_eq!(stress_test_spawn_system(&mut config, &vec![], 980), 20);
    assert_eq!(config.current_objects, 980);
    assert_eq!(stress_test_spawn_system(&mut config, &vec![StressTestCommand::Target500], 980), 0);
    assert_eq!(stress_test_spawn_system(&mut config, &vec![StressTestCommand::Target5000], 980), 50);
    assert!(stress_test_cleanup_system(&mut config, true));
    assert_eq!(config.current_objects, 0);
    assert!(!config.enabled);
    assert!(!stress_test_cleanup_system(&mut config, false));
}
