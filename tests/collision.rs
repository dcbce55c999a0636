use kessler_simulator::collision::{
    collision_detection_system, objects_within, update_spatial_octree_system, CollisionPairs,
    SpatialOctree,
};
use kessler_simulator::debris::{
    breakup, calculate_debris_count, calculate_fragment_mass, debris_generation_system,
    generate_debris_velocity, kick_velocity,
};
use kessler_simulator::geometry::Vec3;
use kessler_simulator::objects::{ObjectKind, OrbitalState, PhysicsObject, SpaceObject};
use rand::rngs::StdRng;
use rand::{Rng, SeedableRng};

const KM: i64 = 1_000_000_000;

fn body(position: Vec3, velocity: Vec3, mass: u64, radius: u64) -> SpaceObject {
    SpaceObject {
        state: OrbitalState::new(position, velocity, mass),
        physics: PhysicsObject { collision_radius: radius, kind: ObjectKind::Satellite },
        satellite: None,
        debris: None,
    }
}

fn detect(objects: &Vec<SpaceObject>) -> Vec<(usize, usize)> {
    let mut tree = SpatialOctree::default();
    update_spatial_octree_system(&mut tree, objects);
    let mut pairs = CollisionPairs::new();
    collision_detection_system(&tree, objects, &mut pairs);
    pairs.pairs
}

fn dist2(a: Vec3, b: Vec3) -> i128 {
    let dx = (a.x - b.x) as i128;
    let dy = (a.y - b.y) as i128;
    let dz = (a.z - b.z) as i128;
    dx * dx + dy * dy + dz * dz
}

#[test]
fn close_pair_collides_and_breaks_up() {
    // 7000 km and 7000.0005 km on the x axis, radii 0.001 km, 1000 kg each.
    let objects = vec![
        body(Vec3::new(7000 * KM, 0, 0), Vec3::new(0, 7_500_000_000, 0), 1_000_000, 1_000_000),
        body(Vec3::new(7000 * KM + 500_000, 0, 0), Vec3::new(0, 0, 7_500_000_000), 1_000_000, 1_000_000),
    ];
    let pairs = detect(&objects);
    assert_eq!(pairs, vec![(0, 1)]);

    let mut population = objects.clone();
    let mut rng = StdRng::seed_from_u64(7);
    let mut next_id: u32 = 0;
    let cp = CollisionPairs { pairs };
    let events = debris_generation_system(&mut population, &cp, &mut next_id, 0, &mut rng);
    assert_eq!(events.len(), 1);
    assert_eq!((events[0].first, events[0].second, events[0].collision_id), (0, 1, 0));
    assert_eq!(events[0].fragments as usize, population.len());
    assert!(population.len() >= 2 && population.len() <= 50);
    assert!(population.iter().all(|o| o.debris.is_some() && o.satellite.is_none()));
    assert!(population.iter().all(|o| o.state.mass > 0));
    assert!(population.iter().all(|o| o.state.position == Vec3::new(7000 * KM + 250_000, 0, 0)));
    assert_eq!(next_id, 1);
}

#[test]
fn separated_pair_does_not_collide() {
    let objects = vec![
        body(Vec3::new(7000 * KM, 0, 0), Vec3::zero(), 1_000_000, 1_000_000),
        body(Vec3::new(7001 * KM, 0, 0), Vec3::zero(), 1_000_000, 1_000_000),
    ];
    assert!(detect(&objects).is_empty());
}

#[test]
fn pairs_are_canonical_and_unique() {
    let mut rng = StdRng::seed_from_u64(3);
    let mut objects = Vec::new();
    for _ in 0..60 {
        let p = Vec3::new(
            7000 * KM + rng.gen_range(0..20_000_000),
            rng.gen_range(0..20_000_000),
            rng.gen_range(0..20_000_000),
        );
        objects.push(body(p, Vec3::zero(), 1_000_000, rng.gen_range(1_000_000..4_000_000)));
    }
    let pairs = detect(&objects);
    let mut expected = Vec::new();
    for i in 0..objects.len() {
        for j in i + 1..objects.len() {
            let r = (objects[i].physics.collision_radius + objects[j].physics.collision_radius) as i128;
            if dist2(objects[i].state.position, objects[j].state.position) <= r * r {
                expected.push((i, j));
            }
        }
    }
    assert!(!expected.is_empty());
    for &(a, b) in &pairs {
        assert!(a < b);
        assert!(!pairs.contains(&(b, a)));
    }
    let mut sorted = pairs.clone();
    sorted.sort();
    sorted.dedup();
    assert_eq!(sorted.len(), pairs.len());
    assert_eq!(sorted, expected);
}

#[test]
fn octree_query_matches_brute_force() {
    let mut rng = StdRng::seed_from_u64(11);
    let mut objects = Vec::new();
    for _ in 0..400 {
        let p = Vec3::new(
            rng.gen_range(-60_000 * KM..60_000 * KM),
            rng.gen_range(-60_000 * KM..60_000 * KM),
            rng.gen_range(-60_000 * KM..60_000 * KM),
        );
        objects.push(body(p, Vec3::zero(), 1, 1));
    }
    let mut tree = SpatialOctree::default();
    update_spatial_octree_system(&mut tree, &objects);
    let limit = 50_000 * KM;
    for _ in 0..50 {
        let c = Vec3::new(
            rng.gen_range(-limit..limit),
            rng.gen_range(-limit..limit),
            rng.gen_range(-limit..limit),
        );
        let radius: u64 = rng.gen_range(1_000 * KM..20_000 * KM) as u64;
        let mut found = objects_within(&tree, &objects, c, radius);
        found.sort();
        let expected: Vec<usize> = (0..objects.len())
            .filter(|&i| {
                let p = objects[i].state.position;
                p.x.abs() <= limit
                    && p.y.abs() <= limit
                    && p.z.abs() <= limit
                    && dist2(p, c) <= (radius as i128) * (radius as i128)
            })
            .collect();
        assert_eq!(found, expected);
    }
}

#[test]
fn fragment_count_values() {
    assert_eq!(calculate_debris_count(0, 0), 2);
    // 2000 kg at rest: floor(sqrt(2)) = 1, raised to the minimum.
    assert_eq!(calculate_debris_count(2_000_000, 0), 2);
    // 1e6 kg: floor(sqrt(1000)) = 31.
    assert_eq!(calculate_debris_count(1_000_000_000, 0), 31);
    // 2000 kg with energy 1e14: 1 + 10.
    assert_eq!(calculate_debris_count(2_000_000, 100_000_000_000_000_000_000_000_000_000), 11);
    // 9000 kg with energy term 2: 3 + 2.
    assert_eq!(calculate_debris_count(9_000_000, 1_000_000_000_000_000_000_000_000_000), 5);
    assert_eq!(calculate_debris_count(u128::MAX, u128::MAX), 50);
}

#[test]
fn fragment_mass_values() {
    assert_eq!(calculate_fragment_mass(2_000_000, 2), 100_000);
    assert_eq!(calculate_fragment_mass(1, 50), 1);
    assert_eq!(calculate_fragment_mass(1001, 10), 11);
}

#[test]
fn kick_velocity_exact() {
    let v = kick_velocity(
        Vec3::new(0, 7_000_000_000, 0),
        Vec3::new(0, 7_000_000_001, 0),
        1000,
        Vec3::new(0, 0, 1000),
        500,
    );
    assert_eq!(v, Vec3::new(0, 7_000_000_000, 500));
    let w = kick_velocity(Vec3::new(-3, 0, 0), Vec3::new(0, 0, 0), 1000, Vec3::new(-600, 0, 800), 100);
    assert_eq!(w, Vec3::new(-1 - 60, 0, 80));
}

#[test]
fn debris_velocity_within_kick_bounds() {
    let mut rng = StdRng::seed_from_u64(5);
    let v1 = Vec3::new(1_000_000, 2_000_000, 0);
    let v2 = Vec3::new(3_000_000, -2_000_000, 0);
    let mut seen = Vec::new();
    for _ in 0..200 {
        let v = generate_debris_velocity(v1, v2, 1_000_000, &mut rng);
        if !seen.contains(&v) {
            seen.push(v);
        }
        let d = dist2(v, Vec3::new(2_000_000, 0, 0));
        assert!(d <= 500_001i128 * 500_001);
        assert!(d >= 99_000i128 * 99_000);
    }
    assert!(seen.len() > 100);
}

#[test]
fn breakup_fragments_follow_parents() {
    let mut rng = StdRng::seed_from_u64(9);
    let a = body(Vec3::new(10, 20, 30), Vec3::new(0, 1_000, 0), 5_000_000, 1);
    let mut b = body(Vec3::new(12, 20, 31), Vec3::new(0, -1_000, 0), 4_000_000, 1);
    b.debris = Some(kessler_simulator::objects::Debris::new(Some(3), 4, 0));
    let frags = breakup(&a, &b, 42, 1234, &mut rng);
    assert_eq!(frags.len(), calculate_debris_count(9_000_000, 4_000_000) as usize);
    for f in &frags {
        assert_eq!(f.state.position, Vec3::new(11, 20, 30));
        assert_eq!(f.state.mass, calculate_fragment_mass(9_000_000, frags.len() as u64) as u64);
        let d = f.debris.unwrap();
        assert_eq!(d.generation, 5);
        assert_eq!(d.parent_collision, Some(42));
        assert_eq!(d.creation_time, 1234);
    }
}

#[test]
fn consumed_objects_are_skipped() {
    let mut rng = StdRng::seed_from_u64(1);
    let mut population = vec![
        body(Vec3::new(0, 0, 7000 * KM), Vec3::zero(), 1_000_000, 1),
        body(Vec3::new(0, 0, 7000 * KM), Vec3::zero(), 1_000_000, 1),
        body(Vec3::new(0, 0, 7000 * KM), Vec3::zero(), 1_000_000, 1),
        body(Vec3::new(1, 0, 0), Vec3::zero(), 77, 1),
    ];
    let cp = CollisionPairs { pairs: vec![(0, 1), (1, 2), (2, 9), (2, 2)] };
    let mut next_id: u32 = 10;
    let events = debris_generation_system(&mut population, &cp, &mut next_id, 0, &mut rng);
    assert_eq!(next_id, 11);
    assert_eq!(events.len(), 1);
    assert_eq!(events[0].collision_id, 10);
    assert_eq!(events[0].point, Vec3::new(0, 0, 7000 * KM));
    assert_eq!(events[0].total_mass, 2_000_000);
    assert_eq!(events[0].rel_speed_sq, 0);
    assert_eq!(events[0].fragments, 2);
    assert_eq!(population[0].state.mass, 1_000_000);
    assert_eq!(population[1].state.mass, 77);
    assert_eq!(population.len(), 2 + 2);
}

#[test]
fn pairs_outside_the_index_are_found() {
    let objects = vec![
        body(Vec3::new(60_000 * KM, 0, 0), Vec3::zero(), 1_000_000, 1_000_000),
        body(Vec3::new(49_999 * KM, 0, 0), Vec3::zero(), 1_000_000, 1_000_000),
        body(Vec3::new(60_000 * KM + 1_500_000, 0, 0), Vec3::zero(), 1_000_000, 1_000_000),
        body(Vec3::new(50_000 * KM + 1_000_000, 0, 0), Vec3::zero(), 1_000_000, 1_000_000),
        body(Vec3::new(50_000 * KM - 500_000, 0, 0), Vec3::zero(), 1_000_000, 1_000_000),
    ];
    // 0 and 2 lie outside the index; 3 is just outside it and overlaps 4 inside.
    assert_eq!(detect(&objects), vec![(0, 2), (3, 4)]);
}
