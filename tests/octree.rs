use kessler_simulator::geometry::Vec3;
use kessler_simulator::collision::SpatialOctree;
use kessler_simulator::octree::OctreeNode;

#[test]
fn insert_outside_is_refused() {
    let mut n = OctreeNode::new(Vec3::zero(), 128, 3, 0);
    assert!(!n.insert(1, Vec3::new(129, 0, 0)));
    assert!(n.insert(2, Vec3::new(128, -128, 128)));
    assert_eq!(n.objects, vec![(2, Vec3::new(128, -128, 128))]);
}

#[test]
fn full_node_subdivides() {
    let mut n = OctreeNode::new(Vec3::zero(), 128, 3, 0);
    for i in 0..4 {
        assert!(n.insert(i, Vec3::new(10, 10, 10)));
    }
    assert!(n.children.is_empty());
    assert!(n.insert(4, Vec3::new(-10, 10, 10)));
    assert_eq!(n.children.len(), 8);
    assert_eq!(n.objects.len(), 4);
    assert_eq!(n.children[2].center, Vec3::new(-64, 64, -64));
    assert_eq!(n.children[2].half_size, 64);
    assert!(n.children[6].objects.contains(&(4, Vec3::new(-10, 10, 10))));
}

#[test]
fn query_prunes_far_nodes_and_clear_empties() {
    let mut n = OctreeNode::new(Vec3::zero(), 128, 3, 0);
    for i in 0..4 {
        n.insert(i, Vec3::new(90, 90, 90));
    }
    n.insert(10, Vec3::new(-90, -90, -90));
    n.insert(11, Vec3::new(90, 90, 90));
    let mut out = Vec::new();
    n.query_sphere(Vec3::new(-95, -95, -95), 10, &mut out);
    assert_eq!(out, vec![0, 1, 2, 3, 10]);
    let mut none = Vec::new();
    n.query_sphere(Vec3::new(1000, 1000, 1000), 10, &mut none);
    assert!(none.is_empty());
    assert!(n.sphere_intersects_cube(Vec3::new(138, 0, 0), 10));
    assert!(!n.sphere_intersects_cube(Vec3::new(138, 0, 0), 9));
    n.clear();
    assert!(n.objects.is_empty());
    assert_eq!(n.children.len(), 8);
    let mut after = Vec::new();
    n.query_sphere(Vec3::zero(), 1000, &mut after);
    assert!(after.is_empty());
}

#[test]
fn single_insert_is_found_once() {
    let mut tree = SpatialOctree::default();
    assert!(tree.root.children.is_empty() && tree.root.objects.is_empty());
    let p = Vec3::new(7_000_000_000_000, 0, 0);
    assert!(tree.root.insert(9, p));
    let mut out = Vec::new();
    tree.root.query_sphere(p, 2_000_000, &mut out);
    assert_eq!(out, vec![9]);
}

#[test]
fn first_containing_octant_takes_point_on_boundary() {
    let mut n = OctreeNode::new(Vec3::zero(), 128, 3, 0);
    for i in 0..4 {
        n.insert(i, Vec3::new(1, 1, 1));
    }
    // (0, 0, 0) lies on the boundary of all eight octants; octant 0 takes it.
    assert!(n.insert(7, Vec3::zero()));
    assert_eq!(n.children[0].objects, vec![(7, Vec3::zero())]);
    assert!(n.children[1..].iter().all(|c| c.objects.is_empty()));
    assert!(n.children.iter().all(|c| c.children.is_empty()));
}

#[test]
fn octants_tile_the_parent() {
    let mut n = OctreeNode::new(Vec3::zero(), 128, 3, 0);
    for i in 0..5 {
        n.insert(i, Vec3::new(1, 1, 1));
    }
    assert_eq!(n.children.len(), 8);
    for &x in &[-128i64, -1, 0, 1, 128] {
        for &y in &[-128i64, -64, 0, 127, 128] {
            for &z in &[-128i64, 0, 5, 128] {
                let p = Vec3::new(x, y, z);
                assert!(n.children.iter().any(|c| c.contains_point(p)));
            }
        }
    }
    assert!(n.children.iter().all(|c| c.half_size * 2 == 128));
}
