use vstd::prelude::*;
use std::collections::HashSet;
use crate::geometry::{Vec3, sq};
use vstd::multiset::Multiset;
use crate::objects::SpaceObject;
use crate::octree::{OctreeNode, lemma_query_complete, lemma_query_sound};

verus! {

broadcast use vstd::std_specs::hash::group_hash_axioms;

/// Half the edge of the cube the index covers (micrometres: 50,000 km,
/// from low orbit out past geostationary altitude).
pub const ROOT_HALF_SIZE: i64 = 50_000_000_000_000;

/// Depth bound of the index.
pub const OCTREE_MAX_DEPTH: u32 = 6;

/// Largest collision radius the detector accepts (micrometres).
pub const RADIUS_LIMIT: u64 = 0x4000_0000_0000_0000;

/// The spatial index, rebuilt every step.
#[derive(Debug)]
pub struct SpatialOctree {
    pub root: OctreeNode,
}

/// Confirmed collisions of this step: pairs of object indices, lower first.
#[derive(Clone, Debug)]
pub struct CollisionPairs {
    pub pairs: Vec<(usize, usize)>,
}

/// Within the cube covered by the index.
pub open spec fn in_envelope(p: Vec3) -> bool {
    &&& -ROOT_HALF_SIZE <= p.x <= ROOT_HALF_SIZE
    &&& -ROOT_HALF_SIZE <= p.y <= ROOT_HALF_SIZE
    &&& -ROOT_HALF_SIZE <= p.z <= ROOT_HALF_SIZE
}

/// The root region: centred on the origin, depth 0, the fixed depth bound.
pub open spec fn is_root_region(n: OctreeNode) -> bool {
    &&& n.center == Vec3 { x: 0, y: 0, z: 0 }
    &&& n.half_size == ROOT_HALF_SIZE
    &&& n.depth == 0
    &&& n.max_depth == OCTREE_MAX_DEPTH
}

/// The tree holds, for every object inside the envelope, its index and position,
/// and nothing else.
pub open spec fn indexes(root: OctreeNode, objects: Seq<SpaceObject>) -> bool {
    &&& root.wf()
    &&& is_root_region(root)
    &&& forall|e: (u64, Vec3)|
        #[trigger] root.holds(e) <==> (e.0 < objects.len() && e.1 == objects[e.0 as int].state.position
            && in_envelope(e.1))
}

/// The distance of objects `i` and `j` is at most the sum of their
/// collision radii.
pub open spec fn collides(objects: Seq<SpaceObject>, i: int, j: int) -> bool {
    let a = objects[i];
    let b = objects[j];
    a.state.position.dist2(b.state.position) <= sq(a.physics.collision_radius + b.physics.collision_radius)
}

/// Every position is within the coordinate limits.
pub open spec fn positions_ok(objects: Seq<SpaceObject>) -> bool {
    forall|i: int| 0 <= i < objects.len() ==> #[trigger] objects[i].state.position.in_range()
}

/// `(i, j)` is a colliding pair in canonical order.
pub open spec fn is_collision_pair(objects: Seq<SpaceObject>, i: int, j: int) -> bool {
    0 <= i < j < objects.len() && collides(objects, i, j)
}

pub open spec fn radii_ok(objects: Seq<SpaceObject>) -> bool {
    forall|i: int| 0 <= i < objects.len() ==> #[trigger] objects[i].physics.collision_radius <= RADIUS_LIMIT
}

/// Key of an index pair in the set of pairs already examined.
pub open spec fn pair_key(i: int, j: int) -> int {
    i * 0x1_0000_0000_0000_0000 + j
}

impl Default for SpatialOctree {
    /// An empty index over the whole envelope.
    fn default() -> (r: SpatialOctree)
        ensures
            r.root.wf(),
            is_root_region(r.root),
            r.root.objects@.len() == 0,
            r.root.children@.len() == 0,
            r.root.contents() =~= Multiset::empty(),
            forall|e: (u64, Vec3)| !#[trigger] r.root.holds(e),
    {
        proof {
            reveal_with_fuel(crate::octree::pow2, 7);
            assert(crate::octree::pow2(6) == 64);
        }
        SpatialOctree {
            root: OctreeNode::new(Vec3::zero(), ROOT_HALF_SIZE, OCTREE_MAX_DEPTH, 0),
        }
    }
}

impl CollisionPairs {
    pub fn new() -> (r: CollisionPairs)
        ensures
            r.pairs@.len() == 0,
    {
        CollisionPairs { pairs: Vec::new() }
    }
}

/// Rebuilds the index from scratch with every object's current position,
/// keyed by the object's index.
pub fn update_spatial_octree_system(octree: &mut SpatialOctree, objects: &Vec<SpaceObject>)
    requires
        objects@.len() <= u64::MAX,
    ensures
        indexes(final(octree).root, objects@),
        forall|e: (u64, Vec3)|
            #[trigger] final(octree).root.contents().count(e) == if e.0 < objects@.len() && e.1
                == objects@[e.0 as int].state.position && in_envelope(e.1) {
                1nat
            } else {
                0nat
            },
{
    *octree = SpatialOctree::default();
    let mut i: usize = 0;
    while i < objects.len()
        invariant
            i <= objects@.len() <= u64::MAX,
            octree.root.wf(),
            is_root_region(octree.root),
            forall|e: (u64, Vec3)|
                #[trigger] octree.root.holds(e) <==> (e.0 < i && e.1 == objects@[e.0 as int].state.position
                    && in_envelope(e.1)),
            forall|e: (u64, Vec3)|
                #[trigger] octree.root.contents().count(e) == if e.0 < i && e.1
                    == objects@[e.0 as int].state.position && in_envelope(e.1) {
                    1nat
                } else {
                    0nat
                },
        decreases objects@.len() - i,
    {
        let p = objects[i].state.position;
        let ghost before = octree.root;
        octree.root.insert(i as u64, p);
        proof {
            assert forall|e: (u64, Vec3)|
                #[trigger] octree.root.holds(e) <==> (e.0 < i + 1 && e.1 == objects@[e.0 as int].state.position
                    && in_envelope(e.1)) by {
                assert(before.holds(e) <==> (e.0 < i && e.1 == objects@[e.0 as int].state.position
                    && in_envelope(e.1)));
            }
            assert forall|e: (u64, Vec3)|
                #[trigger] octree.root.contents().count(e) == if e.0 < i + 1 && e.1
                    == objects@[e.0 as int].state.position && in_envelope(e.1) {
                    1nat
                } else {
                    0nat
                } by {
                assert(before.contents().count(e) == if e.0 < i && e.1
                    == objects@[e.0 as int].state.position && in_envelope(e.1) {
                    1nat
                } else {
                    0nat
                });
            }
        }
        i += 1;
    }
}

/// Key of the pair of `a` and `b`, lower index first.
pub open spec fn ordered_key(a: int, b: int) -> int {
    if a < b {
        pair_key(a, b)
    } else {
        pair_key(b, a)
    }
}

/// Distinct pair keys come from distinct pairs.
proof fn lemma_pair_key_injective(i: int, j: int, k: int, l: int)
    requires
        0 <= i,
        0 <= k,
        0 <= j < 0x1_0000_0000_0000_0000,
        0 <= l < 0x1_0000_0000_0000_0000,
        pair_key(i, j) == pair_key(k, l),
    ensures
        i == k,
        j == l,
{
    let m: int = 0x1_0000_0000_0000_0000;
    if i < k {
        assert(i * m + j < k * m) by (nonlinear_arith)
            requires i < k, 0 <= j < m, m > 0;
    } else if i > k {
        assert(k * m + l < i * m) by (nonlinear_arith)
            requires k < i, 0 <= l < m, m > 0;
    }
}

/// Squared distance does not depend on the order of the points.
pub proof fn lemma_dist2_symmetric(a: Vec3, b: Vec3)
    ensures
        a.dist2(b) == b.dist2(a),
{
    assert(sq(a.x - b.x) == sq(b.x - a.x)) by (nonlinear_arith);
    assert(sq(a.y - b.y) == sq(b.y - a.y)) by (nonlinear_arith);
    assert(sq(a.z - b.z) == sq(b.z - a.z)) by (nonlinear_arith);
}

/// What has been recorded so far is sound: the pairs are distinct colliding
/// pairs whose keys are marked examined, and every examined pair that
/// collides is recorded.
spec fn pairs_sound(objects: Seq<SpaceObject>, checked: Set<u128>, pairs: Seq<(usize, usize)>) -> bool {
    &&& pairs.no_duplicates()
    &&& forall|k: int|
        0 <= k < pairs.len() ==> {
            let (i, j) = #[trigger] pairs[k];
            &&& is_collision_pair(objects, i as int, j as int)
            &&& checked.contains(pair_key(i as int, j as int) as u128)
        }
    &&& forall|i: int, j: int|
        0 <= i < j < objects.len() && #[trigger] checked.contains(pair_key(i, j) as u128) && collides(
            objects,
            i,
            j,
        ) ==> pairs.contains((i as usize, j as usize))
}

/// The pair `i < j` has been examined once the first `a` objects are done:
/// either one of them is outside the envelope and done, or both are inside
/// and a done one reaches the other within twice its own radius.
spec fn covered(objects: Seq<SpaceObject>, i: int, j: int, a: int) -> bool {
    let pi = objects[i].state.position;
    let pj = objects[j].state.position;
    let d = pi.dist2(pj);
    ||| i < a && (!in_envelope(pi) || (in_envelope(pj) && d <= sq(2 * objects[i].physics.collision_radius)))
    ||| j < a && (!in_envelope(pj) || (in_envelope(pi) && d <= sq(2 * objects[j].physics.collision_radius)))
}

/// Examines the pair of objects `a` and `b` once, in canonical order: marks
/// its key and records it when the two collide.
fn examine_pair(
    objects: &Vec<SpaceObject>,
    a: usize,
    b: usize,
    checked: &mut HashSet<u128>,
    pairs: &mut Vec<(usize, usize)>,
)
    requires
        a < objects@.len(),
        b < objects@.len(),
        a != b,
        positions_ok(objects@),
        radii_ok(objects@),
        pairs_sound(objects@, old(checked)@, old(pairs)@),
    ensures
        pairs_sound(objects@, final(checked)@, final(pairs)@),
        final(checked)@ == old(checked)@.insert(ordered_key(a as int, b as int) as u128),
{
    let ghost objs = objects@;
    let n = objects.len();
    assert(objs.len() == n);
    let (lo, hi) = if a < b {
        (a, b)
    } else {
        (b, a)
    };
    let key: u128 = (lo as u128) * 0x1_0000_0000_0000_0000 + hi as u128;
    let ghost before_pairs = pairs@;
    let ghost before_checked = checked@;
    if checked.insert(key) {
        let pa = objects[a].state.position;
        let pb = objects[b].state.position;
        let ra = objects[a].physics.collision_radius;
        let rb = objects[b].physics.collision_radius;
        assert(objs[a as int].state.position.in_range());
        assert(objs[b as int].state.position.in_range());
        assert(objs[b as int].physics.collision_radius <= RADIUS_LIMIT);
        assert(objs[a as int].physics.collision_radius <= RADIUS_LIMIT);
        let d2 = pa.distance_squared(&pb);
        let rs = ra as u128 + rb as u128;
        assert(rs * rs <= 0x8000_0000_0000_0000 * 0x8000_0000_0000_0000) by (nonlinear_arith)
            requires rs <= 0x8000_0000_0000_0000u128;
        if d2 <= rs * rs {
            pairs.push((lo, hi));
        }
        proof {
            lemma_dist2_symmetric(pa, pb);
            assert forall|k: int| 0 <= k < pairs@.len() implies {
                let (i, j) = #[trigger] pairs@[k];
                &&& is_collision_pair(objs, i as int, j as int)
                &&& checked@.contains(pair_key(i as int, j as int) as u128)
            } by {
                if k < before_pairs.len() {
                    assert(pairs@[k] == before_pairs[k]);
                }
            }
            assert(pairs@.no_duplicates()) by {
                if d2 <= rs * rs {
                    assert forall|k: int| 0 <= k < before_pairs.len() implies before_pairs[k] != (lo, hi) by {
                        let (i, j) = before_pairs[k];
                        assert(before_checked.contains(pair_key(i as int, j as int) as u128));
                    }
                }
            }
            assert forall|i: int, j: int|
                0 <= i < j < objs.len() && #[trigger] checked@.contains(pair_key(i, j) as u128) && collides(
                    objs,
                    i,
                    j,
                ) implies pairs@.contains((i as usize, j as usize)) by {
                if pair_key(i, j) as u128 == key {
                    lemma_pair_key_injective(i, j, lo as int, hi as int);
                    assert(pairs@.last() == (lo, hi));
                } else {
                    assert(before_checked.contains(pair_key(i, j) as u128));
                    assert(before_pairs.contains((i as usize, j as usize)));
                    let k = choose|k: int| 0 <= k < before_pairs.len() && before_pairs[k] == (i as usize, j as usize);
                    assert(pairs@[k] == (i as usize, j as usize));
                }
            }
        }
    } else {
        proof {
            assert(checked@ =~= before_checked.insert(key));
        }
    }
}

/// Finds every colliding pair. Each object inside the envelope (the cube the
/// index covers) queries the index with twice its own radius; each object
/// outside it is compared with every other object. Each candidate pair is
/// examined once, in canonical order, and kept when the distance is at most
/// the sum of radii.
pub fn collision_detection_system(
    octree: &SpatialOctree,
    objects: &Vec<SpaceObject>,
    collision_pairs: &mut CollisionPairs,
)
    requires
        indexes(octree.root, objects@),
        positions_ok(objects@),
        radii_ok(objects@),
    ensures
        final(collision_pairs).pairs@.no_duplicates(),
        forall|k: int|
            0 <= k < final(collision_pairs).pairs@.len() ==> (#[trigger] final(collision_pairs).pairs@[k]).0
                < final(collision_pairs).pairs@[k].1,
        forall|k: int, l: int|
            0 <= k < final(collision_pairs).pairs@.len() && 0 <= l < final(collision_pairs).pairs@.len()
                ==> #[trigger] final(collision_pairs).pairs@[k] != (
                (#[trigger] final(collision_pairs).pairs@[l]).1,
                final(collision_pairs).pairs@[l].0,
            ),
        forall|k: int|
            0 <= k < final(collision_pairs).pairs@.len() ==> is_collision_pair(
                objects@,
                (#[trigger] final(collision_pairs).pairs@[k]).0 as int,
                final(collision_pairs).pairs@[k].1 as int,
            ),
        forall|i: int, j: int|
            #[trigger] is_collision_pair(objects@, i, j) ==> final(collision_pairs).pairs@.contains(
                (i as usize, j as usize),
            ),
{
    collision_pairs.pairs.clear();
    let mut checked: HashSet<u128> = HashSet::new();
    let n = objects.len();
    let ghost objs = objects@;
    proof {
        assert(collision_pairs.pairs@.no_duplicates());
    }
    let mut a: usize = 0;
    while a < n
        invariant
            n == objs.len(),
            objs == objects@,
            indexes(octree.root, objs),
            positions_ok(objs),
            radii_ok(objs),
            a <= n,
            pairs_sound(objs, checked@, collision_pairs.pairs@),
            forall|i: int, j: int|
                0 <= i < j < n && #[trigger] collides(objs, i, j) && covered(objs, i, j, a as int)
                    ==> checked@.contains(pair_key(i, j) as u128),
        decreases n - a,
    {
        let pa = objects[a].state.position;
        let ra = objects[a].physics.collision_radius;
        assert(pa.in_range());
        if octree.root.contains_point(pa) {
            let mut nearby: Vec<u64> = Vec::new();
            let search = 2 * ra;
            octree.root.query_sphere(pa, search, &mut nearby);
            let ghost r2 = sq(search as int);
            let mut t: usize = 0;
            while t < nearby.len()
                invariant
                    n == objs.len(),
                    objs == objects@,
                    indexes(octree.root, objs),
                    positions_ok(objs),
                    radii_ok(objs),
                    a < n,
                    pa == objs[a as int].state.position,
                    ra == objs[a as int].physics.collision_radius,
                    in_envelope(pa),
                    nearby@ == octree.root.query_seq(pa, r2),
                    t <= nearby@.len(),
                    pairs_sound(objs, checked@, collision_pairs.pairs@),
                    forall|i: int, j: int|
                        0 <= i < j < n && #[trigger] collides(objs, i, j) && covered(objs, i, j, a as int)
                            ==> checked@.contains(pair_key(i, j) as u128),
                    forall|u: int|
                        0 <= u < t && nearby@[u] != a ==> checked@.contains(
                            ordered_key(a as int, #[trigger] nearby@[u] as int) as u128,
                        ),
                decreases nearby@.len() - t,
            {
                let id = nearby[t];
                proof {
                    assert(octree.root.query_seq(pa, r2).contains(id)) by {
                        assert(nearby@[t as int] == id);
                    }
                    lemma_query_sound(octree.root, pa, r2, id);
                    let q = choose|q: Vec3| octree.root.holds((id, q));
                    assert(octree.root.holds((id, q)));
                }
                let b = id as usize;
                if b != a {
                    examine_pair(objects, a, b, &mut checked, &mut collision_pairs.pairs);
                }
                t += 1;
            }
            proof {
                assert forall|i: int, j: int|
                    0 <= i < j < n && #[trigger] collides(objs, i, j) && covered(objs, i, j, a + 1)
                        implies checked@.contains(pair_key(i, j) as u128) by {
                    if !covered(objs, i, j, a as int) {
                        let other = if i == a as int { j } else { i };
                        let e = (other as u64, objs[other].state.position);
                        assert(in_envelope(objs[other].state.position));
                        assert(octree.root.holds(e));
                        lemma_dist2_symmetric(pa, objs[other].state.position);
                        lemma_query_complete(octree.root, e, pa, r2);
                        let u = choose|u: int| 0 <= u < nearby@.len() && nearby@[u] == other as u64;
                        assert(nearby@[u] as int == other);
                    }
                }
            }
        } else {
            let mut b: usize = 0;
            while b < n
                invariant
                    n == objs.len(),
                    objs == objects@,
                    positions_ok(objs),
                    radii_ok(objs),
                    a < n,
                    b <= n,
                    pairs_sound(objs, checked@, collision_pairs.pairs@),
                    forall|i: int, j: int|
                        0 <= i < j < n && #[trigger] collides(objs, i, j) && covered(objs, i, j, a as int)
                            ==> checked@.contains(pair_key(i, j) as u128),
                    forall|c: int|
                        0 <= c < b && c != a ==> checked@.contains(#[trigger] ordered_key(a as int, c) as u128),
                decreases n - b,
            {
                if b != a {
                    examine_pair(objects, a, b, &mut checked, &mut collision_pairs.pairs);
                }
                b += 1;
            }
            proof {
                assert forall|i: int, j: int|
                    0 <= i < j < n && #[trigger] collides(objs, i, j) && covered(objs, i, j, a + 1)
                        implies checked@.contains(pair_key(i, j) as u128) by {
                    if !covered(objs, i, j, a as int) {
                        let other = if i == a as int { j } else { i };
                        assert(other != a);
                        assert(checked@.contains(ordered_key(a as int, other) as u128));
                    }
                }
            }
        }
        a += 1;
    }
    proof {
        assert forall|i: int, j: int| #[trigger] is_collision_pair(objs, i, j) implies collision_pairs.pairs@.contains(
            (i as usize, j as usize),
        ) by {
            let ri = objs[i].physics.collision_radius as int;
            let rj = objs[j].physics.collision_radius as int;
            lemma_dist2_symmetric(objs[i].state.position, objs[j].state.position);
            if ri >= rj {
                assert(sq(ri + rj) <= sq(2 * ri)) by (nonlinear_arith)
                    requires ri >= rj >= 0;
            } else {
                assert(sq(ri + rj) <= sq(2 * rj)) by (nonlinear_arith)
                    requires rj >= ri >= 0;
            }
            assert(covered(objs, i, j, n as int));
        }
    }
}

/// Indices of the objects within `radius` of `center`: the broad-phase query
/// of the index, filtered by the exact distance. The result is exactly what a
/// check of every object would give.
pub fn objects_within(
    octree: &SpatialOctree,
    objects: &Vec<SpaceObject>,
    center: Vec3,
    radius: u64,
) -> (r: Vec<usize>)
    requires
        indexes(octree.root, objects@),
        center.in_range(),
        objects@.len() <= u64::MAX,
    ensures
        forall|i: int|
            0 <= i < objects@.len() ==> (#[trigger] r@.contains(i as usize) <==> (in_envelope(
                objects@[i].state.position,
            ) && objects@[i].state.position.dist2(center) <= sq(radius as int))),
        forall|k: int| 0 <= k < r@.len() ==> #[trigger] r@[k] < objects@.len(),
{
    let mut nearby: Vec<u64> = Vec::new();
    octree.root.query_sphere(center, radius, &mut nearby);
    let ghost r2 = sq(radius as int);
    let rr = radius as u128;
    assert(rr * rr <= 0xffff_ffff_ffff_ffff_ffff_ffff_ffff_ffff) by (nonlinear_arith)
        requires rr <= 0xffff_ffff_ffff_ffffu128;
    let n = objects.len();
    let mut result: Vec<usize> = Vec::new();
    let mut t: usize = 0;
    while t < nearby.len()
        invariant
            indexes(octree.root, objects@),
            center.in_range(),
            r2 == sq(radius as int),
            rr == radius,
            rr * rr <= u128::MAX,
            objects@.len() <= u64::MAX,
            n == objects@.len(),
            nearby@ == octree.root.query_seq(center, r2),
            t <= nearby@.len(),
            forall|k: int| 0 <= k < result@.len() ==> (#[trigger] result@[k]) < objects@.len(),
            forall|i: int|
                0 <= i < objects@.len() ==> (#[trigger] result@.contains(i as usize) <==> (exists|u: int|
                    0 <= u < t && nearby@[u] == i) && in_envelope(objects@[i].state.position)
                    && objects@[i].state.position.dist2(center) <= r2),
        decreases nearby@.len() - t,
    {
        let id = nearby[t];
        proof {
            assert(octree.root.query_seq(center, r2).contains(id)) by {
                assert(nearby@[t as int] == id);
            }
            lemma_query_sound(octree.root, center, r2, id);
            let q = choose|q: Vec3| octree.root.holds((id, q));
            assert(octree.root.holds((id, q)));
            assert(in_envelope(objects@[id as int].state.position));
            assert(id < objects@.len());
        }
        let b = id as usize;
        assert(b as int == id as int);
        let pb = objects[b].state.position;
        let d2 = pb.distance_squared(&center);
        let ghost before = result@;
        if d2 <= rr * rr {
            result.push(b);
        }
        proof {
            assert forall|i: int|
                0 <= i < objects@.len() implies (#[trigger] result@.contains(i as usize) <==> (exists|u: int|
                    0 <= u < t + 1 && nearby@[u] == i) && in_envelope(objects@[i].state.position)
                    && objects@[i].state.position.dist2(center) <= r2) by {
                if i == b as int {
                    assert(nearby@[t as int] as int == i);
                    if d2 <= rr * rr {
                        assert(result@[before.len() as int] == b);
                    }
                }
                if before.contains(i as usize) {
                    let k = choose|k: int| 0 <= k < before.len() && before[k] == i as usize;
                    assert(result@[k] == i as usize);
                }
                if result@.contains(i as usize) && i != b as int {
                    let k = choose|k: int| 0 <= k < result@.len() && result@[k] == i as usize;
                    if k < before.len() {
                        assert(before[k] == i as usize);
                    }
                }
                if exists|u: int| 0 <= u < t + 1 && nearby@[u] == i {
                    let u = choose|u: int| 0 <= u < t + 1 && nearby@[u] == i;
                    if u < t {
                        assert(exists|u2: int| 0 <= u2 < t && nearby@[u2] == i);
                    }
                }
            }
        }
        t += 1;
    }
    proof {
        assert forall|i: int|
            0 <= i < objects@.len() implies (#[trigger] result@.contains(i as usize) <==> (in_envelope(
                objects@[i].state.position,
            ) && objects@[i].state.position.dist2(center) <= sq(radius as int))) by {
            let p = objects@[i].state.position;
            if in_envelope(p) && p.dist2(center) <= r2 {
                let e = (i as u64, p);
                assert(octree.root.holds(e));
                lemma_query_complete(octree.root, e, center, r2);
                let u = choose|u: int| 0 <= u < nearby@.len() && nearby@[u] == i as u64;
                assert(nearby@[u] as int == i);
            }
        }
    }
    result
}

} // verus!
