use vstd::prelude::*;
use crate::geometry::{Vec3, in_limit, sq};
use vstd::multiset::Multiset;

verus! {

/// A node holds this many objects before it splits into octants.
pub const MAX_OBJECTS_PER_NODE: usize = 4;

/// One cubic region of the spatial index. A node owns either no children or
/// exactly eight, one per octant, each half as wide.
#[derive(Debug)]
pub struct OctreeNode {
    /// Center of the cube (micrometres).
    pub center: Vec3,
    /// Half the edge length of the cube (micrometres).
    pub half_size: i64,
    /// Depth below which the node no longer subdivides.
    pub max_depth: u32,
    /// Depth of this node; the root has depth 0.
    pub depth: u32,
    /// Objects stored directly in this node, with the point each was inserted at.
    pub objects: Vec<(u64, Vec3)>,
    /// The eight octants, or none.
    pub children: Vec<OctreeNode>,
}

/// `2^k`.
pub open spec fn pow2(k: nat) -> int
    decreases k,
{
    if k == 0 {
        1
    } else {
        2 * pow2((k - 1) as nat)
    }
}

/// A multiple of `2^(k+1)` halves into a multiple of `2^k`.
pub proof fn lemma_half_divisible(h: int, k: nat)
    requires
        h >= 0,
        h % pow2(k + 1) == 0,
    ensures
        h % 2 == 0,
        (h / 2) % pow2(k) == 0,
{
    lemma_pow2_positive(k);
    let p = pow2(k);
    assert(pow2(k + 1) == 2 * p);
    let m = h / (2 * p);
    assert(h == 2 * p * m) by (nonlinear_arith)
        requires h % (2 * p) == 0, p > 0, m == h / (2 * p);
    let k = p * m;
    assert(h == 2 * k) by (nonlinear_arith)
        requires h == 2 * p * m, k == p * m;
    assert(h % 2 == 0 && h / 2 == k);
    assert((p * m) % p == 0) by (nonlinear_arith)
        requires p > 0;
}

pub proof fn lemma_pow2_positive(k: nat)
    ensures
        pow2(k) >= 1,
    decreases k,
{
    if k > 0 {
        lemma_pow2_positive((k - 1) as nat);
    }
}

/// `a` limited to the interval `[lo, hi]`.
pub open spec fn clamp(a: int, lo: int, hi: int) -> int {
    if a < lo {
        lo
    } else if a > hi {
        hi
    } else {
        a
    }
}

/// Sign of the offset of octant `j` along the axis selected by `bit` (1, 2 or 4).
pub open spec fn octant_sign(j: int, bit: int) -> int {
    if (j / bit) % 2 == 1 {
        1
    } else {
        -1
    }
}

pub open spec fn ids_of(s: Seq<(u64, Vec3)>) -> Seq<u64> {
    s.map_values(|e: (u64, Vec3)| e.0)
}

impl OctreeNode {
    /// The cube lies within the coordinate limits and the depth is in bounds.
    pub open spec fn geometry_ok(self) -> bool {
        &&& self.half_size >= 0
        &&& in_limit(self.center.x - self.half_size)
        &&& in_limit(self.center.x + self.half_size)
        &&& in_limit(self.center.y - self.half_size)
        &&& in_limit(self.center.y + self.half_size)
        &&& in_limit(self.center.z - self.half_size)
        &&& in_limit(self.center.z + self.half_size)
        &&& self.depth <= self.max_depth
        &&& (self.half_size as int) % pow2((self.max_depth - self.depth) as nat) == 0
    }

    /// Inclusive containment of a point in the node's cube.
    pub open spec fn contains(self, p: Vec3) -> bool {
        &&& self.center.x - self.half_size <= p.x <= self.center.x + self.half_size
        &&& self.center.y - self.half_size <= p.y <= self.center.y + self.half_size
        &&& self.center.z - self.half_size <= p.z <= self.center.z + self.half_size
    }

    /// The point of the cube closest to `c`, as a squared distance from `c`.
    pub open spec fn closest_dist2(self, c: Vec3) -> int {
        let h = self.half_size as int;
        sq(clamp(c.x as int, self.center.x - h, self.center.x + h) - c.x) + sq(
            clamp(c.y as int, self.center.y - h, self.center.y + h) - c.y,
        ) + sq(clamp(c.z as int, self.center.z - h, self.center.z + h) - c.z)
    }

    /// The cube meets the ball of squared radius `r2` around `c`.
    pub open spec fn intersects(self, c: Vec3, r2: int) -> bool {
        self.closest_dist2(c) <= r2
    }

    /// `child` is the octant `j` of this node.
    pub open spec fn is_octant(self, j: int, child: OctreeNode) -> bool {
        let q = self.half_size / 2;
        &&& child.center.x == self.center.x + octant_sign(j, 1) * q
        &&& child.center.y == self.center.y + octant_sign(j, 2) * q
        &&& child.center.z == self.center.z + octant_sign(j, 4) * q
        &&& child.half_size == q
        &&& child.depth == self.depth + 1
        &&& child.max_depth == self.max_depth
    }

    pub open spec fn has_children(self) -> bool {
        self.children@.len() == 8
    }

    /// Well-formed: sound geometry, every stored point inside its node, and
    /// children that are well-formed octants.
    pub open spec fn wf(self) -> bool
        decreases self,
    {
        &&& self.geometry_ok()
        &&& forall|i: int|
            0 <= i < self.objects@.len() ==> #[trigger] self.contains(self.objects@[i].1)
        &&& (self.children@.len() == 0 || self.children@.len() == 8)
        &&& self.has_children() ==> {
            &&& self.depth < self.max_depth
            &&& forall|j: int| 0 <= j < 8 ==> #[trigger] self.is_octant(j, self.children@[j])
            &&& self.children@[0].wf()
            &&& self.children@[1].wf()
            &&& self.children@[2].wf()
            &&& self.children@[3].wf()
            &&& self.children@[4].wf()
            &&& self.children@[5].wf()
            &&& self.children@[6].wf()
            &&& self.children@[7].wf()
        }
    }

    /// The entry `e` (an object and its point) is stored in this subtree.
    pub open spec fn holds(self, e: (u64, Vec3)) -> bool
        decreases self,
    {
        ||| self.objects@.contains(e)
        ||| self.has_children() && {
            ||| self.children@[0].holds(e)
            ||| self.children@[1].holds(e)
            ||| self.children@[2].holds(e)
            ||| self.children@[3].holds(e)
            ||| self.children@[4].holds(e)
            ||| self.children@[5].holds(e)
            ||| self.children@[6].holds(e)
            ||| self.children@[7].holds(e)
        }
    }

    /// The objects reported by a sphere query, in visiting order: those of
    /// every node whose cube meets the sphere, parents before children.
    pub open spec fn query_seq(self, c: Vec3, r2: int) -> Seq<u64>
        decreases self,
    {
        if !self.intersects(c, r2) {
            Seq::empty()
        } else if !self.has_children() {
            ids_of(self.objects@)
        } else {
            ids_of(self.objects@) + self.children@[0].query_seq(c, r2) + self.children@[
                1
            ].query_seq(c, r2) + self.children@[2].query_seq(c, r2) + self.children@[3].query_seq(
                c,
                r2,
            ) + self.children@[4].query_seq(c, r2) + self.children@[5].query_seq(c, r2)
                + self.children@[6].query_seq(c, r2) + self.children@[7].query_seq(c, r2)
        }
    }

    /// The cube of octant `j` of this node contains `p`.
    pub open spec fn octant_contains(self, j: int, p: Vec3) -> bool {
        let q = self.half_size / 2;
        let cx = self.center.x + octant_sign(j, 1) * q;
        let cy = self.center.y + octant_sign(j, 2) * q;
        let cz = self.center.z + octant_sign(j, 4) * q;
        &&& cx - q <= p.x <= cx + q
        &&& cy - q <= p.y <= cy + q
        &&& cz - q <= p.z <= cz + q
    }

    /// The first octant from `j` on whose cube contains `p`, or 8 if none does.
    pub open spec fn first_octant_from(self, p: Vec3, j: int) -> int
        decreases 8 - j,
    {
        if j >= 8 {
            8
        } else if self.octant_contains(j, p) {
            j
        } else {
            self.first_octant_from(p, j + 1)
        }
    }

    /// The first octant (0 to 7) whose cube contains `p`, or 8 if none does.
    pub open spec fn first_octant(self, p: Vec3) -> int {
        self.first_octant_from(p, 0)
    }

    /// Every entry stored in this subtree, with its multiplicity.
    pub open spec fn contents(self) -> Multiset<(u64, Vec3)>
        decreases self,
    {
        self.objects@.to_multiset().add(
            if self.has_children() {
                self.children@[0].contents().add(self.children@[1].contents()).add(
                    self.children@[2].contents(),
                ).add(self.children@[3].contents()).add(self.children@[4].contents()).add(
                    self.children@[5].contents(),
                ).add(self.children@[6].contents()).add(self.children@[7].contents())
            } else {
                Multiset::empty()
            },
        )
    }

    /// The contents of child `j`, or nothing for a leaf.
    pub open spec fn child_contents(self, j: int) -> Multiset<(u64, Vec3)> {
        if self.has_children() {
            self.children@[j].contents()
        } else {
            Multiset::empty()
        }
    }

    /// Same region and same subdivision at every level.
    pub open spec fn same_shape(self, o: OctreeNode) -> bool
        decreases self,
    {
        &&& self.same_region(o)
        &&& self.children@.len() == o.children@.len()
        &&& self.has_children() ==> {
            &&& self.children@[0].same_shape(o.children@[0])
            &&& self.children@[1].same_shape(o.children@[1])
            &&& self.children@[2].same_shape(o.children@[2])
            &&& self.children@[3].same_shape(o.children@[3])
            &&& self.children@[4].same_shape(o.children@[4])
            &&& self.children@[5].same_shape(o.children@[5])
            &&& self.children@[6].same_shape(o.children@[6])
            &&& self.children@[7].same_shape(o.children@[7])
        }
    }

    /// Same cube, depth and depth bound.
    pub open spec fn same_region(self, o: OctreeNode) -> bool {
        &&& self.center == o.center
        &&& self.half_size == o.half_size
        &&& self.depth == o.depth
        &&& self.max_depth == o.max_depth
    }

    /// An empty leaf covering the cube `center ± half_size`.
    pub fn new(center: Vec3, half_size: i64, max_depth: u32, depth: u32) -> (r: OctreeNode)
        requires
            half_size >= 0,
            in_limit(center.x - half_size),
            in_limit(center.x + half_size),
            in_limit(center.y - half_size),
            in_limit(center.y + half_size),
            in_limit(center.z - half_size),
            in_limit(center.z + half_size),
            depth <= max_depth,
            (half_size as int) % pow2((max_depth - depth) as nat) == 0,
        ensures
            r.wf(),
            r.center == center,
            r.half_size == half_size,
            r.max_depth == max_depth,
            r.depth == depth,
            r.objects@.len() == 0,
            r.children@.len() == 0,
            r.contents() =~= Multiset::empty(),
            forall|e: (u64, Vec3)| !r.holds(e),
    {
        let r = OctreeNode {
            center,
            half_size,
            max_depth,
            depth,
            objects: Vec::new(),
            children: Vec::new(),
        };
        assert(r.wf());
        assert(r.objects@.to_multiset() =~= Multiset::empty()) by {
            broadcast use vstd::seq_lib::group_to_multiset_ensures;
        }
        r
    }

    /// Inclusive containment test against `center ± half_size`.
    pub fn contains_point(&self, point: Vec3) -> (r: bool)
        requires
            self.geometry_ok(),
        ensures
            r == self.contains(point),
    {
        let h = self.half_size;
        point.x >= self.center.x - h && point.x <= self.center.x + h && point.y >= self.center.y - h
            && point.y <= self.center.y + h && point.z >= self.center.z - h && point.z
            <= self.center.z + h
    }

    /// Whether the cube meets the ball of the given radius around `sphere_center`:
    /// the point of the cube nearest to the center is found by clamping each
    /// coordinate to the cube's bounds.
    pub fn sphere_intersects_cube(&self, sphere_center: Vec3, sphere_radius: u64) -> (r: bool)
        requires
            self.geometry_ok(),
            sphere_center.in_range(),
        ensures
            r == self.intersects(sphere_center, sq(sphere_radius as int)),
    {
        let h = self.half_size;
        let closest = Vec3::new(
            clamp_i64(sphere_center.x, self.center.x - h, self.center.x + h),
            clamp_i64(sphere_center.y, self.center.y - h, self.center.y + h),
            clamp_i64(sphere_center.z, self.center.z - h, self.center.z + h),
        );
        let d2 = closest.distance_squared(&sphere_center);
        let rr = sphere_radius as u128;
        assert(rr * rr <= 0xffff_ffff_ffff_ffff_ffff_ffff_ffff_ffff) by (nonlinear_arith)
            requires rr <= 0xffff_ffff_ffff_ffffu128;
        d2 <= rr * rr
    }

    /// Splits the node into its eight octants, all empty.
    fn subdivide(&mut self)
        requires
            old(self).wf(),
            old(self).children@.len() == 0,
            old(self).depth < old(self).max_depth,
        ensures
            final(self).wf(),
            final(self).same_region(*old(self)),
            final(self).objects == old(self).objects,
            final(self).has_children(),
            forall|j: int|
                0 <= j < 8 ==> (#[trigger] final(self).children@[j]).children@.len() == 0
                    && final(self).children@[j].objects@.len() == 0,
            forall|j: int| 0 <= j < 8 ==> #[trigger] final(self).children@[j].contents() =~= Multiset::empty(),
            final(self).contents() =~= old(self).contents(),
            forall|e: (u64, Vec3)| #[trigger] final(self).holds(e) == old(self).holds(e),
            2 * final(self).children@[0].half_size == old(self).half_size,
            forall|p: Vec3|
                #[trigger] old(self).contains(p) ==> exists|j: int|
                    0 <= j < 8 && #[trigger] final(self).children@[j].contains(p),
            forall|j: int, p: Vec3|
                0 <= j < 8 && #[trigger] final(self).children@[j].contains(p) ==> old(self).contains(p),
    {
        proof {
            lemma_half_divisible(
                self.half_size as int,
                (self.max_depth - self.depth - 1) as nat,
            );
        }
        let q = self.half_size / 2;
        let d = self.depth + 1;
        let m = self.max_depth;
        let c = self.center;
        let mut ch: Vec<OctreeNode> = Vec::new();
        ch.push(OctreeNode::new(Vec3::new(c.x - q, c.y - q, c.z - q), q, m, d));
        ch.push(OctreeNode::new(Vec3::new(c.x + q, c.y - q, c.z - q), q, m, d));
        ch.push(OctreeNode::new(Vec3::new(c.x - q, c.y + q, c.z - q), q, m, d));
        ch.push(OctreeNode::new(Vec3::new(c.x + q, c.y + q, c.z - q), q, m, d));
        ch.push(OctreeNode::new(Vec3::new(c.x - q, c.y - q, c.z + q), q, m, d));
        ch.push(OctreeNode::new(Vec3::new(c.x + q, c.y - q, c.z + q), q, m, d));
        ch.push(OctreeNode::new(Vec3::new(c.x - q, c.y + q, c.z + q), q, m, d));
        ch.push(OctreeNode::new(Vec3::new(c.x + q, c.y + q, c.z + q), q, m, d));
        self.children = ch;
        proof {
            let s = *self;
            assert forall|j: int| 0 <= j < 8 implies #[trigger] s.is_octant(j, s.children@[j]) by {
                assert(j == 0 || j == 1 || j == 2 || j == 3 || j == 4 || j == 5 || j == 6 || j == 7);
            }
            assert forall|p: Vec3| #[trigger] old(self).contains(p) implies exists|j: int|
                0 <= j < 8 && #[trigger] s.children@[j].contains(p) by {
                let j: int = (if p.x >= c.x { 1int } else { 0int }) + (if p.y >= c.y { 2int } else { 0int }) + (
                if p.z >= c.z {
                    4int
                } else {
                    0int
                });
                assert(s.children@[j].contains(p));
            }
            assert forall|j: int, p: Vec3|
                0 <= j < 8 && #[trigger] s.children@[j].contains(p) implies old(self).contains(p) by {
                assert(s.is_octant(j, s.children@[j]));
            }
            assert(s.geometry_ok());
            assert(s.children@[0].wf());
            assert(s.children@[7].wf());
            assert forall|i: int| 0 <= i < s.objects@.len() implies #[trigger] s.contains(
                s.objects@[i].1,
            ) by {
                assert(old(self).contains(old(self).objects@[i].1));
            }
            assert(s.wf());
            assert forall|j: int| 0 <= j < 8 implies (#[trigger] s.children@[j]).children@.len() == 0
                && s.children@[j].objects@.len() == 0 by {
                assert(j == 0 || j == 1 || j == 2 || j == 3 || j == 4 || j == 5 || j == 6 || j == 7);
            }
            assert forall|j: int| 0 <= j < 8 implies #[trigger] s.children@[j].contents() =~= Multiset::empty() by {
                let c = s.children@[j];
                assert(c.objects@.to_multiset() =~= Multiset::empty()) by {
                    broadcast use vstd::seq_lib::group_to_multiset_ensures;
                }
            }
            assert(s.contents() =~= old(self).contents()) by {
                assert(s.children@[0].contents() =~= Multiset::empty());
                assert(s.children@[1].contents() =~= Multiset::empty());
                assert(s.children@[2].contents() =~= Multiset::empty());
                assert(s.children@[3].contents() =~= Multiset::empty());
                assert(s.children@[4].contents() =~= Multiset::empty());
                assert(s.children@[5].contents() =~= Multiset::empty());
                assert(s.children@[6].contents() =~= Multiset::empty());
                assert(s.children@[7].contents() =~= Multiset::empty());
            }
            assert forall|e: (u64, Vec3)| #[trigger] s.holds(e) == old(self).holds(e) by {
                assert(!s.children@[0].holds(e));
                assert(!s.children@[1].holds(e));
                assert(!s.children@[2].holds(e));
                assert(!s.children@[3].holds(e));
                assert(!s.children@[4].holds(e));
                assert(!s.children@[5].holds(e));
                assert(!s.children@[6].holds(e));
                assert(!s.children@[7].holds(e));
            }
        }
    }

    /// Objects reported by the first `n` children, in order.
    pub open spec fn children_query(self, c: Vec3, r2: int, n: int) -> Seq<u64>
        decreases n,
    {
        if n <= 0 || n > self.children@.len() {
            Seq::empty()
        } else {
            self.children_query(c, r2, n - 1) + self.children@[n - 1].query_seq(c, r2)
        }
    }

    /// Inserts `entity` at `position`. Returns false, leaving the tree as it
    /// was, when the position lies outside this node's cube. A full node
    /// below the depth bound first splits; the object then goes to the first
    /// octant that contains it, or stays here if none does.
    pub fn insert(&mut self, entity: u64, position: Vec3) -> (r: bool)
        requires
            old(self).wf(),
        ensures
            final(self).wf(),
            final(self).same_region(*old(self)),
            r == old(self).contains(position),
            !r ==> *final(self) == *old(self),
            forall|e: (u64, Vec3)|
                #[trigger] final(self).holds(e) == (old(self).holds(e) || (r && e == (
                    entity,
                    position,
                ))),
            final(self).has_children() == (old(self).has_children() || (r && old(self).objects@.len()
                >= MAX_OBJECTS_PER_NODE && old(self).depth < old(self).max_depth)),
            final(self).objects@ == if r && !(final(self).has_children() && old(self).first_octant(
                position,
            ) < 8) {
                old(self).objects@.push((entity, position))
            } else {
                old(self).objects@
            },
            r ==> final(self).contents() =~= old(self).contents().insert((entity, position)),
            final(self).has_children() ==> forall|j: int|
                0 <= j < 8 ==> #[trigger] final(self).children@[j].contents() =~= old(self).child_contents(
                    j,
                ).add(
                    if r && j == old(self).first_octant(position) {
                        Multiset::singleton((entity, position))
                    } else {
                        Multiset::empty()
                    },
                ),
        decreases old(self).max_depth - old(self).depth,
    {
        if !self.contains_point(position) {
            return false;
        }
        if self.objects.len() >= MAX_OBJECTS_PER_NODE && self.depth < self.max_depth
            && self.children.len() == 0 {
            self.subdivide();
        }
        if self.children.len() == 8 {
            let ghost pre = *self;
            let mut i: usize = 0;
            while i < 8
                invariant
                    self.children@ == pre.children@,
                    self.objects@ == pre.objects@,
                    self.same_region(pre),
                    pre.wf(),
                    pre.has_children(),
                    pre.same_region(*old(self)),
                    pre.contains(position),
                    forall|e: (u64, Vec3)| #[trigger] pre.holds(e) == old(self).holds(e),
                    pre.objects@ == old(self).objects@,
                    pre.has_children() == (old(self).has_children() || (old(self).objects@.len()
                        >= MAX_OBJECTS_PER_NODE && old(self).depth < old(self).max_depth)),
                    i <= 8,
                    forall|j: int| 0 <= j < i ==> !#[trigger] pre.children@[j].contains(position),
                    forall|j: int| 0 <= j < i ==> !#[trigger] old(self).octant_contains(j, position),
                    pre.contents() =~= old(self).contents(),
                    forall|j: int|
                        0 <= j < 8 ==> #[trigger] pre.children@[j].contents() =~= old(self).child_contents(j),
                decreases 8 - i,
            {
                proof {
                    assert(pre.is_octant(i as int, pre.children@[i as int]));
                }
                if self.children[i].insert(entity, position) {
                    proof {
                        let s = *self;
                        let ii = i as int;
                        assert(s.children@ == pre.children@.update(ii, s.children@[ii]));
                        assert forall|j: int| 0 <= j < 8 implies #[trigger] s.is_octant(
                            j,
                            s.children@[j],
                        ) by {
                            assert(pre.is_octant(j, pre.children@[j]));
                        }
                        assert forall|k: int| 0 <= k < s.objects@.len() implies #[trigger] s.contains(
                            s.objects@[k].1,
                        ) by {
                            assert(pre.contains(pre.objects@[k].1));
                        }
                        assert(s.children@[0].wf());
                        assert(s.children@[1].wf());
                        assert(s.children@[2].wf());
                        assert(s.children@[3].wf());
                        assert(s.children@[4].wf());
                        assert(s.children@[5].wf());
                        assert(s.children@[6].wf());
                        assert(s.children@[7].wf());
                        assert(s.wf());
                        assert(s.children@[ii].contains(position));
                        assert(old(self).octant_contains(ii, position));
                        lemma_first_octant(*old(self), position, ii);
                        let e0 = (entity, position);
                        assert(s.children@[ii].contents() =~= pre.children@[ii].contents().insert(e0));
                        assert forall|j: int| 0 <= j < 8 implies #[trigger] s.children@[j].contents()
                            =~= old(self).child_contents(j).add(
                            if j == old(self).first_octant(position) {
                                Multiset::singleton(e0)
                            } else {
                                Multiset::empty()
                            },
                        ) by {
                            assert(pre.children@[j].contents() =~= old(self).child_contents(j));
                        }
                        assert(s.contents() =~= pre.contents().insert(e0));
                        assert forall|e: (u64, Vec3)| #[trigger]
                            s.holds(e) == (old(self).holds(e) || e == (entity, position)) by {
                            assert(pre.holds(e) == old(self).holds(e));
                            assert forall|j: int| 0 <= j < 8 implies #[trigger] s.children@[j].holds(
                                e,
                            ) == (pre.children@[j].holds(e) || (j == ii && e == (
                                entity,
                                position,
                            ))) by {}
                            assert(s.objects@ == pre.objects@);
                            lemma_unfold_holds(s, e);
                            lemma_unfold_holds(pre, e);
                        }
                    }
                    return true;
                }
                proof {
                    assert(!old(self).octant_contains(i as int, position));
                }
                i += 1;
            }
            proof {
                lemma_first_octant(*old(self), position, 8);
                lemma_same_contents(*self, pre);
                assert forall|j: int| 0 <= j < 8 implies !#[trigger] self.children@[j].contains(position) by {
                    assert(!pre.children@[j].contains(position));
                }
            }
        }
        let ghost pre = *self;
        self.objects.push((entity, position));
        proof {
            let s = *self;
            assert(pre.wf());
            assert(forall|e: (u64, Vec3)| #[trigger] pre.holds(e) == old(self).holds(e));
            assert forall|j: int| 0 <= j < 8 && s.has_children() implies #[trigger] s.is_octant(
                j,
                s.children@[j],
            ) by {
                assert(pre.is_octant(j, pre.children@[j]));
            }
            assert forall|k: int| 0 <= k < s.objects@.len() implies #[trigger] s.contains(
                s.objects@[k].1,
            ) by {
                if k < pre.objects@.len() {
                    assert(pre.contains(pre.objects@[k].1));
                }
            }
            assert(s.wf());
            assert forall|e: (u64, Vec3)| #[trigger]
                s.holds(e) == (old(self).holds(e) || e == (entity, position)) by {
                assert(s.objects@.contains(e) == (pre.objects@.contains(e) || e == (
                    entity,
                    position,
                ))) by {
                    if e == (entity, position) {
                        assert(s.objects@[pre.objects@.len() as int] == e);
                    }
                    if pre.objects@.contains(e) {
                        let k = choose|k: int| 0 <= k < pre.objects@.len() && pre.objects@[k] == e;
                        assert(s.objects@[k] == e);
                    }
                    if s.objects@.contains(e) {
                        let k = choose|k: int| 0 <= k < s.objects@.len() && s.objects@[k] == e;
                        if k < pre.objects@.len() {
                            assert(pre.objects@[k] == e);
                        }
                    }
                }
                assert(s.children@ == pre.children@);
                assert(pre.holds(e) == old(self).holds(e));
                lemma_unfold_holds(s, e);
                lemma_unfold_holds(pre, e);
            }
            let e0 = (entity, position);
            assert(s.objects@.to_multiset() =~= pre.objects@.to_multiset().insert(e0)) by {
                broadcast use vstd::seq_lib::group_to_multiset_ensures;
            }
            assert(s.contents() =~= old(self).contents().insert(e0));
        }
        true
    }

    /// Appends to `results` every object stored in a node whose cube meets the
    /// ball of the given radius around `center`: a broad phase, which may report
    /// objects farther away than the radius.
    pub fn query_sphere(&self, center: Vec3, radius: u64, results: &mut Vec<u64>)
        requires
            self.wf(),
            center.in_range(),
        ensures
            final(results)@ == old(results)@ + self.query_seq(center, sq(radius as int)),
        decreases self,
    {
        let ghost r2 = sq(radius as int);
        if !self.sphere_intersects_cube(center, radius) {
            proof {
                assert(old(results)@ + self.query_seq(center, r2) =~= old(results)@);
            }
            return;
        }
        let mut k: usize = 0;
        while k < self.objects.len()
            invariant
                k <= self.objects@.len(),
                results@ == old(results)@ + ids_of(self.objects@.subrange(0, k as int)),
            decreases self.objects@.len() - k,
        {
            proof {
                assert(ids_of(self.objects@.subrange(0, k + 1)) =~= ids_of(
                    self.objects@.subrange(0, k as int),
                ).push(self.objects@[k as int].0));
            }
            results.push(self.objects[k].0);
            k += 1;
        }
        proof {
            assert(self.objects@.subrange(0, k as int) =~= self.objects@);
        }
        if self.children.len() == 8 {
            let mut i: usize = 0;
            while i < 8
                invariant
                    self.wf(),
                    self.has_children(),
                    center.in_range(),
                    r2 == sq(radius as int),
                    i <= 8,
                    results@ == old(results)@ + ids_of(self.objects@) + self.children_query(
                        center,
                        r2,
                        i as int,
                    ),
                decreases 8 - i,
            {
                let ghost before = results@;
                self.children[i].query_sphere(center, radius, results);
                proof {
                    assert(results@ == before + self.children@[i as int].query_seq(center, r2));
                    assert(self.children_query(center, r2, i + 1) == self.children_query(
                        center,
                        r2,
                        i as int,
                    ) + self.children@[i as int].query_seq(center, r2));
                    assert(results@ =~= old(results)@ + ids_of(self.objects@)
                        + self.children_query(center, r2, i + 1));
                }
                i += 1;
            }
            proof {
                reveal_with_fuel(OctreeNode::children_query, 9);
                assert(results@ =~= old(results)@ + self.query_seq(center, r2));
            }
        } else {
            proof {
                assert(results@ =~= old(results)@ + self.query_seq(center, r2));
            }
        }
    }

    /// Empties every node; the subdivision stays.
    pub fn clear(&mut self)
        requires
            old(self).wf(),
        ensures
            final(self).wf(),
            final(self).same_region(*old(self)),
            final(self).has_children() == old(self).has_children(),
            final(self).same_shape(*old(self)),
            final(self).contents() =~= Multiset::empty(),
            forall|e: (u64, Vec3)| !#[trigger] final(self).holds(e),
        decreases old(self).max_depth - old(self).depth,
    {
        let ghost pre = *self;
        self.objects.clear();
        if self.children.len() == 8 {
            let mut i: usize = 0;
            while i < 8
                invariant
                    pre == *old(self),
                    pre.wf(),
                    pre.has_children(),
                    self.same_region(pre),
                    self.objects@.len() == 0,
                    i <= 8,
                    self.children@.len() == 8,
                    forall|j: int|
                        i <= j < 8 ==> #[trigger] self.children@[j] == pre.children@[j],
                    forall|j: int|
                        0 <= j < i ==> {
                            &&& #[trigger] self.children@[j].wf()
                            &&& self.children@[j].same_region(pre.children@[j])
                            &&& self.children@[j].same_shape(pre.children@[j])
                            &&& self.children@[j].contents() =~= Multiset::empty()
                            &&& forall|e: (u64, Vec3)| !self.children@[j].holds(e)
                        },
                decreases 8 - i,
            {
                proof {
                    assert(pre.is_octant(i as int, pre.children@[i as int]));
                    assert(pre.children@[i as int].wf());
                }
                let ghost before = self.children@;
                self.children[i].clear();
                proof {
                    let ii = i as int;
                    assert(self.children@ == before.update(ii, self.children@[ii]));
                    assert forall|j: int| 0 <= j < ii + 1 implies {
                        &&& #[trigger] self.children@[j].wf()
                        &&& self.children@[j].same_region(pre.children@[j])
                        &&& self.children@[j].same_shape(pre.children@[j])
                        &&& self.children@[j].contents() =~= Multiset::empty()
                        &&& forall|e: (u64, Vec3)| !self.children@[j].holds(e)
                    } by {
                        if j < ii {
                            assert(self.children@[j] == before[j]);
                            assert(before[j].wf());
                        }
                    }
                }
                i += 1;
            }
        }
        proof {
            let s = *self;
            assert forall|j: int| 0 <= j < 8 && s.has_children() implies #[trigger] s.is_octant(
                j,
                s.children@[j],
            ) by {
                assert(pre.is_octant(j, pre.children@[j]));
                assert(s.children@[j].wf());
            }
            if s.has_children() {
                assert(s.children@[0].wf());
                assert(s.children@[1].wf());
                assert(s.children@[2].wf());
                assert(s.children@[3].wf());
                assert(s.children@[4].wf());
                assert(s.children@[5].wf());
                assert(s.children@[6].wf());
                assert(s.children@[7].wf());
            }
            assert(s.wf());
            assert forall|e: (u64, Vec3)| !#[trigger] s.holds(e) by {
                lemma_unfold_holds(s, e);
            }
            assert(s.objects@.to_multiset() =~= Multiset::empty()) by {
                broadcast use vstd::seq_lib::group_to_multiset_ensures;
            }
            if s.has_children() {
                assert(s.children@[0].contents() =~= Multiset::empty());
                assert(s.children@[1].contents() =~= Multiset::empty());
                assert(s.children@[2].contents() =~= Multiset::empty());
                assert(s.children@[3].contents() =~= Multiset::empty());
                assert(s.children@[4].contents() =~= Multiset::empty());
                assert(s.children@[5].contents() =~= Multiset::empty());
                assert(s.children@[6].contents() =~= Multiset::empty());
                assert(s.children@[7].contents() =~= Multiset::empty());
                assert(s.children@[0].same_shape(pre.children@[0]));
                assert(s.children@[1].same_shape(pre.children@[1]));
                assert(s.children@[2].same_shape(pre.children@[2]));
                assert(s.children@[3].same_shape(pre.children@[3]));
                assert(s.children@[4].same_shape(pre.children@[4]));
                assert(s.children@[5].same_shape(pre.children@[5]));
                assert(s.children@[6].same_shape(pre.children@[6]));
                assert(s.children@[7].same_shape(pre.children@[7]));
            }
            assert(s.contents() =~= Multiset::empty());
            assert(s.same_shape(pre));
        }
    }
}

/// A stored point lies in the cube of every node above it.
pub proof fn lemma_held_inside(n: OctreeNode, e: (u64, Vec3))
    requires
        n.wf(),
        n.holds(e),
    ensures
        n.contains(e.1),
    decreases n,
{
    lemma_unfold_holds(n, e);
    if n.objects@.contains(e) {
        let k = choose|k: int| 0 <= k < n.objects@.len() && n.objects@[k] == e;
        assert(n.contains(n.objects@[k].1));
    } else {
        let j = choose|j: int| 0 <= j < 8 && #[trigger] n.children@[j].holds(e);
        assert(n.is_octant(j, n.children@[j]));
        lemma_held_inside(n.children@[j], e);
    }
}

/// Squares grow with magnitude.
proof fn lemma_sq_mono(a: int, b: int)
    requires
        -b <= a <= b,
    ensures
        sq(a) <= sq(b),
{
    assert(a * a <= b * b) by (nonlinear_arith)
        requires -b <= a <= b;
}

/// A cube that contains a point within the ball meets the ball.
pub proof fn lemma_nearest(n: OctreeNode, p: Vec3, c: Vec3, r2: int)
    requires
        n.geometry_ok(),
        n.contains(p),
        p.dist2(c) <= r2,
    ensures
        n.intersects(c, r2),
{
    let h = n.half_size as int;
    let cx = clamp(c.x as int, n.center.x - h, n.center.x + h);
    let cy = clamp(c.y as int, n.center.y - h, n.center.y + h);
    let cz = clamp(c.z as int, n.center.z - h, n.center.z + h);
    if p.x >= c.x {
        lemma_sq_mono(cx - c.x, p.x - c.x);
    } else {
        lemma_sq_mono(cx - c.x, c.x - p.x);
        assert(sq(c.x - p.x) == sq(p.x - c.x)) by (nonlinear_arith);
    }
    if p.y >= c.y {
        lemma_sq_mono(cy - c.y, p.y - c.y);
    } else {
        lemma_sq_mono(cy - c.y, c.y - p.y);
        assert(sq(c.y - p.y) == sq(p.y - c.y)) by (nonlinear_arith);
    }
    if p.z >= c.z {
        lemma_sq_mono(cz - c.z, p.z - c.z);
    } else {
        lemma_sq_mono(cz - c.z, c.z - p.z);
        assert(sq(c.z - p.z) == sq(p.z - c.z)) by (nonlinear_arith);
    }
}

/// A sphere query reports every stored object whose point lies within the
/// sphere: the broad phase has no false negatives.
pub proof fn lemma_query_complete(n: OctreeNode, e: (u64, Vec3), c: Vec3, r2: int)
    requires
        n.wf(),
        n.holds(e),
        e.1.dist2(c) <= r2,
    ensures
        n.query_seq(c, r2).contains(e.0),
    decreases n,
{
    lemma_held_inside(n, e);
    lemma_nearest(n, e.1, c, r2);
    lemma_unfold_holds(n, e);
    let q = n.query_seq(c, r2);
    if n.objects@.contains(e) {
        let k = choose|k: int| 0 <= k < n.objects@.len() && n.objects@[k] == e;
        assert(ids_of(n.objects@)[k] == e.0);
        assert(q[k] == e.0);
    } else {
        let j = choose|j: int| 0 <= j < 8 && #[trigger] n.children@[j].holds(e);
        lemma_query_complete(n.children@[j], e, c, r2);
        lemma_children_query_contains(n, c, r2, 8, e.0);
        lemma_query_split(n, c, r2);
        let ids = ids_of(n.objects@);
        let cq = n.children_query(c, r2, 8);
        let t = choose|t: int| 0 <= t < cq.len() && cq[t] == e.0;
        assert(q[ids.len() + t] == e.0);
    }
}

/// Every object a sphere query reports is stored in the tree.
pub proof fn lemma_query_sound(n: OctreeNode, c: Vec3, r2: int, id: u64)
    requires
        n.query_seq(c, r2).contains(id),
    ensures
        exists|p: Vec3| n.holds((id, p)),
    decreases n,
{
    let q = n.query_seq(c, r2);
    let t = choose|t: int| 0 <= t < q.len() && q[t] == id;
    let ids = ids_of(n.objects@);
    if n.has_children() {
        lemma_query_split(n, c, r2);
    }
    if t < ids.len() {
        let e = n.objects@[t];
        assert(n.objects@.contains(e));
        lemma_unfold_holds(n, e);
        assert(n.holds((id, e.1)));
    } else {
        let cq = n.children_query(c, r2, 8);
        assert(cq[t - ids.len()] == id);
        lemma_children_query_contains(n, c, r2, 8, id);
        let j = choose|j: int| 0 <= j < 8 && #[trigger] n.children@[j].query_seq(c, r2).contains(id);
        lemma_query_sound(n.children@[j], c, r2, id);
        let p = choose|p: Vec3| n.children@[j].holds((id, p));
        lemma_unfold_holds(n, (id, p));
    }
}

/// A query that meets a subdivided node reports its own objects, then those
/// of its children in order.
proof fn lemma_query_split(n: OctreeNode, c: Vec3, r2: int)
    requires
        n.intersects(c, r2),
        n.has_children(),
    ensures
        n.query_seq(c, r2) =~= ids_of(n.objects@) + n.children_query(c, r2, 8),
{
    reveal_with_fuel(OctreeNode::children_query, 9);
}

/// The first `m` children report `x` exactly when one of them does.
proof fn lemma_children_query_contains(n: OctreeNode, c: Vec3, r2: int, m: int, x: u64)
    requires
        0 <= m <= n.children@.len(),
    ensures
        n.children_query(c, r2, m).contains(x) <==> exists|j: int|
            0 <= j < m && #[trigger] n.children@[j].query_seq(c, r2).contains(x),
    decreases m,
{
    if m > 0 {
        lemma_children_query_contains(n, c, r2, m - 1, x);
        let a = n.children_query(c, r2, m - 1);
        let b = n.children@[m - 1].query_seq(c, r2);
        assert(n.children_query(c, r2, m) == a + b);
        if (a + b).contains(x) {
            let t = choose|t: int| 0 <= t < (a + b).len() && (a + b)[t] == x;
            if t < a.len() {
                assert(a[t] == x);
            } else {
                assert(b[t - a.len()] == x);
            }
        }
        if a.contains(x) {
            let t = choose|t: int| 0 <= t < a.len() && a[t] == x;
            assert((a + b)[t] == x);
        }
        if b.contains(x) {
            let t = choose|t: int| 0 <= t < b.len() && b[t] == x;
            assert((a + b)[a.len() + t] == x);
        }
    }
}

/// `first_octant` is `i` when no octant before `i` contains `p` and `i`
/// does (or `i` is 8).
proof fn lemma_first_octant(n: OctreeNode, p: Vec3, i: int)
    requires
        0 <= i <= 8,
        forall|j: int| 0 <= j < i ==> !#[trigger] n.octant_contains(j, p),
        i < 8 ==> n.octant_contains(i, p),
    ensures
        n.first_octant(p) == i,
{
    lemma_first_octant_from(n, p, 0, i);
}

proof fn lemma_first_octant_from(n: OctreeNode, p: Vec3, j: int, i: int)
    requires
        0 <= j <= i <= 8,
        forall|m: int| j <= m < i ==> !#[trigger] n.octant_contains(m, p),
        i < 8 ==> n.octant_contains(i, p),
    ensures
        n.first_octant_from(p, j) == i,
    decreases i - j,
{
    if j < i {
        lemma_first_octant_from(n, p, j + 1, i);
    }
}

/// One step of the definition of `holds`.
proof fn lemma_unfold_holds(n: OctreeNode, e: (u64, Vec3))
    ensures
        n.holds(e) == (n.objects@.contains(e) || (n.has_children() && (n.children@[0].holds(e)
            || n.children@[1].holds(e) || n.children@[2].holds(e) || n.children@[3].holds(e)
            || n.children@[4].holds(e) || n.children@[5].holds(e) || n.children@[6].holds(e)
            || n.children@[7].holds(e)))),
{
}

/// Two nodes with the same region, objects and children agree on
/// well-formedness and on what they hold.
proof fn lemma_same_contents(a: OctreeNode, b: OctreeNode)
    requires
        a.same_region(b),
        a.objects@ == b.objects@,
        a.children@ == b.children@,
    ensures
        a.wf() == b.wf(),
        forall|e: (u64, Vec3)| #[trigger] a.holds(e) == b.holds(e),
{
    if a.wf() {
        lemma_same_wf(a, b);
    }
    if b.wf() {
        lemma_same_wf(b, a);
    }
}

proof fn lemma_same_wf(a: OctreeNode, b: OctreeNode)
    requires
        a.same_region(b),
        a.objects@ == b.objects@,
        a.children@ == b.children@,
        a.wf(),
    ensures
        b.wf(),
{
    assert forall|j: int| 0 <= j < 8 && b.has_children() implies #[trigger] b.is_octant(
        j,
        b.children@[j],
    ) by {
        assert(a.is_octant(j, a.children@[j]));
    }
    assert forall|i: int| 0 <= i < b.objects@.len() implies #[trigger] b.contains(b.objects@[i].1) by {
        assert(a.contains(a.objects@[i].1));
    }
}

/// `a` limited to `[lo, hi]`.
fn clamp_i64(a: i64, lo: i64, hi: i64) -> (r: i64)
    requires
        lo <= hi,
    ensures
        r == clamp(a as int, lo as int, hi as int),
{
    if a < lo {
        lo
    } else if a > hi {
        hi
    } else {
        a
    }
}

} // verus!
