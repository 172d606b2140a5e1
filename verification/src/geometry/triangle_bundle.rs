//! Bundles of up to eight triangles, cast against together.
use vstd::prelude::*;
use crate::geometry::hit::lemma_solution_bounds;
use crate::geometry::hit::EPSILON_INVERSE;
use crate::geometry::hit::PLANE_MAX;
use crate::geometry::hit::Corners;
use crate::geometry::lattice::Point3;
use crate::geometry::lattice::V3;
use crate::geometry::lattice::Wide3;
use crate::geometry::mesh::faces_in_range;
use crate::geometry::mesh::Triangle;
use crate::geometry::mesh::Vertex;
use crate::geometry::mesh::INVALID_INDEX;
use crate::geometry::ratio::lemma_infinity_greatest;
use crate::geometry::ratio::lemma_less_less;
use crate::geometry::ratio::lemma_less_most;
use crate::geometry::ratio::lemma_most_most;
use crate::geometry::ratio::lemma_ratio_total;
use crate::geometry::ratio::Ratio;
use crate::geometry::util::Ray;

verus! {

/// The number of triangles that a bundle holds.
pub const BUNDLE_SIZE: usize = 8;

/// What one lane of a bundle stands for: a triangle and where its corners
/// are. An unused lane holds the invalid triangle.
#[derive(Clone, Copy, Debug, PartialEq, Eq, Structural)]
pub struct Slot {
    pub face: Triangle,
    pub corners: Corners,
}

/// One lane of a bundle: a slot and the plane equation worked out for it.
#[derive(Clone, Copy, Debug)]
struct Lane {
    face: Triangle,
    corners: Corners,
    normal: Wide3,
    offset: i64,
}

/// Eight triangles with their plane equations.
#[derive(Clone, Copy, Debug)]
pub struct TriangleBundle {
    lanes: [Lane; 8],
}

/// The nearest hit of a ray in a bundle, or in a tree of bundles.
#[derive(Clone, Copy, Debug, PartialEq, Eq, Structural)]
pub struct BundleIntersection {
    pub distance: Ratio,
    pub alpha: Ratio,
    pub beta: Ratio,
    pub gamma: Ratio,
    pub face: Triangle,
}

impl BundleIntersection {
    pub open spec fn empty_spec() -> BundleIntersection {
        BundleIntersection {
            distance: Ratio::infinity_spec(),
            alpha: Ratio::nan_spec(),
            beta: Ratio::nan_spec(),
            gamma: Ratio::nan_spec(),
            face: Triangle::invalid_spec(),
        }
    }

    /// If this is a hit, it is a true one: on a valid triangle, beyond the
    /// parameter `1 / EPSILON_INVERSE`, with three positive weights over the
    /// distance's denominator that add up to one. If it is none, it is the
    /// record of no hit.
    pub open spec fn partitioned(self) -> bool {
        if self.distance.is_finite_spec() {
            &&& self.face.material != INVALID_INDEX
            &&& self.alpha.den == self.distance.den
            &&& self.beta.den == self.distance.den
            &&& self.gamma.den == self.distance.den
            &&& self.alpha.num > 0
            &&& self.beta.num > 0
            &&& self.gamma.num > 0
            &&& self.alpha.num + self.beta.num + self.gamma.num == self.distance.den
            &&& self.distance.num * EPSILON_INVERSE > self.distance.den
            &&& self.distance.den <= PLANE_MAX
        } else {
            self == BundleIntersection::empty_spec()
        }
    }

    /// The record of no hit: an infinite distance, undefined weights and the
    /// invalid triangle.
    #[verifier::when_used_as_spec(empty_spec)]
    pub fn empty() -> (r: BundleIntersection)
        ensures
            r == BundleIntersection::empty_spec(),
    {
        BundleIntersection {
            distance: Ratio::infinity(),
            alpha: Ratio::nan(),
            beta: Ratio::nan(),
            gamma: Ratio::nan(),
            face: Triangle::invalid(),
        }
    }
}

impl Slot {
    pub open spec fn unused() -> Slot {
        Slot {
            face: Triangle::invalid_spec(),
            corners: Corners {
                p1: Point3 { x: 0, y: 0, z: 0 },
                p2: Point3 { x: 0, y: 0, z: 0 },
                p3: Point3 { x: 0, y: 0, z: 0 },
            },
        }
    }

    /// The slot that the triangle `f` of a mesh with the given vertices
    /// takes. A triangle without area, or with the invalid material, leaves
    /// its slot unused.
    pub open spec fn of(vertices: Seq<Vertex>, f: Triangle) -> Slot {
        let c = Corners {
            p1: vertices[f.v1 as int].coords,
            p2: vertices[f.v2 as int].coords,
            p3: vertices[f.v3 as int].coords,
        };
        if f.material == INVALID_INDEX || c.is_degenerate() {
            Slot::unused()
        } else {
            Slot { face: f, corners: c }
        }
    }

    /// The ray hits the slot's triangle.
    pub open spec fn struck(self, ray: Ray) -> bool {
        self.face.material != INVALID_INDEX && self.corners.struck(ray)
    }

    /// The hit of `ray` on the slot's triangle, or the record of no hit.
    pub open spec fn hit(self, ray: Ray) -> BundleIntersection {
        if self.struck(ray) {
            BundleIntersection {
                distance: self.corners.distance(ray),
                alpha: self.corners.weights(ray).alpha,
                beta: self.corners.weights(ray).beta,
                gamma: self.corners.weights(ray).gamma,
                face: self.face,
            }
        } else {
            BundleIntersection::empty_spec()
        }
    }
}

/// The slots of the bundle built from `faces`: one per triangle, in order,
/// then unused ones up to eight.
pub open spec fn bundle_slots(vertices: Seq<Vertex>, faces: Seq<Triangle>) -> Seq<Slot> {
    Seq::new(
        8,
        |i: int|
            if i < faces.len() {
                Slot::of(vertices, faces[i])
            } else {
                Slot::unused()
            },
    )
}

/// The nearer of two hits; the earlier one stays where they are level.
pub open spec fn nearer(best: BundleIntersection, other: BundleIntersection) -> BundleIntersection {
    if other.distance.less(best.distance) {
        other
    } else {
        best
    }
}

/// The nearest hit of `ray` among `best` and the triangles of `slots`; of
/// hits at the same distance, the first in order.
pub open spec fn scan(slots: Seq<Slot>, ray: Ray, best: BundleIntersection) -> BundleIntersection
    decreases slots.len(),
{
    if slots.len() == 0 {
        best
    } else {
        nearer(scan(slots.drop_last(), ray, best), slots.last().hit(ray))
    }
}

impl Lane {
    spec fn slot(self) -> Slot {
        Slot { face: self.face, corners: self.corners }
    }

    spec fn wf(self) -> bool {
        &&& self.normal@ == self.corners.normal()
        &&& self.offset == self.corners.offset()
    }

    fn unused() -> (r: Lane)
        ensures
            r.wf(),
            r.slot() == Slot::unused(),
    {
        Lane {
            face: Triangle::invalid(),
            corners: Corners { p1: Point3::origin(), p2: Point3::origin(), p3: Point3::origin() },
            normal: Wide3::zero(),
            offset: 0,
        }
    }

    /// The lane for the triangle `f`.
    fn of(vertices: &[Vertex], f: Triangle) -> (r: Lane)
        requires
            f.in_range(vertices@.len() as int),
        ensures
            r.wf(),
            r.slot() == Slot::of(vertices@, f),
    {
        let corners = Corners {
            p1: vertices[f.v1 as usize].coords,
            p2: vertices[f.v2 as usize].coords,
            p3: vertices[f.v3 as usize].coords,
        };
        if f.material == INVALID_INDEX {
            return Lane::unused();
        }
        let (normal, offset) = corners.plane();
        if normal.is_zero() {
            Lane::unused()
        } else {
            Lane { face: f, corners, normal, offset }
        }
    }
}

impl View for TriangleBundle {
    type V = Seq<Slot>;

    closed spec fn view(&self) -> Seq<Slot> {
        Seq::new(8, |i: int| self.lanes[i].slot())
    }
}

impl TriangleBundle {
    /// The plane equation that lane `i` holds: its normal and its offset.
    pub closed spec fn plane(self, i: int) -> (V3, int) {
        (self.lanes[i].normal@, self.lanes[i].offset as int)
    }

    /// The plane equation that every lane holds is that of the lane's
    /// corners: the cross product of the two edges from the first corner,
    /// and the offset that puts the first corner on the plane.
    pub open spec fn wf(self) -> bool {
        forall|i: int|
            0 <= i < 8 ==> #[trigger] self.plane(i) == (
                self@[i].corners.normal(),
                self@[i].corners.offset(),
            )
    }

    /// The plane equation that lane `i` holds.
    pub fn plane_at(&self, i: usize) -> (r: (Wide3, i64))
        requires
            i < BUNDLE_SIZE,
        ensures
            (r.0@, r.1 as int) == self.plane(i as int),
    {
        (self.lanes[i].normal, self.lanes[i].offset)
    }

    /// A bundle has eight slots.
    pub proof fn lemma_eight(self)
        ensures
            self@.len() == 8,
    {
    }

    /// The slot in lane `i`.
    pub fn slot_at(&self, i: usize) -> (r: Slot)
        requires
            i < BUNDLE_SIZE,
        ensures
            r == self@[i as int],
    {
        Slot { face: self.lanes[i].face, corners: self.lanes[i].corners }
    }

    /// Builds the bundle of at most eight triangles.
    pub fn new(vertices: &[Vertex], faces: &[Triangle]) -> (r: TriangleBundle)
        requires
            faces@.len() <= BUNDLE_SIZE,
            faces_in_range(vertices@, faces@),
        ensures
            r.wf(),
            r@ == bundle_slots(vertices@, faces@),
    {
        let mut lanes: [Lane; 8] = [Lane::unused(); 8];
        let mut i: usize = 0;
        while i < faces.len()
            invariant
                i <= faces.len() <= 8,
                faces_in_range(vertices@, faces@),
                forall|j: int| 0 <= j < 8 ==> (#[trigger] lanes[j]).wf(),
                forall|j: int| 0 <= j < i ==> (#[trigger] lanes[j]).slot() == Slot::of(vertices@, faces@[j]),
                forall|j: int| i <= j < 8 ==> (#[trigger] lanes[j]).slot() == Slot::unused(),
            decreases faces.len() - i,
        {
            assert(faces@[i as int].in_range(vertices@.len() as int));
            let lane = Lane::of(vertices, faces[i]);
            lanes[i] = lane;
            i = i + 1;
        }
        let r = TriangleBundle { lanes };
        assert(r@ =~= bundle_slots(vertices@, faces@));
        r
    }

    /// The nearest hit of `ray` among the triangles of the bundle; of hits at
    /// the same distance, the one in the first lane.
    pub fn intersect(&self, ray: Ray) -> (r: BundleIntersection)
        requires
            self.wf(),
        ensures
            r == scan(self@, ray, BundleIntersection::empty_spec()),
            r.partitioned(),
            forall|i: int| 0 <= i < 8 ==> r.distance.at_most((#[trigger] self@[i]).hit(ray).distance),
    {
        let mut best = BundleIntersection::empty();
        let mut i: usize = 0;
        while i < 8
            invariant
                i <= 8,
                self.wf(),
                best == scan(self@.take(i as int), ray, BundleIntersection::empty_spec()),
            decreases 8 - i,
        {
            proof {
                assert(self@.take(i + 1).drop_last() =~= self@.take(i as int));
                assert(self@.take(i + 1).last() == self.lanes[i as int].slot());
                assert(self.plane(i as int) == (
                    self@[i as int].corners.normal(),
                    self@[i as int].corners.offset(),
                ));
                assert(self.lanes[i as int].wf());
            }
            let lane = &self.lanes[i];
            if lane.face.material != INVALID_INDEX {
                match lane.corners.solve(&lane.normal, lane.offset, &ray) {
                    Some((distance, weights)) => {
                        if distance.lt(best.distance) {
                            best = BundleIntersection {
                                distance,
                                alpha: weights.alpha,
                                beta: weights.beta,
                                gamma: weights.gamma,
                                face: lane.face,
                            };
                        }
                    },
                    None => {},
                }
            }
            i = i + 1;
        }
        proof {
            assert(self@.take(8) =~= self@);
            lemma_scan_facts(self@, ray);
        }
        best
    }
}

/// The record of no hit is nearer than nothing.
pub proof fn lemma_nearer_none(best: BundleIntersection)
    ensures
        nearer(best, BundleIntersection::empty_spec()) == best,
        !BundleIntersection::empty_spec().distance.less(best.distance),
{
    lemma_infinity_greatest(best.distance);
}

/// The distance of a slot's hit is never undefined; where it is finite, the
/// hit is a true one: it lies beyond the parameter `1 / EPSILON_INVERSE`, its
/// three weights share the distance's denominator, are all positive and add
/// up to one.
pub proof fn lemma_hit_partition(slot: Slot, ray: Ray)
    ensures
        !slot.hit(ray).distance.is_nan_spec(),
        !slot.hit(ray).distance.is_finite_spec() ==> slot.hit(ray)
            == BundleIntersection::empty_spec(),
        !slot.struck(ray) ==> slot.hit(ray) == BundleIntersection::empty_spec(),
        slot.hit(ray).distance.is_finite_spec() ==> {
            let h = slot.hit(ray);
            &&& slot.struck(ray)
            &&& h.face == slot.face
            &&& h.face.material != INVALID_INDEX
            &&& h.alpha.den == h.distance.den
            &&& h.beta.den == h.distance.den
            &&& h.gamma.den == h.distance.den
            &&& h.alpha.num > 0
            &&& h.beta.num > 0
            &&& h.gamma.num > 0
            &&& h.alpha.num + h.beta.num + h.gamma.num == h.distance.den
            &&& h.distance.num * EPSILON_INVERSE > h.distance.den
            &&& h.distance.den <= PLANE_MAX
        },
{
    lemma_solution_bounds(slot.corners, ray);
}

/// A scan that starts from a defined distance ends on a defined distance.
pub proof fn lemma_scan_defined(slots: Seq<Slot>, ray: Ray, best: BundleIntersection)
    requires
        !best.distance.is_nan_spec(),
    ensures
        !scan(slots, ray, best).distance.is_nan_spec(),
    decreases slots.len(),
{
    if slots.len() > 0 {
        lemma_scan_defined(slots.drop_last(), ray, best);
        lemma_hit_partition(slots.last(), ray);
    }
}

/// What a scan returns is what it started from or the hit of one of its
/// slots.
pub proof fn lemma_scan_choice(slots: Seq<Slot>, ray: Ray, best: BundleIntersection)
    ensures
        scan(slots, ray, best) == best || exists|i: int|
            0 <= i < slots.len() && scan(slots, ray, best) == (#[trigger] slots[i]).hit(ray),
    decreases slots.len(),
{
    if slots.len() > 0 {
        let init = slots.drop_last();
        lemma_scan_choice(init, ray, best);
        let r = scan(slots, ray, best);
        if r == slots.last().hit(ray) {
            assert(slots[slots.len() - 1] == slots.last());
        } else if r != best {
            let i = choose|i: int| 0 <= i < init.len() && scan(init, ray, best) == (#[trigger] init[i]).hit(ray);
            assert(slots[i] == init[i]);
        }
    }
}

/// No hit of any slot is nearer than what the scan returns, nor is what it
/// started from.
pub proof fn lemma_scan_nearest(slots: Seq<Slot>, ray: Ray, best: BundleIntersection, i: int)
    requires
        !best.distance.is_nan_spec(),
        0 <= i < slots.len(),
    ensures
        scan(slots, ray, best).distance.at_most(slots[i].hit(ray).distance),
        scan(slots, ray, best).distance.at_most(best.distance),
    decreases slots.len(),
{
    let init = slots.drop_last();
    let before = scan(init, ray, best);
    let h = slots.last().hit(ray);
    let r = scan(slots, ray, best);
    lemma_scan_defined(init, ray, best);
    lemma_hit_partition(slots.last(), ray);
    lemma_hit_partition(slots[i], ray);
    lemma_ratio_total(before.distance, h.distance);
    lemma_ratio_total(h.distance, before.distance);
    lemma_scan_start(init, ray, best);
    // r is at most both `before` and `h`
    assert(r.distance.at_most(before.distance));
    assert(r.distance.at_most(h.distance));
    lemma_most_most(r.distance, before.distance, best.distance);
    if i < slots.len() - 1 {
        lemma_scan_nearest(init, ray, best, i);
        assert(init[i] == slots[i]);
        lemma_most_most(r.distance, before.distance, slots[i].hit(ray).distance);
    }
}

/// What a scan returns is no farther than what it started from.
pub proof fn lemma_scan_start(slots: Seq<Slot>, ray: Ray, best: BundleIntersection)
    requires
        !best.distance.is_nan_spec(),
    ensures
        scan(slots, ray, best).distance.at_most(best.distance),
    decreases slots.len(),
{
    lemma_ratio_total(best.distance, best.distance);
    if slots.len() > 0 {
        let init = slots.drop_last();
        let before = scan(init, ray, best);
        let h = slots.last().hit(ray);
        lemma_scan_start(init, ray, best);
        lemma_scan_defined(init, ray, best);
        lemma_hit_partition(slots.last(), ray);
        lemma_ratio_total(h.distance, before.distance);
        if h.distance.less(before.distance) {
            lemma_most_most(h.distance, before.distance, best.distance);
        }
    }
}

/// Scanning two runs of slots one after the other is scanning their
/// concatenation.
pub proof fn lemma_scan_concat(a: Seq<Slot>, b: Seq<Slot>, ray: Ray, best: BundleIntersection)
    ensures
        scan(a + b, ray, best) == scan(b, ray, scan(a, ray, best)),
    decreases b.len(),
{
    if b.len() == 0 {
        assert(a + b =~= a);
    } else {
        lemma_scan_concat(a, b.drop_last(), ray, best);
        assert((a + b).drop_last() =~= a + b.drop_last());
        assert((a + b).last() == b.last());
    }
}

/// A scan that starts from `best` gives the nearer of `best` and the scan
/// that starts from no hit.
pub proof fn lemma_scan_from(slots: Seq<Slot>, ray: Ray, best: BundleIntersection)
    requires
        !best.distance.is_nan_spec(),
    ensures
        scan(slots, ray, best) == nearer(
            best,
            scan(slots, ray, BundleIntersection::empty_spec()),
        ),
    decreases slots.len(),
{
    let none = BundleIntersection::empty_spec();
    lemma_nearer_none(best);
    if slots.len() == 0 {
    } else {
        let init = slots.drop_last();
        let h = slots.last().hit(ray);
        let x = scan(init, ray, none);
        lemma_scan_from(init, ray, best);
        lemma_scan_defined(init, ray, none);
        lemma_hit_partition(slots.last(), ray);
        lemma_ratio_total(x.distance, best.distance);
        lemma_ratio_total(best.distance, x.distance);
        lemma_ratio_total(h.distance, x.distance);
        lemma_ratio_total(x.distance, h.distance);
        lemma_ratio_total(h.distance, best.distance);
        lemma_ratio_total(best.distance, h.distance);
        if h.distance.less(x.distance) {
            if x.distance.less(best.distance) {
                lemma_less_less(h.distance, x.distance, best.distance);
            }
        } else {
            if !x.distance.less(best.distance) && h.distance.less(best.distance) {
                // best <= x <= h, against h < best
                lemma_less_most(h.distance, best.distance, x.distance);
            }
        }
    }
}

/// What a scan from no hit returns is a true hit or the record of no hit,
/// and no slot has a nearer hit.
pub proof fn lemma_scan_facts(slots: Seq<Slot>, ray: Ray)
    ensures
        scan(slots, ray, BundleIntersection::empty_spec()).partitioned(),
        forall|i: int|
            0 <= i < slots.len() ==> scan(
                slots,
                ray,
                BundleIntersection::empty_spec(),
            ).distance.at_most((#[trigger] slots[i]).hit(ray).distance),
{
    let none = BundleIntersection::empty_spec();
    let r = scan(slots, ray, none);
    lemma_scan_choice(slots, ray, none);
    if r != none {
        let i = choose|i: int| 0 <= i < slots.len() && r == (#[trigger] slots[i]).hit(ray);
        lemma_hit_partition(slots[i], ray);
    }
    assert forall|i: int| 0 <= i < slots.len() implies r.distance.at_most(
        (#[trigger] slots[i]).hit(ray).distance,
    ) by {
        lemma_scan_nearest(slots, ray, none, i);
    }
}

} // verus!
