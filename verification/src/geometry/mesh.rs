//! Vertices, triangles and the mesh that owns them.
use vstd::prelude::*;
use crate::geometry::bounding_box::lemma_face_hull_contains;
use crate::geometry::bounding_box::BoundingBox;
use crate::geometry::bvh::all_sound;
use crate::geometry::bvh::element_slots;
use crate::geometry::bvh::element_sound;
use crate::geometry::bvh::slot_within;
use crate::geometry::bvh::Element;
use crate::geometry::bvh::BVH;
use crate::geometry::hit::lemma_hit_point;
use crate::geometry::hit::lemma_solution_bounds;
use crate::geometry::hit::PLANE_MAX;
use crate::geometry::lattice::lemma_product_bound;
use crate::geometry::lattice::Homogeneous;
use crate::geometry::lattice::COORD_MAX;
use crate::geometry::lattice::Point3;
use crate::geometry::lattice::Vector3;
use crate::geometry::lattice::V3;
use crate::geometry::ratio::Ratio;
use crate::geometry::triangle_bundle::bundle_slots;
use crate::geometry::triangle_bundle::lemma_hit_partition;
use crate::geometry::triangle_bundle::lemma_nearer_none;
use crate::geometry::triangle_bundle::lemma_scan_choice;
use crate::geometry::triangle_bundle::lemma_scan_concat;
use crate::geometry::triangle_bundle::scan;
use crate::geometry::triangle_bundle::BundleIntersection;
use crate::geometry::triangle_bundle::Slot;
use crate::geometry::triangle_bundle::TriangleBundle;
use crate::geometry::util::Ray;

verus! {

/// The index that marks an unused triangle slot.
pub const INVALID_INDEX: u32 = 0xffff_ffff;

/// A mesh vertex: a lattice position and a shading normal.
#[derive(Clone, Copy, Debug, PartialEq, Eq, Structural)]
pub struct Vertex {
    pub coords: Point3,
    pub normal: Vector3,
}

/// A triangle: three indices into the vertices of its mesh, and a material.
#[derive(Clone, Copy, Debug, PartialEq, Eq, Structural)]
pub struct Triangle {
    pub v1: u32,
    pub v2: u32,
    pub v3: u32,
    pub material: u32,
}

impl Triangle {
    pub open spec fn invalid_spec() -> Triangle {
        Triangle {
            v1: INVALID_INDEX,
            v2: INVALID_INDEX,
            v3: INVALID_INDEX,
            material: INVALID_INDEX,
        }
    }

    /// The triangle that fills an unused slot; no ray ever hits it.
    #[verifier::when_used_as_spec(invalid_spec)]
    pub fn invalid() -> (r: Triangle)
        ensures
            r == Triangle::invalid_spec(),
    {
        Triangle {
            v1: INVALID_INDEX,
            v2: INVALID_INDEX,
            v3: INVALID_INDEX,
            material: INVALID_INDEX,
        }
    }

    /// All three corners name a vertex among `n`.
    pub open spec fn in_range(self, n: int) -> bool {
        self.v1 < n && self.v2 < n && self.v3 < n
    }
}

/// Every triangle of `faces` names vertices that `vertices` has.
pub open spec fn faces_in_range(vertices: Seq<Vertex>, faces: Seq<Triangle>) -> bool {
    forall|i: int| 0 <= i < faces.len() ==> (#[trigger] faces[i]).in_range(vertices.len() as int)
}

/// A triangle mesh: its vertices, and the tree over its triangles.
#[derive(Debug)]
pub struct Mesh {
    pub vertices: Vec<Vertex>,
    pub faces: BVH,
}

/// Where a ray meets a mesh.
#[derive(Clone, Copy, Debug, PartialEq, Eq, Structural)]
pub struct MeshIntersection {
    pub distance: Ratio,
    pub material: u32,
    pub point: Homogeneous,
    pub normal: Homogeneous,
}

impl MeshIntersection {
    pub open spec fn empty_spec() -> MeshIntersection {
        MeshIntersection {
            distance: Ratio::infinity_spec(),
            material: INVALID_INDEX,
            point: Homogeneous::origin_spec(),
            normal: Homogeneous::origin_spec(),
        }
    }

    /// The record of no hit: an infinite distance and the invalid material.
    #[verifier::when_used_as_spec(empty_spec)]
    pub fn empty() -> (r: MeshIntersection)
        ensures
            r == MeshIntersection::empty_spec(),
    {
        MeshIntersection {
            distance: Ratio::infinity(),
            material: INVALID_INDEX,
            point: Homogeneous::origin(),
            normal: Homogeneous::origin(),
        }
    }
}

/// The slots of the tree of a mesh: the triangles in their order, eight to a
/// bundle, the last bundle filled up with unused slots.
pub open spec fn packed(vertices: Seq<Vertex>, faces: Seq<Triangle>) -> Seq<Slot>
    decreases faces.len(),
{
    if faces.len() == 0 {
        Seq::empty()
    } else {
        let start = 8 * ((faces.len() - 1) / 8);
        packed(vertices, faces.take(start)) + bundle_slots(vertices, faces.skip(start))
    }
}

/// The triangles that go into bundle `k`: the eight from place `8 * k` on,
/// or as many as are left.
pub open spec fn chunk(faces: Seq<Triangle>, k: int) -> Seq<Triangle> {
    faces.subrange(8 * k, if 8 * k + 8 <= faces.len() { 8 * k + 8 } else { faces.len() as int })
}

/// The bundles and boxes of the tree of a mesh: bundle `k` holds the
/// triangles of `chunk(faces, k)`, and its box is the hull of exactly their
/// corners.
pub open spec fn leaves_of_mesh(
    vertices: Seq<Vertex>,
    faces: Seq<Triangle>,
    leaves: Seq<Element>,
) -> bool {
    &&& leaves.len() == (faces.len() + 7) / 8
    &&& forall|k: int|
        0 <= k < leaves.len() ==> (#[trigger] leaves[k]).0@ == bundle_slots(
            vertices,
            chunk(faces, k),
        )
    &&& forall|k: int|
        0 <= k < leaves.len() ==> (#[trigger] leaves[k]).1 == BoundingBox::face_hull(
            vertices,
            chunk(faces, k),
        )
}

/// One slot for each triangle, in order: what a scan of the triangles one
/// by one goes through.
pub open spec fn face_slots(vertices: Seq<Vertex>, faces: Seq<Triangle>) -> Seq<Slot> {
    Seq::new(faces.len(), |i: int| Slot::of(vertices, faces[i]))
}

/// The slot is unused, or stands for a triangle of the mesh with the given
/// vertices.
pub open spec fn slot_of_mesh(vertices: Seq<Vertex>, slot: Slot) -> bool {
    slot.face.material != INVALID_INDEX ==> slot.face.in_range(vertices.len() as int) && slot
        == Slot::of(vertices, slot.face)
}

/// The three vectors `a`, `b`, `c` weighted by the barycentric coordinates of
/// `hit`, over the hit's denominator.
pub open spec fn interpolate(hit: BundleIntersection, a: V3, b: V3, c: V3) -> Homogeneous {
    Homogeneous {
        x: (hit.alpha.num * a.x + hit.beta.num * b.x + hit.gamma.num * c.x) as i128,
        y: (hit.alpha.num * a.y + hit.beta.num * b.y + hit.gamma.num * c.y) as i128,
        z: (hit.alpha.num * a.z + hit.beta.num * b.z + hit.gamma.num * c.z) as i128,
        w: hit.distance.den as i128,
    }
}

/// One coordinate of three lattice values weighted by a hit.
fn weigh(alpha: i64, beta: i64, gamma: i64, a: i16, b: i16, c: i16) -> (r: i128)
    requires
        0 <= alpha <= PLANE_MAX,
        0 <= beta <= PLANE_MAX,
        0 <= gamma <= PLANE_MAX,
    ensures
        r == alpha * a + beta * b + gamma * c,
{
    proof {
        lemma_product_bound(alpha as int, a as int, PLANE_MAX as int, COORD_MAX as int);
        lemma_product_bound(beta as int, b as int, PLANE_MAX as int, COORD_MAX as int);
        lemma_product_bound(gamma as int, c as int, PLANE_MAX as int, COORD_MAX as int);
    }
    (alpha as i128) * (a as i128) + (beta as i128) * (b as i128) + (gamma as i128) * (c as i128)
}

/// What a hit on a triangle of a mesh with the given vertices is reported
/// as: its distance, the triangle's material, and the positions and the
/// normals of the triangle's three vertices, each weighted by the hit. No hit
/// is reported as `MeshIntersection::empty()`.
pub open spec fn report(vertices: Seq<Vertex>, hit: BundleIntersection) -> MeshIntersection {
    if hit.distance.is_finite_spec() {
        let v1 = vertices[hit.face.v1 as int];
        let v2 = vertices[hit.face.v2 as int];
        let v3 = vertices[hit.face.v3 as int];
        MeshIntersection {
            distance: hit.distance,
            material: hit.face.material,
            point: interpolate(hit, v1.coords@, v2.coords@, v3.coords@),
            normal: interpolate(hit, v1.normal@, v2.normal@, v3.normal@),
        }
    } else {
        MeshIntersection::empty_spec()
    }
}

/// Reports a hit on a triangle of a mesh with the given vertices.
pub fn report_hit(vertices: &[Vertex], hit: &BundleIntersection) -> (r: MeshIntersection)
    requires
        hit.partitioned(),
        hit.distance.is_finite_spec() ==> hit.face.in_range(vertices@.len() as int),
    ensures
        r == report(vertices@, *hit),
{
    if hit.distance.is_finite() {
        let v1 = &vertices[hit.face.v1 as usize];
        let v2 = &vertices[hit.face.v2 as usize];
        let v3 = &vertices[hit.face.v3 as usize];
        let (a, b, c) = (hit.alpha.num, hit.beta.num, hit.gamma.num);
        let w = hit.distance.den as i128;
        let point = Homogeneous {
            x: weigh(a, b, c, v1.coords.x, v2.coords.x, v3.coords.x),
            y: weigh(a, b, c, v1.coords.y, v2.coords.y, v3.coords.y),
            z: weigh(a, b, c, v1.coords.z, v2.coords.z, v3.coords.z),
            w,
        };
        let normal = Homogeneous {
            x: weigh(a, b, c, v1.normal.x, v2.normal.x, v3.normal.x),
            y: weigh(a, b, c, v1.normal.y, v2.normal.y, v3.normal.y),
            z: weigh(a, b, c, v1.normal.z, v2.normal.z, v3.normal.z),
            w,
        };
        MeshIntersection { distance: hit.distance, material: hit.face.material, point, normal }
    } else {
        MeshIntersection::empty()
    }
}

impl Clone for Mesh {
    /// A copy of the mesh with its vertices and its tree.
    fn clone(&self) -> (r: Self)
        ensures
            r.vertices@ == self.vertices@,
            r.faces == self.faces,
    {
        let mut vertices: Vec<Vertex> = Vec::new();
        let mut i: usize = 0;
        while i < self.vertices.len()
            invariant
                i <= self.vertices@.len(),
                vertices@ == self.vertices@.take(i as int),
            decreases self.vertices@.len() - i,
        {
            vertices.push(self.vertices[i]);
            proof {
                assert(vertices@ =~= self.vertices@.take(i + 1));
            }
            i = i + 1;
        }
        proof {
            assert(self.vertices@.take(i as int) =~= self.vertices@);
        }
        Mesh { vertices, faces: self.faces.clone() }
    }
}

impl Mesh {
    /// The tree can be cast against, and its triangles name vertices of the
    /// mesh and lie where those vertices are.
    pub open spec fn wf(self) -> bool {
        &&& self.faces.sound()
        &&& forall|i: int|
            0 <= i < self.faces.slots().len() ==> slot_of_mesh(
                self.vertices@,
                #[trigger] self.faces.slots()[i],
            )
    }

    /// What `intersect` makes of the nearest hit in the tree.
    pub open spec fn report(self, hit: BundleIntersection) -> MeshIntersection {
        report(self.vertices@, hit)
    }

    /// Builds a mesh from its vertices and triangles.
    pub fn new(vertices: Vec<Vertex>, faces: Vec<Triangle>) -> (r: Mesh)
        requires
            faces_in_range(vertices@, faces@),
        ensures
            r.vertices == vertices,
            r.faces.slots() == packed(vertices@, faces@),
            leaves_of_mesh(vertices@, faces@, r.faces.leaves()),
            r.faces.built_from(r.faces.leaves()),
            r.faces.tight(),
            r.wf(),
    {
        let mut bundles: Vec<Element> = Vec::new();
        let mut k: usize = 0;
        while k < faces.len()
            invariant
                k <= faces.len(),
                k % 8 == 0 || k == faces.len(),
                faces_in_range(vertices@, faces@),
                element_slots(bundles@) == packed(vertices@, faces@.take(k as int)),
                all_sound(bundles@),
                bundles@.len() == (k + 7) / 8,
                forall|j: int|
                    0 <= j < bundles@.len() ==> (#[trigger] bundles@[j]).0@ == bundle_slots(
                        vertices@,
                        chunk(faces@, j),
                    ),
                forall|j: int|
                    0 <= j < bundles@.len() ==> (#[trigger] bundles@[j]).1
                        == BoundingBox::face_hull(vertices@, chunk(faces@, j)),
            decreases faces.len() - k,
        {
            let mut group: Vec<Triangle> = Vec::new();
            let mut i: usize = 0;
            while i < 8 && i < faces.len() - k
                invariant
                    i <= 8,
                    k + i <= faces.len(),
                    group@ == faces@.subrange(k as int, k + i),
                decreases 8 - i,
            {
                group.push(faces[k + i]);
                proof {
                    assert(group@ =~= faces@.subrange(k as int, k + i + 1));
                }
                i = i + 1;
            }
            proof {
                assert forall|j: int| 0 <= j < group@.len() implies (#[trigger] group@[j]).in_range(
                    vertices@.len() as int,
                ) by {
                    assert(group@[j] == faces@[k + j]);
                }
            }
            let bundle = TriangleBundle::new(vertices.as_slice(), group.as_slice());
            let bounds = BoundingBox::build2(vertices.as_slice(), group.as_slice());
            proof {
                let whole = faces@.take(k + i);
                assert(8 * ((whole.len() - 1) / 8) == k);
                assert(whole.take(k as int) =~= faces@.take(k as int));
                assert(whole.skip(k as int) =~= group@);
                assert(group@ =~= chunk(faces@, k as int / 8));
                assert(bundles@.push((bundle, bounds)).drop_last() =~= bundles@);
                assert forall|j: int| 0 <= j < bundle@.len() implies slot_within(
                    bounds,
                    #[trigger] bundle@[j],
                ) by {
                    if j < group@.len() && bundle@[j].face.material != INVALID_INDEX {
                        lemma_face_hull_contains(vertices@, group@, j);
                    }
                }
                assert(element_sound((bundle, bounds)));
            }
            bundles.push((bundle, bounds));
            k = k + i;
        }
        proof {
            assert(faces@.take(k as int) =~= faces@);
        }
        let tree = BVH::build_mesh(bundles.as_slice());
        proof {
            lemma_packed_of_mesh(vertices@, faces@);
        }
        Mesh { vertices, faces: tree }
    }

    /// The bounding box of all vertices of the mesh, whether a triangle
    /// names them or not.
    pub fn bounds(&self) -> (r: BoundingBox)
        ensures
            r == BoundingBox::hull(self.vertices@),
    {
        BoundingBox::build(self.vertices.as_slice())
    }

    /// The nearest hit of `ray` on the mesh: its distance and material, and
    /// the position and the normal interpolated from the three vertices of
    /// the triangle that was hit, by the weights of the hit. The normal is
    /// not brought to unit length.
    pub fn intersect(&self, ray: Ray) -> (r: MeshIntersection)
        requires
            self.wf(),
        ensures
            r == self.report(scan(self.faces.slots(), ray, BundleIntersection::empty_spec())),
    {
        let hit = self.faces.intersect(ray);
        proof {
            if hit.distance.is_finite_spec() {
                let slots = self.faces.slots();
                lemma_scan_choice(slots, ray, BundleIntersection::empty_spec());
                let i = choose|i: int|
                    0 <= i < slots.len() && hit == (#[trigger] slots[i]).hit(ray);
                lemma_hit_partition(slots[i], ray);
                assert(slot_of_mesh(self.vertices@, slots[i]));
            }
        }
        report_hit(self.vertices.as_slice(), &hit)
    }
}

/// Every slot of the tree of a mesh is unused or stands for a triangle of
/// the mesh.
pub proof fn lemma_packed_of_mesh(vertices: Seq<Vertex>, faces: Seq<Triangle>)
    requires
        faces_in_range(vertices, faces),
    ensures
        forall|i: int|
            0 <= i < packed(vertices, faces).len() ==> slot_of_mesh(
                vertices,
                #[trigger] packed(vertices, faces)[i],
            ),
    decreases faces.len(),
{
    if faces.len() > 0 {
        let start = 8 * ((faces.len() - 1) / 8);
        let head = faces.take(start);
        let tail = faces.skip(start);
        assert forall|j: int| 0 <= j < head.len() implies (#[trigger] head[j]).in_range(
            vertices.len() as int,
        ) by {
            assert(head[j] == faces[j]);
        }
        lemma_packed_of_mesh(vertices, head);
        let all = packed(vertices, faces);
        let first = packed(vertices, head);
        let last = bundle_slots(vertices, tail);
        assert forall|i: int| 0 <= i < all.len() implies slot_of_mesh(vertices, #[trigger] all[i]) by {
            if i < first.len() {
                assert(all[i] == first[i]);
            } else {
                let j = i - first.len();
                assert(all[i] == last[j]);
                if j < tail.len() {
                    assert(tail[j] == faces[start + j]);
                    assert(faces[start + j].in_range(vertices.len() as int));
                }
            }
        }
    }
}

/// Unused slots change nothing in a scan.
pub proof fn lemma_scan_unused(slots: Seq<Slot>, ray: Ray, best: BundleIntersection)
    requires
        forall|i: int| 0 <= i < slots.len() ==> (#[trigger] slots[i]) == Slot::unused(),
    ensures
        scan(slots, ray, best) == best,
    decreases slots.len(),
{
    if slots.len() > 0 {
        let init = slots.drop_last();
        assert forall|i: int| 0 <= i < init.len() implies (#[trigger] init[i]) == Slot::unused() by {
            assert(init[i] == slots[i]);
        }
        lemma_scan_unused(init, ray, best);
        assert(slots.last() == slots[slots.len() - 1]);
        lemma_hit_partition(slots.last(), ray);
        lemma_nearer_none(best);
    }
}

/// A bundle gives the scan what its triangles give it one by one.
pub proof fn lemma_bundle_agrees(
    vertices: Seq<Vertex>,
    faces: Seq<Triangle>,
    ray: Ray,
    best: BundleIntersection,
)
    requires
        faces.len() <= 8,
    ensures
        scan(bundle_slots(vertices, faces), ray, best) == scan(
            face_slots(vertices, faces),
            ray,
            best,
        ),
{
    let used = face_slots(vertices, faces);
    let rest = Seq::new((8 - faces.len()) as nat, |i: int| Slot::unused());
    assert(bundle_slots(vertices, faces) =~= used + rest);
    lemma_scan_concat(used, rest, ray, best);
    lemma_scan_unused(rest, ray, scan(used, ray, best));
}

/// The tree of a mesh gives the scan what the triangles of the mesh give it
/// one by one: casting a ray against the tree finds the same hit, at the
/// same distance and on the same triangle, as trying every triangle in turn.
pub proof fn lemma_tree_agrees_with_faces(
    vertices: Seq<Vertex>,
    faces: Seq<Triangle>,
    ray: Ray,
    best: BundleIntersection,
)
    ensures
        scan(packed(vertices, faces), ray, best) == scan(face_slots(vertices, faces), ray, best),
    decreases faces.len(),
{
    if faces.len() == 0 {
        assert(face_slots(vertices, faces) =~= Seq::<Slot>::empty());
    } else {
        let start = 8 * ((faces.len() - 1) / 8);
        let head = faces.take(start);
        let tail = faces.skip(start);
        lemma_tree_agrees_with_faces(vertices, head, ray, best);
        lemma_scan_concat(
            packed(vertices, head),
            bundle_slots(vertices, tail),
            ray,
            best,
        );
        lemma_bundle_agrees(vertices, tail, ray, scan(face_slots(vertices, head), ray, best));
        lemma_scan_concat(
            face_slots(vertices, head),
            face_slots(vertices, tail),
            ray,
            best,
        );
        assert(face_slots(vertices, faces) =~= face_slots(vertices, head) + face_slots(
            vertices,
            tail,
        ));
    }
}

/// What `intersect` reports of a mesh built from `faces` is what a scan of
/// `faces` one by one gives.
pub proof fn lemma_mesh_agrees_with_faces(mesh: Mesh, faces: Seq<Triangle>, ray: Ray)
    requires
        mesh.faces.slots() == packed(mesh.vertices@, faces),
    ensures
        mesh.report(scan(mesh.faces.slots(), ray, BundleIntersection::empty_spec()))
            == mesh.report(
            scan(face_slots(mesh.vertices@, faces), ray, BundleIntersection::empty_spec()),
        ),
{
    lemma_tree_agrees_with_faces(mesh.vertices@, faces, ray, BundleIntersection::empty_spec());
}

/// The point that is reported for a hit is the point of the ray at the
/// distance of the hit: over the hit's denominator, the origin plus the
/// distance times the direction.
pub proof fn lemma_reported_point_on_ray(vertices: Seq<Vertex>, slot: Slot, ray: Ray)
    requires
        slot_of_mesh(vertices, slot),
        slot.struck(ray),
    ensures
        report(vertices, slot.hit(ray)).point.w == slot.hit(ray).distance.den,
        report(vertices, slot.hit(ray)).point.numerators() == ray.origin@.times(
            slot.hit(ray).distance.den as int,
        ).plus(ray.direction@.times(slot.hit(ray).distance.num as int)),
{
    let c = slot.corners;
    let hit = slot.hit(ray);
    lemma_solution_bounds(c, ray);
    lemma_hit_point(c, ray);
    lemma_hit_partition(slot, ray);
    let m = PLANE_MAX as int;
    assert(hit.alpha.num == c.alpha(ray));
    assert(hit.beta.num == c.beta(ray));
    assert(hit.gamma.num == c.gamma(ray));
    assert(hit.distance.den == c.den(ray));
    assert(hit.distance.num == c.dist(ray));
    lemma_product_bound(hit.alpha.num as int, c.p1@.x, m, COORD_MAX as int);
    lemma_product_bound(hit.beta.num as int, c.p2@.x, m, COORD_MAX as int);
    lemma_product_bound(hit.gamma.num as int, c.p3@.x, m, COORD_MAX as int);
    lemma_product_bound(hit.alpha.num as int, c.p1@.y, m, COORD_MAX as int);
    lemma_product_bound(hit.beta.num as int, c.p2@.y, m, COORD_MAX as int);
    lemma_product_bound(hit.gamma.num as int, c.p3@.y, m, COORD_MAX as int);
    lemma_product_bound(hit.alpha.num as int, c.p1@.z, m, COORD_MAX as int);
    lemma_product_bound(hit.beta.num as int, c.p2@.z, m, COORD_MAX as int);
    lemma_product_bound(hit.gamma.num as int, c.p3@.z, m, COORD_MAX as int);
}

} // verus!
