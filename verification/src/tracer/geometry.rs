//! The whole geometry of a scene as one list of triangles, cast against one
//! by one.
use vstd::prelude::*;
use crate::geometry::hit::Corners;
use crate::geometry::lattice::Point3;
use crate::geometry::lattice::Vector3;
use crate::geometry::lattice::Wide3;
use crate::geometry::mesh;
use crate::geometry::mesh::face_slots;
use crate::geometry::mesh::lemma_tree_agrees_with_faces;
use crate::geometry::mesh::packed;
use crate::geometry::mesh::report;
use crate::geometry::mesh::report_hit;
use crate::geometry::mesh::MeshIntersection;
use crate::geometry::mesh::Vertex;
use crate::geometry::mesh::INVALID_INDEX;
use crate::geometry::ratio::Ratio;
use crate::geometry::triangle_bundle::lemma_hit_partition;
use crate::geometry::triangle_bundle::lemma_nearer_none;
use crate::geometry::triangle_bundle::lemma_scan_choice;
use crate::geometry::triangle_bundle::lemma_scan_facts;
use crate::geometry::triangle_bundle::nearer;
use crate::geometry::triangle_bundle::scan;
use crate::geometry::triangle_bundle::BundleIntersection;
use crate::geometry::triangle_bundle::Slot;
use crate::geometry::util::Ray;
use crate::scene::types;

verus! {

/// A triangle of the scene, with its corners and the equation of its plane.
#[derive(Clone, Copy, Debug)]
pub struct Triangle {
    pub v1: u32,
    pub v2: u32,
    pub v3: u32,
    pub material: u32,
    pub corners: Corners,
    pub normal: Wide3,
    pub offset: i64,
}

/// All vertices and triangles of a scene.
#[derive(Clone, Debug)]
pub struct Geometry {
    pub vertices: Vec<Vertex>,
    pub faces: Vec<Triangle>,
}

/// Where a ray meets one triangle.
#[derive(Clone, Copy, Debug, PartialEq, Eq, Structural)]
pub struct TriangleIntersection {
    pub distance: Ratio,
    pub alpha: Ratio,
    pub beta: Ratio,
    pub gamma: Ratio,
}

/// The vertices of the instances, one instance after the other.
pub open spec fn flat_vertices(instances: Seq<types::Mesh>) -> Seq<Vertex>
    decreases instances.len(),
{
    if instances.len() == 0 {
        Seq::empty()
    } else {
        flat_vertices(instances.drop_last()) + Seq::new(
            instances.last().vertices@.len(),
            |i: int| vertex_of(instances.last().vertices@[i]),
        )
    }
}

/// The triangles of the instances, one instance after the other. A triangle
/// of instance `k` has `k` for its material, and its indices count from the
/// first vertex of that instance among all vertices.
pub open spec fn flat_faces(instances: Seq<types::Mesh>) -> Seq<mesh::Triangle>
    decreases instances.len(),
{
    if instances.len() == 0 {
        Seq::empty()
    } else {
        let before = instances.drop_last();
        let m = instances.last();
        flat_faces(before) + Seq::new(
            m.faces@.len(),
            |i: int|
                mesh::Triangle {
                    v1: (m.faces@[i].v1 + flat_vertices(before).len()) as u32,
                    v2: (m.faces@[i].v2 + flat_vertices(before).len()) as u32,
                    v3: (m.faces@[i].v3 + flat_vertices(before).len()) as u32,
                    material: before.len() as u32,
                },
        )
    }
}

/// A described vertex as a vertex of the geometry.
pub open spec fn vertex_of(v: types::Vertex) -> Vertex {
    Vertex {
        coords: Point3 { x: v.x, y: v.y, z: v.z },
        normal: Vector3 { x: v.nx, y: v.ny, z: v.nz },
    }
}

/// Every instance is well formed.
pub open spec fn instances_wf(instances: Seq<types::Mesh>) -> bool {
    forall|i: int| 0 <= i < instances.len() ==> (#[trigger] instances[i]).wf()
}

/// The first instances of a scene have no more vertices than all of them.
pub proof fn lemma_flat_vertices_grow(instances: Seq<types::Mesh>, k: int)
    requires
        0 <= k <= instances.len(),
    ensures
        flat_vertices(instances.take(k)).len() <= flat_vertices(instances).len(),
    decreases instances.len(),
{
    if k == instances.len() {
        assert(instances.take(k) =~= instances);
    } else {
        lemma_flat_vertices_grow(instances.drop_last(), k);
        assert(instances.drop_last().take(k) =~= instances.take(k));
    }
}

/// Gathers the meshes of the instances of a scene into one geometry: all
/// vertices in one list, and all triangles in another, each with the number
/// of its instance for its material.
pub fn build_geometry(instances: &[types::Mesh]) -> (r: Geometry)
    requires
        instances_wf(instances@),
        instances@.len() <= u32::MAX,
        flat_vertices(instances@).len() <= u32::MAX,
    ensures
        r.vertices@ == flat_vertices(instances@),
        r.plain_faces() == flat_faces(instances@),
        r.wf(),
{
    let mut vertices: Vec<Vertex> = Vec::new();
    let mut faces: Vec<Triangle> = Vec::new();
    let mut k: usize = 0;
    while k < instances.len()
        invariant
            k <= instances.len(),
            instances_wf(instances@),
            instances@.len() <= u32::MAX,
            flat_vertices(instances@).len() <= u32::MAX,
            vertices@ == flat_vertices(instances@.take(k as int)),
            faces@.len() == flat_faces(instances@.take(k as int)).len(),
            forall|j: int|
                0 <= j < faces@.len() ==> (#[trigger] faces@[j]).face() == flat_faces(
                    instances@.take(k as int),
                )[j],
            forall|j: int|
                0 <= j < faces@.len() ==> (#[trigger] faces@[j]).face().in_range(
                    vertices@.len() as int,
                ),
        decreases instances.len() - k,
    {
        let mesh = &instances[k];
        let ghost before = instances@.take(k as int);
        let ghost now = instances@.take(k + 1);
        let ghost old_vertices = vertices@;
        let ghost old_faces = faces@;
        proof {
            assert(now.drop_last() =~= before);
            assert(now.last() == instances@[k as int]);
            assert(instances@[k as int].wf());
            lemma_flat_vertices_grow(instances@, k + 1);
        }
        let num_mat = k as u32;
        let vertex_offset = vertices.len() as u32;
        let mut i: usize = 0;
        while i < mesh.vertices.len()
            invariant
                i <= mesh.vertices@.len(),
                vertices@.len() == old_vertices.len() + i,
                forall|j: int| 0 <= j < old_vertices.len() ==> vertices@[j] == old_vertices[j],
                forall|j: int|
                    0 <= j < i ==> vertices@[old_vertices.len() + j] == vertex_of(
                        mesh.vertices@[j],
                    ),
            decreases mesh.vertices.len() - i,
        {
            let v = &mesh.vertices[i];
            vertices.push(
                Vertex {
                    coords: Point3 { x: v.x, y: v.y, z: v.z },
                    normal: Vector3 { x: v.nx, y: v.ny, z: v.nz },
                },
            );
            i = i + 1;
        }
        proof {
            assert(vertices@ =~= flat_vertices(now));
        }
        let mut i: usize = 0;
        while i < mesh.faces.len()
            invariant
                i <= mesh.faces@.len(),
                mesh.wf(),
                vertex_offset == old_vertices.len(),
                vertices@.len() == old_vertices.len() + mesh.vertices@.len(),
                vertices@.len() <= u32::MAX,
                num_mat == k,
                faces@.len() == old_faces.len() + i,
                forall|j: int| 0 <= j < old_faces.len() ==> faces@[j] == old_faces[j],
                forall|j: int|
                    0 <= j < i ==> (#[trigger] faces@[old_faces.len() + j]).face()
                        == (mesh::Triangle {
                        v1: (mesh.faces@[j].v1 + vertex_offset) as u32,
                        v2: (mesh.faces@[j].v2 + vertex_offset) as u32,
                        v3: (mesh.faces@[j].v3 + vertex_offset) as u32,
                        material: num_mat,
                    }),
                forall|j: int|
                    0 <= j < i ==> (#[trigger] faces@[old_faces.len() + j]).face().in_range(
                        vertices@.len() as int,
                    ),
            decreases mesh.faces.len() - i,
        {
            let f = &mesh.faces[i];
            assert(mesh.faces@[i as int].in_range(mesh.vertices@.len() as int));
            let zero = Point3 { x: 0, y: 0, z: 0 };
            faces.push(
                Triangle {
                    v1: f.v1 + vertex_offset,
                    v2: f.v2 + vertex_offset,
                    v3: f.v3 + vertex_offset,
                    material: num_mat,
                    corners: Corners { p1: zero, p2: zero, p3: zero },
                    normal: Wide3 { x: 0, y: 0, z: 0 },
                    offset: 0,
                },
            );
            i = i + 1;
        }
        proof {
            let want = flat_faces(now);
            assert(want.len() == faces@.len());
            assert forall|j: int| 0 <= j < faces@.len() implies (#[trigger] faces@[j]).face()
                == want[j] by {
                if j < old_faces.len() {
                    assert(faces@[j] == old_faces[j]);
                } else {
                    assert(faces@[old_faces.len() + (j - old_faces.len())].face() == want[j]);
                }
            }
            assert forall|j: int| 0 <= j < faces@.len() implies (#[trigger] faces@[j]).face().in_range(
                vertices@.len() as int,
            ) by {
                if j < old_faces.len() {
                    assert(faces@[j] == old_faces[j]);
                } else {
                    assert(faces@[old_faces.len() + (j - old_faces.len())].face().in_range(
                        vertices@.len() as int,
                    ));
                }
            }
        }
        k = k + 1;
    }
    proof {
        assert(instances@.take(k as int) =~= instances@);
    }
    let mut geom = Geometry { vertices, faces };
    proof {
        assert(geom.plain_faces() =~= flat_faces(instances@));
    }
    geom.build_accel();
    geom
}

impl Triangle {
    /// The triangle without what was worked out for it.
    pub open spec fn face(self) -> mesh::Triangle {
        mesh::Triangle {
            v1: self.v1,
            v2: self.v2,
            v3: self.v3,
            material: self.material,
        }
    }

    /// The plane equation is that of the corners.
    pub open spec fn plane_ok(self) -> bool {
        self.normal@ == self.corners.normal() && self.offset == self.corners.offset()
    }

    /// The triangle names vertices among `vertices`, its corners are where
    /// they are, and its plane equation is that of the corners.
    pub open spec fn accelerated(self, vertices: Seq<Vertex>) -> bool {
        &&& self.face().in_range(vertices.len() as int)
        &&& self.corners.p1 == vertices[self.v1 as int].coords
        &&& self.corners.p2 == vertices[self.v2 as int].coords
        &&& self.corners.p3 == vertices[self.v3 as int].coords
        &&& self.plane_ok()
    }

    /// The triangle as a slot.
    pub open spec fn slot(self) -> Slot {
        Slot { face: self.face(), corners: self.corners }
    }

    /// Casts `ray` against the triangle. A triangle without area, or with
    /// the invalid material, is never hit.
    pub fn intersect(&self, ray: Ray) -> (r: Option<TriangleIntersection>)
        requires
            self.plane_ok(),
        ensures
            self.slot().struck(ray) ==> r == Some(
                TriangleIntersection {
                    distance: self.slot().hit(ray).distance,
                    alpha: self.slot().hit(ray).alpha,
                    beta: self.slot().hit(ray).beta,
                    gamma: self.slot().hit(ray).gamma,
                },
            ),
            !self.slot().struck(ray) ==> r.is_none(),
    {
        if self.material == INVALID_INDEX {
            return None;
        }
        match self.corners.solve(&self.normal, self.offset, &ray) {
            Some((distance, weights)) => Some(
                TriangleIntersection {
                    distance,
                    alpha: weights.alpha,
                    beta: weights.beta,
                    gamma: weights.gamma,
                },
            ),
            None => None,
        }
    }
}

impl Geometry {
    /// The triangles without what was worked out for them.
    pub open spec fn plain_faces(self) -> Seq<mesh::Triangle> {
        Seq::new(self.faces@.len(), |i: int| self.faces@[i].face())
    }

    /// Every triangle names vertices that the geometry has.
    pub open spec fn in_range(self) -> bool {
        forall|i: int|
            0 <= i < self.faces@.len() ==> (#[trigger] self.faces@[i]).face().in_range(
                self.vertices@.len() as int,
            )
    }

    /// Every triangle is ready to be cast against.
    pub open spec fn wf(self) -> bool {
        forall|i: int|
            0 <= i < self.faces@.len() ==> (#[trigger] self.faces@[i]).accelerated(self.vertices@)
    }

    /// Works out the corners and the plane equation of every triangle.
    pub fn build_accel(&mut self)
        requires
            old(self).in_range(),
        ensures
            final(self).vertices == old(self).vertices,
            final(self).plain_faces() == old(self).plain_faces(),
            final(self).wf(),
    {
        let n = self.faces.len();
        let mut i: usize = 0;
        while i < n
            invariant
                i <= n,
                n == self.faces@.len(),
                self.vertices == old(self).vertices,
                self.faces@.len() == old(self).faces@.len(),
                forall|j: int|
                    0 <= j < n ==> (#[trigger] self.faces@[j]).face() == old(self).faces@[j].face(),
                old(self).in_range(),
                forall|j: int| 0 <= j < i ==> (#[trigger] self.faces@[j]).accelerated(self.vertices@),
            decreases n - i,
        {
            let f = self.faces[i];
            assert(old(self).faces@[i as int].face().in_range(self.vertices@.len() as int));
            let corners = Corners {
                p1: self.vertices[f.v1 as usize].coords,
                p2: self.vertices[f.v2 as usize].coords,
                p3: self.vertices[f.v3 as usize].coords,
            };
            let (normal, offset) = corners.plane();
            self.faces[i] = Triangle {
                v1: f.v1,
                v2: f.v2,
                v3: f.v3,
                material: f.material,
                corners,
                normal,
                offset,
            };
            i = i + 1;
        }
        assert(self.plain_faces() =~= old(self).plain_faces());
    }

    /// The nearest hit of `ray` among all triangles, tried one by one; of
    /// hits at the same distance, the one on the first triangle.
    pub fn intersect(&self, ray: Ray) -> (r: Option<MeshIntersection>)
        requires
            self.wf(),
        ensures
            ({
                let hit = scan(
                    face_slots(self.vertices@, self.plain_faces()),
                    ray,
                    BundleIntersection::empty_spec(),
                );
                if hit.distance.is_finite_spec() {
                    r == Some(report(self.vertices@, hit))
                } else {
                    r.is_none()
                }
            }),
    {
        let ghost slots = face_slots(self.vertices@, self.plain_faces());
        let mut nearest_hit = BundleIntersection::empty();
        let mut i: usize = 0;
        while i < self.faces.len()
            invariant
                i <= self.faces.len(),
                self.wf(),
                slots == face_slots(self.vertices@, self.plain_faces()),
                nearest_hit == scan(slots.take(i as int), ray, BundleIntersection::empty_spec()),
            decreases self.faces.len() - i,
        {
            let face = &self.faces[i];
            let ghost before = nearest_hit;
            let ghost hit = face.slot().hit(ray);
            proof {
                assert(slots.take(i + 1).drop_last() =~= slots.take(i as int));
                assert(slots.take(i + 1).last() == slots[i as int]);
                assert(slots[i as int] == Slot::of(self.vertices@, self.plain_faces()[i as int]));
                assert(self.plain_faces()[i as int] == face.face());
                assert(face.accelerated(self.vertices@));
                lemma_slot_of_face(self.vertices@, *face, ray);
                lemma_hit_partition(face.slot(), ray);
                lemma_nearer_none(before);
                assert(scan(slots.take(i + 1), ray, BundleIntersection::empty_spec())
                    == nearer(before, hit));
            }
            match face.intersect(ray) {
                Some(intersection) => {
                    if intersection.distance.lt(nearest_hit.distance) {
                        nearest_hit = BundleIntersection {
                            distance: intersection.distance,
                            alpha: intersection.alpha,
                            beta: intersection.beta,
                            gamma: intersection.gamma,
                            face: mesh::Triangle {
                                v1: face.v1,
                                v2: face.v2,
                                v3: face.v3,
                                material: face.material,
                            },
                        };
                    }
                },
                None => {},
            }
            assert(nearest_hit == nearer(before, hit));
            i = i + 1;
        }
        proof {
            assert(slots.take(i as int) =~= slots);
            lemma_scan_facts(slots, ray);
            lemma_scan_choice(slots, ray, BundleIntersection::empty_spec());
            if nearest_hit.distance.is_finite_spec() {
                let k = choose|k: int|
                    0 <= k < slots.len() && nearest_hit == (#[trigger] slots[k]).hit(ray);
                lemma_hit_partition(slots[k], ray);
                assert(self.faces@[k].accelerated(self.vertices@));
            }
        }
        if nearest_hit.distance.is_infinite() {
            None
        } else {
            Some(report_hit(self.vertices.as_slice(), &nearest_hit))
        }
    }
}

/// A triangle that is ready to be cast against is hit where its slot in a
/// bundle is hit.
pub proof fn lemma_slot_of_face(vertices: Seq<Vertex>, t: Triangle, ray: Ray)
    requires
        t.accelerated(vertices),
    ensures
        t.slot().hit(ray) == Slot::of(vertices, t.face()).hit(ray),
{
    if t.material != INVALID_INDEX && t.corners.is_degenerate() {
        let n = t.corners.normal();
        let d = ray.direction@;
        assert(n.x * d.x + n.y * d.y + n.z * d.z == 0) by (nonlinear_arith)
            requires
                n.x == 0,
                n.y == 0,
                n.z == 0,
        ;
        assert(!t.corners.struck(ray));
    }
}

/// The tree of a mesh and the list of the same triangles give the same
/// answer to every ray: both report the same hit, or both none.
pub proof fn lemma_mesh_agrees_with_geometry(
    mesh: mesh::Mesh,
    geometry: Geometry,
    ray: Ray,
)
    requires
        mesh.vertices@ == geometry.vertices@,
        mesh.faces.slots() == packed(geometry.vertices@, geometry.plain_faces()),
    ensures
        scan(mesh.faces.slots(), ray, BundleIntersection::empty_spec()) == scan(
            face_slots(geometry.vertices@, geometry.plain_faces()),
            ray,
            BundleIntersection::empty_spec(),
        ),
{
    lemma_tree_agrees_with_faces(
        geometry.vertices@,
        geometry.plain_faces(),
        ray,
        BundleIntersection::empty_spec(),
    );
}

} // verus!
