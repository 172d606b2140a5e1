//! The meshes of a scene, cast against together.
use vstd::prelude::*;
use crate::geometry::mesh::Mesh;
use crate::geometry::mesh::MeshIntersection;
use crate::geometry::triangle_bundle::scan;
use crate::geometry::triangle_bundle::BundleIntersection;
use crate::geometry::util::Ray;

verus! {

/// One use of a mesh in a scene file: the file of the mesh and the name of
/// its material.
#[derive(Clone, Debug)]
pub struct InstanceDef {
    pub mesh: String,
    pub material: String,
}

/// The geometry of the world: its meshes, in the order of their materials.
#[derive(Debug)]
pub struct Scene {
    pub geometry: Vec<Mesh>,
}

/// What `mesh` reports for `ray`.
pub open spec fn mesh_hit(mesh: Mesh, ray: Ray) -> MeshIntersection {
    mesh.report(scan(mesh.faces.slots(), ray, BundleIntersection::empty_spec()))
}

/// The nearest of what the meshes report for `ray`; of hits at the same
/// distance, the one on the first mesh.
pub open spec fn nearest_hit(meshes: Seq<Mesh>, ray: Ray) -> MeshIntersection
    decreases meshes.len(),
{
    if meshes.len() == 0 {
        MeshIntersection::empty_spec()
    } else {
        let best = nearest_hit(meshes.drop_last(), ray);
        let hit = mesh_hit(meshes.last(), ray);
        if hit.distance.less(best.distance) {
            hit
        } else {
            best
        }
    }
}

impl Scene {
    /// Every mesh of the scene is well formed.
    pub open spec fn wf(self) -> bool {
        forall|i: int| 0 <= i < self.geometry@.len() ==> (#[trigger] self.geometry@[i]).wf()
    }

    /// Casts a ray against the world: the nearest hit on any of its meshes.
    pub fn intersect(&self, ray: Ray) -> (r: MeshIntersection)
        requires
            self.wf(),
        ensures
            r == nearest_hit(self.geometry@, ray),
    {
        let mut result = MeshIntersection::empty();
        let mut i: usize = 0;
        while i < self.geometry.len()
            invariant
                i <= self.geometry@.len(),
                self.wf(),
                result == nearest_hit(self.geometry@.take(i as int), ray),
            decreases self.geometry.len() - i,
        {
            proof {
                assert(self.geometry@.take(i + 1).drop_last() =~= self.geometry@.take(i as int));
                assert(self.geometry@[i as int].wf());
            }
            let hit = self.geometry[i].intersect(ray);
            if hit.distance.lt(result.distance) {
                result = hit;
            }
            i = i + 1;
        }
        proof {
            assert(self.geometry@.take(i as int) =~= self.geometry@);
        }
        result
    }
}

} // verus!
