//! The parts of a scene description: meshes by their vertices and triangles,
//! and the instances that place them.
use vstd::prelude::*;

verus! {

/// A vertex of a described mesh: position and normal on the lattice.
#[derive(Clone, Copy, Debug, PartialEq, Eq, Structural)]
pub struct Vertex {
    pub x: i16,
    pub y: i16,
    pub z: i16,
    pub nx: i16,
    pub ny: i16,
    pub nz: i16,
}

/// A triangle of a described mesh: three indices into the mesh's vertices.
#[derive(Clone, Copy, Debug, PartialEq, Eq, Structural)]
pub struct Triangle {
    pub v1: u32,
    pub v2: u32,
    pub v3: u32,
}

/// A described mesh.
#[derive(Clone, Debug)]
pub struct Mesh {
    pub vertices: Vec<Vertex>,
    pub faces: Vec<Triangle>,
}

/// One use of a mesh in a scene: the names of the mesh and of its material.
#[derive(Clone, Debug)]
pub struct Instance {
    pub mesh: String,
    pub material: String,
}

impl Triangle {
    /// All three corners name a vertex among `n`.
    pub open spec fn in_range(self, n: int) -> bool {
        self.v1 < n && self.v2 < n && self.v3 < n
    }
}

impl Mesh {
    /// Every triangle names vertices that the mesh has.
    pub open spec fn wf(self) -> bool {
        forall|i: int|
            0 <= i < self.faces@.len() ==> (#[trigger] self.faces@[i]).in_range(
                self.vertices@.len() as int,
            )
    }
}

} // verus!
