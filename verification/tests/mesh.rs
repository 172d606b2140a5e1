use rusty_ray::geometry::bounding_box::union;
use rusty_ray::geometry::bounding_box::BoundingBox;
use rusty_ray::geometry::bvh::Node;
use rusty_ray::geometry::bvh::BVH;
use rusty_ray::geometry::lattice::Homogeneous;
use rusty_ray::geometry::lattice::Point3;
use rusty_ray::geometry::lattice::Vector3;
use rusty_ray::geometry::mesh::Mesh;
use rusty_ray::geometry::mesh::MeshIntersection;
use rusty_ray::geometry::mesh::Triangle;
use rusty_ray::geometry::mesh::Vertex;
use rusty_ray::geometry::ratio::Ratio;
use rusty_ray::geometry::util::Ray;

const UNIT: i16 = 1024;

fn vertex(x: i16, y: i16, z: i16) -> Vertex {
    Vertex { coords: Point3 { x, y, z }, normal: Vector3 { x: 0, y: 0, z: UNIT } }
}

fn unit_triangle() -> Mesh {
    let vertices = vec![vertex(0, 0, 0), vertex(UNIT, 0, 0), vertex(0, UNIT, 0)];
    let faces = vec![Triangle { v1: 0, v2: 1, v3: 2, material: 1 }];
    Mesh::new(vertices, faces)
}

#[test]
fn unit_triangle_is_hit_from_above() {
    let mesh = unit_triangle();
    let ray = Ray {
        origin: Point3 { x: UNIT / 4, y: UNIT / 4, z: 10 * UNIT },
        direction: Vector3 { x: 0, y: 0, z: -UNIT },
    };
    let hit = mesh.intersect(ray);
    assert!(hit.distance.is_finite());
    // distance 10
    assert_eq!(hit.distance.num, 10 * hit.distance.den as i64);
    assert_eq!(hit.material, 1);
    // point (1/4, 1/4, 0) in units
    assert_eq!(hit.point.x * 4, (UNIT as i128) * hit.point.w);
    assert_eq!(hit.point.y * 4, (UNIT as i128) * hit.point.w);
    assert_eq!(hit.point.z, 0);
    // normal (0, 0, 1) in units
    assert_eq!(hit.normal.x, 0);
    assert_eq!(hit.normal.y, 0);
    assert_eq!(hit.normal.z, (UNIT as i128) * hit.normal.w);
}

#[test]
fn unit_triangle_is_missed_beside() {
    let mesh = unit_triangle();
    let ray = Ray {
        origin: Point3 { x: UNIT, y: UNIT, z: 10 * UNIT },
        direction: Vector3 { x: 0, y: 0, z: -UNIT },
    };
    assert_eq!(mesh.intersect(ray), MeshIntersection::empty());
}

#[test]
fn empty_mesh_is_never_hit() {
    let mesh = Mesh::new(Vec::new(), Vec::new());
    for dz in [-3i16, -1, 1, 7] {
        let ray = Ray {
            origin: Point3 { x: 1, y: 2, z: 3 },
            direction: Vector3 { x: 1, y: -2, z: dz },
        };
        let hit = mesh.intersect(ray);
        assert_eq!(hit.distance, Ratio::infinity());
        assert_eq!(hit, MeshIntersection::empty());
        assert_eq!(hit.point, Homogeneous::origin());
    }
}

#[test]
fn mesh_keeps_its_vertices() {
    let mesh = unit_triangle();
    assert_eq!(mesh.vertices.len(), 3);
    assert_eq!(mesh.vertices[1], vertex(UNIT, 0, 0));
}

#[test]
fn bounds_of_a_mesh_hold_unused_vertices() {
    let vertices = vec![vertex(0, 0, 0), vertex(UNIT, 0, 0), vertex(0, UNIT, 0), vertex(-7, 9, 3000)];
    let faces = vec![Triangle { v1: 0, v2: 1, v3: 2, material: 1 }];
    let mesh = Mesh::new(vertices, faces);
    let b = mesh.bounds();
    assert_eq!(b.lower, Point3 { x: -7, y: 0, z: 0 });
    assert_eq!(b.upper, Point3 { x: UNIT, y: UNIT, z: 3000 });
    let nothing = Mesh::new(Vec::new(), Vec::new());
    assert!(nothing.bounds().is_empty());
}

#[test]
fn normal_is_weighted_like_the_point() {
    let vertices = vec![
        Vertex { coords: Point3 { x: 0, y: 0, z: 0 }, normal: Vector3 { x: 100, y: 0, z: 0 } },
        Vertex { coords: Point3 { x: 8, y: 0, z: 0 }, normal: Vector3 { x: 0, y: 100, z: 0 } },
        Vertex { coords: Point3 { x: 0, y: 8, z: 0 }, normal: Vector3 { x: 0, y: 0, z: 100 } },
    ];
    let mesh = Mesh::new(vertices, vec![Triangle { v1: 0, v2: 1, v3: 2, material: 4 }]);
    let ray = Ray {
        origin: Point3 { x: 2, y: 4, z: 3 },
        direction: Vector3 { x: 0, y: 0, z: -3 },
    };
    let hit = mesh.intersect(ray);
    // weights 1/4, 1/4, 1/2 over the denominator 192
    assert_eq!(hit.distance, Ratio { num: 192, den: 192 });
    assert_eq!(hit.material, 4);
    assert_eq!(hit.point, Homogeneous { x: 2 * 192, y: 4 * 192, z: 0, w: 192 });
    assert_eq!(hit.normal, Homogeneous { x: 25 * 192, y: 25 * 192, z: 50 * 192, w: 192 });
}

#[test]
fn mesh_of_many_triangles_finds_each() {
    // a strip of 100 triangles side by side at rising heights
    let mut vertices = Vec::new();
    let mut faces = Vec::new();
    for k in 0..100i16 {
        vertices.push(vertex(10 * k, 0, k));
        vertices.push(vertex(10 * k + 8, 0, k));
        vertices.push(vertex(10 * k, 8, k));
        let i = 3 * k as u32;
        faces.push(Triangle { v1: i, v2: i + 1, v3: i + 2, material: k as u32 });
    }
    let mesh = Mesh::new(vertices, faces);
    for k in 0..100i16 {
        let ray = Ray {
            origin: Point3 { x: 10 * k + 2, y: 2, z: 200 },
            direction: Vector3 { x: 0, y: 0, z: -1 },
        };
        let hit = mesh.intersect(ray);
        assert_eq!(hit.material, k as u32);
        assert_eq!(hit.distance, Ratio { num: 64 * (200 - k as i64), den: 64 });
        assert_eq!(hit.point.x, (10 * k as i128 + 2) * 64);
        assert_eq!(hit.point.z, k as i128 * 64);
    }
}

#[test]
fn mesh_with_a_triangle_without_area_still_finds_the_others() {
    let vertices = vec![vertex(0, 0, 0), vertex(UNIT, 0, 0), vertex(0, UNIT, 0), vertex(5, 5, 50)];
    let faces = vec![
        Triangle { v1: 3, v2: 3, v3: 3, material: 9 },
        Triangle { v1: 0, v2: 1, v3: 2, material: 1 },
    ];
    let mesh = Mesh::new(vertices, faces);
    let ray = Ray {
        origin: Point3 { x: 5, y: 5, z: 100 },
        direction: Vector3 { x: 0, y: 0, z: -1 },
    };
    let hit = mesh.intersect(ray);
    assert_eq!(hit.material, 1);
    assert_eq!(hit.distance.num, 100 * hit.distance.den as i64);
}

fn leaf_boxes(tree: &BVH, out: &mut Vec<(u32, BoundingBox)>) {
    for i in 0..4 {
        match tree.child_at(i) {
            Node::Empty => assert_eq!(tree.bound_at(i), BoundingBox::empty()),
            Node::Leaf(bundle) => out.push((bundle.slot_at(0).face.material, tree.bound_at(i))),
            Node::Branch(sub) => {
                let boxes = [sub.bound_at(0), sub.bound_at(1), sub.bound_at(2), sub.bound_at(3)];
                assert_eq!(tree.bound_at(i), union(&boxes));
                leaf_boxes(sub, out);
            }
        }
    }
}

#[test]
fn boxes_of_a_mesh_are_those_of_what_lies_below() {
    for n in [1usize, 8, 9, 33, 70, 300] {
        let mut vertices = Vec::new();
        let mut faces = Vec::new();
        let mut seed: u32 = n as u32;
        for k in 0..n {
            for _ in 0..3 {
                let mut next = || {
                    seed = seed.wrapping_mul(1664525).wrapping_add(1013904223);
                    (seed >> 17) as i16 - 8000
                };
                vertices.push(vertex(next(), next(), next()));
            }
            let i = 3 * k as u32;
            faces.push(Triangle { v1: i, v2: i + 1, v3: i + 2, material: k as u32 });
        }
        let mesh = Mesh::new(vertices.clone(), faces.clone());
        let mut leaves = Vec::new();
        leaf_boxes(&mesh.faces, &mut leaves);
        // one leaf for every eight triangles, with the box of exactly those
        assert_eq!(leaves.len(), (n + 7) / 8);
        for (k, (material, bounds)) in leaves.iter().enumerate() {
            let upto = usize::min(8 * k + 8, n);
            assert_eq!(*material, 8 * k as u32);
            assert_eq!(*bounds, BoundingBox::build2(&vertices, &faces[8 * k..upto]));
        }
        // and the four boxes of the root together are the box of all triangles
        let root = [
            mesh.faces.bound_at(0),
            mesh.faces.bound_at(1),
            mesh.faces.bound_at(2),
            mesh.faces.bound_at(3),
        ];
        assert_eq!(union(&root), BoundingBox::build2(&vertices, &faces));
        assert_eq!(union(&root), mesh.bounds());
    }
}

#[test]
fn copy_of_a_mesh_answers_like_the_mesh() {
    let mut vertices = Vec::new();
    let mut faces = Vec::new();
    for k in 0..40i16 {
        vertices.push(vertex(10 * k, 0, k));
        vertices.push(vertex(10 * k + 8, 0, 2 * k));
        vertices.push(vertex(10 * k, 8, -k));
        let i = 3 * k as u32;
        faces.push(Triangle { v1: i, v2: i + 1, v3: i + 2, material: k as u32 });
    }
    let mesh = Mesh::new(vertices, faces);
    let copy = mesh.clone();
    assert_eq!(copy.vertices, mesh.vertices);
    let mut hits = 0;
    for x in 0..400i16 {
        let ray = Ray {
            origin: Point3 { x, y: 3, z: 500 },
            direction: Vector3 { x: 0, y: 0, z: -1 },
        };
        let hit = mesh.intersect(ray);
        assert_eq!(copy.intersect(ray), hit);
        if hit.distance.is_finite() {
            hits += 1;
        }
    }
    assert!(hits > 100);
    let mut a = Vec::new();
    let mut b = Vec::new();
    leaf_boxes(&mesh.faces, &mut a);
    leaf_boxes(&copy.faces, &mut b);
    assert_eq!(a, b);
    assert_eq!(a.len(), 5);
}
