use rusty_ray::geometry::lattice::Point3;
use rusty_ray::geometry::lattice::Vector3;
use rusty_ray::geometry::lattice::Wide3;
use rusty_ray::geometry::ratio::Ratio;
use rusty_ray::geometry::util::Ray;
use rusty_ray::scene::types::Mesh;
use rusty_ray::scene::types::Triangle;
use rusty_ray::scene::types::Vertex;
use rusty_ray::tracer::geometry::build_geometry;
use rusty_ray::tracer::geometry::TriangleIntersection;

fn vertex(x: i16, y: i16, z: i16) -> Vertex {
    Vertex { x, y, z, nx: 0, ny: 0, nz: 64 }
}

fn sheet(z: i16) -> Mesh {
    Mesh {
        vertices: vec![vertex(0, 0, z), vertex(4, 0, z), vertex(0, 4, z), vertex(4, 4, z)],
        faces: vec![Triangle { v1: 0, v2: 1, v3: 2 }, Triangle { v1: 1, v2: 3, v3: 2 }],
    }
}

fn down(x: i16, y: i16) -> Ray {
    Ray { origin: Point3 { x, y, z: 100 }, direction: Vector3 { x: 0, y: 0, z: -1 } }
}

#[test]
fn geometry_of_no_instances_is_empty() {
    let g = build_geometry(&[]);
    assert!(g.vertices.is_empty());
    assert!(g.faces.is_empty());
    assert!(g.intersect(down(1, 1)).is_none());
}

#[test]
fn instances_are_laid_end_to_end() {
    let g = build_geometry(&[sheet(0), sheet(10), sheet(20)]);
    assert_eq!(g.vertices.len(), 12);
    assert_eq!(g.faces.len(), 6);
    for k in 0..3u32 {
        for i in 0..4 {
            let v = g.vertices[(4 * k + i) as usize];
            assert_eq!(v.coords.z, 10 * k as i16);
            assert_eq!(v.normal, Vector3 { x: 0, y: 0, z: 64 });
        }
        let first = &g.faces[2 * k as usize];
        assert_eq!((first.v1, first.v2, first.v3), (4 * k, 4 * k + 1, 4 * k + 2));
        assert_eq!(first.material, k);
        let second = &g.faces[2 * k as usize + 1];
        assert_eq!((second.v1, second.v2, second.v3), (4 * k + 1, 4 * k + 3, 4 * k + 2));
        assert_eq!(second.material, k);
    }
}

#[test]
fn triangles_of_the_geometry_know_their_plane() {
    let g = build_geometry(&[sheet(0), sheet(10)]);
    let t = &g.faces[2];
    assert_eq!(t.corners.p1, Point3 { x: 0, y: 0, z: 10 });
    assert_eq!(t.corners.p2, Point3 { x: 4, y: 0, z: 10 });
    assert_eq!(t.corners.p3, Point3 { x: 0, y: 4, z: 10 });
    assert_eq!(t.normal, Wide3 { x: 0, y: 0, z: 16 });
    assert_eq!(t.offset, -160);
    let t = &g.faces[3];
    assert_eq!(t.normal, Wide3 { x: 0, y: 0, z: 16 });
    assert_eq!(t.offset, -160);
}

#[test]
fn one_triangle_is_hit_or_not() {
    let g = build_geometry(&[sheet(0)]);
    let hit = g.faces[0].intersect(down(1, 1));
    assert_eq!(
        hit,
        Some(TriangleIntersection {
            distance: Ratio::new(1600, 16),
            alpha: Ratio::new(8, 16),
            beta: Ratio::new(4, 16),
            gamma: Ratio::new(4, 16),
        })
    );
    assert_eq!(g.faces[0].intersect(down(3, 3)), None);
    assert_eq!(g.faces[1].intersect(down(1, 1)), None);
    assert!(g.faces[1].intersect(down(3, 3)).is_some());
    // the shared edge belongs to neither
    assert_eq!(g.faces[0].intersect(down(2, 2)), None);
    assert_eq!(g.faces[1].intersect(down(2, 2)), None);
}

#[test]
fn list_finds_the_nearest_instance() {
    let g = build_geometry(&[sheet(0), sheet(20), sheet(10)]);
    let hit = g.intersect(down(1, 1)).unwrap();
    assert_eq!(hit.material, 1);
    assert_eq!(hit.distance, Ratio::new(16 * 80, 16));
    // the point (1, 1, 20) and the normal (0, 0, 64), over the denominator 16
    assert_eq!((hit.point.x, hit.point.y, hit.point.z, hit.point.w), (16, 16, 320, 16));
    assert_eq!((hit.normal.x, hit.normal.y, hit.normal.z, hit.normal.w), (0, 0, 1024, 16));
    let up = Ray { origin: Point3 { x: 3, y: 3, z: -5 }, direction: Vector3 { x: 0, y: 0, z: 1 } };
    assert_eq!(g.intersect(up).unwrap().material, 0);
    assert!(g.intersect(down(5, 5)).is_none());
}
