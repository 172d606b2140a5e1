use rusty_ray::geometry::lattice::Point3;
use rusty_ray::geometry::lattice::Vector3;
use rusty_ray::geometry::mesh::Triangle;
use rusty_ray::geometry::mesh::Vertex;
use rusty_ray::geometry::ratio::Ratio;
use rusty_ray::geometry::triangle_bundle::BundleIntersection;
use rusty_ray::geometry::triangle_bundle::TriangleBundle;
use rusty_ray::geometry::util::Ray;

fn vertex(x: i16, y: i16, z: i16) -> Vertex {
    Vertex { coords: Point3 { x, y, z }, normal: Vector3 { x: 0, y: 0, z: 1 } }
}

fn ray(o: (i16, i16, i16), d: (i16, i16, i16)) -> Ray {
    Ray {
        origin: Point3 { x: o.0, y: o.1, z: o.2 },
        direction: Vector3 { x: d.0, y: d.1, z: d.2 },
    }
}

/// The triangle (0,0,z), (4,0,z), (0,4,z) as vertices `3 * k ..`.
fn level(vertices: &mut Vec<Vertex>, z: i16, material: u32) -> Triangle {
    let k = vertices.len() as u32;
    vertices.push(vertex(0, 0, z));
    vertices.push(vertex(4, 0, z));
    vertices.push(vertex(0, 4, z));
    Triangle { v1: k, v2: k + 1, v3: k + 2, material }
}

#[test]
fn no_hit_is_infinitely_far() {
    let e = BundleIntersection::empty();
    assert_eq!(e.distance, Ratio::infinity());
    assert!(e.alpha.is_nan() && e.beta.is_nan() && e.gamma.is_nan());
    assert_eq!(e.face, Triangle::invalid());
    assert_eq!(Triangle::invalid().material, u32::MAX);
    assert_eq!(Triangle::invalid().v1, u32::MAX);
}

#[test]
fn hit_has_exact_distance_and_weights() {
    let mut vertices = Vec::new();
    let face = level(&mut vertices, 0, 3);
    let bundle = TriangleBundle::new(&vertices, &[face]);
    let hit = bundle.intersect(ray((1, 1, 5), (0, 0, -1)));
    // normal (0, 0, 16): denominator 16, distance 80 / 16, weights 8, 4, 4 of 16
    assert_eq!(hit.distance, Ratio::new(80, 16));
    assert_eq!(hit.alpha, Ratio::new(8, 16));
    assert_eq!(hit.beta, Ratio::new(4, 16));
    assert_eq!(hit.gamma, Ratio::new(4, 16));
    assert_eq!(hit.face, face);
}

#[test]
fn hit_from_below_has_the_same_weights() {
    let mut vertices = Vec::new();
    let face = level(&mut vertices, 0, 3);
    let bundle = TriangleBundle::new(&vertices, &[face]);
    let hit = bundle.intersect(ray((2, 1, -3), (0, 0, 3)));
    // denominator 48: the point (2, 1, 0) has weights 1/4, 1/2, 1/4
    assert_eq!(hit.distance, Ratio::new(48, 48));
    assert_eq!(hit.alpha, Ratio::new(12, 48));
    assert_eq!(hit.beta, Ratio::new(24, 48));
    assert_eq!(hit.gamma, Ratio::new(12, 48));
}

#[test]
fn slanted_ray_hits_where_it_meets_the_plane() {
    let mut vertices = Vec::new();
    let face = level(&mut vertices, 0, 3);
    let bundle = TriangleBundle::new(&vertices, &[face]);
    // from (-1, 0, 4) along (1, 1, -2): meets z = 0 at t = 2 in (1, 2, 0)
    let hit = bundle.intersect(ray((-1, 0, 4), (1, 1, -2)));
    assert_eq!(hit.distance, Ratio::new(64, 32));
    assert_eq!(hit.alpha, Ratio::new(8, 32));
    assert_eq!(hit.beta, Ratio::new(8, 32));
    assert_eq!(hit.gamma, Ratio::new(16, 32));
}

#[test]
fn weights_of_a_hit_are_positive_and_add_up_to_one() {
    let vertices = vec![vertex(-100, -50, 7), vertex(300, 20, -9), vertex(10, 400, 31)];
    let face = Triangle { v1: 0, v2: 1, v3: 2, material: 0 };
    let bundle = TriangleBundle::new(&vertices, &[face]);
    let mut hits = 0;
    for x in -12..40 {
        for y in -8..44 {
            let hit = bundle.intersect(ray((10 * x, 10 * y, 500), (1, -2, -50)));
            if hit.distance.is_finite() {
                hits += 1;
                let den = hit.distance.den;
                assert_eq!(hit.alpha.den, den);
                assert_eq!(hit.beta.den, den);
                assert_eq!(hit.gamma.den, den);
                assert!(hit.alpha.num > 0 && hit.beta.num > 0 && hit.gamma.num > 0);
                assert_eq!((hit.alpha.num + hit.beta.num + hit.gamma.num) as u64, den);
                assert!(hit.distance.num > 0);
            } else {
                assert_eq!(hit, BundleIntersection::empty());
            }
        }
    }
    assert!(hits > 100);
}

#[test]
fn nearer_triangle_wins_over_earlier_one() {
    let mut vertices = Vec::new();
    let far = level(&mut vertices, 0, 1);
    let near = level(&mut vertices, 3, 2);
    let middle = level(&mut vertices, 1, 3);
    let bundle = TriangleBundle::new(&vertices, &[far, near, middle]);
    let hit = bundle.intersect(ray((1, 1, 5), (0, 0, -1)));
    assert_eq!(hit.face, near);
    assert_eq!(hit.distance, Ratio::new(32, 16));
    // from the other side the order is the other way round
    let hit = bundle.intersect(ray((1, 1, -5), (0, 0, 1)));
    assert_eq!(hit.face, far);
    assert_eq!(hit.distance, Ratio::new(80, 16));
}

#[test]
fn first_of_two_level_triangles_wins() {
    let mut vertices = Vec::new();
    let one = level(&mut vertices, 2, 1);
    let two = level(&mut vertices, 2, 2);
    let bundle = TriangleBundle::new(&vertices, &[one, two]);
    assert_eq!(bundle.intersect(ray((1, 1, 5), (0, 0, -1))).face, one);
    let bundle = TriangleBundle::new(&vertices, &[two, one]);
    assert_eq!(bundle.intersect(ray((1, 1, 5), (0, 0, -1))).face, two);
}

#[test]
fn triangle_without_area_is_dropped() {
    let mut vertices = vec![vertex(1, 1, 2), vertex(0, 0, 9), vertex(2, 2, 9), vertex(4, 4, 9)];
    let point = Triangle { v1: 0, v2: 0, v3: 0, material: 7 };
    let line = Triangle { v1: 1, v2: 2, v3: 3, material: 8 };
    let good = level(&mut vertices, 0, 9);
    let bundle = TriangleBundle::new(&vertices, &[point, line, good]);
    assert_eq!(bundle.slot_at(0).face, Triangle::invalid());
    assert_eq!(bundle.slot_at(1).face, Triangle::invalid());
    assert_eq!(bundle.slot_at(2).face, good);
    // a ray through the point and the line hits only what lies behind them
    let hit = bundle.intersect(ray((1, 1, 20), (0, 0, -1)));
    assert_eq!(hit.face, good);
    assert_eq!(hit.distance, Ratio::new(320, 16));
    // and alone the two are never hit
    let bundle = TriangleBundle::new(&vertices, &[point, line]);
    for d in [(0, 0, -1), (0, 0, 1), (1, 1, -9), (1, 0, 0)] {
        assert_eq!(bundle.intersect(ray((1, 1, 20), d)), BundleIntersection::empty());
    }
}

#[test]
fn triangle_of_invalid_material_is_never_hit() {
    let mut vertices = Vec::new();
    let ghost = level(&mut vertices, 3, u32::MAX);
    let solid = level(&mut vertices, 0, 0);
    let bundle = TriangleBundle::new(&vertices, &[ghost, solid]);
    let hit = bundle.intersect(ray((1, 1, 5), (0, 0, -1)));
    assert_eq!(hit.face, solid);
    assert_eq!(bundle.slot_at(0).face, Triangle::invalid());
}

#[test]
fn unused_lanes_are_never_hit() {
    let bundle = TriangleBundle::new(&[], &[]);
    for i in 0..8 {
        assert_eq!(bundle.slot_at(i).face, Triangle::invalid());
    }
    for d in [(0, 0, -1), (0, 0, 1), (1, 1, 1), (1, 0, 0), (0, 0, 0)] {
        for o in [(0, 0, 0), (0, 0, 5), (1, 1, -5)] {
            assert_eq!(bundle.intersect(ray(o, d)), BundleIntersection::empty());
        }
    }
}

#[test]
fn full_bundle_uses_all_eight_lanes() {
    let mut vertices = Vec::new();
    let faces: Vec<Triangle> = (0..8).map(|k| level(&mut vertices, 10 * k, k as u32)).collect();
    let bundle = TriangleBundle::new(&vertices, &faces);
    for k in 0..8 {
        assert_eq!(bundle.slot_at(k).face, faces[k]);
        assert_eq!(bundle.slot_at(k).corners.p2, vertices[3 * k + 1].coords);
    }
    // from between the fifth and the sixth, upwards and downwards
    assert_eq!(bundle.intersect(ray((1, 1, 45), (0, 0, 1))).face, faces[5]);
    assert_eq!(bundle.intersect(ray((1, 1, 45), (0, 0, -1))).face, faces[4]);
    assert_eq!(bundle.intersect(ray((1, 1, 75), (0, 0, 1))), BundleIntersection::empty());
    assert_eq!(bundle.intersect(ray((1, 1, 75), (0, 0, -1))).face, faces[7]);
}

#[test]
fn hits_on_edges_and_corners_do_not_count() {
    let mut vertices = Vec::new();
    let face = level(&mut vertices, 0, 3);
    let bundle = TriangleBundle::new(&vertices, &[face]);
    let none = BundleIntersection::empty();
    // on the edges
    assert_eq!(bundle.intersect(ray((2, 0, 5), (0, 0, -1))), none);
    assert_eq!(bundle.intersect(ray((0, 2, 5), (0, 0, -1))), none);
    assert_eq!(bundle.intersect(ray((2, 2, 5), (0, 0, -1))), none);
    // on the corners
    assert_eq!(bundle.intersect(ray((0, 0, 5), (0, 0, -1))), none);
    assert_eq!(bundle.intersect(ray((4, 0, 5), (0, 0, -1))), none);
    assert_eq!(bundle.intersect(ray((0, 4, 5), (0, 0, -1))), none);
    // outside
    assert_eq!(bundle.intersect(ray((3, 3, 5), (0, 0, -1))), none);
    assert_eq!(bundle.intersect(ray((-1, 1, 5), (0, 0, -1))), none);
    // just inside
    assert!(bundle.intersect(ray((1, 2, 5), (0, 0, -1))).distance.is_finite());
}

#[test]
fn ray_along_the_plane_misses() {
    let mut vertices = Vec::new();
    let face = level(&mut vertices, 0, 3);
    let bundle = TriangleBundle::new(&vertices, &[face]);
    let none = BundleIntersection::empty();
    assert_eq!(bundle.intersect(ray((-5, 1, 0), (1, 0, 0))), none);
    assert_eq!(bundle.intersect(ray((-5, 1, 1), (1, 0, 0))), none);
    assert_eq!(bundle.intersect(ray((1, 1, 0), (1, 1, 0))), none);
}

#[test]
fn ray_pointing_away_misses() {
    let mut vertices = Vec::new();
    let face = level(&mut vertices, 0, 3);
    let bundle = TriangleBundle::new(&vertices, &[face]);
    assert_eq!(bundle.intersect(ray((1, 1, 5), (0, 0, 1))), BundleIntersection::empty());
    assert_eq!(bundle.intersect(ray((1, 1, -5), (0, 0, -1))), BundleIntersection::empty());
}

#[test]
fn still_ray_misses() {
    let mut vertices = Vec::new();
    let face = level(&mut vertices, 0, 3);
    let bundle = TriangleBundle::new(&vertices, &[face]);
    assert_eq!(bundle.intersect(ray((1, 1, 5), (0, 0, 0))), BundleIntersection::empty());
    assert_eq!(bundle.intersect(ray((1, 1, 0), (0, 0, 0))), BundleIntersection::empty());
}

#[test]
fn ray_from_the_surface_does_not_hit_it() {
    let mut vertices = Vec::new();
    let face = level(&mut vertices, 0, 3);
    let bundle = TriangleBundle::new(&vertices, &[face]);
    assert_eq!(bundle.intersect(ray((1, 1, 0), (0, 0, -1))), BundleIntersection::empty());
    assert_eq!(bundle.intersect(ray((1, 1, 0), (0, 0, 1))), BundleIntersection::empty());
}

#[test]
fn hit_within_epsilon_does_not_count() {
    // the plane of this triangle is 200 / 6396899900 of the ray away from its
    // origin, less than one ten-millionth, and the ray meets it inside
    let vertices = vec![vertex(0, 0, 0), vertex(0, 0, 100), vertex(999, -1000, 0)];
    let face = Triangle { v1: 0, v2: 1, v3: 2, material: 0 };
    let bundle = TriangleBundle::new(&vertices, &[face]);
    let close = ray((2, -2, 42), (-32000, -32001, 0));
    assert_eq!(bundle.intersect(close), BundleIntersection::empty());
    // a slower ray along the same line meets it at a parameter that counts
    let slow = ray((2, -2, 42), (-320, -320, 0));
    let hit = bundle.intersect(slow);
    assert!(hit.distance.is_finite());
    assert!(Ratio::new(1, 10_000_000).lt(hit.distance));
}

#[test]
fn distant_corners_of_the_lattice_do_not_overflow() {
    let vertices = vec![
        vertex(i16::MIN, i16::MIN, i16::MIN),
        vertex(i16::MAX, i16::MIN, i16::MAX),
        vertex(i16::MIN, i16::MAX, i16::MAX),
    ];
    let face = Triangle { v1: 0, v2: 1, v3: 2, material: 1 };
    let bundle = TriangleBundle::new(&vertices, &[face]);
    let hit = bundle.intersect(ray((i16::MAX, i16::MAX, i16::MIN), (i16::MIN, i16::MIN, i16::MAX)));
    assert!(hit.distance.is_finite());
    assert_eq!(
        (hit.alpha.num + hit.beta.num + hit.gamma.num) as u64,
        hit.distance.den
    );
    // the hit lies on the ray: den * o + num * d is the weighted sum of the corners
    let (den, num) = (hit.distance.den as i128, hit.distance.num as i128);
    let on_ray = den * (i16::MAX as i128) + num * (i16::MIN as i128);
    let weighted = (hit.alpha.num as i128) * (i16::MIN as i128)
        + (hit.beta.num as i128) * (i16::MAX as i128)
        + (hit.gamma.num as i128) * (i16::MIN as i128);
    assert_eq!(on_ray, weighted);
}

#[test]
fn lanes_hold_the_plane_of_their_triangle() {
    let vertices = vec![vertex(1, 2, 3), vertex(4, 2, 3), vertex(1, 7, 3), vertex(5, 5, 5)];
    let flat = Triangle { v1: 0, v2: 1, v3: 2, material: 0 };
    let slanted = Triangle { v1: 0, v2: 3, v3: 2, material: 0 };
    let none = Triangle { v1: 3, v2: 3, v3: 0, material: 0 };
    let bundle = TriangleBundle::new(&vertices, &[flat, slanted, none]);
    // edges (3, 0, 0) and (0, 5, 0): normal (0, 0, 15), through (1, 2, 3)
    assert_eq!(bundle.plane_at(0), (rusty_ray::geometry::lattice::Wide3 { x: 0, y: 0, z: 15 }, -45));
    // edges (4, 3, 2) and (0, 5, 0): normal (-10, 0, 20), through (1, 2, 3)
    assert_eq!(bundle.plane_at(1), (rusty_ray::geometry::lattice::Wide3 { x: -10, y: 0, z: 20 }, -50));
    for i in 2..8 {
        assert_eq!(bundle.plane_at(i), (rusty_ray::geometry::lattice::Wide3 { x: 0, y: 0, z: 0 }, 0));
    }
}
