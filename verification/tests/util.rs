use rusty_ray::geometry::hit::Corners;
use rusty_ray::geometry::lattice::Homogeneous;
use rusty_ray::geometry::lattice::Point3;
use rusty_ray::geometry::lattice::Vector3;
use rusty_ray::geometry::lattice::Wide3;
use rusty_ray::geometry::ratio::Ratio;
use rusty_ray::geometry::util::Intersection;
use rusty_ray::geometry::util::Interval;
use rusty_ray::geometry::util::Ray;

#[test]
fn interval_sorts_its_ends() {
    let a = Ratio::new(3, 2);
    let b = Ratio::new(-1, 4);
    assert_eq!(Interval::new(a, b), Interval { start: b, finish: a });
    assert_eq!(Interval::new(b, a), Interval { start: b, finish: a });
    assert_eq!(Interval::new(a, a), Interval { start: a, finish: a });
    assert_eq!(
        Interval::new(Ratio::infinity(), Ratio::neg_infinity()),
        Interval { start: Ratio::neg_infinity(), finish: Ratio::infinity() }
    );
}

#[test]
fn interval_ignores_an_undefined_end() {
    let a = Ratio::new(3, 2);
    assert_eq!(Interval::new(Ratio::nan(), a), Interval { start: a, finish: a });
    assert_eq!(Interval::new(a, Ratio::nan()), Interval { start: a, finish: a });
}

#[test]
fn empty_intersection_is_infinitely_far() {
    let e = Intersection::empty();
    assert_eq!(e.distance, Ratio::infinity());
    assert_eq!((e.alpha, e.beta, e.gamma), (Ratio::from_int(0), Ratio::from_int(0), Ratio::from_int(0)));
    assert_eq!((e.v1, e.v2, e.v3, e.material), (0, 0, 0, 0));
    assert_eq!(e.point, Homogeneous { x: 0, y: 0, z: 0, w: 1 });
    assert_eq!(e.normal, Homogeneous::origin());
}

#[test]
fn points_and_vectors_are_built_from_coordinates() {
    assert_eq!(Point3::new(1, -2, 3), Point3 { x: 1, y: -2, z: 3 });
    assert_eq!(Vector3::new(1, -2, 3), Vector3 { x: 1, y: -2, z: 3 });
    assert_eq!(Point3::origin(), Point3 { x: 0, y: 0, z: 0 });
    assert_eq!(Vector3::zero(), Vector3 { x: 0, y: 0, z: 0 });
    assert_eq!(Point3::new(1, -2, 3).widen(), Wide3 { x: 1, y: -2, z: 3 });
    assert_eq!(Vector3::new(4, 5, -6).widen(), Wide3 { x: 4, y: 5, z: -6 });
    assert!(Wide3::zero().is_zero());
    assert!(!Wide3 { x: 0, y: 0, z: -1 }.is_zero());
}

#[test]
fn difference_of_far_points_fits() {
    let a = Point3::new(i16::MIN, i16::MAX, 0);
    let b = Point3::new(i16::MAX, i16::MIN, 7);
    assert_eq!(a.minus(&b), Wide3 { x: -65535, y: 65535, z: -7 });
    assert_eq!(b.minus(&a), Wide3 { x: 65535, y: -65535, z: 7 });
}

#[test]
fn plane_of_a_triangle_is_its_normal_and_offset() {
    let c = Corners {
        p1: Point3::new(1, 2, 3),
        p2: Point3::new(4, 2, 3),
        p3: Point3::new(1, 7, 3),
    };
    // edges (3, 0, 0) and (0, 5, 0)
    assert_eq!(c.plane(), (Wide3 { x: 0, y: 0, z: 15 }, -45));
    let c = Corners {
        p1: Point3::new(0, 0, 0),
        p2: Point3::new(1, 2, 3),
        p3: Point3::new(-2, 1, 4),
    };
    assert_eq!(c.plane(), (Wide3 { x: 5, y: -10, z: 5 }, 0));
    let far = Corners {
        p1: Point3::new(i16::MIN, i16::MIN, i16::MIN),
        p2: Point3::new(i16::MAX, i16::MIN, i16::MIN),
        p3: Point3::new(i16::MIN, i16::MAX, i16::MIN),
    };
    assert_eq!(far.plane(), (Wide3 { x: 0, y: 0, z: 65535 * 65535 }, 65535 * 65535 * 32768));
}

#[test]
fn solving_one_triangle_gives_distance_and_weights() {
    let c = Corners {
        p1: Point3::new(0, 0, 0),
        p2: Point3::new(4, 0, 0),
        p3: Point3::new(0, 4, 0),
    };
    let (normal, offset) = c.plane();
    let ray = Ray { origin: Point3::new(1, 1, 5), direction: Vector3::new(0, 0, -1) };
    let (distance, weights) = c.solve(&normal, offset, &ray).unwrap();
    assert_eq!(distance, Ratio::new(80, 16));
    assert_eq!(weights.alpha, Ratio::new(8, 16));
    assert_eq!(weights.beta, Ratio::new(4, 16));
    assert_eq!(weights.gamma, Ratio::new(4, 16));
    let away = Ray { origin: Point3::new(1, 1, 5), direction: Vector3::new(0, 0, 1) };
    assert!(c.solve(&normal, offset, &away).is_none());
}
