//! Axis-aligned bounding boxes.
use vstd::prelude::*;
use crate::geometry::ratio::lemma_less_less;
use crate::geometry::ratio::lemma_greater_bounds;
use crate::geometry::ratio::lemma_lesser_bounds;
use crate::geometry::ratio::lemma_most_most;
use crate::geometry::ratio::lemma_ratio_total;
use crate::geometry::hit::lemma_hit_point;
use crate::geometry::hit::lemma_solution_bounds;
use crate::geometry::hit::Corners;
use crate::geometry::lattice::Point3;
use crate::geometry::lattice::V3;
use crate::geometry::mesh::faces_in_range;
use crate::geometry::mesh::Triangle;
use crate::geometry::mesh::Vertex;
use crate::geometry::ratio::Ratio;
use crate::geometry::util::Interval;
use crate::geometry::util::Ray;

verus! {

/// An axis-aligned box: the lattice points between `lower` and `upper` on
/// every axis. A box whose `lower` exceeds its `upper` on some axis holds no
/// point.
#[derive(Clone, Copy, Debug, PartialEq, Eq, Structural)]
pub struct BoundingBox {
    pub lower: Point3,
    pub upper: Point3,
}

pub open spec fn min16(a: i16, b: i16) -> i16 {
    if a <= b {
        a
    } else {
        b
    }
}

pub open spec fn max16(a: i16, b: i16) -> i16 {
    if a >= b {
        a
    } else {
        b
    }
}

fn lesser(a: i16, b: i16) -> (r: i16)
    ensures
        r == min16(a, b),
{
    if a <= b {
        a
    } else {
        b
    }
}

fn greater(a: i16, b: i16) -> (r: i16)
    ensures
        r == max16(a, b),
{
    if a >= b {
        a
    } else {
        b
    }
}

/// The parameters at which the line `o + t * d` lies between `lower` and
/// `upper` along one axis, for `lower <= upper`.
///
/// A line that runs along the axis' planes (`d == 0`) lies between them at
/// every parameter if `o` is strictly between them, and at none otherwise;
/// "none" is the interval from the positive to the negative infinity.
pub open spec fn slab(lower: i16, upper: i16, o: i16, d: i16) -> Interval {
    if d > 0 {
        Interval {
            start: Ratio { num: (lower - o) as i64, den: d as u64 },
            finish: Ratio { num: (upper - o) as i64, den: d as u64 },
        }
    } else if d < 0 {
        Interval {
            start: Ratio { num: (o - upper) as i64, den: (-d) as u64 },
            finish: Ratio { num: (o - lower) as i64, den: (-d) as u64 },
        }
    } else if lower < o < upper {
        Interval { start: Ratio::neg_infinity_spec(), finish: Ratio::infinity_spec() }
    } else {
        Interval { start: Ratio::infinity_spec(), finish: Ratio::neg_infinity_spec() }
    }
}

fn axis_slab(lower: i16, upper: i16, o: i16, d: i16) -> (r: Interval)
    ensures
        r == slab(lower, upper, o, d),
{
    if d > 0 {
        Interval {
            start: Ratio { num: lower as i64 - o as i64, den: d as u64 },
            finish: Ratio { num: upper as i64 - o as i64, den: d as u64 },
        }
    } else if d < 0 {
        let den: u64 = (-(d as i64)) as u64;
        Interval {
            start: Ratio { num: o as i64 - upper as i64, den },
            finish: Ratio { num: o as i64 - lower as i64, den },
        }
    } else if lower < o && o < upper {
        Interval { start: Ratio::neg_infinity(), finish: Ratio::infinity() }
    } else {
        Interval { start: Ratio::infinity(), finish: Ratio::neg_infinity() }
    }
}

impl BoundingBox {
    pub open spec fn empty_spec() -> BoundingBox {
        BoundingBox {
            lower: Point3 { x: i16::MAX, y: i16::MAX, z: i16::MAX },
            upper: Point3 { x: i16::MIN, y: i16::MIN, z: i16::MIN },
        }
    }

    /// The box holds no point at all.
    pub open spec fn is_empty_spec(self) -> bool {
        self.lower.x > self.upper.x || self.lower.y > self.upper.y || self.lower.z > self.upper.z
    }

    /// The point `p` lies in the box, faces included.
    pub open spec fn contains(self, p: V3) -> bool {
        &&& self.lower.x <= p.x <= self.upper.x
        &&& self.lower.y <= p.y <= self.upper.y
        &&& self.lower.z <= p.z <= self.upper.z
    }

    /// The smallest box that holds `self` and the point `p`.
    pub open spec fn extend(self, p: Point3) -> BoundingBox {
        BoundingBox {
            lower: Point3 {
                x: min16(self.lower.x, p.x),
                y: min16(self.lower.y, p.y),
                z: min16(self.lower.z, p.z),
            },
            upper: Point3 {
                x: max16(self.upper.x, p.x),
                y: max16(self.upper.y, p.y),
                z: max16(self.upper.z, p.z),
            },
        }
    }

    /// The smallest box that holds `self` and `o`.
    pub open spec fn join(self, o: BoundingBox) -> BoundingBox {
        BoundingBox {
            lower: Point3 {
                x: min16(self.lower.x, o.lower.x),
                y: min16(self.lower.y, o.lower.y),
                z: min16(self.lower.z, o.lower.z),
            },
            upper: Point3 {
                x: max16(self.upper.x, o.upper.x),
                y: max16(self.upper.y, o.upper.y),
                z: max16(self.upper.z, o.upper.z),
            },
        }
    }

    /// The smallest box that holds the positions of all of `vertices`: on
    /// each axis the least and the greatest coordinate among them.
    pub open spec fn hull(vertices: Seq<Vertex>) -> BoundingBox
        decreases vertices.len(),
    {
        if vertices.len() == 0 {
            BoundingBox::empty_spec()
        } else {
            BoundingBox::hull(vertices.drop_last()).extend(vertices.last().coords)
        }
    }

    /// The smallest box that holds the three corners of every triangle of
    /// `faces`.
    pub open spec fn face_hull(vertices: Seq<Vertex>, faces: Seq<Triangle>) -> BoundingBox
        decreases faces.len(),
    {
        if faces.len() == 0 {
            BoundingBox::empty_spec()
        } else {
            let f = faces.last();
            BoundingBox::face_hull(vertices, faces.drop_last()).extend(
                vertices[f.v1 as int].coords,
            ).extend(vertices[f.v2 as int].coords).extend(vertices[f.v3 as int].coords)
        }
    }

    /// The interval of parameters at which `ray` lies in the box: the
    /// latest of the three entries into the slabs to the earliest of the
    /// three exits. Where the exit comes before the entry, and for a box that
    /// holds no point, it is `Interval::missing()`.
    pub open spec fn crossing(self, ray: Ray) -> Interval {
        let x = slab(self.lower.x, self.upper.x, ray.origin.x, ray.direction.x);
        let y = slab(self.lower.y, self.upper.y, ray.origin.y, ray.direction.y);
        let z = slab(self.lower.z, self.upper.z, ray.origin.z, ray.direction.z);
        let start = x.start.greater(y.start.greater(z.start));
        let finish = x.finish.lesser(y.finish.lesser(z.finish));
        if !self.is_empty_spec() && start.at_most(finish) {
            Interval { start, finish }
        } else {
            Interval::missing()
        }
    }

    /// The box that holds no point, and that leaves every box unchanged when
    /// joined to it.
    #[verifier::when_used_as_spec(empty_spec)]
    pub fn empty() -> (r: BoundingBox)
        ensures
            r == BoundingBox::empty_spec(),
    {
        BoundingBox {
            lower: Point3 { x: i16::MAX, y: i16::MAX, z: i16::MAX },
            upper: Point3 { x: i16::MIN, y: i16::MIN, z: i16::MIN },
        }
    }

    /// Whether the box holds no point.
    #[verifier::when_used_as_spec(is_empty_spec)]
    pub fn is_empty(self) -> (r: bool)
        ensures
            r == self.is_empty_spec(),
    {
        self.lower.x > self.upper.x || self.lower.y > self.upper.y || self.lower.z > self.upper.z
    }

    fn grow(&mut self, p: Point3)
        ensures
            *final(self) == old(self).extend(p),
    {
        self.lower.x = lesser(self.lower.x, p.x);
        self.lower.y = lesser(self.lower.y, p.y);
        self.lower.z = lesser(self.lower.z, p.z);
        self.upper.x = greater(self.upper.x, p.x);
        self.upper.y = greater(self.upper.y, p.y);
        self.upper.z = greater(self.upper.z, p.z);
    }

    /// The interval of parameters at which `ray` passes through the box, or
    /// `Interval::missing()` if it does not pass.
    pub fn intersect(&self, ray: Ray) -> (r: Interval)
        ensures
            r == self.crossing(ray),
    {
        if self.is_empty() {
            return Interval { start: Ratio::infinity(), finish: Ratio::infinity() };
        }
        let x = axis_slab(self.lower.x, self.upper.x, ray.origin.x, ray.direction.x);
        let y = axis_slab(self.lower.y, self.upper.y, ray.origin.y, ray.direction.y);
        let z = axis_slab(self.lower.z, self.upper.z, ray.origin.z, ray.direction.z);
        let start = x.start.max(y.start.max(z.start));
        let finish = x.finish.min(y.finish.min(z.finish));
        if start.le(finish) {
            Interval { start, finish }
        } else {
            Interval { start: Ratio::infinity(), finish: Ratio::infinity() }
        }
    }

    /// The bounding box of a group of vertices.
    pub fn build(vertices: &[Vertex]) -> (r: BoundingBox)
        ensures
            r == BoundingBox::hull(vertices@),
    {
        let mut b = BoundingBox::empty();
        let mut i: usize = 0;
        while i < vertices.len()
            invariant
                i <= vertices.len(),
                b == BoundingBox::hull(vertices@.take(i as int)),
            decreases vertices.len() - i,
        {
            proof {
                assert(vertices@.take(i + 1).drop_last() =~= vertices@.take(i as int));
            }
            b.grow(vertices[i].coords);
            i = i + 1;
        }
        proof {
            assert(vertices@.take(i as int) =~= vertices@);
        }
        b
    }

    /// The bounding box of a group of triangles: of the vertices that they
    /// name, and of no others.
    pub fn build2(vertices: &[Vertex], faces: &[Triangle]) -> (r: BoundingBox)
        requires
            faces_in_range(vertices@, faces@),
        ensures
            r == BoundingBox::face_hull(vertices@, faces@),
    {
        let mut b = BoundingBox::empty();
        let mut i: usize = 0;
        while i < faces.len()
            invariant
                i <= faces.len(),
                faces_in_range(vertices@, faces@),
                b == BoundingBox::face_hull(vertices@, faces@.take(i as int)),
            decreases faces.len() - i,
        {
            proof {
                assert(faces@.take(i + 1).drop_last() =~= faces@.take(i as int));
                assert(faces@[i as int].in_range(vertices@.len() as int));
            }
            let f = faces[i];
            b.grow(vertices[f.v1 as usize].coords);
            b.grow(vertices[f.v2 as usize].coords);
            b.grow(vertices[f.v3 as usize].coords);
            i = i + 1;
        }
        proof {
            assert(faces@.take(i as int) =~= faces@);
        }
        b
    }
}

/// The smallest box that holds every box of `boxes`: on each axis the least
/// `lower` and the greatest `upper`. Of no boxes it is the empty box.
pub open spec fn union_spec(boxes: Seq<BoundingBox>) -> BoundingBox
    decreases boxes.len(),
{
    if boxes.len() == 0 {
        BoundingBox::empty_spec()
    } else {
        union_spec(boxes.drop_last()).join(boxes.last())
    }
}

/// The union of a group of bounding boxes.
pub fn union(boxes: &[BoundingBox]) -> (r: BoundingBox)
    ensures
        r == union_spec(boxes@),
{
    let mut b = BoundingBox::empty();
    let mut i: usize = 0;
    while i < boxes.len()
        invariant
            i <= boxes.len(),
            b == union_spec(boxes@.take(i as int)),
        decreases boxes.len() - i,
    {
        proof {
            assert(boxes@.take(i + 1).drop_last() =~= boxes@.take(i as int));
        }
        let o = boxes[i];
        b.lower.x = lesser(b.lower.x, o.lower.x);
        b.lower.y = lesser(b.lower.y, o.lower.y);
        b.lower.z = lesser(b.lower.z, o.lower.z);
        b.upper.x = greater(b.upper.x, o.upper.x);
        b.upper.y = greater(b.upper.y, o.upper.y);
        b.upper.z = greater(b.upper.z, o.upper.z);
        i = i + 1;
    }
    proof {
        assert(boxes@.take(i as int) =~= boxes@);
    }
    b
}

/// Joining the empty box to any box leaves that box as it is.
pub proof fn lemma_union_with_empty(b: BoundingBox)
    ensures
        union_spec(seq![b, BoundingBox::empty_spec()]) == b,
        union_spec(seq![BoundingBox::empty_spec(), b]) == b,
        b.join(BoundingBox::empty_spec()) == b,
        BoundingBox::empty_spec().join(b) == b,
{
    let e = BoundingBox::empty_spec();
    let none = Seq::<BoundingBox>::empty();
    assert(union_spec(none) == e);
    assert(seq![b].drop_last() =~= none);
    assert(seq![e].drop_last() =~= none);
    assert(union_spec(seq![b]) == union_spec(seq![b].drop_last()).join(b));
    assert(union_spec(seq![e]) == union_spec(seq![e].drop_last()).join(e));
    assert(seq![b, e].drop_last() =~= seq![b]);
    assert(seq![e, b].drop_last() =~= seq![e]);
    assert(union_spec(seq![b, e]) == union_spec(seq![b, e].drop_last()).join(e));
    assert(union_spec(seq![e, b]) == union_spec(seq![e, b].drop_last()).join(b));
}

/// A ray that starts strictly inside a box passes through it, and the
/// parameter zero lies strictly between its entry and its exit.
pub proof fn lemma_inside_crossing_holds_zero(b: BoundingBox, ray: Ray)
    requires
        b.lower.x < ray.origin.x < b.upper.x,
        b.lower.y < ray.origin.y < b.upper.y,
        b.lower.z < ray.origin.z < b.upper.z,
    ensures
        b.crossing(ray).start.less(Ratio { num: 0, den: 1 }),
        (Ratio { num: 0, den: 1 }).less(b.crossing(ray).finish),
{
    let zero = Ratio { num: 0, den: 1 };
    let x = slab(b.lower.x, b.upper.x, ray.origin.x, ray.direction.x);
    let y = slab(b.lower.y, b.upper.y, ray.origin.y, ray.direction.y);
    let z = slab(b.lower.z, b.upper.z, ray.origin.z, ray.direction.z);
    lemma_slab_around_origin(b.lower.x, b.upper.x, ray.origin.x, ray.direction.x);
    lemma_slab_around_origin(b.lower.y, b.upper.y, ray.origin.y, ray.direction.y);
    lemma_slab_around_origin(b.lower.z, b.upper.z, ray.origin.z, ray.direction.z);
    let start = x.start.greater(y.start.greater(z.start));
    let finish = x.finish.lesser(y.finish.lesser(z.finish));
    assert(start.less(zero));
    assert(zero.less(finish));
    lemma_less_less(start, zero, finish);
    lemma_ratio_total(start, finish);
}

/// Along one axis, an origin strictly between the planes has the entry
/// before and the exit after the parameter zero.
proof fn lemma_slab_around_origin(lower: i16, upper: i16, o: i16, d: i16)
    requires
        lower < o < upper,
    ensures
        slab(lower, upper, o, d).start.less(Ratio { num: 0, den: 1 }),
        (Ratio { num: 0, den: 1 }).less(slab(lower, upper, o, d).finish),
{
    let i = slab(lower, upper, o, d);
    assert(i.start.num * 1 < 0 * i.start.den) by (nonlinear_arith)
        requires
            i.start.num < 0,
    ;
    assert(0 * i.finish.den < i.finish.num * 1) by (nonlinear_arith)
        requires
            i.finish.num > 0,
    ;
}

/// Every vertex that a box was built from lies in the box.
pub proof fn lemma_hull_contains(vertices: Seq<Vertex>, i: int)
    requires
        0 <= i < vertices.len(),
    ensures
        BoundingBox::hull(vertices).contains(vertices[i].coords@),
    decreases vertices.len(),
{
    if i < vertices.len() - 1 {
        lemma_hull_contains(vertices.drop_last(), i);
    }
}

/// Every corner of every triangle that a box was built from lies in the box.
pub proof fn lemma_face_hull_contains(vertices: Seq<Vertex>, faces: Seq<Triangle>, i: int)
    requires
        0 <= i < faces.len(),
    ensures
        BoundingBox::face_hull(vertices, faces).contains(vertices[faces[i].v1 as int].coords@),
        BoundingBox::face_hull(vertices, faces).contains(vertices[faces[i].v2 as int].coords@),
        BoundingBox::face_hull(vertices, faces).contains(vertices[faces[i].v3 as int].coords@),
    decreases faces.len(),
{
    if i < faces.len() - 1 {
        lemma_face_hull_contains(vertices, faces.drop_last(), i);
    }
}

/// A weighted mean of three numbers between `lower` and `upper` lies between
/// them; it lies on one of them only if all three numbers do.
proof fn lemma_weighted_mean(
    alpha: int,
    beta: int,
    gamma: int,
    p1: int,
    p2: int,
    p3: int,
    lower: int,
    upper: int,
)
    requires
        alpha > 0,
        beta > 0,
        gamma > 0,
        lower <= p1 <= upper,
        lower <= p2 <= upper,
        lower <= p3 <= upper,
    ensures
        (alpha + beta + gamma) * lower <= alpha * p1 + beta * p2 + gamma * p3,
        alpha * p1 + beta * p2 + gamma * p3 <= (alpha + beta + gamma) * upper,
        (alpha + beta + gamma) * lower == alpha * p1 + beta * p2 + gamma * p3 ==> p1 == lower
            && p2 == lower && p3 == lower,
        (alpha + beta + gamma) * upper == alpha * p1 + beta * p2 + gamma * p3 ==> p1 == upper
            && p2 == upper && p3 == upper,
{
    assert((alpha + beta + gamma) * lower == alpha * lower + beta * lower + gamma * lower)
        by (nonlinear_arith);
    assert((alpha + beta + gamma) * upper == alpha * upper + beta * upper + gamma * upper)
        by (nonlinear_arith);
    lemma_weight(alpha, p1, lower, upper);
    lemma_weight(beta, p2, lower, upper);
    lemma_weight(gamma, p3, lower, upper);
}

/// A positive weight keeps the order of what it multiplies.
proof fn lemma_weight(w: int, p: int, lower: int, upper: int)
    by (nonlinear_arith)
    requires
        w > 0,
        lower <= p <= upper,
    ensures
        w * lower <= w * p <= w * upper,
        w * lower == w * p ==> p == lower,
        w * upper == w * p ==> p == upper,
{
}

/// Along one axis: a point of the ray that is a weighted mean of three
/// numbers in the slab lies between the slab's entry and exit.
proof fn lemma_slab_holds_mean(
    lower: i16,
    upper: i16,
    o: i16,
    d: i16,
    t: Ratio,
    alpha: int,
    beta: int,
    gamma: int,
    p1: int,
    p2: int,
    p3: int,
)
    requires
        t.den > 0,
        alpha > 0,
        beta > 0,
        gamma > 0,
        alpha + beta + gamma == t.den,
        t.den * o + t.num * d == alpha * p1 + beta * p2 + gamma * p3,
        lower <= p1 <= upper,
        lower <= p2 <= upper,
        lower <= p3 <= upper,
        d == 0 ==> !(p1 == p2 && p2 == p3),
    ensures
        slab(lower, upper, o, d).start.at_most(t),
        t.at_most(slab(lower, upper, o, d).finish),
{
    let den = t.den as int;
    let dist = t.num as int;
    lemma_weighted_mean(alpha, beta, gamma, p1, p2, p3, lower as int, upper as int);
    let i = slab(lower, upper, o, d);
    assert(den * (lower - o) == den * lower - den * o) by (nonlinear_arith);
    assert(den * (upper - o) == den * upper - den * o) by (nonlinear_arith);
    assert(den * (o - lower) == den * o - den * lower) by (nonlinear_arith);
    assert(den * (o - upper) == den * o - den * upper) by (nonlinear_arith);
    if d > 0 {
        assert((lower - o) * den == den * (lower - o)) by (nonlinear_arith);
        assert((upper - o) * den == den * (upper - o)) by (nonlinear_arith);
        assert(i.start.num * t.den <= t.num * i.start.den);
        assert(t.num * i.finish.den <= i.finish.num * t.den);
    } else if d < 0 {
        assert((o - lower) * den == den * (o - lower)) by (nonlinear_arith);
        assert((o - upper) * den == den * (o - upper)) by (nonlinear_arith);
        assert(dist * (-d) == -(dist * d)) by (nonlinear_arith);
        assert(i.start.num * t.den <= t.num * i.start.den);
        assert(t.num * i.finish.den <= i.finish.num * t.den);
    } else {
        assert(dist * d == 0) by (nonlinear_arith)
            requires
                d == 0,
        ;
        assert(lower < o < upper);
        assert(i.start.num * t.den <= t.num * i.start.den) by (nonlinear_arith)
            requires
                i.start.num == -1,
                i.start.den == 0,
                t.den > 0,
        ;
        assert(t.num * i.finish.den <= i.finish.num * t.den) by (nonlinear_arith)
            requires
                i.finish.num == 1,
                i.finish.den == 0,
                t.den > 0,
        ;
    }
}

/// A triangle whose corners agree in one coordinate lies in a plane across
/// that axis; a ray that does not move along the axis runs along that plane.
proof fn lemma_flat_runs_along(a0: int, a1: int, a2: int, b0: int, b1: int, b2: int, d0: int, d1: int, d2: int)
    by (nonlinear_arith)
    requires
        a0 == 0,
        b0 == 0,
        d0 == 0,
    ensures
        (a1 * b2 - a2 * b1) * d0 + (a2 * b0 - a0 * b2) * d1 + (a0 * b1 - a1 * b0) * d2 == 0,
{
}

/// A box that holds the three corners of a triangle holds every hit on it:
/// the ray passes through the box, and the hit's distance lies between the
/// ray's entry into the box and its exit.
pub proof fn lemma_box_holds_hit(b: BoundingBox, c: Corners, ray: Ray)
    requires
        c.struck(ray),
        b.contains(c.p1@),
        b.contains(c.p2@),
        b.contains(c.p3@),
    ensures
        b.crossing(ray).start.at_most(c.distance(ray)),
        c.distance(ray).at_most(b.crossing(ray).finish),
{
    lemma_solution_bounds(c, ray);
    lemma_hit_point(c, ray);
    let t = c.distance(ray);
    let (al, be, ga) = (c.alpha(ray), c.beta(ray), c.gamma(ray));
    let a = c.edge_a();
    let e = c.edge_b();
    let d = ray.direction@;
    assert(t.den == c.den(ray) && t.num == c.dist(ray));
    if d.x == 0 && c.p1.x == c.p2.x && c.p2.x == c.p3.x {
        lemma_flat_runs_along(a.x, a.y, a.z, e.x, e.y, e.z, d.x, d.y, d.z);
    }
    if d.y == 0 && c.p1.y == c.p2.y && c.p2.y == c.p3.y {
        lemma_flat_runs_along(a.y, a.z, a.x, e.y, e.z, e.x, d.y, d.z, d.x);
    }
    if d.z == 0 && c.p1.z == c.p2.z && c.p2.z == c.p3.z {
        lemma_flat_runs_along(a.z, a.x, a.y, e.z, e.x, e.y, d.z, d.x, d.y);
    }
    lemma_slab_holds_mean(
        b.lower.x, b.upper.x, ray.origin.x, ray.direction.x, t, al, be, ga,
        c.p1.x as int, c.p2.x as int, c.p3.x as int,
    );
    lemma_slab_holds_mean(
        b.lower.y, b.upper.y, ray.origin.y, ray.direction.y, t, al, be, ga,
        c.p1.y as int, c.p2.y as int, c.p3.y as int,
    );
    lemma_slab_holds_mean(
        b.lower.z, b.upper.z, ray.origin.z, ray.direction.z, t, al, be, ga,
        c.p1.z as int, c.p2.z as int, c.p3.z as int,
    );
    let x = slab(b.lower.x, b.upper.x, ray.origin.x, ray.direction.x);
    let y = slab(b.lower.y, b.upper.y, ray.origin.y, ray.direction.y);
    let z = slab(b.lower.z, b.upper.z, ray.origin.z, ray.direction.z);
    let start = x.start.greater(y.start.greater(z.start));
    let finish = x.finish.lesser(y.finish.lesser(z.finish));
    assert(start.at_most(t));
    assert(t.at_most(finish));
    lemma_most_most(start, t, finish);
}

/// At the parameter `n / m` the point of the ray lies in the box, faces
/// included.
pub open spec fn reaches(b: BoundingBox, ray: Ray, n: int, m: int) -> bool {
    &&& m > 0
    &&& m * b.lower.x <= m * ray.origin.x + n * ray.direction.x <= m * b.upper.x
    &&& m * b.lower.y <= m * ray.origin.y + n * ray.direction.y <= m * b.upper.y
    &&& m * b.lower.z <= m * ray.origin.z + n * ray.direction.z <= m * b.upper.z
}

/// Along one axis: the slab's entry and exit are defined, and at a finite
/// parameter between them the ray lies in the slab.
proof fn lemma_slab_within(lower: i16, upper: i16, o: i16, d: i16, t: Ratio)
    requires
        t.den > 0,
        slab(lower, upper, o, d).start.at_most(t),
        t.at_most(slab(lower, upper, o, d).finish),
    ensures
        t.den * lower <= t.den * o + t.num * d <= t.den * upper,
{
    let i = slab(lower, upper, o, d);
    let den = t.den as int;
    let dist = t.num as int;
    assert(den * (lower - o) == den * lower - den * o) by (nonlinear_arith);
    assert(den * (upper - o) == den * upper - den * o) by (nonlinear_arith);
    assert(den * (o - lower) == den * o - den * lower) by (nonlinear_arith);
    assert(den * (o - upper) == den * o - den * upper) by (nonlinear_arith);
    if d > 0 {
        assert((lower - o) * den == den * (lower - o)) by (nonlinear_arith);
        assert((upper - o) * den == den * (upper - o)) by (nonlinear_arith);
    } else if d < 0 {
        assert((o - lower) * den == den * (o - lower)) by (nonlinear_arith);
        assert((o - upper) * den == den * (o - upper)) by (nonlinear_arith);
        assert(dist * (-d) == -(dist * d)) by (nonlinear_arith);
    } else {
        assert(dist * d == 0) by (nonlinear_arith)
            requires
                d == 0,
        ;
        if lower < o < upper {
            assert(den * lower < den * o < den * upper) by (nonlinear_arith)
                requires
                    den > 0,
                    lower < o < upper,
            ;
        } else {
            assert(i.start.num * t.den > t.num * i.start.den) by (nonlinear_arith)
                requires
                    i.start.num == 1,
                    i.start.den == 0,
                    t.den > 0,
            ;
        }
    }
}

/// A ray that passes through the box lies in the box at some parameter. So a
/// ray that lies in the box at no parameter, such as one along an axis and
/// beside the box, is reported as not passing.
pub proof fn lemma_missed_box(b: BoundingBox, ray: Ray)
    requires
        forall|n: int, m: int| !reaches(b, ray, n, m),
    ensures
        b.crossing(ray) == Interval::missing(),
{
    let x = slab(b.lower.x, b.upper.x, ray.origin.x, ray.direction.x);
    let y = slab(b.lower.y, b.upper.y, ray.origin.y, ray.direction.y);
    let z = slab(b.lower.z, b.upper.z, ray.origin.z, ray.direction.z);
    let yz = y.start.greater(z.start);
    let start = x.start.greater(yz);
    let fyz = y.finish.lesser(z.finish);
    let finish = x.finish.lesser(fyz);
    if !b.is_empty_spec() && start.at_most(finish) {
        lemma_greater_bounds(y.start, z.start);
        lemma_greater_bounds(x.start, yz);
        lemma_lesser_bounds(y.finish, z.finish);
        lemma_lesser_bounds(x.finish, fyz);
        lemma_most_most(y.start, yz, start);
        lemma_most_most(z.start, yz, start);
        lemma_most_most(finish, fyz, y.finish);
        lemma_most_most(finish, fyz, z.finish);
        // a parameter between the entry and the exit
        let t = if start.den > 0 {
            start
        } else if finish.den > 0 {
            finish
        } else {
            Ratio { num: 0, den: 1 }
        };
        assert(start.at_most(t) && t.at_most(finish)) by {
            lemma_ratio_total(start, start);
            lemma_ratio_total(finish, finish);
            if start.den == 0 && finish.den == 0 {
                assert(start.num < 0 && finish.num > 0) by {
                    assert(finish.num != 0 && start.num != 0);
                    // the entry is no positive infinity: that comes only with
                    // an exit at the negative infinity
                    if start.num > 0 {
                        assert(x.start.num > 0 && x.start.den == 0 || y.start.num > 0
                            && y.start.den == 0 || z.start.num > 0 && z.start.den == 0);
                    }
                    if finish.num < 0 {
                        assert(x.finish.num < 0 && x.finish.den == 0 || y.finish.num < 0
                            && y.finish.den == 0 || z.finish.num < 0 && z.finish.den == 0);
                    }
                }
                assert(start.num * t.den <= t.num * start.den) by (nonlinear_arith)
                    requires
                        start.num < 0,
                        start.den == 0,
                        t.den == 1,
                ;
                assert(t.num * finish.den <= finish.num * t.den) by (nonlinear_arith)
                    requires
                        finish.num > 0,
                        finish.den == 0,
                        t.den == 1,
                        t.num == 0,
                ;
            }
        }
        lemma_most_most(x.start, start, t);
        lemma_most_most(y.start, start, t);
        lemma_most_most(z.start, start, t);
        lemma_most_most(t, finish, x.finish);
        lemma_most_most(t, finish, y.finish);
        lemma_most_most(t, finish, z.finish);
        lemma_slab_within(b.lower.x, b.upper.x, ray.origin.x, ray.direction.x, t);
        lemma_slab_within(b.lower.y, b.upper.y, ray.origin.y, ray.direction.y, t);
        lemma_slab_within(b.lower.z, b.upper.z, ray.origin.z, ray.direction.z, t);
        assert(reaches(b, ray, t.num as int, t.den as int));
        assert(false);
    }
}

} // verus!
