//! The exact solution of one ray against one triangle.
use vstd::prelude::*;
use crate::geometry::lattice::lemma_cross_bound;
use crate::geometry::lattice::lemma_dot_bound;
use crate::geometry::lattice::lemma_product_bound;
use crate::geometry::lattice::Point3;
use crate::geometry::lattice::Wide3;
use crate::geometry::lattice::COORD_MAX;
use crate::geometry::lattice::EDGE_MAX;
use crate::geometry::lattice::NORMAL_MAX;
use crate::geometry::lattice::V3;
use crate::geometry::ratio::Ratio;
use crate::geometry::util::Barycentric;
use crate::geometry::util::Ray;

verus! {

/// A hit counts only beyond the parameter `1 / EPSILON_INVERSE`, which keeps
/// a ray from hitting the surface it starts on.
pub const EPSILON_INVERSE: i64 = 10_000_000;

/// Largest magnitude of a normal dotted with a lattice vector.
pub const PLANE_MAX: i64 = 844399160524800;

/// The three corners of a triangle.
#[derive(Clone, Copy, Debug, PartialEq, Eq, Structural)]
pub struct Corners {
    pub p1: Point3,
    pub p2: Point3,
    pub p3: Point3,
}

impl Corners {
    /// The edge from the first corner to the second.
    pub open spec fn edge_a(self) -> V3 {
        self.p2@.minus(self.p1@)
    }

    /// The edge from the first corner to the third.
    pub open spec fn edge_b(self) -> V3 {
        self.p3@.minus(self.p1@)
    }

    /// The normal of the triangle's plane: the cross product of the two
    /// edges. Its length is twice the triangle's area.
    pub open spec fn normal(self) -> V3 {
        self.edge_a().cross(self.edge_b())
    }

    /// The plane's offset: with the normal `n`, the plane is `n . p + offset == 0`.
    pub open spec fn offset(self) -> int {
        -self.normal().dot(self.p1@)
    }

    /// The triangle has no area, so no plane.
    pub open spec fn is_degenerate(self) -> bool {
        self.normal().is_zero()
    }

    /// Denominator of the hit, before its sign is settled: the normal dotted
    /// with the ray's direction. Zero for a ray along the plane.
    pub open spec fn raw_den(self, ray: Ray) -> int {
        self.normal().dot(ray.direction@)
    }

    /// Numerator of the hit distance over `raw_den`.
    pub open spec fn raw_dist(self, ray: Ray) -> int {
        self.normal().dot(self.p1@.minus(ray.origin@))
    }

    /// Numerator of the weight of the second corner over `raw_den`.
    pub open spec fn raw_beta(self, ray: Ray) -> int {
        -self.edge_b().dot(ray.origin@.minus(self.p1@).cross(ray.direction@))
    }

    /// Numerator of the weight of the third corner over `raw_den`.
    pub open spec fn raw_gamma(self, ray: Ray) -> int {
        self.edge_a().dot(ray.origin@.minus(self.p1@).cross(ray.direction@))
    }

    /// The common, positive denominator of the distance and the weights.
    pub open spec fn den(self, ray: Ray) -> int {
        if self.raw_den(ray) < 0 {
            -self.raw_den(ray)
        } else {
            self.raw_den(ray)
        }
    }

    /// Numerator of the hit distance over `den`.
    pub open spec fn dist(self, ray: Ray) -> int {
        if self.raw_den(ray) < 0 {
            -self.raw_dist(ray)
        } else {
            self.raw_dist(ray)
        }
    }

    /// Numerator of the weight of the second corner over `den`.
    pub open spec fn beta(self, ray: Ray) -> int {
        if self.raw_den(ray) < 0 {
            -self.raw_beta(ray)
        } else {
            self.raw_beta(ray)
        }
    }

    /// Numerator of the weight of the third corner over `den`.
    pub open spec fn gamma(self, ray: Ray) -> int {
        if self.raw_den(ray) < 0 {
            -self.raw_gamma(ray)
        } else {
            self.raw_gamma(ray)
        }
    }

    /// Numerator of the weight of the first corner over `den`: what the other
    /// two leave of one.
    pub open spec fn alpha(self, ray: Ray) -> int {
        self.den(ray) - self.beta(ray) - self.gamma(ray)
    }

    /// The ray hits the triangle: it is not along the plane, it meets the
    /// plane beyond the parameter `1 / EPSILON_INVERSE`, and there the three
    /// weights are all positive, which puts the point strictly inside.
    pub open spec fn struck(self, ray: Ray) -> bool {
        &&& self.raw_den(ray) != 0
        &&& self.dist(ray) * EPSILON_INVERSE > self.den(ray)
        &&& self.alpha(ray) > 0
        &&& self.beta(ray) > 0
        &&& self.gamma(ray) > 0
    }

    /// The parameter at which the ray meets the triangle's plane.
    pub open spec fn distance(self, ray: Ray) -> Ratio {
        Ratio { num: self.dist(ray) as i64, den: self.den(ray) as u64 }
    }

    /// The weights of the three corners at the point where the ray meets the
    /// triangle's plane.
    pub open spec fn weights(self, ray: Ray) -> Barycentric {
        Barycentric {
            alpha: Ratio { num: self.alpha(ray) as i64, den: self.den(ray) as u64 },
            beta: Ratio { num: self.beta(ray) as i64, den: self.den(ray) as u64 },
            gamma: Ratio { num: self.gamma(ray) as i64, den: self.den(ray) as u64 },
        }
    }

    /// The normal and the offset of the triangle's plane.
    pub fn plane(&self) -> (r: (Wide3, i64))
        ensures
            r.0@ == self.normal(),
            r.1 == self.offset(),
            r.0@.within(NORMAL_MAX as int),
            -PLANE_MAX <= r.1 <= PLANE_MAX,
    {
        let a = self.p2.minus(&self.p1);
        let b = self.p3.minus(&self.p1);
        let n = a.cross(&b, Ghost(EDGE_MAX as int), Ghost(EDGE_MAX as int));
        let p = self.p1.widen();
        let w = -n.dot(&p, Ghost(NORMAL_MAX as int), Ghost(COORD_MAX as int));
        (n, w)
    }

    /// Casts `ray` against the triangle whose plane has the given normal and
    /// offset: the distance and the weights of the hit, if there is one.
    pub fn solve(&self, normal: &Wide3, offset: i64, ray: &Ray) -> (r: Option<(Ratio, Barycentric)>)
        requires
            normal@ == self.normal(),
            offset == self.offset(),
        ensures
            self.struck(*ray) ==> r == Some((self.distance(*ray), self.weights(*ray))),
            !self.struck(*ray) ==> r.is_none(),
    {
        proof {
            lemma_solution_bounds(*self, *ray);
            lemma_plane_equation(*self, *ray);
        }
        let o = ray.origin.widen();
        let d = ray.direction.widen();
        let raw_den = normal.dot(&d, Ghost(NORMAL_MAX as int), Ghost(COORD_MAX as int));
        if raw_den == 0 {
            return None;
        }
        let raw_dist = -(normal.dot(&o, Ghost(NORMAL_MAX as int), Ghost(COORD_MAX as int)) + offset);
        let a = self.p2.minus(&self.p1);
        let b = self.p3.minus(&self.p1);
        let s = ray.origin.minus(&self.p1);
        let q = s.cross(&d, Ghost(EDGE_MAX as int), Ghost(COORD_MAX as int));
        let raw_beta = -b.dot(&q, Ghost(EDGE_MAX as int), Ghost(2 * (EDGE_MAX * COORD_MAX)));
        let raw_gamma = a.dot(&q, Ghost(EDGE_MAX as int), Ghost(2 * (EDGE_MAX * COORD_MAX)));
        let negative = raw_den < 0;
        let den: i64 = if negative { -raw_den } else { raw_den };
        let dist: i64 = if negative { -raw_dist } else { raw_dist };
        let beta: i64 = if negative { -raw_beta } else { raw_beta };
        let gamma: i64 = if negative { -raw_gamma } else { raw_gamma };
        let alpha: i64 = den - beta - gamma;
        proof {
            lemma_product_bound(
                dist as int,
                EPSILON_INVERSE as int,
                2 * PLANE_MAX,
                EPSILON_INVERSE as int,
            );
        }
        if (dist as i128) * (EPSILON_INVERSE as i128) > (den as i128) && alpha > 0 && beta > 0
            && gamma > 0 {
            let den: u64 = den as u64;
            Some(
                (
                    Ratio { num: dist, den },
                    Barycentric {
                        alpha: Ratio { num: alpha, den },
                        beta: Ratio { num: beta, den },
                        gamma: Ratio { num: gamma, den },
                    },
                ),
            )
        } else {
            None
        }
    }
}

/// How large the quantities of a solution can get: all of them fit in 64 bits.
pub proof fn lemma_solution_bounds(c: Corners, ray: Ray)
    ensures
        c.normal().within(NORMAL_MAX as int),
        -PLANE_MAX <= c.offset() <= PLANE_MAX,
        -PLANE_MAX <= c.raw_den(ray) <= PLANE_MAX,
        -2 * PLANE_MAX <= c.raw_dist(ray) <= 2 * PLANE_MAX,
        -PLANE_MAX <= c.raw_beta(ray) <= PLANE_MAX,
        -PLANE_MAX <= c.raw_gamma(ray) <= PLANE_MAX,
{
    let e = EDGE_MAX as int;
    let m = COORD_MAX as int;
    let s = ray.origin@.minus(c.p1@);
    lemma_cross_bound(c.edge_a(), c.edge_b(), e, e);
    lemma_dot_bound(c.normal(), c.p1@, NORMAL_MAX as int, m);
    lemma_dot_bound(c.normal(), ray.direction@, NORMAL_MAX as int, m);
    lemma_dot_bound(c.normal(), c.p1@.minus(ray.origin@), NORMAL_MAX as int, e);
    lemma_cross_bound(s, ray.direction@, e, m);
    lemma_dot_bound(c.edge_b(), s.cross(ray.direction@), e, 2 * (e * m));
    lemma_dot_bound(c.edge_a(), s.cross(ray.direction@), e, 2 * (e * m));
}

/// The distance's numerator from the plane equation: the normal dotted with
/// the origin, plus the offset, negated.
pub proof fn lemma_plane_equation(c: Corners, ray: Ray)
    ensures
        c.raw_dist(ray) == -(c.normal().dot(ray.origin@) + c.offset()),
{
    let n = c.normal();
    let p = c.p1@;
    let o = ray.origin@;
    assert(n.x * (p.x - o.x) + n.y * (p.y - o.y) + n.z * (p.z - o.z) == (n.x * p.x + n.y * p.y
        + n.z * p.z) - (n.x * o.x + n.y * o.y + n.z * o.z)) by (nonlinear_arith);
}

/// `(a + b + c) * k` written out.
proof fn lemma_sum3_times(a: int, b: int, c: int, k: int)
    by (nonlinear_arith)
    ensures
        (a + b + c) * k == a * k + b * k + c * k,
{
}

/// `k * (x - y)` written out.
proof fn lemma_times_difference(k: int, x: int, y: int)
    by (nonlinear_arith)
    ensures
        k * (x - y) == k * x - k * y,
        (x - y) * k == x * k - y * k,
{
}

/// Products of three factors, regrouped.
proof fn lemma_regroup(a: int, b: int, c: int)
    by (nonlinear_arith)
    ensures
        (a * b) * c == a * (b * c),
        (a * b) * c == a * (c * b),
        (a * b) * c == (a * c) * b,
        (a * b) * c == b * (a * c),
        (a * b) * c == b * (c * a),
{
}

/// A product with one factor negated.
proof fn lemma_times_negated(a: int, b: int)
    by (nonlinear_arith)
    ensures
        (-a) * b == -(a * b),
        a * (-b) == -(a * b),
{
}

/// One coordinate of the triple product expansion
/// `n x (s x d) == (n . d) s - (n . s) d`, for the coordinate whose
/// companions in cyclic order are `1` and `2`.
proof fn lemma_triple_expansion(
    n0: int,
    n1: int,
    n2: int,
    s0: int,
    s1: int,
    s2: int,
    d0: int,
    d1: int,
    d2: int,
)
    ensures
        (n0 * d0 + n1 * d1 + n2 * d2) * s0 - (n0 * s0 + n1 * s1 + n2 * s2) * d0 == n1 * (s0 * d1
            - s1 * d0) - n2 * (s2 * d0 - s0 * d2),
{
    lemma_sum3_times(n0 * d0, n1 * d1, n2 * d2, s0);
    lemma_sum3_times(n0 * s0, n1 * s1, n2 * s2, d0);
    lemma_regroup(n0, d0, s0);
    lemma_regroup(n0, s0, d0);
    lemma_regroup(n1, d1, s0);
    lemma_regroup(n1, s1, d0);
    lemma_regroup(n2, d2, s0);
    lemma_regroup(n2, s2, d0);
    lemma_times_difference(n1, s0 * d1, s1 * d0);
    lemma_times_difference(n2, s2 * d0, s0 * d2);
}

/// One coordinate of `(a x b) x q == (a . q) b - (b . q) a`, for the
/// coordinate whose companions in cyclic order are `1` and `2`.
proof fn lemma_pair_expansion(
    a0: int,
    a1: int,
    a2: int,
    b0: int,
    b1: int,
    b2: int,
    q0: int,
    q1: int,
    q2: int,
)
    ensures
        (a0 * q0 + a1 * q1 + a2 * q2) * b0 - (b0 * q0 + b1 * q1 + b2 * q2) * a0 == (a2 * b0 - a0
            * b2) * q2 - (a0 * b1 - a1 * b0) * q1,
{
    lemma_sum3_times(a0 * q0, a1 * q1, a2 * q2, b0);
    lemma_sum3_times(b0 * q0, b1 * q1, b2 * q2, a0);
    lemma_regroup(a0, q0, b0);
    lemma_regroup(b0, q0, a0);
    lemma_regroup(a1, q1, b0);
    lemma_regroup(b1, q1, a0);
    lemma_regroup(a2, q2, b0);
    lemma_regroup(b2, q2, a0);
    lemma_times_difference(q2, a2 * b0, a0 * b2);
    lemma_times_difference(q1, a0 * b1, a1 * b0);
    lemma_regroup(a0, b1, q1);
    lemma_regroup(a0, b2, q2);
}

/// One coordinate of the solution in its edge form:
/// `den * s + dist * d == beta * a + gamma * b`, with `den == n . d`,
/// `dist == -(n . s)`, `beta == -(b . q)` and `gamma == a . q`, where
/// `n == a x b` and `q == s x d`.
proof fn lemma_edge_form(
    a0: int,
    a1: int,
    a2: int,
    b0: int,
    b1: int,
    b2: int,
    s0: int,
    s1: int,
    s2: int,
    d0: int,
    d1: int,
    d2: int,
)
    ensures
        ({
            let n0 = a1 * b2 - a2 * b1;
            let n1 = a2 * b0 - a0 * b2;
            let n2 = a0 * b1 - a1 * b0;
            let q0 = s1 * d2 - s2 * d1;
            let q1 = s2 * d0 - s0 * d2;
            let q2 = s0 * d1 - s1 * d0;
            (n0 * d0 + n1 * d1 + n2 * d2) * s0 + (-(n0 * s0 + n1 * s1 + n2 * s2)) * d0 == (-(b0
                * q0 + b1 * q1 + b2 * q2)) * a0 + (a0 * q0 + a1 * q1 + a2 * q2) * b0
        }),
{
    let n0 = a1 * b2 - a2 * b1;
    let n1 = a2 * b0 - a0 * b2;
    let n2 = a0 * b1 - a1 * b0;
    let q0 = s1 * d2 - s2 * d1;
    let q1 = s2 * d0 - s0 * d2;
    let q2 = s0 * d1 - s1 * d0;
    lemma_triple_expansion(n0, n1, n2, s0, s1, s2, d0, d1, d2);
    lemma_pair_expansion(a0, a1, a2, b0, b1, b2, q0, q1, q2);
    lemma_times_negated(n0 * s0 + n1 * s1 + n2 * s2, d0);
    lemma_times_negated(b0 * q0 + b1 * q1 + b2 * q2, a0);
    assert(n1 * q2 == q2 * n1) by (nonlinear_arith);
    assert(n2 * q1 == q1 * n2) by (nonlinear_arith);
    assert((a2 * b0 - a0 * b2) * q2 == n1 * q2);
    assert((a0 * b1 - a1 * b0) * q1 == n2 * q1);
}

/// One coordinate of the step from the edge form of the solution to its
/// corner form.
proof fn lemma_corner_form(
    den: int,
    dist: int,
    beta: int,
    gamma: int,
    o: int,
    d: int,
    p1: int,
    p2: int,
    p3: int,
)
    requires
        den * (o - p1) + dist * d == beta * (p2 - p1) + gamma * (p3 - p1),
    ensures
        den * o + dist * d == (den - beta - gamma) * p1 + beta * p2 + gamma * p3,
        (-den) * o + (-dist) * d == ((-den) - (-beta) - (-gamma)) * p1 + (-beta) * p2 + (-gamma)
            * p3,
{
    lemma_times_difference(den, o, p1);
    lemma_times_difference(beta, p2, p1);
    lemma_times_difference(gamma, p3, p1);
    lemma_sum3_times(den, -beta, -gamma, p1);
    lemma_times_negated(beta, p1);
    lemma_times_negated(gamma, p1);
    lemma_times_negated(den, o);
    lemma_times_negated(dist, d);
    lemma_times_negated(beta, p2);
    lemma_times_negated(gamma, p3);
    lemma_times_negated(den - beta - gamma, p1);
    assert((-den) - (-beta) - (-gamma) == -(den - beta - gamma));
}

/// Where the ray meets the plane is where the weights say: scaled by the
/// common denominator, the ray's point at the hit distance is the sum of the
/// corners, each times its weight. This holds of every triangle and ray,
/// struck or not.
pub proof fn lemma_hit_point(c: Corners, ray: Ray)
    ensures
        ray.origin@.times(c.den(ray)).plus(ray.direction@.times(c.dist(ray))) == c.p1@.times(
            c.alpha(ray),
        ).plus(c.p2@.times(c.beta(ray))).plus(c.p3@.times(c.gamma(ray))),
{
    let a = c.edge_a();
    let b = c.edge_b();
    let o = ray.origin@;
    let d = ray.direction@;
    let p1 = c.p1@;
    let s = o.minus(p1);
    let rd = c.raw_den(ray);
    let rt = c.raw_dist(ray);
    let rb = c.raw_beta(ray);
    let rg = c.raw_gamma(ray);
    let n = a.cross(b);
    let q = s.cross(d);
    assert(rt == -(n.x * s.x + n.y * s.y + n.z * s.z)) by {
        lemma_times_negated(s.x, n.x);
        lemma_times_negated(s.y, n.y);
        lemma_times_negated(s.z, n.z);
        assert(p1.minus(o).x == -s.x && p1.minus(o).y == -s.y && p1.minus(o).z == -s.z);
        assert(n.x * (-s.x) == -(n.x * s.x)) by (nonlinear_arith);
        assert(n.y * (-s.y) == -(n.y * s.y)) by (nonlinear_arith);
        assert(n.z * (-s.z) == -(n.z * s.z)) by (nonlinear_arith);
    }
    assert(rd == n.x * d.x + n.y * d.y + n.z * d.z);
    assert(rb == -(b.x * q.x + b.y * q.y + b.z * q.z));
    assert(rg == a.x * q.x + a.y * q.y + a.z * q.z);
    lemma_edge_form(a.x, a.y, a.z, b.x, b.y, b.z, s.x, s.y, s.z, d.x, d.y, d.z);
    lemma_edge_form(a.y, a.z, a.x, b.y, b.z, b.x, s.y, s.z, s.x, d.y, d.z, d.x);
    lemma_edge_form(a.z, a.x, a.y, b.z, b.x, b.y, s.z, s.x, s.y, d.z, d.x, d.y);
    assert(rd * s.x + rt * d.x == rb * a.x + rg * b.x);
    assert(rd * s.y + rt * d.y == rb * a.y + rg * b.y);
    assert(rd * s.z + rt * d.z == rb * a.z + rg * b.z);
    lemma_corner_form(rd, rt, rb, rg, o.x, d.x, c.p1@.x, c.p2@.x, c.p3@.x);
    lemma_corner_form(rd, rt, rb, rg, o.y, d.y, c.p1@.y, c.p2@.y, c.p3@.y);
    lemma_corner_form(rd, rt, rb, rg, o.z, d.z, c.p1@.z, c.p2@.z, c.p3@.z);
}

} // verus!
