//! Points and vectors on the integer lattice, with their exact arithmetic.
use vstd::prelude::*;

verus! {

/// Largest magnitude of a lattice coordinate.
pub const COORD_MAX: i64 = 32768;

/// Largest magnitude of the difference of two lattice coordinates.
pub const EDGE_MAX: i64 = 65535;

/// Largest magnitude of a component of the cross product of two edges.
pub const NORMAL_MAX: i64 = 8589672450;

/// A vector of three mathematical integers: the model of every lattice point
/// and direction.
pub struct V3 {
    pub x: int,
    pub y: int,
    pub z: int,
}

impl V3 {
    pub open spec fn plus(self, o: V3) -> V3 {
        V3 { x: self.x + o.x, y: self.y + o.y, z: self.z + o.z }
    }

    pub open spec fn minus(self, o: V3) -> V3 {
        V3 { x: self.x - o.x, y: self.y - o.y, z: self.z - o.z }
    }

    pub open spec fn times(self, k: int) -> V3 {
        V3 { x: k * self.x, y: k * self.y, z: k * self.z }
    }

    pub open spec fn dot(self, o: V3) -> int {
        self.x * o.x + self.y * o.y + self.z * o.z
    }

    pub open spec fn cross(self, o: V3) -> V3 {
        V3 {
            x: self.y * o.z - self.z * o.y,
            y: self.z * o.x - self.x * o.z,
            z: self.x * o.y - self.y * o.x,
        }
    }

    /// Every component has magnitude at most `m`.
    pub open spec fn within(self, m: int) -> bool {
        &&& -m <= self.x <= m
        &&& -m <= self.y <= m
        &&& -m <= self.z <= m
    }

    pub open spec fn is_zero(self) -> bool {
        self.x == 0 && self.y == 0 && self.z == 0
    }
}

/// A point of the lattice.
#[derive(Clone, Copy, Debug, PartialEq, Eq, Structural)]
pub struct Point3 {
    pub x: i16,
    pub y: i16,
    pub z: i16,
}

/// A displacement between lattice points.
#[derive(Clone, Copy, Debug, PartialEq, Eq, Structural)]
pub struct Vector3 {
    pub x: i16,
    pub y: i16,
    pub z: i16,
}

/// A vector with 64-bit components, for edges, normals and other products.
#[derive(Clone, Copy, Debug, PartialEq, Eq, Structural)]
pub struct Wide3 {
    pub x: i64,
    pub y: i64,
    pub z: i64,
}

/// A point or vector with rational coordinates `x / w`, `y / w`, `z / w`
/// over the common denominator `w`.
#[derive(Clone, Copy, Debug, PartialEq, Eq, Structural)]
pub struct Homogeneous {
    pub x: i128,
    pub y: i128,
    pub z: i128,
    pub w: i128,
}

impl Homogeneous {
    /// The numerators as a vector of integers.
    pub open spec fn numerators(self) -> V3 {
        V3 { x: self.x as int, y: self.y as int, z: self.z as int }
    }

    pub open spec fn origin_spec() -> Homogeneous {
        Homogeneous { x: 0, y: 0, z: 0, w: 1 }
    }

    /// The point with all coordinates zero, which is also the zero vector.
    #[verifier::when_used_as_spec(origin_spec)]
    pub fn origin() -> (r: Homogeneous)
        ensures
            r == Homogeneous::origin_spec(),
    {
        Homogeneous { x: 0, y: 0, z: 0, w: 1 }
    }
}

impl View for Point3 {
    type V = V3;

    open spec fn view(&self) -> V3 {
        V3 { x: self.x as int, y: self.y as int, z: self.z as int }
    }
}

impl View for Vector3 {
    type V = V3;

    open spec fn view(&self) -> V3 {
        V3 { x: self.x as int, y: self.y as int, z: self.z as int }
    }
}

impl View for Wide3 {
    type V = V3;

    open spec fn view(&self) -> V3 {
        V3 { x: self.x as int, y: self.y as int, z: self.z as int }
    }
}

/// The product of two bounded integers is bounded by the product of the bounds.
pub proof fn lemma_product_bound(x: int, y: int, mx: int, my: int)
    by (nonlinear_arith)
    requires
        -mx <= x <= mx,
        -my <= y <= my,
    ensures
        -(mx * my) <= x * y <= mx * my,
{
}

/// Bounds on the dot product of two bounded vectors.
pub proof fn lemma_dot_bound(a: V3, b: V3, ma: int, mb: int)
    requires
        a.within(ma),
        b.within(mb),
    ensures
        -(3 * (ma * mb)) <= a.dot(b) <= 3 * (ma * mb),
{
    lemma_product_bound(a.x, b.x, ma, mb);
    lemma_product_bound(a.y, b.y, ma, mb);
    lemma_product_bound(a.z, b.z, ma, mb);
}

/// Bounds on the cross product of two bounded vectors.
pub proof fn lemma_cross_bound(a: V3, b: V3, ma: int, mb: int)
    requires
        a.within(ma),
        b.within(mb),
    ensures
        a.cross(b).within(2 * (ma * mb)),
{
    lemma_product_bound(a.y, b.z, ma, mb);
    lemma_product_bound(a.z, b.y, ma, mb);
    lemma_product_bound(a.z, b.x, ma, mb);
    lemma_product_bound(a.x, b.z, ma, mb);
    lemma_product_bound(a.x, b.y, ma, mb);
    lemma_product_bound(a.y, b.x, ma, mb);
}

impl Point3 {
    pub fn new(x: i16, y: i16, z: i16) -> (r: Point3)
        ensures
            r == (Point3 { x, y, z }),
    {
        Point3 { x, y, z }
    }

    /// The lattice origin.
    pub fn origin() -> (r: Point3)
        ensures
            r == (Point3 { x: 0, y: 0, z: 0 }),
    {
        Point3 { x: 0, y: 0, z: 0 }
    }

    /// The displacement that leads from `from` to `self`.
    pub fn minus(&self, from: &Point3) -> (r: Wide3)
        ensures
            r@ == self@.minus(from@),
            r@.within(EDGE_MAX as int),
    {
        Wide3 {
            x: self.x as i64 - from.x as i64,
            y: self.y as i64 - from.y as i64,
            z: self.z as i64 - from.z as i64,
        }
    }

    pub fn widen(&self) -> (r: Wide3)
        ensures
            r@ == self@,
            r@.within(COORD_MAX as int),
    {
        Wide3 { x: self.x as i64, y: self.y as i64, z: self.z as i64 }
    }
}

impl Vector3 {
    pub fn new(x: i16, y: i16, z: i16) -> (r: Vector3)
        ensures
            r == (Vector3 { x, y, z }),
    {
        Vector3 { x, y, z }
    }

    /// The zero displacement.
    pub fn zero() -> (r: Vector3)
        ensures
            r == (Vector3 { x: 0, y: 0, z: 0 }),
    {
        Vector3 { x: 0, y: 0, z: 0 }
    }

    pub fn widen(&self) -> (r: Wide3)
        ensures
            r@ == self@,
            r@.within(COORD_MAX as int),
    {
        Wide3 { x: self.x as i64, y: self.y as i64, z: self.z as i64 }
    }
}

impl Wide3 {
    pub fn zero() -> (r: Wide3)
        ensures
            r == (Wide3 { x: 0, y: 0, z: 0 }),
    {
        Wide3 { x: 0, y: 0, z: 0 }
    }

    pub fn is_zero(&self) -> (r: bool)
        ensures
            r == self@.is_zero(),
    {
        self.x == 0 && self.y == 0 && self.z == 0
    }

    /// Dot product of two vectors whose components are bounded by `ma` and
    /// `mb`, small enough for the sum of three products to fit.
    pub(crate) fn dot(&self, o: &Wide3, Ghost(ma): Ghost<int>, Ghost(mb): Ghost<int>) -> (r: i64)
        requires
            self@.within(ma),
            o@.within(mb),
            3 * (ma * mb) <= i64::MAX,
        ensures
            r == self@.dot(o@),
            -(3 * (ma * mb)) <= r <= 3 * (ma * mb),
    {
        proof {
            lemma_product_bound(self.x as int, o.x as int, ma, mb);
            lemma_product_bound(self.y as int, o.y as int, ma, mb);
            lemma_product_bound(self.z as int, o.z as int, ma, mb);
        }
        self.x * o.x + self.y * o.y + self.z * o.z
    }

    /// Cross product of two vectors whose components are bounded by `ma` and
    /// `mb`, small enough for the difference of two products to fit.
    pub(crate) fn cross(&self, o: &Wide3, Ghost(ma): Ghost<int>, Ghost(mb): Ghost<int>) -> (r: Wide3)
        requires
            self@.within(ma),
            o@.within(mb),
            2 * (ma * mb) <= i64::MAX,
        ensures
            r@ == self@.cross(o@),
            r@.within(2 * (ma * mb)),
    {
        proof {
            lemma_cross_bound(self@, o@, ma, mb);
            lemma_product_bound(self.y as int, o.z as int, ma, mb);
            lemma_product_bound(self.z as int, o.y as int, ma, mb);
            lemma_product_bound(self.z as int, o.x as int, ma, mb);
            lemma_product_bound(self.x as int, o.z as int, ma, mb);
            lemma_product_bound(self.x as int, o.y as int, ma, mb);
            lemma_product_bound(self.y as int, o.x as int, ma, mb);
        }
        Wide3 {
            x: self.y * o.z - self.z * o.y,
            y: self.z * o.x - self.x * o.z,
            z: self.x * o.y - self.y * o.x,
        }
    }
}

} // verus!
