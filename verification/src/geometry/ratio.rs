//! Ratios of integers, extended by the two infinities and an undefined value.
use vstd::prelude::*;

verus! {

/// The ratio `num / den`.
///
/// With `den > 0` it is the rational number `num / den`. With `den == 0` it is
/// the positive infinity for `num > 0`, the negative infinity for `num < 0`
/// and undefined for `num == 0`. An undefined ratio is neither below, above
/// nor level with anything.
#[derive(Clone, Copy, Debug, PartialEq, Eq, Structural)]
pub struct Ratio {
    pub num: i64,
    pub den: u64,
}

impl Ratio {
    pub open spec fn is_nan_spec(self) -> bool {
        self.den == 0 && self.num == 0
    }

    pub open spec fn is_finite_spec(self) -> bool {
        self.den > 0
    }

    pub open spec fn is_infinite_spec(self) -> bool {
        self.den == 0 && self.num != 0
    }

    /// `self` is strictly below `o`.
    pub open spec fn less(self, o: Ratio) -> bool {
        &&& !self.is_nan_spec()
        &&& !o.is_nan_spec()
        &&& if self.den > 0 || o.den > 0 {
            self.num * o.den < o.num * self.den
        } else {
            self.num < 0 && o.num > 0
        }
    }

    /// `self` is below or level with `o`.
    pub open spec fn at_most(self, o: Ratio) -> bool {
        &&& !self.is_nan_spec()
        &&& !o.is_nan_spec()
        &&& if self.den > 0 || o.den > 0 {
            self.num * o.den <= o.num * self.den
        } else {
            self.num < 0 || o.num > 0
        }
    }

    /// `self` and `o` stand for the same extended number.
    pub open spec fn level(self, o: Ratio) -> bool {
        self.at_most(o) && o.at_most(self)
    }

    /// The lesser of two ratios; an undefined one gives way to the other.
    pub open spec fn lesser(self, o: Ratio) -> Ratio {
        if self.is_nan_spec() {
            o
        } else if o.is_nan_spec() {
            self
        } else if o.less(self) {
            o
        } else {
            self
        }
    }

    /// The greater of two ratios; an undefined one gives way to the other.
    pub open spec fn greater(self, o: Ratio) -> Ratio {
        if self.is_nan_spec() {
            o
        } else if o.is_nan_spec() {
            self
        } else if self.less(o) {
            o
        } else {
            self
        }
    }

    pub open spec fn infinity_spec() -> Ratio {
        Ratio { num: 1, den: 0 }
    }

    pub open spec fn neg_infinity_spec() -> Ratio {
        Ratio { num: -1i64, den: 0 }
    }

    pub open spec fn nan_spec() -> Ratio {
        Ratio { num: 0, den: 0 }
    }

    pub fn new(num: i64, den: u64) -> (r: Ratio)
        ensures
            r == (Ratio { num, den }),
    {
        Ratio { num, den }
    }

    /// The whole number `n`.
    pub fn from_int(n: i64) -> (r: Ratio)
        ensures
            r == (Ratio { num: n, den: 1 }),
    {
        Ratio { num: n, den: 1 }
    }

    #[verifier::when_used_as_spec(infinity_spec)]
    pub fn infinity() -> (r: Ratio)
        ensures
            r == Ratio::infinity_spec(),
    {
        Ratio { num: 1, den: 0 }
    }

    #[verifier::when_used_as_spec(neg_infinity_spec)]
    pub fn neg_infinity() -> (r: Ratio)
        ensures
            r == Ratio::neg_infinity_spec(),
    {
        Ratio { num: -1, den: 0 }
    }

    #[verifier::when_used_as_spec(nan_spec)]
    pub fn nan() -> (r: Ratio)
        ensures
            r == Ratio::nan_spec(),
    {
        Ratio { num: 0, den: 0 }
    }

    #[verifier::when_used_as_spec(is_nan_spec)]
    pub fn is_nan(self) -> (r: bool)
        ensures
            r == self.is_nan_spec(),
    {
        self.den == 0 && self.num == 0
    }

    #[verifier::when_used_as_spec(is_finite_spec)]
    pub fn is_finite(self) -> (r: bool)
        ensures
            r == self.is_finite_spec(),
    {
        self.den > 0
    }

    #[verifier::when_used_as_spec(is_infinite_spec)]
    pub fn is_infinite(self) -> (r: bool)
        ensures
            r == self.is_infinite_spec(),
    {
        self.den == 0 && self.num != 0
    }

    /// Whether `self` is strictly below `o`.
    pub fn lt(self, o: Ratio) -> (r: bool)
        ensures
            r == self.less(o),
    {
        if self.is_nan() || o.is_nan() {
            false
        } else if self.den > 0 || o.den > 0 {
            proof {
                lemma_cross_fits(self.num as int, o.den as int);
                lemma_cross_fits(o.num as int, self.den as int);
            }
            (self.num as i128) * (o.den as i128) < (o.num as i128) * (self.den as i128)
        } else {
            self.num < 0 && o.num > 0
        }
    }

    /// Whether `self` is below or level with `o`.
    pub fn le(self, o: Ratio) -> (r: bool)
        ensures
            r == self.at_most(o),
    {
        if self.is_nan() || o.is_nan() {
            false
        } else if self.den > 0 || o.den > 0 {
            proof {
                lemma_cross_fits(self.num as int, o.den as int);
                lemma_cross_fits(o.num as int, self.den as int);
            }
            (self.num as i128) * (o.den as i128) <= (o.num as i128) * (self.den as i128)
        } else {
            self.num < 0 || o.num > 0
        }
    }

    /// The lesser of `self` and `o`, where an undefined one gives way.
    pub fn min(self, o: Ratio) -> (r: Ratio)
        ensures
            r == self.lesser(o),
    {
        if self.is_nan() {
            o
        } else if o.is_nan() {
            self
        } else if o.lt(self) {
            o
        } else {
            self
        }
    }

    /// The greater of `self` and `o`, where an undefined one gives way.
    pub fn max(self, o: Ratio) -> (r: Ratio)
        ensures
            r == self.greater(o),
    {
        if self.is_nan() {
            o
        } else if o.is_nan() {
            self
        } else if self.lt(o) {
            o
        } else {
            self
        }
    }
}

/// A 64-bit numerator times a 64-bit denominator fits in 128 bits.
proof fn lemma_cross_fits(n: int, d: int)
    by (nonlinear_arith)
    requires
        -0x8000_0000_0000_0000 <= n <= 0x7fff_ffff_ffff_ffff,
        0 <= d <= 0xffff_ffff_ffff_ffff,
    ensures
        -0x8000_0000_0000_0000 * 0xffff_ffff_ffff_ffff <= n * d,
        n * d <= 0x7fff_ffff_ffff_ffff * 0xffff_ffff_ffff_ffff,
{
}

/// Of two defined ratios one is below the other, or they are level.
pub proof fn lemma_ratio_total(a: Ratio, b: Ratio)
    requires
        !a.is_nan_spec(),
        !b.is_nan_spec(),
    ensures
        a.at_most(b) <==> !b.less(a),
        a.less(b) ==> a.at_most(b),
        a.at_most(a),
        !a.less(a),
{
    assert(a.num * b.den <= b.num * a.den <==> !(b.num * a.den < a.num * b.den));
}

/// `less` is transitive.
pub proof fn lemma_less_less(a: Ratio, b: Ratio, c: Ratio)
    requires
        a.less(b),
        b.less(c),
    ensures
        a.less(c),
{
    let (an, ad) = (a.num as int, a.den as int);
    let (bn, bd) = (b.num as int, b.den as int);
    let (cn, cd) = (c.num as int, c.den as int);
    assert(if ad > 0 || cd > 0 { an * cd < cn * ad } else { an < 0 && cn > 0 }) by (nonlinear_arith)
        requires
            ad >= 0,
            bd >= 0,
            cd >= 0,
            ad == 0 ==> an != 0,
            bd == 0 ==> bn != 0,
            cd == 0 ==> cn != 0,
            if ad > 0 || bd > 0 { an * bd < bn * ad } else { an < 0 && bn > 0 },
            if bd > 0 || cd > 0 { bn * cd < cn * bd } else { bn < 0 && cn > 0 },
    ;
}

/// `at_most` followed by `less` gives `less`.
pub proof fn lemma_most_less(a: Ratio, b: Ratio, c: Ratio)
    requires
        a.at_most(b),
        b.less(c),
    ensures
        a.less(c),
{
    let (an, ad) = (a.num as int, a.den as int);
    let (bn, bd) = (b.num as int, b.den as int);
    let (cn, cd) = (c.num as int, c.den as int);
    assert(if ad > 0 || cd > 0 { an * cd < cn * ad } else { an < 0 && cn > 0 }) by (nonlinear_arith)
        requires
            ad >= 0,
            bd >= 0,
            cd >= 0,
            ad == 0 ==> an != 0,
            bd == 0 ==> bn != 0,
            cd == 0 ==> cn != 0,
            if ad > 0 || bd > 0 { an * bd <= bn * ad } else { an < 0 || bn > 0 },
            if bd > 0 || cd > 0 { bn * cd < cn * bd } else { bn < 0 && cn > 0 },
    ;
}

/// `less` followed by `at_most` gives `less`.
pub proof fn lemma_less_most(a: Ratio, b: Ratio, c: Ratio)
    requires
        a.less(b),
        b.at_most(c),
    ensures
        a.less(c),
{
    lemma_ratio_total(b, c);
    lemma_ratio_total(a, c);
    if !a.less(c) {
        // then c is at most a, hence below b, against b being at most c
        lemma_most_less(c, a, b);
    }
}

/// `at_most` is transitive.
pub proof fn lemma_most_most(a: Ratio, b: Ratio, c: Ratio)
    requires
        a.at_most(b),
        b.at_most(c),
    ensures
        a.at_most(c),
{
    lemma_ratio_total(a, c);
    lemma_ratio_total(b, c);
    if c.less(a) {
        lemma_less_most(c, a, b);
    }
}

/// The greater of two defined ratios is one of them, and neither is above it.
pub proof fn lemma_greater_bounds(a: Ratio, b: Ratio)
    requires
        !a.is_nan_spec(),
        !b.is_nan_spec(),
    ensures
        a.greater(b) == a || a.greater(b) == b,
        a.at_most(a.greater(b)),
        b.at_most(a.greater(b)),
{
    lemma_ratio_total(a, b);
    lemma_ratio_total(b, a);
    lemma_ratio_total(b, b);
}

/// The lesser of two defined ratios is one of them, and neither is below it.
pub proof fn lemma_lesser_bounds(a: Ratio, b: Ratio)
    requires
        !a.is_nan_spec(),
        !b.is_nan_spec(),
    ensures
        a.lesser(b) == a || a.lesser(b) == b,
        a.lesser(b).at_most(a),
        a.lesser(b).at_most(b),
{
    lemma_ratio_total(a, b);
    lemma_ratio_total(b, a);
    lemma_ratio_total(b, b);
}

/// Nothing is above the positive infinity, and every defined ratio is at
/// most the positive infinity.
pub proof fn lemma_infinity_greatest(x: Ratio)
    ensures
        !Ratio::infinity_spec().less(x),
        !x.is_nan_spec() ==> x.at_most(Ratio::infinity_spec()),
{
    let inf = Ratio::infinity_spec();
    assert(inf.num == 1 && inf.den == 0);
    assert(inf.num * x.den == x.den) by (nonlinear_arith)
        requires
            inf.num == 1,
    ;
    assert(x.num * inf.den == 0) by (nonlinear_arith)
        requires
            inf.den == 0,
    ;
}

} // verus!
