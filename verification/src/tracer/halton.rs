//! Halton's low-discrepancy sequence in one dimension.
use vstd::prelude::*;

verus! {

/// Dividing a positive number by a base of two or more makes it smaller.
pub proof fn lemma_quotient_smaller(n: nat, base: nat)
    by (nonlinear_arith)
    requires
        n > 0,
        base >= 2,
    ensures
        n / base < n,
{
}

/// The denominator of element `n` of the sequence of the given base: the
/// base to the power of the number of digits of `n` in that base.
pub open spec fn radical_den(n: nat, base: nat) -> nat
    decreases n,
{
    if n == 0 || base < 2 {
        1
    } else {
        proof {
            lemma_quotient_smaller(n, base);
        }
        base * radical_den(n / base, base)
    }
}

/// The numerator of element `n` of the sequence of the given base over
/// `radical_den(n, base)`: the digits of `n` in that base, read backwards.
/// The element is the number whose digits behind the point are those of `n`
/// in reverse.
pub open spec fn radical_num(n: nat, base: nat) -> nat
    decreases n,
{
    if n == 0 || base < 2 {
        0
    } else {
        proof {
            lemma_quotient_smaller(n, base);
        }
        (n % base) * radical_den(n / base, base) + radical_num(n / base, base)
    }
}

/// The denominator of element `n` is at least one and at most `n` times the
/// base.
pub proof fn lemma_radical_den_bounds(n: nat, base: nat)
    requires
        base >= 2,
    ensures
        radical_den(n, base) >= 1,
        n >= 1 ==> base <= radical_den(n, base) <= n * base,
    decreases n,
{
    if n > 0 {
        let m = n / base;
        lemma_quotient_smaller(n, base);
        lemma_radical_den_bounds(m, base);
        let dm = radical_den(m, base);
        assert(m * base <= n) by (nonlinear_arith)
            requires
                m == n / base,
                base >= 2,
        ;
        if m == 0 {
            assert(base * dm == base) by (nonlinear_arith)
                requires
                    dm == 1,
            ;
            assert(base <= n * base) by (nonlinear_arith)
                requires
                    n >= 1,
            ;
        } else {
            assert(base <= base * dm <= n * base) by (nonlinear_arith)
                requires
                    1 <= dm <= m * base,
                    m * base <= n,
                    base >= 2,
            ;
        }
    }
}

/// The Halton sequence of a given base, with the place of its next element.
#[derive(Clone, Copy, Debug)]
pub struct HaltonSeq {
    base: usize,
    offset: usize,
}

impl HaltonSeq {
    /// The base of the sequence.
    pub closed spec fn base(self) -> usize {
        self.base
    }

    /// The index of the element that comes next.
    pub closed spec fn offset(self) -> usize {
        self.offset
    }

    /// A new sequence of the given base, at its first element.
    pub fn new(base: usize) -> (r: HaltonSeq)
        ensures
            r.base() == base,
            r.offset() == 0,
    {
        HaltonSeq { base, offset: 0 }
    }

    /// Skips the next `num` elements of the sequence.
    pub fn discard(&mut self, num: usize)
        requires
            old(self).offset() + num <= usize::MAX,
        ensures
            final(self).base() == old(self).base(),
            final(self).offset() == old(self).offset() + num,
    {
        self.offset += num;
    }

    /// The next element of the sequence, as a numerator and a denominator,
    /// and steps on to the one after it.
    pub fn next(&mut self) -> (r: (u128, u128))
        requires
            old(self).base() >= 2,
            old(self).offset() < usize::MAX,
        ensures
            r.0 == radical_num(old(self).offset() as nat, old(self).base() as nat),
            r.1 == radical_den(old(self).offset() as nat, old(self).base() as nat),
            final(self).base() == old(self).base(),
            final(self).offset() == old(self).offset() + 1,
    {
        let base = self.base as u128;
        let mut numerator: u128 = 0;
        let mut denominator: u128 = 1;
        let mut n: usize = self.offset;
        let ghost whole = self.offset as nat;
        let ghost b = self.base as nat;
        proof {
            lemma_radical_den_bounds(whole, b);
            assert(whole * b <= 0xffff_ffff_ffff_ffff * 0xffff_ffff_ffff_ffff) by (nonlinear_arith)
                requires
                    whole <= 0xffff_ffff_ffff_ffff,
                    b <= 0xffff_ffff_ffff_ffff,
            ;
            assert(1 * radical_den(whole, b) == radical_den(whole, b)) by (nonlinear_arith);
            assert(0 * radical_den(whole, b) == 0) by (nonlinear_arith);
        }
        while n > 0
            invariant
                b >= 2,
                b == self.base,
                base == b,
                whole == self.offset,
                numerator < denominator,
                radical_den(whole, b) == denominator * radical_den(n as nat, b),
                radical_num(whole, b) == numerator * radical_den(n as nat, b) + radical_num(
                    n as nat,
                    b,
                ),
                radical_den(whole, b) <= u128::MAX,
            decreases n,
        {
            let multiplier = (n % self.base) as u128;
            let ghost m = (n / self.base) as nat;
            proof {
                lemma_quotient_smaller(n as nat, b);
                lemma_radical_den_bounds(n as nat, b);
                lemma_radical_den_bounds(m, b);
                let dm = radical_den(m, b);
                let dn = radical_den(n as nat, b);
                assert(dn == b * dm);
                assert(denominator * dn == (denominator * b) * dm) by (nonlinear_arith)
                    requires
                        dn == b * dm,
                ;
                assert(denominator * b <= (denominator * b) * dm) by (nonlinear_arith)
                    requires
                        dm >= 1,
                ;
                assert(numerator * b + multiplier < denominator * b) by (nonlinear_arith)
                    requires
                        numerator < denominator,
                        multiplier < b,
                ;
                assert(numerator * dn + (multiplier * dm + radical_num(m, b)) == (numerator * b
                    + multiplier) * dm + radical_num(m, b)) by (nonlinear_arith)
                    requires
                        dn == b * dm,
                ;
            }
            numerator = numerator * base + multiplier;
            denominator = denominator * base;
            n = n / self.base;
        }
        proof {
            assert(denominator * 1 == denominator) by (nonlinear_arith);
            assert(numerator * 1 == numerator) by (nonlinear_arith);
        }
        self.offset += 1;
        (numerator, denominator)
    }
}

} // verus!
