//! Products too wide for a machine integer, compared exactly.
use vstd::prelude::*;

verus! {

/// A natural number of up to 192 bits: `hi * 2^64 + lo`.
struct Wide {
    hi: u128,
    lo: u128,
}

impl Wide {
    spec fn value(self) -> int {
        self.hi * 0x1_0000_0000_0000_0000 + self.lo
    }

    spec fn wf(self) -> bool {
        self.lo < 0x1_0000_0000_0000_0000
    }

    /// The product of two factors.
    fn product(a: u128, b: u64) -> (p: Wide)
        ensures
            p.wf(),
            p.value() == a * b,
    {
        let base: u128 = 0x1_0000_0000_0000_0000;
        let high: u128 = a / base;
        let low: u128 = a % base;
        let wide_b: u128 = b as u128;
        assert(high < base && low < base && a == high * base + low);
        assert(low * wide_b <= 0xffff_ffff_ffff_ffff * 0xffff_ffff_ffff_ffff) by (nonlinear_arith)
            requires
                low <= 0xffff_ffff_ffff_ffff,
                wide_b <= 0xffff_ffff_ffff_ffff,
        ;
        assert(high * wide_b <= 0xffff_ffff_ffff_ffff * 0xffff_ffff_ffff_ffff) by (nonlinear_arith)
            requires
                high <= 0xffff_ffff_ffff_ffff,
                wide_b <= 0xffff_ffff_ffff_ffff,
        ;
        let low_part: u128 = low * wide_b;
        let high_part: u128 = high * wide_b;
        let p = Wide { hi: high_part + low_part / base, lo: low_part % base };
        assert(a * b == high_part * base + low_part) by (nonlinear_arith)
            requires
                a == high * base + low,
                high_part == high * b,
                low_part == low * b,
        ;
        p
    }

    fn less(self, other: Wide) -> (r: bool)
        requires
            self.wf(),
            other.wf(),
        ensures
            r == (self.value() < other.value()),
    {
        self.hi < other.hi || (self.hi == other.hi && self.lo < other.lo)
    }
}

/// Whether `a * b < c * d`, whatever the size of the products.
pub fn product_less(a: u128, b: u64, c: u128, d: u64) -> (r: bool)
    ensures
        r == (a * b < c * d),
{
    Wide::product(a, b).less(Wide::product(c, d))
}

/// Whether `a * b < c * d`, where either product may be negative.
pub fn signed_product_less(a: i128, b: u64, c: i128, d: u64) -> (r: bool)
    requires
        a > i128::MIN,
        c > i128::MIN,
    ensures
        r == (a * b < c * d),
{
    if a >= 0 && c >= 0 {
        return product_less(a as u128, b, c as u128, d);
    }
    if a < 0 && c < 0 {
        let opposite_a: u128 = (-a) as u128;
        let opposite_c: u128 = (-c) as u128;
        assert((opposite_c * d < opposite_a * b) == (a * b < c * d)) by (nonlinear_arith)
            requires
                opposite_a == -a,
                opposite_c == -c,
        ;
        return product_less(opposite_c, d, opposite_a, b);
    }
    if a < 0 {
        assert((b > 0 || (c > 0 && d > 0)) == (a * b < c * d)) by (nonlinear_arith)
            requires
                a < 0,
                c >= 0,
                b >= 0,
                d >= 0,
        ;
        return b > 0 || (c > 0 && d > 0);
    }
    assert(a * b >= 0 && c * d <= 0) by (nonlinear_arith)
        requires
            a >= 0,
            c < 0,
            b >= 0,
            d >= 0,
    ;
    false
}

} // verus!
