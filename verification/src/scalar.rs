//! Single-precision numbers as bit patterns, and the arithmetic on them.

use const_soft_float::soft_f32::SoftF32;
use vstd::arithmetic::div_mod::lemma_fundamental_div_mod;
use vstd::arithmetic::power2::{
    lemma2_to64, lemma_pow2_adds, lemma_pow2_pos, lemma_pow2_strictly_increases,
    lemma_pow2_subtracts, lemma_pow2_unfold, pow2,
};
use vstd::prelude::*;

verus! {

/// The bits of the single-precision sum of the numbers with bits `a` and
/// `b`, as `SoftF32::add` of const_soft_float computes it.
pub uninterp spec fn sum_bits(a: u32, b: u32) -> u32;

/// The bits of the single-precision difference of the numbers with bits `a`
/// and `b`, as `SoftF32::sub` of const_soft_float computes it.
pub uninterp spec fn difference_bits(a: u32, b: u32) -> u32;

/// The bits of the single-precision product of the numbers with bits `a` and
/// `b`, as `SoftF32::mul` of const_soft_float computes it.
pub uninterp spec fn product_bits(a: u32, b: u32) -> u32;

/// The bits of the single-precision quotient of the number with bits `a` by
/// the number with bits `b`, as `SoftF32::div` of const_soft_float computes
/// it.
pub uninterp spec fn quotient_bits(a: u32, b: u32) -> u32;

/// The bits of the single-precision square root of the number with bits
/// `a`, as `SoftF32::sqrt` of const_soft_float computes it.
pub uninterp spec fn root_bits(a: u32) -> u32;

/// Spacing of the initial grid: 100000.
pub const DIST: u32 = 0x47c3_5000;

/// Height of the plane on which the bodies start: 5000.
pub const Z0: u32 = 0x459c_4000;

/// Gravitational constant: 6.674e-11, rounded to single precision.
pub const G: u32 = 0x2e92_c348;

/// Mass of every body after loading: 5.97e20, rounded to single precision.
pub const MASS: u32 = 0x6201_7428;

/// Softening term added to every squared distance: 1e-20, rounded to single
/// precision.
pub const SOFT: u32 = 0x1e3c_e508;

/// Duration of one step: 1.
pub const DT: u32 = 0x3f80_0000;

/// One half.
pub const HALF: u32 = 0x3f00_0000;

/// One.
pub const ONE: u32 = 0x3f80_0000;

/// The position of the leading binary digit of `k`: the greatest `e` with
/// `2^e <= k`, and 0 for 0.
pub open spec fn floor_log2(k: nat) -> nat
    decreases k,
{
    if k < 2 {
        0
    } else {
        floor_log2(k / 2) + 1
    }
}

/// The bits of the single-precision number nearest to the whole number `k`,
/// the one with the even significand where two are equally near.
///
/// With `e` the position of the leading digit, the exponent field holds
/// `127 + e` and the fraction field the 23 digits after the leading one.
/// Where `k` has more digits than that, it is measured in units of
/// `2^(e - 23)` and rounded to a whole number of units; a carry out of the
/// fraction field lands in the exponent field, as it should.
pub open spec fn index_bits(k: nat) -> int {
    if k == 0 {
        0
    } else {
        let e = floor_log2(k);
        if e <= 23 {
            (127 + e) * pow2(23) + (k - pow2(e)) * pow2((23 - e) as nat)
        } else {
            let unit = pow2((e - 23) as nat);
            let q = k / unit;
            let r = k % unit;
            let up: nat = if 2 * r > unit || (2 * r == unit && q % 2 == 1) {
                1
            } else {
                0
            };
            (127 + e) * pow2(23) + (q - pow2(23)) + up
        }
    }
}

/// The significand of `index_bits(k)` with its leading digit, in units of
/// `2^(e - 23)` where `e` is the position of the leading digit of `k`: the
/// bits stand for this many units.
pub open spec fn index_significand(k: nat) -> int {
    index_bits(k) - (126 + floor_log2(k)) * pow2(23)
}

/// A positive `k` lies between the power of two at its leading digit and
/// the next power of two.
pub proof fn lemma_floor_log2(k: nat)
    requires
        k >= 1,
    ensures
        pow2(floor_log2(k)) <= k < pow2(floor_log2(k) + 1),
    decreases k,
{
    lemma2_to64();
    if k >= 2 {
        lemma_floor_log2(k / 2);
        let e = floor_log2(k / 2);
        lemma_pow2_unfold(e + 1);
        lemma_pow2_unfold(e + 2);
    }
}

/// `index_bits(k)` stands for `k` itself where `k` has at most 24 binary
/// digits, and otherwise for the whole number of units nearest to `k`, the
/// even one of two that are equally near.
pub proof fn lemma_index_bits_nearest(k: nat)
    requires
        k >= 1,
    ensures
        pow2(23) <= index_significand(k) <= pow2(24),
        floor_log2(k) <= 23 ==> index_significand(k) * pow2(floor_log2(k)) == k * pow2(23),
        floor_log2(k) > 23 ==> {
            let unit = pow2((floor_log2(k) - 23) as nat);
            let distance = k - index_significand(k) * unit;
            &&& -unit <= 2 * distance <= unit
            &&& (2 * distance == unit || 2 * distance == -unit) ==> index_significand(k) % 2 == 0
        },
{
    let e = floor_log2(k);
    let m = index_significand(k);
    lemma_floor_log2(k);
    lemma_pow2_unfold(e + 1);
    lemma_pow2_unfold(24);
    assert((127 + e) * pow2(23) - (126 + e) * pow2(23) == pow2(23)) by (nonlinear_arith);
    if e <= 23 {
        let scale = pow2((23 - e) as nat);
        lemma_pow2_adds(e, (23 - e) as nat);
        lemma_pow2_pos((23 - e) as nat);
        assert(m == k * scale) by (nonlinear_arith)
            requires
                m == pow2(23) + (k - pow2(e)) * scale,
                pow2(23) == pow2(e) * scale,
        ;
        assert(m * pow2(e) == k * pow2(23)) by (nonlinear_arith)
            requires
                m == k * scale,
                pow2(23) == pow2(e) * scale,
        ;
        assert(pow2(23) <= m <= pow2(24)) by (nonlinear_arith)
            requires
                m == k * scale,
                pow2(23) == pow2(e) * scale,
                pow2(e) <= k < 2 * pow2(e),
                pow2(24) == 2 * pow2(23),
                scale > 0,
        ;
    } else {
        let unit = pow2((e - 23) as nat);
        let q = k / unit;
        let r = k % unit;
        lemma_pow2_adds(23, (e - 23) as nat);
        lemma_pow2_pos((e - 23) as nat);
        lemma_fundamental_div_mod(k as int, unit as int);
        assert(pow2(23) <= q < pow2(24)) by (nonlinear_arith)
            requires
                k == unit * q + r,
                0 <= r < unit,
                pow2(23) * unit <= k < 2 * (pow2(23) * unit),
                pow2(24) == 2 * pow2(23),
        ;
        let up: int = if 2 * r > unit || (2 * r == unit && q % 2 == 1) {
            1
        } else {
            0
        };
        assert(m == q + up);
        assert(k - m * unit == r - up * unit) by (nonlinear_arith)
            requires
                k == unit * q + r,
                m == q + up,
        ;
    }
}

/// A single-precision number, known by its 32 bits.
#[derive(Clone, Copy, Debug, PartialEq, Eq, Structural)]
pub struct Scalar {
    pub bits: u32,
}

impl Scalar {
    /// The number with the given bits.
    pub fn from_bits(bits: u32) -> (r: Scalar)
        ensures
            r.bits == bits,
    {
        Scalar { bits }
    }

    /// The bits of this number.
    pub fn to_bits(self) -> (r: u32)
        ensures
            r == self.bits,
    {
        self.bits
    }

    /// Positive zero: all bits clear.
    pub fn zero() -> (r: Scalar)
        ensures
            r.bits == 0,
    {
        Scalar { bits: 0 }
    }

    /// The sum of this number and `rhs`.
    pub open spec fn sum(self, rhs: Scalar) -> Scalar {
        Scalar { bits: sum_bits(self.bits, rhs.bits) }
    }

    /// The difference of this number and `rhs`.
    pub open spec fn difference(self, rhs: Scalar) -> Scalar {
        Scalar { bits: difference_bits(self.bits, rhs.bits) }
    }

    /// The product of this number and `rhs`.
    pub open spec fn product(self, rhs: Scalar) -> Scalar {
        Scalar { bits: product_bits(self.bits, rhs.bits) }
    }

    /// The quotient of this number by `rhs`.
    pub open spec fn quotient(self, rhs: Scalar) -> Scalar {
        Scalar { bits: quotient_bits(self.bits, rhs.bits) }
    }

    /// The square root of this number.
    pub open spec fn root(self) -> Scalar {
        Scalar { bits: root_bits(self.bits) }
    }

    /// Calls `SoftF32::add` of const_soft_float. Not proved: that the bits
    /// it returns depend on the bits of the two numbers alone. They are
    /// named `sum_bits`; nothing more is claimed of them.
    #[verifier::external_body]
    pub(crate) fn plus(self, rhs: Scalar) -> (r: Scalar)
        ensures
            r.bits == sum_bits(self.bits, rhs.bits),
    {
        Scalar { bits: SoftF32::from_bits(self.bits).add(SoftF32::from_bits(rhs.bits)).to_bits() }
    }

    /// Calls `SoftF32::sub` of const_soft_float. Not proved: that the bits
    /// it returns depend on the bits of the two numbers alone. They are
    /// named `difference_bits`; nothing more is claimed of them.
    #[verifier::external_body]
    pub(crate) fn minus(self, rhs: Scalar) -> (r: Scalar)
        ensures
            r.bits == difference_bits(self.bits, rhs.bits),
    {
        Scalar { bits: SoftF32::from_bits(self.bits).sub(SoftF32::from_bits(rhs.bits)).to_bits() }
    }

    /// Calls `SoftF32::mul` of const_soft_float. Not proved: that the bits
    /// it returns depend on the bits of the two numbers alone. They are
    /// named `product_bits`; nothing more is claimed of them.
    #[verifier::external_body]
    pub(crate) fn times(self, rhs: Scalar) -> (r: Scalar)
        ensures
            r.bits == product_bits(self.bits, rhs.bits),
    {
        Scalar { bits: SoftF32::from_bits(self.bits).mul(SoftF32::from_bits(rhs.bits)).to_bits() }
    }

    /// Calls `SoftF32::div` of const_soft_float. Not proved: that the bits
    /// it returns depend on the bits of the two numbers alone. They are
    /// named `quotient_bits`; nothing more is claimed of them.
    #[verifier::external_body]
    pub(crate) fn over(self, rhs: Scalar) -> (r: Scalar)
        ensures
            r.bits == quotient_bits(self.bits, rhs.bits),
    {
        Scalar { bits: SoftF32::from_bits(self.bits).div(SoftF32::from_bits(rhs.bits)).to_bits() }
    }

    /// Calls `SoftF32::sqrt` of const_soft_float. Not proved: that the bits
    /// it returns depend on the bits of the number alone. They are named
    /// `root_bits`; nothing more is claimed of them.
    #[verifier::external_body]
    pub(crate) fn sqrt(self) -> (r: Scalar)
        ensures
            r.bits == root_bits(self.bits),
    {
        Scalar { bits: SoftF32::from_bits(self.bits).sqrt().to_bits() }
    }

    /// The single-precision number nearest to the whole number `k`.
    pub fn from_index(k: usize) -> (r: Scalar)
        ensures
            r.bits == index_bits(k as nat),
    {
        if k == 0 {
            return Scalar { bits: 0 };
        }
        let mut rest: u64 = k as u64;
        let mut e: u64 = 0;
        let mut lead: u64 = 1;
        proof {
            lemma2_to64();
        }
        while rest >= 2
            invariant
                rest >= 1,
                e <= 63,
                floor_log2(k as nat) == e + floor_log2(rest as nat),
                lead == pow2(e as nat),
                lead * rest <= k,
                k < lead * (rest + 1),
            decreases rest,
        {
            proof {
                let half = rest / 2;
                assert(2 * lead * half <= lead * rest) by (nonlinear_arith)
                    requires
                        2 * half <= rest,
                        lead >= 0,
                ;
                assert(lead * (rest + 1) <= 2 * lead * (half + 1)) by (nonlinear_arith)
                    requires
                        rest + 1 <= 2 * (half + 1),
                        lead >= 0,
                ;
                assert(2 * lead <= 2 * lead * half) by (nonlinear_arith)
                    requires
                        half >= 1,
                        lead >= 0,
                ;
                lemma_pow2_unfold((e + 1) as nat);
                lemma2_to64();
                if e + 1 >= 64 {
                    if e + 1 > 64 {
                        lemma_pow2_strictly_increases(64, (e + 1) as nat);
                    }
                    assert(false);
                }
            }
            rest = rest / 2;
            e = e + 1;
            lead = lead * 2;
        }
        assert(lead <= k < 2 * lead) by (nonlinear_arith)
            requires
                rest == 1,
                lead * rest <= k,
                k < lead * (rest + 1),
        ;
        proof {
            lemma2_to64();
        }
        let field: u64 = (127 + e) * 8388608;
        if e <= 23 {
            let scale: u64 = 8388608 / lead;
            proof {
                lemma_pow2_subtracts(e as nat, 23);
                lemma_pow2_adds(e as nat, (23 - e) as nat);
                assert((k - lead) * scale < lead * scale) by (nonlinear_arith)
                    requires
                        k - lead < lead,
                        scale > 0,
                ;
            }
            let fraction: u64 = (k as u64 - lead) * scale;
            Scalar { bits: (field + fraction) as u32 }
        } else {
            let unit: u64 = lead / 8388608;
            proof {
                lemma_pow2_subtracts(23, e as nat);
                lemma_pow2_adds(23, (e - 23) as nat);
                lemma_pow2_pos((e - 23) as nat);
            }
            let q: u64 = k as u64 / unit;
            let r: u64 = k as u64 % unit;
            proof {
                assert(8388608 <= q < 16777216) by (nonlinear_arith)
                    requires
                        q == k as u64 / unit,
                        unit > 0,
                        8388608 * unit <= k as u64,
                        (k as u64) < 16777216 * unit,
                ;
            }
            let up: u64 = if 2 * r > unit || (2 * r == unit && q % 2 == 1) {
                1
            } else {
                0
            };
            Scalar { bits: (field + (q - 8388608) + up) as u32 }
        }
    }
}

} // verus!
