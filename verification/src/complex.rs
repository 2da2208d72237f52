use crate::fixed::{
    add_bits, half_bits, mul_bits, sat_neg32, sub_bits, wrap32, Fixed,
};
use vstd::prelude::*;

verus! {

/// Complex-pair rescaling: both components follow the scalar rule.
pub open spec fn cadd_bits(a: (int, int), f1: nat, b: (int, int), f2: nat) -> (int, int) {
    (add_bits(a.0, f1, b.0, f2), add_bits(a.1, f1, b.1, f2))
}

/// Component-wise subtraction with the scalar rescaling rule.
pub open spec fn csub_bits(a: (int, int), f1: nat, b: (int, int), f2: nat) -> (int, int) {
    (sub_bits(a.0, f1, b.0, f2), sub_bits(a.1, f1, b.1, f2))
}

/// The four-multiply complex product, built from the scalar rounding
/// multiply: re = ac - bd, im = ad + bc, at the left operand's scale.
pub open spec fn cmul_bits(a: (int, int), b: (int, int), f2: nat) -> (int, int) {
    (
        wrap32(mul_bits(a.0, b.0, f2) - mul_bits(a.1, b.1, f2)),
        wrap32(mul_bits(a.0, b.1, f2) + mul_bits(a.1, b.0, f2)),
    )
}

/// Conjugation negates the imaginary store with saturation.
pub open spec fn conj_bits(a: (int, int)) -> (int, int) {
    (a.0, sat_neg32(a.1))
}

/// Both components halved by an arithmetic right shift.
pub open spec fn chalf_bits(a: (int, int)) -> (int, int) {
    (half_bits(a.0), half_bits(a.1))
}

/// A pair of same-scale fixed-point scalars forming a complex number.
#[derive(Clone, Copy, Debug, PartialEq, Eq)]
pub struct ComplexFixed<const FRAC: u32> {
    pub re: Fixed<FRAC>,
    pub im: Fixed<FRAC>,
}

impl<const FRAC: u32> ComplexFixed<FRAC> {
    /// The two raw stores as mathematical integers.
    pub open spec fn bits(self) -> (int, int) {
        (self.re.bits(), self.im.bits())
    }

    /// Builds a complex value from its two components.
    pub fn new(re: Fixed<FRAC>, im: Fixed<FRAC>) -> (r: Self)
        ensures
            r.re == re,
            r.im == im,
    {
        ComplexFixed { re, im }
    }

    /// Returns the complex conjugate; the imaginary part is negated with
    /// saturation so the representable minimum cannot overflow.
    pub fn conj(self) -> (r: Self)
        ensures
            r.bits() == conj_bits(self.bits()),
    {
        let ib = self.im.to_bits();
        let nib: i32 = if ib == i32::MIN {
            i32::MAX
        } else {
            -ib
        };
        ComplexFixed { re: self.re, im: Fixed::from_bits(nib) }
    }

    /// Scales both components by one half, as the butterfly stages do for
    /// the inverse transform's per-stage normalization.
    pub fn scale_half(self) -> (r: Self)
        ensures
            r.bits() == chalf_bits(self.bits()),
    {
        ComplexFixed { re: self.re.scale_half(), im: self.im.scale_half() }
    }

    /// Component-wise addition with the scalar rescaling rule.
    pub fn add<const F2: u32>(self, rhs: ComplexFixed<F2>) -> (r: ComplexFixed<FRAC>)
        requires
            FRAC <= 31,
            F2 <= 31,
        ensures
            r.bits() == cadd_bits(self.bits(), FRAC as nat, rhs.bits(), F2 as nat),
    {
        ComplexFixed { re: self.re.add(rhs.re), im: self.im.add(rhs.im) }
    }

    /// Component-wise subtraction with the scalar rescaling rule.
    pub fn sub<const F2: u32>(self, rhs: ComplexFixed<F2>) -> (r: ComplexFixed<FRAC>)
        requires
            FRAC <= 31,
            F2 <= 31,
        ensures
            r.bits() == csub_bits(self.bits(), FRAC as nat, rhs.bits(), F2 as nat),
    {
        ComplexFixed { re: self.re.sub(rhs.re), im: self.im.sub(rhs.im) }
    }

    /// The four-multiply complex product, inheriting the scalar multiply's
    /// round-to-nearest behaviour; the result keeps this operand's scale.
    pub fn mul<const F2: u32>(self, rhs: ComplexFixed<F2>) -> (r: ComplexFixed<FRAC>)
        requires
            FRAC <= 31,
            F2 <= 31,
        ensures
            r.bits() == cmul_bits(self.bits(), rhs.bits(), F2 as nat),
    {
        let ac = self.re.mul(rhs.re);
        let bd = self.im.mul(rhs.im);
        let ad = self.re.mul(rhs.im);
        let bc = self.im.mul(rhs.re);
        proof {
            crate::fixed::lemma_cvt_bits_identity(bd.bits(), FRAC as nat);
            crate::fixed::lemma_cvt_bits_identity(bc.bits(), FRAC as nat);
        }
        ComplexFixed { re: ac.sub(bd), im: ad.add(bc) }
    }

    /// In-place addition with the rules of `add`.
    pub fn add_assign<const F2: u32>(&mut self, rhs: ComplexFixed<F2>)
        requires
            FRAC <= 31,
            F2 <= 31,
        ensures
            final(self).bits() == cadd_bits(old(self).bits(), FRAC as nat, rhs.bits(), F2 as nat),
    {
        *self = (*self).add(rhs);
    }

    /// In-place subtraction with the rules of `sub`.
    pub fn sub_assign<const F2: u32>(&mut self, rhs: ComplexFixed<F2>)
        requires
            FRAC <= 31,
            F2 <= 31,
        ensures
            final(self).bits() == csub_bits(old(self).bits(), FRAC as nat, rhs.bits(), F2 as nat),
    {
        *self = (*self).sub(rhs);
    }
}

} // verus!
