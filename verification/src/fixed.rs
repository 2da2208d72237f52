use vstd::arithmetic::div_mod::{
    lemma_fundamental_div_mod, lemma_fundamental_div_mod_converse_div,
    lemma_fundamental_div_mod_converse_mod, lemma_small_mod,
};
use vstd::arithmetic::power2::{
    lemma2_to64, lemma2_to64_rest, lemma_pow2_pos, lemma_pow2_strictly_increases, pow2,
};
use vstd::bits::lemma_u64_shl_is_mul;
use vstd::prelude::*;

verus! {

/// `pow2` as a mathematical integer, for use in signed arithmetic.
pub open spec fn pow2i(k: nat) -> int {
    pow2(k) as int
}

/// Two's-complement reduction of an unbounded integer into the `i32` range.
/// This is the value an `i32` store holds after a wrapping operation.
pub open spec fn wrap32(x: int) -> int {
    ((x + 0x8000_0000) % 0x1_0000_0000) - 0x8000_0000
}

/// Store bits after rescaling a store from `from` fractional bits to `to`.
/// Widening left-shifts (wrapping); narrowing right-shifts arithmetically,
/// which is floor division and deliberately truncates instead of rounding.
pub open spec fn cvt_bits(b: int, from: nat, to: nat) -> int {
    if to > from {
        wrap32(b * pow2i((to - from) as nat))
    } else {
        b / pow2i((from - to) as nat)
    }
}

/// Store bits of the sum: the right operand is rescaled to the left
/// operand's fractional width, then the stores are added with wrap-around.
pub open spec fn add_bits(b1: int, f1: nat, b2: int, f2: nat) -> int {
    wrap32(b1 + cvt_bits(b2, f2, f1))
}

/// Store bits of the difference, with the same rescaling rule as `add_bits`.
pub open spec fn sub_bits(b1: int, f1: nat, b2: int, f2: nat) -> int {
    wrap32(b1 - cvt_bits(b2, f2, f1))
}

/// Store bits of the product: the double-width product is rounded to
/// nearest by adding half of the right operand's scale before the
/// arithmetic shift, then narrowed back with wrap-around.
pub open spec fn mul_bits(b1: int, b2: int, f2: nat) -> int {
    if f2 > 0 {
        wrap32((b1 * b2 + pow2i((f2 - 1) as nat)) / pow2i(f2))
    } else {
        wrap32(b1 * b2)
    }
}

/// Store bits after halving: an arithmetic right shift by one, i.e. floor
/// division by two.
pub open spec fn half_bits(b: int) -> int {
    b / 2
}

/// Saturating negation of an `i32` store: the representable minimum maps to
/// the maximum instead of overflowing.
pub open spec fn sat_neg32(b: int) -> int {
    if b == -0x8000_0000 {
        0x7FFF_FFFF
    } else {
        -b
    }
}

/// Wrapping negation of an `i32` store: the representable minimum maps to
/// itself.
pub open spec fn wrap_neg32(b: int) -> int {
    if b == -0x8000_0000 {
        -0x8000_0000
    } else {
        -b
    }
}

pub proof fn lemma_wrap32_in_range(x: int)
    requires
        -0x8000_0000 <= x < 0x8000_0000,
    ensures
        wrap32(x) == x,
{
    lemma_small_mod((x + 0x8000_0000) as nat, 0x1_0000_0000nat);
}

/// `wrap32(x)` is the unique value congruent to `x` modulo 2^32 that lies
/// in the `i32` range.
pub proof fn lemma_wrap32_unique(x: int, r: int)
    requires
        -0x8000_0000 <= r < 0x8000_0000,
        (x - r) % 0x1_0000_0000 == 0,
    ensures
        r == wrap32(x),
{
    let m = 0x1_0000_0000int;
    let k = (x - r) / m;
    lemma_fundamental_div_mod(x - r, m);
    assert(x - r == k * m);
    assert(x + 0x8000_0000 == k * m + (r + 0x8000_0000));
    lemma_fundamental_div_mod_converse_mod(x + 0x8000_0000, m, k, r + 0x8000_0000);
}

/// The raw stores of a buffer of scalars, as integers.
pub open spec fn sbits<const FRAC: u32>(s: Seq<Fixed<FRAC>>) -> Seq<int> {
    Seq::new(s.len(), |p: int| s[p].bits())
}

/// Rescaling to the scale a store already has leaves it unchanged.
pub proof fn lemma_cvt_bits_identity(b: int, f: nat)
    requires
        -0x8000_0000 <= b < 0x8000_0000,
    ensures
        cvt_bits(b, f, f) == b,
{
    lemma2_to64();
    vstd::arithmetic::div_mod::lemma_div_basics_2(b);
}

/// Computes 2^k as a `u64`.
pub(crate) fn pow2_u64(k: u32) -> (r: u64)
    requires
        k < 64,
    ensures
        r == pow2(k as nat),
{
    proof {
        lemma2_to64();
        lemma2_to64_rest();
        if (k as nat) < 64 {
            lemma_pow2_strictly_increases(k as nat, 64);
        }
        lemma_u64_shl_is_mul(1u64, k as u64);
    }
    1u64 << k
}

/// Reduces a (bounded) `i64` into the `i32` range with two's-complement
/// wrap-around.
pub(crate) fn wrap_to_i32(x: i64) -> (r: i32)
    requires
        -0x7FFF_FFFF_FFFF_FFFF <= x,
    ensures
        r as int == wrap32(x as int),
{
    let m: u64 = 0x1_0000_0000;
    let residue: u64 = if x >= 0 {
        (x as u64) % m
    } else {
        let neg = (-x) as u64;
        let rm = neg % m;
        if rm == 0 {
            0
        } else {
            m - rm
        }
    };
    let r64: i64 = if residue >= 0x8000_0000 {
        (residue as i64) - 0x1_0000_0000
    } else {
        residue as i64
    };
    proof {
        let mi = 0x1_0000_0000int;
        assert((x - r64) % mi == 0) by {
            if x >= 0 {
                lemma_fundamental_div_mod(x as int, mi);
                let q = (x as int) / mi;
                if residue >= 0x8000_0000 {
                    assert(x - r64 == (q + 1) * mi) by {
                        assert((q + 1) * mi == q * mi + mi);
                    }
                    lemma_fundamental_div_mod_converse_mod((q + 1) * mi, mi, q + 1, 0);
                } else {
                    assert(x - r64 == q * mi);
                    lemma_fundamental_div_mod_converse_mod(q * mi, mi, q, 0);
                }
            } else {
                let n = (-x) as int;
                lemma_fundamental_div_mod(n, mi);
                let q = n / mi;
                let rm = n % mi;
                if rm == 0 {
                    assert(x - r64 == (-q) * mi) by {
                        assert((-q) * mi == -(q * mi));
                    }
                    lemma_fundamental_div_mod_converse_mod((-q) * mi, mi, -q, 0);
                } else {
                    if residue >= 0x8000_0000 {
                        assert(x - r64 == (-q) * mi) by {
                            assert((-q) * mi == -(q * mi));
                        }
                        lemma_fundamental_div_mod_converse_mod((-q) * mi, mi, -q, 0);
                    } else {
                        assert(x - r64 == (-q - 1) * mi) by {
                            assert((-q - 1) * mi == -(q * mi) - mi);
                        }
                        lemma_fundamental_div_mod_converse_mod((-q - 1) * mi, mi, -q - 1, 0);
                    }
                }
            }
        }
        lemma_wrap32_unique(x as int, r64 as int);
    }
    r64 as i32
}

/// Floor division of a bounded `i64` by 2^k: the arithmetic right shift.
pub(crate) fn floor_div_p2(x: i64, k: u32) -> (r: i64)
    requires
        k < 63,
        -0x7FFF_FFFF_FFFF_FFFF <= x,
    ensures
        r as int == (x as int) / pow2i(k as nat),
        x >= 0 ==> 0 <= r <= x,
        x < 0 ==> x <= r <= 0,
{
    let d: u64 = pow2_u64(k);
    proof {
        lemma_pow2_pos(k as nat);
        lemma2_to64_rest();
        lemma_pow2_strictly_increases(k as nat, 63);
    }
    if x >= 0 {
        let q = (x as u64) / d;
        proof {
            let xi = x as int;
            let di = d as int;
            let qi = q as int;
            lemma_fundamental_div_mod(xi, di);
            assert(0 <= qi <= xi) by (nonlinear_arith)
                requires
                    di >= 1,
                    xi >= 0,
                    qi == xi / di,
            ;
        }
        q as i64
    } else {
        let n = (-x) as u64;
        let q = n / d;
        let rm = n % d;
        proof {
            let xi = x as int;
            let di = d as int;
            let ni = n as int;
            let qi = q as int;
            assert(ni == qi * di + (ni % di)) by {
                lemma_fundamental_div_mod(ni, di);
            }
            assert(0 <= qi <= ni) by (nonlinear_arith)
                requires
                    di >= 1,
                    ni >= 0,
                    ni == qi * di + (ni % di),
                    0 <= ni % di < di,
            ;
            if rm == 0 {
                assert((-qi) * di == -(qi * di)) by (nonlinear_arith);
                assert(xi == (-qi) * di + 0);
                lemma_fundamental_div_mod_converse_div(xi, di, -qi, 0);
            } else {
                assert((-qi - 1) * di == -(qi * di) - di) by (nonlinear_arith);
                assert(xi == (-qi - 1) * di + (di - rm));
                lemma_fundamental_div_mod_converse_div(xi, di, -qi - 1, di - rm);
                assert(qi + 1 <= ni) by (nonlinear_arith)
                    requires
                        di >= 1,
                        ni == qi * di + (ni % di),
                        ni % di >= 1,
                        qi >= 0,
                ;
            }
        }
        if rm == 0 {
            -(q as i64)
        } else {
            -(q as i64) - 1
        }
    }
}

/// A signed fixed-point scalar: the stored `i32` represents
/// `store / 2^FRAC`. Binary operations rescale the right operand to the
/// left operand's width; the result always carries the left operand's
/// scale.
#[derive(Clone, Copy, Debug, PartialEq, Eq)]
pub struct Fixed<const FRAC: u32>(i32);

impl<const FRAC: u32> Fixed<FRAC> {
    /// The raw store as a mathematical integer.
    pub closed spec fn bits(self) -> int {
        self.0 as int
    }

    /// Reinterprets a raw store directly, without scaling.
    pub fn from_bits(bits: i32) -> (r: Self)
        ensures
            r.bits() == bits,
    {
        Fixed(bits)
    }

    /// Wraps a raw store; the fractional width must fit an `i32`.
    pub fn new(bits: i32) -> (r: Self)
        requires
            FRAC <= 31,
        ensures
            r.bits() == bits,
    {
        Fixed(bits)
    }

    /// Builds the value `value`, shifting the store left by `FRAC` bits
    /// (with wrap-around for magnitudes that do not fit).
    pub fn from_int(value: i32) -> (r: Self)
        requires
            FRAC <= 31,
        ensures
            r.bits() == wrap32(value * pow2i(FRAC as nat)),
    {
        let p = pow2_u64(FRAC);
        proof {
            lemma2_to64();
            lemma2_to64_rest();
            if FRAC < 31 {
                lemma_pow2_strictly_increases(FRAC as nat, 31);
            }
            assert(-0x4000_0000_0000_0000 <= (value as int) * (p as int)
                <= 0x4000_0000_0000_0000) by (nonlinear_arith)
                requires
                    -0x8000_0000 <= value as int <= 0x7FFF_FFFF,
                    0 < p as int <= 0x8000_0000,
            ;
        }
        Fixed(wrap_to_i32((value as i64) * (p as i64)))
    }

    /// Returns the stored raw value.
    pub fn to_bits(self) -> (r: i32)
        ensures
            r == self.bits(),
    {
        self.0
    }

    /// Scales the value by one half: an arithmetic right shift by one.
    pub fn scale_half(self) -> (r: Self)
        ensures
            r.bits() == half_bits(self.bits()),
    {
        let h = floor_div_p2(self.0 as i64, 1);
        proof {
            lemma2_to64();
        }
        Fixed(h as i32)
    }

    /// Rescales to `TO_FRAC` fractional bits: widening shifts left exactly,
    /// narrowing shifts right arithmetically and truncates.
    pub fn convert<const TO_FRAC: u32>(self) -> (r: Fixed<TO_FRAC>)
        requires
            FRAC <= 31,
            TO_FRAC <= 31,
        ensures
            r.bits() == cvt_bits(self.bits(), FRAC as nat, TO_FRAC as nat),
    {
        if TO_FRAC > FRAC {
            let p = pow2_u64(TO_FRAC - FRAC);
            proof {
                lemma2_to64();
                lemma2_to64_rest();
                if TO_FRAC - FRAC < 31 {
                    lemma_pow2_strictly_increases((TO_FRAC - FRAC) as nat, 31);
                }
                assert(-0x4000_0000_0000_0000 <= (self.0 as int) * (p as int)
                    <= 0x4000_0000_0000_0000) by (nonlinear_arith)
                    requires
                        -0x8000_0000 <= self.0 as int <= 0x7FFF_FFFF,
                        0 < p as int <= 0x8000_0000,
                ;
            }
            Fixed(wrap_to_i32((self.0 as i64) * (p as i64)))
        } else {
            let q = floor_div_p2(self.0 as i64, FRAC - TO_FRAC);
            Fixed(q as i32)
        }
    }

    /// Adds, rescaling the right operand to this operand's width first.
    /// The store addition wraps around on overflow.
    pub fn add<const F2: u32>(self, rhs: Fixed<F2>) -> (r: Fixed<FRAC>)
        requires
            FRAC <= 31,
            F2 <= 31,
        ensures
            r.bits() == add_bits(self.bits(), FRAC as nat, rhs.bits(), F2 as nat),
    {
        let c = rhs.convert::<FRAC>();
        Fixed(wrap_to_i32((self.0 as i64) + (c.0 as i64)))
    }

    /// Subtracts, with the same rescaling and wrap-around rule as `add`.
    pub fn sub<const F2: u32>(self, rhs: Fixed<F2>) -> (r: Fixed<FRAC>)
        requires
            FRAC <= 31,
            F2 <= 31,
        ensures
            r.bits() == sub_bits(self.bits(), FRAC as nat, rhs.bits(), F2 as nat),
    {
        let c = rhs.convert::<FRAC>();
        Fixed(wrap_to_i32((self.0 as i64) - (c.0 as i64)))
    }

    /// Multiplies: the double-width product gains half of the right
    /// operand's scale before the arithmetic shift, so the narrowing rounds
    /// to nearest. The result keeps this operand's scale.
    pub fn mul<const F2: u32>(self, rhs: Fixed<F2>) -> (r: Fixed<FRAC>)
        requires
            FRAC <= 31,
            F2 <= 31,
        ensures
            r.bits() == mul_bits(self.bits(), rhs.bits(), F2 as nat),
    {
        let a = self.0 as i64;
        let b = rhs.0 as i64;
        proof {
            assert(-0x4000_0000_0000_0000 <= (a as int) * (b as int)
                <= 0x4000_0000_0000_0000) by (nonlinear_arith)
                requires
                    -0x8000_0000 <= a as int <= 0x7FFF_FFFF,
                    -0x8000_0000 <= b as int <= 0x7FFF_FFFF,
            ;
        }
        let product = a * b;
        if F2 > 0 {
            proof {
                lemma2_to64();
                lemma2_to64_rest();
                lemma_pow2_strictly_increases((F2 - 1) as nat, 31);
            }
            let offset = pow2_u64(F2 - 1) as i64;
            let q = floor_div_p2(product + offset, F2);
            Fixed(wrap_to_i32(q))
        } else {
            Fixed(wrap_to_i32(product))
        }
    }

    /// In-place addition with the rules of `add`.
    pub fn add_assign<const F2: u32>(&mut self, rhs: Fixed<F2>)
        requires
            FRAC <= 31,
            F2 <= 31,
        ensures
            final(self).bits() == add_bits(old(self).bits(), FRAC as nat, rhs.bits(), F2 as nat),
    {
        *self = (*self).add(rhs);
    }

    /// In-place subtraction with the rules of `sub`.
    pub fn sub_assign<const F2: u32>(&mut self, rhs: Fixed<F2>)
        requires
            FRAC <= 31,
            F2 <= 31,
        ensures
            final(self).bits() == sub_bits(old(self).bits(), FRAC as nat, rhs.bits(), F2 as nat),
    {
        *self = (*self).sub(rhs);
    }

    /// In-place multiplication with the rules of `mul`.
    pub fn mul_assign<const F2: u32>(&mut self, rhs: Fixed<F2>)
        requires
            FRAC <= 31,
            F2 <= 31,
        ensures
            final(self).bits() == mul_bits(old(self).bits(), rhs.bits(), F2 as nat),
    {
        *self = (*self).mul(rhs);
    }
}

} // verus!
