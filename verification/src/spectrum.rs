use crate::butterfly::cbits;
use crate::complex::ComplexFixed;
use crate::fixed::{sat_neg32, sbits, Fixed};
use crate::rfft::lemma_pair_positions;
use vstd::prelude::*;

verus! {

/// The full Hermitian spectrum encoded by a packed real spectrum: index 0
/// carries DC, index 1 the Nyquist bin, and each later pair the real and
/// imaginary parts of one positive-frequency bin; negative frequencies
/// mirror the positive ones with a (saturating) conjugate.
pub open spec fn unpack_bits(p: Seq<int>) -> Seq<(int, int)> {
    let n = p.len() as int;
    Seq::new(
        p.len(),
        |k: int|
            if k == 0 {
                (p[0], 0)
            } else if k == n / 2 {
                (p[1], 0)
            } else if k < n / 2 {
                (p[2 * k], p[2 * k + 1])
            } else {
                (p[2 * (n - k)], sat_neg32(p[2 * (n - k) + 1]))
            },
    )
}

/// The packed layout read back from a full spectrum: only DC, Nyquist and
/// the positive-frequency bins are consulted.
pub open spec fn pack_bits(f: Seq<(int, int)>) -> Seq<int> {
    let n = f.len() as int;
    Seq::new(
        f.len(),
        |k: int|
            if k == 0 {
                f[0].0
            } else if k == 1 {
                f[n / 2].0
            } else if k % 2 == 0 {
                f[k / 2].0
            } else {
                f[k / 2].1
            },
    )
}

/// Expands the packed real-spectrum layout into a full complex spectrum
/// with Hermitian symmetry: bin `n - k` is the (saturating) conjugate of
/// bin `k`.
pub fn unpack_rfft_spectrum<const FRAC: u32>(
    packed: &Vec<Fixed<FRAC>>,
    output: &mut Vec<ComplexFixed<FRAC>>,
)
    requires
        old(output)@.len() == packed@.len(),
        packed@.len() % 2 == 0,
        packed@.len() >= 2,
    ensures
        final(output)@.len() == packed@.len(),
        cbits(final(output)@) == unpack_bits(sbits(packed@)),
{
    let n = packed.len();
    let ghost target = unpack_bits(sbits(packed@));
    let zero = Fixed::<FRAC>::from_bits(0);
    output.set(0, ComplexFixed::new(packed[0], zero));
    output.set(n / 2, ComplexFixed::new(packed[1], zero));
    proof {
        vstd::arithmetic::div_mod::lemma_fundamental_div_mod(n as int, 2);
    }
    let half = n / 2;
    let mut k: usize = 1;
    while k < half
        invariant
            1 <= k,
            k <= half,
            half == packed@.len() / 2,
            2 * half == packed@.len(),
            packed@.len() >= 2,
            n == packed@.len(),
            output@.len() == n,
            target == unpack_bits(sbits(packed@)),
            forall|p: int|
                0 <= p < n ==> #[trigger] cbits(output@)[p] == (if p == 0 || p == half || (1 <= p
                    < k) || (n - k < p < n) {
                    target[p]
                } else {
                    cbits(old(output)@)[p]
                }),
        decreases half - k,
    {
        let re = packed[2 * k];
        let im = packed[2 * k + 1];
        let pos = ComplexFixed::new(re, im);
        let neg = pos.conj();
        let ghost prev = cbits(output@);
        output.set(k, pos);
        output.set(n - k, neg);
        proof {
            assert forall|p: int| 0 <= p < n implies #[trigger] cbits(output@)[p] == (if p == 0
                || p == half || (1 <= p < k + 1) || (n - k - 1 < p < n) {
                target[p]
            } else {
                cbits(old(output)@)[p]
            }) by {
                assert(cbits(output@)[p] == (if p == k as int {
                    pos.bits()
                } else if p == n - k {
                    neg.bits()
                } else {
                    prev[p]
                }));
                if p == n - k {
                    assert(2 * (n - (n - k)) == 2 * k as int);
                }
            }
        }
        k = k + 1;
    }
    proof {
        assert forall|p: int| 0 <= p < n implies #[trigger] cbits(output@)[p] == target[p] by {}
        assert(cbits(output@) =~= target);
    }
}

/// Packs a full complex spectrum back into the compact layout, reading
/// only DC, Nyquist and the positive-frequency bins.
pub fn pack_rfft_spectrum<const FRAC: u32>(
    full: &Vec<ComplexFixed<FRAC>>,
    output: &mut Vec<Fixed<FRAC>>,
)
    requires
        old(output)@.len() == full@.len(),
        full@.len() % 2 == 0,
        full@.len() >= 2,
    ensures
        final(output)@.len() == full@.len(),
        sbits(final(output)@) == pack_bits(cbits(full@)),
{
    let n = full.len();
    let ghost target = pack_bits(cbits(full@));
    output.set(0, full[0].re);
    output.set(1, full[n / 2].re);
    proof {
        vstd::arithmetic::div_mod::lemma_fundamental_div_mod(n as int, 2);
    }
    let half = n / 2;
    let mut k: usize = 1;
    while k < half
        invariant
            1 <= k,
            k <= half,
            half == full@.len() / 2,
            2 * half == full@.len(),
            full@.len() >= 2,
            n == full@.len(),
            output@.len() == n,
            target == pack_bits(cbits(full@)),
            forall|p: int|
                0 <= p < n ==> #[trigger] sbits(output@)[p] == (if p == 0 || p == 1 || (2 <= p < 2
                    * k) {
                    target[p]
                } else {
                    sbits(old(output)@)[p]
                }),
        decreases half - k,
    {
        let v = full[k];
        let ghost prev = sbits(output@);
        output.set(2 * k, v.re);
        output.set(2 * k + 1, v.im);
        proof {
            lemma_pair_positions(k as int);
            assert forall|p: int| 0 <= p < n implies #[trigger] sbits(output@)[p] == (if p == 0
                || p == 1 || (2 <= p < 2 * (k + 1)) {
                target[p]
            } else {
                sbits(old(output)@)[p]
            }) by {
                assert(sbits(output@)[p] == (if p == 2 * k as int {
                    v.re.bits()
                } else if p == 2 * k + 1 {
                    v.im.bits()
                } else {
                    prev[p]
                }));
            }
        }
        k = k + 1;
    }
    proof {
        assert forall|p: int| 0 <= p < n implies #[trigger] sbits(output@)[p] == target[p] by {
            if p >= 2 && p < n {
                lemma_pair_positions(p / 2);
                vstd::arithmetic::div_mod::lemma_fundamental_div_mod(p, 2);
            }
        }
        assert(sbits(output@) =~= target);
    }
}

/// Packing the expansion of a packed spectrum restores it exactly: the
/// mirrored negative-frequency bins that `unpack_bits` synthesizes are
/// never consulted on the way back, so no store changes.
pub proof fn lemma_pack_unpack_roundtrip(p: Seq<int>)
    requires
        p.len() % 2 == 0,
        p.len() >= 2,
    ensures
        pack_bits(unpack_bits(p)) == p,
{
    let f = unpack_bits(p);
    let n = p.len() as int;
    assert forall|k: int| 0 <= k < n implies pack_bits(f)[k] == p[k] by {
        vstd::arithmetic::div_mod::lemma_fundamental_div_mod(n, 2);
        if k == 0 {
        } else if k == 1 {
        } else {
            vstd::arithmetic::div_mod::lemma_fundamental_div_mod(k, 2);
            lemma_pair_positions(k / 2);
            assert(1 <= k / 2 < n / 2);
        }
    }
    assert(pack_bits(f) =~= p);
}

} // verus!
