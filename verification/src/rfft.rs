use crate::butterfly::{cbits, fft_bits, radix_2_dit_fft_core};
use crate::common::FftError;
use crate::complex::{
    cadd_bits, chalf_bits, cmul_bits, conj_bits, csub_bits, ComplexFixed,
};
use crate::fixed::{add_bits, half_bits, sbits, sub_bits, wrap_neg32, Fixed};
use crate::tables::{check_pow2, is_pow2_size, lg, precompute_bitrev, rev_bits};
use vstd::arithmetic::div_mod::{
    lemma_fundamental_div_mod_converse_div, lemma_fundamental_div_mod_converse_mod,
};
use vstd::prelude::*;

verus! {

/// Division facts for even and odd positions of an interleaved buffer.
pub proof fn lemma_pair_positions(k: int)
    ensures
        (2 * k) / 2 == k,
        (2 * k) % 2 == 0,
        (2 * k + 1) / 2 == k,
        (2 * k + 1) % 2 == 1,
{
    lemma_fundamental_div_mod_converse_div(2 * k, 2, k, 0);
    lemma_fundamental_div_mod_converse_mod(2 * k, 2, k, 0);
    lemma_fundamental_div_mod_converse_div(2 * k + 1, 2, k, 1);
    lemma_fundamental_div_mod_converse_mod(2 * k + 1, 2, k, 1);
}

/// N real stores read as N/2 complex stores: even positions become real
/// parts, odd positions imaginary parts.
pub open spec fn interleave_bits(s: Seq<int>) -> Seq<(int, int)> {
    Seq::new(s.len() / 2, |k: int| (s[2 * k], s[2 * k + 1]))
}

/// The inverse reading: complex stores written back as adjacent pairs.
pub open spec fn deinterleave_bits(c: Seq<(int, int)>) -> Seq<int> {
    Seq::new(
        c.len() * 2,
        |p: int|
            if p % 2 == 0 {
                c[p / 2].0
            } else {
                c[p / 2].1
            },
    )
}

/// Multiplication by the imaginary unit on stores: `(re, im)` becomes
/// `(-im, re)`, the negation wrapping.
pub open spec fn rotate90_bits(t: (int, int)) -> (int, int) {
    (wrap_neg32(t.1), t.0)
}

/// The unweave step for one conjugate-mirrored pair `(va, vb)` at indices
/// `(i, h - i)` with twiddle `w`: split into even and odd halves, rotate
/// the twiddled odd half, and recombine.
pub open spec fn unweave_pair(va: (int, int), vb: (int, int), w: (int, int), frac: nat) -> (
    (int, int),
    (int, int),
) {
    let vbc = conj_bits(vb);
    let even = chalf_bits(cadd_bits(va, frac, vbc, frac));
    let odd = chalf_bits(csub_bits(va, frac, vbc, frac));
    let t = rotate90_bits(cmul_bits(odd, w, 31));
    (csub_bits(even, frac, t, frac), conj_bits(cadd_bits(even, frac, t, frac)))
}

/// The reweave step inverts `unweave_pair`: the twiddle is conjugated and
/// the rotated term is added rather than subtracted.
pub open spec fn reweave_pair(va: (int, int), vb: (int, int), w: (int, int), frac: nat) -> (
    (int, int),
    (int, int),
) {
    let vbc = conj_bits(vb);
    let even = chalf_bits(cadd_bits(va, frac, vbc, frac));
    let odd = chalf_bits(csub_bits(va, frac, vbc, frac));
    let t = rotate90_bits(cmul_bits(odd, conj_bits(w), 31));
    (cadd_bits(even, frac, t, frac), conj_bits(csub_bits(even, frac, t, frac)))
}

/// One element of the unweave pass over the half-length spectrum `c`:
/// index 0 superimposes DC and Nyquist, the self-symmetric quarter point
/// is conjugated, and mirrored pairs recombine through `unweave_pair`.
pub open spec fn unweave_elem(c: Seq<(int, int)>, tw: Seq<(int, int)>, frac: nat, p: int) -> (
    int,
    int,
) {
    let h = c.len() as int;
    let q = h / 2;
    let first = if p == 0 {
        (add_bits(c[0].0, frac, c[0].1, frac), sub_bits(c[0].0, frac, c[0].1, frac))
    } else {
        c[p]
    };
    if p == q {
        conj_bits(first)
    } else if p == 0 {
        first
    } else if p < q {
        unweave_pair(c[p], c[h - p], tw[p], frac).0
    } else {
        unweave_pair(c[h - p], c[p], tw[h - p], frac).1
    }
}

/// One element of the reweave pass, undoing `unweave_elem` before the
/// inverse transform runs.
pub open spec fn reweave_elem(c: Seq<(int, int)>, tw: Seq<(int, int)>, frac: nat, p: int) -> (
    int,
    int,
) {
    let h = c.len() as int;
    let q = h / 2;
    let first = if p == 0 {
        (
            half_bits(add_bits(c[0].0, frac, c[0].1, frac)),
            half_bits(sub_bits(c[0].0, frac, c[0].1, frac)),
        )
    } else {
        c[p]
    };
    if p == q {
        conj_bits(first)
    } else if p == 0 {
        first
    } else if p < q {
        reweave_pair(c[p], c[h - p], tw[p], frac).0
    } else {
        reweave_pair(c[h - p], c[p], tw[h - p], frac).1
    }
}

pub open spec fn unweave_seq(c: Seq<(int, int)>, tw: Seq<(int, int)>, frac: nat) -> Seq<
    (int, int),
> {
    Seq::new(c.len(), |p: int| unweave_elem(c, tw, frac, p))
}

pub open spec fn reweave_seq(c: Seq<(int, int)>, tw: Seq<(int, int)>, frac: nat) -> Seq<
    (int, int),
> {
    Seq::new(c.len(), |p: int| reweave_elem(c, tw, frac, p))
}

/// The forward real transform on raw stores: interleave, run the
/// half-length complex transform at twiddle stride 2, then unweave into
/// the packed real spectrum.
pub open spec fn rfft_bits(input: Seq<int>, tw: Seq<(int, int)>, frac: nat) -> Seq<int> {
    deinterleave_bits(unweave_seq(fft_bits(interleave_bits(input), tw, 2, false, frac), tw, frac))
}

/// The inverse real transform on raw stores: interleave, reweave the
/// packed spectrum, then run the half-length inverse transform.
pub open spec fn irfft_bits(input: Seq<int>, tw: Seq<(int, int)>, frac: nat) -> Seq<int> {
    deinterleave_bits(fft_bits(reweave_seq(interleave_bits(input), tw, frac), tw, 2, true, frac))
}

/// A real-input FFT bound to a validated power-of-two number of real
/// samples. The twiddle table must cover the full `n`-point circle (the
/// post-processing needs the finer angular resolution); the bit-reversal
/// table serves the internal `n/2`-point transform.
#[derive(Debug)]
pub struct RealFft {
    twiddles: Vec<ComplexFixed<31>>,
    bitrev: Vec<usize>,
    n: usize,
}

impl RealFft {
    /// The handle's internal consistency.
    pub closed spec fn wf(self) -> bool {
        &&& is_pow2_size(self.n as nat)
        &&& self.twiddles@.len() >= self.n as nat / 2
        &&& self.twiddles@.len() <= usize::MAX
        &&& self.bitrev@.len() >= self.n as nat / 2
        &&& forall|p: int|
            0 <= p < self.n as nat / 2 ==> #[trigger] self.bitrev@[p] == rev_bits(
                p as nat,
                lg(self.n as nat / 2),
            )
    }

    /// The configured number of real samples.
    pub closed spec fn size(self) -> nat {
        self.n as nat
    }

    /// The raw stores of the twiddle table.
    pub closed spec fn twiddle_bits(self) -> Seq<(int, int)> {
        cbits(self.twiddles@)
    }

    /// Validates the sample count and table capacities and fills the
    /// bit-reversal table for the internal half-length transform. Fails
    /// with `NotPowerOfTwo` if `n` is not a power of two, and otherwise
    /// with `BufferTooSmall` if a table holds fewer than `n / 2` entries.
    pub fn new(twiddles: Vec<ComplexFixed<31>>, bitrev: Vec<usize>, n: usize) -> (r: Result<
        RealFft,
        FftError,
    >)
        ensures
            match r {
                Ok(f) => {
                    &&& is_pow2_size(n as nat)
                    &&& twiddles@.len() >= n as nat / 2
                    &&& bitrev@.len() >= n as nat / 2
                    &&& f.wf()
                    &&& f.size() == n as nat
                    &&& f.twiddle_bits() == cbits(twiddles@)
                },
                Err(e) => {
                    &&& !(is_pow2_size(n as nat) && twiddles@.len() >= n as nat / 2 && bitrev@.len()
                        >= n as nat / 2)
                    &&& e == (if !is_pow2_size(n as nat) {
                        FftError::NotPowerOfTwo
                    } else {
                        FftError::BufferTooSmall
                    })
                },
            },
    {
        if !check_pow2(n) {
            return Err(FftError::NotPowerOfTwo);
        }
        if twiddles.len() < n / 2 {
            return Err(FftError::BufferTooSmall);
        }
        if bitrev.len() < n / 2 {
            return Err(FftError::BufferTooSmall);
        }
        let mut bitrev = bitrev;
        if n >= 2 {
            precompute_bitrev(&mut bitrev, n / 2);
        }
        Ok(RealFft { twiddles, bitrev, n })
    }

    /// Transforms the `n` real samples in place: forward produces the
    /// packed real spectrum, inverse consumes it. Fails with
    /// `SizeMismatch`, leaving the buffer untouched, exactly when the
    /// buffer's length is not the configured sample count. A one-sample
    /// transform is the identity.
    pub fn process<const FRAC: u32>(
        &self,
        buffer: &mut Vec<Fixed<FRAC>>,
        inverse: bool,
    ) -> (r: Result<(), FftError>)
        requires
            FRAC <= 31,
            self.wf(),
        ensures
            match r {
                Ok(()) => {
                    &&& old(buffer)@.len() == self.size()
                    &&& final(buffer)@.len() == old(buffer)@.len()
                    &&& self.size() >= 2 ==> sbits(final(buffer)@) == (if inverse {
                        irfft_bits(sbits(old(buffer)@), self.twiddle_bits(), FRAC as nat)
                    } else {
                        rfft_bits(sbits(old(buffer)@), self.twiddle_bits(), FRAC as nat)
                    })
                    &&& self.size() < 2 ==> final(buffer)@ == old(buffer)@
                },
                Err(e) => {
                    &&& old(buffer)@.len() != self.size()
                    &&& e == FftError::SizeMismatch
                    &&& final(buffer)@ == old(buffer)@
                },
            },
    {
        if inverse {
            self.irfft(buffer)
        } else {
            self.rfft(buffer)
        }
    }

    /// Packs adjacent sample pairs into a half-length complex buffer.
    fn interleave<const FRAC: u32>(&self, buffer: &Vec<Fixed<FRAC>>) -> (c: Vec<
        ComplexFixed<FRAC>,
    >)
        requires
            buffer@.len() == self.size(),
            self.size() >= 2,
            self.wf(),
        ensures
            c@.len() == self.size() / 2,
            cbits(c@) == interleave_bits(sbits(buffer@)),
    {
        let h = self.n / 2;
        proof {
            vstd::arithmetic::div_mod::lemma_fundamental_div_mod(self.n as int, 2);
        }
        let mut c: Vec<ComplexFixed<FRAC>> = Vec::new();
        let mut k: usize = 0;
        while k < h
            invariant
                k <= h,
                h == self.size() / 2,
                2 * h <= buffer@.len(),
                c@.len() == k,
                forall|q: int|
                    0 <= q < k ==> #[trigger] cbits(c@)[q] == (
                    sbits(buffer@)[2 * q],
                    sbits(buffer@)[2 * q + 1],
                ),
            decreases h - k,
        {
            let ghost cprev = c@;
            c.push(ComplexFixed::new(buffer[2 * k], buffer[2 * k + 1]));
            proof {
                assert forall|q: int| 0 <= q < k + 1 implies #[trigger] cbits(c@)[q] == (
                sbits(buffer@)[2 * q],
                sbits(buffer@)[2 * q + 1],
                ) by {
                    if q < k {
                        assert(c@[q] == cprev[q]);
                        assert(cbits(cprev)[q] == (
                            sbits(buffer@)[2 * q],
                            sbits(buffer@)[2 * q + 1],
                        ));
                    }
                }
            }
            k = k + 1;
        }
        proof {
            assert forall|q: int| 0 <= q < h implies cbits(c@)[q] == interleave_bits(
                sbits(buffer@),
            )[q] by {}
            assert(cbits(c@) =~= interleave_bits(sbits(buffer@)));
        }
        c
    }

    /// Writes a half-length complex buffer back as adjacent sample pairs.
    fn deinterleave<const FRAC: u32>(
        &self,
        c: &Vec<ComplexFixed<FRAC>>,
        buffer: &mut Vec<Fixed<FRAC>>,
    )
        requires
            old(buffer)@.len() == self.size(),
            self.size() >= 2,
            c@.len() == self.size() / 2,
            self.wf(),
        ensures
            final(buffer)@.len() == self.size(),
            sbits(final(buffer)@) == deinterleave_bits(cbits(c@)),
    {
        let h = self.n / 2;
        proof {
            crate::tables::lemma_pow2_size_lg(self.n as nat);
            vstd::arithmetic::div_mod::lemma_fundamental_div_mod(self.n as int, 2);
        }
        let mut k: usize = 0;
        while k < h
            invariant
                k <= h,
                h == self.size() / 2,
                2 * h == self.size(),
                buffer@.len() == self.size(),
                c@.len() == h,
                forall|p: int|
                    0 <= p < 2 * k ==> #[trigger] sbits(buffer@)[p] == deinterleave_bits(
                        cbits(c@),
                    )[p],
            decreases h - k,
        {
            let v = c[k];
            let ghost bprev = sbits(buffer@);
            buffer.set(2 * k, v.re);
            buffer.set(2 * k + 1, v.im);
            proof {
                lemma_pair_positions(k as int);
                assert forall|p: int| 0 <= p < 2 * (k + 1) implies #[trigger] sbits(buffer@)[p]
                    == deinterleave_bits(cbits(c@))[p] by {
                    lemma_pair_positions(p / 2);
                    if p < 2 * k {
                        assert(sbits(buffer@)[p] == bprev[p]);
                        assert(bprev[p] == deinterleave_bits(cbits(c@))[p]);
                    } else if p == 2 * k {
                        assert(sbits(buffer@)[p] == v.re.bits());
                        assert(cbits(c@)[k as int] == v.bits());
                    } else {
                        assert(p == 2 * k + 1);
                        assert(sbits(buffer@)[p] == v.im.bits());
                        assert(cbits(c@)[k as int] == v.bits());
                    }
                }
            }
            k = k + 1;
        }
        proof {
            assert(sbits(buffer@) =~= deinterleave_bits(cbits(c@)));
        }
    }

    /// The forward real transform: interleave, half-length complex FFT at
    /// twiddle stride 2, then the unweave pass.
    fn rfft<const FRAC: u32>(&self, buffer: &mut Vec<Fixed<FRAC>>) -> (r: Result<(), FftError>)
        requires
            FRAC <= 31,
            self.wf(),
        ensures
            match r {
                Ok(()) => {
                    &&& old(buffer)@.len() == self.size()
                    &&& final(buffer)@.len() == old(buffer)@.len()
                    &&& self.size() >= 2 ==> sbits(final(buffer)@) == rfft_bits(
                        sbits(old(buffer)@),
                        self.twiddle_bits(),
                        FRAC as nat,
                    )
                    &&& self.size() < 2 ==> final(buffer)@ == old(buffer)@
                },
                Err(e) => {
                    &&& old(buffer)@.len() != self.size()
                    &&& e == FftError::SizeMismatch
                    &&& final(buffer)@ == old(buffer)@
                },
            },
    {
        if buffer.len() != self.n {
            return Err(FftError::SizeMismatch);
        }
        if self.n < 2 {
            return Ok(());
        }
        let h = self.n / 2;
        proof {
            lemma_half_pow2(self.n as nat);
        }
        let mut cbuf = self.interleave(buffer);
        radix_2_dit_fft_core::<FRAC, false>(&mut cbuf, &self.twiddles, &self.bitrev, 2);
        let ghost f = cbits(cbuf@);
        let ghost tw = self.twiddle_bits();
        let ghost target = unweave_seq(f, tw, FRAC as nat);

        // Index 0: DC and Nyquist are superimposed in this single bin.
        let v0 = cbuf[0];
        let dc = v0.re.add(v0.im);
        let ny = v0.re.sub(v0.im);
        cbuf.set(0, ComplexFixed::new(dc, ny));
        // The self-conjugate-symmetric quarter point.
        let q = h / 2;
        let vq = cbuf[q];
        cbuf.set(q, vq.conj());
        proof {
            assert forall|p: int| 0 <= p < h implies #[trigger] cbits(cbuf@)[p] == (if p == 0 || p
                == q {
                target[p]
            } else {
                f[p]
            }) by {}
        }
        if h >= 2 {
        let mut i: usize = 1;
        while i < q
            invariant
                FRAC <= 31,
                1 <= i,
                i <= q,
                q == h / 2,
                2 * q == h,
                h == self.size() / 2,
                h >= 2,
                self.wf(),
                h <= self.twiddles@.len(),
                cbuf@.len() == h,
                f.len() == h,
                tw == self.twiddle_bits(),
                target == unweave_seq(f, tw, FRAC as nat),
                forall|p: int|
                    0 <= p < h ==> #[trigger] cbits(cbuf@)[p] == (if p == 0 || p == q || (1 <= p
                        < i) || (h - i < p < h) {
                        target[p]
                    } else {
                        f[p]
                    }),
            decreases q - i,
        {
            let va = cbuf[i];
            let vb = cbuf[h - i];
            proof {
                assert(cbits(cbuf@)[i as int] == f[i as int]);
                assert(cbits(cbuf@)[h - i] == f[h - i]);
            }
            let vbc = vb.conj();
            let even = va.add(vbc).scale_half();
            let odd = va.sub(vbc).scale_half();
            let w = self.twiddles[i];
            proof {
                assert(cbits(self.twiddles@)[i as int] == w.bits());
            }
            let t1 = odd.mul(w);
            let ib = t1.im.to_bits();
            let nb: i32 = if ib == i32::MIN {
                i32::MIN
            } else {
                -ib
            };
            let t = ComplexFixed::new(Fixed::from_bits(nb), t1.re);
            let out_a = even.sub(t);
            let out_b = even.add(t).conj();
            proof {
                let pair = unweave_pair(f[i as int], f[h - i], tw[i as int], FRAC as nat);
                assert(out_a.bits() == pair.0);
                assert(out_b.bits() == pair.1);
                assert(target[i as int] == pair.0);
                assert(target[h - i] == pair.1);
            }
            let ghost prev = cbits(cbuf@);
            cbuf.set(i, out_a);
            cbuf.set(h - i, out_b);
            proof {
                assert forall|p: int| 0 <= p < h implies #[trigger] cbits(cbuf@)[p] == (if p == 0
                    || p == q || (1 <= p < i + 1) || (h - i - 1 < p < h) {
                    target[p]
                } else {
                    f[p]
                }) by {
                    assert(cbits(cbuf@)[p] == (if p == i as int {
                        out_a.bits()
                    } else if p == h - i {
                        out_b.bits()
                    } else {
                        prev[p]
                    }));
                }
            }
            i = i + 1;
        }
        proof {
            assert forall|p: int| 0 <= p < h implies #[trigger] cbits(cbuf@)[p] == target[p] by {}
            assert(cbits(cbuf@) =~= target);
        }
        } else {
            proof {
                assert forall|p: int| 0 <= p < h implies #[trigger] cbits(cbuf@)[p]
                    == target[p] by {}
                assert(cbits(cbuf@) =~= target);
            }
        }
        self.deinterleave(&cbuf, buffer);
        Ok(())
    }

    /// The inverse real transform: interleave, the reweave pass, then the
    /// half-length inverse complex FFT at twiddle stride 2.
    fn irfft<const FRAC: u32>(&self, buffer: &mut Vec<Fixed<FRAC>>) -> (r: Result<(), FftError>)
        requires
            FRAC <= 31,
            self.wf(),
        ensures
            match r {
                Ok(()) => {
                    &&& old(buffer)@.len() == self.size()
                    &&& final(buffer)@.len() == old(buffer)@.len()
                    &&& self.size() >= 2 ==> sbits(final(buffer)@) == irfft_bits(
                        sbits(old(buffer)@),
                        self.twiddle_bits(),
                        FRAC as nat,
                    )
                    &&& self.size() < 2 ==> final(buffer)@ == old(buffer)@
                },
                Err(e) => {
                    &&& old(buffer)@.len() != self.size()
                    &&& e == FftError::SizeMismatch
                    &&& final(buffer)@ == old(buffer)@
                },
            },
    {
        if buffer.len() != self.n {
            return Err(FftError::SizeMismatch);
        }
        if self.n < 2 {
            return Ok(());
        }
        let h = self.n / 2;
        proof {
            lemma_half_pow2(self.n as nat);
        }
        let mut cbuf = self.interleave(buffer);
        let ghost f = cbits(cbuf@);
        let ghost tw = self.twiddle_bits();
        let ghost target = reweave_seq(f, tw, FRAC as nat);

        // Undo the DC/Nyquist superposition of the forward pass.
        let v0 = cbuf[0];
        let dc = v0.re.add(v0.im).scale_half();
        let ny = v0.re.sub(v0.im).scale_half();
        cbuf.set(0, ComplexFixed::new(dc, ny));
        let q = h / 2;
        let vq = cbuf[q];
        cbuf.set(q, vq.conj());
        proof {
            assert forall|p: int| 0 <= p < h implies #[trigger] cbits(cbuf@)[p] == (if p == 0 || p
                == q {
                target[p]
            } else {
                f[p]
            }) by {}
        }
        if h >= 2 {
        let mut i: usize = 1;
        while i < q
            invariant
                FRAC <= 31,
                1 <= i,
                i <= q,
                q == h / 2,
                2 * q == h,
                h == self.size() / 2,
                h >= 2,
                self.wf(),
                h <= self.twiddles@.len(),
                cbuf@.len() == h,
                f.len() == h,
                tw == self.twiddle_bits(),
                target == reweave_seq(f, tw, FRAC as nat),
                forall|p: int|
                    0 <= p < h ==> #[trigger] cbits(cbuf@)[p] == (if p == 0 || p == q || (1 <= p
                        < i) || (h - i < p < h) {
                        target[p]
                    } else {
                        f[p]
                    }),
            decreases q - i,
        {
            let va = cbuf[i];
            let vb = cbuf[h - i];
            proof {
                assert(cbits(cbuf@)[i as int] == f[i as int]);
                assert(cbits(cbuf@)[h - i] == f[h - i]);
            }
            let vbc = vb.conj();
            let even = va.add(vbc).scale_half();
            let odd = va.sub(vbc).scale_half();
            let w = self.twiddles[i].conj();
            proof {
                assert(cbits(self.twiddles@)[i as int] == self.twiddles@[i as int].bits());
            }
            let t1 = odd.mul(w);
            let ib = t1.im.to_bits();
            let nb: i32 = if ib == i32::MIN {
                i32::MIN
            } else {
                -ib
            };
            let t = ComplexFixed::new(Fixed::from_bits(nb), t1.re);
            let out_a = even.add(t);
            let out_b = even.sub(t).conj();
            proof {
                let pair = reweave_pair(f[i as int], f[h - i], tw[i as int], FRAC as nat);
                assert(out_a.bits() == pair.0);
                assert(out_b.bits() == pair.1);
                assert(target[i as int] == pair.0);
                assert(target[h - i] == pair.1);
            }
            let ghost prev = cbits(cbuf@);
            cbuf.set(i, out_a);
            cbuf.set(h - i, out_b);
            proof {
                assert forall|p: int| 0 <= p < h implies #[trigger] cbits(cbuf@)[p] == (if p == 0
                    || p == q || (1 <= p < i + 1) || (h - i - 1 < p < h) {
                    target[p]
                } else {
                    f[p]
                }) by {
                    assert(cbits(cbuf@)[p] == (if p == i as int {
                        out_a.bits()
                    } else if p == h - i {
                        out_b.bits()
                    } else {
                        prev[p]
                    }));
                }
            }
            i = i + 1;
        }
        proof {
            assert forall|p: int| 0 <= p < h implies #[trigger] cbits(cbuf@)[p] == target[p] by {}
            assert(cbits(cbuf@) =~= target);
        }
        } else {
            proof {
                assert forall|p: int| 0 <= p < h implies #[trigger] cbits(cbuf@)[p]
                    == target[p] by {}
                assert(cbits(cbuf@) =~= target);
            }
        }
        radix_2_dit_fft_core::<FRAC, true>(&mut cbuf, &self.twiddles, &self.bitrev, 2);
        self.deinterleave(&cbuf, buffer);
        Ok(())
    }
}

/// Halving a power of two at least 2 yields a power of two, with the
/// bounds the half-length transform needs.
pub proof fn lemma_half_pow2(n: nat)
    requires
        is_pow2_size(n),
        n >= 2,
    ensures
        is_pow2_size(n / 2),
        n / 2 >= 1,
        2 * (n / 2) == n,
        n >= 4 ==> (n / 2) % 2 == 0 && 2 * ((n / 2) / 2) == n / 2,
    decreases n,
{
    vstd::arithmetic::div_mod::lemma_fundamental_div_mod(n as int, 2);
    if n >= 4 {
        lemma_half_pow2(n / 2);
        vstd::arithmetic::div_mod::lemma_fundamental_div_mod((n / 2) as int, 2);
    }
}

impl<const FRAC: u32> crate::common::FftProcess<Fixed<FRAC>> for RealFft {
    open spec fn ready(&self) -> bool {
        self.wf()
    }

    open spec fn compatible() -> bool {
        FRAC <= 31
    }

    fn process(&self, buffer: &mut Vec<Fixed<FRAC>>, inverse: bool) -> (r: Result<
        (),
        FftError,
    >)
        ensures
            match r {
                Ok(()) => {
                    &&& old(buffer)@.len() == self.size()
                    &&& final(buffer)@.len() == old(buffer)@.len()
                    &&& self.size() >= 2 ==> sbits(final(buffer)@) == (if inverse {
                        irfft_bits(sbits(old(buffer)@), self.twiddle_bits(), FRAC as nat)
                    } else {
                        rfft_bits(sbits(old(buffer)@), self.twiddle_bits(), FRAC as nat)
                    })
                    &&& self.size() < 2 ==> final(buffer)@ == old(buffer)@
                },
                Err(e) => {
                    &&& old(buffer)@.len() != self.size()
                    &&& e == FftError::SizeMismatch
                    &&& final(buffer)@ == old(buffer)@
                },
            },
    {
        RealFft::process(self, buffer, inverse)
    }
}

} // verus!

