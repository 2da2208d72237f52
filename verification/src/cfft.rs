use crate::butterfly::{cbits, fft_bits, radix_2_dit_fft_core};
use crate::common::FftError;
use crate::complex::ComplexFixed;
use crate::tables::{check_pow2, is_pow2_size, lg, precompute_bitrev, rev_bits};
use vstd::prelude::*;

verus! {

/// Fractional bits of the engine's twiddle factors. Twiddles are always
/// kept at this maximum precision, independent of any data buffer's
/// precision, so one table serves buffers of every fractional width.
pub const TWIDDLE_FRAC: u32 = 31;

/// A complex FFT bound to a validated power-of-two size: it owns the
/// twiddle table it was given and the bit-reversal table it filled.
#[derive(Debug)]
pub struct CplxFft {
    twiddles: Vec<ComplexFixed<31>>,
    bitrev: Vec<usize>,
    n: usize,
}

impl CplxFft {
    /// The handle's internal consistency: a power-of-two size, tables of
    /// sufficient length, and a correctly filled bit-reversal table.
    pub closed spec fn wf(self) -> bool {
        &&& is_pow2_size(self.n as nat)
        &&& self.twiddles@.len() >= self.n as nat / 2
        &&& self.twiddles@.len() <= usize::MAX
        &&& self.bitrev@.len() >= self.n
        &&& forall|p: int|
            0 <= p < self.n ==> #[trigger] self.bitrev@[p] == rev_bits(
                p as nat,
                lg(self.n as nat),
            )
    }

    /// The configured transform size.
    pub closed spec fn size(self) -> nat {
        self.n as nat
    }

    /// The raw stores of the twiddle table.
    pub closed spec fn twiddle_bits(self) -> Seq<(int, int)> {
        cbits(self.twiddles@)
    }

    /// Validates the size and table capacities, fills the bit-reversal
    /// table, and keeps the supplied twiddle table as given. Fails with
    /// `NotPowerOfTwo` if `n` is not a power of two, and otherwise with
    /// `BufferTooSmall` if a table is shorter than `n` requires.
    pub fn new(twiddles: Vec<ComplexFixed<31>>, bitrev: Vec<usize>, n: usize) -> (r: Result<
        CplxFft,
        FftError,
    >)
        ensures
            match r {
                Ok(f) => {
                    &&& is_pow2_size(n as nat)
                    &&& twiddles@.len() >= n as nat / 2
                    &&& bitrev@.len() >= n
                    &&& f.wf()
                    &&& f.size() == n as nat
                    &&& f.twiddle_bits() == cbits(twiddles@)
                },
                Err(e) => {
                    &&& !(is_pow2_size(n as nat) && twiddles@.len() >= n as nat / 2 && bitrev@.len()
                        >= n)
                    &&& e == (if !is_pow2_size(n as nat) {
                        FftError::NotPowerOfTwo
                    } else {
                        FftError::BufferTooSmall
                    })
                },
            },
    {
        if !check_pow2(n) {
            return Err(FftError::NotPowerOfTwo);
        }
        if twiddles.len() < n / 2 {
            return Err(FftError::BufferTooSmall);
        }
        if bitrev.len() < n {
            return Err(FftError::BufferTooSmall);
        }
        let mut bitrev = bitrev;
        precompute_bitrev(&mut bitrev, n);
        Ok(CplxFft { twiddles, bitrev, n })
    }

    /// Transforms `buffer` in place in the given direction. Fails with
    /// `SizeMismatch`, leaving the buffer untouched, exactly when the
    /// buffer's length is not the configured size.
    pub fn process<const FRAC: u32>(
        &self,
        buffer: &mut Vec<ComplexFixed<FRAC>>,
        inverse: bool,
    ) -> (r: Result<(), FftError>)
        requires
            FRAC <= 31,
            self.wf(),
        ensures
            match r {
                Ok(()) => {
                    &&& old(buffer)@.len() == self.size()
                    &&& final(buffer)@.len() == old(buffer)@.len()
                    &&& cbits(final(buffer)@) == fft_bits(
                        cbits(old(buffer)@),
                        self.twiddle_bits(),
                        1,
                        inverse,
                        FRAC as nat,
                    )
                },
                Err(e) => {
                    &&& old(buffer)@.len() != self.size()
                    &&& e == FftError::SizeMismatch
                    &&& final(buffer)@ == old(buffer)@
                },
            },
    {
        if buffer.len() != self.n {
            return Err(FftError::SizeMismatch);
        }
        if inverse {
            radix_2_dit_fft_core::<FRAC, true>(buffer, &self.twiddles, &self.bitrev, 1);
        } else {
            radix_2_dit_fft_core::<FRAC, false>(buffer, &self.twiddles, &self.bitrev, 1);
        }
        Ok(())
    }
}

impl<const FRAC: u32> crate::common::FftProcess<ComplexFixed<FRAC>> for CplxFft {
    open spec fn ready(&self) -> bool {
        self.wf()
    }

    open spec fn compatible() -> bool {
        FRAC <= 31
    }

    fn process(&self, buffer: &mut Vec<ComplexFixed<FRAC>>, inverse: bool) -> (r: Result<
        (),
        FftError,
    >)
        ensures
            match r {
                Ok(()) => {
                    &&& old(buffer)@.len() == self.size()
                    &&& final(buffer)@.len() == old(buffer)@.len()
                    &&& cbits(final(buffer)@) == fft_bits(
                        cbits(old(buffer)@),
                        self.twiddle_bits(),
                        1,
                        inverse,
                        FRAC as nat,
                    )
                },
                Err(e) => {
                    &&& old(buffer)@.len() != self.size()
                    &&& e == FftError::SizeMismatch
                    &&& final(buffer)@ == old(buffer)@
                },
            },
    {
        CplxFft::process(self, buffer, inverse)
    }
}

} // verus!
