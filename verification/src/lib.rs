//! Power-of-two fast Fourier transforms over Q-format fixed-point numbers.
//!
//! The crate provides the scalar fixed-point model (`Fixed`), complex pairs
//! built from it (`ComplexFixed`), verified table precomputation, the
//! radix-2 decimation-in-time butterfly engine, a complex transform handle
//! (`CplxFft`), a real-input adapter (`RealFft`), and the packed real
//! spectrum layout helpers. Contracts pin every store bit: wrap-on-add,
//! round-to-nearest multiply, truncating rescale, saturating conjugation
//! and the per-stage halving of the inverse direction.

mod butterfly;
mod cfft;
mod common;
mod complex;
mod display;
mod fixed;
mod laws;
mod rfft;
mod spectrum;
mod tables;

pub use butterfly::{
    apply_stage, apply_stages, bit_rev_perm, butterfly_pair, cbits, fft_bits,
    radix_2_dit_fft_core, stage_elem,
};
pub use cfft::{CplxFft, TWIDDLE_FRAC};
pub use common::{FftError, FftProcess};
pub use complex::{
    cadd_bits, chalf_bits, cmul_bits, conj_bits, csub_bits, ComplexFixed,
};
pub use display::spec_decimal;
pub use fixed::{
    add_bits, cvt_bits, half_bits, mul_bits, pow2i, sat_neg32, sbits, sub_bits, wrap32,
    wrap_neg32, Fixed,
};
pub use laws::{
    const_bits, impulse_bits, lemma_fft_impulse, lemma_ifft_flat, lemma_impulse_roundtrip,
    lemma_mixed_precision_add,
};
pub use rfft::{
    deinterleave_bits, interleave_bits, irfft_bits, reweave_pair, reweave_seq, rfft_bits,
    rotate90_bits, unweave_pair, unweave_seq, RealFft,
};
pub use spectrum::{
    lemma_pack_unpack_roundtrip, pack_bits, pack_rfft_spectrum, unpack_bits,
    unpack_rfft_spectrum,
};
pub use tables::{is_pow2_size, lg, precompute_bitrev, rev_bits};
