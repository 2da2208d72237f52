use fixed_fft::{precompute_bitrev, radix_2_dit_fft_core, ComplexFixed, Fixed};

const FRAC: u32 = 16;
type C = ComplexFixed<FRAC>;
type F = Fixed<FRAC>;

fn fixed_from_f64<const FR: u32>(value: f64) -> Fixed<FR> {
    let scaling_factor = (1u64 << FR) as f64;
    Fixed::from_bits((value * scaling_factor).round() as i32)
}

fn to_f64<const FR: u32>(val: Fixed<FR>) -> f64 {
    val.to_bits() as f64 / (1u64 << FR) as f64
}

/// Rotation factors for an n-point transform at the engine's maximum
/// precision, as the original tables hold them.
fn make_twiddles(n: usize) -> Vec<ComplexFixed<31>> {
    let mut twiddles = Vec::new();
    for j in 0..(n / 2) {
        let angle = -2.0 * std::f64::consts::PI * (j as f64) / (n as f64);
        twiddles.push(ComplexFixed::new(
            fixed_from_f64::<31>(angle.cos()),
            fixed_from_f64::<31>(angle.sin()),
        ));
    }
    twiddles
}

#[test]
fn test_precompute_bitrev() {
    let n = 8;
    let mut bitrev = vec![0; n];
    precompute_bitrev(&mut bitrev, n);

    assert_eq!(bitrev[0], 0);
    assert_eq!(bitrev[1], 4);
    assert_eq!(bitrev[2], 2);
    assert_eq!(bitrev[3], 6);
    assert_eq!(bitrev[4], 1);
    assert_eq!(bitrev[5], 5);
    assert_eq!(bitrev[6], 3);
    assert_eq!(bitrev[7], 7);
}

#[test]
fn test_precompute_bitrev_8() {
    let n = 8;
    let mut bitrev = vec![0; n];
    precompute_bitrev(&mut bitrev, n);

    // Expected bit reversal for N=8:
    // 0 (000) -> 0 (000)
    // 1 (001) -> 4 (100)
    // 2 (010) -> 2 (010)
    // 3 (011) -> 6 (110)
    // 4 (100) -> 1 (001)
    // 5 (101) -> 5 (101)
    // 6 (110) -> 3 (011)
    // 7 (111) -> 7 (111)
    let expected = vec![0, 4, 2, 6, 1, 5, 3, 7];
    assert_eq!(bitrev, expected);
}

#[test]
fn test_precompute_bitrev_16() {
    let n = 16;
    let mut bitrev = vec![0; n];
    precompute_bitrev(&mut bitrev, n);
    let expected = vec![0, 8, 4, 12, 2, 10, 6, 14, 1, 9, 5, 13, 3, 11, 7, 15];
    assert_eq!(bitrev, expected);
}

#[test]
fn test_twiddles_n8_closed_forms() {
    // e^(-2 pi i k / 8) for k = 0..3: 1, (v2/2)(1 - i), -i, (v2/2)(-1 - i)
    let twiddles = make_twiddles(8);
    let sqrt2_2 = (2.0f64).sqrt() / 2.0;
    let expected = [
        (1.0, 0.0),
        (sqrt2_2, -sqrt2_2),
        (0.0, -1.0),
        (-sqrt2_2, -sqrt2_2),
    ];
    for (k, &(re, im)) in expected.iter().enumerate() {
        let tre = twiddles[k].re.to_bits() as f64 / (1u64 << 31) as f64;
        let tim = twiddles[k].im.to_bits() as f64 / (1u64 << 31) as f64;
        assert!((tre - re).abs() < 1e-4, "Real part at index {}", k);
        assert!((tim - im).abs() < 1e-4, "Imaginary part at index {}", k);
    }
}

#[test]
fn test_fft_core_forward_impulse() {
    // Impulse at 0 -> DC out (flat)
    let n = 8;
    // Input: [1.0, 0, ... 0]
    let mut buffer = vec![C::new(F::from_int(0), F::from_int(0)); n];
    buffer[0] = C::new(F::from_int(1), F::from_int(0));

    let twiddles = make_twiddles(n);

    let mut bitrev = vec![0; n];
    precompute_bitrev(&mut bitrev, n);

    // Forward FFT
    radix_2_dit_fft_core::<FRAC, false>(&mut buffer, &twiddles, &bitrev, 1);

    // Expected output: [1, 1, 1, 1, ..., 1]
    let one = F::from_int(1).to_bits();
    let zero = F::from_int(0).to_bits();

    for (i, val) in buffer.iter().enumerate() {
        assert_eq!(val.re.to_bits(), one, "Real part at index {}", i);
        assert_eq!(val.im.to_bits(), zero, "Imaginary part at index {}", i);
    }
}

#[test]
fn test_fft_core_inverse_flat() {
    // Input: [1, 1, ..., 1]
    // Inverse FFT should be [1, 0, ..., 0] (because of scaling 1/N internal to INVERSE routine)
    let n = 8;
    let mut buffer = vec![C::new(F::from_int(1), F::from_int(0)); n];

    let twiddles = make_twiddles(n);

    let mut bitrev = vec![0; n];
    precompute_bitrev(&mut bitrev, n);

    // Inverse FFT
    radix_2_dit_fft_core::<FRAC, true>(&mut buffer, &twiddles, &bitrev, 1);

    // Expected output: [1, 0, ..., 0]
    let one = F::from_int(1).to_bits();
    let zero = F::from_int(0).to_bits();

    // Check index 0
    assert_eq!(buffer[0].re.to_bits(), one, "Real part at index 0");
    assert_eq!(buffer[0].im.to_bits(), zero, "Imag part at index 0");

    // Check others
    for i in 1..n {
        assert_eq!(buffer[i].re.to_bits(), zero, "Real part at index {}", i);
        assert_eq!(buffer[i].im.to_bits(), zero, "Imag part at index {}", i);
    }
}

#[test]
fn test_fft_core_impulse_roundtrip_n16() {
    // Forward then inverse of an impulse restores it exactly at any
    // power-of-two size.
    let n = 16;
    let mut buffer = vec![C::new(F::from_int(0), F::from_int(0)); n];
    buffer[0] = C::new(F::from_int(1), F::from_int(0));
    let original = buffer.clone();

    let twiddles = make_twiddles(n);
    let mut bitrev = vec![0; n];
    precompute_bitrev(&mut bitrev, n);

    radix_2_dit_fft_core::<FRAC, false>(&mut buffer, &twiddles, &bitrev, 1);
    radix_2_dit_fft_core::<FRAC, true>(&mut buffer, &twiddles, &bitrev, 1);

    for i in 0..n {
        assert_eq!(buffer[i], original[i], "Mismatch at index {}", i);
    }
}

#[test]
fn test_fft_core_roundtrip_q15_within_tolerance() {
    // A forward-then-inverse pass reconstructs arbitrary data within the
    // quantization noise of Q15.
    const Q: u32 = 15;
    let n = 16;
    let mut buffer: Vec<ComplexFixed<Q>> = (0..n)
        .map(|i| {
            ComplexFixed::new(
                fixed_from_f64::<Q>((i as f64 * 0.37).sin() * 5.0),
                fixed_from_f64::<Q>((i as f64 * 0.73).cos() * 5.0),
            )
        })
        .collect();
    let original = buffer.clone();

    let twiddles = make_twiddles(n);
    let mut bitrev = vec![0; n];
    precompute_bitrev(&mut bitrev, n);

    radix_2_dit_fft_core::<Q, false>(&mut buffer, &twiddles, &bitrev, 1);
    radix_2_dit_fft_core::<Q, true>(&mut buffer, &twiddles, &bitrev, 1);

    for i in 0..n {
        let dre = (to_f64(buffer[i].re) - to_f64(original[i].re)).abs();
        let dim = (to_f64(buffer[i].im) - to_f64(original[i].im)).abs();
        assert!(dre + dim < 0.1, "Error too large at index {}", i);
    }
}
