use fixed_fft::{ComplexFixed, CplxFft, FftError, Fixed};

fn fixed_from_f64<const FRAC: u32>(value: f64) -> Fixed<FRAC> {
    let scaling_factor = (1u64 << FRAC) as f64;
    Fixed::from_bits((value * scaling_factor).round() as i32)
}

fn to_f64<const FRAC: u32>(val: Fixed<FRAC>) -> f64 {
    val.to_bits() as f64 / (1u64 << FRAC) as f64
}

fn make_twiddles(n: usize) -> Vec<ComplexFixed<31>> {
    let mut twiddles = Vec::new();
    for j in 0..(n / 2) {
        let angle = -2.0 * std::f64::consts::PI * (j as f64) / (n as f64);
        twiddles.push(ComplexFixed::new(
            fixed_from_f64::<31>(angle.cos()),
            fixed_from_f64::<31>(angle.sin()),
        ));
    }
    twiddles
}

fn assert_complex_close<const FRAC: u32>(
    val: ComplexFixed<FRAC>,
    expected_re: f64,
    expected_im: f64,
    tolerance: f64,
) {
    let re = to_f64(val.re);
    let im = to_f64(val.im);

    let dist = ((re - expected_re).powi(2) + (im - expected_im).powi(2)).sqrt();

    assert!(
        dist < tolerance,
        "Error too large. Expected: ({:.4}, {:.4}), Got: ({:.4}, {:.4}), Dist: {:.4}",
        expected_re,
        expected_im,
        re,
        im,
        dist
    );
}

#[test]
fn test_fft_forward_q15() {
    const FRAC: u32 = 15;
    let n = 8;

    // Input samples for the reference spectrum below
    let input_f64 = [
        (1.0, 2.0),
        (3.0, 4.0),
        (5.0, 6.0),
        (7.0, 8.0),
        (-8.0, -7.0),
        (-6.0, -5.0),
        (-4.0, -3.0),
        (-2.0, -1.0),
    ];

    // The exact (unscaled) transform of the input, from the closed form
    // Note: Magnitudes are around 30.0, which fits easily in Q15 (max 65536)
    let expected_f64 = [
        (-4.0, 4.0),
        (30.72792, -12.72792),
        (-16.0, 0.0),
        (12.72792, 5.27208),
        (-8.0, -8.0),
        (5.27208, 12.72792),
        (0.0, -16.0),
        (-12.72792, 30.72792),
    ];

    let mut buffer: Vec<ComplexFixed<FRAC>> = input_f64
        .iter()
        .map(|&(re, im)| ComplexFixed::new(fixed_from_f64(re), fixed_from_f64(im)))
        .collect();

    let twiddles = make_twiddles(n);
    let bitrev = vec![0; n];

    let fft = CplxFft::new(twiddles, bitrev, n).unwrap();

    fft.process(&mut buffer, false).unwrap();

    // Tolerance check:
    // Fixed point noise comes from:
    // 1. Initial quantization (small)
    // 2. Twiddle factor quantization (Q31, very small)
    // 3. Multiplication truncation (Q15 * Q31 -> Q15) in each stage
    // For N=8, error shouldn't be too huge.
    // Let's suggest 0.1 as a safe starting margin.
    for (i, &val) in buffer.iter().enumerate() {
        assert_complex_close(val, expected_f64[i].0, expected_f64[i].1, 0.1);
    }
}

#[test]
fn test_fft_inverse_q15() {
    const FRAC: u32 = 15;
    let n = 8;

    // Input is the "Output" of the forward transform
    let input_f64 = [
        (-4.0, 4.0),
        (30.72792, -12.72792),
        (-16.0, 0.0),
        (12.72792, 5.27208),
        (-8.0, -8.0),
        (5.27208, 12.72792),
        (0.0, -16.0),
        (-12.72792, 30.72792),
    ];

    // Expected output is the original input
    // The fixed-point inverse FFT includes 1/N scaling distributed across stages
    let expected_f64 = [
        (1.0, 2.0),
        (3.0, 4.0),
        (5.0, 6.0),
        (7.0, 8.0),
        (-8.0, -7.0),
        (-6.0, -5.0),
        (-4.0, -3.0),
        (-2.0, -1.0),
    ];

    let mut buffer: Vec<ComplexFixed<FRAC>> = input_f64
        .iter()
        .map(|&(re, im)| ComplexFixed::new(fixed_from_f64(re), fixed_from_f64(im)))
        .collect();

    let twiddles = make_twiddles(n);
    let bitrev = vec![0; n];

    let fft = CplxFft::new(twiddles, bitrev, n).unwrap();

    // Run Inverse FFT
    fft.process(&mut buffer, true).unwrap();

    for (i, &val) in buffer.iter().enumerate() {
        assert_complex_close(val, expected_f64[i].0, expected_f64[i].1, 0.1);
    }
}

#[test]
fn test_new_rejects_non_power_of_two() {
    let twiddles = make_twiddles(6);
    let bitrev = vec![0; 6];
    let err = CplxFft::new(twiddles, bitrev, 6).unwrap_err();
    assert_eq!(err, FftError::NotPowerOfTwo);
}

#[test]
fn test_new_rejects_short_twiddle_table() {
    let twiddles = make_twiddles(4); // two entries, but eight are needed
    let bitrev = vec![0; 16];
    let err = CplxFft::new(twiddles, bitrev, 16).unwrap_err();
    assert_eq!(err, FftError::BufferTooSmall);
}

#[test]
fn test_new_rejects_short_bitrev_table() {
    let twiddles = make_twiddles(16);
    let bitrev = vec![0; 8];
    let err = CplxFft::new(twiddles, bitrev, 16).unwrap_err();
    assert_eq!(err, FftError::BufferTooSmall);
}

#[test]
fn test_process_rejects_wrong_buffer_length() {
    const FRAC: u32 = 15;
    let n = 8;
    let fft = CplxFft::new(make_twiddles(n), vec![0; n], n).unwrap();
    let mut buffer: Vec<ComplexFixed<FRAC>> =
        vec![ComplexFixed::new(Fixed::from_int(1), Fixed::from_int(0)); 4];
    let before = buffer.clone();
    let err = fft.process(&mut buffer, false).unwrap_err();
    assert_eq!(err, FftError::SizeMismatch);
    assert_eq!(buffer, before);
}

#[test]
fn test_error_descriptions() {
    assert_eq!(
        FftError::SizeMismatch.describe(),
        "Data buffer size does not match FFT size"
    );
    assert_eq!(FftError::NotPowerOfTwo.describe(), "Size must be a power of 2");
    assert_eq!(
        FftError::BufferTooSmall.describe(),
        "Auxiliary buffers are too small"
    );
    assert_eq!(
        FftError::InvalidStride.describe(),
        "Invalid stride configuration"
    );
}

#[test]
fn test_one_table_serves_two_precisions() {
    // The same Q31 table drives buffers of different fractional widths.
    let n = 4;
    let fft = CplxFft::new(make_twiddles(n), vec![0; n], n).unwrap();

    let mut q15: Vec<ComplexFixed<15>> =
        vec![ComplexFixed::new(Fixed::from_int(0), Fixed::from_int(0)); n];
    q15[0] = ComplexFixed::new(Fixed::from_int(1), Fixed::from_int(0));
    fft.process(&mut q15, false).unwrap();

    let mut q23: Vec<ComplexFixed<23>> =
        vec![ComplexFixed::new(Fixed::from_int(0), Fixed::from_int(0)); n];
    q23[0] = ComplexFixed::new(Fixed::from_int(1), Fixed::from_int(0));
    fft.process(&mut q23, false).unwrap();

    for i in 0..n {
        assert_eq!(q15[i].re, Fixed::<15>::from_int(1));
        assert_eq!(q15[i].im, Fixed::<15>::from_int(0));
        assert_eq!(q23[i].re, Fixed::<23>::from_int(1));
        assert_eq!(q23[i].im, Fixed::<23>::from_int(0));
    }
}
