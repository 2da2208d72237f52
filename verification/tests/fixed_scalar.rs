use fixed_fft::Fixed;

fn fixed_from_f64<const FRAC: u32>(value: f64) -> Fixed<FRAC> {
    let scaling_factor = (1u64 << FRAC) as f64;
    Fixed::from_bits((value * scaling_factor).round() as i32)
}

fn to_f64<const FRAC: u32>(val: Fixed<FRAC>) -> f64 {
    val.to_bits() as f64 / (1u64 << FRAC) as f64
}

#[test]
fn test_sum_same_scale() {
    let a = Fixed::<23>::from_int(10);
    let b = Fixed::<23>::from_int(5);
    assert_eq!(a.add(b).to_bits(), Fixed::<23>::from_int(15).to_bits());
}

#[test]
fn test_sum_different_scales() {
    let a = Fixed::<16>::from_int(1); // 1.0 in Q16
    let b = Fixed::<8>::from_int(2); // 2.0 in Q8
    let res = a.add(b); // Result should be 3.0 in Q16
    assert_eq!(res.to_bits(), 3 << 16);
}

#[test]
fn test_multiplication_with_rounding() {
    // 0.5 (Q31) * 0.5 (Q31) = 0.25
    let a = Fixed::<31>::from_bits(1 << 30);
    let b = Fixed::<31>::from_bits(1 << 30);
    let res = a.mul(b);
    assert_eq!(res.to_bits(), 1 << 29); // 0.25 in Q31
}

#[test]
fn test_mixed_precision_multiplication() {
    // 2.0 (Q16) * 0.5 (Q31) = 1.0 (Q16)
    let a = Fixed::<16>::from_int(2);
    let b = Fixed::<31>::from_bits(1 << 30);
    let res = a.mul(b);
    assert_eq!(res, Fixed::<16>::from_int(1));
}

#[test]
fn test_debug_display() {
    let val = Fixed::<23>::from_bits(1 << 22); // 0.5
    assert_eq!(val.to_decimal_string(), "0.500000");
}

#[test]
fn test_decimal_string_negative() {
    let val = Fixed::<16>::from_int(-3);
    assert_eq!(val.to_decimal_string(), "-3.000000");
    let quarter = Fixed::<16>::from_bits(-(1 << 14));
    assert_eq!(quarter.to_decimal_string(), "-0.250000");
}

#[test]
fn test_decimal_string_rounds_ties_to_even() {
    // 2^-21 = 0.0000004768...; at six digits this rounds to 0.000000.
    let tiny = Fixed::<21>::from_bits(1);
    assert_eq!(tiny.to_decimal_string(), "0.000000");
    // 3 * 2^-21 = 0.00000143...; rounds to 0.000001.
    let tiny3 = Fixed::<21>::from_bits(3);
    assert_eq!(tiny3.to_decimal_string(), "0.000001");
}

#[test]
fn test_convert_widening_is_exact() {
    let a = Fixed::<8>::from_int(3);
    let b: Fixed<16> = a.convert();
    assert_eq!(b.to_bits(), 3 << 16);
}

#[test]
fn test_convert_narrowing_truncates() {
    // 0.75 in Q16 narrowed to Q1 keeps only the half bit: floor(0.75 * 2) / 2 = 0.5.
    let a = Fixed::<16>::from_bits(3 << 14);
    let b: Fixed<1> = a.convert();
    assert_eq!(b.to_bits(), 1);
    // Negative values shift arithmetically: -0.75 becomes -1.0 at Q1.
    let c = Fixed::<16>::from_bits(-(3 << 14));
    let d: Fixed<1> = c.convert();
    assert_eq!(d.to_bits(), -2);
}

#[test]
fn test_scale_half_scalar() {
    assert_eq!(Fixed::<16>::from_int(5).scale_half().to_bits(), 5 << 15);
    assert_eq!(Fixed::<16>::from_bits(-3).scale_half().to_bits(), -2);
}

#[test]
fn test_add_wraps_on_overflow() {
    let a = Fixed::<0>::from_bits(i32::MAX);
    let b = Fixed::<0>::from_bits(1);
    assert_eq!(a.add(b).to_bits(), i32::MIN);
}

#[test]
fn test_assign_operations() {
    let mut a = Fixed::<16>::from_int(4);
    a.add_assign(Fixed::<16>::from_int(1));
    assert_eq!(a, Fixed::<16>::from_int(5));
    a.sub_assign(Fixed::<16>::from_int(2));
    assert_eq!(a, Fixed::<16>::from_int(3));
    a.mul_assign(Fixed::<16>::from_int(2));
    assert_eq!(a, Fixed::<16>::from_int(6));
}

#[test]
fn test_mixed_precision_sum_within_one_ulp() {
    // Q16 + Q31 stays within one Q16 unit of the exact rational sum.
    let a = fixed_from_f64::<16>(1.25);
    let b = fixed_from_f64::<31>(0.3);
    let r = a.add(b);
    let exact = to_f64(a) + to_f64(b);
    let ulp = 1.0 / 65536.0;
    assert!((to_f64(r) - exact).abs() < ulp);
}
