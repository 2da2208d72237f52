use crate::butterfly::{
    apply_stage, apply_stages, bit_rev_perm, butterfly_pair, fft_bits, lemma_pow2_size_divides,
    stage_elem,
};
use crate::complex::{cadd_bits, cmul_bits, conj_bits, csub_bits};
use crate::fixed::{
    add_bits, cvt_bits, lemma_cvt_bits_identity, lemma_wrap32_in_range, mul_bits, pow2i,
};
use crate::tables::{is_pow2_size, lg, rev_bits};
use vstd::arithmetic::div_mod::{
    lemma_basic_div, lemma_div_basics_1, lemma_div_multiples_vanish, lemma_fundamental_div_mod,
    lemma_mod_bound, lemma_mod_multiples_vanish, lemma_small_mod,
};
use vstd::arithmetic::power2::{lemma2_to64, lemma_pow2_pos};
use vstd::prelude::*;

verus! {

/// A unit impulse: the value `one` in the first bin, zero elsewhere.
pub open spec fn impulse_bits(n: nat, one: int) -> Seq<(int, int)> {
    Seq::new(
        n,
        |p: int|
            if p == 0 {
                (one, 0)
            } else {
                (0, 0)
            },
    )
}

/// A constant buffer: the value `one` in every bin.
pub open spec fn const_bits(n: nat, one: int) -> Seq<(int, int)> {
    Seq::new(n, |p: int| (one, 0))
}

/// The prefix pattern the forward stages produce from an impulse.
spec fn prefix_ones(n: nat, s: int, one: int) -> Seq<(int, int)> {
    Seq::new(
        n,
        |p: int|
            if p < s {
                (one, 0)
            } else {
                (0, 0)
            },
    )
}

/// The spread pattern the inverse stages produce from a constant buffer.
spec fn spread_ones(n: nat, s: int, one: int) -> Seq<(int, int)> {
    Seq::new(
        n,
        |p: int|
            if p % s == 0 {
                (one, 0)
            } else {
                (0, 0)
            },
    )
}

/// Multiplying a zero store by anything yields a zero store.
proof fn lemma_mul_bits_zero(x: int)
    ensures
        mul_bits(0, x, 31) == 0,
{
    lemma2_to64();
    assert(0 * x == 0) by (nonlinear_arith);
    lemma_basic_div(pow2i(30), pow2i(31));
    lemma_wrap32_in_range(0);
}

/// The complex product of a zero pair with anything is the zero pair.
proof fn lemma_cmul_bits_zero(w: (int, int))
    ensures
        cmul_bits((0, 0), w, 31) == (0int, 0int),
{
    lemma_mul_bits_zero(w.0);
    lemma_mul_bits_zero(w.1);
    lemma_wrap32_in_range(0);
}

/// Adding or subtracting a zero pair at equal scale changes nothing, for
/// in-range stores.
proof fn lemma_cadd_csub_zero(a: (int, int), frac: nat)
    requires
        -0x8000_0000 <= a.0 < 0x8000_0000,
        -0x8000_0000 <= a.1 < 0x8000_0000,
    ensures
        cadd_bits(a, frac, (0, 0), frac) == a,
        csub_bits(a, frac, (0, 0), frac) == a,
{
    lemma_cvt_bits_identity(0, frac);
    lemma_wrap32_in_range(a.0);
    lemma_wrap32_in_range(a.1);
}

/// Multiplying a store by the twiddle table's largest positive value
/// (the closest representable approximation of one) returns the store,
/// for stores up to `2^30`.
proof fn lemma_mul_bits_near_one(x: int)
    requires
        0 <= x <= 0x4000_0000,
    ensures
        mul_bits(x, 0x7FFF_FFFF, 31) == x,
{
    lemma2_to64();
    let num = x * 0x7FFF_FFFF + 0x4000_0000;
    assert(num == x * 0x8000_0000 + (0x4000_0000 - x));
    assert(num / 0x8000_0000 == x) by {
        vstd::arithmetic::div_mod::lemma_fundamental_div_mod_converse_div(
            num,
            0x8000_0000,
            x,
            0x4000_0000 - x,
        );
        assert(x * 0x8000_0000 == 0x8000_0000 * x) by (nonlinear_arith);
    }
    lemma_wrap32_in_range(x);
}

/// Inside a block, a pair partner stays inside the buffer.
proof fn lemma_partner_in_bounds(p: int, s: int, n: int)
    requires
        s >= 1,
        0 <= p < n,
        n % (2 * s) == 0,
        p % (2 * s) < s,
    ensures
        p + s < n,
{
    let d = 2 * s;
    lemma_fundamental_div_mod(p, d);
    lemma_fundamental_div_mod(n, d);
    let qp = p / d;
    let qn = n / d;
    assert(qp < qn) by (nonlinear_arith)
        requires
            p == d * qp + p % d,
            n == d * qn,
            0 <= p % d < d,
            p < n,
            d > 0,
    ;
    assert(p + s < n) by (nonlinear_arith)
        requires
            p == d * qp + p % d,
            n == d * qn,
            p % d < s,
            d == 2 * s,
            qp < qn,
            s >= 1,
    ;
}

/// One forward stage widens the prefix of ones from `s` to `2 s`.
proof fn lemma_stage_impulse(n: nat, tw: Seq<(int, int)>, s: int, ts: nat, frac: nat, one: int)
    requires
        is_pow2_size(n),
        is_pow2_size(s as nat),
        s >= 1,
        2 * s <= n,
        (n as int) % (2 * s) == 0,
        0 <= one <= 0x4000_0000,
    ensures
        apply_stage(prefix_ones(n, s, one), tw, s as nat, ts, false, frac) == prefix_ones(
            n,
            2 * s,
            one,
        ),
{
    let buf = prefix_ones(n, s, one);
    let d = 2 * s;
    assert forall|p: int| 0 <= p < n implies apply_stage(buf, tw, s as nat, ts, false, frac)[p]
        == prefix_ones(n, d, one)[p] by {
        let pos = p % d;
        lemma_mod_bound(p, d);
        if pos < s {
            lemma_partner_in_bounds(p, s, n as int);
            lemma_cmul_bits_zero(if false {
                (0, 0)
            } else {
                tw[pos * (buf.len() / (2 * s as nat)) * ts]
            });
            if p < d {
                lemma_small_mod(p as nat, d as nat);
            }
            lemma_cadd_csub_zero(buf[p], frac);
            // p is in the lower half of its block; whether it lies in the
            // first block decides between `one` and zero.
            lemma_fundamental_div_mod(p, d);
            assert(p < d <==> p / d == 0) by (nonlinear_arith)
                requires
                    p == d * (p / d) + p % d,
                    0 <= p % d < d,
                    d > 0,
                    p >= 0,
            ;
            if p < d {
                assert(p == pos);
            } else {
                assert(p >= d);
                assert(p >= s);
            }
        } else {
            lemma_fundamental_div_mod(p, d);
            assert(p >= pos) by (nonlinear_arith)
                requires
                    p == d * (p / d) + p % d,
                    pos == p % d,
                    0 <= p % d,
                    d > 0,
                    p >= 0,
            ;
            lemma_cmul_bits_zero(tw[(pos - s) * (buf.len() / (2 * s as nat)) * ts]);
            lemma_cadd_csub_zero(buf[p - s], frac);
            assert(p < d <==> p / d == 0) by (nonlinear_arith)
                requires
                    p == d * (p / d) + p % d,
                    0 <= p % d < d,
                    d > 0,
                    p >= 0,
            ;
            if p < d {
                assert(p == pos);
                assert(p - s < s);
            } else {
                assert(p - s >= s) by (nonlinear_arith)
                    requires
                        p >= d,
                        d == 2 * s,
                ;
            }
        }
    }
    assert(apply_stage(buf, tw, s as nat, ts, false, frac) =~= prefix_ones(n, d, one));
}

/// All forward stages up to stride `s` turn an impulse into `s` ones.
proof fn lemma_stages_impulse(n: nat, tw: Seq<(int, int)>, s: int, ts: nat, frac: nat, one: int)
    requires
        is_pow2_size(n),
        is_pow2_size(s as nat),
        s >= 1,
        s <= n,
        0 <= one <= 0x4000_0000,
    ensures
        apply_stages(impulse_bits(n, one), tw, s as nat, ts, false, frac) == prefix_ones(
            n,
            s,
            one,
        ),
    decreases s,
{
    if s <= 1 {
        assert(impulse_bits(n, one) =~= prefix_ones(n, 1, one));
    } else {
        let s2 = s / 2;
        lemma_fundamental_div_mod(s, 2);
        assert(2 * s2 == s);
        lemma_stages_impulse(n, tw, s2, ts, frac, one);
        lemma_pow2_size_divides(s as nat, n);
        lemma_stage_impulse(n, tw, s2, ts, frac, one);
    }
}

/// Impulse response of the forward transform: a unit impulse of any
/// magnitude up to `2^30` maps to a constant buffer of the same
/// magnitude, exactly, whatever the twiddle table holds. This is the
/// fixed-point engine's exact analogue of the Fourier pair
/// `delta -> all-ones`.
pub proof fn lemma_fft_impulse(n: nat, tw: Seq<(int, int)>, ts: nat, frac: nat, one: int)
    requires
        is_pow2_size(n),
        0 <= one <= 0x4000_0000,
    ensures
        fft_bits(impulse_bits(n, one), tw, ts, false, frac) == const_bits(n, one),
{
    let input = impulse_bits(n, one);
    let m = lg(n);
    crate::tables::lemma_pow2_size_lg(n);
    assert forall|p: int| 0 <= p < n implies bit_rev_perm(input, m)[p] == input[p] by {
        crate::tables::lemma_rev_bits_bound(p as nat, m);
        crate::tables::lemma_rev_bits_zero(m);
        if p != 0 && rev_bits(p as nat, m) == 0 {
            crate::tables::lemma_rev_bits_involution(p as nat, m);
        }
    }
    assert(bit_rev_perm(input, m) =~= input);
    lemma_stages_impulse(n, tw, n as int, ts, frac, one);
    assert(prefix_ones(n, n as int, one) =~= const_bits(n, one));
}

/// One inverse stage doubles the spacing of the spread pattern.
proof fn lemma_stage_flat(n: nat, tw: Seq<(int, int)>, s: int, ts: nat, frac: nat, one: int)
    requires
        is_pow2_size(n),
        is_pow2_size(s as nat),
        s >= 1,
        2 * s <= n,
        (n as int) % (2 * s) == 0,
        0 <= one <= 0x2000_0000,
        tw.len() >= 1,
        tw[0] == (0x7FFF_FFFFint, 0int),
    ensures
        apply_stage(spread_ones(n, s, one), tw, s as nat, ts, true, frac) == spread_ones(
            n,
            2 * s,
            one,
        ),
{
    let buf = spread_ones(n, s, one);
    let d = 2 * s;
    assert forall|p: int| 0 <= p < n implies apply_stage(buf, tw, s as nat, ts, true, frac)[p]
        == spread_ones(n, d, one)[p] by {
        let pos = p % d;
        lemma_mod_bound(p, d);
        lemma_fundamental_div_mod(p, d);
        // Residues modulo `s` follow from the residue modulo `2 s`.
        assert(p % s == pos % s) by {
            let qp = p / d;
            assert(p == s * (2 * qp) + pos) by (nonlinear_arith)
                requires
                    p == d * qp + pos,
                    d == 2 * s,
            ;
            lemma_mod_multiples_vanish(2 * (p / d), pos, s);
        }
        lemma_mod_bound(pos, s);
        lemma_mod_bound(p, s);
        if pos < s {
            lemma_partner_in_bounds(p, s, n as int);
            assert((p + s) % s == p % s) by {
                lemma_fundamental_div_mod(p, s);
                lemma_mod_multiples_vanish((p / s) + 1, p % s, s);
                assert(s * ((p / s) + 1) + p % s == p + s) by (nonlinear_arith)
                    requires
                        p == s * (p / s) + p % s,
                ;
                vstd::arithmetic::div_mod::lemma_mod_twice(p, s);
            }
            if pos == 0 {
                lemma_small_mod(0nat, s as nat);
                assert(buf[p] == (one, 0int));
                assert(buf[p + s] == (one, 0int));
                lemma_flat_butterfly(one, frac);
                assert(stage_elem(buf, tw, s as nat, ts, true, frac, p) == butterfly_pair(
                    (one, 0),
                    (one, 0),
                    tw[0],
                    true,
                    frac,
                ).0) by {
                    assert(pos * (buf.len() / (2 * s as nat)) * ts == 0) by (nonlinear_arith)
                        requires
                            pos == 0,
                    ;
                }
            } else {
                assert(buf[p].0 == 0 && buf[p].1 == 0) by {
                    lemma_small_mod(pos as nat, s as nat);
                }
                assert(buf[p + s] == (0int, 0int));
                lemma_cmul_bits_zero(conj_bits(tw[pos * (buf.len() / (2 * s as nat)) * ts]));
                lemma_cadd_csub_zero((0, 0), frac);
                lemma_div_basics_1(2);
            }
        } else {
            assert((p - s) % s == p % s) by {
                lemma_fundamental_div_mod(p, s);
                lemma_mod_multiples_vanish((p / s) - 1, p % s, s);
                assert(s * ((p / s) - 1) + p % s == p - s) by (nonlinear_arith)
                    requires
                        p == s * (p / s) + p % s,
                ;
                vstd::arithmetic::div_mod::lemma_mod_twice(p, s);
            }
            if pos == s {
                assert(pos % s == 0) by {
                    vstd::arithmetic::div_mod::lemma_mod_self_0(s);
                }
                assert(buf[p - s] == (one, 0int));
                assert(buf[p] == (one, 0int));
                lemma_flat_butterfly(one, frac);
                assert(stage_elem(buf, tw, s as nat, ts, true, frac, p) == butterfly_pair(
                    (one, 0),
                    (one, 0),
                    tw[0],
                    true,
                    frac,
                ).1) by {
                    assert((pos - s) * (buf.len() / (2 * s as nat)) * ts == 0) by (nonlinear_arith)
                        requires
                            pos == s,
                    ;
                }
                assert(p % d != 0);
            } else {
                assert(pos % s != 0) by {
                    lemma_small_mod((pos - s) as nat, s as nat);
                    lemma_fundamental_div_mod(pos, s);
                    assert(pos == s * 1 + (pos - s)) by (nonlinear_arith);
                    lemma_mod_multiples_vanish(1, pos - s, s);
                }
                assert(buf[p - s] == (0int, 0int));
                assert(buf[p] == (0int, 0int));
                lemma_cmul_bits_zero(conj_bits(tw[(pos - s) * (buf.len() / (2 * s as nat)) * ts]));
                lemma_cadd_csub_zero((0, 0), frac);
                lemma_div_basics_1(2);
                assert(p % d != 0);
            }
        }
    }
    assert(apply_stage(buf, tw, s as nat, ts, true, frac) =~= spread_ones(n, d, one));
}

/// The inverse butterfly of two equal ones against the near-one twiddle:
/// the sum halves back to `one`, the difference vanishes.
proof fn lemma_flat_butterfly(one: int, frac: nat)
    requires
        0 <= one <= 0x2000_0000,
    ensures
        butterfly_pair((one, 0int), (one, 0int), (0x7FFF_FFFFint, 0int), true, frac) == (
            (one, 0int),
            (0int, 0int),
        ),
{
    lemma2_to64();
    assert(conj_bits((0x7FFF_FFFFint, 0int)) == (0x7FFF_FFFFint, 0int));
    lemma_mul_bits_near_one(one);
    lemma_mul_bits_zero(0x7FFF_FFFF);
    lemma_mul_bits_zero(0);
    assert(mul_bits(one, 0, 31) == 0) by {
        assert(one * 0 == 0) by (nonlinear_arith);
        lemma_basic_div(pow2i(30), pow2i(31));
        lemma_wrap32_in_range(0);
    }
    let t = cmul_bits((one, 0), (0x7FFF_FFFF, 0), 31);
    assert(t == (one, 0int)) by {
        lemma_wrap32_in_range(one);
        lemma_wrap32_in_range(0);
    }
    lemma_cvt_bits_identity(one, frac);
    lemma_cvt_bits_identity(0, frac);
    lemma_wrap32_in_range(2 * one);
    lemma_wrap32_in_range(0);
    assert((2 * one) / 2 == one) by {
        lemma_div_multiples_vanish(one, 2);
    }
    lemma_div_basics_1(2);
}

/// All inverse stages up to stride `s` spread a constant buffer out to
/// ones every `s` positions, halving at each stage.
proof fn lemma_stages_flat(n: nat, tw: Seq<(int, int)>, s: int, ts: nat, frac: nat, one: int)
    requires
        is_pow2_size(n),
        is_pow2_size(s as nat),
        s >= 1,
        s <= n,
        0 <= one <= 0x2000_0000,
        tw.len() >= 1,
        tw[0] == (0x7FFF_FFFFint, 0int),
    ensures
        apply_stages(const_bits(n, one), tw, s as nat, ts, true, frac) == spread_ones(
            n,
            s,
            one,
        ),
    decreases s,
{
    if s <= 1 {
        assert forall|p: int| 0 <= p < n implies const_bits(n, one)[p] == spread_ones(
            n,
            1,
            one,
        )[p] by {
            lemma_mod_bound(p, 1);
        }
        assert(const_bits(n, one) =~= spread_ones(n, 1, one));
    } else {
        let s2 = s / 2;
        lemma_fundamental_div_mod(s, 2);
        assert(2 * s2 == s);
        lemma_stages_flat(n, tw, s2, ts, frac, one);
        lemma_pow2_size_divides(s as nat, n);
        lemma_stage_flat(n, tw, s2, ts, frac, one);
    }
}

/// Inverse of a constant buffer: with the twiddle table's first entry at
/// its ideal value, a buffer of `one`s maps back to the unit impulse,
/// exactly, the per-stage halving absorbing the `1/N` normalization. The
/// magnitude must leave one bit of headroom for the intermediate sum.
pub proof fn lemma_ifft_flat(n: nat, tw: Seq<(int, int)>, ts: nat, frac: nat, one: int)
    requires
        is_pow2_size(n),
        0 <= one <= 0x2000_0000,
        tw.len() >= 1,
        tw[0] == (0x7FFF_FFFFint, 0int),
    ensures
        fft_bits(const_bits(n, one), tw, ts, true, frac) == impulse_bits(n, one),
{
    let input = const_bits(n, one);
    let m = lg(n);
    crate::tables::lemma_pow2_size_lg(n);
    assert forall|p: int| 0 <= p < n implies bit_rev_perm(input, m)[p] == input[p] by {
        crate::tables::lemma_rev_bits_bound(p as nat, m);
    }
    assert(bit_rev_perm(input, m) =~= input);
    lemma_stages_flat(n, tw, n as int, ts, frac, one);
    assert forall|p: int| 0 <= p < n implies spread_ones(n, n as int, one)[p] == impulse_bits(
        n,
        one,
    )[p] by {
        if p == 0 {
            lemma_small_mod(0nat, n);
        } else {
            lemma_small_mod(p as nat, n);
        }
    }
    assert(spread_ones(n, n as int, one) =~= impulse_bits(n, one));
}

/// Round trip on an impulse: the forward transform of a unit impulse
/// followed by the inverse transform restores the impulse exactly, for
/// any power-of-two length and any magnitude with one bit of headroom.
pub proof fn lemma_impulse_roundtrip(n: nat, tw: Seq<(int, int)>, ts: nat, frac: nat, one: int)
    requires
        is_pow2_size(n),
        0 <= one <= 0x2000_0000,
        tw.len() >= 1,
        tw[0] == (0x7FFF_FFFFint, 0int),
    ensures
        fft_bits(
            fft_bits(impulse_bits(n, one), tw, ts, false, frac),
            tw,
            ts,
            true,
            frac,
        ) == impulse_bits(n, one),
{
    lemma_fft_impulse(n, tw, ts, frac, one);
    lemma_ifft_flat(n, tw, ts, frac, one);
}

/// Mixed-precision addition error: rescaling the finer right operand
/// truncates, so the sum at the left operand's scale lies within one unit
/// of that scale below the exact rational sum. Measured at the finer
/// scale: `0 <= (b1 * 2^(f2-f1) + b2) - r * 2^(f2-f1) < 2^(f2-f1)`.
pub proof fn lemma_mixed_precision_add(b1: int, b2: int, f1: nat, f2: nat)
    requires
        f1 <= f2,
        -0x8000_0000 <= b1 < 0x8000_0000,
        -0x8000_0000 <= b2 < 0x8000_0000,
        -0x8000_0000 <= b1 + b2 / pow2i((f2 - f1) as nat) < 0x8000_0000,
    ensures
        ({
            let d = pow2i((f2 - f1) as nat);
            let r = add_bits(b1, f1, b2, f2);
            0 <= (b1 * d + b2) - r * d < d
        }),
{
    let k = (f2 - f1) as nat;
    let d = pow2i(k);
    lemma_pow2_pos(k);
    let c = b2 / d;
    if f1 == f2 {
        lemma_cvt_bits_identity(b2, f2);
        lemma2_to64();
        assert(cvt_bits(b2, f2, f1) == c) by {
            lemma_div_basics_1(1);
            vstd::arithmetic::div_mod::lemma_div_basics_2(b2);
        }
    }
    assert(cvt_bits(b2, f2, f1) == c);
    let r = add_bits(b1, f1, b2, f2);
    lemma_wrap32_in_range(b1 + c);
    assert(r == b1 + c);
    lemma_fundamental_div_mod(b2, d);
    lemma_mod_bound(b2, d);
    assert((b1 * d + b2) - r * d == b2 % d) by (nonlinear_arith)
        requires
            r == b1 + c,
            b2 == d * c + b2 % d,
    ;
}

} // verus!
