use crate::complex::{
    cadd_bits, chalf_bits, cmul_bits, conj_bits, csub_bits, ComplexFixed,
};
use crate::tables::{is_pow2_size, lg, rev_bits};
use vstd::arithmetic::div_mod::{
    lemma_fundamental_div_mod, lemma_mod_multiples_vanish, lemma_small_mod,
};
use vstd::arithmetic::power2::{lemma2_to64, lemma_pow2_adds, lemma_pow2_strictly_increases, pow2};
use vstd::prelude::*;

verus! {

/// The raw stores of a buffer of complex values, as pairs of integers.
pub open spec fn cbits<const FRAC: u32>(s: Seq<ComplexFixed<FRAC>>) -> Seq<(int, int)> {
    Seq::new(s.len(), |p: int| s[p].bits())
}

/// One butterfly: `t = b * w` (conjugating `w` for the inverse direction),
/// then the pair `(a + t, a - t)`, each halved in the inverse direction to
/// spread the `1/N` normalization over the stages.
pub open spec fn butterfly_pair(
    a: (int, int),
    b: (int, int),
    w: (int, int),
    inv: bool,
    frac: nat,
) -> ((int, int), (int, int)) {
    let wd = if inv {
        conj_bits(w)
    } else {
        w
    };
    let t = cmul_bits(b, wd, 31);
    let v1 = cadd_bits(a, frac, t, frac);
    let v2 = csub_bits(a, frac, t, frac);
    if inv {
        (chalf_bits(v1), chalf_bits(v2))
    } else {
        (v1, v2)
    }
}

/// The element at position `p` after the stage with stride `s`: positions
/// pair up as `(q, q + s)` inside blocks of `2 s`, and the twiddle for
/// offset `i` is entry `i * (n / (2 s)) * ts` of the table.
pub open spec fn stage_elem(
    buf: Seq<(int, int)>,
    tw: Seq<(int, int)>,
    s: nat,
    ts: nat,
    inv: bool,
    frac: nat,
    p: int,
) -> (int, int) {
    let step = buf.len() / (2 * s);
    let pos = p % (2 * s as int);
    if pos < s {
        butterfly_pair(buf[p], buf[p + s], tw[pos * step * ts], inv, frac).0
    } else {
        butterfly_pair(buf[p - s], buf[p], tw[(pos - s) * step * ts], inv, frac).1
    }
}

/// A whole butterfly stage, applied to every position.
pub open spec fn apply_stage(
    buf: Seq<(int, int)>,
    tw: Seq<(int, int)>,
    s: nat,
    ts: nat,
    inv: bool,
    frac: nat,
) -> Seq<(int, int)> {
    Seq::new(buf.len(), |p: int| stage_elem(buf, tw, s, ts, inv, frac, p))
}

/// All stages with strides `1, 2, ..., s/2`, in order.
pub open spec fn apply_stages(
    buf: Seq<(int, int)>,
    tw: Seq<(int, int)>,
    s: nat,
    ts: nat,
    inv: bool,
    frac: nat,
) -> Seq<(int, int)>
    decreases s,
{
    if s <= 1 {
        buf
    } else {
        apply_stage(apply_stages(buf, tw, s / 2, ts, inv, frac), tw, s / 2, ts, inv, frac)
    }
}

/// The buffer reordered by the bit-reversal permutation on `m`-bit
/// indices.
pub open spec fn bit_rev_perm(buf: Seq<(int, int)>, m: nat) -> Seq<(int, int)> {
    Seq::new(buf.len(), |p: int| buf[rev_bits(p as nat, m) as int])
}

/// The radix-2 decimation-in-time transform on raw stores: bit-reversal
/// permutation followed by the `log2(n)` butterfly stages.
pub open spec fn fft_bits(
    input: Seq<(int, int)>,
    tw: Seq<(int, int)>,
    ts: nat,
    inv: bool,
    frac: nat,
) -> Seq<(int, int)> {
    apply_stages(bit_rev_perm(input, lg(input.len())), tw, input.len(), ts, inv, frac)
}

/// True once the swap pass has already exchanged position `p` with its
/// bit-reversed partner, given that indices below `i` have been visited.
pub open spec fn perm_done(p: int, i: int, m: nat) -> bool {
    let r = rev_bits(p as nat, m) as int;
    r != p && (if p < r {
        p
    } else {
        r
    }) < i
}

/// The buffer after the swap pass has visited indices below `i`.
pub open spec fn perm_partial(input: Seq<(int, int)>, i: int, m: nat) -> Seq<(int, int)> {
    Seq::new(
        input.len(),
        |p: int|
            if perm_done(p, i, m) {
                input[rev_bits(p as nat, m) as int]
            } else {
                input[p]
            },
    )
}

/// Divisibility among powers of two.
pub proof fn lemma_pow2_size_divides(a: nat, b: nat)
    requires
        is_pow2_size(a),
        is_pow2_size(b),
        a <= b,
    ensures
        b % a == 0,
        a < b ==> 2 * a <= b && (b as int) % (2 * a as int) == 0,
{
    crate::tables::lemma_pow2_size_lg(a);
    crate::tables::lemma_pow2_size_lg(b);
    let ea = lg(a);
    let eb = lg(b);
    if eb < ea {
        lemma_pow2_strictly_increases(eb, ea);
        assert(false);
    }
    lemma_pow2_adds(ea, (eb - ea) as nat);
    assert(b == a * pow2((eb - ea) as nat));
    vstd::arithmetic::div_mod::lemma_mod_multiples_basic(pow2((eb - ea) as nat) as int, a as int);
    assert((pow2((eb - ea) as nat) * a) as int % (a as int) == 0);
    assert(a * pow2((eb - ea) as nat) == pow2((eb - ea) as nat) * a) by (nonlinear_arith);
    if a < b {
        if ea == eb {
            assert(false);
        }
        lemma2_to64();
        lemma_pow2_adds(ea + 1, (eb - ea - 1) as nat);
        assert(pow2(ea + 1) == 2 * a) by {
            lemma_pow2_adds(ea, 1);
            assert(pow2(1) == 2);
            assert(a * 2 == 2 * a);
        }
        assert(b == (2 * a) * pow2((eb - ea - 1) as nat));
        vstd::arithmetic::div_mod::lemma_mod_multiples_basic(
            pow2((eb - ea - 1) as nat) as int,
            (2 * a) as int,
        );
        assert((2 * a) * pow2((eb - ea - 1) as nat) == pow2((eb - ea - 1) as nat) * (2 * a))
            by (nonlinear_arith);
        if 2 * a > b {
            assert(pow2((eb - ea - 1) as nat) >= 1) by {
                vstd::arithmetic::power2::lemma_pow2_pos((eb - ea - 1) as nat);
            }
            assert(false) by (nonlinear_arith)
                requires
                    b == (2 * a) * pow2((eb - ea - 1) as nat),
                    pow2((eb - ea - 1) as nat) >= 1,
                    2 * a > b,
                    a >= 1,
            ;
        }
    }
}

/// In-place radix-2 decimation-in-time transform of `buffer`, which must
/// hold a power-of-two number of complex values. `twiddles` is read with
/// the given stride, so a finer table can serve a smaller transform;
/// `bitrev` must hold the bit-reversal permutation for the buffer length.
pub fn radix_2_dit_fft_core<const FRAC: u32, const INVERSE: bool>(
    buffer: &mut Vec<ComplexFixed<FRAC>>,
    twiddles: &Vec<ComplexFixed<31>>,
    bitrev: &Vec<usize>,
    twiddle_stride: usize,
)
    requires
        FRAC <= 31,
        is_pow2_size(old(buffer)@.len()),
        bitrev@.len() >= old(buffer)@.len(),
        forall|p: int|
            0 <= p < old(buffer)@.len() ==> #[trigger] bitrev@[p] == rev_bits(
                p as nat,
                lg(old(buffer)@.len()),
            ),
        twiddle_stride >= 1,
        old(buffer)@.len() >= 2 ==> (old(buffer)@.len() / 2 - 1) * twiddle_stride
            < twiddles@.len(),
    ensures
        final(buffer)@.len() == old(buffer)@.len(),
        cbits(final(buffer)@) == fft_bits(
            cbits(old(buffer)@),
            cbits(twiddles@),
            twiddle_stride as nat,
            INVERSE,
            FRAC as nat,
        ),
{
    let n = buffer.len();
    let _tw_count = twiddles.len();
    let ghost m = lg(n as nat);
    let ghost input = cbits(old(buffer)@);
    let ghost tw = cbits(twiddles@);
    let ghost ts = twiddle_stride as nat;
    proof {
        crate::tables::lemma_pow2_size_lg(n as nat);
    }

    // Bit-reversal permutation: each out-of-place pair is swapped exactly
    // once, when the loop reaches its smaller index.
    proof {
        assert forall|p: int| 0 <= p < n implies cbits(buffer@)[p] == perm_partial(
            input,
            1,
            m,
        )[p] by {
            if rev_bits(p as nat, m) as int != p {
                crate::tables::lemma_rev_bits_zero(m);
                if rev_bits(p as nat, m) == 0 {
                    crate::tables::lemma_rev_bits_involution(p as nat, m);
                }
            }
        }
        assert(cbits(buffer@) =~= perm_partial(input, 1, m));
    }
    let mut i: usize = 1;
    while i + 1 < n
        invariant
            1 <= i,
            n >= 2 ==> i <= n - 1,
            n < 2 ==> i == 1,
            n == pow2(m),
            is_pow2_size(n as nat),
            buffer@.len() == n,
            input.len() == n,
            bitrev@.len() >= n,
            forall|p: int|
                0 <= p < n ==> #[trigger] bitrev@[p] == rev_bits(p as nat, m),
            cbits(buffer@) == perm_partial(input, i as int, m),
        decreases n - i,
    {
        let r = bitrev[i];
        proof {
            lemma_rev_lt(i as nat, m);
            crate::tables::lemma_rev_bits_involution(i as nat, m);
        }
        let ghost before = cbits(buffer@);
        if i < r {
            let a = buffer[i];
            let b = buffer[r];
            buffer.set(i, b);
            buffer.set(r, a);
            proof {
                assert forall|p: int| 0 <= p < n implies cbits(buffer@)[p] == perm_partial(
                    input,
                    i as int + 1,
                    m,
                )[p] by {
                    lemma_perm_step(p, i as int, r as int, m);
                    assert(before[p] == perm_partial(input, i as int, m)[p]);
                    if p == i as int {
                        assert(cbits(buffer@)[p] == b.bits());
                        assert(b.bits() == before[r as int]);
                        assert(!perm_done(r as int, i as int, m));
                    } else if p == r as int {
                        assert(cbits(buffer@)[p] == a.bits());
                        assert(a.bits() == before[i as int]);
                        assert(!perm_done(i as int, i as int, m));
                    } else {
                        assert(cbits(buffer@)[p] == before[p]);
                    }
                }
                assert(cbits(buffer@) =~= perm_partial(input, i as int + 1, m));
            }
        } else {
            proof {
                assert forall|p: int| 0 <= p < n implies cbits(buffer@)[p] == perm_partial(
                    input,
                    i as int + 1,
                    m,
                )[p] by {
                    lemma_perm_step_noop(p, i as int, r as int, m);
                    assert(before[p] == perm_partial(input, i as int, m)[p]);
                }
                assert(cbits(buffer@) =~= perm_partial(input, i as int + 1, m));
            }
        }
        i = i + 1;
    }
    proof {
        assert forall|p: int| 0 <= p < n implies cbits(buffer@)[p] == bit_rev_perm(input, m)[p] by {
            lemma_rev_lt(p as nat, m);
            let r = rev_bits(p as nat, m) as int;
            assert(cbits(buffer@)[p] == perm_partial(input, i as int, m)[p]);
            if r == p {
            } else if n >= 2 {
                crate::tables::lemma_rev_bits_involution(p as nat, m);
                if p == n - 1 {
                    crate::tables::lemma_rev_bits_all_ones(m);
                }
                if r == n - 1 {
                    crate::tables::lemma_rev_bits_all_ones(m);
                    assert(rev_bits((n - 1) as nat, m) == n - 1);
                    assert(p == n - 1);
                }
                assert(perm_done(p, (n - 1) as int, m));
            }
        }
        assert(cbits(buffer@) =~= bit_rev_perm(input, m));
    }

    // Butterfly stages, doubling the stride until it covers the buffer.
    let ghost start = cbits(buffer@);
    let mut stride: usize = 1;
    let mut tw_index: usize = n / 2;
    while stride < n
        invariant
            FRAC <= 31,
            1 <= stride,
            stride <= n,
            n == pow2(m),
            is_pow2_size(n as nat),
            is_pow2_size(stride as nat),
            twiddle_stride >= 1,
            ts == twiddle_stride as nat,
            tw == cbits(twiddles@),
            twiddles@.len() <= usize::MAX,
            n >= 2 ==> (n as int / 2 - 1) * (twiddle_stride as int) < twiddles@.len(),
            stride < n ==> tw_index as int == n as int / (2 * stride as int),
            buffer@.len() == n,
            start.len() == n,
            cbits(buffer@) == apply_stages(start, tw, stride as nat, ts, INVERSE, FRAC as nat),
        decreases n - stride,
    {
        proof {
            lemma_pow2_size_divides(stride as nat, n as nat);
        }
        let ghost stage_in = cbits(buffer@);
        let ghost target = apply_stage(stage_in, tw, stride as nat, ts, INVERSE, FRAC as nat);
        proof {
            lemma_small_mod(0nat, (2 * stride) as nat);
        }
        let mut j: usize = 0;
        while j < n - stride
            invariant
                FRAC <= 31,
                1 <= stride < n,
                n == pow2(m),
                twiddle_stride >= 1,
                ts == twiddle_stride as nat,
                tw == cbits(twiddles@),
                twiddles@.len() <= usize::MAX,
                (n as int / 2 - 1) * (twiddle_stride as int) < twiddles@.len(),
                tw_index as int == n as int / (2 * stride as int),
                (n as int) % (2 * stride as int) == 0,
                (j as int) % (2 * stride as int) == 0,
                j <= n,
                buffer@.len() == n,
                stage_in.len() == n,
                target == apply_stage(stage_in, tw, stride as nat, ts, INVERSE, FRAC as nat),
                forall|p: int|
                    0 <= p < n ==> #[trigger] cbits(buffer@)[p] == (if p < j {
                        target[p]
                    } else {
                        stage_in[p]
                    }),
            decreases n - j,
        {
            proof {
                lemma_block_fits(j as int, stride as int, n as int);
            }
            let mut o: usize = 0;
            while o < stride
                invariant
                    FRAC <= 31,
                    1 <= stride < n,
                    o <= stride,
                    j + 2 * stride <= n,
                    (j as int) % (2 * stride as int) == 0,
                    twiddle_stride >= 1,
                    ts == twiddle_stride as nat,
                    tw == cbits(twiddles@),
                    twiddles@.len() <= usize::MAX,
                    (n as int / 2 - 1) * (twiddle_stride as int) < twiddles@.len(),
                    tw_index as int == n as int / (2 * stride as int),
                    (n as int) % (2 * stride as int) == 0,
                    buffer@.len() == n,
                    stage_in.len() == n,
                    target == apply_stage(stage_in, tw, stride as nat, ts, INVERSE, FRAC as nat),
                    forall|p: int|
                        0 <= p < n ==> #[trigger] cbits(buffer@)[p] == (if p < j || (j <= p < j + o)
                            || (j + stride <= p < j + stride + o) {
                            target[p]
                        } else {
                            stage_in[p]
                        }),
                decreases stride - o,
            {
                proof {
                    lemma_twiddle_index_bound(
                        o as int,
                        stride as int,
                        n as int,
                        twiddle_stride as int,
                        twiddles@.len() as int,
                    );
                }
                let widx = o * tw_index * twiddle_stride;
                let w0 = twiddles[widx];
                let w = if INVERSE {
                    w0.conj()
                } else {
                    w0
                };
                let index = j + o;
                let a = buffer[index];
                let b = buffer[index + stride];
                let ghost p1 = index as int;
                let ghost p2 = index as int + stride;
                proof {
                    assert(cbits(buffer@)[p1] == a.bits());
                    assert(cbits(buffer@)[p2] == b.bits());
                    assert(a.bits() == stage_in[p1]);
                    assert(b.bits() == stage_in[p2]);
                    assert(cbits(twiddles@)[widx as int] == w0.bits());
                    assert(w0.bits() == tw[widx as int]);
                }
                let t = b.mul(w);
                let s1 = a.add(t);
                let s2 = a.sub(t);
                let (v1, v2) = if INVERSE {
                    (s1.scale_half(), s2.scale_half())
                } else {
                    (s1, s2)
                };
                proof {
                    let d = (2 * stride) as int;
                    assert(p1 % d == o && p2 % d == o + stride) by {
                        lemma_mod_multiples_vanish(j as int / d, o as int, d);
                        lemma_mod_multiples_vanish(j as int / d, o as int + stride, d);
                        lemma_fundamental_div_mod(j as int, d);
                        lemma_small_mod(o as nat, d as nat);
                        lemma_small_mod((o + stride) as nat, d as nat);
                    }
                    let step = stage_in.len() / ((2 * stride) as nat);
                    assert(step == tw_index);
                    assert(widx as int == (p1 % d) * step * ts);
                    assert((p2 % d) - stride == p1 % d);
                    let pair = butterfly_pair(
                        stage_in[p1],
                        stage_in[p2],
                        tw[widx as int],
                        INVERSE,
                        FRAC as nat,
                    );
                    assert(v1.bits() == pair.0);
                    assert(v2.bits() == pair.1);
                    assert(stage_elem(stage_in, tw, stride as nat, ts, INVERSE, FRAC as nat, p1)
                        == pair.0);
                    assert(stage_elem(stage_in, tw, stride as nat, ts, INVERSE, FRAC as nat, p2)
                        == pair.1);
                    assert(v1.bits() == target[p1]);
                    assert(v2.bits() == target[p2]);
                }
                let ghost prev = cbits(buffer@);
                buffer.set(index, v1);
                buffer.set(index + stride, v2);
                proof {
                    assert forall|p: int|
                        0 <= p < n implies #[trigger] cbits(buffer@)[p] == (if p < j || (j <= p < j
                        + o + 1) || (j + stride <= p < j + stride + o + 1) {
                        target[p]
                    } else {
                        stage_in[p]
                    }) by {
                        assert(prev[p] == (if p < j || (j <= p < j + o) || (j + stride <= p < j
                            + stride + o) {
                            target[p]
                        } else {
                            stage_in[p]
                        }));
                        assert(cbits(buffer@)[p] == (if p == p1 {
                            v1.bits()
                        } else if p == p2 {
                            v2.bits()
                        } else {
                            prev[p]
                        }));
                    }
                }
                o = o + 1;
            }
            let ghost j_prev = j as int;
            j = j + 2 * stride;
            proof {
                let d = 2 * stride as int;
                vstd::arithmetic::div_mod::lemma_mod_add_multiples_vanish(j_prev, d);
            }
        }
        proof {
            // The block index has marched exactly to `n`.
            let d = (2 * stride) as int;
            assert(j == n) by {
                lemma_fundamental_div_mod(j as int, d);
                lemma_fundamental_div_mod(n as int, d);
                let qj = j as int / d;
                let qn = n as int / d;
                assert(j as int == d * qj);
                assert(n as int == d * qn);
                assert(n as int - j as int == (qn - qj) * d) by (nonlinear_arith)
                    requires
                        j as int == d * qj,
                        n as int == d * qn,
                ;
                if qn - qj >= 1 {
                    assert((qn - qj) * d >= d) by (nonlinear_arith)
                        requires
                            qn - qj >= 1,
                            d > 0,
                    ;
                }
                if qn - qj <= -1 {
                    assert((qn - qj) * d <= -d) by (nonlinear_arith)
                        requires
                            qn - qj <= -1,
                            d > 0,
                    ;
                }
            }
            assert(cbits(buffer@) =~= target);
            assert(apply_stages(start, tw, (2 * stride) as nat, ts, INVERSE, FRAC as nat)
                == apply_stage(
                apply_stages(start, tw, stride as nat, ts, INVERSE, FRAC as nat),
                tw,
                stride as nat,
                ts,
                INVERSE,
                FRAC as nat,
            ));
        }
        let ghost old_stride = stride as int;
        stride = stride * 2;
        tw_index = tw_index / 2;
        proof {
            assert(is_pow2_size(stride as nat)) by {
                vstd::arithmetic::div_mod::lemma_div_multiples_vanish(old_stride, 2);
                assert((2 * old_stride) / 2 == old_stride);
                vstd::arithmetic::div_mod::lemma_mod_multiples_basic(old_stride, 2);
                assert((old_stride * 2) % 2 == 0);
                assert(old_stride * 2 == 2 * old_stride) by (nonlinear_arith);
            }
            if stride < n {
                // The twiddle step was n / (2 * old stride); halving it
                // gives n / (2 * stride).
                vstd::arithmetic::div_mod::lemma_div_denominator(n as int, 2 * old_stride, 2);
                assert((2 * old_stride) * 2 == 2 * (stride as int)) by (nonlinear_arith)
                    requires
                        stride as int == 2 * old_stride,
                ;
            }
        }
    }
}

/// Bit reversal keeps indices inside the table.
proof fn lemma_rev_lt(p: nat, m: nat)
    requires
        p < pow2(m),
    ensures
        rev_bits(p, m) < pow2(m),
{
    crate::tables::lemma_rev_bits_bound(p, m);
}

/// After swapping the pair `(i, rev(i))` with `i < rev(i)`, the done-set
/// grows by exactly that pair.
proof fn lemma_perm_step(p: int, i: int, r: int, m: nat)
    requires
        0 <= p < pow2(m),
        0 <= i < pow2(m),
        r == rev_bits(i as nat, m) as int,
        rev_bits(r as nat, m) == i,
        i < r,
    ensures
        perm_done(p, i + 1, m) <==> (perm_done(p, i, m) || p == i || p == r),
{
    if p == i {
    } else if p == r {
    } else {
        if rev_bits(p as nat, m) as int == i {
            crate::tables::lemma_rev_bits_involution(p as nat, m);
            assert(false);
        }
    }
}

/// When `i >= rev(i)` the pass changes nothing: the pair was already
/// swapped (or is a fixed point), so the done-set is unchanged.
proof fn lemma_perm_step_noop(p: int, i: int, r: int, m: nat)
    requires
        0 <= p < pow2(m),
        0 <= i < pow2(m),
        r == rev_bits(i as nat, m) as int,
        rev_bits(r as nat, m) == i,
        i >= r,
    ensures
        perm_done(p, i + 1, m) <==> perm_done(p, i, m),
{
    if p != i && rev_bits(p as nat, m) as int == i {
        crate::tables::lemma_rev_bits_involution(p as nat, m);
        assert(p == r);
    }
}

/// Every complete block starting at a multiple of `2 s` below `n - s` fits
/// inside the buffer.
proof fn lemma_block_fits(j: int, s: int, n: int)
    requires
        s >= 1,
        n % (2 * s) == 0,
        j % (2 * s) == 0,
        0 <= j,
        j < n - s,
    ensures
        j + 2 * s <= n,
{
    let d = 2 * s;
    lemma_fundamental_div_mod(j, d);
    lemma_fundamental_div_mod(n, d);
    let qj = j / d;
    let qn = n / d;
    assert(j == d * qj && n == d * qn);
    assert(n - j == (qn - qj) * d) by (nonlinear_arith)
        requires
            j == d * qj,
            n == d * qn,
    ;
    if qn - qj <= 0 {
        assert((qn - qj) * d <= 0) by (nonlinear_arith)
            requires
                qn - qj <= 0,
                d > 0,
        ;
    } else {
        assert((qn - qj) * d >= d) by (nonlinear_arith)
            requires
                qn - qj >= 1,
                d > 0,
        ;
    }
}

/// The twiddle index `o * (n / (2 s)) * ts` stays below the table length.
proof fn lemma_twiddle_index_bound(o: int, s: int, n: int, ts: int, twlen: int)
    requires
        0 <= o < s,
        1 <= s < n,
        ts >= 1,
        n % (2 * s) == 0,
        (n / 2 - 1) * ts < twlen,
        n >= 2,
    ensures
        o * (n / (2 * s)) * ts < twlen,
        o * (n / (2 * s)) <= n / 2 - 1,
        0 <= o * (n / (2 * s)),
{
    let d = 2 * s;
    let q = n / d;
    assert(n >= d) by {
        if n < d {
            lemma_small_mod(n as nat, d as nat);
        }
    }
    lemma_fundamental_div_mod(n, d);
    assert(n == q * d);
    assert(q >= 1) by (nonlinear_arith)
        requires
            n == q * d,
            n >= d,
            d > 0,
    ;
    assert(q * s == n / 2) by {
        assert(n == (q * s) * 2) by (nonlinear_arith)
            requires
                n == q * (2 * s),
        ;
        vstd::arithmetic::div_mod::lemma_div_multiples_vanish(q * s, 2);
    }
    assert(o * q <= (s - 1) * q && 0 <= o * q) by (nonlinear_arith)
        requires
            0 <= o <= s - 1,
            q >= 0,
    ;
    assert((s - 1) * q == q * s - q) by (nonlinear_arith);
    assert(o * q <= n / 2 - 1);
    assert(o * q * ts <= (n / 2 - 1) * ts) by (nonlinear_arith)
        requires
            0 <= o * q <= n / 2 - 1,
            ts >= 1,
    ;
}

} // verus!
