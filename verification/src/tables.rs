use vstd::arithmetic::div_mod::{
    lemma_fundamental_div_mod, lemma_fundamental_div_mod_converse_div,
    lemma_hoist_over_denominator, lemma_mod_multiples_vanish,
};
use vstd::arithmetic::power2::{lemma2_to64, lemma_pow2_pos, lemma_pow2_unfold, pow2};
use vstd::prelude::*;

verus! {

/// The base-two logarithm, rounded down.
pub open spec fn lg(n: nat) -> nat
    decreases n,
{
    if n <= 1 {
        0
    } else {
        1 + lg(n / 2)
    }
}

/// True exactly of the powers of two (1, 2, 4, ...).
pub open spec fn is_pow2_size(n: nat) -> bool
    decreases n,
{
    if n == 0 {
        false
    } else if n == 1 {
        true
    } else {
        n % 2 == 0 && is_pow2_size(n / 2)
    }
}

/// The value of index `i` read as an `m`-bit number with its bits in
/// reverse order.
pub open spec fn rev_bits(i: nat, m: nat) -> nat
    decreases m,
{
    if m == 0 {
        0
    } else {
        (i % 2) * pow2((m - 1) as nat) + rev_bits(i / 2, (m - 1) as nat)
    }
}

/// The carry propagation performed by the table generator when it steps
/// from one reversed index to the next: strip set bits downward from the
/// top, then set the first clear one.
pub open spec fn carry_step(j: nat, k: nat) -> nat
    decreases k,
{
    if k == 0 {
        j
    } else if j >= k {
        carry_step((j - k) as nat, k / 2)
    } else {
        j + k
    }
}

pub proof fn lemma_pow2_size_lg(n: nat)
    requires
        is_pow2_size(n),
    ensures
        pow2(lg(n)) == n,
        n >= 2 ==> lg(n) >= 1 && lg(n) == 1 + lg(n / 2) && pow2((lg(n) - 1) as nat) == n / 2,
    decreases n,
{
    lemma2_to64();
    if n >= 2 {
        lemma_pow2_size_lg(n / 2);
        lemma_pow2_unfold(lg(n));
        lemma_fundamental_div_mod(n as int, 2);
    }
}

pub proof fn lemma_rev_bits_zero(m: nat)
    ensures
        rev_bits(0, m) == 0,
    decreases m,
{
    if m > 0 {
        let m1 = (m - 1) as nat;
        assert(0nat % 2 == 0) by {
            vstd::arithmetic::div_mod::lemma_small_mod(0nat, 2nat);
        }
        assert(0nat / 2 == 0) by {
            vstd::arithmetic::div_mod::lemma_div_basics_1(2);
        }
        lemma_rev_bits_zero(m1);
        assert(rev_bits(0, m) == (0nat % 2) * pow2(m1) + rev_bits(0nat / 2, m1));
        assert((0nat % 2) * pow2(m1) == 0);
    }
}

pub proof fn lemma_rev_bits_bound(i: nat, m: nat)
    requires
        i < pow2(m),
    ensures
        rev_bits(i, m) < pow2(m),
    decreases m,
{
    lemma2_to64();
    if m > 0 {
        let m1 = (m - 1) as nat;
        lemma_pow2_unfold(m);
        assert(i / 2 < pow2(m1)) by {
            lemma_fundamental_div_mod(i as int, 2);
        }
        lemma_rev_bits_bound(i / 2, m1);
        assert((i % 2) * pow2(m1) <= pow2(m1)) by (nonlinear_arith)
            requires
                i % 2 <= 1,
                pow2(m1) >= 0,
        ;
    }
}

/// Reversal peels the top bit of the input into the bottom bit of the
/// result.
pub proof fn lemma_rev_bits_msb(c: nat, r: nat, m: nat)
    requires
        m >= 1,
        c <= 1,
        r < pow2((m - 1) as nat),
    ensures
        rev_bits(c * pow2((m - 1) as nat) + r, m) == 2 * rev_bits(r, (m - 1) as nat) + c,
    decreases m,
{
    lemma2_to64();
    let m1 = (m - 1) as nat;
    if m == 1 {
        assert(r == 0);
        assert(c * pow2(0) + 0 == c);
        if c == 0 {
            lemma_rev_bits_zero(1);
        } else {
            assert(rev_bits(1, 1) == (1nat % 2) * pow2(0) + rev_bits(0, 0));
        }
    } else {
        let m2 = (m - 2) as nat;
        lemma_pow2_unfold(m1);
        let x = c * pow2(m1) + r;
        let kk = c * pow2(m2);
        assert(c * pow2(m1) == 2 * kk) by (nonlinear_arith)
            requires
                pow2(m1) == 2 * pow2(m2),
                kk == c * pow2(m2),
        ;
        assert(x == kk * 2 + r) by (nonlinear_arith)
            requires
                x == 2 * kk + r,
        ;
        assert(x % 2 == r % 2) by {
            lemma_mod_multiples_vanish(kk as int, r as int, 2);
        }
        assert(x / 2 == kk + r / 2) by {
            lemma_hoist_over_denominator(r as int, kk as int, 2);
        }
        assert(r / 2 < pow2(m2)) by {
            lemma_fundamental_div_mod(r as int, 2);
        }
        lemma_rev_bits_msb(c, r / 2, m1);
        assert(rev_bits(x, m) == (x % 2) * pow2(m1) + rev_bits(kk + r / 2, m1));
        assert(rev_bits(kk + r / 2, m1) == 2 * rev_bits(r / 2, m2) + c);
        assert(rev_bits(r, m1) == (r % 2) * pow2(m2) + rev_bits(r / 2, m2));
        assert((r % 2) * pow2(m1) == 2 * ((r % 2) * pow2(m2))) by (nonlinear_arith)
            requires
                pow2(m1) == 2 * pow2(m2),
        ;
    }
}

/// Reversing twice restores the index.
pub proof fn lemma_rev_bits_involution(i: nat, m: nat)
    requires
        i < pow2(m),
    ensures
        rev_bits(rev_bits(i, m), m) == i,
    decreases m,
{
    lemma2_to64();
    if m == 0 {
        lemma_rev_bits_zero(0);
    } else {
        let m1 = (m - 1) as nat;
        let c = i % 2;
        let q = i / 2;
        lemma_pow2_unfold(m);
        assert(q < pow2(m1)) by {
            lemma_fundamental_div_mod(i as int, 2);
        }
        lemma_rev_bits_bound(q, m1);
        lemma_rev_bits_msb(c, rev_bits(q, m1), m);
        lemma_rev_bits_involution(q, m1);
        lemma_fundamental_div_mod(i as int, 2);
    }
}

/// The all-ones index is a fixed point of reversal.
pub proof fn lemma_rev_bits_all_ones(m: nat)
    ensures
        rev_bits((pow2(m) - 1) as nat, m) == pow2(m) - 1,
    decreases m,
{
    lemma2_to64();
    lemma_pow2_pos(m);
    if m > 0 {
        let m1 = (m - 1) as nat;
        lemma_pow2_unfold(m);
        lemma_pow2_pos(m1);
        let x = (pow2(m) - 1) as nat;
        assert(x as int == (pow2(m1) - 1) * 2 + 1) by (nonlinear_arith)
            requires
                x == pow2(m) - 1,
                pow2(m) == 2 * pow2(m1),
        ;
        assert(x % 2 == 1 && x / 2 == pow2(m1) - 1) by {
            lemma_fundamental_div_mod_converse_div(x as int, 2, pow2(m1) - 1, 1);
            vstd::arithmetic::div_mod::lemma_fundamental_div_mod_converse_mod(
                x as int,
                2,
                pow2(m1) - 1,
                1,
            );
        }
        lemma_rev_bits_all_ones(m1);
    }
}

/// Carry propagation starting at the top bit turns the reversal of `i`
/// into the reversal of `i + 1`.
pub proof fn lemma_rev_increment(i: nat, m: nat)
    requires
        m >= 1,
        i + 1 < pow2(m),
    ensures
        carry_step(rev_bits(i, m), pow2((m - 1) as nat)) == rev_bits(i + 1, m),
    decreases m,
{
    lemma2_to64();
    let m1 = (m - 1) as nat;
    let k = pow2(m1);
    lemma_pow2_pos(m1);
    lemma_pow2_unfold(m);
    let q = i / 2;
    lemma_fundamental_div_mod(i as int, 2);
    assert(q < pow2(m1));
    lemma_rev_bits_bound(q, m1);
    if i % 2 == 0 {
        lemma_rev_bits_zero(m1);
        assert(rev_bits(i, m) == rev_bits(q, m1));
        assert(rev_bits(i, m) < k);
        assert(carry_step(rev_bits(i, m), k) == rev_bits(i, m) + k);
        assert((i + 1) % 2 == 1 && (i + 1) / 2 == q) by {
            lemma_fundamental_div_mod_converse_div(i as int + 1, 2, q as int, 1);
            vstd::arithmetic::div_mod::lemma_fundamental_div_mod_converse_mod(
                i as int + 1,
                2,
                q as int,
                1,
            );
        }
        assert(rev_bits(i + 1, m) == pow2(m1) + rev_bits(q, m1));
    } else {
        // A trailing one carries; the loop strips the top bit and recurses
        // one level down.
        assert(m >= 2) by {
            if m == 1 {
                assert(pow2(1) == 2);
            }
        }
        let m2 = (m - 2) as nat;
        lemma_pow2_unfold(m1);
        assert(rev_bits(i, m) == k + rev_bits(q, m1));
        assert(carry_step(rev_bits(i, m), k) == carry_step(rev_bits(q, m1), pow2(m2)));
        assert(q + 1 < pow2(m1)) by {
            assert(i as int == 2 * q + 1);
        }
        lemma_rev_increment(q, m1);
        assert((i + 1) % 2 == 0 && (i + 1) / 2 == q + 1) by {
            lemma_fundamental_div_mod_converse_div(i as int + 1, 2, q as int + 1, 0);
            vstd::arithmetic::div_mod::lemma_fundamental_div_mod_converse_mod(
                i as int + 1,
                2,
                q as int + 1,
                0,
            );
        }
        lemma_rev_bits_zero(0);
        assert(rev_bits(i + 1, m) == rev_bits(q + 1, m1));
    }
}

/// Checks whether `n` is a power of two.
pub(crate) fn check_pow2(n: usize) -> (b: bool)
    ensures
        b == is_pow2_size(n as nat),
{
    if n == 0 {
        return false;
    }
    let mut m: usize = n;
    while m > 1
        invariant
            m >= 1,
            is_pow2_size(n as nat) == is_pow2_size(m as nat),
        decreases m,
    {
        if m % 2 != 0 {
            return false;
        }
        m = m / 2;
    }
    true
}

/// Fills the first `n` entries of the table with the bit-reversal
/// permutation for a transform of power-of-two size `n`; entries past `n`
/// are left as they were.
pub fn precompute_bitrev(bitrev: &mut Vec<usize>, n: usize)
    requires
        is_pow2_size(n as nat),
        old(bitrev).len() >= n,
    ensures
        final(bitrev).len() == old(bitrev).len(),
        forall|p: int|
            0 <= p < n ==> #[trigger] final(bitrev)@[p] == rev_bits(p as nat, lg(n as nat)),
        forall|p: int|
            n <= p < final(bitrev).len() ==> final(bitrev)@[p] == old(bitrev)@[p],
{
    let ghost m = lg(n as nat);
    proof {
        lemma_pow2_size_lg(n as nat);
        lemma_rev_bits_zero(m);
    }
    bitrev.set(0, 0);
    let mut j: usize = 0;
    let mut i: usize = 1;
    while i < n
        invariant
            1 <= i,
            i <= n,
            n == pow2(m),
            n >= 2 ==> pow2((m - 1) as nat) == n / 2 && m >= 1,
            is_pow2_size(n as nat),
            bitrev.len() == old(bitrev).len(),
            old(bitrev).len() >= n,
            j == rev_bits((i - 1) as nat, m),
            bitrev@[0] == 0,
            forall|p: int| 0 <= p < i ==> #[trigger] bitrev@[p] == rev_bits(p as nat, m),
            forall|p: int|
                i <= p < bitrev.len() && p >= n ==> bitrev@[p] == old(bitrev)@[p],
            forall|p: int| n <= p < bitrev.len() ==> bitrev@[p] == old(bitrev)@[p],
        decreases n - i,
    {
        proof {
            lemma_pow2_size_lg(n as nat);
            // The running index is never the all-ones pattern, so the carry
            // chain below stops before exhausting the bit positions.
            lemma_rev_bits_bound((i - 1) as nat, m);
            if j == n - 1 {
                lemma_rev_bits_involution((i - 1) as nat, m);
                lemma_rev_bits_all_ones(m);
                assert(false);
            }
            lemma_rev_increment((i - 1) as nat, m);
            lemma_fundamental_div_mod(n as int, 2);
        }
        let mut k: usize = n / 2;
        while j >= k
            invariant
                k >= 1,
                k <= n / 2,
                is_pow2_size(k as nat),
                j <= 2 * k - 2,
                carry_step(j as nat, k as nat) == rev_bits(i as nat, m),
            decreases k,
        {
            j = j - k;
            k = k / 2;
        }
        j = j + k;
        proof {
            lemma_rev_bits_bound(i as nat, m);
        }
        bitrev.set(i, j);
        i = i + 1;
    }
}

} // verus!
