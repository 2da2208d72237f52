use crate::fixed::{pow2_u64, Fixed};
use vstd::arithmetic::power2::{lemma2_to64, lemma_pow2_pos, lemma_pow2_strictly_increases, pow2};
use vstd::prelude::*;
use vstd::string::StringExecFns;

verus! {

/// Powers of ten, for decimal digit extraction.
pub open spec fn pow10(k: nat) -> nat
    decreases k,
{
    if k == 0 {
        1
    } else {
        10 * pow10((k - 1) as nat)
    }
}

pub proof fn lemma_pow10_values()
    ensures
        pow10(0) == 1,
        pow10(1) == 10,
        pow10(2) == 100,
        pow10(3) == 1000,
        pow10(4) == 10000,
        pow10(5) == 100000,
        pow10(6) == 1000000,
{
    assert(pow10(0) == 1);
    assert(pow10(1) == 10);
    assert(pow10(2) == 100);
    assert(pow10(3) == 1000);
    assert(pow10(4) == 10000);
    assert(pow10(5) == 100000);
    assert(pow10(6) == 1000000);
}

/// The decimal digit character for a value below ten.
pub open spec fn digit_char(d: int) -> char {
    if d == 0 {
        '0'
    } else if d == 1 {
        '1'
    } else if d == 2 {
        '2'
    } else if d == 3 {
        '3'
    } else if d == 4 {
        '4'
    } else if d == 5 {
        '5'
    } else if d == 6 {
        '6'
    } else if d == 7 {
        '7'
    } else if d == 8 {
        '8'
    } else {
        '9'
    }
}

/// The decimal digits of `v`, most significant first, no leading zeros.
pub open spec fn spec_digits(v: nat) -> Seq<char>
    decreases v,
{
    if v < 10 {
        seq![digit_char(v as int)]
    } else {
        spec_digits(v / 10) + seq![digit_char((v % 10) as int)]
    }
}

/// `v` written with exactly six digits, zero-padded on the left.
pub open spec fn spec_pad6(v: nat) -> Seq<char> {
    Seq::new(6, |i: int| digit_char(((v / pow10((5 - i) as nat)) % 10) as int))
}

/// Round `num / den` to the nearest integer, ties to even.
pub open spec fn round_half_even(num: nat, den: nat) -> nat {
    let q = num / den;
    let r = num % den;
    if 2 * r > den {
        q + 1
    } else if 2 * r == den && q % 2 == 1 {
        q + 1
    } else {
        q
    }
}

/// The decimal rendering of a fixed-point store: sign of the store, then
/// the magnitude rounded to six fractional digits (ties to even, matching
/// how the represented binary value prints as a decimal).
pub open spec fn spec_decimal(bits: int, frac: nat) -> Seq<char> {
    let mag = if bits < 0 {
        (-bits) as nat
    } else {
        bits as nat
    };
    let s = round_half_even(mag * 1000000, pow2(frac));
    let sign: Seq<char> = if bits < 0 {
        seq!['-']
    } else {
        Seq::empty()
    };
    sign + spec_digits(s / 1000000) + seq!['.'] + spec_pad6(s % 1000000)
}

/// The single-character string for one decimal digit.
fn digit_str(d: u64) -> (r: &'static str)
    requires
        d < 10,
    ensures
        r@ == seq![digit_char(d as int)],
{
    proof {
        reveal_strlit("0");
        reveal_strlit("1");
        reveal_strlit("2");
        reveal_strlit("3");
        reveal_strlit("4");
        reveal_strlit("5");
        reveal_strlit("6");
        reveal_strlit("7");
        reveal_strlit("8");
        reveal_strlit("9");
    }
    if d == 0 {
        "0"
    } else if d == 1 {
        "1"
    } else if d == 2 {
        "2"
    } else if d == 3 {
        "3"
    } else if d == 4 {
        "4"
    } else if d == 5 {
        "5"
    } else if d == 6 {
        "6"
    } else if d == 7 {
        "7"
    } else if d == 8 {
        "8"
    } else {
        "9"
    }
}

/// The decimal digits of `v` as a string.
fn digits_string(v: u64) -> (r: String)
    ensures
        r@ == spec_digits(v as nat),
    decreases v,
{
    if v < 10 {
        let mut s = String::new();
        s.append(digit_str(v));
        s
    } else {
        let mut s = digits_string(v / 10);
        s.append(digit_str(v % 10));
        s
    }
}

/// `v` as exactly six zero-padded decimal digits.
fn pad6_string(v: u64) -> (r: String)
    requires
        v < 1000000,
    ensures
        r@ == spec_pad6(v as nat),
{
    proof {
        lemma_pow10_values();
    }
    let mut s = String::new();
    s.append(digit_str((v / 100000) % 10));
    s.append(digit_str((v / 10000) % 10));
    s.append(digit_str((v / 1000) % 10));
    s.append(digit_str((v / 100) % 10));
    s.append(digit_str((v / 10) % 10));
    s.append(digit_str(v % 10));
    proof {
        vstd::arithmetic::div_mod::lemma_div_basics_2(v as int);
        assert(s@ =~= spec_pad6(v as nat));
    }
    s
}

impl<const FRAC: u32> Fixed<FRAC> {
    /// Renders the represented value in decimal with six fractional
    /// digits, as the value would conventionally print.
    pub fn to_decimal_string(self) -> (r: String)
        requires
            FRAC <= 31,
        ensures
            r@ == spec_decimal(self.bits(), FRAC as nat),
    {
        proof {
            reveal_strlit("-");
            reveal_strlit(".");
            lemma2_to64();
            lemma_pow2_pos(FRAC as nat);
            if FRAC < 31 {
                lemma_pow2_strictly_increases(FRAC as nat, 31);
            }
        }
        let bits = self.to_bits();
        let neg = bits < 0;
        let mag: u64 = if bits < 0 {
            (-(bits as i64)) as u64
        } else {
            bits as u64
        };
        let num: u64 = mag * 1000000;
        let den: u64 = pow2_u64(FRAC);
        let q = num / den;
        let rm = num % den;
        let s: u64 = if 2 * rm > den {
            q + 1
        } else if 2 * rm == den && q % 2 == 1 {
            q + 1
        } else {
            q
        };
        proof {
            assert(num == mag * 1000000);
            vstd::arithmetic::div_mod::lemma_fundamental_div_mod(num as int, den as int);
        }
        let int_part = s / 1000000;
        let frac_part = s % 1000000;
        let mut out = String::new();
        if neg {
            out.append("-");
        }
        let ds = digits_string(int_part);
        out.append(ds.as_str());
        out.append(".");
        let ps = pad6_string(frac_part);
        out.append(ps.as_str());
        proof {
            assert(out@ =~= spec_decimal(self.bits(), FRAC as nat));
        }
        out
    }
}

} // verus!
