//! Exact fractions and their decimal text.
//!
//! A value is kept as a numerator and a denominator until it is printed. It is
//! then rounded once, to the number of decimal places asked for, with ties
//! going to the even digit.

use crate::text::push_char;
use vstd::arithmetic::div_mod::*;
use vstd::arithmetic::mul::*;
use vstd::prelude::*;

verus! {

/// Ten to the power `p`.
pub open spec fn pow10(p: nat) -> nat
    decreases p,
{
    if p == 0 {
        1
    } else {
        10 * pow10((p - 1) as nat)
    }
}

/// The whole number nearest to `num / den`; a value exactly half way between
/// two whole numbers goes to the even one.
pub open spec fn round_half_even(num: nat, den: nat) -> nat
    recommends
        den > 0,
{
    let q = num / den;
    let r = num % den;
    if 2 * r < den {
        q
    } else if 2 * r > den {
        q + 1
    } else if q % 2 == 0 {
        q
    } else {
        q + 1
    }
}

/// The character of one decimal digit.
pub open spec fn digit_char(d: nat) -> char
    recommends
        d < 10,
{
    ((48 + d) as u8) as char
}

/// The decimal digits of `n`, without leading zeros.
pub open spec fn digits_of(n: nat) -> Seq<char>
    decreases n,
{
    if n < 10 {
        seq![digit_char(n)]
    } else {
        digits_of(n / 10).push(digit_char(n % 10))
    }
}

/// The last `places` decimal digits of `n`, with leading zeros kept.
pub open spec fn low_digits(n: nat, places: nat) -> Seq<char>
    decreases places,
{
    if places == 0 {
        Seq::empty()
    } else {
        low_digits(n / 10, (places - 1) as nat).push(digit_char(n % 10))
    }
}

/// The text of `v / 10^places` with exactly `places` digits after the point.
pub open spec fn fixed_text(v: nat, places: nat) -> Seq<char> {
    if places == 0 {
        digits_of(v)
    } else {
        digits_of(v / pow10(places)) + seq!['.'] + low_digits(v, places)
    }
}

/// The text of `num / den` rounded to `places` decimal places. A division by
/// zero prints as `inf`, and zero divided by zero as `NaN`.
pub open spec fn ratio_text(num: nat, den: nat, places: nat) -> Seq<char> {
    if den == 0 {
        if num == 0 {
            "NaN"@
        } else {
            "inf"@
        }
    } else {
        fixed_text(round_half_even(num * pow10(places), den), places)
    }
}

/// Rounds `num / den` to the nearest whole number, ties to even.
pub fn round_div(num: u128, den: u128) -> (r: u128)
    requires
        den > 0,
    ensures
        r == round_half_even(num as nat, den as nat),
{
    let q: u128 = num / den;
    let rem: u128 = num % den;
    let gap: u128 = den - rem;
    let up: bool = rem > gap || (rem == gap && q % 2 == 1);
    if up {
        proof {
            // rounding up needs a remainder, so the divisor is at least 2
            assert(rem >= 1);
            assert(den >= 2);
            assert(num == den * q + rem) by {
                lemma_fundamental_div_mod(num as int, den as int);
            }
            assert(2 * q <= den * q) by {
                lemma_mul_inequality(2, den as int, q as int);
            }
        }
        q + 1
    } else {
        q
    }
}

/// One decimal digit as a character.
fn digit(d: u8) -> (c: char)
    requires
        d < 10,
    ensures
        c == digit_char(d as nat),
{
    (48u8 + d) as char
}

/// The decimal digits of `n`.
pub fn digits_string(n: u128) -> (s: String)
    ensures
        s@ == digits_of(n as nat),
    decreases n,
{
    if n < 10 {
        let mut s: String = String::new();
        push_char(&mut s, digit(n as u8));
        assert(s@ =~= digits_of(n as nat));
        s
    } else {
        let mut s: String = digits_string(n / 10);
        push_char(&mut s, digit((n % 10) as u8));
        s
    }
}

/// Appends the last `places` digits of `n` to `s`.
fn push_low_digits(s: &mut String, n: u128, places: u32)
    ensures
        final(s)@ == old(s)@ + low_digits(n as nat, places as nat),
    decreases places,
{
    if places == 0 {
        assert(s@ =~= old(s)@ + low_digits(n as nat, 0));
    } else {
        push_low_digits(s, n / 10, places - 1);
        push_char(s, digit((n % 10) as u8));
        assert(s@ =~= old(s)@ + low_digits(n as nat, places as nat));
    }
}

/// `v` without its last `places` digits.
fn drop_low_digits(v: u128, places: u32) -> (r: u128)
    ensures
        r == v as nat / pow10(places as nat),
    decreases places,
{
    if places == 0 {
        assert(pow10(0) == 1);
        v
    } else {
        let r: u128 = drop_low_digits(v / 10, places - 1);
        proof {
            let p = pow10((places - 1) as nat);
            lemma_pow10_positive((places - 1) as nat);
            lemma_div_denominator(v as int, 10, p as int);
            assert(pow10(places as nat) == 10 * p);
        }
        r
    }
}

/// Every power of ten is positive.
pub proof fn lemma_pow10_positive(p: nat)
    ensures
        pow10(p) > 0,
    decreases p,
{
    if p > 0 {
        lemma_pow10_positive((p - 1) as nat);
    }
}

/// The text of `v / 10^places` with exactly `places` digits after the point.
pub fn fixed_string(v: u128, places: u32) -> (s: String)
    ensures
        s@ == fixed_text(v as nat, places as nat),
{
    if places == 0 {
        digits_string(v)
    } else {
        let mut s: String = digits_string(drop_low_digits(v, places));
        push_char(&mut s, '.');
        push_low_digits(&mut s, v, places);
        assert(s@ =~= fixed_text(v as nat, places as nat));
        s
    }
}

/// A fraction that is not negative. Its denominator may be zero: a positive
/// numerator over zero is larger than every number, and zero over zero is
/// larger than none.
#[derive(Clone, Copy, PartialEq, Eq, Debug, Structural)]
pub struct Ratio {
    pub num: u128,
    pub den: u64,
}

impl Ratio {
    /// Whether the fraction is larger than `thousandths / 1000`.
    pub open spec fn spec_exceeds(self, thousandths: i64) -> bool {
        if self.den == 0 {
            self.num > 0
        } else {
            self.num * 1000 > thousandths * self.den
        }
    }

    /// Whether the fraction is larger than `thousandths / 1000`.
    pub fn exceeds(&self, thousandths: i64) -> (r: bool)
        ensures
            r == self.spec_exceeds(thousandths),
    {
        if self.den == 0 {
            self.num > 0
        } else if thousandths < 0 {
            assert(thousandths * self.den < 0) by (nonlinear_arith)
                requires
                    thousandths < 0,
                    self.den > 0,
            ;
            true
        } else {
            assert(0 <= thousandths * self.den <= 0x7fff_ffff_ffff_ffff * 0xffff_ffff_ffff_ffff)
                by (nonlinear_arith)
                requires
                    0 <= thousandths <= 0x7fff_ffff_ffff_ffff,
                    0 <= self.den <= 0xffff_ffff_ffff_ffff,
            ;
            let bound: u128 = (thousandths as u128) * (self.den as u128);
            assert((self.num * 1000 > bound) == (self.num > bound / 1000)) by {
                lemma_fundamental_div_mod(bound as int, 1000);
            }
            self.num > bound / 1000
        }
    }
}

/// A fraction that is larger than a number is larger than every smaller
/// number.
pub proof fn lemma_exceeds_smaller(r: Ratio, larger: i64, smaller: i64)
    requires
        smaller <= larger,
        r.spec_exceeds(larger),
    ensures
        r.spec_exceeds(smaller),
{
    if r.den != 0 {
        assert(smaller * r.den <= larger * r.den) by (nonlinear_arith)
            requires
                smaller <= larger,
                r.den >= 0,
        ;
    }
}

/// `num` times ten to the power `places`.
fn scale_up(num: u128, places: u32) -> (r: u128)
    requires
        num * pow10(places as nat) <= u128::MAX,
    ensures
        r == num * pow10(places as nat),
    decreases places,
{
    if places == 0 {
        let ghost one: int = pow10(0) as int;
        assert(num * one == num) by (nonlinear_arith)
            requires
                one == 1,
        ;
        num
    } else {
        let ghost p: int = pow10((places - 1) as nat) as int;
        let ghost n: int = num as int;
        proof {
            lemma_pow10_positive((places - 1) as nat);
            assert(pow10(places as nat) == 10 * p);
            assert(n * p <= n * (10 * p) && n * (10 * p) == (n * p) * 10) by (nonlinear_arith)
                requires
                    p > 0,
                    n >= 0,
            ;
        }
        let r: u128 = scale_up(num, places - 1);
        assert(r == n * p);
        r * 10
    }
}

/// The text of `num / den` rounded to `places` decimal places.
pub fn ratio_string(num: u128, den: u128, places: u32) -> (s: String)
    requires
        num * pow10(places as nat) <= u128::MAX,
    ensures
        s@ == ratio_text(num as nat, den as nat, places as nat),
{
    if den == 0 {
        if num == 0 {
            String::from_str("NaN")
        } else {
            String::from_str("inf")
        }
    } else {
        fixed_string(round_div(scale_up(num, places), den), places)
    }
}

} // verus!
