//! Fixed-point currency values.
//!
//! An amount is an integer count of minor units, one thousandth of a currency
//! unit each, so every addition, subtraction and scaling is exact. Division
//! truncates toward zero; that policy is used uniformly, and the validator's
//! tolerance absorbs the truncation error. Values are rounded only when a
//! decimal string is produced for display.

use vstd::prelude::*;

use crate::text::{dec_digits, digit_char, digit_to_char, push_decimal, string_push};

verus! {

/// Minor units that make up one whole currency unit.
pub const UNITS_PER_WHOLE: i64 = 1000;

/// Truncating division: the quotient of `a` by `b` rounded toward zero.
pub open spec fn div_trunc(a: int, b: int) -> int
    recommends
        b > 0,
{
    if a >= 0 {
        a / b
    } else {
        -((-a) / b)
    }
}

/// The decimal rendering of `raw` minor units to two places: the value is
/// truncated toward zero to whole hundredths of a currency unit first.
pub open spec fn spec_decimal(raw: int) -> Seq<char> {
    let cents = div_trunc(raw, 10);
    let mag = if cents < 0 {
        -cents
    } else {
        cents
    };
    let sign: Seq<char> = if cents < 0 {
        seq!['-']
    } else {
        Seq::empty()
    };
    sign + dec_digits((mag / 100) as nat) + seq!['.'] + seq![
        digit_char(mag % 100 / 10),
        digit_char(mag % 10),
    ]
}

/// A currency amount in minor units. May be negative: intermediate balance
/// arithmetic uses both signs, even though a finished transfer is positive.
#[derive(Clone, Copy, PartialEq, Eq, Structural, Debug)]
pub struct Money {
    raw: i64,
}

impl View for Money {
    type V = int;

    closed spec fn view(&self) -> int {
        self.raw as int
    }
}

impl Money {
    /// The amount of `raw` minor units (thousandths of a currency unit).
    pub fn from_raw(raw: i64) -> (r: Money)
        ensures
            r@ == raw as int,
    {
        Money { raw }
    }

    /// The amount of `units` whole currency units.
    pub fn from_units(units: i64) -> (r: Money)
        requires
            -9_000_000_000_000_000 <= units <= 9_000_000_000_000_000,
        ensures
            r@ == units * UNITS_PER_WHOLE as int,
    {
        Money { raw: units * UNITS_PER_WHOLE }
    }

    /// The raw count of minor units.
    pub fn raw(&self) -> (r: i64)
        ensures
            r as int == self@,
    {
        self.raw
    }

    /// Exact sum of two amounts.
    pub fn add(self, other: Money) -> (r: Money)
        requires
            i64::MIN <= self@ + other@ <= i64::MAX,
        ensures
            r@ == self@ + other@,
    {
        Money { raw: self.raw + other.raw }
    }

    /// Exact difference of two amounts.
    pub fn sub(self, other: Money) -> (r: Money)
        requires
            i64::MIN <= self@ - other@ <= i64::MAX,
        ensures
            r@ == self@ - other@,
    {
        Money { raw: self.raw - other.raw }
    }

    /// Exact scaling by a nonnegative integer factor.
    pub fn times(self, k: u32) -> (r: Money)
        requires
            i64::MIN <= self@ * k <= i64::MAX,
        ensures
            r@ == self@ * k,
    {
        Money { raw: self.raw * (k as i64) }
    }

    /// Division by a positive headcount, truncated toward zero.
    pub fn div_by(self, n: u32) -> (r: Money)
        requires
            n > 0,
            self@ > i64::MIN,
        ensures
            r@ == div_trunc(self@, n as int),
    {
        if self.raw >= 0 {
            let q: u64 = (self.raw as u64) / (n as u64);
            proof {
                vstd::arithmetic::div_mod::lemma_div_is_ordered_by_denominator(
                    self.raw as int,
                    1,
                    n as int,
                );
            }
            Money { raw: q as i64 }
        } else {
            let neg: u64 = (-self.raw) as u64;
            let q: u64 = neg / (n as u64);
            proof {
                vstd::arithmetic::div_mod::lemma_div_is_ordered_by_denominator(
                    neg as int,
                    1,
                    n as int,
                );
            }
            Money { raw: -(q as i64) }
        }
    }

    /// Whether the amount is exactly zero.
    pub fn is_zero(&self) -> (r: bool)
        ensures
            r == (self@ == 0),
    {
        self.raw == 0
    }

    /// The amount rendered to two decimal places, truncated toward zero
    /// from the minor-unit grid: a minus sign for negative amounts, the
    /// whole currency units, a point, and exactly two fractional digits.
    pub fn to_decimal_string(&self) -> (r: String)
        requires
            self@ > i64::MIN,
        ensures
            r@ == spec_decimal(self@),
    {
        let raw = self.raw;
        let cents: i64 = if raw >= 0 {
            let q: u64 = (raw as u64) / 10;
            proof {
                vstd::arithmetic::div_mod::lemma_div_is_ordered_by_denominator(raw as int, 1, 10);
            }
            q as i64
        } else {
            let q: u64 = ((-raw) as u64) / 10;
            proof {
                vstd::arithmetic::div_mod::lemma_div_is_ordered_by_denominator(-raw as int, 1, 10);
            }
            -(q as i64)
        };
        let mag: u64 = if cents < 0 {
            (-cents) as u64
        } else {
            cents as u64
        };
        let mut s = String::new();
        if cents < 0 {
            string_push(&mut s, '-');
        }
        push_decimal(&mut s, mag / 100);
        string_push(&mut s, '.');
        let frac = mag % 100;
        let c1 = digit_to_char(frac / 10);
        string_push(&mut s, c1);
        let c2 = digit_to_char(frac % 10);
        string_push(&mut s, c2);
        proof {
            let sign: Seq<char> = if cents < 0 {
                seq!['-']
            } else {
                Seq::<char>::empty()
            };
            assert(Seq::<char>::empty() + sign =~= sign);
            assert(s@ =~= sign + dec_digits((mag / 100) as nat) + seq!['.'] + seq![c1, c2]);
            assert(s@ =~= spec_decimal(self@));
        }
        s
    }

    /// Whether this amount is at most `other`.
    pub fn le(&self, other: &Money) -> (r: bool)
        ensures
            r == (self@ <= other@),
    {
        self.raw <= other.raw
    }
}

} // verus!
