use vstd::prelude::*;

use crate::digits::{lemma_pow10_9, lemma_pow10_positive, pow10};

verus! {

/// Number of fractional decimal digits at which every quantity is stored.
pub const FIXED_PRECISION: u8 = 9;

/// `10^FIXED_PRECISION`: the raw value of one whole unit.
pub const FIXED_SCALAR: u64 = 1_000_000_000;

/// The largest quantity, in whole units.
pub const QUANTITY_MAX_UNITS: u64 = 18_446_744_073;

/// Raw value of the largest quantity.
pub const QUANTITY_MAX_RAW: u64 = 18_446_744_073_000_000_000;

/// Why a quantity could not be built.
#[derive(Debug, Clone, Copy, PartialEq, Eq, Structural)]
pub enum QuantityError {
    /// The value lies outside `[0, 18_446_744_073]`.
    Range,
    /// More fractional digits were asked for than the fixed scale holds.
    Precision,
    /// The text is not a decimal numeral.
    Parse,
}

/// A non-negative fixed-point quantity: `raw / 10^9`, displayed with
/// `precision` fractional digits.
#[derive(Clone, Copy, Debug)]
pub struct Quantity {
    pub raw: u64,
    pub precision: u8,
}

/// The factor between a value written with `precision` fractional digits and
/// its raw form.
pub open spec fn rescale_factor(precision: int) -> nat {
    pow10((FIXED_PRECISION - precision) as nat)
}

/// What building a quantity from `mantissa × 10^-precision` gives.
pub open spec fn new_result(mantissa: int, precision: int) -> Result<Quantity, QuantityError> {
    if precision > FIXED_PRECISION {
        Err(QuantityError::Precision)
    } else if mantissa * rescale_factor(precision) > QUANTITY_MAX_RAW {
        Err(QuantityError::Range)
    } else {
        Ok(Quantity { raw: (mantissa * rescale_factor(precision)) as u64, precision: precision as u8 })
    }
}

/// `10^n` for `n <= 9`.
pub fn pow10_u64(n: u8) -> (r: u64)
    requires
        n <= FIXED_PRECISION,
    ensures
        r == pow10(n as nat),
        r <= FIXED_SCALAR,
{
    let mut r: u64 = 1;
    let mut i: u8 = 0;
    while i < n
        invariant
            i <= n <= FIXED_PRECISION,
            r == pow10(i as nat),
        decreases n - i,
    {
        proof {
            lemma_pow10_mono(i as nat + 1, FIXED_PRECISION as nat);
            lemma_pow10_9();
        }
        r = r * 10;
        i = i + 1;
    }
    proof {
        lemma_pow10_mono(n as nat, FIXED_PRECISION as nat);
        lemma_pow10_9();
    }
    r
}

pub proof fn lemma_pow10_mono(a: nat, b: nat)
    requires
        a <= b,
    ensures
        pow10(a) <= pow10(b),
    decreases b,
{
    if a < b {
        lemma_pow10_mono(a, (b - 1) as nat);
        lemma_pow10_positive((b - 1) as nat);
    }
}

impl Quantity {
    /// The display precision lies within the fixed scale.
    pub open spec fn wf(&self) -> bool {
        self.precision <= FIXED_PRECISION
    }

    /// The value lies within `[0, 18_446_744_073]`.
    pub open spec fn in_range(&self) -> bool {
        self.raw <= QUANTITY_MAX_RAW
    }

    /// Builds the quantity `mantissa × 10^-precision`, so that `new(812_000, 8)`
    /// is 0.00812 shown with eight fractional digits. Every `u64` mantissa at a
    /// precision beyond the fixed scale lies within the bounds, so there the
    /// precision error is the only one.
    pub fn new(mantissa: u64, precision: u8) -> (r: Result<Quantity, QuantityError>)
        ensures
            r == new_result(mantissa as int, precision as int),
    {
        if precision > FIXED_PRECISION {
            return Err(QuantityError::Precision);
        }
        let factor = pow10_u64(FIXED_PRECISION - precision);
        proof {
            lemma_pow10_positive((FIXED_PRECISION - precision) as nat);
        }
        if mantissa > QUANTITY_MAX_RAW / factor {
            proof {
                lemma_mul_exceeds(mantissa as int, factor as int, QUANTITY_MAX_RAW as int);
            }
            Err(QuantityError::Range)
        } else {
            proof {
                lemma_mul_within(mantissa as int, factor as int, QUANTITY_MAX_RAW as int);
            }
            Ok(Quantity { raw: mantissa * factor, precision })
        }
    }

    /// Takes `raw` as an already valid raw value.
    pub fn from_raw(raw: u64, precision: u8) -> (r: Quantity)
        requires
            precision <= FIXED_PRECISION,
        ensures
            r.raw == raw,
            r.precision == precision,
    {
        Quantity { raw, precision }
    }

    /// The quantity zero with the given display precision.
    pub fn zero(precision: u8) -> (r: Quantity)
        requires
            precision <= FIXED_PRECISION,
        ensures
            r.raw == 0,
            r.precision == precision,
            new_result(0, precision as int) == Ok::<Quantity, QuantityError>(r),
    {
        let r = Quantity::new(0, precision);
        match r {
            Ok(q) => q,
            Err(_) => Quantity { raw: 0, precision },
        }
    }

    pub fn is_zero(&self) -> (r: bool)
        ensures
            r == (self.raw == 0),
    {
        self.raw == 0
    }

    pub fn is_positive(&self) -> (r: bool)
        ensures
            r == (self.raw > 0),
    {
        self.raw > 0
    }

    /// The raw value cut down to the display precision, dropping the digits
    /// beyond it.
    pub fn precision_mantissa(&self) -> (r: u64)
        requires
            self.wf(),
        ensures
            r == self.raw as int / rescale_factor(self.precision as int) as int,
    {
        let factor = pow10_u64(FIXED_PRECISION - self.precision);
        proof {
            lemma_pow10_positive((FIXED_PRECISION - self.precision) as nat);
        }
        self.raw / factor
    }

    /// The value as a decimal with `precision` fractional digits; digits of the
    /// raw value beyond the display precision are dropped, not rounded.
    pub fn as_decimal(&self) -> (r: rust_decimal::Decimal)
        requires
            self.wf(),
        ensures
            r == decimal_from_parts(
                self.raw as int / rescale_factor(self.precision as int) as int,
                self.precision as int,
            ),
    {
        let m = self.precision_mantissa();
        rust_decimal::Decimal::from_i128_with_scale(m as i128, self.precision as u32)
    }
}

proof fn lemma_mul_exceeds(m: int, f: int, bound: int)
    requires
        f >= 1,
        bound >= 0,
        m > bound / f,
    ensures
        m * f > bound,
{
    assert(m >= bound / f + 1);
    assert(m * f >= (bound / f + 1) * f) by (nonlinear_arith)
        requires
            m >= bound / f + 1,
            f >= 1,
    ;
    assert((bound / f + 1) * f > bound) by (nonlinear_arith)
        requires
            f >= 1,
            bound >= 0,
    {
        assert(bound == f * (bound / f) + bound % f);
        assert(bound % f < f);
    }
}

proof fn lemma_mul_within(m: int, f: int, bound: int)
    requires
        f >= 1,
        bound >= 0,
        0 <= m <= bound / f,
    ensures
        m * f <= bound,
{
    assert(m * f <= (bound / f) * f) by (nonlinear_arith)
        requires
            m <= bound / f,
            f >= 1,
    ;
    assert((bound / f) * f <= bound) by (nonlinear_arith)
        requires
            f >= 1,
            bound >= 0,
    {
        assert(bound == f * (bound / f) + bound % f);
        assert(bound % f >= 0);
    }
}

#[verifier::external_type_specification]
#[verifier::external_body]
pub struct ExDecimal(rust_decimal::Decimal);

/// The decimal `num × 10^-scale`.
pub uninterp spec fn decimal_from_parts(num: int, scale: int) -> rust_decimal::Decimal;

/// Relies on `rust_decimal::Decimal::from_i128_with_scale`, which builds the
/// decimal `num × 10^-scale` and panics when `scale` exceeds 28 or `num`
/// needs more than 96 bits.
pub assume_specification[ rust_decimal::Decimal::from_i128_with_scale ](
    num: i128,
    scale: u32,
) -> (r: rust_decimal::Decimal)
    requires
        scale <= 28,
        -0xFFFF_FFFF_FFFF_FFFF_FFFF_FFFF <= num <= 0xFFFF_FFFF_FFFF_FFFF_FFFF_FFFF,
    ensures
        r == decimal_from_parts(num as int, scale as int),
;

} // verus!
