use vstd::prelude::*;

use core::cmp::Ordering;

use crate::quantity::{Quantity, FIXED_PRECISION, FIXED_SCALAR};

verus! {

/// Raw product of two quantities, brought back to the fixed scale.
pub open spec fn mul_raw(a: u64, b: u64) -> int {
    (a as int * b as int) / FIXED_SCALAR as int
}

/// Ordering of two quantities: by raw value alone.
pub open spec fn cmp_raw(a: u64, b: u64) -> Ordering {
    if a < b {
        Ordering::Less
    } else if a == b {
        Ordering::Equal
    } else {
        Ordering::Greater
    }
}

impl PartialEq for Quantity {
    /// Equal raw values are equal quantities, whatever their precision.
    fn eq(&self, other: &Quantity) -> (r: bool) {
        self.raw == other.raw
    }
}

impl vstd::std_specs::cmp::PartialEqSpecImpl for Quantity {
    open spec fn obeys_eq_spec() -> bool {
        true
    }

    open spec fn eq_spec(&self, other: &Quantity) -> bool {
        self.raw == other.raw
    }
}

impl Eq for Quantity {

}

impl PartialOrd for Quantity {
    fn partial_cmp(&self, other: &Quantity) -> (r: Option<Ordering>) {
        if self.raw < other.raw {
            Some(Ordering::Less)
        } else if self.raw == other.raw {
            Some(Ordering::Equal)
        } else {
            Some(Ordering::Greater)
        }
    }
}

impl vstd::std_specs::cmp::PartialOrdSpecImpl for Quantity {
    open spec fn obeys_partial_cmp_spec() -> bool {
        true
    }

    open spec fn partial_cmp_spec(&self, other: &Quantity) -> Option<Ordering> {
        Some(cmp_raw(self.raw, other.raw))
    }
}

impl core::hash::Hash for Quantity {
    /// Hashes the raw value alone, so that equal quantities hash alike.
    fn hash<H: core::hash::Hasher>(&self, state: &mut H) {
        self.raw.hash(state);
    }
}

/// Relies on std's `Hash` for `u64`, which feeds the integer to the hasher;
/// nothing about the hasher's state is assumed.
pub assume_specification<H: core::hash::Hasher>[ <u64 as core::hash::Hash>::hash::<H> ](
    data: &u64,
    state: &mut H,
);

impl Default for Quantity {
    fn default() -> (r: Quantity)
        ensures
            r.raw == 0,
            r.precision == 0,
    {
        Quantity { raw: 0, precision: 0 }
    }
}

impl From<Quantity> for u64 {
    fn from(value: Quantity) -> (r: u64) {
        value.raw
    }
}

impl vstd::std_specs::convert::FromSpecImpl<Quantity> for u64 {
    open spec fn obeys_from_spec() -> bool {
        true
    }

    open spec fn from_spec(v: Quantity) -> u64 {
        v.raw
    }
}

impl core::ops::Add for Quantity {
    type Output = Quantity;

    /// Sum of the raw values; the left operand's precision is kept.
    fn add(self, rhs: Quantity) -> (r: Quantity) {
        Quantity { raw: self.raw + rhs.raw, precision: self.precision }
    }
}

impl vstd::std_specs::ops::AddSpecImpl for Quantity {
    open spec fn obeys_add_spec() -> bool {
        true
    }

    open spec fn add_req(self, rhs: Quantity) -> bool {
        self.raw + rhs.raw <= u64::MAX
    }

    open spec fn add_spec(self, rhs: Quantity) -> Quantity {
        Quantity { raw: (self.raw + rhs.raw) as u64, precision: self.precision }
    }
}

impl core::ops::Sub for Quantity {
    type Output = Quantity;

    /// Difference of the raw values; the left operand's precision is kept.
    fn sub(self, rhs: Quantity) -> (r: Quantity) {
        Quantity { raw: self.raw - rhs.raw, precision: self.precision }
    }
}

impl vstd::std_specs::ops::SubSpecImpl for Quantity {
    open spec fn obeys_sub_spec() -> bool {
        true
    }

    open spec fn sub_req(self, rhs: Quantity) -> bool {
        self.raw >= rhs.raw
    }

    open spec fn sub_spec(self, rhs: Quantity) -> Quantity {
        Quantity { raw: (self.raw - rhs.raw) as u64, precision: self.precision }
    }
}

impl core::ops::Mul for Quantity {
    type Output = Quantity;

    /// Product of the values: the raw product divided by the fixed scalar,
    /// with the left operand's precision.
    fn mul(self, rhs: Quantity) -> (r: Quantity) {
        Quantity { raw: mul_raw_exec(self.raw, rhs.raw), precision: self.precision }
    }
}

impl vstd::std_specs::ops::MulSpecImpl for Quantity {
    open spec fn obeys_mul_spec() -> bool {
        true
    }

    open spec fn mul_req(self, rhs: Quantity) -> bool {
        mul_raw(self.raw, rhs.raw) <= u64::MAX
    }

    open spec fn mul_spec(self, rhs: Quantity) -> Quantity {
        Quantity { raw: mul_raw(self.raw, rhs.raw) as u64, precision: self.precision }
    }
}

fn mul_raw_exec(a: u64, b: u64) -> (r: u64)
    requires
        mul_raw(a, b) <= u64::MAX,
    ensures
        r == mul_raw(a, b),
{
    assert(a as int * b as int <= u64::MAX as int * u64::MAX as int) by (nonlinear_arith);
    let p: u128 = (a as u128) * (b as u128);
    (p / (FIXED_SCALAR as u128)) as u64
}

/// A right operand of the compound assignments: a quantity, or a raw value.
pub trait RawOperand {
    spec fn raw_value(&self) -> u64;

    fn to_raw(&self) -> (r: u64)
        ensures
            r == self.raw_value(),
    ;
}

impl RawOperand for Quantity {
    open spec fn raw_value(&self) -> u64 {
        self.raw
    }

    fn to_raw(&self) -> (r: u64) {
        self.raw
    }
}

impl RawOperand for u64 {
    open spec fn raw_value(&self) -> u64 {
        *self
    }

    fn to_raw(&self) -> (r: u64) {
        *self
    }
}

impl Quantity {
    /// `self += other`, as `+` does.
    pub fn add_assign<T: RawOperand>(&mut self, other: T)
        requires
            old(self).raw + other.raw_value() <= u64::MAX,
        ensures
            final(self).raw == old(self).raw + other.raw_value(),
            final(self).precision == old(self).precision,
    {
        self.raw = self.raw + other.to_raw();
    }

    /// `self -= other`, as `-` does.
    pub fn sub_assign<T: RawOperand>(&mut self, other: T)
        requires
            old(self).raw >= other.raw_value(),
        ensures
            final(self).raw == old(self).raw - other.raw_value(),
            final(self).precision == old(self).precision,
    {
        self.raw = self.raw - other.to_raw();
    }

    /// `self *= other`, as `*` does: the raw operand stands for a value at
    /// the fixed scale.
    pub fn mul_assign<T: RawOperand>(&mut self, other: T)
        requires
            mul_raw(old(self).raw, other.raw_value()) <= u64::MAX,
        ensures
            final(self).raw == mul_raw(old(self).raw, other.raw_value()),
            final(self).precision == old(self).precision,
    {
        self.raw = mul_raw_exec(self.raw, other.to_raw());
    }
}

/// Builds `Quantity::from_raw(raw, precision)` by value.
pub fn quantity_from_raw(raw: u64, precision: u8) -> (r: Quantity)
    requires
        precision <= FIXED_PRECISION,
    ensures
        r.raw == raw,
        r.precision == precision,
{
    Quantity::from_raw(raw, precision)
}

/// `a + b` by value: the sum of the raw values with `a`'s precision.
pub fn quantity_add_assign(a: Quantity, b: Quantity) -> (r: Quantity)
    requires
        a.raw + b.raw <= u64::MAX,
    ensures
        r.raw == a.raw + b.raw,
        r.precision == a.precision,
{
    let mut a = a;
    a.add_assign(b);
    a
}

/// `a` plus the raw value `b`, by value, with `a`'s precision.
pub fn quantity_add_assign_u64(a: Quantity, b: u64) -> (r: Quantity)
    requires
        a.raw + b <= u64::MAX,
    ensures
        r.raw == a.raw + b,
        r.precision == a.precision,
{
    let mut a = a;
    a.add_assign(b);
    a
}

/// `a - b` by value: the difference of the raw values with `a`'s precision.
pub fn quantity_sub_assign(a: Quantity, b: Quantity) -> (r: Quantity)
    requires
        a.raw >= b.raw,
    ensures
        r.raw == a.raw - b.raw,
        r.precision == a.precision,
{
    let mut a = a;
    a.sub_assign(b);
    a
}

/// `a` minus the raw value `b`, by value, with `a`'s precision.
pub fn quantity_sub_assign_u64(a: Quantity, b: u64) -> (r: Quantity)
    requires
        a.raw >= b,
    ensures
        r.raw == a.raw - b,
        r.precision == a.precision,
{
    let mut a = a;
    a.sub_assign(b);
    a
}

} // verus!
