use std::cmp::Ordering;
use std::collections::hash_map::DefaultHasher;
use std::hash::{Hash, Hasher};

use quantity::ops::{
    quantity_add_assign, quantity_add_assign_u64, quantity_from_raw, quantity_sub_assign,
    quantity_sub_assign_u64,
};
use quantity::quantity::{pow10_u64, FIXED_PRECISION, FIXED_SCALAR, QUANTITY_MAX_RAW};
use quantity::{Quantity, QuantityError};
use rust_decimal::Decimal;

fn hash_of(q: &Quantity) -> u64 {
    let mut h = DefaultHasher::new();
    q.hash(&mut h);
    h.finish()
}

#[test]
fn precision_beyond_scale_is_refused() {
    assert_eq!(Quantity::new(1, 10), Err(QuantityError::Precision));
    assert_eq!(Quantity::new(0, 255), Err(QuantityError::Precision));
    assert_eq!(Quantity::from_str("1.0000000001"), Err(QuantityError::Precision));
}

#[test]
fn value_beyond_maximum_is_refused() {
    assert_eq!(Quantity::new(18_446_744_074, 0), Err(QuantityError::Range));
    assert_eq!(Quantity::new(184_467_440_731, 1), Err(QuantityError::Range));
    assert_eq!(Quantity::new(u64::MAX, 9), Err(QuantityError::Range));
    assert_eq!(Quantity::from_str("18446744074"), Err(QuantityError::Range));
    assert_eq!(Quantity::from_str("18446744073.5"), Err(QuantityError::Range));
    assert_eq!(Quantity::from_str("99999999999999999999999999"), Err(QuantityError::Range));
}

#[test]
fn largest_value_is_accepted() {
    let q = Quantity::new(18_446_744_073_000_000_000, 9).unwrap();
    assert_eq!(q.raw, QUANTITY_MAX_RAW);
    let t = Quantity::from_str("18446744073.000000000").unwrap();
    assert_eq!(t.raw, QUANTITY_MAX_RAW);
    assert_eq!(t.precision, FIXED_PRECISION);
}

#[test]
fn malformed_text_is_refused() {
    for s in ["", ".", "1.", ".5", "1.2.3", "-", "--1", "-.5", "+1", "abc", "1e5", " 1", "1 ", "1,5"] {
        assert_eq!(Quantity::from_str(s), Err(QuantityError::Parse), "{s}");
    }
}

#[test]
fn leading_zeros_are_read() {
    let q = Quantity::from_str("007.50").unwrap();
    assert_eq!(q.raw, 7_500_000_000);
    assert_eq!(q.precision, 2);
    assert_eq!(q.to_string(), "7.50");
}

#[test]
fn text_round_trips() {
    for s in ["0", "1", "0.5", "44.12", "0.00812000", "18446744073", "123456789.123456789", "10.0"] {
        let q = Quantity::from_str(s).unwrap();
        assert_eq!(q.to_string(), s);
    }
    for (raw, p) in [(0u64, 0u8), (1, 9), (1_500_000_000, 1), (QUANTITY_MAX_RAW, 3), (40_000_000, 2)] {
        let q = Quantity::from_raw(raw, p);
        let back = Quantity::from_str(&q.to_string()).unwrap();
        assert_eq!(back.raw, q.raw);
        assert_eq!(back.precision, q.precision);
    }
}

#[test]
fn formatting_rounds_to_nearest_ties_to_even() {
    assert_eq!(Quantity::from_raw(1_239_999_999, 2).to_string(), "1.24");
    assert_eq!(Quantity::from_raw(1_234_999_999, 2).to_string(), "1.23");
    assert_eq!(Quantity::from_raw(999_999_999, 0).to_string(), "1");
    assert_eq!(Quantity::from_raw(9_960_000_000, 1).to_string(), "10.0");
    assert_eq!(Quantity::from_raw(2_500_000_000, 0).to_string(), "2");
    assert_eq!(Quantity::from_raw(3_500_000_000, 0).to_string(), "4");
    assert_eq!(Quantity::from_raw(125_000_000, 2).to_string(), "0.12");
    assert_eq!(Quantity::from_raw(135_000_000, 2).to_string(), "0.14");
    assert_eq!(Quantity::from_raw(5, 9).to_string(), "0.000000005");
    assert_eq!(Quantity::from_raw(u64::MAX, 0).to_string(), "18446744074");
    let product = Quantity::new(15, 1).unwrap() * Quantity::new(25, 1).unwrap();
    assert_eq!(product.to_string(), "3.8");
}

#[test]
fn negative_numerals_are_out_of_range() {
    assert_eq!(Quantity::from_str("-1.0"), Err(QuantityError::Range));
    assert_eq!(Quantity::from_str("-1"), Err(QuantityError::Range));
    assert_eq!(Quantity::from_str("-0.0000000001"), Err(QuantityError::Range));
    assert_eq!(Quantity::from_str("-1.00000000000"), Err(QuantityError::Range));
    let z = Quantity::from_str("-0.0").unwrap();
    assert_eq!(z.raw, 0);
    assert_eq!(z.precision, 1);
    assert_eq!(Quantity::from_str("-0").unwrap().precision, 0);
    assert_eq!(Quantity::from_str("-0.0000000000"), Err(QuantityError::Precision));
}

#[test]
fn range_is_checked_before_precision() {
    assert_eq!(Quantity::from_str("18446744074.0000000000"), Err(QuantityError::Range));
    assert_eq!(Quantity::from_str("18446744073.0000000001"), Err(QuantityError::Range));
    assert_eq!(Quantity::from_str("18446744073.0000000000"), Err(QuantityError::Precision));
    assert_eq!(Quantity::from_str("0.0000000001"), Err(QuantityError::Precision));
}

#[test]
fn decimal_is_truncated_to_precision() {
    let q = Quantity::from_raw(1_239_999_999, 2);
    assert_eq!(q.precision_mantissa(), 123);
    let d = q.as_decimal();
    assert_eq!(d.mantissa(), 123);
    assert_eq!(d.scale(), 2);
    assert_eq!(d, Decimal::new(123, 2));
    let m = Quantity::from_raw(QUANTITY_MAX_RAW, 9).as_decimal();
    assert_eq!(m.mantissa(), QUANTITY_MAX_RAW as i128);
    assert_eq!(m.scale(), 9);
}

#[test]
fn equality_and_hash_ignore_precision() {
    let a = Quantity::new(1, 1).unwrap();
    let b = Quantity::new(10, 2).unwrap();
    assert_eq!(a.raw, 100_000_000);
    assert_eq!(a, b);
    assert_eq!(hash_of(&a), hash_of(&b));
    assert_ne!(Quantity::new(11, 1).unwrap(), Quantity::new(10, 1).unwrap());
}

#[test]
fn order_follows_value() {
    let a = Quantity::new(9, 1).unwrap();
    let b = Quantity::new(10, 1).unwrap();
    let c = Quantity::new(100, 2).unwrap();
    assert!(a < b);
    assert!(b <= c);
    assert_eq!(b.partial_cmp(&c), Some(Ordering::Equal));
    assert_eq!(c.partial_cmp(&a), Some(Ordering::Greater));
    assert_eq!(a.partial_cmp(&c), Some(Ordering::Less));
}

#[test]
fn zero_at_every_precision() {
    for p in 0..=FIXED_PRECISION {
        let z = Quantity::zero(p);
        assert!(z.is_zero());
        assert!(!z.is_positive());
        assert_eq!(z.precision, p);
        assert_eq!(Quantity::new(0, p), Ok(z));
    }
    assert!(Quantity::new(1, 9).unwrap().is_positive());
    assert!(Quantity::from_str("0.1").unwrap().is_positive());
}

#[test]
fn arithmetic_keeps_left_precision() {
    let a = Quantity::new(15, 1).unwrap();
    let b = Quantity::new(250, 2).unwrap();
    let s = a + b;
    assert_eq!(s.raw, 4_000_000_000);
    assert_eq!(s.precision, 1);
    let d = b - a;
    assert_eq!(d.raw, 1_000_000_000);
    assert_eq!(d.precision, 2);
    let m = a * b;
    assert_eq!(m.raw, 3_750_000_000);
    assert_eq!(m.precision, 1);
}

#[test]
fn product_beyond_u64_intermediate() {
    let five = Quantity::new(5, 0).unwrap();
    let p = five * five;
    assert_eq!(p.raw, 25_000_000_000);
}

#[test]
fn compound_assignment_with_raw_values() {
    let mut q = Quantity::new(1, 0).unwrap();
    q.add_assign(500_000_000u64);
    assert_eq!(q.raw, 1_500_000_000);
    q.sub_assign(250_000_000u64);
    assert_eq!(q.raw, 1_250_000_000);
    q.mul_assign(2_000_000_000u64);
    assert_eq!(q.raw, 2_500_000_000);
    q.mul_assign(Quantity::new(4, 0).unwrap());
    assert_eq!(q.raw, 10_000_000_000);
    assert_eq!(q.precision, 0);
}

#[test]
fn raw_conversions() {
    let q = quantity_from_raw(123, 4);
    assert_eq!(q.raw, 123);
    assert_eq!(q.precision, 4);
    assert_eq!(u64::from(q), 123);
    let d = Quantity::default();
    assert_eq!(d.raw, 0);
    assert_eq!(d.precision, 0);
    assert_eq!(pow10_u64(0), 1);
    assert_eq!(pow10_u64(9), FIXED_SCALAR);
}

#[test]
fn by_value_sums_and_differences() {
    let a = Quantity::new(3, 0).unwrap();
    let b = Quantity::new(2, 0).unwrap();
    let s = quantity_add_assign(a, b);
    assert_eq!(s.raw, 5_000_000_000);
    assert_eq!(quantity_add_assign_u64(a, 7).raw, 3_000_000_007);
    let d = quantity_sub_assign(a, b);
    assert_eq!(d.raw, 1_000_000_000);
    assert_eq!(d.precision, 0);
    assert_eq!(quantity_sub_assign_u64(a, 7).raw, 2_999_999_993);
    assert_eq!(a.raw, 3_000_000_000);
}
