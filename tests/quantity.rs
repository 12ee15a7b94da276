use std::str::FromStr;

use quantity::Quantity;
use rust_decimal::Decimal;

#[test]
#[should_panic]
fn test_invalid_precision_new() {
    let _ = Quantity::new(1, 10).unwrap();
}

#[test]
fn test_new() {
    let qty = Quantity::new(812_000, 8).unwrap();
    assert_eq!(qty, qty);
    assert_eq!(qty.raw, 8_120_000);
    assert_eq!(qty.precision, 8);
    assert_eq!(qty.to_string(), "0.00812000");
    assert!(!qty.is_zero());
    assert!(qty.is_positive());
    assert_eq!(qty.as_decimal(), Decimal::from_str("0.00812000").unwrap());
    assert_eq!(qty.as_decimal().scale(), 8);
    assert_eq!(qty.as_decimal().mantissa(), 812_000);
}

#[test]
fn test_zero() {
    let qty = Quantity::zero(8);
    assert_eq!(qty.raw, 0);
    assert_eq!(qty.precision, 8);
    assert!(qty.is_zero());
    assert!(!qty.is_positive());
}

#[test]
fn test_from_i64() {
    let qty = Quantity::new(100_000, 0).unwrap();
    assert_eq!(qty, qty);
    assert_eq!(qty.raw, 100_000_000_000_000);
    assert_eq!(qty.precision, 0);
}

#[test]
fn test_with_maximum_value() {
    let qty = Quantity::new(18_446_744_073, 0).unwrap();
    assert_eq!(qty.raw, 18_446_744_073_000_000_000);
    assert_eq!(qty.to_string(), "18446744073");
}

#[test]
fn test_with_minimum_positive_value() {
    let qty = Quantity::new(1, 9).unwrap();
    assert_eq!(qty.raw, 1);
    assert_eq!(qty.to_string(), "0.000000001");
}

#[test]
fn test_with_minimum_value() {
    let qty = Quantity::new(0, 9).unwrap();
    assert_eq!(qty.raw, 0);
    assert_eq!(qty.to_string(), "0.000000000");
}

#[test]
fn test_is_zero() {
    let qty = Quantity::zero(8);
    assert_eq!(qty, qty);
    assert_eq!(qty.raw, 0);
    assert_eq!(qty.precision, 8);
    assert_eq!(qty.to_string(), "0.00000000");
    assert!(qty.is_zero());
}

#[test]
fn test_precision() {
    let qty = Quantity::new(100, 2).unwrap();
    assert_eq!(qty.raw, 1_000_000_000);
    assert_eq!(qty.to_string(), "1.00");
}

#[test]
fn test_new_from_str() {
    let qty = Quantity::from_str("0.00812000").unwrap();
    assert_eq!(qty, qty);
    assert_eq!(qty.raw, 8_120_000);
    assert_eq!(qty.precision, 8);
    assert_eq!(qty.to_string(), "0.00812000");
}

#[test]
fn test_from_str_valid_input() {
    let input = "1000.25";
    let expected_quantity = Quantity::new(100_025, 2).unwrap();
    let result = Quantity::from_str(input).unwrap();
    assert_eq!(result, expected_quantity);
}

#[test]
fn test_from_str_invalid_input() {
    let input = "invalid";
    let result = Quantity::from_str(input);
    assert!(result.is_err());
}

#[test]
fn test_add() {
    let quantity1 = Quantity::new(1, 0).unwrap();
    let quantity2 = Quantity::new(2, 0).unwrap();
    let quantity3 = quantity1 + quantity2;
    assert_eq!(quantity3.raw, 3_000_000_000);
}

#[test]
fn test_sub() {
    let quantity1 = Quantity::new(3, 0).unwrap();
    let quantity2 = Quantity::new(2, 0).unwrap();
    let quantity3 = quantity1 - quantity2;
    assert_eq!(quantity3.raw, 1_000_000_000);
}

#[test]
fn test_add_assign() {
    let mut quantity1 = Quantity::new(1, 0).unwrap();
    let quantity2 = Quantity::new(2, 0).unwrap();
    quantity1.add_assign(quantity2);
    assert_eq!(quantity1.raw, 3_000_000_000);
}

#[test]
fn test_sub_assign() {
    let mut quantity1 = Quantity::new(3, 0).unwrap();
    let quantity2 = Quantity::new(2, 0).unwrap();
    quantity1.sub_assign(quantity2);
    assert_eq!(quantity1.raw, 1_000_000_000);
}

#[test]
fn test_mul() {
    let quantity1 = Quantity::new(20, 1).unwrap();
    let quantity2 = Quantity::new(20, 1).unwrap();
    let quantity3 = quantity1 * quantity2;
    assert_eq!(quantity3.raw, 4_000_000_000);
}

#[test]
fn test_equality() {
    assert_eq!(Quantity::new(10, 1).unwrap(), Quantity::new(10, 1).unwrap());
    assert_eq!(Quantity::new(10, 1).unwrap(), Quantity::new(100, 2).unwrap());
    assert_ne!(Quantity::new(11, 1).unwrap(), Quantity::new(10, 1).unwrap());
    assert!(Quantity::new(10, 1).unwrap() <= Quantity::new(100, 2).unwrap());
    assert!(Quantity::new(11, 1).unwrap() > Quantity::new(10, 1).unwrap());
    assert!(Quantity::new(10, 1).unwrap() >= Quantity::new(10, 1).unwrap());
    assert!(Quantity::new(10, 1).unwrap() >= Quantity::new(100, 2).unwrap());
    assert!(Quantity::new(10, 1).unwrap() >= Quantity::new(100, 2).unwrap());
    assert!(Quantity::new(9, 1).unwrap() < Quantity::new(10, 1).unwrap());
    assert!(Quantity::new(9, 1).unwrap() <= Quantity::new(100, 2).unwrap());
    assert!(Quantity::new(9, 1).unwrap() <= Quantity::new(10, 1).unwrap());
}

#[test]
fn test_display() {
    let input_string = "44.12";
    let qty = Quantity::from_str(input_string).unwrap();
    assert_eq!(qty.to_string(), input_string);
}
