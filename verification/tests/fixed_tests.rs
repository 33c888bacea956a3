use serp_market::fixed::Price;
use serp_market::PRICE_ONE;

#[test]
fn from_int_and_rational() {
    assert_eq!(Price::from_int(3).bits, 3 * PRICE_ONE);
    assert_eq!(Price::from_int(0).bits, 0);
    let half = Price::from_rational(1, 2).unwrap();
    assert_eq!(half.bits, PRICE_ONE / 2);
    assert!(Price::from_rational(1, 0).is_none());
}

#[test]
fn saturating_sub_and_add() {
    let two = Price::from_int(2);
    let five = Price::from_int(5);
    assert_eq!(five.saturating_sub(two).bits, 3 * PRICE_ONE);
    assert_eq!(two.saturating_sub(five).bits, 0);
    assert_eq!(two.saturating_add(five).bits, 7 * PRICE_ONE);
    let top = Price { bits: u128::MAX };
    assert_eq!(top.saturating_add(two).bits, u128::MAX);
}

#[test]
fn mul_int_scales_and_saturates() {
    assert_eq!(Price::from_int(3).mul_int(5).bits, 15 * PRICE_ONE);
    let top = Price { bits: u128::MAX };
    assert_eq!(top.mul_int(2).bits, u128::MAX);
    assert_eq!(top.mul_int(0).bits, 0);
}

#[test]
fn mul_int_floor_rounds_down() {
    let three_halves = Price::from_rational(3, 2).unwrap();
    assert_eq!(three_halves.mul_int_floor(3), 4);
    assert_eq!(three_halves.mul_int_floor(2), 3);
    let top = Price { bits: u128::MAX };
    assert_eq!(top.mul_int_floor(u64::MAX), u64::MAX);
}

#[test]
fn div_int_rounds_down() {
    let p = Price::from_int(7);
    assert_eq!(p.div_int(2).unwrap().bits, 7 * PRICE_ONE / 2);
    assert!(p.div_int(0).is_none());
}

#[test]
fn div_into_balances() {
    let two = Price::from_int(2);
    assert_eq!(two.div_into(9), Some(4));
    assert_eq!(two.div_into(8), Some(4));
    assert_eq!(Price { bits: 0 }.div_into(9), None);
    // A tiny divisor saturates the balance result.
    let tiny = Price { bits: 1 };
    assert_eq!(tiny.div_into(u64::MAX), Some(u64::MAX));
}

#[test]
fn mul_fixed_exact_and_saturating() {
    let three_halves = Price::from_rational(3, 2).unwrap();
    let ten = Price::from_int(10);
    assert_eq!(three_halves.mul_fixed(ten).bits, 15 * PRICE_ONE);
    let quarter = Price::from_rational(1, 4).unwrap();
    assert_eq!(three_halves.mul_fixed(quarter).bits, 3 * PRICE_ONE / 8);
    let top = Price { bits: u128::MAX };
    assert_eq!(top.mul_fixed(top).bits, u128::MAX);
    assert_eq!(top.mul_fixed(Price { bits: 0 }).bits, 0);
}

#[test]
fn div_fixed_small_divisor() {
    let fifteen = Price::from_int(15);
    let three = Price::from_int(3);
    assert_eq!(fifteen.div_fixed(three).unwrap().bits, 5 * PRICE_ONE);
    assert!(fifteen.div_fixed(Price { bits: 0 }).is_none());
    // Dividing by a sub-unit value saturates once the quotient outgrows
    // the representable range.
    let tiny = Price { bits: 1 };
    assert_eq!(Price { bits: u128::MAX }.div_fixed(tiny).unwrap().bits, u128::MAX);
}

#[test]
fn div_fixed_large_divisor() {
    // The divisor needs more than 64 bits here, which runs the binary
    // long-division path.
    let big = Price::from_int(u64::MAX);
    let two = Price::from_int(2);
    let expected = (u64::MAX as u128 / 2) * PRICE_ONE + (PRICE_ONE / 2);
    assert_eq!(big.div_fixed(two).unwrap().bits, expected);
    assert_eq!(big.div_fixed(big).unwrap().bits, PRICE_ONE);
    let one = Price::from_int(1);
    assert_eq!(one.div_fixed(big).unwrap().bits, PRICE_ONE / u64::MAX as u128);
}

#[test]
fn div_fixed_inverts_mul_fixed() {
    let p = Price::from_rational(22, 7).unwrap();
    let q = Price::from_int(13);
    let product = p.mul_fixed(q);
    let back = product.div_fixed(q).unwrap();
    // Multiplication rounds down, so dividing back lands at most one
    // representable step below the original value.
    assert!(back.bits <= p.bits);
    assert!(p.bits - back.bits <= 1);
}
