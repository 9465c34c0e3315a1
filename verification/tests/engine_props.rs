use ratcalc::number::{from_fraction, from_i32, Sign};

#[test]
fn add_commutes_on_fractions() {
    let a = from_fraction(2, 3, Sign::Positive);
    let b = from_fraction(5, 7, Sign::Negative);
    let left = a.add(&b);
    let right = b.add(&a);
    assert_eq!(left.numerator, right.numerator);
    assert_eq!(left.denominator, right.denominator);
    assert_eq!(left.sign, right.sign);
}

#[test]
fn mul_commutes_on_fractions() {
    let a = from_fraction(2, 3, Sign::Negative);
    let b = from_fraction(5, 7, Sign::Negative);
    let left = a.mul(&b);
    let right = b.mul(&a);
    assert_eq!(left.numerator, right.numerator);
    assert_eq!(left.denominator, right.denominator);
    assert_eq!(left.sign, right.sign);
}

#[test]
fn add_associates_on_fractions() {
    let a = from_fraction(1, 2, Sign::Positive);
    let b = from_fraction(1, 3, Sign::Positive);
    let c = from_fraction(1, 4, Sign::Positive);
    let left = a.add(&b).add(&c);
    let right = a.add(&b.add(&c));
    // (1/2 + 1/3) + 1/4 = 26/24, identical representation on both sides.
    assert_eq!(left.numerator, vec![26]);
    assert_eq!(left.denominator, vec![24]);
    assert_eq!(left.numerator, right.numerator);
    assert_eq!(left.denominator, right.denominator);
    assert_eq!(left.sign, right.sign);
}

#[test]
fn mul_identity_keeps_representation() {
    let a = from_fraction(6, 8, Sign::Negative);
    let one = from_fraction(1, 1, Sign::Positive);
    let c = a.mul(&one);
    assert_eq!(c.numerator, vec![6]);
    assert_eq!(c.denominator, vec![8]);
    assert_eq!(c.sign, Sign::Negative);
    assert_eq!(c, a);
}

#[test]
fn sub_self_is_canonical_zero() {
    let a = from_fraction(3, 7, Sign::Positive);
    let c = a.sub(&a);
    assert_eq!(c.numerator, vec![0]);
    assert_eq!(c.denominator, vec![49]);
    assert_eq!(c.sign, Sign::Positive);
    assert_eq!(c, from_i32(0));
}

#[test]
fn mul_sign_rule() {
    let c = from_fraction(2, 3, Sign::Positive).mul(&from_fraction(5, 7, Sign::Negative));
    assert_eq!(c.sign, Sign::Negative);
    let d = from_fraction(2, 3, Sign::Negative).mul(&from_fraction(5, 7, Sign::Negative));
    assert_eq!(d.sign, Sign::Positive);
}

#[test]
fn div_fails_only_on_zero_numerator() {
    let x = from_fraction(3, 4, Sign::Positive);
    assert!(x.div(&from_fraction(0, 7, Sign::Positive)).is_none());
    assert!(x.div(&from_fraction(0, 1, Sign::Negative)).is_none());
    let q = x.div(&from_fraction(2, 7, Sign::Negative)).unwrap();
    assert_eq!(q.numerator, vec![21]);
    assert_eq!(q.denominator, vec![8]);
    assert_eq!(q.sign, Sign::Negative);
}

#[test]
fn reduce_is_equals_equivalent() {
    let a = from_fraction(4, 6, Sign::Negative);
    let reduced = a.reduce();
    assert_eq!(reduced, a);
}

#[test]
fn order_trichotomy_on_equal_fractions() {
    let a = from_fraction(1, 2, Sign::Positive);
    let b = from_fraction(2, 4, Sign::Positive);
    assert!(!(a < b));
    assert!(!(a > b));
    assert_eq!(a, b);
}

#[test]
fn add_carries_across_words() {
    let a = from_fraction(u32::MAX, 1, Sign::Positive);
    let c = a.add(&a);
    assert_eq!(c.numerator, vec![u32::MAX - 1, 1]);
    assert_eq!(c.denominator, vec![1]);
    assert_eq!(c.sign, Sign::Positive);
}

#[test]
fn mul_fills_two_words() {
    let a = from_fraction(u32::MAX, 1, Sign::Positive);
    let c = a.mul(&a);
    assert_eq!(c.numerator, vec![1, u32::MAX - 1]);
    assert_eq!(c.denominator, vec![1]);
    assert_eq!(c.sign, Sign::Positive);
}

#[test]
fn operator_sugar_delegates() {
    let c = from_i32(2) + from_i32(3);
    assert_eq!(c.numerator, vec![5]);
    assert_eq!(c.sign, Sign::Positive);
    let d = from_i32(10) - from_i32(7);
    assert_eq!(d.numerator, vec![3]);
    let e = from_i32(4) * from_i32(5);
    assert_eq!(e.numerator, vec![20]);
    let q = (from_i32(10) / from_i32(2)).unwrap();
    assert_eq!(q.numerator, vec![10]);
    assert_eq!(q.denominator, vec![2]);
    assert!((from_i32(10) / from_i32(0)).is_none());
}

#[test]
fn operator_sugar_by_reference() {
    let b = from_fraction(1, 3, Sign::Positive);
    let c = from_fraction(1, 2, Sign::Positive) + &b;
    assert_eq!(c.numerator, vec![5]);
    assert_eq!(c.denominator, vec![6]);
    let p = from_fraction(2, 3, Sign::Positive) * &b;
    assert_eq!(p.numerator, vec![2]);
    assert_eq!(p.denominator, vec![9]);
}

#[test]
fn from_i32_covers_extremes() {
    let min = from_i32(i32::MIN);
    assert_eq!(min.numerator, vec![0x8000_0000]);
    assert_eq!(min.sign, Sign::Negative);
    let max = from_i32(i32::MAX);
    assert_eq!(max.numerator, vec![0x7FFF_FFFF]);
    assert_eq!(max.sign, Sign::Positive);
}
