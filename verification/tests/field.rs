use mathion::error::AlgebraError;
use mathion::field::{fast_pow, GaloisField, DEFAULT_P};

#[test]
fn fermat_little_theorem_for_three() {
    assert_eq!(fast_pow(3, (DEFAULT_P - 1) as usize, DEFAULT_P), 1);
    assert_eq!(GaloisField::from(3).pow((DEFAULT_P - 1) as usize).val, 1);
}

#[test]
fn fast_pow_small_values() {
    assert_eq!(fast_pow(2, 10, 1_000_000_007), 1024);
    assert_eq!(fast_pow(2, 0, 7), 1);
    assert_eq!(fast_pow(5, 3, 7), 6);
    assert_eq!(fast_pow(-2, 3, 7), 6);
    assert_eq!(fast_pow(9, 5, 1), 0);
}

#[test]
fn field_operations_return_canonical_values() {
    let a = GaloisField::from(DEFAULT_P - 1);
    let b = GaloisField::from(5);
    assert_eq!(a.add(b).val, 4);
    assert_eq!(b.sub(a).val, 6);
    assert_eq!(a.mul(a).val, 1);
    assert_eq!(b.neg().val, DEFAULT_P - 5);
    assert_eq!(GaloisField::from(-1).add(GaloisField::from(0)).val, DEFAULT_P - 1);
    let low = (i64::MIN as i128).rem_euclid(DEFAULT_P as i128) as i64;
    assert_eq!(GaloisField::from(i64::MIN).neg().val, (DEFAULT_P - low) % DEFAULT_P);
    assert_eq!(GaloisField::from(i64::MAX).mul(GaloisField::from(i64::MIN)).val,
        ((i64::MAX as i128 * i64::MIN as i128).rem_euclid(DEFAULT_P as i128)) as i64);
}

#[test]
fn field_equality_is_congruence() {
    assert!(GaloisField::from(-1).equals(&GaloisField::from(DEFAULT_P - 1)));
    assert!(GaloisField::from(DEFAULT_P).is_zero());
    assert!(!GaloisField::from(1).equals(&GaloisField::from(2)));
}

#[test]
fn abs_and_modulo_work_on_the_representative() {
    assert_eq!(GaloisField::from(-7).abs().val, 7);
    assert_eq!(GaloisField::from(7).abs().val, 7);
    let mut x = GaloisField::from(-7);
    x.modulo(5);
    assert_eq!(x.val, -2);
    let mut y = GaloisField::from(12);
    y.modulo(5);
    assert_eq!(y.val, 2);
    let mut z = GaloisField::from(-12);
    z.modulo(-5);
    assert_eq!(z.val, -2);
    let mut w = GaloisField::from(i64::MIN);
    w.modulo(-1);
    assert_eq!(w.val, 0);
}

#[test]
fn inverse_and_division() {
    let a = GaloisField::from(12345);
    let inv = a.inverse().unwrap();
    assert_eq!(a.mul(inv).val, 1);
    assert_eq!(inv.val, fast_pow(12345, (DEFAULT_P - 2) as usize, DEFAULT_P));
    let b = GaloisField::from(10);
    let q = b.div(GaloisField::from(5)).unwrap();
    assert_eq!(q.val, 2);
    assert_eq!(GaloisField::from(1).div(GaloisField::from(2)).unwrap().val, (DEFAULT_P + 1) / 2);
}

#[test]
fn division_by_zero_is_refused() {
    assert_eq!(GaloisField::from(0).inverse().map(|x| x.val), Err(AlgebraError::DivideByZero));
    assert_eq!(GaloisField::from(DEFAULT_P).inverse().map(|x| x.val), Err(AlgebraError::DivideByZero));
    assert_eq!(
        GaloisField::from(7).div(GaloisField::from(-DEFAULT_P)).map(|x| x.val),
        Err(AlgebraError::DivideByZero)
    );
}

#[test]
fn identities_and_conversions() {
    assert_eq!(GaloisField::zero().val, 0);
    assert_eq!(GaloisField::one().val, 1);
    assert_eq!(GaloisField::from(-5).val, -5);
    assert_eq!(GaloisField::from(-5).canonical().val, DEFAULT_P - 5);
    assert_eq!(GaloisField::from_usize(7).val, 7);
    assert_eq!(GaloisField::from(-1), GaloisField::from(DEFAULT_P - 1));
    assert_ne!(GaloisField::from(1), GaloisField::from(2));
}

#[test]
fn error_messages() {
    assert_eq!(AlgebraError::NonMonicDivisor.message(), "divisor is not monic");
    assert_eq!(AlgebraError::DivideByZero.message(), "division by the zero element");
    assert_eq!(AlgebraError::InvalidTransformLength.message(), "invalid transform length");
}
