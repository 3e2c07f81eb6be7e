use mathion::error::AlgebraError;
use mathion::field::{GaloisField, DEFAULT_P};
use mathion::int_polynomial::IntPolynomial;

fn poly(c: &[i64]) -> IntPolynomial {
    IntPolynomial::from(c.to_vec())
}

#[test]
fn field_operators() {
    let a = GaloisField::from(7);
    let b = GaloisField::from(DEFAULT_P - 3);
    assert_eq!((a + b).val, 4);
    assert_eq!((a - b).val, 10);
    assert_eq!((a * b).val, DEFAULT_P - 21);
    assert_eq!((-a).val, DEFAULT_P - 7);
    assert_eq!((a / a).map(|x| x.val), Ok(1));
    assert_eq!(((a / b).unwrap() * b).val, 7);
    assert_eq!((a / GaloisField::from(0)).map(|x| x.val), Err(AlgebraError::DivideByZero));
}

#[test]
fn polynomial_operators() {
    let f = poly(&[1, 2, 1]);
    let g = poly(&[1, 1]);
    assert_eq!(f.clone() + g.clone(), poly(&[2, 3, 1]));
    assert_eq!(f.clone() - g.clone(), poly(&[0, 1, 1]));
    assert_eq!(-g.clone(), poly(&[-1, -1]));
    assert_eq!((g.clone() * g.clone()).unwrap(), f);
    assert_eq!(g.clone() * 3, poly(&[3, 3]));
    assert_eq!(3 * g.clone(), poly(&[3, 3]));
    assert_eq!(0 * f.clone(), poly(&[0]));
    assert_eq!((f.clone() / g.clone()).unwrap(), poly(&[1, 1]));
    assert_eq!((f.clone() % g.clone()).unwrap(), poly(&[0]));
    assert_eq!(f.clone() / poly(&[2, 2]), Err(AlgebraError::NonMonicDivisor));
    assert_eq!(f % poly(&[2, 2]), Err(AlgebraError::NonMonicDivisor));
}

#[test]
fn newton_step_with_operators() {
    // The inverse of 1 + x up to x^2 is 1 - x.
    let g = poly(&[1, 1]);
    let h = poly(&[1]);
    let next = (2 * h.clone() - ((g * h.clone()).unwrap() * h).unwrap()).modulo(2);
    assert_eq!(next, poly(&[1, -1]));
}

#[test]
fn conversions_into_the_field() {
    let x: GaloisField = 5i64.into();
    let y: GaloisField = 7usize.into();
    let z: GaloisField = (-1i64).into();
    assert_eq!(x.val, 5);
    assert_eq!(y.val, 7);
    assert_eq!(z.val, -1);
    assert_eq!(z, GaloisField::from(DEFAULT_P - 1));
}
