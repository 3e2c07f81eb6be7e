use mathion::error::AlgebraError;
use mathion::field::{GaloisField, DEFAULT_P};
use mathion::int_polynomial::IntPolynomial;

fn poly(c: &[i64]) -> IntPolynomial {
    IntPolynomial::from(c.to_vec())
}

#[test]
fn one_plus_x_squared() {
    let f = poly(&[1, 1]);
    let product = f.mul(&f).unwrap();
    assert_eq!(product, poly(&[1, 2, 1]));
    assert_eq!(product.coefficients(), vec![1, 2, 1]);
    assert_eq!(product.deg(), 2);
}

#[test]
fn x_times_x_is_x_squared() {
    assert_eq!(poly(&[0, 1]).mul(&poly(&[0, 1])).unwrap(), poly(&[0, 0, 1]));
}

#[test]
fn divide_square_by_its_root() {
    let f = poly(&[1, 2, 1]);
    let g = poly(&[1, 1]);
    assert_eq!(f.div(&g).unwrap(), poly(&[1, 1]));
    assert_eq!(f.rem(&g).unwrap(), poly(&[0]));
    let (q, r) = f.div_rem(&g).unwrap();
    assert_eq!(q.coefficients(), vec![1, 1]);
    assert_eq!(r.coefficients(), vec![0]);
}

#[test]
fn quotient_with_zero_low_coefficients() {
    let f = poly(&[0, 0, 1]);
    let g = poly(&[0, 1]);
    assert_eq!(f.div(&g).unwrap(), poly(&[0, 1]));
    assert_eq!(f.rem(&g).unwrap(), poly(&[0]));
    let big = poly(&[5, 0, 0, 0, 0, 0, 1]);
    let small = poly(&[0, 0, 1]);
    let (q, r) = big.div_rem(&small).unwrap();
    assert_eq!(q, poly(&[0, 0, 0, 0, 1]));
    assert_eq!(r, poly(&[5]));
}

#[test]
fn division_with_remainder() {
    // x^3 + 2x + 5 = (x^2 - x + 3) (x + 1) + 2
    let f = poly(&[5, 2, 0, 1]);
    let g = poly(&[1, 1]);
    let (q, r) = f.div_rem(&g).unwrap();
    assert_eq!(q, poly(&[3, -1, 1]));
    assert_eq!(r, poly(&[2]));
    assert_eq!(q.mul(&g).unwrap().add(&r), f);
    assert!(r.deg() < g.deg());
}

#[test]
fn division_by_a_divisor_that_leads_with_minus_one() {
    // x^2 - 1 = (-x - 1) (-x + 1)
    let f = poly(&[-1, 0, 1]);
    let g = poly(&[1, -1]);
    let (q, r) = f.div_rem(&g).unwrap();
    assert_eq!(q, poly(&[-1, -1]));
    assert_eq!(r, poly(&[0]));
    assert_eq!(q.mul(&g).unwrap().add(&r), f);
}

#[test]
fn division_of_a_long_dividend() {
    let mut c: Vec<i64> = Vec::new();
    for i in 0..200i64 {
        c.push((i * i * 7919 + 13 * i + 5) % DEFAULT_P);
    }
    c.push(1);
    let f = poly(&c);
    let g = poly(&[3, 0, 5, 7, 11, 1]);
    let (q, r) = f.div_rem(&g).unwrap();
    assert_eq!(q.deg(), 195);
    assert!(r.deg() < g.deg());
    assert_eq!(q.mul(&g).unwrap().add(&r), f);
}

#[test]
fn dividend_of_lower_degree_gives_zero_quotient() {
    let f = poly(&[4, 2]);
    let g = poly(&[1, 0, 1]);
    let (q, r) = f.div_rem(&g).unwrap();
    assert_eq!(q, poly(&[0]));
    assert_eq!(r, f);
    assert_eq!(f.div(&g).unwrap(), IntPolynomial::zero());
    assert_eq!(f.rem(&g).unwrap(), f);
}

#[test]
fn division_by_a_constant() {
    let f = poly(&[1, 2, 3]);
    let (q, r) = f.div_rem(&poly(&[1])).unwrap();
    assert_eq!(q, f);
    assert_eq!(r, poly(&[0]));
    let (q, r) = f.div_rem(&poly(&[-1])).unwrap();
    assert_eq!(q, f.neg());
    assert_eq!(r, poly(&[0]));
}

#[test]
fn non_monic_divisor_is_refused() {
    let f = poly(&[1, 2, 1]);
    assert_eq!(f.div(&poly(&[1, 2])), Err(AlgebraError::NonMonicDivisor));
    assert_eq!(f.rem(&poly(&[1, 2])), Err(AlgebraError::NonMonicDivisor));
    assert_eq!(f.div(&poly(&[0])), Err(AlgebraError::NonMonicDivisor));
    assert_eq!(poly(&[1]).div(&poly(&[1, 2, 3])), Err(AlgebraError::NonMonicDivisor));
    assert!(poly(&[1, 2, 1]).is_monic_up_to_sign());
    assert!(poly(&[1, 2, -1]).is_monic_up_to_sign());
    assert!(!poly(&[1, 2, 2]).is_monic_up_to_sign());
}

#[test]
fn trailing_zeros_are_trimmed() {
    let a = poly(&[1, 1, 0, 0]);
    let b = poly(&[1, 1]);
    assert_eq!(a.deg(), b.deg());
    assert_eq!(a.deg(), 1);
    assert_eq!(a.coefficients(), b.coefficients());
    assert_eq!(a, b);
    let c = IntPolynomial::new(vec![
        GaloisField::from(1),
        GaloisField::from(1),
        GaloisField::from(DEFAULT_P),
        GaloisField::from(0),
    ]);
    assert_eq!(c, b);
    assert_eq!(IntPolynomial::whole(vec![GaloisField::from(1), GaloisField::from(1)]), b);
}

#[test]
fn zero_polynomial_is_one_zero_coefficient() {
    assert_eq!(poly(&[0, 0, 0]).coefficients(), vec![0]);
    assert_eq!(poly(&[0, 0, 0]).deg(), 0);
    assert_eq!(poly(&[]).coefficients(), vec![0]);
    assert_eq!(IntPolynomial::new(Vec::new()), IntPolynomial::zero());
    assert_eq!(IntPolynomial::zero().coefficients(), vec![0]);
}

#[test]
fn coefficients_are_canonical() {
    assert_eq!(poly(&[-1, DEFAULT_P + 2]).coefficients(), vec![DEFAULT_P - 1, 2]);
    assert_eq!(poly(&[3, 4]).coefficient(1).val, 4);
    assert_eq!(poly(&[3, 4]).coefficient(2).val, 0);
}

#[test]
fn scalar_zero_gives_the_zero_polynomial() {
    assert_eq!(poly(&[1, 2, 3, 4, 5]).mul_scalar(0), poly(&[0]));
    assert_eq!(poly(&[1, 2, 3, 4, 5]).mul_scalar(0).coefficients(), vec![0]);
    assert_eq!(poly(&[7]).mul_scalar(DEFAULT_P).deg(), 0);
    assert_eq!(poly(&[0]).mul_scalar(0), poly(&[0]));
}

#[test]
fn scalar_multiplication() {
    assert_eq!(poly(&[1, 2, 3]).mul_scalar(2), poly(&[2, 4, 6]));
    assert_eq!(poly(&[1, 2, 3]).mul_scalar(-1), poly(&[-1, -2, -3]));
}

#[test]
fn addition_and_subtraction() {
    let f = poly(&[1, 2, 3]);
    let g = poly(&[4, 5]);
    assert_eq!(f.add(&g), poly(&[5, 7, 3]));
    assert_eq!(f.sub(&g), poly(&[-3, -3, 3]));
    assert_eq!(f.sub(&f), poly(&[0]));
    assert_eq!(poly(&[1, 2, 3]).add(&poly(&[0, 0, -3])), poly(&[1, 2]));
    assert_eq!(f.add(&g).coefficients(), vec![5, 7, 3]);
}

#[test]
fn negation_negates_every_coefficient() {
    assert_eq!(poly(&[1, 2, 3]).neg(), poly(&[-1, -2, -3]));
    assert_eq!(poly(&[1, 2, 3]).neg().coefficients(), vec![DEFAULT_P - 1, DEFAULT_P - 2, DEFAULT_P - 3]);
    assert_eq!(poly(&[0]).neg(), poly(&[0]));
}

#[test]
fn modulo_keeps_the_first_coefficients() {
    let f = poly(&[1, 2, 0, 0, 5]);
    assert_eq!(f.modulo(5), f);
    assert_eq!(f.modulo(9), f);
    assert_eq!(f.modulo(4), poly(&[1, 2]));
    assert_eq!(f.modulo(1), poly(&[1]));
    assert_eq!(f.modulo(0), poly(&[0]));
}

#[test]
fn reciprocal_reverses_the_coefficients() {
    assert_eq!(poly(&[1, 2, 3]).reciprocal(), poly(&[3, 2, 1]));
    assert_eq!(poly(&[0, 0, 3]).reciprocal(), poly(&[3]));
    assert_eq!(poly(&[0]).reciprocal(), poly(&[0]));
}

#[test]
fn shifts_insert_and_drop_low_coefficients() {
    assert_eq!(poly(&[1, 2]).rshift(2), poly(&[0, 0, 1, 2]));
    assert_eq!(poly(&[0]).rshift(3), poly(&[0]));
    assert_eq!(poly(&[1, 2, 3]).lshift(1), poly(&[2, 3]));
    assert_eq!(poly(&[1, 2, 3]).lshift(3), poly(&[0]));
    assert_eq!(poly(&[1, 2, 3]).lshift(7), poly(&[0]));
}

#[test]
fn ring_laws_on_examples() {
    let f = poly(&[1, -2, 3, 7]);
    let g = poly(&[5, 0, 11]);
    let h = poly(&[DEFAULT_P - 1, 2, 0, 0, 9]);
    assert_eq!(f.add(&g), g.add(&f));
    assert_eq!(f.add(&g).add(&h), f.add(&g.add(&h)));
    assert_eq!(
        f.add(&g).mul(&h).unwrap(),
        f.mul(&h).unwrap().add(&g.mul(&h).unwrap())
    );
    assert_eq!(
        f.mul(&g.mul(&h).unwrap()).unwrap(),
        f.mul(&g).unwrap().mul(&h).unwrap()
    );
    assert_eq!(f.mul(&g).unwrap(), g.mul(&f).unwrap());
}

#[test]
fn product_matches_schoolbook_multiplication() {
    let a: Vec<i64> = vec![3, 1, 4, 1, 5, 9, 2, 6, 5, 3, 5];
    let b: Vec<i64> = vec![2, 7, 1, 8, 2, 8, 1, 8];
    let mut expected = vec![0i64; a.len() + b.len() - 1];
    for i in 0..a.len() {
        for j in 0..b.len() {
            expected[i + j] = (expected[i + j] + a[i] * b[j]) % DEFAULT_P;
        }
    }
    assert_eq!(poly(&a).mul(&poly(&b)).unwrap().coefficients(), expected);
}

#[test]
fn product_with_zero_is_zero() {
    assert_eq!(poly(&[1, 2, 3]).mul(&poly(&[0])).unwrap(), poly(&[0]));
}

#[test]
fn clone_gives_an_equal_polynomial() {
    let f = poly(&[1, 2, 3]);
    assert_eq!(f.clone(), f);
    assert!(f.equals(&f.clone()));
    assert!(!f.equals(&poly(&[1, 2])));
}

#[test]
fn product_of_long_polynomials() {
    let a: Vec<i64> = (0..700i64).map(|i| (i * 7919 + 3) % DEFAULT_P).collect();
    let b: Vec<i64> = (0..500i64).map(|i| (i * i + 11) % DEFAULT_P).collect();
    let mut expected = vec![0i64; a.len() + b.len() - 1];
    for i in 0..a.len() {
        for j in 0..b.len() {
            expected[i + j] = (expected[i + j] + a[i] * b[j]) % DEFAULT_P;
        }
    }
    let product = poly(&a).mul(&poly(&b)).unwrap();
    assert_eq!(product.coefficients(), expected);
    assert_eq!(product.deg(), 1198);
}

#[test]
fn division_undoes_multiplication() {
    let q: Vec<i64> = (0..3000i64).map(|i| (i * 31 + 1) % DEFAULT_P).collect();
    let mut g: Vec<i64> = (0..1000i64).map(|i| (i * i * 3 + 2) % DEFAULT_P).collect();
    g.push(DEFAULT_P - 1);
    let r = poly(&[9, 8, 7]);
    let f = poly(&q).mul(&poly(&g)).unwrap().add(&r);
    let (quotient, rest) = f.div_rem(&poly(&g)).unwrap();
    assert_eq!(quotient, poly(&q));
    assert_eq!(rest, r);
}

#[test]
fn division_of_the_zero_polynomial() {
    let zero = IntPolynomial::zero();
    let (q, r) = zero.div_rem(&poly(&[1])).unwrap();
    assert_eq!(q, zero);
    assert_eq!(r, zero);
    let (q, r) = zero.div_rem(&poly(&[1, 1])).unwrap();
    assert_eq!(q, zero);
    assert_eq!(r, zero);
}

#[test]
fn division_with_equal_degrees() {
    // 3x^2 + 1 = 3 (x^2 + x) + (-3x + 1)
    let f = poly(&[1, 0, 3]);
    let g = poly(&[0, 1, 1]);
    let (q, r) = f.div_rem(&g).unwrap();
    assert_eq!(q, poly(&[3]));
    assert_eq!(r, poly(&[1, -3]));
}
