use mathion::big_integer::{BigInteger, Sign};

#[test]
fn new_keeps_limbs_and_sign() {
    let x = BigInteger::new(vec![1, 2, 3], Sign::Negative);
    assert_eq!(x.to_limbs(), vec![1, 2, 3]);
    assert_eq!(x.sign(), Sign::Negative);
}

#[test]
fn addition_without_carry() {
    let a = BigInteger::new(vec![12351806, 0], Sign::Positive);
    let b = BigInteger::new(vec![32, 32], Sign::Positive);
    let sum = a.add(&b);
    assert_eq!(sum.to_limbs(), vec![12351838, 32]);
    assert_eq!(sum.sign(), Sign::Positive);
}

#[test]
fn addition_carries_into_the_next_limb() {
    let a = BigInteger::new(vec![u64::MAX, u64::MAX], Sign::Positive);
    let b = BigInteger::new(vec![1], Sign::Negative);
    let sum = a.add(&b);
    assert_eq!(sum.to_limbs(), vec![0, 0, 1]);
    assert_eq!(sum.sign(), Sign::Positive);
    let c = BigInteger::new(vec![u64::MAX], Sign::Negative);
    let d = BigInteger::new(vec![u64::MAX, 7], Sign::Positive);
    let e = c.add(&d);
    assert_eq!(e.to_limbs(), vec![u64::MAX - 1, 8]);
    assert_eq!(e.sign(), Sign::Negative);
}

#[test]
fn addition_of_empty_numbers() {
    let a = BigInteger::new(Vec::new(), Sign::Positive);
    let b = BigInteger::new(vec![5], Sign::Positive);
    assert_eq!(a.add(&b).to_limbs(), vec![5]);
    assert_eq!(a.add(&a).to_limbs(), Vec::<u64>::new());
}

#[test]
fn subtraction_of_the_smaller_number() {
    let a = BigInteger::new(vec![12351838, 32], Sign::Positive);
    let b = BigInteger::new(vec![32, 32], Sign::Positive);
    assert_eq!(a.sub(&b), BigInteger::new(vec![12351806, 0], Sign::Positive));
}

#[test]
fn subtraction_borrows_from_the_next_limb() {
    let a = BigInteger::new(vec![0, 0, 1], Sign::Negative);
    let b = BigInteger::new(vec![1], Sign::Positive);
    let d = a.sub(&b);
    assert_eq!(d.to_limbs(), vec![u64::MAX, u64::MAX, 0]);
    assert_eq!(d.sign(), Sign::Negative);
}

#[test]
fn subtraction_of_the_larger_number_wraps() {
    let a = BigInteger::new(vec![1], Sign::Positive);
    let b = BigInteger::new(vec![2, 0], Sign::Positive);
    assert_eq!(a.sub(&b).to_limbs(), vec![u64::MAX, u64::MAX]);
}

#[test]
fn sum_and_difference_undo_each_other() {
    let a = BigInteger::new(vec![u64::MAX, 5, 9], Sign::Positive);
    let b = BigInteger::new(vec![7, u64::MAX, 1], Sign::Positive);
    assert_eq!(a.add(&b).to_limbs(), vec![6, 5, 11]);
    assert_eq!(a.add(&b).sub(&b).to_limbs(), vec![u64::MAX, 5, 9]);
    let c = BigInteger::new(vec![u64::MAX, u64::MAX], Sign::Positive);
    assert_eq!(c.add(&c).to_limbs(), vec![u64::MAX - 1, u64::MAX, 1]);
    assert_eq!(c.add(&c).sub(&c).to_limbs(), vec![u64::MAX, u64::MAX, 0]);
}

#[test]
fn zero_and_one() {
    assert_eq!(BigInteger::zero(), BigInteger::new(vec![0], Sign::Positive));
    assert_eq!(BigInteger::one(), BigInteger::new(vec![1], Sign::Positive));
    assert_ne!(BigInteger::one(), BigInteger::new(vec![1], Sign::Negative));
    assert_eq!(BigInteger::one().clone(), BigInteger::one());
}
