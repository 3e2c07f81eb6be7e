use mathion::error::AlgebraError;
use mathion::fft::{do_fft, transform_log, FFTType};
use mathion::field::{GaloisField, DEFAULT_P};
use mathion::small_ntt::{fast_pow, fft, P};

fn elements(v: &[i64]) -> Vec<GaloisField> {
    v.iter().map(|&x| GaloisField::from(x)).collect()
}

fn values(v: &[GaloisField]) -> Vec<i64> {
    v.iter().map(|x| x.canonical().val).collect()
}

#[test]
fn inverse_undoes_forward() {
    let input: Vec<i64> = vec![1, 2, 3, 4, 5, 6, 7, 8];
    let mut buffer = elements(&input);
    assert_eq!(do_fft(&mut buffer, FFTType::Straight), Ok(()));
    assert_ne!(values(&buffer), input);
    assert_eq!(do_fft(&mut buffer, FFTType::Inverse), Ok(()));
    assert_eq!(values(&buffer), input);
}

#[test]
fn inverse_undoes_forward_on_a_long_buffer() {
    let input: Vec<i64> = (0..1024i64).map(|i| (i * i * 31 + 7) % DEFAULT_P).collect();
    let mut buffer = elements(&input);
    assert_eq!(do_fft(&mut buffer, FFTType::Straight), Ok(()));
    assert_eq!(do_fft(&mut buffer, FFTType::Inverse), Ok(()));
    assert_eq!(values(&buffer), input);
}

#[test]
fn round_trip_reduces_representatives() {
    let mut buffer = elements(&[-1, DEFAULT_P + 3]);
    assert_eq!(do_fft(&mut buffer, FFTType::Straight), Ok(()));
    assert_eq!(do_fft(&mut buffer, FFTType::Inverse), Ok(()));
    assert_eq!(values(&buffer), vec![DEFAULT_P - 1, 3]);
}

#[test]
fn forward_transform_evaluates_at_the_roots() {
    // For length 2 the root is -1: the values are a + b and a - b.
    let mut buffer = elements(&[5, 3]);
    assert_eq!(do_fft(&mut buffer, FFTType::Straight), Ok(()));
    assert_eq!(values(&buffer), vec![8, 2]);
    // For length 4 the values are those of 1 + 2x + 3x^2 + 4x^3 at the
    // powers of the fourth root of unity.
    let w = GaloisField::get_1s_roots(4, FFTType::Straight).val;
    let mut expected: Vec<i64> = Vec::new();
    for t in 0..4i64 {
        let x = fast_pow(w, t);
        let mut sum: i64 = 0;
        let mut power: i64 = 1;
        for c in [1i64, 2, 3, 4] {
            sum = (sum + c * power) % P;
            power = power * x % P;
        }
        expected.push(sum);
    }
    let mut buffer = elements(&[1, 2, 3, 4]);
    assert_eq!(do_fft(&mut buffer, FFTType::Straight), Ok(()));
    assert_eq!(values(&buffer), expected);
}

#[test]
fn transform_of_one_element_keeps_it() {
    let mut buffer = elements(&[42]);
    assert_eq!(do_fft(&mut buffer, FFTType::Straight), Ok(()));
    assert_eq!(values(&buffer), vec![42]);
    assert_eq!(do_fft(&mut buffer, FFTType::Inverse), Ok(()));
    assert_eq!(values(&buffer), vec![42]);
}

#[test]
fn invalid_lengths_are_refused_and_leave_the_buffer() {
    let mut buffer = elements(&[1, 2, 3]);
    assert_eq!(
        do_fft(&mut buffer, FFTType::Straight),
        Err(AlgebraError::InvalidTransformLength)
    );
    assert_eq!(values(&buffer), vec![1, 2, 3]);
    let mut empty: Vec<GaloisField> = Vec::new();
    assert_eq!(
        do_fft(&mut empty, FFTType::Inverse),
        Err(AlgebraError::InvalidTransformLength)
    );
    let mut six = elements(&[1, 2, 3, 4, 5, 6]);
    assert_eq!(
        do_fft(&mut six, FFTType::Inverse),
        Err(AlgebraError::InvalidTransformLength)
    );
}

#[test]
fn transform_log_accepts_powers_of_two_up_to_the_limit() {
    assert_eq!(transform_log(1), Some(0));
    assert_eq!(transform_log(2), Some(1));
    assert_eq!(transform_log(1024), Some(10));
    assert_eq!(transform_log(1 << 26), Some(26));
    assert_eq!(transform_log(1 << 27), None);
    assert_eq!(transform_log(0), None);
    assert_eq!(transform_log(12), None);
}

#[test]
fn roots_of_unity_have_their_order() {
    let w = GaloisField::get_1s_roots(8, FFTType::Straight);
    let v = GaloisField::get_1s_roots(8, FFTType::Inverse);
    assert_eq!(w.pow(8).val, 1);
    assert_eq!(w.pow(4).val, DEFAULT_P - 1);
    assert_eq!(w.mul(v).val, 1);
    assert_eq!(GaloisField::get_1s_roots(1, FFTType::Straight).val, 1);
    assert_eq!(GaloisField::type_cast(5).val, 5);
}

#[test]
fn integer_transform_round_trip() {
    let input: Vec<i64> = vec![9, 8, 7, 6, 5, 4, 3, 2, 1, 0, 1, 2, 3, 4, 5, 6];
    let mut buffer = input.clone();
    fft(&mut buffer, 4, false);
    assert_ne!(buffer, input);
    fft(&mut buffer, 4, true);
    assert_eq!(buffer, input);
}

#[test]
fn integer_transform_matches_field_transform() {
    let mut ints: Vec<i64> = vec![1, -2, 3, -4];
    let mut field = elements(&ints);
    fft(&mut ints, 2, false);
    assert_eq!(do_fft(&mut field, FFTType::Straight), Ok(()));
    assert_eq!(ints, values(&field));
}

#[test]
fn fast_pow_over_the_field() {
    assert_eq!(fast_pow(3, P - 1), 1);
    assert_eq!(fast_pow(3, (P - 1) / 2), P - 1);
    assert_eq!(fast_pow(2, 10), 1024);
    assert_eq!(fast_pow(7, 0), 1);
    assert_eq!(fast_pow(-1, 3), P - 1);
}
