use crate::division::{div_fits, is_division, is_remainder, is_unit_lead};
use crate::error::AlgebraError;
use crate::field::{modulus, pow_mod, GaloisField};
use crate::int_polynomial::{mul_fits, IntPolynomial};
use crate::poly_spec::{is_poly, poly_add, poly_mul, poly_neg, poly_scale, poly_sub};
use core::ops::{Add, Div, Mul, Neg, Rem, Sub};
use vstd::prelude::*;
use vstd::std_specs::ops::{
    AddSpecImpl, DivSpecImpl, MulSpecImpl, NegSpecImpl, RemSpecImpl, SubSpecImpl,
};

verus! {

impl Add for GaloisField {
    type Output = GaloisField;

    /// The sum of two elements.
    fn add(self, other: GaloisField) -> (r: GaloisField) {
        GaloisField::add(self, other)
    }
}

impl AddSpecImpl for GaloisField {
    open spec fn obeys_add_spec() -> bool {
        true
    }

    open spec fn add_req(self, other: GaloisField) -> bool {
        true
    }

    open spec fn add_spec(self, other: GaloisField) -> GaloisField {
        GaloisField { val: ((self.val + other.val) % modulus()) as i64 }
    }
}

impl Sub for GaloisField {
    type Output = GaloisField;

    /// The difference of two elements.
    fn sub(self, other: GaloisField) -> (r: GaloisField) {
        GaloisField::sub(self, other)
    }
}

impl SubSpecImpl for GaloisField {
    open spec fn obeys_sub_spec() -> bool {
        true
    }

    open spec fn sub_req(self, other: GaloisField) -> bool {
        true
    }

    open spec fn sub_spec(self, other: GaloisField) -> GaloisField {
        GaloisField { val: ((self.val - other.val) % modulus()) as i64 }
    }
}

impl Mul for GaloisField {
    type Output = GaloisField;

    /// The product of two elements.
    fn mul(self, other: GaloisField) -> (r: GaloisField) {
        GaloisField::mul(self, other)
    }
}

impl MulSpecImpl for GaloisField {
    open spec fn obeys_mul_spec() -> bool {
        true
    }

    open spec fn mul_req(self, other: GaloisField) -> bool {
        true
    }

    open spec fn mul_spec(self, other: GaloisField) -> GaloisField {
        GaloisField { val: ((self.val * other.val) % modulus()) as i64 }
    }
}

impl Neg for GaloisField {
    type Output = GaloisField;

    /// The additive inverse of the element.
    fn neg(self) -> (r: GaloisField) {
        GaloisField::neg(&self)
    }
}

impl NegSpecImpl for GaloisField {
    open spec fn obeys_neg_spec() -> bool {
        true
    }

    open spec fn neg_req(self) -> bool {
        true
    }

    open spec fn neg_spec(self) -> GaloisField {
        GaloisField { val: ((-self.val) % modulus()) as i64 }
    }
}

impl Div for GaloisField {
    type Output = Result<GaloisField, AlgebraError>;

    /// The quotient of two elements; division by the zero element is
    /// refused.
    fn div(self, other: GaloisField) -> (r: Result<GaloisField, AlgebraError>) {
        GaloisField::div(self, other)
    }
}

impl DivSpecImpl for GaloisField {
    open spec fn obeys_div_spec() -> bool {
        true
    }

    open spec fn div_req(self, other: GaloisField) -> bool {
        true
    }

    open spec fn div_spec(self, other: GaloisField) -> Result<GaloisField, AlgebraError> {
        if other@ == 0 {
            Err(AlgebraError::DivideByZero)
        } else {
            Ok(
                GaloisField {
                    val: ((self.val * pow_mod(
                        other.val as int,
                        (modulus() - 2) as nat,
                        modulus(),
                    )) % modulus()) as i64,
                },
            )
        }
    }
}

impl Add for IntPolynomial {
    type Output = IntPolynomial;

    /// The sum of two polynomials.
    fn add(self, other: IntPolynomial) -> (r: IntPolynomial)
        ensures
            r@ == poly_add(self@, other@),
            is_poly(r@),
    {
        IntPolynomial::add(&self, &other)
    }
}

impl AddSpecImpl for IntPolynomial {
    /// What the operator returns is stated by its `ensures`, over the view
    /// of the result, and not by a value of this type.
    open spec fn obeys_add_spec() -> bool {
        false
    }

    open spec fn add_req(self, other: IntPolynomial) -> bool {
        true
    }

    open spec fn add_spec(self, other: IntPolynomial) -> IntPolynomial {
        self
    }
}

impl Sub for IntPolynomial {
    type Output = IntPolynomial;

    /// The difference of two polynomials.
    fn sub(self, other: IntPolynomial) -> (r: IntPolynomial)
        ensures
            r@ == poly_sub(self@, other@),
            is_poly(r@),
    {
        IntPolynomial::sub(&self, &other)
    }
}

impl SubSpecImpl for IntPolynomial {
    /// What the operator returns is stated by its `ensures`, over the view
    /// of the result, and not by a value of this type.
    open spec fn obeys_sub_spec() -> bool {
        false
    }

    open spec fn sub_req(self, other: IntPolynomial) -> bool {
        true
    }

    open spec fn sub_spec(self, other: IntPolynomial) -> IntPolynomial {
        self
    }
}

impl Neg for IntPolynomial {
    type Output = IntPolynomial;

    /// The negation of a polynomial.
    fn neg(self) -> (r: IntPolynomial)
        ensures
            r@ == poly_neg(self@),
            is_poly(r@),
    {
        IntPolynomial::neg(&self)
    }
}

impl NegSpecImpl for IntPolynomial {
    /// What the operator returns is stated by its `ensures`, over the view
    /// of the result, and not by a value of this type.
    open spec fn obeys_neg_spec() -> bool {
        false
    }

    open spec fn neg_req(self) -> bool {
        true
    }

    open spec fn neg_spec(self) -> IntPolynomial {
        self
    }
}

impl Mul for IntPolynomial {
    type Output = Result<IntPolynomial, AlgebraError>;

    /// The product of two polynomials; operands too long for a transform
    /// are refused.
    fn mul(self, other: IntPolynomial) -> (r: Result<IntPolynomial, AlgebraError>)
        ensures
            r is Ok <==> mul_fits(self@, other@),
            r is Ok ==> r->Ok_0@ == poly_mul(self@, other@) && is_poly(r->Ok_0@),
            r is Err ==> r->Err_0 == AlgebraError::InvalidTransformLength,
    {
        IntPolynomial::mul(&self, &other)
    }
}

impl MulSpecImpl for IntPolynomial {
    /// What the operator returns is stated by its `ensures`, over the view
    /// of the result, and not by a value of this type.
    open spec fn obeys_mul_spec() -> bool {
        false
    }

    open spec fn mul_req(self, other: IntPolynomial) -> bool {
        true
    }

    open spec fn mul_spec(self, other: IntPolynomial) -> Result<IntPolynomial, AlgebraError> {
        Ok(self)
    }
}

impl Mul<i64> for IntPolynomial {
    type Output = IntPolynomial;

    /// The polynomial times an integer, taken as an element of the field.
    fn mul(self, other: i64) -> (r: IntPolynomial)
        ensures
            r@ == poly_scale(self@, other as int),
            is_poly(r@),
    {
        self.mul_scalar(other)
    }
}

impl MulSpecImpl<i64> for IntPolynomial {
    /// What the operator returns is stated by its `ensures`, over the view
    /// of the result, and not by a value of this type.
    open spec fn obeys_mul_spec() -> bool {
        false
    }

    open spec fn mul_req(self, other: i64) -> bool {
        true
    }

    open spec fn mul_spec(self, other: i64) -> IntPolynomial {
        self
    }
}

impl Mul<IntPolynomial> for i64 {
    type Output = IntPolynomial;

    /// An integer, taken as an element of the field, times a polynomial.
    fn mul(self, other: IntPolynomial) -> (r: IntPolynomial)
        ensures
            r@ == poly_scale(other@, self as int),
            is_poly(r@),
    {
        other.mul_scalar(self)
    }
}

impl MulSpecImpl<IntPolynomial> for i64 {
    /// What the operator returns is stated by its `ensures`, over the view
    /// of the result, and not by a value of this type.
    open spec fn obeys_mul_spec() -> bool {
        false
    }

    open spec fn mul_req(self, other: IntPolynomial) -> bool {
        true
    }

    open spec fn mul_spec(self, other: IntPolynomial) -> IntPolynomial {
        other
    }
}

impl Div for IntPolynomial {
    type Output = Result<IntPolynomial, AlgebraError>;

    /// The quotient on division by a polynomial that is monic up to sign.
    fn div(self, other: IntPolynomial) -> (r: Result<IntPolynomial, AlgebraError>)
        ensures
            r is Ok <==> is_unit_lead(other@) && div_fits(self@, other@),
            r is Ok ==> is_division(
                self@,
                other@,
                r->Ok_0@,
                poly_sub(self@, poly_mul(r->Ok_0@, other@)),
            ),
            r is Err ==> r->Err_0 == (if is_unit_lead(other@) {
                AlgebraError::InvalidTransformLength
            } else {
                AlgebraError::NonMonicDivisor
            }),
    {
        IntPolynomial::div(&self, &other)
    }
}

impl DivSpecImpl for IntPolynomial {
    /// What the operator returns is stated by its `ensures`, over the view
    /// of the result, and not by a value of this type.
    open spec fn obeys_div_spec() -> bool {
        false
    }

    open spec fn div_req(self, other: IntPolynomial) -> bool {
        true
    }

    open spec fn div_spec(self, other: IntPolynomial) -> Result<IntPolynomial, AlgebraError> {
        Ok(self)
    }
}

impl Rem for IntPolynomial {
    type Output = Result<IntPolynomial, AlgebraError>;

    /// The remainder on division by a polynomial that is monic up to sign.
    fn rem(self, other: IntPolynomial) -> (r: Result<IntPolynomial, AlgebraError>)
        ensures
            r is Ok <==> is_unit_lead(other@) && div_fits(self@, other@),
            r is Ok ==> is_remainder(self@, other@, r->Ok_0@),
            r is Err ==> r->Err_0 == (if is_unit_lead(other@) {
                AlgebraError::InvalidTransformLength
            } else {
                AlgebraError::NonMonicDivisor
            }),
    {
        IntPolynomial::rem(&self, &other)
    }
}

impl RemSpecImpl for IntPolynomial {
    /// What the operator returns is stated by its `ensures`, over the view
    /// of the result, and not by a value of this type.
    open spec fn obeys_rem_spec() -> bool {
        false
    }

    open spec fn rem_req(self, other: IntPolynomial) -> bool {
        true
    }

    open spec fn rem_spec(self, other: IntPolynomial) -> Result<IntPolynomial, AlgebraError> {
        Ok(self)
    }
}

} // verus!
