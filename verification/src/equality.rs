use crate::big_integer::BigInteger;
use crate::field::GaloisField;
use crate::int_polynomial::IntPolynomial;
use vstd::prelude::*;
use vstd::std_specs::cmp::PartialEqSpecImpl;

verus! {

impl PartialEq for GaloisField {
    /// Two representatives are equal where they stand for the same element.
    fn eq(&self, other: &GaloisField) -> (r: bool) {
        self.equals(other)
    }
}

impl PartialEqSpecImpl for GaloisField {
    open spec fn obeys_eq_spec() -> bool {
        true
    }

    open spec fn eq_spec(&self, other: &GaloisField) -> bool {
        self@ == other@
    }
}

impl Eq for GaloisField {

}

impl PartialEq for IntPolynomial {
    /// Two polynomials are equal where they have the same coefficients.
    fn eq(&self, other: &IntPolynomial) -> (r: bool) {
        self.equals(other)
    }
}

impl PartialEqSpecImpl for IntPolynomial {
    open spec fn obeys_eq_spec() -> bool {
        true
    }

    open spec fn eq_spec(&self, other: &IntPolynomial) -> bool {
        self@ == other@
    }
}

impl Eq for IntPolynomial {

}

impl PartialEq for BigInteger {
    /// Two numbers are equal where they have the same limbs and sign.
    fn eq(&self, other: &BigInteger) -> (r: bool) {
        self.equals(other)
    }
}

impl PartialEqSpecImpl for BigInteger {
    open spec fn obeys_eq_spec() -> bool {
        true
    }

    open spec fn eq_spec(&self, other: &BigInteger) -> bool {
        self.limbs() == other.limbs() && self.spec_sign() == other.spec_sign()
    }
}

impl Eq for BigInteger {

}

} // verus!
