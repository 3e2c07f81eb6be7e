use crate::field::{modulus, GaloisField};
use vstd::prelude::*;
use vstd::std_specs::convert::FromSpecImpl;

verus! {

impl From<i64> for GaloisField {
    /// The element that an integer stands for; the integer is kept as it is.
    fn from(target: i64) -> (r: GaloisField) {
        GaloisField { val: target }
    }
}

impl FromSpecImpl<i64> for GaloisField {
    open spec fn obeys_from_spec() -> bool {
        true
    }

    open spec fn from_spec(target: i64) -> GaloisField {
        GaloisField { val: target }
    }
}

impl From<usize> for GaloisField {
    /// The element that a size or an index stands for, reduced into `[0, P)`.
    fn from(target: usize) -> (r: GaloisField) {
        GaloisField::from_usize(target)
    }
}

impl FromSpecImpl<usize> for GaloisField {
    open spec fn obeys_from_spec() -> bool {
        true
    }

    open spec fn from_spec(target: usize) -> GaloisField {
        GaloisField { val: (target as int % modulus()) as i64 }
    }
}

} // verus!
