use crate::bit_reverse::{lemma_two_pow_monotonic, two_pow};
use crate::dft::residues;
use crate::division::{
    div_fits, is_division, is_remainder, is_series_inverse, is_unit_lead, lemma_newton_step, lemma_poly_reverse,
    lemma_poly_truncate, lemma_quotient_from_inverse, quotient_coefficients,
};
use crate::error::AlgebraError;
use crate::field::{lemma_canonical_view, modulus, GaloisField, DEFAULT_P};
use crate::int_polynomial::{all_canonical, IntPolynomial};
use crate::poly_spec::{
    coeff, conv_term, degree, is_poly, lemma_poly_from, lemma_same_coefficients, poly_add, poly_mul,
    poly_sub, zero_poly,
};
use crate::ring_laws::{lemma_poly_add, lemma_poly_mul, lemma_poly_scale, lemma_poly_sub};
use crate::sums::{lemma_sum_zero, sum_to};
use vstd::arithmetic::div_mod::{lemma_small_mod, lemma_sub_mod_noop};
use vstd::prelude::*;

verus! {

/// The zero polynomial as quotient and the dividend as remainder divide a
/// dividend of lower degree than the divisor.
pub proof fn lemma_division_of_lower_degree(f: Seq<int>, g: Seq<int>)
    requires
        is_poly(f),
        is_poly(g),
        degree(f) < degree(g),
    ensures
        is_division(f, g, zero_poly(), f),
{
    let p = modulus();
    let z = zero_poly();
    lemma_poly_mul(z, g);
    lemma_poly_add(poly_mul(z, g), f);
    assert forall|k: int| 0 <= k implies coeff(poly_add(poly_mul(z, g), f), k) == #[trigger] coeff(
        f,
        k,
    ) by {
        let t = conv_term(z, g, k);
        assert forall|i: int| 0 <= i < k + 1 implies #[trigger] t(i) == 0 by {
            assert(coeff(z, i) == 0);
            assert(0 * coeff(g, k - i) == 0);
        }
        lemma_sum_zero(t, k + 1);
        lemma_small_mod(0, p as nat);
        if k < f.len() {
            lemma_small_mod(coeff(f, k) as nat, p as nat);
        }
    }
    lemma_same_coefficients(poly_add(poly_mul(z, g), f), f);
}

/// The leading coefficient of a polynomial that is monic up to sign
/// inverts the reversed polynomial up to `x^1`.
pub proof fn lemma_inverse_seed(rg: Seq<int>, h: Seq<int>, u: int)
    requires
        u == 1 || u == modulus() - 1,
        coeff(rg, 0) == u,
        h == seq![u],
    ensures
        is_series_inverse(rg, h, 1),
{
    let t = conv_term(rg, h, 0);
    assert(sum_to(t, 1) == sum_to(t, 0) + t(0));
    assert(sum_to(t, 0) == 0);
    assert(t(0) == u * u);
    assert((1int * 1int) % 469762049int == 1);
    assert((469762048int * 469762048int) % 469762049int == 1);
}

impl IntPolynomial {
    /// Whether the leading coefficient is `1` or `-1`.
    pub fn is_monic_up_to_sign(&self) -> (r: bool)
        ensures
            r == is_unit_lead(self@),
    {
        let m = self.deg();
        let lead = self.coefficient(m);
        lead.val == 1 || lead.val == DEFAULT_P - 1
    }

    /// One step of the Newton iteration: from an inverse of `rg` up to
    /// `x^half`, an inverse up to `x^(2 half)`.
    fn newton_step(rg: &IntPolynomial, h: &IntPolynomial, half: usize) -> (r: Result<
        IntPolynomial,
        AlgebraError,
    >)
        requires
            1 <= half <= 8388608,
            h@.len() <= half,
            is_series_inverse(rg@, h@, half as int),
        ensures
            r is Ok,
            is_series_inverse(rg@, r->Ok_0@, 2 * half),
            r->Ok_0@.len() <= 2 * half,
    {
        let prec: usize = 2 * half;
        let gt = rg.modulo(prec);
        proof {
            lemma_poly_truncate(rg@, prec as int);
        }
        let a = match gt.mul(h) {
            Ok(x) => x,
            Err(e) => {
                return Err(e);
            },
        };
        proof {
            lemma_poly_mul(gt@, h@);
            lemma_poly_from(crate::poly_spec::mul_coeff(gt@, h@), gt@.len() + h@.len() - 1);
        }
        let b = match a.mul(h) {
            Ok(x) => x,
            Err(e) => {
                return Err(e);
            },
        };
        let two_h = h.mul_scalar(2);
        let diff = two_h.sub(&b);
        let next = diff.modulo(prec);
        proof {
            let p = modulus();
            lemma_poly_mul(a@, h@);
            lemma_poly_scale(h@, 2);
            lemma_poly_sub(two_h@, b@);
            lemma_poly_truncate(diff@, prec as int);
            assert forall|k: int| 0 <= k < 2 * half implies #[trigger] coeff(next@, k) == (2
                * coeff(h@, k) - coeff(b@, k)) % p by {
                lemma_sub_mod_noop(coeff(h@, k) * 2, coeff(b@, k), p);
                lemma_sub_mod_noop((coeff(h@, k) * 2) % p, coeff(b@, k), p);
                vstd::arithmetic::div_mod::lemma_mod_twice(coeff(h@, k) * 2, p);
            }
            lemma_newton_step(rg@, h@, gt@, a@, b@, next@, half as int);
        }
        Ok(next)
    }

    /// The inverse of `rg` as a power series, up to `x^count`, by Newton
    /// iteration from the inverse of its constant coefficient.
    fn series_inverse(rg: &IntPolynomial, lead: GaloisField, count: usize) -> (r: Result<
        IntPolynomial,
        AlgebraError,
    >)
        requires
            lead.val == 1 || lead.val == modulus() - 1,
            coeff(rg@, 0) == lead.val,
            1 <= count <= 16777216,
        ensures
            r is Ok,
            is_series_inverse(rg@, r->Ok_0@, count as int),
            r->Ok_0@.len() <= 16777216,
    {
        let mut seed: Vec<GaloisField> = Vec::new();
        seed.push(lead);
        proof {
            lemma_canonical_view(lead);
            assert(residues(seed@) =~= seq![lead.val as int]);
        }
        let mut h = IntPolynomial::from_canonical(seed);
        proof {
            assert(h@ == seq![lead.val as int]);
            lemma_inverse_seed(rg@, h@, lead.val as int);
            assert(two_pow(24) == 16777216) by {
                reveal_with_fuel(two_pow, 25);
            }
            assert(two_pow(23) == 8388608) by {
                reveal_with_fuel(two_pow, 24);
            }
        }
        let mut prec: usize = 1;
        let ghost mut e: nat = 0;
        while prec < count
            invariant
                prec == two_pow(e),
                e <= 24,
                1 <= prec <= 16777216,
                count <= 16777216,
                h@.len() <= prec,
                is_series_inverse(rg@, h@, prec as int),
                two_pow(24) == 16777216,
                two_pow(23) == 8388608,
            decreases 24 - e,
        {
            proof {
                if e >= 24 {
                    lemma_two_pow_monotonic(24, e);
                }
                lemma_two_pow_monotonic(e, 23);
            }
            h = match IntPolynomial::newton_step(rg, &h, prec) {
                Ok(x) => x,
                Err(err) => {
                    return Err(err);
                },
            };
            prec = 2 * prec;
            proof {
                e = e + 1;
                lemma_two_pow_monotonic(e, 24);
            }
        }
        Ok(h)
    }

    /// Quotient and remainder on division by a polynomial that is monic up
    /// to sign.
    ///
    /// The quotient comes from the reversed dividend and the power series
    /// inverse of the reversed divisor, the remainder from subtracting the
    /// quotient times the divisor. A dividend of lower degree than the
    /// divisor gives the quotient zero and itself as remainder.
    pub fn div_rem(&self, other: &IntPolynomial) -> (r: Result<
        (IntPolynomial, IntPolynomial),
        AlgebraError,
    >)
        ensures
            r is Ok <==> is_unit_lead(other@) && div_fits(self@, other@),
            r is Ok ==> is_division(self@, other@, r->Ok_0.0@, r->Ok_0.1@),
            r is Err ==> r->Err_0 == (if is_unit_lead(other@) {
                AlgebraError::InvalidTransformLength
            } else {
                AlgebraError::NonMonicDivisor
            }),
    {
        let n: usize = self.deg();
        let m: usize = other.deg();
        if !other.is_monic_up_to_sign() {
            return Err(AlgebraError::NonMonicDivisor);
        }
        if n < m {
            proof {
                lemma_division_of_lower_degree(self@, other@);
            }
            return Ok((IntPolynomial::zero(), self.clone()));
        }
        let d: usize = n - m;
        if d >= 16777216 || n >= 33554431 {
            return Err(AlgebraError::InvalidTransformLength);
        }
        let ghost f = self@;
        let ghost g = other@;
        let rf = self.reciprocal();
        let rg = other.reciprocal();
        let lead = other.coefficient(m);
        proof {
            lemma_poly_reverse(f);
            lemma_poly_reverse(g);
            assert(coeff(rg@, 0) == g[g.len() - 1 - 0]);
        }
        let h = match IntPolynomial::series_inverse(&rg, lead, d + 1) {
            Ok(x) => x,
            Err(e) => {
                return Err(e);
            },
        };
        let prod = match rf.mul(&h) {
            Ok(x) => x,
            Err(e) => {
                return Err(e);
            },
        };
        let mut data: Vec<GaloisField> = Vec::new();
        let mut j: usize = 0;
        proof {
            lemma_poly_mul(rf@, h@);
        }
        while j <= d
            invariant
                j <= d + 1,
                d < 16777216,
                data@.len() == j,
                all_canonical(data@),
                forall|i: int| 0 <= i < j ==> (#[trigger] data@[i]).val == coeff(prod@, d - i),
            decreases d + 1 - j,
        {
            data.push(prod.coefficient(d - j));
            j = j + 1;
        }
        proof {
            let raw = quotient_coefficients(rf@, h@, d as int);
            assert forall|i: int| 0 <= i < d + 1 implies #[trigger] residues(data@)[i]
                == raw[i] by {
                lemma_canonical_view(data@[i]);
            }
            assert(residues(data@) =~= raw);
            lemma_quotient_from_inverse(f, g, h@, (d + 1) as int);
            crate::poly_spec::lemma_trim(raw);
        }
        let q = IntPolynomial::from_canonical(data);
        let product = match q.mul(other) {
            Ok(x) => x,
            Err(e) => {
                return Err(e);
            },
        };
        let rest = self.sub(&product);
        Ok((q, rest))
    }

    /// The quotient on division by a polynomial that is monic up to sign;
    /// zero where the dividend is of lower degree than the divisor.
    pub fn div(&self, other: &IntPolynomial) -> (r: Result<IntPolynomial, AlgebraError>)
        ensures
            r is Ok <==> is_unit_lead(other@) && div_fits(self@, other@),
            r is Ok ==> is_division(
                self@,
                other@,
                r->Ok_0@,
                poly_sub(self@, poly_mul(r->Ok_0@, other@)),
            ),
            r is Err ==> r->Err_0 == (if is_unit_lead(other@) {
                AlgebraError::InvalidTransformLength
            } else {
                AlgebraError::NonMonicDivisor
            }),
    {
        let _m = other.deg();
        match self.div_rem(other) {
            Ok((q, rest)) => {
                proof {
                    crate::division_laws::lemma_remainder_is_difference(self@, other@, q@, rest@);
                }
                Ok(q)
            },
            Err(e) => Err(e),
        }
    }

    /// The remainder on division by a polynomial that is monic up to sign;
    /// the dividend where it is of lower degree than the divisor.
    pub fn rem(&self, other: &IntPolynomial) -> (r: Result<IntPolynomial, AlgebraError>)
        ensures
            r is Ok <==> is_unit_lead(other@) && div_fits(self@, other@),
            r is Ok ==> is_remainder(self@, other@, r->Ok_0@),
            r is Err ==> r->Err_0 == (if is_unit_lead(other@) {
                AlgebraError::InvalidTransformLength
            } else {
                AlgebraError::NonMonicDivisor
            }),
    {
        match self.div_rem(other) {
            Ok((q, rest)) => {
                proof {
                    assert(is_division(self@, other@, q@, rest@));
                }
                Ok(rest)
            },
            Err(e) => Err(e),
        }
    }
}

} // verus!
