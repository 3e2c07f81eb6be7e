use crate::bit_reverse::{lemma_two_pow_monotonic, two_pow};
use crate::convolution::{
    lemma_convolution_theorem, lemma_product_seq_reduced, lemma_product_seq_trims_to_product,
    padded, product_seq,
};
use crate::dft::{forward_transform, lemma_two_pow_26, residues};
use crate::error::AlgebraError;
use crate::fft::{do_fft, FFTType};
use crate::field::{lemma_canonical_view, modulus, GaloisField};
use crate::poly_spec::poly_mul;
use crate::round_trip::lemma_transform_round_trip;
use crate::poly_spec::{
    add_coeff, degree, is_poly, is_reduced, is_trimmed, lemma_trim, neg_coeff, poly_add,
    poly_neg, poly_reverse, poly_scale, poly_shift_down, poly_shift_up, poly_sub, poly_truncate,
    scale_coeff, sub_coeff, trim, zero_poly,
};
use vstd::prelude::*;

verus! {

/// The canonical representatives of a sequence of integers.
pub open spec fn int_residues(s: Seq<i64>) -> Seq<int> {
    Seq::new(s.len(), |i: int| s[i] as int % modulus())
}

/// Whether the product of two polynomials can be computed: twice the
/// length of the longer one is below the largest transform length.
pub open spec fn mul_fits(f: Seq<int>, g: Seq<int>) -> bool {
    2 * vstd::math::max(f.len() as int, g.len() as int) < 67108864
}

/// Whether every element is held by its canonical representative.
pub open spec fn all_canonical(s: Seq<GaloisField>) -> bool {
    forall|i: int| 0 <= i < s.len() ==> (#[trigger] s[i]).is_canonical()
}

/// The residues of canonical elements are canonical.
pub proof fn lemma_residues_reduced(s: Seq<GaloisField>)
    ensures
        is_reduced(residues(s)),
{
    assert forall|i: int| 0 <= i < residues(s).len() implies 0 <= #[trigger] residues(s)[i]
        < modulus() by {
        vstd::arithmetic::div_mod::lemma_mod_bound(s[i].val as int, modulus());
    }
}

/// A polynomial made from integers does not depend on zeros after the
/// last of them: the integers with `k` zeros appended give the polynomial
/// that the integers alone give.
pub proof fn lemma_from_ignores_trailing_zeros(data: Seq<i64>, k: nat)
    ensures
        trim(int_residues(data + Seq::new(k, |i: int| 0i64))) == trim(int_residues(data)),
{
    let longer = int_residues(data + Seq::new(k, |i: int| 0i64));
    let padded = int_residues(data) + Seq::new(k, |i: int| 0int);
    assert(longer =~= padded) by {
        vstd::arithmetic::div_mod::lemma_small_mod(0, modulus() as nat);
    }
    crate::poly_spec::lemma_trailing_zeros(int_residues(data), k);
}

/// A polynomial over the field, dense: the coefficient of `x^i` at index
/// `i`, with no zero coefficient at the end but in the zero polynomial,
/// which is the single coefficient `0`.
#[derive(Debug)]
pub struct IntPolynomial {
    data: Vec<GaloisField>,
    deg: usize,
}

impl View for IntPolynomial {
    type V = Seq<int>;

    /// The coefficients, lowest power first, each in `[0, P)`.
    closed spec fn view(&self) -> Seq<int> {
        residues(self.data@)
    }
}

impl Clone for IntPolynomial {
    fn clone(&self) -> (r: Self)
        ensures
            r@ == self@,
    {
        proof {
            use_type_invariant(self);
        }
        IntPolynomial { data: self.data.clone(), deg: self.deg }
    }
}

impl IntPolynomial {
    #[verifier::type_invariant]
    spec fn inv(self) -> bool {
        &&& self.data@.len() == self.deg + 1
        &&& all_canonical(self.data@)
        &&& is_trimmed(residues(self.data@))
    }

    /// The polynomial that canonical coefficients write, trailing zeros
    /// left out.
    pub(crate) fn from_canonical(data: Vec<GaloisField>) -> (r: IntPolynomial)
        requires
            all_canonical(data@),
        ensures
            r@ == trim(residues(data@)),
            is_poly(r@),
    {
        let mut v = data;
        let ghost full = residues(data@);
        proof {
            lemma_residues_reduced(data@);
            lemma_trim(full);
        }
        if v.len() == 0 {
            v.push(GaloisField::zero());
            proof {
                lemma_canonical_view(v@[0]);
                assert(residues(v@) =~= zero_poly());
                lemma_residues_reduced(v@);
            }
            return IntPolynomial { data: v, deg: 0 };
        }
        let mut deg: usize = v.len() - 1;
        proof {
            assert(full.take(deg + 1) =~= full);
        }
        while deg > 0 && v[deg].val == 0
            invariant
                v@ == data@,
                deg < v@.len(),
                full == residues(data@),
                trim(full.take(deg + 1)) == trim(full),
            decreases deg,
        {
            proof {
                let s = full.take(deg + 1);
                lemma_canonical_view(v@[deg as int]);
                assert(s[s.len() - 1] == 0);
                assert(s.drop_last() =~= full.take(deg as int));
            }
            deg = deg - 1;
        }
        proof {
            let s = full.take(deg + 1);
            if deg > 0 {
                lemma_canonical_view(v@[deg as int]);
                assert(s[s.len() - 1] != 0);
            }
            assert(trim(s) == s);
        }
        v.truncate(deg + 1);
        proof {
            assert(residues(v@) =~= full.take(deg + 1));
            assert(all_canonical(v@));
        }
        IntPolynomial { data: v, deg }
    }

    /// The polynomial with the given coefficients, lowest power first.
    /// Trailing zeros are left out; no coefficient at all gives the zero
    /// polynomial.
    pub fn new(data: Vec<GaloisField>) -> (r: IntPolynomial)
        ensures
            r@ == trim(residues(data@)),
            is_poly(r@),
    {
        let mut v: Vec<GaloisField> = Vec::new();
        let mut i: usize = 0;
        while i < data.len()
            invariant
                i <= data@.len(),
                v@.len() == i,
                all_canonical(v@),
                forall|j: int| 0 <= j < i ==> (#[trigger] v@[j]).val == data@[j]@,
            decreases data@.len() - i,
        {
            v.push(data[i].canonical());
            i = i + 1;
        }
        proof {
            assert forall|j: int| 0 <= j < v@.len() implies #[trigger] residues(v@)[j]
                == residues(data@)[j] by {
                lemma_canonical_view(v@[j]);
            }
            assert(residues(v@) =~= residues(data@));
        }
        IntPolynomial::from_canonical(v)
    }

    /// The polynomial with the given coefficients; the same as [`IntPolynomial::new`].
    pub fn whole(data: Vec<GaloisField>) -> (r: IntPolynomial)
        ensures
            r@ == trim(residues(data@)),
            is_poly(r@),
    {
        IntPolynomial::new(data)
    }

    /// The polynomial whose coefficients are the residues of the given
    /// integers, lowest power first.
    pub fn from(data: Vec<i64>) -> (r: IntPolynomial)
        ensures
            r@ == trim(int_residues(data@)),
            is_poly(r@),
    {
        let mut v: Vec<GaloisField> = Vec::new();
        let mut i: usize = 0;
        while i < data.len()
            invariant
                i <= data@.len(),
                v@.len() == i,
                all_canonical(v@),
                forall|j: int|
                    0 <= j < i ==> (#[trigger] v@[j]).val == data@[j] as int % modulus(),
            decreases data@.len() - i,
        {
            v.push(GaloisField::from(data[i]).canonical());
            i = i + 1;
        }
        proof {
            assert forall|j: int| 0 <= j < v@.len() implies #[trigger] residues(v@)[j]
                == int_residues(data@)[j] by {
                lemma_canonical_view(v@[j]);
            }
            assert(residues(v@) =~= int_residues(data@));
        }
        IntPolynomial::from_canonical(v)
    }

    /// The zero polynomial.
    pub fn zero() -> (r: IntPolynomial)
        ensures
            r@ == zero_poly(),
    {
        let mut v: Vec<GaloisField> = Vec::new();
        v.push(GaloisField::zero());
        proof {
            lemma_canonical_view(v@[0]);
            assert(residues(v@) =~= zero_poly());
        }
        IntPolynomial { data: v, deg: 0 }
    }

    /// The degree: the index of the highest coefficient that is not zero,
    /// and zero for the zero polynomial.
    pub fn deg(&self) -> (d: usize)
        ensures
            d == degree(self@),
            is_poly(self@),
    {
        proof {
            use_type_invariant(self);
            lemma_residues_reduced(self.data@);
        }
        self.deg
    }

    /// The coefficients as integers in `[0, P)`, lowest power first.
    pub fn coefficients(&self) -> (v: Vec<i64>)
        ensures
            v@.len() == self@.len(),
            forall|i: int| 0 <= i < v@.len() ==> #[trigger] v@[i] as int == self@[i],
    {
        proof {
            use_type_invariant(self);
        }
        let mut v: Vec<i64> = Vec::new();
        let mut i: usize = 0;
        while i < self.data.len()
            invariant
                i <= self.data@.len(),
                v@.len() == i,
                all_canonical(self.data@),
                forall|j: int| 0 <= j < i ==> #[trigger] v@[j] as int == residues(self.data@)[j],
            decreases self.data@.len() - i,
        {
            proof {
                lemma_canonical_view(self.data@[i as int]);
            }
            v.push(self.data[i].val);
            i = i + 1;
        }
        v
    }

    /// The coefficient of `x^i`; zero above the degree.
    pub fn coefficient(&self, i: usize) -> (c: GaloisField)
        ensures
            c.val == crate::poly_spec::coeff(self@, i as int),
            c.is_canonical(),
    {
        proof {
            use_type_invariant(self);
        }
        if i < self.data.len() {
            proof {
                lemma_canonical_view(self.data@[i as int]);
            }
            self.data[i]
        } else {
            GaloisField::zero()
        }
    }

    /// The sum of two polynomials: coefficient by coefficient, the shorter
    /// operand continued with zeros.
    pub fn add(&self, other: &IntPolynomial) -> (r: IntPolynomial)
        ensures
            r@ == poly_add(self@, other@),
            is_poly(r@),
    {
        proof {
            use_type_invariant(self);
            use_type_invariant(other);
        }
        let n: usize = if self.data.len() > other.data.len() {
            self.data.len()
        } else {
            other.data.len()
        };
        let mut v: Vec<GaloisField> = Vec::new();
        let mut i: usize = 0;
        while i < n
            invariant
                i <= n,
                n == vstd::math::max(self@.len() as int, other@.len() as int),
                v@.len() == i,
                all_canonical(v@),
                all_canonical(self.data@),
                all_canonical(other.data@),
                forall|j: int|
                    0 <= j < i ==> (#[trigger] v@[j]).val == add_coeff(self@, other@)(j),
            decreases n - i,
        {
            let a = self.coefficient(i);
            let b = other.coefficient(i);
            v.push(a.add(b));
            i = i + 1;
        }
        proof {
            let target = Seq::new(n as nat, |j: int| add_coeff(self@, other@)(j));
            assert forall|j: int| 0 <= j < n implies #[trigger] residues(v@)[j] == target[j] by {
                lemma_canonical_view(v@[j]);
            }
            assert(residues(v@) =~= target);
        }
        IntPolynomial::from_canonical(v)
    }

    /// The difference of two polynomials: coefficient by coefficient, the
    /// shorter operand continued with zeros.
    pub fn sub(&self, other: &IntPolynomial) -> (r: IntPolynomial)
        ensures
            r@ == poly_sub(self@, other@),
            is_poly(r@),
    {
        proof {
            use_type_invariant(self);
            use_type_invariant(other);
        }
        let n: usize = if self.data.len() > other.data.len() {
            self.data.len()
        } else {
            other.data.len()
        };
        let mut v: Vec<GaloisField> = Vec::new();
        let mut i: usize = 0;
        while i < n
            invariant
                i <= n,
                n == vstd::math::max(self@.len() as int, other@.len() as int),
                v@.len() == i,
                all_canonical(v@),
                all_canonical(self.data@),
                all_canonical(other.data@),
                forall|j: int|
                    0 <= j < i ==> (#[trigger] v@[j]).val == sub_coeff(self@, other@)(j),
            decreases n - i,
        {
            let a = self.coefficient(i);
            let b = other.coefficient(i);
            v.push(a.sub(b));
            i = i + 1;
        }
        proof {
            let target = Seq::new(n as nat, |j: int| sub_coeff(self@, other@)(j));
            assert forall|j: int| 0 <= j < n implies #[trigger] residues(v@)[j] == target[j] by {
                lemma_canonical_view(v@[j]);
            }
            assert(residues(v@) =~= target);
        }
        IntPolynomial::from_canonical(v)
    }

    /// The negation of a polynomial: every coefficient negated.
    pub fn neg(&self) -> (r: IntPolynomial)
        ensures
            r@ == poly_neg(self@),
            is_poly(r@),
    {
        proof {
            use_type_invariant(self);
        }
        let n: usize = self.data.len();
        let mut v: Vec<GaloisField> = Vec::new();
        let mut i: usize = 0;
        while i < n
            invariant
                i <= n,
                n == self@.len(),
                v@.len() == i,
                all_canonical(v@),
                all_canonical(self.data@),
                forall|j: int| 0 <= j < i ==> (#[trigger] v@[j]).val == neg_coeff(self@)(j),
            decreases n - i,
        {
            let a = self.coefficient(i);
            v.push(a.neg());
            i = i + 1;
        }
        proof {
            let target = Seq::new(n as nat, |j: int| neg_coeff(self@)(j));
            assert forall|j: int| 0 <= j < n implies #[trigger] residues(v@)[j] == target[j] by {
                lemma_canonical_view(v@[j]);
            }
            assert(residues(v@) =~= target);
        }
        IntPolynomial::from_canonical(v)
    }

    /// The polynomial times an integer, taken as an element of the field:
    /// every coefficient times the integer. A scalar congruent to zero
    /// gives the zero polynomial.
    pub fn mul_scalar(&self, scalar: i64) -> (r: IntPolynomial)
        ensures
            r@ == poly_scale(self@, scalar as int),
            is_poly(r@),
    {
        proof {
            use_type_invariant(self);
        }
        let n: usize = self.data.len();
        let x = GaloisField::from(scalar);
        let mut v: Vec<GaloisField> = Vec::new();
        let mut i: usize = 0;
        while i < n
            invariant
                i <= n,
                n == self@.len(),
                x.val == scalar,
                v@.len() == i,
                all_canonical(v@),
                all_canonical(self.data@),
                forall|j: int|
                    0 <= j < i ==> (#[trigger] v@[j]).val == scale_coeff(self@, scalar as int)(j),
            decreases n - i,
        {
            let a = self.coefficient(i);
            v.push(a.mul(x));
            i = i + 1;
        }
        proof {
            let target = Seq::new(n as nat, |j: int| scale_coeff(self@, scalar as int)(j));
            assert forall|j: int| 0 <= j < n implies #[trigger] residues(v@)[j] == target[j] by {
                lemma_canonical_view(v@[j]);
            }
            assert(residues(v@) =~= target);
        }
        IntPolynomial::from_canonical(v)
    }

    /// The remainder on division by `x^k`: the first `k` coefficients.
    pub fn modulo(&self, x: usize) -> (r: IntPolynomial)
        ensures
            r@ == poly_truncate(self@, x as int),
            is_poly(r@),
    {
        proof {
            use_type_invariant(self);
        }
        let n: usize = if x < self.data.len() {
            x
        } else {
            self.data.len()
        };
        let mut v: Vec<GaloisField> = Vec::new();
        let mut i: usize = 0;
        while i < n
            invariant
                i <= n,
                n <= self.data@.len(),
                v@.len() == i,
                all_canonical(v@),
                all_canonical(self.data@),
                forall|j: int| 0 <= j < i ==> #[trigger] v@[j] == self.data@[j],
            decreases n - i,
        {
            v.push(self.data[i]);
            i = i + 1;
        }
        proof {
            assert(residues(v@) =~= self@.take(n as int));
        }
        IntPolynomial::from_canonical(v)
    }

    /// The polynomial whose coefficients are those of this one in reverse
    /// order.
    pub fn reciprocal(&self) -> (r: IntPolynomial)
        ensures
            r@ == poly_reverse(self@),
            is_poly(r@),
    {
        proof {
            use_type_invariant(self);
        }
        let n: usize = self.data.len();
        let mut v: Vec<GaloisField> = Vec::new();
        let mut i: usize = 0;
        while i < n
            invariant
                i <= n,
                n == self.data@.len(),
                v@.len() == i,
                all_canonical(v@),
                all_canonical(self.data@),
                forall|j: int| 0 <= j < i ==> #[trigger] v@[j] == self.data@[n - 1 - j],
            decreases n - i,
        {
            v.push(self.data[n - 1 - i]);
            i = i + 1;
        }
        proof {
            assert(residues(v@) =~= self@.reverse());
        }
        IntPolynomial::from_canonical(v)
    }

    /// The polynomial times `x^k`: `k` zero coefficients put before the
    /// others.
    pub fn rshift(&self, k: usize) -> (r: IntPolynomial)
        requires
            k + self@.len() <= usize::MAX,
        ensures
            r@ == poly_shift_up(self@, k as nat),
            is_poly(r@),
    {
        proof {
            use_type_invariant(self);
        }
        let n: usize = self.data.len();
        let mut v: Vec<GaloisField> = Vec::new();
        let mut i: usize = 0;
        while i < k
            invariant
                i <= k,
                v@.len() == i,
                all_canonical(v@),
                forall|j: int| 0 <= j < i ==> (#[trigger] v@[j]).val == 0,
            decreases k - i,
        {
            v.push(GaloisField::zero());
            i = i + 1;
        }
        let mut i: usize = 0;
        while i < n
            invariant
                i <= n,
                n == self.data@.len(),
                v@.len() == k + i,
                all_canonical(v@),
                all_canonical(self.data@),
                forall|j: int| 0 <= j < k ==> (#[trigger] v@[j]).val == 0,
                forall|j: int| 0 <= j < i ==> #[trigger] v@[k + j] == self.data@[j],
            decreases n - i,
        {
            v.push(self.data[i]);
            i = i + 1;
        }
        proof {
            let target = Seq::new(k as nat, |i: int| 0int) + self@;
            assert forall|j: int| 0 <= j < k + n implies #[trigger] residues(v@)[j]
                == target[j] by {
                if j < k {
                    lemma_canonical_view(v@[j]);
                } else {
                    assert(v@[k + (j - k)] == self.data@[j - k]);
                }
            }
            assert(residues(v@) =~= target);
        }
        IntPolynomial::from_canonical(v)
    }

    /// The quotient on division by `x^k`: the polynomial without its first
    /// `k` coefficients.
    pub fn lshift(&self, k: usize) -> (r: IntPolynomial)
        ensures
            r@ == poly_shift_down(self@, k as int),
            is_poly(r@),
    {
        proof {
            use_type_invariant(self);
        }
        let n: usize = self.data.len();
        let start: usize = if k < n {
            k
        } else {
            n
        };
        let mut v: Vec<GaloisField> = Vec::new();
        let mut i: usize = start;
        while i < n
            invariant
                start <= i <= n,
                n == self.data@.len(),
                v@.len() == i - start,
                all_canonical(v@),
                all_canonical(self.data@),
                forall|j: int| 0 <= j < i - start ==> #[trigger] v@[j] == self.data@[start + j],
            decreases n - i,
        {
            v.push(self.data[i]);
            i = i + 1;
        }
        proof {
            assert(residues(v@) =~= self@.skip(start as int));
        }
        IntPolynomial::from_canonical(v)
    }

    /// The coefficients, continued with zeros to the length `n`.
    fn padded_coefficients(&self, n: usize) -> (v: Vec<GaloisField>)
        ensures
            v@.len() == n,
            residues(v@) == padded(self@, n as int),
    {
        let mut v: Vec<GaloisField> = Vec::new();
        let mut i: usize = 0;
        while i < n
            invariant
                i <= n,
                v@.len() == i,
                forall|j: int|
                    0 <= j < i ==> (#[trigger] v@[j]).val == crate::poly_spec::coeff(self@, j)
                        && v@[j].is_canonical(),
            decreases n - i,
        {
            v.push(self.coefficient(i));
            i = i + 1;
        }
        proof {
            assert forall|j: int| 0 <= j < n implies #[trigger] residues(v@)[j] == padded(
                self@,
                n as int,
            )[j] by {
                lemma_canonical_view(v@[j]);
            }
            assert(residues(v@) =~= padded(self@, n as int));
        }
        v
    }

    /// The product of two polynomials.
    ///
    /// Both operands are continued with zeros to the smallest power of two
    /// above twice the length of the longer one, transformed, multiplied
    /// value by value, and transformed back. Operands too long for a
    /// transform of that length are refused.
    pub fn mul(&self, other: &IntPolynomial) -> (r: Result<IntPolynomial, AlgebraError>)
        ensures
            r is Ok <==> mul_fits(self@, other@),
            r is Ok ==> r->Ok_0@ == poly_mul(self@, other@) && is_poly(r->Ok_0@),
            r is Err ==> r->Err_0 == AlgebraError::InvalidTransformLength,
    {
        proof {
            use_type_invariant(self);
            use_type_invariant(other);
            lemma_two_pow_26();
            assert(two_pow(25) == 33554432) by {
                reveal_with_fuel(two_pow, 26);
            }
        }
        let t: usize = if self.data.len() > other.data.len() {
            self.data.len()
        } else {
            other.data.len()
        };
        if t >= 33554432 {
            return Err(AlgebraError::InvalidTransformLength);
        }
        let mut new_sz: usize = 1;
        let ghost mut k: nat = 0;
        while new_sz <= 2 * t
            invariant
                new_sz == two_pow(k),
                new_sz >= 1,
                k <= 26,
                2 * t < 67108864,
                two_pow(26) == 67108864,
            decreases 26 - k,
        {
            proof {
                if k >= 26 {
                    lemma_two_pow_monotonic(26, k);
                }
                k = k + 1;
            }
            new_sz = new_sz * 2;
        }
        let ghost n = new_sz as int;
        let ghost f = self@;
        let ghost g = other@;
        let ghost c = product_seq(f, g, n);
        let mut p = self.padded_coefficients(new_sz);
        let mut q = other.padded_coefficients(new_sz);
        let first = do_fft(p.as_mut_slice(), FFTType::Straight);
        let second = do_fft(q.as_mut_slice(), FFTType::Straight);
        proof {
            assert(crate::dft::is_transform_length(n));
            assert(first is Ok && second is Ok);
        }
        let ghost p1 = p@;
        let mut i: usize = 0;
        while i < new_sz
            invariant
                i <= new_sz,
                p@.len() == new_sz,
                q@.len() == new_sz,
                p1.len() == new_sz,
                forall|j: int| i <= j < new_sz ==> #[trigger] p@[j] == p1[j],
                forall|j: int|
                    0 <= j < i ==> (#[trigger] p@[j]).val == (p1[j].val * q@[j].val) % modulus(),
            decreases new_sz - i,
        {
            let v = p[i].mul(q[i]);
            p[i] = v;
            i = i + 1;
        }
        proof {
            let w = crate::dft::root_of_unity(n, false);
            assert forall|j: int| 0 <= j < n implies #[trigger] residues(p@)[j]
                == forward_transform(c)[j] by {
                lemma_convolution_theorem(f, g, n, w, j);
                vstd::arithmetic::div_mod::lemma_mul_mod_noop_general(
                    p1[j].val as int,
                    q@[j].val as int,
                    modulus(),
                );
                vstd::arithmetic::div_mod::lemma_mod_twice(p1[j].val * q@[j].val, modulus());
                assert(residues(p1)[j] == forward_transform(padded(f, n))[j]);
                assert(residues(q@)[j] == forward_transform(padded(g, n))[j]);
            }
            assert(residues(p@) =~= forward_transform(c));
            lemma_transform_round_trip(c);
            lemma_product_seq_reduced(f, g, n);
            lemma_product_seq_trims_to_product(f, g, n);
        }
        let third = do_fft(p.as_mut_slice(), FFTType::Inverse);
        proof {
            assert(third is Ok);
            assert(residues(p@) == c);
        }
        Ok(IntPolynomial::new(p))
    }

    /// Whether two polynomials are the same.
    pub fn equals(&self, other: &IntPolynomial) -> (r: bool)
        ensures
            r == (self@ == other@),
    {
        proof {
            use_type_invariant(self);
            use_type_invariant(other);
        }
        if self.data.len() != other.data.len() {
            return false;
        }
        let mut i: usize = 0;
        while i < self.data.len()
            invariant
                i <= self.data@.len(),
                self.data@.len() == other.data@.len(),
                all_canonical(self.data@),
                all_canonical(other.data@),
                forall|j: int|
                    0 <= j < i ==> residues(self.data@)[j] == #[trigger] residues(other.data@)[j],
            decreases self.data@.len() - i,
        {
            proof {
                lemma_canonical_view(self.data@[i as int]);
                lemma_canonical_view(other.data@[i as int]);
            }
            if self.data[i].val != other.data[i].val {
                proof {
                    assert(residues(self.data@)[i as int] != residues(other.data@)[i as int]);
                }
                return false;
            }
            i = i + 1;
        }
        proof {
            assert(residues(self.data@) =~= residues(other.data@));
        }
        true
    }
}

} // verus!
