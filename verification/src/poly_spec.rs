use crate::field::modulus;
use crate::sums::sum_to;
use vstd::prelude::*;

verus! {

/// The coefficient of `x^i` in the polynomial that `f` writes, lowest
/// power first; zero outside `f`.
pub open spec fn coeff(f: Seq<int>, i: int) -> int {
    if 0 <= i < f.len() {
        f[i]
    } else {
        0
    }
}

/// Whether every coefficient is the canonical representative of its
/// residue class.
pub open spec fn is_reduced(f: Seq<int>) -> bool {
    forall|i: int| 0 <= i < f.len() ==> 0 <= #[trigger] f[i] < modulus()
}

/// Whether `f` has no trailing zero, or is the single coefficient `0`.
pub open spec fn is_trimmed(f: Seq<int>) -> bool {
    f.len() >= 1 && (f.len() == 1 || f[f.len() - 1] != 0)
}

/// Whether `f` is the one sequence that writes its polynomial: canonical
/// coefficients, no trailing zero.
pub open spec fn is_poly(f: Seq<int>) -> bool {
    is_reduced(f) && is_trimmed(f)
}

/// The zero polynomial.
pub open spec fn zero_poly() -> Seq<int> {
    seq![0int]
}

/// `f` without its trailing zeros; the zero polynomial where nothing else
/// is left.
pub open spec fn trim(f: Seq<int>) -> Seq<int>
    decreases f.len(),
{
    if f.len() == 0 {
        zero_poly()
    } else if f.len() == 1 || f[f.len() - 1] != 0 {
        f
    } else {
        trim(f.drop_last())
    }
}

/// The degree of a polynomial: the index of its last coefficient.
pub open spec fn degree(f: Seq<int>) -> int {
    f.len() - 1
}

/// Trimming keeps the coefficients and gives a trimmed sequence, no longer
/// than the one that went in.
pub proof fn lemma_trim(f: Seq<int>)
    ensures
        is_trimmed(trim(f)),
        forall|i: int| coeff(trim(f), i) == #[trigger] coeff(f, i),
        is_reduced(f) ==> is_reduced(trim(f)),
        trim(f).len() <= vstd::math::max(f.len() as int, 1),
        is_trimmed(f) ==> trim(f) == f,
    decreases f.len(),
{
    if f.len() == 0 {
    } else if f.len() == 1 || f[f.len() - 1] != 0 {
    } else {
        let g = f.drop_last();
        lemma_trim(g);
        assert forall|i: int| coeff(trim(f), i) == #[trigger] coeff(f, i) by {
            assert(coeff(trim(g), i) == coeff(g, i));
        }
        if is_reduced(f) {
            assert forall|i: int| 0 <= i < g.len() implies 0 <= #[trigger] g[i] < modulus() by {
                assert(g[i] == f[i]);
            }
        }
    }
}

/// Two trimmed sequences with the same coefficients are the same sequence.
pub proof fn lemma_same_coefficients(f: Seq<int>, g: Seq<int>)
    requires
        is_trimmed(f),
        is_trimmed(g),
        forall|i: int| 0 <= i ==> coeff(f, i) == #[trigger] coeff(g, i),
    ensures
        f == g,
{
    if f.len() < g.len() {
        assert(coeff(g, g.len() - 1) == coeff(f, g.len() - 1));
    } else if g.len() < f.len() {
        assert(coeff(g, f.len() - 1) == coeff(f, f.len() - 1));
    }
    assert forall|i: int| 0 <= i < f.len() implies f[i] == g[i] by {
        assert(coeff(f, i) == coeff(g, i));
    }
    assert(f =~= g);
}

/// Sequences with the same coefficients trim to the same sequence.
pub proof fn lemma_trim_same_coefficients(f: Seq<int>, g: Seq<int>)
    requires
        forall|i: int| 0 <= i ==> coeff(f, i) == #[trigger] coeff(g, i),
    ensures
        trim(f) == trim(g),
{
    lemma_trim(f);
    lemma_trim(g);
    assert forall|i: int| 0 <= i implies coeff(trim(f), i) == #[trigger] coeff(trim(g), i) by {
        assert(coeff(trim(f), i) == coeff(f, i));
        assert(coeff(trim(g), i) == coeff(g, i));
    }
    lemma_same_coefficients(trim(f), trim(g));
}

/// Zeros after the last coefficient do not change the polynomial.
pub proof fn lemma_trailing_zeros(f: Seq<int>, k: nat)
    ensures
        trim(f + Seq::new(k, |i: int| 0int)) == trim(f),
{
    let longer = f + Seq::new(k, |i: int| 0int);
    assert forall|i: int| 0 <= i implies coeff(longer, i) == #[trigger] coeff(f, i) by {}
    lemma_trim_same_coefficients(longer, f);
}

/// The sequence of the first `n` values of a coefficient function, trimmed.
pub open spec fn poly_from(c: spec_fn(int) -> int, n: int) -> Seq<int> {
    trim(Seq::new(n as nat, |i: int| c(i)))
}

/// What `poly_from` gives is a polynomial with the coefficients of `c`
/// below `n`, where these are canonical.
pub proof fn lemma_poly_from(c: spec_fn(int) -> int, n: int)
    requires
        n >= 0,
        forall|i: int| 0 <= i < n ==> 0 <= #[trigger] c(i) < modulus(),
    ensures
        is_poly(poly_from(c, n)),
        forall|i: int|
            #[trigger] coeff(poly_from(c, n), i) == (if 0 <= i < n {
                c(i)
            } else {
                0
            }),
        poly_from(c, n).len() <= vstd::math::max(n, 1),
{
    let s = Seq::new(n as nat, |i: int| c(i));
    lemma_trim(s);
    assert forall|i: int| #[trigger] coeff(poly_from(c, n), i) == (if 0 <= i < n {
        c(i)
    } else {
        0
    }) by {
        assert(coeff(trim(s), i) == coeff(s, i));
    }
}

/// The coefficients of a sum.
pub open spec fn add_coeff(f: Seq<int>, g: Seq<int>) -> spec_fn(int) -> int {
    |i: int| (coeff(f, i) + coeff(g, i)) % modulus()
}

/// The coefficients of a difference.
pub open spec fn sub_coeff(f: Seq<int>, g: Seq<int>) -> spec_fn(int) -> int {
    |i: int| (coeff(f, i) - coeff(g, i)) % modulus()
}

/// The coefficients of a negation.
pub open spec fn neg_coeff(f: Seq<int>) -> spec_fn(int) -> int {
    |i: int| (-coeff(f, i)) % modulus()
}

/// The coefficients of a polynomial times a scalar.
pub open spec fn scale_coeff(f: Seq<int>, x: int) -> spec_fn(int) -> int {
    |i: int| (coeff(f, i) * x) % modulus()
}

/// The term of index `i` in the coefficient of `x^k` of a product.
pub open spec fn conv_term(f: Seq<int>, g: Seq<int>, k: int) -> spec_fn(int) -> int {
    |i: int| coeff(f, i) * coeff(g, k - i)
}

/// The coefficient of `x^k` in the product of `f` and `g`.
pub open spec fn conv_coeff(f: Seq<int>, g: Seq<int>, k: int) -> int {
    sum_to(conv_term(f, g, k), k + 1) % modulus()
}

/// The coefficients of a product.
pub open spec fn mul_coeff(f: Seq<int>, g: Seq<int>) -> spec_fn(int) -> int {
    |k: int| conv_coeff(f, g, k)
}

/// The sum of two polynomials.
pub open spec fn poly_add(f: Seq<int>, g: Seq<int>) -> Seq<int> {
    poly_from(add_coeff(f, g), vstd::math::max(f.len() as int, g.len() as int))
}

/// The difference of two polynomials.
pub open spec fn poly_sub(f: Seq<int>, g: Seq<int>) -> Seq<int> {
    poly_from(sub_coeff(f, g), vstd::math::max(f.len() as int, g.len() as int))
}

/// The negation of a polynomial.
pub open spec fn poly_neg(f: Seq<int>) -> Seq<int> {
    poly_from(neg_coeff(f), f.len() as int)
}

/// A polynomial times a scalar.
pub open spec fn poly_scale(f: Seq<int>, x: int) -> Seq<int> {
    poly_from(scale_coeff(f, x), f.len() as int)
}

/// The product of two polynomials.
pub open spec fn poly_mul(f: Seq<int>, g: Seq<int>) -> Seq<int> {
    poly_from(mul_coeff(f, g), f.len() + g.len() - 1)
}

/// The remainder of a polynomial on division by `x^k`: its first `k`
/// coefficients.
pub open spec fn poly_truncate(f: Seq<int>, k: int) -> Seq<int> {
    trim(f.take(vstd::math::min(k, f.len() as int)))
}

/// The coefficients of a polynomial in reverse order.
pub open spec fn poly_reverse(f: Seq<int>) -> Seq<int> {
    trim(f.reverse())
}

/// A polynomial times `x^k`: `k` zero coefficients, then those of `f`.
pub open spec fn poly_shift_up(f: Seq<int>, k: nat) -> Seq<int> {
    trim(Seq::new(k, |i: int| 0int) + f)
}

/// The quotient of a polynomial on division by `x^k`: `f` without its
/// first `k` coefficients.
pub open spec fn poly_shift_down(f: Seq<int>, k: int) -> Seq<int> {
    trim(f.skip(vstd::math::min(k, f.len() as int)))
}

} // verus!
