use crate::convolution::lemma_conv_zero_beyond;
use crate::field::modulus;
use crate::poly_spec::{
    add_coeff, coeff, conv_coeff, is_poly, lemma_poly_from, lemma_same_coefficients, mul_coeff,
    poly_add, poly_mul, poly_scale, poly_sub, scale_coeff, sub_coeff, zero_poly,
};
use crate::series::{lemma_conv_associates, lemma_conv_commutes, lemma_conv_linear};
use vstd::arithmetic::div_mod::{
    lemma_add_mod_noop, lemma_mod_bound, lemma_mod_twice, lemma_small_mod,
};
use vstd::prelude::*;

verus! {

/// The sum of two polynomials is a polynomial, with the sums of their
/// coefficients as coefficients.
pub proof fn lemma_poly_add(f: Seq<int>, g: Seq<int>)
    ensures
        is_poly(poly_add(f, g)),
        forall|i: int|
            #[trigger] coeff(poly_add(f, g), i) == (coeff(f, i) + coeff(g, i)) % modulus(),
{
    let c = add_coeff(f, g);
    let n = vstd::math::max(f.len() as int, g.len() as int);
    assert forall|i: int| 0 <= i < n implies 0 <= #[trigger] c(i) < modulus() by {
        lemma_mod_bound(coeff(f, i) + coeff(g, i), modulus());
    }
    lemma_poly_from(c, n);
    lemma_small_mod(0, modulus() as nat);
}

/// The difference of two polynomials is a polynomial, with the
/// differences of their coefficients as coefficients.
pub proof fn lemma_poly_sub(f: Seq<int>, g: Seq<int>)
    ensures
        is_poly(poly_sub(f, g)),
        forall|i: int|
            #[trigger] coeff(poly_sub(f, g), i) == (coeff(f, i) - coeff(g, i)) % modulus(),
{
    let c = sub_coeff(f, g);
    let n = vstd::math::max(f.len() as int, g.len() as int);
    assert forall|i: int| 0 <= i < n implies 0 <= #[trigger] c(i) < modulus() by {
        lemma_mod_bound(coeff(f, i) - coeff(g, i), modulus());
    }
    lemma_poly_from(c, n);
    lemma_small_mod(0, modulus() as nat);
}

/// The product of two polynomials is a polynomial, with the convolution of
/// their coefficients as coefficients.
pub proof fn lemma_poly_mul(f: Seq<int>, g: Seq<int>)
    requires
        f.len() + g.len() >= 1,
    ensures
        is_poly(poly_mul(f, g)),
        forall|k: int| #[trigger] coeff(poly_mul(f, g), k) == conv_coeff(f, g, k),
{
    let c = mul_coeff(f, g);
    let n = f.len() + g.len() - 1;
    assert forall|k: int| 0 <= k < n implies 0 <= #[trigger] c(k) < modulus() by {
        lemma_mod_bound(crate::sums::sum_to(crate::poly_spec::conv_term(f, g, k), k + 1), modulus());
    }
    lemma_poly_from(c, n);
    assert forall|k: int| #[trigger] coeff(poly_mul(f, g), k) == conv_coeff(f, g, k) by {
        if k >= n {
            lemma_conv_zero_beyond(f, g, k);
        } else if k < 0 {
            lemma_small_mod(0, modulus() as nat);
        }
    }
}

/// A polynomial times a scalar is a polynomial, with the products of its
/// coefficients and the scalar as coefficients.
pub proof fn lemma_poly_scale(f: Seq<int>, x: int)
    ensures
        is_poly(poly_scale(f, x)),
        forall|i: int| #[trigger] coeff(poly_scale(f, x), i) == (coeff(f, i) * x) % modulus(),
{
    let c = scale_coeff(f, x);
    let n = f.len() as int;
    assert forall|i: int| 0 <= i < n implies 0 <= #[trigger] c(i) < modulus() by {
        lemma_mod_bound(coeff(f, i) * x, modulus());
    }
    lemma_poly_from(c, n);
    assert(0 * x == 0);
    lemma_small_mod(0, modulus() as nat);
}

/// Addition of polynomials is commutative: `f + g == g + f`.
pub proof fn lemma_add_commutes(f: Seq<int>, g: Seq<int>)
    ensures
        poly_add(f, g) == poly_add(g, f),
{
    lemma_poly_add(f, g);
    lemma_poly_add(g, f);
    lemma_same_coefficients(poly_add(f, g), poly_add(g, f));
}

/// Addition of polynomials is associative: `(f + g) + h == f + (g + h)`.
pub proof fn lemma_add_associates(f: Seq<int>, g: Seq<int>, h: Seq<int>)
    ensures
        poly_add(poly_add(f, g), h) == poly_add(f, poly_add(g, h)),
{
    let p = modulus();
    lemma_poly_add(f, g);
    lemma_poly_add(g, h);
    lemma_poly_add(poly_add(f, g), h);
    lemma_poly_add(f, poly_add(g, h));
    let left = poly_add(poly_add(f, g), h);
    let right = poly_add(f, poly_add(g, h));
    assert forall|i: int| 0 <= i implies coeff(left, i) == #[trigger] coeff(right, i) by {
        let a = coeff(f, i);
        let b = coeff(g, i);
        let c = coeff(h, i);
        lemma_add_mod_noop(a + b, c, p);
        lemma_add_mod_noop(a, b + c, p);
        lemma_mod_twice(a + b, p);
        lemma_mod_twice(b + c, p);
        lemma_add_mod_noop((a + b) % p, c, p);
        lemma_add_mod_noop(a, (b + c) % p, p);
    }
    lemma_same_coefficients(left, right);
}

/// Multiplication of polynomials is commutative: `f * g == g * f`.
pub proof fn lemma_mul_commutes(f: Seq<int>, g: Seq<int>)
    requires
        is_poly(f),
        is_poly(g),
    ensures
        poly_mul(f, g) == poly_mul(g, f),
{
    lemma_poly_mul(f, g);
    lemma_poly_mul(g, f);
    assert forall|k: int| 0 <= k implies coeff(poly_mul(f, g), k) == #[trigger] coeff(
        poly_mul(g, f),
        k,
    ) by {
        lemma_conv_commutes(f, g, k);
    }
    lemma_same_coefficients(poly_mul(f, g), poly_mul(g, f));
}

/// Multiplication distributes over addition: `(f + g) * h == f * h + g * h`.
pub proof fn lemma_mul_distributes(f: Seq<int>, g: Seq<int>, h: Seq<int>)
    requires
        is_poly(f),
        is_poly(g),
        is_poly(h),
    ensures
        poly_mul(poly_add(f, g), h) == poly_add(poly_mul(f, h), poly_mul(g, h)),
{
    let p = modulus();
    let s = poly_add(f, g);
    lemma_poly_add(f, g);
    lemma_poly_mul(s, h);
    lemma_poly_mul(f, h);
    lemma_poly_mul(g, h);
    lemma_poly_add(poly_mul(f, h), poly_mul(g, h));
    let left = poly_mul(s, h);
    let right = poly_add(poly_mul(f, h), poly_mul(g, h));
    assert forall|k: int| 0 <= k implies coeff(left, k) == #[trigger] coeff(right, k) by {
        lemma_conv_commutes(s, h, k);
        lemma_conv_commutes(f, h, k);
        lemma_conv_commutes(g, h, k);
        assert forall|i: int| 0 <= i <= k implies #[trigger] coeff(s, i) % p == (coeff(f, i) + 1
            * coeff(g, i)) % p by {
            lemma_mod_twice(coeff(f, i) + coeff(g, i), p);
            assert(1 * coeff(g, i) == coeff(g, i));
        }
        lemma_conv_linear(h, f, g, s, 1, k);
        assert(1 * conv_coeff(h, g, k) == conv_coeff(h, g, k));
    }
    lemma_same_coefficients(left, right);
}

/// Multiplication of polynomials is associative: `f * (g * h) == (f * g) * h`.
pub proof fn lemma_mul_associates(f: Seq<int>, g: Seq<int>, h: Seq<int>)
    requires
        is_poly(f),
        is_poly(g),
        is_poly(h),
    ensures
        poly_mul(f, poly_mul(g, h)) == poly_mul(poly_mul(f, g), h),
{
    let p = modulus();
    let fg = poly_mul(f, g);
    let gh = poly_mul(g, h);
    lemma_poly_mul(f, g);
    lemma_poly_mul(g, h);
    lemma_poly_mul(f, gh);
    lemma_poly_mul(fg, h);
    let left = poly_mul(f, gh);
    let right = poly_mul(fg, h);
    assert forall|k: int| 0 <= k implies coeff(left, k) == #[trigger] coeff(right, k) by {
        assert forall|j: int| 0 <= j <= k implies #[trigger] coeff(fg, j) % p == conv_coeff(
            f,
            g,
            j,
        ) by {
            lemma_mod_twice(
                crate::sums::sum_to(crate::poly_spec::conv_term(f, g, j), j + 1),
                p,
            );
        }
        assert forall|j: int| 0 <= j <= k implies #[trigger] coeff(gh, j) % p == conv_coeff(
            g,
            h,
            j,
        ) by {
            lemma_mod_twice(
                crate::sums::sum_to(crate::poly_spec::conv_term(g, h, j), j + 1),
                p,
            );
        }
        lemma_conv_associates(f, g, h, fg, gh, k);
    }
    lemma_same_coefficients(left, right);
}

/// A polynomial times the scalar zero is the zero polynomial.
pub proof fn lemma_scale_by_zero(f: Seq<int>, x: int)
    requires
        x % modulus() == 0,
    ensures
        poly_scale(f, x) == zero_poly(),
{
    let p = modulus();
    lemma_poly_scale(f, x);
    assert forall|i: int| 0 <= i implies coeff(poly_scale(f, x), i) == #[trigger] coeff(
        zero_poly(),
        i,
    ) by {
        vstd::arithmetic::div_mod::lemma_mul_mod_noop_general(coeff(f, i), x, p);
        assert((coeff(f, i) % p) * 0 == 0);
        lemma_small_mod(0, p as nat);
    }
    lemma_same_coefficients(poly_scale(f, x), zero_poly());
}

} // verus!
