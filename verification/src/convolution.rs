use crate::dft::{dft_at, dft_term};
use crate::field::modulus;
use crate::poly_spec::{
    coeff, conv_coeff, conv_term, lemma_trim_same_coefficients, mul_coeff, poly_mul, trim,
};
use crate::sums::{
    diag_sum, lemma_cong_mul, lemma_sum_cong, lemma_sum_ext, lemma_sum_scaled, lemma_sum_zero,
    lemma_sum_zero_tail, lemma_triangle, sum_to, wedge_sum,
};
use vstd::arithmetic::div_mod::{lemma_mod_twice, lemma_mul_mod_noop_general};
use vstd::arithmetic::power::{lemma_pow_adds, pow};
use vstd::prelude::*;

verus! {

/// The first `n` coefficients of `f`, zeros where `f` has ended.
pub open spec fn padded(f: Seq<int>, n: int) -> Seq<int> {
    Seq::new(n as nat, |i: int| coeff(f, i))
}

/// The first `n` coefficients of the product of `f` and `g`.
pub open spec fn product_seq(f: Seq<int>, g: Seq<int>, n: int) -> Seq<int> {
    Seq::new(n as nat, |k: int| conv_coeff(f, g, k))
}

/// The term of `f` at `i` times the term of `g` at `j`, both taken at the
/// point `w^t`.
pub open spec fn point_product(f: Seq<int>, g: Seq<int>, w: int, t: int) -> spec_fn(
    int,
    int,
) -> int {
    |i: int, j: int| (coeff(f, i) * pow(w, (i * t) as nat)) * (coeff(g, j) * pow(w, (j * t) as nat))
}

/// The value of a product at a point is the product of the values:
/// transforming the product of two polynomials gives, index by index, the
/// product of their transforms, where the length leaves room for all
/// coefficients of the product.
pub proof fn lemma_convolution_theorem(f: Seq<int>, g: Seq<int>, n: int, w: int, t: int)
    requires
        n >= 0,
        f.len() + g.len() <= n + 1,
        t >= 0,
    ensures
        (dft_at(padded(f, n), w, t) * dft_at(padded(g, n), w, t)) % modulus() == dft_at(
            product_seq(f, g, n),
            w,
            t,
        ),
{
    let p = modulus();
    let pf = padded(f, n);
    let pg = padded(g, n);
    let c = product_seq(f, g, n);
    let tf = dft_term(pf, w, t);
    let tg = dft_term(pg, w, t);
    let tc = dft_term(c, w, t);
    let table = point_product(f, g, w, t);
    let big_f = sum_to(tf, n);
    let big_g = sum_to(tg, n);
    // the product of the two sums is the sum of the whole table, row by row
    let rows = |i: int| sum_to(|j: int| table(i, j), n);
    assert forall|i: int| 0 <= i < n implies #[trigger] rows(i) == big_g * tf(i) by {
        let row = |j: int| table(i, j);
        assert forall|j: int| 0 <= j < n implies #[trigger] row(j) == tf(i) * tg(j) by {}
        lemma_sum_scaled(tg, row, tf(i), n);
        assert(tf(i) * big_g == big_g * tf(i)) by (nonlinear_arith);
    }
    lemma_sum_scaled(tf, rows, big_g, n);
    assert(sum_to(rows, n) == big_g * big_f);
    // beyond the diagonal the table is zero
    let wedges = |i: int| wedge_sum(table, i, n);
    assert forall|i: int| 0 <= i < n implies #[trigger] rows(i) == wedges(i) by {
        let row = |j: int| table(i, j);
        assert forall|j: int| n - i <= j < n implies #[trigger] row(j) == 0 by {
            let x = pow(w, (i * t) as nat);
            let y = pow(w, (j * t) as nat);
            let a = coeff(f, i);
            let b = coeff(g, j);
            assert(a == 0 || b == 0);
            assert((a * x) * (b * y) == 0) by (nonlinear_arith)
                requires
                    a == 0 || b == 0,
            ;
        }
        lemma_sum_zero_tail(row, n - i, n);
    }
    lemma_sum_ext(rows, wedges, n);
    // each term of the transform of the product is congruent to a diagonal
    let diags = |k: int| diag_sum(table, k);
    assert forall|k: int| 0 <= k < n implies #[trigger] tc(k) % p == diags(k) % p by {
        let x = pow(w, (k * t) as nat);
        let inner = conv_term(f, g, k);
        let diag = |i: int| table(i, k - i);
        assert forall|i: int| 0 <= i < k + 1 implies #[trigger] diag(i) == x * inner(i) by {
            assert(i * t >= 0 && (k - i) * t >= 0) by (nonlinear_arith)
                requires
                    0 <= i <= k,
                    t >= 0,
            ;
            assert(i * t + (k - i) * t == k * t) by (nonlinear_arith);
            lemma_pow_adds(w, (i * t) as nat, ((k - i) * t) as nat);
            let xi = pow(w, (i * t) as nat);
            let xj = pow(w, ((k - i) * t) as nat);
            let a = coeff(f, i);
            let b = coeff(g, k - i);
            assert((a * xi) * (b * xj) == (xi * xj) * (a * b)) by (nonlinear_arith);
        }
        lemma_sum_scaled(inner, diag, x, k + 1);
        assert(c[k] == sum_to(inner, k + 1) % p);
        lemma_mod_twice(sum_to(inner, k + 1), p);
        lemma_cong_mul(c[k], x, sum_to(inner, k + 1), x, p);
        assert(sum_to(inner, k + 1) * x == x * sum_to(inner, k + 1)) by (nonlinear_arith);
    }
    lemma_sum_cong(tc, diags, n, p);
    lemma_triangle(table, diags, wedges, n);
    lemma_mul_mod_noop_general(big_f, big_g, p);
    assert(big_f * big_g == big_g * big_f) by (nonlinear_arith);
}

/// The product of two polynomials has no coefficient past the sum of
/// their degrees.
pub proof fn lemma_conv_zero_beyond(f: Seq<int>, g: Seq<int>, k: int)
    requires
        k >= f.len() + g.len() - 1,
    ensures
        conv_coeff(f, g, k) == 0,
{
    let term = conv_term(f, g, k);
    assert forall|i: int| 0 <= i < k + 1 implies #[trigger] term(i) == 0 by {
        let a = coeff(f, i);
        let b = coeff(g, k - i);
        assert(a == 0 || b == 0);
        assert(a * b == 0) by (nonlinear_arith)
            requires
                a == 0 || b == 0,
        ;
    }
    lemma_sum_zero(term, k + 1);
}

/// The first `n` coefficients of a product, trimmed, are the product,
/// where `n` leaves room for all coefficients of the product.
pub proof fn lemma_product_seq_trims_to_product(f: Seq<int>, g: Seq<int>, n: int)
    requires
        n >= 0,
        f.len() + g.len() <= n + 1,
    ensures
        trim(product_seq(f, g, n)) == poly_mul(f, g),
{
    let full = product_seq(f, g, n);
    let m = f.len() + g.len() - 1;
    let short = Seq::new(m as nat, |i: int| mul_coeff(f, g)(i));
    assert forall|i: int| 0 <= i implies coeff(full, i) == #[trigger] coeff(short, i) by {
        if i >= m {
            lemma_conv_zero_beyond(f, g, i);
        }
    }
    lemma_trim_same_coefficients(full, short);
}

/// The coefficients of a product are canonical.
pub proof fn lemma_product_seq_reduced(f: Seq<int>, g: Seq<int>, n: int)
    requires
        n >= 0,
    ensures
        crate::dft::reduced(product_seq(f, g, n)) == product_seq(f, g, n),
{
    let c = product_seq(f, g, n);
    assert forall|k: int| 0 <= k < n implies #[trigger] crate::dft::reduced(c)[k] == c[k] by {
        lemma_mod_twice(sum_to(conv_term(f, g, k), k + 1), modulus());
    }
    assert(crate::dft::reduced(c) =~= c);
}

} // verus!
