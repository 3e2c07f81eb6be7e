use crate::division::{is_division, is_unit_lead};
use crate::field::modulus;
use crate::poly_spec::{
    coeff, conv_coeff, conv_term, degree, is_poly, lemma_same_coefficients, poly_add, poly_mul,
    poly_sub, zero_poly,
};
use crate::ring_laws::{lemma_poly_add, lemma_poly_mul, lemma_poly_sub};
use crate::series::{lemma_conv_commutes, lemma_conv_linear};
use crate::sums::{lemma_sum_spike, lemma_times_minus_one, sum_to};
use vstd::arithmetic::div_mod::{lemma_mod_twice, lemma_small_mod, lemma_sub_mod_noop};
use vstd::prelude::*;

verus! {

/// The remainder of a division is the dividend minus the quotient times
/// the divisor.
pub proof fn lemma_remainder_is_difference(f: Seq<int>, g: Seq<int>, q: Seq<int>, r: Seq<int>)
    requires
        is_poly(g),
        is_division(f, g, q, r),
    ensures
        r == poly_sub(f, poly_mul(q, g)),
{
    let p = modulus();
    let qg = poly_mul(q, g);
    lemma_poly_mul(q, g);
    lemma_poly_add(qg, r);
    lemma_poly_sub(f, qg);
    assert forall|i: int| 0 <= i implies coeff(r, i) == #[trigger] coeff(poly_sub(f, qg), i) by {
        let c = coeff(qg, i);
        let x = coeff(r, i);
        assert(coeff(poly_add(qg, r), i) == (c + x) % p);
        lemma_sub_mod_noop(c + x, c, p);
        if i < r.len() {
            lemma_small_mod(x as nat, p as nat);
        } else {
            lemma_small_mod(0, p as nat);
        }
    }
    lemma_same_coefficients(r, poly_sub(f, qg));
}

/// The highest coefficient of a product whose second factor is monic up
/// to sign is not zero.
pub proof fn lemma_top_coefficient(x: Seq<int>, g: Seq<int>)
    requires
        is_poly(x),
        is_poly(g),
        is_unit_lead(g),
        x != zero_poly(),
    ensures
        conv_coeff(x, g, degree(x) + degree(g)) != 0,
{
    let p = modulus();
    let dx = degree(x);
    let m = degree(g);
    let k = dx + m;
    let t = conv_term(x, g, k);
    assert(x[dx] != 0) by {
        if x.len() == 1 {
            if x[0] == 0 {
                assert(x =~= zero_poly());
            }
        }
    }
    assert forall|i: int| 0 <= i < k + 1 && i != dx implies #[trigger] t(i) == 0 by {
        let a = coeff(x, i);
        let b = coeff(g, k - i);
        assert(a == 0 || b == 0);
        assert(a * b == 0) by (nonlinear_arith)
            requires
                a == 0 || b == 0,
        ;
    }
    lemma_sum_spike(t, k + 1, dx);
    let top = x[dx];
    let u = g[m];
    assert(t(dx) == top * u);
    if u == 1 {
        assert(top * 1 == top);
        lemma_small_mod(top as nat, p as nat);
    } else {
        lemma_small_mod((p - 1) as nat, p as nat);
        lemma_times_minus_one(top, u, p);
        crate::field::lemma_mod_of_negative(-top, p);
        lemma_small_mod(top as nat, p as nat);
    }
}

/// Division by a polynomial that is monic up to sign has one result: two
/// pairs of quotient and remainder for the same dividend and divisor are
/// the same pair.
pub proof fn lemma_division_is_unique(
    f: Seq<int>,
    g: Seq<int>,
    q1: Seq<int>,
    r1: Seq<int>,
    q2: Seq<int>,
    r2: Seq<int>,
)
    requires
        is_poly(g),
        is_unit_lead(g),
        is_division(f, g, q1, r1),
        is_division(f, g, q2, r2),
    ensures
        q1 == q2,
        r1 == r2,
{
    let p = modulus();
    let m = degree(g);
    let x = poly_sub(q1, q2);
    lemma_poly_sub(q1, q2);
    lemma_poly_mul(q1, g);
    lemma_poly_mul(q2, g);
    lemma_poly_add(poly_mul(q1, g), r1);
    lemma_poly_add(poly_mul(q2, g), r2);
    if x != zero_poly() {
        let k = degree(x) + m;
        lemma_top_coefficient(x, g);
        lemma_conv_commutes(x, g, k);
        lemma_conv_commutes(q1, g, k);
        lemma_conv_commutes(q2, g, k);
        assert forall|i: int| 0 <= i <= k implies #[trigger] coeff(x, i) % p == (coeff(q1, i) + (
        -1) * coeff(q2, i)) % p by {
            lemma_mod_twice(coeff(q1, i) - coeff(q2, i), p);
        }
        lemma_conv_linear(g, q1, q2, x, -1, k);
        let c1 = conv_coeff(q1, g, k);
        let c2 = conv_coeff(q2, g, k);
        assert(coeff(r1, k) == 0 && coeff(r2, k) == 0);
        assert(coeff(poly_add(poly_mul(q1, g), r1), k) == (c1 + 0) % p);
        assert(coeff(poly_add(poly_mul(q2, g), r2), k) == (c2 + 0) % p);
        vstd::arithmetic::div_mod::lemma_mod_bound(
            sum_to(conv_term(q1, g, k), k + 1),
            p,
        );
        vstd::arithmetic::div_mod::lemma_mod_bound(
            sum_to(conv_term(q2, g, k), k + 1),
            p,
        );
        lemma_small_mod(c1 as nat, p as nat);
        lemma_small_mod(c2 as nat, p as nat);
        assert(c1 == c2);
        assert(c1 + (-1) * c2 == 0);
        lemma_small_mod(0, p as nat);
        assert(false);
    }
    assert forall|i: int| 0 <= i implies coeff(q1, i) == #[trigger] coeff(q2, i) by {
        assert(coeff(x, i) == 0);
        let a = coeff(q1, i);
        let b = coeff(q2, i);
        assert(0 <= a < p && 0 <= b < p);
        if a >= b {
            lemma_small_mod((a - b) as nat, p as nat);
        } else {
            crate::field::lemma_mod_of_negative(a - b, p);
            lemma_small_mod((b - a) as nat, p as nat);
        }
    }
    lemma_same_coefficients(q1, q2);
    lemma_remainder_is_difference(f, g, q1, r1);
    lemma_remainder_is_difference(f, g, q2, r2);
}

/// The law of division: for a divisor that is not constant, the dividend
/// is the quotient times the divisor plus the remainder, and the degree of
/// the remainder is below that of the divisor.
pub proof fn lemma_division_law(f: Seq<int>, g: Seq<int>, q: Seq<int>, r: Seq<int>)
    requires
        is_division(f, g, q, r),
        degree(g) >= 1,
    ensures
        f == poly_add(poly_mul(q, g), r),
        degree(r) < degree(g),
{
}

} // verus!
