use crate::field::modulus;
use crate::poly_spec::{coeff, conv_coeff, conv_term};
use crate::sums::{
    diag_sum, lemma_cong_mul, lemma_sum_add_scaled, lemma_sum_cong, lemma_sum_reflect,
    lemma_sum_scaled, lemma_sum_spike, lemma_sum_two_spikes, lemma_triangle, sum_to, wedge_sum,
};
use vstd::arithmetic::div_mod::{lemma_add_mod_noop, lemma_mod_twice, lemma_small_mod};
use vstd::prelude::*;

verus! {

/// The coefficient of a product depends on the residues of the
/// coefficients of its factors only, up to the index of the coefficient.
pub proof fn lemma_conv_cong(f1: Seq<int>, g1: Seq<int>, f2: Seq<int>, g2: Seq<int>, k: int)
    requires
        forall|i: int| 0 <= i <= k ==> #[trigger] coeff(f1, i) % modulus() == coeff(f2, i) % modulus(),
        forall|i: int| 0 <= i <= k ==> #[trigger] coeff(g1, i) % modulus() == coeff(g2, i) % modulus(),
    ensures
        conv_coeff(f1, g1, k) == conv_coeff(f2, g2, k),
{
    let p = modulus();
    let t1 = conv_term(f1, g1, k);
    let t2 = conv_term(f2, g2, k);
    assert forall|i: int| 0 <= i < k + 1 implies #[trigger] t1(i) % p == t2(i) % p by {
        assert(coeff(g1, k - i) % p == coeff(g2, k - i) % p);
        lemma_cong_mul(coeff(f1, i), coeff(g1, k - i), coeff(f2, i), coeff(g2, k - i), p);
    }
    lemma_sum_cong(t1, t2, k + 1, p);
}

/// The product does not depend on the order of its factors.
pub proof fn lemma_conv_commutes(f: Seq<int>, g: Seq<int>, k: int)
    ensures
        conv_coeff(f, g, k) == conv_coeff(g, f, k),
{
    let t1 = conv_term(f, g, k);
    let t2 = conv_term(g, f, k);
    assert forall|i: int| 0 <= i < k + 1 implies #[trigger] t2(i) == t1(k + 1 - 1 - i) by {
        let a = coeff(g, i);
        let b = coeff(f, k - i);
        assert(a * b == b * a) by (nonlinear_arith);
    }
    lemma_sum_reflect(t1, t2, k + 1);
}

/// The entry of the table that a product of three factors sums over.
pub open spec fn triple_term(a: Seq<int>, b: Seq<int>, c: Seq<int>, k: int) -> spec_fn(
    int,
    int,
) -> int {
    |i: int, l: int| coeff(a, i) * (coeff(b, l) * coeff(c, k - i - l))
}

/// A product of three factors does not depend on which two are multiplied
/// first: the coefficient `k` of `ab` times `c` is that of `a` times `bc`,
/// where `ab` and `bc` have the coefficients of the products of `a` and
/// `b`, and of `b` and `c`, up to `k`.
pub proof fn lemma_conv_associates(
    a: Seq<int>,
    b: Seq<int>,
    c: Seq<int>,
    ab: Seq<int>,
    bc: Seq<int>,
    k: int,
)
    requires
        forall|j: int| 0 <= j <= k ==> #[trigger] coeff(ab, j) % modulus() == conv_coeff(a, b, j),
        forall|j: int| 0 <= j <= k ==> #[trigger] coeff(bc, j) % modulus() == conv_coeff(b, c, j),
    ensures
        conv_coeff(ab, c, k) == conv_coeff(a, bc, k),
{
    let p = modulus();
    let table = triple_term(a, b, c, k);
    let left = conv_term(ab, c, k);
    let right = conv_term(a, bc, k);
    let diags = |j: int| diag_sum(table, j);
    let wedges = |i: int| wedge_sum(table, i, k + 1);
    assert forall|j: int| 0 <= j < k + 1 implies #[trigger] left(j) % p == diags(j) % p by {
        let x = coeff(c, k - j);
        let inner = conv_term(a, b, j);
        let diag = |i: int| table(i, j - i);
        assert forall|i: int| 0 <= i < j + 1 implies #[trigger] diag(i) == x * inner(i) by {
            let u = coeff(a, i);
            let v = coeff(b, j - i);
            assert(k - i - (j - i) == k - j);
            assert(u * (v * x) == x * (u * v)) by (nonlinear_arith);
        }
        lemma_sum_scaled(inner, diag, x, j + 1);
        lemma_mod_twice(sum_to(inner, j + 1), p);
        lemma_cong_mul(coeff(ab, j), x, sum_to(inner, j + 1), x, p);
        assert(sum_to(inner, j + 1) * x == x * sum_to(inner, j + 1)) by (nonlinear_arith);
    }
    lemma_sum_cong(left, diags, k + 1, p);
    lemma_triangle(table, diags, wedges, k + 1);
    assert forall|i: int| 0 <= i < k + 1 implies #[trigger] right(i) % p == wedges(i) % p by {
        let x = coeff(a, i);
        let inner = conv_term(b, c, k - i);
        let row = |l: int| table(i, l);
        assert forall|l: int| 0 <= l < k + 1 - i implies #[trigger] row(l) == x * inner(l) by {
            assert(k - i - l == (k - i) - l);
        }
        lemma_sum_scaled(inner, row, x, k + 1 - i);
        lemma_mod_twice(sum_to(inner, k - i + 1), p);
        lemma_cong_mul(x, coeff(bc, k - i), x, sum_to(inner, k - i + 1), p);
    }
    lemma_sum_cong(right, wedges, k + 1, p);
}

/// The product is linear in its second factor: where `s` has the
/// coefficients of `g1 + x g2` up to `k`, the coefficient `k` of `f s` is
/// that of `f g1` plus `x` times that of `f g2`.
pub proof fn lemma_conv_linear(
    f: Seq<int>,
    g1: Seq<int>,
    g2: Seq<int>,
    s: Seq<int>,
    x: int,
    k: int,
)
    requires
        forall|i: int|
            0 <= i <= k ==> #[trigger] coeff(s, i) % modulus() == (coeff(g1, i) + x * coeff(g2, i))
                % modulus(),
    ensures
        conv_coeff(f, s, k) == (conv_coeff(f, g1, k) + x * conv_coeff(f, g2, k)) % modulus(),
{
    let p = modulus();
    let ts = conv_term(f, s, k);
    let t1 = conv_term(f, g1, k);
    let t2 = conv_term(f, g2, k);
    let both = |i: int| t1(i) + x * t2(i);
    assert forall|i: int| 0 <= i < k + 1 implies #[trigger] ts(i) % p == both(i) % p by {
        let u = coeff(f, i);
        let a = coeff(g1, k - i);
        let b = coeff(g2, k - i);
        assert(coeff(s, k - i) % p == (a + x * b) % p);
        lemma_cong_mul(u, coeff(s, k - i), u, a + x * b, p);
        assert(u * (a + x * b) == u * a + x * (u * b)) by (nonlinear_arith);
    }
    lemma_sum_cong(ts, both, k + 1, p);
    lemma_sum_add_scaled(t1, t2, both, x, k + 1);
    crate::sums::lemma_mod_combine_plus(sum_to(t1, k + 1), x, sum_to(t2, k + 1), p);
    lemma_add_mod_noop(sum_to(t1, k + 1) % p, x * (sum_to(t2, k + 1) % p), p);
    lemma_mod_twice(sum_to(t1, k + 1), p);
}

/// Multiplying by a sequence that is one at index zero and zero from there
/// up to `k` keeps the coefficients up to `k`.
pub proof fn lemma_conv_unit(f: Seq<int>, e: Seq<int>, k: int)
    requires
        k >= 0,
        coeff(e, 0) == 1,
        forall|j: int| 0 < j <= k ==> #[trigger] coeff(e, j) == 0,
    ensures
        conv_coeff(f, e, k) == coeff(f, k) % modulus(),
{
    let t = conv_term(f, e, k);
    assert forall|i: int| 0 <= i < k + 1 && i != k implies #[trigger] t(i) == 0 by {
        assert(coeff(e, k - i) == 0);
        assert(coeff(f, i) * 0 == 0);
    }
    lemma_sum_spike(t, k + 1, k);
    assert(coeff(f, k) * 1 == coeff(f, k));
}

/// The square of a sequence that is one at index zero and zero from there
/// up to `half - 1` has the coefficient one at index zero and twice the
/// coefficient of the sequence at each index from one up to `2 half - 1`.
pub proof fn lemma_conv_near_unit_square(e: Seq<int>, half: int, k: int)
    requires
        half >= 1,
        0 <= k < 2 * half,
        coeff(e, 0) == 1,
        forall|j: int| 0 < j < half ==> #[trigger] coeff(e, j) == 0,
    ensures
        k == 0 ==> conv_coeff(e, e, k) == 1,
        k > 0 ==> conv_coeff(e, e, k) == (2 * coeff(e, k)) % modulus(),
{
    let t = conv_term(e, e, k);
    if k == 0 {
        assert(sum_to(t, 1) == sum_to(t, 0) + t(0));
        assert(sum_to(t, 0) == 0);
        assert(t(0) == 1) by (nonlinear_arith)
            requires
                t(0) == coeff(e, 0) * coeff(e, 0),
                coeff(e, 0) == 1,
        ;
        lemma_small_mod(1, modulus() as nat);
    } else {
        assert forall|i: int| 0 < i < k + 1 - 1 implies #[trigger] t(i) == 0 by {
            let a = coeff(e, i);
            let b = coeff(e, k - i);
            if i < half {
                assert(a == 0);
            } else {
                assert(0 < k - i < half);
                assert(b == 0);
            }
            assert(a * b == 0) by (nonlinear_arith)
                requires
                    a == 0 || b == 0,
            ;
        }
        lemma_sum_two_spikes(t, k + 1);
        let x = coeff(e, k);
        assert(t(0) + t(k) == 2 * x) by (nonlinear_arith)
            requires
                t(0) == coeff(e, 0) * x,
                t(k) == x * coeff(e, 0),
                coeff(e, 0) == 1,
        ;
    }
}

} // verus!
