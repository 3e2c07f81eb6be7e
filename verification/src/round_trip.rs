use crate::bit_reverse::two_pow;
use crate::dft::{
    dft_at, dft_term, forward_transform, inverse_transform, is_transform_length, length_inverse,
    max_log, reduced, root_of_unity,
};
use crate::field::modulus;
use crate::orthogonality::{cross_term, lemma_orthogonality, lemma_roots_are_inverse};
use crate::roots::{lemma_length_inverse, lemma_root_is_principal};
use crate::sums::{
    col_sum, lemma_cong_mul, lemma_sum_cong, lemma_sum_exchange, lemma_sum_scaled,
    lemma_sum_spike, row_sum, sum_to,
};
use vstd::arithmetic::div_mod::{
    lemma_mod_twice, lemma_mul_mod_noop_general, lemma_small_mod,
};
use vstd::arithmetic::power::pow;
use vstd::prelude::*;

verus! {

/// The entry of the table that the round trip sums over: the term `j` of
/// the forward transform at `t`, times the power `t i` of the inverse root.
pub open spec fn round_trip_entry(a: Seq<int>, w: int, v: int, i: int) -> spec_fn(
    int,
    int,
) -> int {
    |t: int, j: int| pow(v, (t * i) as nat) * (a[j] * pow(w, (j * t) as nat))
}

/// The value at `i` of the polynomial whose coefficients are the values of
/// another at the powers of `w`, taken at the power `i` of the inverse of
/// `w`, is the length times the coefficient `i` of that other polynomial.
pub proof fn lemma_inverse_of_forward(a: Seq<int>, k: nat, i: int)
    requires
        k <= max_log(),
        a.len() == two_pow(k),
        0 <= i < a.len(),
    ensures
        dft_at(forward_transform(a), root_of_unity(a.len() as int, true), i) == (two_pow(k)
            * a[i]) % modulus(),
{
    let p = modulus();
    let n = two_pow(k);
    let w = root_of_unity(n, false);
    let v = root_of_unity(n, true);
    let big = forward_transform(a);
    lemma_root_is_principal(k, false);
    lemma_root_is_principal(k, true);
    lemma_roots_are_inverse(n);
    let f = round_trip_entry(a, w, v, i);
    let outer = dft_term(big, v, i);
    let rows = |t: int| row_sum(f, t, n);
    let cols = |j: int| col_sum(f, j, n);
    // each term of the outer sum is congruent to a row of the table
    assert forall|t: int| 0 <= t < n implies #[trigger] outer(t) % p == rows(t) % p by {
        let inner = dft_term(a, w, t);
        let x = pow(v, (t * i) as nat);
        let row = |j: int| f(t, j);
        assert forall|j: int| 0 <= j < n implies #[trigger] row(j) == x * inner(j) by {}
        lemma_sum_scaled(inner, row, x, n);
        assert(big[t] == sum_to(inner, n) % p);
        lemma_mod_twice(sum_to(inner, n), p);
        lemma_cong_mul(big[t], x, sum_to(inner, n), x, p);
        assert(sum_to(inner, n) * x == x * sum_to(inner, n)) by (nonlinear_arith);
    }
    lemma_sum_cong(outer, rows, n, p);
    lemma_sum_exchange(f, rows, cols, n, n);
    // each column is congruent to zero, but the one at i
    let spike = |j: int|
        if j == i {
            n * a[i]
        } else {
            0
        };
    assert forall|j: int| 0 <= j < n implies #[trigger] cols(j) % p == spike(j) % p by {
        let cross = cross_term(v, w, i, j);
        let column = |t: int| f(t, j);
        assert forall|t: int| 0 <= t < n implies #[trigger] column(t) == a[j] * cross(t) by {
            let x = pow(v, (t * i) as nat);
            let y = pow(w, (j * t) as nat);
            assert(x * (a[j] * y) == a[j] * (x * y)) by (nonlinear_arith);
        }
        lemma_sum_scaled(cross, column, a[j], n);
        lemma_orthogonality(k, w, v, i, j);
        if i == j {
            lemma_cong_mul(a[j], sum_to(cross, n), a[j], n, p);
            assert(a[j] * n == n * a[i]) by (nonlinear_arith)
                requires
                    i == j,
            ;
        } else {
            lemma_cong_mul(a[j], sum_to(cross, n), a[j], 0, p);
            assert(a[j] * 0 == 0);
        }
    }
    lemma_sum_cong(cols, spike, n, p);
    lemma_sum_spike(spike, n, i);
}

/// The inverse transform undoes the forward transform: what comes back is
/// the buffer that went in, each element reduced into `[0, P)`.
pub proof fn lemma_transform_round_trip(a: Seq<int>)
    requires
        is_transform_length(a.len() as int),
    ensures
        inverse_transform(forward_transform(a)) == reduced(a),
{
    let p = modulus();
    let k = choose|k: nat| k <= max_log() && a.len() == #[trigger] two_pow(k);
    let n = two_pow(k);
    let big = forward_transform(a);
    let back = inverse_transform(big);
    assert forall|i: int| 0 <= i < n implies back[i] == #[trigger] reduced(a)[i] by {
        lemma_inverse_of_forward(a, k, i);
        lemma_length_inverse(k);
        let ninv = length_inverse(n);
        let s = dft_at(big, root_of_unity(n, true), i);
        assert(back[i] == (ninv * s) % p);
        lemma_mul_mod_noop_general(ninv, n * a[i], p);
        lemma_mod_twice(ninv, p);
        assert((ninv * s) % p == (ninv * (n * a[i])) % p) by {
            lemma_mul_mod_noop_general(ninv, s, p);
            lemma_mod_twice(n * a[i], p);
        }
        assert(ninv * (n * a[i]) == (n * ninv) * a[i]) by (nonlinear_arith);
        lemma_mul_mod_noop_general(n * ninv, a[i], p);
        lemma_small_mod(1, p as nat);
        lemma_mul_mod_noop_general(1, a[i], p);
        assert(1 * a[i] == a[i]);
    }
    assert(back =~= reduced(a));
}

} // verus!
