use crate::bit_reverse::{lemma_two_pow_positive, two_pow};
use crate::dft::{generator, is_principal_root, root_of_unity};
use crate::field::modulus;
use crate::roots::lemma_generators_are_inverse;
use crate::sums::{
    lemma_cong_add, lemma_sum_cong, lemma_sum_halves, lemma_sum_scaled, lemma_sum_zero,
    lemma_times_minus_one, lemma_times_one, sum_to,
};
use vstd::arithmetic::div_mod::{lemma_mul_mod_noop_general, lemma_small_mod};
use vstd::arithmetic::power::{
    lemma1_pow, lemma_pow0, lemma_pow_adds, lemma_pow_distributes, lemma_pow_mod_noop,
    lemma_pow_multiplies, pow,
};
use vstd::prelude::*;

verus! {

/// The powers of `u^d`, as a function of the exponent.
pub open spec fn power_term(u: int, d: int) -> spec_fn(int) -> int {
    |t: int| pow(u, (d * t) as nat)
}

/// A number congruent to minus one, raised to `d`, is congruent to one for
/// even `d` and to minus one for odd `d`.
pub proof fn lemma_minus_one_power(x: int, d: nat)
    requires
        x % modulus() == modulus() - 1,
    ensures
        d % 2 == 0 ==> pow(x, d) % modulus() == 1,
        d % 2 == 1 ==> pow(x, d) % modulus() == modulus() - 1,
    decreases d,
{
    let p = modulus();
    if d == 0 {
        lemma_pow0(x);
        lemma_small_mod(1, p as nat);
    } else {
        lemma_minus_one_power(x, (d - 1) as nat);
        lemma_pow_adds(x, 1, (d - 1) as nat);
        vstd::arithmetic::power::lemma_pow1(x);
        lemma_mul_mod_noop_general(x, pow(x, (d - 1) as nat), p);
        lemma_minus_one_squared();
    }
}

/// Minus one, squared, is one.
pub proof fn lemma_minus_one_squared()
    ensures
        ((modulus() - 1) * (modulus() - 1)) % modulus() == 1,
        ((modulus() - 1) * 1) % modulus() == modulus() - 1,
{
    assert((469762048int * 469762048int) % 469762049int == 1);
    assert((469762048int * 1int) % 469762049int == 469762048int);
}

/// The square of a principal root of order `2^k` is one of order `2^(k-1)`.
pub proof fn lemma_square_root_is_principal(u: int, k: nat)
    requires
        k >= 2,
        is_principal_root(u, k),
    ensures
        is_principal_root(pow(u, 2), (k - 1) as nat),
{
    let q = two_pow((k - 2) as nat) as nat;
    lemma_two_pow_positive((k - 2) as nat);
    lemma_pow_multiplies(u, 2, q);
    assert(2 * q == two_pow((k - 1) as nat));
}

/// The powers of `u^d` over one period of a principal root `u` of order
/// `2^k` sum to zero, where `d` is not a multiple of the order.
pub proof fn lemma_geometric_sum_vanishes(u: int, k: nat, d: int)
    requires
        k >= 1,
        is_principal_root(u, k),
        0 < d < two_pow(k),
    ensures
        sum_to(power_term(u, d), two_pow(k)) % modulus() == 0,
    decreases k,
{
    let p = modulus();
    let h = two_pow((k - 1) as nat);
    let n = two_pow(k);
    lemma_two_pow_positive((k - 1) as nat);
    assert(n == 2 * h);
    let f = power_term(u, d);
    let pair = |t: int| f(t) + f(t + h);
    lemma_sum_halves(f, pair, h);
    // the factor between f(t) and f(t + h)
    let c = pow(u, (d * h) as nat);
    assert(d * h >= 0) by (nonlinear_arith)
        requires
            d > 0,
            h > 0,
    ;
    assert(d * h == h * d) by (nonlinear_arith);
    lemma_pow_multiplies(u, h as nat, d as nat);
    lemma_pow_mod_noop(pow(u, h as nat), d as nat, p);
    lemma_small_mod((p - 1) as nat, p as nat);
    lemma_minus_one_power(p - 1, d as nat);
    assert(d % 2 == 0 ==> c % p == 1);
    assert(d % 2 == 1 ==> c % p == p - 1);
    assert forall|t: int| 0 <= t < h implies #[trigger] f(t + h) == f(t) * c by {
        assert(d * t >= 0) by (nonlinear_arith)
            requires
                d > 0,
                t >= 0,
        ;
        assert(d * (t + h) == d * t + d * h) by (nonlinear_arith);
        lemma_pow_adds(u, (d * t) as nat, (d * h) as nat);
    }
    if d % 2 == 1 {
        let zero = |t: int| 0int;
        assert forall|t: int| 0 <= t < h implies #[trigger] pair(t) % p == zero(t) % p by {
            assert(f(t + h) == f(t) * c);
            lemma_times_minus_one(f(t), c, p);
            lemma_cong_add(f(t), f(t) * c, f(t), -f(t), p);
        }
        lemma_sum_cong(pair, zero, h, p);
        lemma_sum_zero(zero, h);
    } else {
        let d2 = d / 2;
        let u2 = pow(u, 2);
        let g = power_term(u2, d2);
        let twice = |t: int| 2 * g(t);
        assert(two_pow(1) == 2) by {
            reveal_with_fuel(two_pow, 2);
        }
        assert(k >= 2);
        lemma_square_root_is_principal(u, k);
        lemma_geometric_sum_vanishes(u2, (k - 1) as nat, d2);
        assert forall|t: int| 0 <= t < h implies #[trigger] pair(t) % p == twice(t) % p by {
            assert(f(t + h) == f(t) * c);
            lemma_small_mod(1, p as nat);
            lemma_times_one(f(t), c, p);
            lemma_cong_add(f(t), f(t) * c, f(t), f(t), p);
            assert(d2 * t >= 0) by (nonlinear_arith)
                requires
                    d2 > 0,
                    t >= 0,
            ;
            lemma_pow_multiplies(u, 2, (d2 * t) as nat);
            assert(2 * (d2 * t) == d * t) by (nonlinear_arith)
                requires
                    d == 2 * d2,
            ;
        }
        lemma_sum_cong(pair, twice, h, p);
        lemma_sum_scaled(g, twice, 2, h);
        lemma_mul_mod_noop_general(2, sum_to(g, h), p);
        assert((2int * 0int) % p == 0);
    }
}

/// A sum of ones counts its terms.
pub proof fn lemma_sum_ones(f: spec_fn(int) -> int, n: int)
    requires
        n >= 0,
        forall|i: int| 0 <= i < n ==> #[trigger] f(i) == 1,
    ensures
        sum_to(f, n) == n,
    decreases n,
{
    if n > 0 {
        lemma_sum_ones(f, n - 1);
    }
}

/// The roots of unity of the two directions are inverse to each other.
pub proof fn lemma_roots_are_inverse(n: int)
    ensures
        (root_of_unity(n, false) * root_of_unity(n, true)) % modulus() == 1,
{
    let p = modulus();
    let e = ((p - 1) / n) as nat;
    let g = generator(false);
    let gi = generator(true);
    lemma_generators_are_inverse();
    lemma_mul_mod_noop_general(pow(g, e), pow(gi, e), p);
    lemma_pow_distributes(g, gi, e);
    lemma_pow_mod_noop(g * gi, e, p);
    lemma1_pow(e);
    lemma_small_mod(1, p as nat);
}

/// The product of the powers `i t` of the inverse root and `j t` of the
/// forward root, as a function of `t`.
pub open spec fn cross_term(v: int, w: int, i: int, j: int) -> spec_fn(int) -> int {
    |t: int| pow(v, (t * i) as nat) * pow(w, (j * t) as nat)
}

/// Two numbers whose product is one, raised to the same power, multiply
/// to one.
pub proof fn lemma_inverse_powers(w: int, v: int, e: nat)
    requires
        (w * v) % modulus() == 1,
    ensures
        (pow(v, e) * pow(w, e)) % modulus() == 1,
{
    let p = modulus();
    lemma_pow_distributes(w, v, e);
    lemma_pow_mod_noop(w * v, e, p);
    lemma1_pow(e);
    lemma_small_mod(1, p as nat);
    assert(pow(v, e) * pow(w, e) == pow(w, e) * pow(v, e)) by (nonlinear_arith);
}

/// The rows of the transform matrix are orthogonal to the columns of the
/// inverse matrix: the sum over `t` of `v^(t i) w^(j t)` is the length for
/// `i == j`, and zero otherwise.
pub proof fn lemma_orthogonality(k: nat, w: int, v: int, i: int, j: int)
    requires
        is_principal_root(w, k),
        is_principal_root(v, k),
        (w * v) % modulus() == 1,
        0 <= i < two_pow(k),
        0 <= j < two_pow(k),
    ensures
        sum_to(cross_term(v, w, i, j), two_pow(k)) % modulus() == (if i == j {
            two_pow(k) % modulus()
        } else {
            0
        }),
{
    let p = modulus();
    let n = two_pow(k);
    lemma_two_pow_positive(k);
    let f = cross_term(v, w, i, j);
    if i == j {
        let ones = |t: int| 1int;
        assert forall|t: int| 0 <= t < n implies #[trigger] f(t) % p == ones(t) % p by {
            assert(t * i >= 0) by (nonlinear_arith)
                requires
                    t >= 0,
                    i >= 0,
            ;
            assert(t * i == j * t) by (nonlinear_arith)
                requires
                    i == j,
            ;
            lemma_inverse_powers(w, v, (t * i) as nat);
            lemma_small_mod(1, p as nat);
        }
        lemma_sum_cong(f, ones, n, p);
        lemma_sum_ones(ones, n);
    } else {
        assert(k >= 1) by {
            if k == 0 {
                assert(two_pow(0) == 1);
            }
        }
        if j > i {
            let d = j - i;
            let g = power_term(w, d);
            assert forall|t: int| 0 <= t < n implies #[trigger] f(t) % p == g(t) % p by {
                assert(t * i >= 0 && d * t >= 0) by (nonlinear_arith)
                    requires
                        t >= 0,
                        i >= 0,
                        d >= 0,
                ;
                assert(j * t == t * i + d * t) by (nonlinear_arith)
                    requires
                        d == j - i,
                ;
                lemma_pow_adds(w, (t * i) as nat, (d * t) as nat);
                lemma_inverse_powers(w, v, (t * i) as nat);
                let a = pow(v, (t * i) as nat);
                let b = pow(w, (t * i) as nat);
                assert(f(t) == g(t) * (a * b)) by (nonlinear_arith)
                    requires
                        f(t) == a * (b * g(t)),
                ;
                lemma_small_mod(1, p as nat);
                lemma_times_one(g(t), a * b, p);
            }
            lemma_sum_cong(f, g, n, p);
            lemma_geometric_sum_vanishes(w, k, d);
        } else {
            let d = i - j;
            let g = power_term(v, d);
            assert forall|t: int| 0 <= t < n implies #[trigger] f(t) % p == g(t) % p by {
                assert(j * t >= 0 && d * t >= 0) by (nonlinear_arith)
                    requires
                        t >= 0,
                        j >= 0,
                        d >= 0,
                ;
                assert(t * i == j * t + d * t) by (nonlinear_arith)
                    requires
                        d == i - j,
                ;
                lemma_pow_adds(v, (j * t) as nat, (d * t) as nat);
                lemma_inverse_powers(w, v, (j * t) as nat);
                let a = pow(v, (j * t) as nat);
                let b = pow(w, (j * t) as nat);
                assert(f(t) == g(t) * (a * b)) by (nonlinear_arith)
                    requires
                        f(t) == (a * g(t)) * b,
                ;
                lemma_small_mod(1, p as nat);
                lemma_times_one(g(t), a * b, p);
            }
            lemma_sum_cong(f, g, n, p);
            lemma_geometric_sum_vanishes(v, k, d);
        }
    }
}

} // verus!
