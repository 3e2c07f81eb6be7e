use crate::bit_reverse::{
    bit_reverse, lemma_bit_reverse_even_odd, lemma_bit_reverse_involution, lemma_two_pow_adds,
    lemma_two_pow_positive, two_pow,
};
use crate::field::{modulus, pow_mod, GaloisField};
use crate::sums::{
    lemma_cong_add, lemma_mod_combine_minus, lemma_mod_combine_plus, lemma_sum_add_scaled,
    lemma_sum_cong, lemma_sum_even_odd, lemma_sum_ext, lemma_times_minus_one, lemma_times_one,
    sum_to,
};
use vstd::arithmetic::div_mod::*;
use vstd::arithmetic::mul::*;
use vstd::arithmetic::power::*;
use vstd::prelude::*;

verus! {

/// The canonical representatives of a sequence of field elements.
pub open spec fn residues(s: Seq<GaloisField>) -> Seq<int> {
    Seq::new(s.len(), |i: int| s[i]@)
}

/// Each integer reduced into `[0, P)`.
pub open spec fn reduced(s: Seq<int>) -> Seq<int> {
    Seq::new(s.len(), |i: int| s[i] % modulus())
}

/// The generator of the multiplicative group that the forward transform
/// takes its roots from, or its inverse, for the inverse transform.
pub open spec fn generator(inverse: bool) -> int {
    if inverse {
        156587350
    } else {
        3
    }
}

/// The principal `n`-th root of unity of a direction.
pub open spec fn root_of_unity(n: int, inverse: bool) -> int {
    pow_mod(generator(inverse), ((modulus() - 1) / n) as nat, modulus())
}

/// The largest binary logarithm of a transform length: `2^26` divides `P - 1`.
pub open spec fn max_log() -> nat {
    26
}

/// Whether a buffer of length `n` can be transformed: `n` is a power of two
/// that divides `P - 1`.
pub open spec fn is_transform_length(n: int) -> bool {
    exists|k: nat| k <= max_log() && n == #[trigger] two_pow(k)
}

/// The value at index `idx` after the first `l` butterfly stages of a
/// transform of length `2^k`, run with the root `w` on the buffer `c`.
///
/// Stage `l` joins two neighbouring blocks of `2^(l-1)` values into one of
/// `2^l`, with the powers of `w^(2^(k-l))` as twiddle factors.
pub open spec fn stage_value(c: Seq<int>, w: int, k: nat, l: nat, idx: int) -> int
    decreases l,
{
    if l == 0 {
        c[idx] % modulus()
    } else {
        let h = two_pow((l - 1) as nat);
        let t = idx % (2 * h);
        let e = two_pow((k - l) as nat);
        if t < h {
            (stage_value(c, w, k, (l - 1) as nat, idx) + pow(w, (e * t) as nat) * stage_value(
                c,
                w,
                k,
                (l - 1) as nat,
                idx + h,
            )) % modulus()
        } else {
            (stage_value(c, w, k, (l - 1) as nat, idx - h) - pow(w, (e * (t - h)) as nat)
                * stage_value(c, w, k, (l - 1) as nat, idx)) % modulus()
        }
    }
}

/// The upper half of a butterfly, computed on representatives.
pub proof fn lemma_butterfly_plus(u: int, b: int, om: int, tw: int, m: int)
    requires
        m > 0,
        om % m == tw % m,
    ensures
        (u + (om * b) % m) % m == (u % m + tw * (b % m)) % m,
{
    let x = om * b;
    let y = tw * (b % m);
    lemma_mul_mod_noop_general(om, b, m);
    lemma_mul_mod_noop_general(tw, b % m, m);
    lemma_mod_twice(b, m);
    assert(x % m == y % m);
    lemma_add_mod_noop(u, x % m, m);
    lemma_add_mod_noop(u % m, y, m);
    lemma_mod_twice(u, m);
    lemma_mod_twice(x, m);
}

/// The lower half of a butterfly, computed on representatives.
pub proof fn lemma_butterfly_minus(u: int, b: int, om: int, tw: int, m: int)
    requires
        m > 0,
        om % m == tw % m,
    ensures
        (u - (om * b) % m) % m == (u % m - tw * (b % m)) % m,
{
    let x = om * b;
    let y = tw * (b % m);
    lemma_mul_mod_noop_general(om, b, m);
    lemma_mul_mod_noop_general(tw, b % m, m);
    lemma_mod_twice(b, m);
    assert(x % m == y % m);
    lemma_sub_mod_noop(u, x % m, m);
    lemma_sub_mod_noop(u % m, y, m);
    lemma_mod_twice(u, m);
    lemma_mod_twice(x, m);
}

/// The next power of a twiddle factor, computed on representatives.
pub proof fn lemma_twiddle_next(w: int, e: nat, j: nat, m: int)
    requires
        m > 0,
    ensures
        ((pow(w, e * j) % m) * (pow(w, e) % m)) % m == pow(w, e * (j + 1)) % m,
{
    lemma_pow_adds(w, e * j, e);
    assert(e * j + e == e * (j + 1)) by (nonlinear_arith);
    lemma_mul_mod_noop_general(pow(w, e * j), pow(w, e), m);
}

/// `2^26`, the largest transform length.
pub proof fn lemma_two_pow_26()
    ensures
        two_pow(26) == 67108864,
        modulus() - 1 == 7 * two_pow(26),
{
    reveal_with_fuel(two_pow, 27);
}

/// `(P - 1) / 2^l` is `7 * 2^(26 - l)`.
pub proof fn lemma_root_exponent(l: nat)
    requires
        l <= max_log(),
    ensures
        (modulus() - 1) / two_pow(l) == 7 * two_pow((26 - l) as nat),
{
    lemma_two_pow_26();
    lemma_two_pow_adds(l, (26 - l) as nat);
    lemma_two_pow_positive(l);
    let a = two_pow(l);
    let b = two_pow((26 - l) as nat);
    assert(7 * (a * b) == (7 * b) * a) by (nonlinear_arith);
    lemma_fundamental_div_mod_converse(modulus() - 1, a, 7 * b, 0);
}

/// The root of a stage is a power of the root of the whole transform.
pub proof fn lemma_stage_root(k: nat, l: nat, inverse: bool)
    requires
        l <= k <= max_log(),
    ensures
        pow(root_of_unity(two_pow(k), inverse), two_pow((k - l) as nat) as nat) % modulus()
            == root_of_unity(two_pow(l), inverse),
{
    let g = generator(inverse);
    let p = modulus();
    lemma_root_exponent(k);
    lemma_root_exponent(l);
    let ek = 7 * two_pow((26 - k) as nat);
    let el = 7 * two_pow((26 - l) as nat);
    let d = two_pow((k - l) as nat);
    lemma_two_pow_positive((26 - k) as nat);
    lemma_two_pow_positive((26 - l) as nat);
    lemma_two_pow_positive((k - l) as nat);
    lemma_two_pow_adds((26 - k) as nat, (k - l) as nat);
    assert((26 - k) as nat + (k - l) as nat == (26 - l) as nat);
    assert(ek * d == el) by (nonlinear_arith)
        requires
            ek == 7 * two_pow((26 - k) as nat),
            el == 7 * two_pow((26 - l) as nat),
            two_pow((26 - l) as nat) == two_pow((26 - k) as nat) * d,
    ;
    lemma_pow_mod_noop(pow(g, ek as nat), d as nat, p);
    lemma_pow_multiplies(g, ek as nat, d as nat);
}

/// Whether `w` is a principal root of unity of order `2^k`: its power
/// `2^(k-1)` is minus one.
pub open spec fn is_principal_root(w: int, k: nat) -> bool {
    k >= 1 ==> pow(w, two_pow((k - 1) as nat) as nat) % modulus() == modulus() - 1
}

/// A principal root of order `2^k`, raised to a multiple of `2^k`, is one.
pub proof fn lemma_root_cycle(w: int, k: nat, s: nat)
    requires
        k >= 1,
        is_principal_root(w, k),
    ensures
        pow(w, (two_pow(k) * s) as nat) % modulus() == 1,
{
    let p = modulus();
    lemma_two_pow_positive((k - 1) as nat);
    let h = two_pow((k - 1) as nat) as nat;
    let n = two_pow(k) as nat;
    assert(n == h + h);
    lemma_pow_adds(w, h, h);
    lemma_mul_mod_noop_general(pow(w, h), pow(w, h), p);
    assert(((p - 1) * (p - 1)) % p == 1);
    assert(pow(w, n) % p == 1);
    lemma_pow_multiplies(w, n, s);
    lemma_pow_mod_noop(pow(w, n), s, p);
    lemma1_pow(s);
    assert(n * s == two_pow(k) * s);
}

/// The term of index `s` in the transform of one block: the block starts
/// at `start`, has `2^l` values, and is evaluated at the power `t` of the
/// block's root `w^e`.
pub open spec fn block_term(c: Seq<int>, w: int, e: int, l: nat, start: int, t: int) -> spec_fn(
    int,
) -> int {
    |s: int| c[start + bit_reverse(s, l)] * pow(w, (e * s * t) as nat)
}

/// Where an index stands in its block of `2h`, and in its block of `h`.
pub proof fn lemma_block_index(idx: int, h: int)
    requires
        h >= 1,
        idx >= 0,
    ensures
        idx % (2 * h) < h ==> idx % h == idx % (2 * h) && (idx + h) % h == idx % (2 * h),
        idx % (2 * h) >= h ==> idx % h == idx % (2 * h) - h && (idx - h) % h == idx % (2 * h)
            - h,
        0 <= idx % (2 * h) < 2 * h,
        idx - idx % (2 * h) >= 0,
{
    let m = 2 * h;
    let q = idx / m;
    let t = idx % m;
    lemma_fundamental_div_mod(idx, m);
    lemma_mod_bound(idx, m);
    assert(q >= 0) by {
        lemma_div_pos_is_pos(idx, m);
    }
    assert(m * q >= 0) by (nonlinear_arith)
        requires
            m > 0,
            q >= 0,
    ;
    if t < h {
        assert(idx == (2 * q) * h + t) by (nonlinear_arith)
            requires
                idx == m * q + t,
                m == 2 * h,
        ;
        lemma_fundamental_div_mod_converse(idx, h, 2 * q, t);
        assert(idx + h == (2 * q + 1) * h + t) by (nonlinear_arith)
            requires
                idx == m * q + t,
                m == 2 * h,
        ;
        lemma_fundamental_div_mod_converse(idx + h, h, 2 * q + 1, t);
    } else {
        assert(idx == (2 * q + 1) * h + (t - h)) by (nonlinear_arith)
            requires
                idx == m * q + t,
                m == 2 * h,
        ;
        lemma_fundamental_div_mod_converse(idx, h, 2 * q + 1, t - h);
        assert(idx - h == (2 * q) * h + (t - h)) by (nonlinear_arith)
            requires
                idx == m * q + t,
                m == 2 * h,
        ;
        lemma_fundamental_div_mod_converse(idx - h, h, 2 * q, t - h);
    }
}

/// A block of `m` values that starts at a multiple of `m` below `n` ends
/// at or before `n`, where `m` divides `n`.
pub proof fn lemma_block_fits(idx: int, m: int, blocks: int, n: int)
    requires
        m >= 1,
        n == m * blocks,
        0 <= idx < n,
    ensures
        idx - idx % m + m <= n,
{
    let q = idx / m;
    lemma_fundamental_div_mod(idx, m);
    lemma_mod_bound(idx, m);
    assert(q < blocks) by (nonlinear_arith)
        requires
            m * q <= idx,
            idx < m * blocks,
            m >= 1,
    ;
    assert(m * q + m <= m * blocks) by (nonlinear_arith)
        requires
            q + 1 <= blocks,
            m >= 1,
    ;
}

/// After `l` stages, each block of `2^l` values holds the transform of the
/// values that it held at the start, taken in bit-reversed order.
pub proof fn lemma_stage_is_block_transform(c: Seq<int>, w: int, k: nat, l: nat, idx: int)
    requires
        l <= k,
        c.len() == two_pow(k),
        0 <= idx < two_pow(k),
        is_principal_root(w, k),
    ensures
        stage_value(c, w, k, l, idx) == sum_to(
            block_term(
                c,
                w,
                two_pow((k - l) as nat),
                l,
                idx - idx % two_pow(l),
                idx % two_pow(l),
            ),
            two_pow(l),
        ) % modulus(),
    decreases l,
{
    let p = modulus();
    let e = two_pow((k - l) as nat);
    lemma_two_pow_positive((k - l) as nat);
    if l == 0 {
        let f = block_term(c, w, e, 0, idx, 0);
        assert(idx % 1 == 0);
        assert(sum_to(f, 1) == sum_to(f, 0) + f(0));
        assert(sum_to(f, 0) == 0);
        assert(bit_reverse(0, 0) == 0);
        assert(e * 0 * 0 == 0) by (nonlinear_arith);
        lemma_pow0(w);
        assert(f(0) == c[idx] * 1);
    } else {
        let lm = (l - 1) as nat;
        let h = two_pow(lm);
        let m = two_pow(l);
        let e2 = two_pow((k - lm) as nat);
        lemma_two_pow_positive(lm);
        assert(m == 2 * h);
        assert((k - lm) as nat == (k - l) as nat + 1);
        assert(e2 == 2 * e);
        lemma_two_pow_adds(l, (k - l) as nat);
        let n = two_pow(k);
        assert(n == m * e);
        let t = idx % m;
        let start = idx - t;
        lemma_block_index(idx, h);
        lemma_block_fits(idx, m, e, n);
        let f = block_term(c, w, e, l, start, t);
        if t < h {
            lemma_stage_is_block_transform(c, w, k, lm, idx);
            lemma_stage_is_block_transform(c, w, k, lm, idx + h);
            let fa = block_term(c, w, e2, lm, start, t);
            let fb = block_term(c, w, e2, lm, start + h, t);
            let x = pow(w, (e * t) as nat);
            let s = |i: int| fa(i) + x * fb(i);
            let pair = |i: int| f(2 * i) + f(2 * i + 1);
            assert forall|i: int| 0 <= i < h implies #[trigger] pair(i) == s(i) by {
                lemma_bit_reverse_even_odd(i, l);
                assert(e * (2 * i) * t == e2 * i * t) by (nonlinear_arith)
                    requires
                        e2 == 2 * e,
                ;
                assert(e * (2 * i + 1) * t == e2 * i * t + e * t) by (nonlinear_arith)
                    requires
                        e2 == 2 * e,
                ;
                assert(e2 * i * t >= 0 && e * t >= 0) by (nonlinear_arith)
                    requires
                        e2 >= 0,
                        e >= 0,
                        i >= 0,
                        t >= 0,
                ;
                lemma_pow_adds(w, (e2 * i * t) as nat, (e * t) as nat);
                let cb = c[start + h + bit_reverse(i, lm)];
                let pw = pow(w, (e2 * i * t) as nat);
                assert(cb * (pw * x) == x * (cb * pw)) by (nonlinear_arith);
            }
            lemma_sum_even_odd(f, pair, h);
            lemma_sum_ext(pair, s, h);
            lemma_sum_add_scaled(fa, fb, s, x, h);
            lemma_mod_combine_plus(sum_to(fa, h), x, sum_to(fb, h), p);
            lemma_mod_twice(sum_to(fa, h), p);
        } else {
            let t2 = t - h;
            lemma_stage_is_block_transform(c, w, k, lm, idx - h);
            lemma_stage_is_block_transform(c, w, k, lm, idx);
            let fa = block_term(c, w, e2, lm, start, t2);
            let fb = block_term(c, w, e2, lm, start + h, t2);
            let x = pow(w, (e * t2) as nat);
            let s = |i: int| fa(i) + (-x) * fb(i);
            let pair = |i: int| f(2 * i) + f(2 * i + 1);
            assert(e * h == two_pow((k - 1) as nat)) by {
                lemma_two_pow_adds((k - l) as nat, lm);
                assert((k - l) as nat + lm == (k - 1) as nat);
            }
            assert forall|i: int| 0 <= i < h implies #[trigger] pair(i) % p == s(i) % p by {
                lemma_bit_reverse_even_odd(i, l);
                let base = e2 * i * t2;
                let cyc = n * i;
                let half = two_pow((k - 1) as nat);
                assert(base >= 0 && cyc >= 0 && e * t2 >= 0) by (nonlinear_arith)
                    requires
                        base == e2 * i * t2,
                        cyc == n * i,
                        e2 >= 0,
                        e >= 0,
                        n >= 0,
                        i >= 0,
                        t2 >= 0,
                ;
                lemma_two_pow_positive((k - 1) as nat);
                assert(e * (2 * i) * t == base + cyc) by (nonlinear_arith)
                    requires
                        base == e2 * i * t2,
                        cyc == n * i,
                        e2 == 2 * e,
                        t == t2 + h,
                        n == m * e,
                        m == 2 * h,
                ;
                assert(e * (2 * i + 1) * t == (base + e * t2) + (cyc + half)) by (nonlinear_arith)
                    requires
                        base == e2 * i * t2,
                        cyc == n * i,
                        e2 == 2 * e,
                        t == t2 + h,
                        n == m * e,
                        m == 2 * h,
                        e * h == half,
                ;
                lemma_root_cycle(w, k, i as nat);
                let pw = pow(w, base as nat);
                let one = pow(w, cyc as nat);
                lemma_pow_adds(w, base as nat, cyc as nat);
                lemma_pow_adds(w, base as nat, (e * t2) as nat);
                lemma_pow_adds(w, cyc as nat, half as nat);
                lemma_pow_adds(w, (base + e * t2) as nat, (cyc + half) as nat);
                let ca = c[start + bit_reverse(i, lm)];
                let cb = c[start + h + bit_reverse(i, lm)];
                // the even term
                assert(f(2 * i) == (ca * pw) * one) by (nonlinear_arith)
                    requires
                        f(2 * i) == ca * (pw * one),
                ;
                lemma_small_mod(1, p as nat);
                lemma_times_one(ca * pw, one, p);
                assert(f(2 * i) % p == fa(i) % p);
                // the odd term
                let minus = pow(w, (cyc + half) as nat);
                assert(minus == one * pow(w, half as nat));
                lemma_mul_mod_noop_general(one, pow(w, half as nat), p);
                lemma_small_mod((p - 1) as nat, p as nat);
                assert(minus % p == p - 1);
                assert(f(2 * i + 1) == (x * (cb * pw)) * minus) by (nonlinear_arith)
                    requires
                        f(2 * i + 1) == cb * ((pw * x) * minus),
                ;
                lemma_times_minus_one(x * (cb * pw), minus, p);
                assert(-(x * (cb * pw)) == (-x) * fb(i)) by (nonlinear_arith)
                    requires
                        fb(i) == cb * pw,
                ;
                lemma_cong_add(f(2 * i), f(2 * i + 1), fa(i), (-x) * fb(i), p);
            }
            lemma_sum_even_odd(f, pair, h);
            lemma_sum_cong(pair, s, h, p);
            lemma_sum_add_scaled(fa, fb, s, -x, h);
            lemma_mod_combine_minus(sum_to(fa, h), x, sum_to(fb, h), p);
            assert(sum_to(fa, h) + (-x) * sum_to(fb, h) == sum_to(fa, h) - x * sum_to(fb, h))
                by (nonlinear_arith);
            lemma_mod_twice(sum_to(fa, h), p);
        }
    }
}

/// The term of index `j` in the value of the polynomial with coefficients
/// `a` at the point `w^t`.
pub open spec fn dft_term(a: Seq<int>, w: int, t: int) -> spec_fn(int) -> int {
    |j: int| a[j] * pow(w, (j * t) as nat)
}

/// The value of the polynomial with coefficients `a` at the point `w^t`,
/// reduced into `[0, P)`.
pub open spec fn dft_at(a: Seq<int>, w: int, t: int) -> int {
    sum_to(dft_term(a, w, t), a.len() as int) % modulus()
}

/// The forward transform of `a`: at index `t`, the value of the polynomial
/// with coefficients `a` at the power `t` of the principal root of unity
/// whose order is the length of `a`.
pub open spec fn forward_transform(a: Seq<int>) -> Seq<int> {
    Seq::new(a.len(), |t: int| dft_at(a, root_of_unity(a.len() as int, false), t))
}

/// The inverse of a transform length in the field.
pub open spec fn length_inverse(n: int) -> int {
    pow_mod(n, (modulus() - 2) as nat, modulus())
}

/// The inverse transform of `a`: the transform with the inverse root,
/// each value divided by the length.
pub open spec fn inverse_transform(a: Seq<int>) -> Seq<int> {
    Seq::new(
        a.len(),
        |t: int|
            (length_inverse(a.len() as int) * dft_at(a, root_of_unity(a.len() as int, true), t))
                % modulus(),
    )
}

/// The transform of a direction.
pub open spec fn transform(a: Seq<int>, inverse: bool) -> Seq<int> {
    if inverse {
        inverse_transform(a)
    } else {
        forward_transform(a)
    }
}

/// All butterfly stages, run on the bit-reversed buffer, give the values
/// of the polynomial at the powers of the root.
pub proof fn lemma_stages_compute_dft(a: Seq<int>, c: Seq<int>, w: int, k: nat, idx: int)
    requires
        a.len() == two_pow(k),
        c.len() == a.len(),
        forall|i: int| 0 <= i < a.len() ==> #[trigger] c[i] == a[bit_reverse(i, k)],
        0 <= idx < a.len(),
        is_principal_root(w, k),
    ensures
        stage_value(c, w, k, k, idx) == dft_at(a, w, idx),
{
    let n = two_pow(k);
    lemma_stage_is_block_transform(c, w, k, k, idx);
    lemma_small_mod(idx as nat, n as nat);
    assert(two_pow(0) == 1);
    let f = block_term(c, w, 1, k, 0, idx);
    let g = dft_term(a, w, idx);
    assert forall|s: int| 0 <= s < n implies #[trigger] f(s) == g(s) by {
        lemma_bit_reverse_involution(s, k);
        assert(1 * s * idx == s * idx);
    }
    lemma_sum_ext(f, g, n);
}

} // verus!
