use vstd::arithmetic::div_mod::{
    lemma_add_mod_noop, lemma_mod_multiples_vanish, lemma_mod_twice, lemma_mul_mod_noop_general,
    lemma_sub_mod_noop,
};
use vstd::prelude::*;

verus! {

/// The sum of `f(0), .., f(n - 1)`.
pub open spec fn sum_to(f: spec_fn(int) -> int, n: int) -> int
    decreases n,
{
    if n <= 0 {
        0
    } else {
        sum_to(f, n - 1) + f(n - 1)
    }
}

/// Sums of equal terms are equal.
pub proof fn lemma_sum_ext(f: spec_fn(int) -> int, g: spec_fn(int) -> int, n: int)
    requires
        forall|i: int| 0 <= i < n ==> #[trigger] f(i) == g(i),
    ensures
        sum_to(f, n) == sum_to(g, n),
    decreases n,
{
    if n > 0 {
        lemma_sum_ext(f, g, n - 1);
    }
}

/// Sums of congruent terms are congruent.
pub proof fn lemma_sum_cong(f: spec_fn(int) -> int, g: spec_fn(int) -> int, n: int, m: int)
    requires
        m > 0,
        forall|i: int| 0 <= i < n ==> #[trigger] f(i) % m == g(i) % m,
    ensures
        sum_to(f, n) % m == sum_to(g, n) % m,
    decreases n,
{
    if n > 0 {
        lemma_sum_cong(f, g, n - 1, m);
        lemma_add_mod_noop(sum_to(f, n - 1), f(n - 1), m);
        lemma_add_mod_noop(sum_to(g, n - 1), g(n - 1), m);
    }
}

/// A sum of zeros is zero.
pub proof fn lemma_sum_zero(f: spec_fn(int) -> int, n: int)
    requires
        forall|i: int| 0 <= i < n ==> #[trigger] f(i) == 0,
    ensures
        sum_to(f, n) == 0,
    decreases n,
{
    if n > 0 {
        lemma_sum_zero(f, n - 1);
    }
}

/// The sum of `f(i) + x * g(i)` is the sum of `f` plus `x` times that of `g`.
pub proof fn lemma_sum_add_scaled(
    f: spec_fn(int) -> int,
    g: spec_fn(int) -> int,
    s: spec_fn(int) -> int,
    x: int,
    n: int,
)
    requires
        forall|i: int| 0 <= i < n ==> #[trigger] s(i) == f(i) + x * g(i),
    ensures
        sum_to(s, n) == sum_to(f, n) + x * sum_to(g, n),
    decreases n,
{
    if n > 0 {
        lemma_sum_add_scaled(f, g, s, x, n - 1);
        let a = sum_to(g, n - 1);
        let b = g(n - 1);
        assert(x * (a + b) == x * a + x * b) by (nonlinear_arith);
    } else {
        assert(x * 0 == 0);
    }
}

/// The sum of `x * f(i)` is `x` times the sum of `f`.
pub proof fn lemma_sum_scaled(f: spec_fn(int) -> int, s: spec_fn(int) -> int, x: int, n: int)
    requires
        forall|i: int| 0 <= i < n ==> #[trigger] s(i) == x * f(i),
    ensures
        sum_to(s, n) == x * sum_to(f, n),
    decreases n,
{
    if n > 0 {
        lemma_sum_scaled(f, s, x, n - 1);
        let a = sum_to(f, n - 1);
        let b = f(n - 1);
        assert(x * (a + b) == x * a + x * b) by (nonlinear_arith);
    } else {
        assert(x * 0 == 0);
    }
}

/// A sum over `2h` indices, taken in pairs of an even index and the next.
pub proof fn lemma_sum_even_odd(f: spec_fn(int) -> int, s: spec_fn(int) -> int, h: int)
    requires
        forall|i: int| 0 <= i < h ==> #[trigger] s(i) == f(2 * i) + f(2 * i + 1),
    ensures
        sum_to(f, 2 * h) == sum_to(s, h),
    decreases h,
{
    if h > 0 {
        lemma_sum_even_odd(f, s, h - 1);
        assert(sum_to(f, 2 * h) == sum_to(f, 2 * h - 1) + f(2 * h - 1));
        assert(sum_to(f, 2 * h - 1) == sum_to(f, 2 * h - 2) + f(2 * h - 2));
        assert(s(h - 1) == f(2 * (h - 1)) + f(2 * (h - 1) + 1));
    }
}

/// A sum over `2h` indices, as the sum of its two halves.
pub proof fn lemma_sum_halves(f: spec_fn(int) -> int, s: spec_fn(int) -> int, h: int)
    requires
        h >= 0,
        forall|i: int| 0 <= i < h ==> #[trigger] s(i) == f(i) + f(i + h),
    ensures
        sum_to(f, 2 * h) == sum_to(s, h),
{
    lemma_sum_shifted_tail(f, s, h, h);
}

/// The sum of `f` over `[0, h + j)` is the sum of `f` over `[0, h)` plus
/// that of the first `j` terms from `h` on.
pub proof fn lemma_sum_shifted_tail(
    f: spec_fn(int) -> int,
    s: spec_fn(int) -> int,
    h: int,
    j: int,
)
    requires
        0 <= j <= h,
        forall|i: int| 0 <= i < h ==> #[trigger] s(i) == f(i) + f(i + h),
    ensures
        sum_to(f, h + j) + sum_to(f, j) == sum_to(f, h) + sum_to(s, j),
    decreases j,
{
    if j > 0 {
        lemma_sum_shifted_tail(f, s, h, j - 1);
        assert(s(j - 1) == f(j - 1) + f(j - 1 + h));
    }
}

/// `(a mod m + x (b mod m)) mod m` is `(a + x b) mod m`.
pub proof fn lemma_mod_combine_plus(a: int, x: int, b: int, m: int)
    requires
        m > 0,
    ensures
        (a % m + x * (b % m)) % m == (a + x * b) % m,
{
    lemma_mul_mod_noop_general(x, b, m);
    lemma_mul_mod_noop_general(x, b % m, m);
    lemma_mod_twice(b, m);
    lemma_add_mod_noop(a % m, x * (b % m), m);
    lemma_add_mod_noop(a, x * b, m);
    lemma_mod_twice(a, m);
}

/// `(a mod m - x (b mod m)) mod m` is `(a - x b) mod m`.
pub proof fn lemma_mod_combine_minus(a: int, x: int, b: int, m: int)
    requires
        m > 0,
    ensures
        (a % m - x * (b % m)) % m == (a - x * b) % m,
{
    lemma_mul_mod_noop_general(x, b, m);
    lemma_mul_mod_noop_general(x, b % m, m);
    lemma_mod_twice(b, m);
    lemma_sub_mod_noop(a % m, x * (b % m), m);
    lemma_sub_mod_noop(a, x * b, m);
    lemma_mod_twice(a, m);
}

/// A factor congruent to one can be left out.
pub proof fn lemma_times_one(y: int, z: int, m: int)
    requires
        m > 0,
        z % m == 1int % m,
    ensures
        (y * z) % m == y % m,
{
    lemma_mul_mod_noop_general(y, z, m);
    lemma_mul_mod_noop_general(y, 1, m);
    assert(y * 1 == y);
}

/// A factor congruent to minus one changes the sign.
pub proof fn lemma_times_minus_one(y: int, z: int, m: int)
    requires
        m > 0,
        z % m == m - 1,
    ensures
        (y * z) % m == (-y) % m,
{
    lemma_mul_mod_noop_general(y, z, m);
    lemma_mul_mod_noop_general(y, m - 1, m);
    vstd::arithmetic::div_mod::lemma_small_mod((m - 1) as nat, m as nat);
    assert(y * (m - 1) == m * y + (-y)) by (nonlinear_arith);
    lemma_mod_multiples_vanish(y, -y, m);
}

/// Congruent factors give congruent products.
pub proof fn lemma_cong_mul(a: int, b: int, c: int, d: int, m: int)
    requires
        m > 0,
        a % m == c % m,
        b % m == d % m,
    ensures
        (a * b) % m == (c * d) % m,
{
    lemma_mul_mod_noop_general(a, b, m);
    lemma_mul_mod_noop_general(c, d, m);
}

/// Congruent summands give congruent sums.
pub proof fn lemma_cong_add(a: int, b: int, c: int, d: int, m: int)
    requires
        m > 0,
        a % m == c % m,
        b % m == d % m,
    ensures
        (a + b) % m == (c + d) % m,
{
    lemma_add_mod_noop(a, b, m);
    lemma_add_mod_noop(c, d, m);
}

/// The sum of `f(t, 0), .., f(t, m - 1)`: a row of a table.
pub open spec fn row_sum(f: spec_fn(int, int) -> int, t: int, m: int) -> int {
    sum_to(|j: int| f(t, j), m)
}

/// The sum of `f(0, j), .., f(n - 1, j)`: a column of a table.
pub open spec fn col_sum(f: spec_fn(int, int) -> int, j: int, n: int) -> int {
    sum_to(|t: int| f(t, j), n)
}

/// The sums of the rows of a table add up to what the sums of its columns
/// add up to.
pub proof fn lemma_sum_exchange(
    f: spec_fn(int, int) -> int,
    rows: spec_fn(int) -> int,
    cols: spec_fn(int) -> int,
    n: int,
    m: int,
)
    requires
        forall|t: int| 0 <= t < n ==> #[trigger] rows(t) == row_sum(f, t, m),
        forall|j: int| 0 <= j < m ==> #[trigger] cols(j) == col_sum(f, j, n),
    ensures
        sum_to(rows, n) == sum_to(cols, m),
    decreases n,
{
    if n <= 0 {
        lemma_sum_zero(cols, m);
    } else {
        let shorter = |j: int| col_sum(f, j, n - 1);
        lemma_sum_exchange(f, rows, shorter, n - 1, m);
        let last = |j: int| f(n - 1, j);
        assert forall|j: int| 0 <= j < m implies #[trigger] cols(j) == shorter(j) + 1 * last(
            j,
        ) by {
            let column = |t: int| f(t, j);
            assert(sum_to(column, n) == sum_to(column, n - 1) + column(n - 1));
        }
        lemma_sum_add_scaled(shorter, last, cols, 1, m);
        assert(1 * sum_to(last, m) == sum_to(last, m));
        assert(rows(n - 1) == row_sum(f, n - 1, m));
    }
}

/// A sum whose terms are zero but at one index is the term at that index.
pub proof fn lemma_sum_spike(f: spec_fn(int) -> int, n: int, i: int)
    requires
        0 <= i < n,
        forall|j: int| 0 <= j < n && j != i ==> #[trigger] f(j) == 0,
    ensures
        sum_to(f, n) == f(i),
    decreases n,
{
    if n - 1 == i {
        lemma_sum_zero(f, n - 1);
    } else {
        lemma_sum_spike(f, n - 1, i);
    }
}

/// The sum of `f(i, k - i)` over `i` from `0` to `k`: a diagonal of a table.
pub open spec fn diag_sum(f: spec_fn(int, int) -> int, k: int) -> int {
    sum_to(|i: int| f(i, k - i), k + 1)
}

/// The sum of `f(i, j)` over the `j` with `i + j < n`: the part of a row
/// that lies above the diagonal of index `n`.
pub open spec fn wedge_sum(f: spec_fn(int, int) -> int, i: int, n: int) -> int {
    sum_to(|j: int| f(i, j), n - i)
}

/// The entries of a table above its diagonal of index `n` add up to the
/// same, taken diagonal by diagonal or row by row.
pub proof fn lemma_triangle(
    f: spec_fn(int, int) -> int,
    diags: spec_fn(int) -> int,
    wedges: spec_fn(int) -> int,
    n: int,
)
    requires
        forall|k: int| 0 <= k < n ==> #[trigger] diags(k) == diag_sum(f, k),
        forall|i: int| 0 <= i < n ==> #[trigger] wedges(i) == wedge_sum(f, i, n),
    ensures
        sum_to(diags, n) == sum_to(wedges, n),
    decreases n,
{
    if n > 0 {
        let shorter = |i: int| wedge_sum(f, i, n - 1);
        lemma_triangle(f, diags, shorter, n - 1);
        let last = |i: int| f(i, n - 1 - i);
        assert forall|i: int| 0 <= i < n - 1 implies #[trigger] wedges(i) == shorter(i) + 1
            * last(i) by {
            let row = |j: int| f(i, j);
            assert(sum_to(row, n - i) == sum_to(row, n - 1 - i) + row(n - 1 - i));
        }
        lemma_sum_add_scaled(shorter, last, wedges, 1, n - 1);
        assert(1 * sum_to(last, n - 1) == sum_to(last, n - 1));
        // the last row is a single entry, the last entry of the last diagonal
        let row = |j: int| f(n - 1, j);
        assert(wedges(n - 1) == wedge_sum(f, n - 1, n));
        assert(sum_to(row, 1) == sum_to(row, 0) + row(0));
        assert(sum_to(row, 0) == 0);
        assert(diags(n - 1) == diag_sum(f, n - 1));
        assert(sum_to(last, n) == sum_to(last, n - 1) + last(n - 1));
    }
}

/// A sum does not change where zero terms are added to its end.
pub proof fn lemma_sum_zero_tail(f: spec_fn(int) -> int, a: int, b: int)
    requires
        0 <= a <= b,
        forall|i: int| a <= i < b ==> #[trigger] f(i) == 0,
    ensures
        sum_to(f, a) == sum_to(f, b),
    decreases b - a,
{
    if a < b {
        lemma_sum_zero_tail(f, a, b - 1);
    }
}

/// A sum taken from its last term to its first.
pub proof fn lemma_sum_reflect(f: spec_fn(int) -> int, g: spec_fn(int) -> int, n: int)
    requires
        forall|i: int| 0 <= i < n ==> #[trigger] g(i) == f(n - 1 - i),
    ensures
        sum_to(f, n) == sum_to(g, n),
    decreases n,
{
    if n > 0 {
        // g without its first term is the reflection of f without its last
        let tail = |i: int| g(i + 1);
        assert forall|i: int| 0 <= i < n - 1 implies #[trigger] tail(i) == f(n - 2 - i) by {
            assert(g(i + 1) == f(n - 1 - (i + 1)));
        }
        lemma_sum_reflect(f, tail, n - 1);
        lemma_sum_drop_first(g, tail, n);
        assert(g(0) == f(n - 1 - 0));
    }
}

/// A sum is its first term plus the sum of the others.
pub proof fn lemma_sum_drop_first(g: spec_fn(int) -> int, tail: spec_fn(int) -> int, n: int)
    requires
        n >= 1,
        forall|i: int| 0 <= i < n - 1 ==> #[trigger] tail(i) == g(i + 1),
    ensures
        sum_to(g, n) == g(0) + sum_to(tail, n - 1),
    decreases n,
{
    if n > 1 {
        lemma_sum_drop_first(g, tail, n - 1);
        assert(tail(n - 2) == g(n - 2 + 1));
    } else {
        assert(sum_to(g, 1) == sum_to(g, 0) + g(0));
        assert(sum_to(g, 0) == 0);
    }
}

/// A sum whose terms are zero but the first and the last is the sum of
/// these two.
pub proof fn lemma_sum_two_spikes(f: spec_fn(int) -> int, n: int)
    requires
        n >= 2,
        forall|j: int| 0 < j < n - 1 ==> #[trigger] f(j) == 0,
    ensures
        sum_to(f, n) == f(0) + f(n - 1),
{
    lemma_sum_spike(f, n - 1, 0);
}

} // verus!
