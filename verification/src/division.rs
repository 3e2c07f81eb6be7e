use crate::convolution::{lemma_conv_zero_beyond, product_seq};
use crate::field::modulus;
use crate::poly_spec::{
    coeff, conv_coeff, conv_term, degree, is_poly, is_reduced, is_trimmed, lemma_same_coefficients,
    lemma_trim, poly_add, poly_mul, poly_reverse, poly_sub, poly_truncate, trim, zero_poly,
};
use crate::ring_laws::{lemma_poly_add, lemma_poly_mul, lemma_poly_sub};
use crate::series::{
    lemma_conv_associates, lemma_conv_commutes, lemma_conv_cong, lemma_conv_linear,
    lemma_conv_near_unit_square, lemma_conv_unit,
};
use crate::sums::{lemma_sum_reflect, lemma_sum_zero_tail, sum_to};
use vstd::arithmetic::div_mod::{
    lemma_add_mod_noop, lemma_mod_bound, lemma_mod_twice, lemma_small_mod,
};
use vstd::prelude::*;

verus! {

/// Whether the leading coefficient of `g` is `1` or `-1`: the polynomial is
/// monic up to sign.
pub open spec fn is_unit_lead(g: Seq<int>) -> bool {
    g.len() >= 1 && (g[g.len() - 1] == 1 || g[g.len() - 1] == modulus() - 1)
}

/// Whether `h` is the inverse of `g` as a power series, up to `x^prec`:
/// their product has the constant coefficient one and the coefficient zero
/// at each higher power below `prec`.
pub open spec fn is_series_inverse(g: Seq<int>, h: Seq<int>, prec: int) -> bool {
    forall|k: int|
        0 <= k < prec ==> #[trigger] conv_coeff(g, h, k) == (if k == 0 {
            1int
        } else {
            0int
        })
}

/// Whether `q` and `r` are quotient and remainder of `f` on division by
/// `g`: `f == q * g + r`, and `r` is zero or of lower degree than `g`.
pub open spec fn is_division(f: Seq<int>, g: Seq<int>, q: Seq<int>, r: Seq<int>) -> bool {
    &&& is_poly(q)
    &&& is_poly(r)
    &&& poly_add(poly_mul(q, g), r) == f
    &&& (r == zero_poly() || degree(r) < degree(g))
}

/// Whether `r` is the remainder of `f` on division by `g`, with some
/// quotient.
pub open spec fn is_remainder(f: Seq<int>, g: Seq<int>, r: Seq<int>) -> bool {
    exists|q: Seq<int>| #[trigger] is_division(f, g, q, r)
}

/// Whether a division can be computed: the dividend is of lower degree
/// than the divisor, or the quotient has at most `2^24` coefficients and
/// the dividend fewer than `2^25`.
pub open spec fn div_fits(f: Seq<int>, g: Seq<int>) -> bool {
    degree(f) < degree(g) || (degree(f) - degree(g) + 1 <= 16777216 && f.len() < 33554432)
}

/// The coefficients of a reversed polynomial.
pub proof fn lemma_poly_reverse(f: Seq<int>)
    requires
        f.len() >= 1,
    ensures
        is_trimmed(poly_reverse(f)),
        is_reduced(f) ==> is_poly(poly_reverse(f)),
        poly_reverse(f).len() <= f.len(),
        forall|i: int|
            #[trigger] coeff(poly_reverse(f), i) == (if 0 <= i < f.len() {
                f[f.len() - 1 - i]
            } else {
                0
            }),
{
    let r = f.reverse();
    lemma_trim(r);
    assert forall|i: int| #[trigger] coeff(poly_reverse(f), i) == (if 0 <= i < f.len() {
        f[f.len() - 1 - i]
    } else {
        0
    }) by {
        assert(coeff(trim(r), i) == coeff(r, i));
    }
    if is_reduced(f) {
        assert forall|i: int| 0 <= i < r.len() implies 0 <= #[trigger] r[i] < modulus() by {
            assert(r[i] == f[f.len() - 1 - i]);
        }
    }
}

/// The coefficients of a truncated polynomial.
pub proof fn lemma_poly_truncate(f: Seq<int>, k: int)
    requires
        k >= 0,
    ensures
        is_trimmed(poly_truncate(f, k)),
        is_reduced(f) ==> is_poly(poly_truncate(f, k)),
        poly_truncate(f, k).len() <= vstd::math::max(vstd::math::min(k, f.len() as int), 1),
        forall|i: int|
            #[trigger] coeff(poly_truncate(f, k), i) == (if i < k {
                coeff(f, i)
            } else {
                0
            }),
{
    let t = f.take(vstd::math::min(k, f.len() as int));
    lemma_trim(t);
    assert forall|i: int| #[trigger] coeff(poly_truncate(f, k), i) == (if i < k {
        coeff(f, i)
    } else {
        0
    }) by {
        assert(coeff(trim(t), i) == coeff(t, i));
    }
    if is_reduced(f) {
        assert forall|i: int| 0 <= i < t.len() implies 0 <= #[trigger] t[i] < modulus() by {
            assert(t[i] == f[i]);
        }
    }
}

/// The product of two reversed polynomials is the reversed product: the
/// coefficient `k` of the one is the coefficient `da + db - k` of the
/// other, where `da` and `db` bound the degrees.
pub proof fn lemma_conv_reverse(
    a: Seq<int>,
    b: Seq<int>,
    ra: Seq<int>,
    rb: Seq<int>,
    da: int,
    db: int,
    k: int,
)
    requires
        da >= 0,
        db >= 0,
        0 <= k <= da + db,
        a.len() <= da + 1,
        b.len() <= db + 1,
        forall|i: int|
            #[trigger] coeff(ra, i) == (if 0 <= i <= da {
                coeff(a, da - i)
            } else {
                0
            }),
        forall|i: int|
            #[trigger] coeff(rb, i) == (if 0 <= i <= db {
                coeff(b, db - i)
            } else {
                0
            }),
    ensures
        conv_coeff(ra, rb, k) == conv_coeff(a, b, da + db - k),
{
    let s = da + db - k;
    let t1 = conv_term(ra, rb, k);
    let t2 = conv_term(a, b, s);
    // both sums can be taken over the indices 0 to da
    if k <= da {
        assert forall|i: int| k + 1 <= i < da + 1 implies #[trigger] t1(i) == 0 by {
            assert(coeff(rb, k - i) == 0);
            assert(coeff(ra, i) * 0 == 0);
        }
        lemma_sum_zero_tail(t1, k + 1, da + 1);
    } else {
        assert forall|i: int| da + 1 <= i < k + 1 implies #[trigger] t1(i) == 0 by {
            assert(coeff(ra, i) == 0);
            assert(0 * coeff(rb, k - i) == 0);
        }
        lemma_sum_zero_tail(t1, da + 1, k + 1);
    }
    if s <= da {
        assert forall|i: int| s + 1 <= i < da + 1 implies #[trigger] t2(i) == 0 by {
            assert(coeff(b, s - i) == 0);
            assert(coeff(a, i) * 0 == 0);
        }
        lemma_sum_zero_tail(t2, s + 1, da + 1);
    } else {
        assert forall|i: int| da + 1 <= i < s + 1 implies #[trigger] t2(i) == 0 by {
            assert(coeff(a, i) == 0);
            assert(0 * coeff(b, s - i) == 0);
        }
        lemma_sum_zero_tail(t2, da + 1, s + 1);
    }
    assert forall|i: int| 0 <= i < da + 1 implies #[trigger] t1(i) == t2(da + 1 - 1 - i) by {
        assert(coeff(ra, i) == coeff(a, da - i));
        assert(s - (da - i) == db - (k - i));
        assert(coeff(rb, k - i) == coeff(b, db - (k - i)));
    }
    lemma_sum_reflect(t2, t1, da + 1);
}

/// One step of the Newton iteration doubles the precision of a power
/// series inverse: where `h` inverts `g` up to `x^half`, the first
/// `2 half` coefficients of `2 h - (g h) h` invert `g` up to `x^(2 half)`.
pub proof fn lemma_newton_step(
    g: Seq<int>,
    h: Seq<int>,
    gt: Seq<int>,
    a: Seq<int>,
    b: Seq<int>,
    h2: Seq<int>,
    half: int,
)
    requires
        half >= 1,
        is_series_inverse(g, h, half),
        forall|i: int| 0 <= i < 2 * half ==> #[trigger] coeff(gt, i) == coeff(g, i),
        forall|k: int| 0 <= k < 2 * half ==> #[trigger] coeff(a, k) == conv_coeff(gt, h, k),
        forall|k: int| 0 <= k < 2 * half ==> #[trigger] coeff(b, k) == conv_coeff(a, h, k),
        forall|k: int|
            0 <= k < 2 * half ==> #[trigger] coeff(h2, k) == (2 * coeff(h, k) - coeff(b, k))
                % modulus(),
    ensures
        is_series_inverse(g, h2, 2 * half),
{
    let p = modulus();
    let n = 2 * half;
    // the product of g and h, and the product of g with that
    let e = product_seq(g, h, n);
    let ge = product_seq(g, a, n);
    let two_h = Seq::new(n as nat, |i: int| 2 * coeff(h, i));
    assert(coeff(e, 0) == 1);
    assert forall|j: int| 0 < j < half implies #[trigger] coeff(e, j) == 0 by {
        assert(conv_coeff(g, h, j) == 0);
    }
    assert forall|k: int| 0 <= k < n implies #[trigger] conv_coeff(g, h2, k) == (if k == 0 {
        1int
    } else {
        0int
    }) by {
        // g * h2 is g * 2h - g * b
        assert forall|i: int| 0 <= i <= k implies #[trigger] coeff(h2, i) % p == (coeff(
            two_h,
            i,
        ) + (-1) * coeff(b, i)) % p by {
            lemma_mod_twice(2 * coeff(h, i) - coeff(b, i), p);
        }
        lemma_conv_linear(g, two_h, b, h2, -1, k);
        assert forall|i: int| 0 <= i <= k implies #[trigger] coeff(two_h, i) % p == (coeff(h, i)
            + 1 * coeff(h, i)) % p by {}
        lemma_conv_linear(g, h, h, two_h, 1, k);
        // g * b is (g * a) * h, and g * a is e * g
        assert forall|j: int| 0 <= j <= k implies #[trigger] coeff(ge, j) % p == conv_coeff(
            g,
            a,
            j,
        ) by {
            lemma_mod_twice(sum_to(conv_term(g, a, j), j + 1), p);
        }
        assert forall|j: int| 0 <= j <= k implies #[trigger] coeff(b, j) % p == conv_coeff(
            a,
            h,
            j,
        ) by {
            lemma_mod_twice(sum_to(conv_term(a, h, j), j + 1), p);
        }
        lemma_conv_associates(g, a, h, ge, b, k);
        assert forall|j: int| 0 <= j <= k implies #[trigger] coeff(ge, j) % p == conv_coeff(
            e,
            g,
            j,
        ) by {
            lemma_conv_commutes(g, a, j);
            assert forall|i: int| 0 <= i <= j implies #[trigger] coeff(a, i) % p == coeff(e, i)
                % p by {
                lemma_conv_cong(gt, h, g, h, i);
            }
            lemma_conv_cong(a, g, e, g, j);
        }
        assert forall|j: int| 0 <= j <= k implies #[trigger] coeff(e, j) % p == conv_coeff(
            g,
            h,
            j,
        ) by {
            lemma_mod_twice(sum_to(conv_term(g, h, j), j + 1), p);
        }
        lemma_conv_associates(e, g, h, ge, e, k);
        lemma_conv_near_unit_square(e, half, k);
        let ek = conv_coeff(g, h, k);
        assert(coeff(e, k) == ek);
        if k == 0 {
            assert(((1int + 1 * 1) % p + (-1) * 1) % p == 1);
        } else {
            lemma_mod_bound(2 * ek, p);
            assert(ek + 1 * ek == 2 * ek);
            assert((2 * ek) % p + (-1) * ((2 * ek) % p) == 0);
            lemma_small_mod(0, p as nat);
        }
    }
}

/// The polynomial whose coefficient `j` is the coefficient `d - j` of the
/// product of `rf` and `h`, for `j` from `0` to `d`.
pub open spec fn quotient_coefficients(rf: Seq<int>, h: Seq<int>, d: int) -> Seq<int> {
    Seq::new((d + 1) as nat, |j: int| conv_coeff(rf, h, d - j))
}

/// A polynomial all of whose coefficients from `m` on are zero is zero or
/// of a degree below `m`.
pub proof fn lemma_low_degree(r: Seq<int>, m: int)
    requires
        is_poly(r),
        m >= 0,
        forall|s: int| s >= m ==> #[trigger] coeff(r, s) == 0,
    ensures
        r == zero_poly() || degree(r) < m,
{
    if r.len() >= 2 {
        assert(coeff(r, r.len() - 1) != 0);
    } else if m == 0 {
        assert(coeff(r, 0) == 0);
        assert(r =~= zero_poly());
    }
}

/// The quotient that the reversed dividend, times the power series inverse
/// of the reversed divisor, gives: with the remainder that is left, it
/// divides the dividend.
pub proof fn lemma_quotient_from_inverse(f: Seq<int>, g: Seq<int>, h: Seq<int>, prec: int)
    requires
        is_poly(f),
        is_poly(g),
        degree(f) >= degree(g),
        is_series_inverse(poly_reverse(g), h, prec),
        prec >= degree(f) - degree(g) + 1,
    ensures
        ({
            let q = trim(quotient_coefficients(poly_reverse(f), h, degree(f) - degree(g)));
            is_division(f, g, q, poly_sub(f, poly_mul(q, g)))
        }),
{
    let p = modulus();
    let n = degree(f);
    let m = degree(g);
    let d = n - m;
    let rf = poly_reverse(f);
    let rg = poly_reverse(g);
    let raw = quotient_coefficients(rf, h, d);
    let q = trim(raw);
    let qg = poly_mul(q, g);
    let r = poly_sub(f, qg);
    lemma_poly_reverse(f);
    lemma_poly_reverse(g);
    lemma_trim(raw);
    assert(is_reduced(raw)) by {
        assert forall|j: int| 0 <= j < raw.len() implies 0 <= #[trigger] raw[j] < p by {
            lemma_mod_bound(sum_to(conv_term(rf, h, d - j), d - j + 1), p);
        }
    }
    lemma_poly_mul(q, g);
    lemma_poly_sub(f, qg);
    lemma_poly_add(qg, r);
    // the quotient times the divisor, plus what is left, is the dividend
    assert forall|i: int| 0 <= i implies coeff(poly_add(qg, r), i) == #[trigger] coeff(f, i) by {
        let c = coeff(qg, i);
        let x = coeff(f, i);
        lemma_add_mod_noop(c, x - c, p);
        lemma_mod_twice(x - c, p);
        lemma_add_mod_noop(c, (x - c) % p, p);
        if 0 <= i < f.len() {
            lemma_small_mod(x as nat, p as nat);
        } else {
            lemma_small_mod(0, p as nat);
        }
    }
    lemma_same_coefficients(poly_add(qg, r), f);
    // the first d + 1 coefficients of rf * h, as a sequence
    let qr = product_seq(rf, h, d + 1);
    assert forall|s: int| s >= m implies #[trigger] coeff(r, s) == 0 by {
        if s > n {
            lemma_conv_zero_beyond(q, g, s);
            lemma_small_mod(0, p as nat);
        } else {
            let k = n - s;
            // q * g at s is (rf * h) * rg at k
            assert forall|i: int| #[trigger] coeff(raw, i) == (if 0 <= i <= d {
                coeff(qr, d - i)
            } else {
                0
            }) by {}
            assert forall|i: int| #[trigger] coeff(g, i) == (if 0 <= i <= m {
                coeff(rg, m - i)
            } else {
                0
            }) by {}
            lemma_conv_reverse(qr, rg, raw, g, d, m, s);
            lemma_conv_cong(q, g, raw, g, s);
            assert(conv_coeff(q, g, s) == conv_coeff(qr, rg, k));
            // (rf * h) * rg is rf * (h * rg), and h * rg is one
            let unit = product_seq(h, rg, k + 1);
            assert forall|j: int| 0 <= j <= k implies #[trigger] coeff(qr, j) % p == conv_coeff(
                rf,
                h,
                j,
            ) by {
                lemma_mod_twice(sum_to(conv_term(rf, h, j), j + 1), p);
            }
            assert forall|j: int| 0 <= j <= k implies #[trigger] coeff(unit, j) % p
                == conv_coeff(h, rg, j) by {
                lemma_mod_twice(sum_to(conv_term(h, rg, j), j + 1), p);
            }
            lemma_conv_associates(rf, h, rg, qr, unit, k);
            assert(coeff(unit, 0) == 1) by {
                lemma_conv_commutes(h, rg, 0);
            }
            assert forall|j: int| 0 < j <= k implies #[trigger] coeff(unit, j) == 0 by {
                lemma_conv_commutes(h, rg, j);
            }
            lemma_conv_unit(rf, unit, k);
            assert(coeff(rf, k) == coeff(f, s));
            lemma_small_mod(coeff(f, s) as nat, p as nat);
            assert(coeff(qg, s) == coeff(f, s));
            lemma_small_mod(0, p as nat);
        }
    }
    lemma_low_degree(r, m);
}

} // verus!
