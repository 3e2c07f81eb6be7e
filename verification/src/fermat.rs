use crate::bit_reverse::two_pow;
use crate::field::modulus;
use crate::roots::{lemma_forward_generator_half_order, lemma_pow_mod_mul};
use crate::sums::lemma_times_one;
use vstd::arithmetic::div_mod::{
    lemma_add_mod_noop, lemma_fundamental_div_mod, lemma_mod_bound, lemma_mod_twice,
    lemma_mul_mod_noop_general, lemma_small_mod,
};
use vstd::arithmetic::power::{
    lemma1_pow, lemma_pow1, lemma_pow_adds, lemma_pow_distributes, lemma_pow_mod_noop,
    lemma_pow_multiplies, pow,
};
use vstd::prelude::*;
use vstd::relations::injective_on;
use vstd::set_lib::{lemma_int_range, lemma_map_size, lemma_subset_equality, set_int_range};

verus! {

/// The order of the multiplicative group of the field: `P - 1`.
pub open spec fn group_order() -> nat {
    469762048
}

/// Whether the generator, raised to `d`, is one.
pub open spec fn is_period(d: nat) -> bool {
    pow(3, d) % modulus() == 1
}

/// The power `k` of the generator, reduced into `[0, P)`.
pub open spec fn generator_power(k: int) -> int {
    pow(3, k as nat) % modulus()
}

/// The generator raised to `2^26` is not one.
pub proof fn lemma_generator_seventh_order()
    ensures
        pow(3, 67108864) % modulus() == 132422475,
{
    lemma_pow1(3);
    lemma_pow_mod_mul(3, 1, 1, 3, 3, 9);
    lemma_pow_mod_mul(3, 2, 2, 9, 9, 81);
    lemma_pow_mod_mul(3, 4, 4, 81, 81, 6561);
    lemma_pow_mod_mul(3, 8, 8, 6561, 6561, 43046721);
    lemma_pow_mod_mul(3, 16, 16, 43046721, 43046721, 98700784);
    lemma_pow_mod_mul(3, 32, 32, 98700784, 98700784, 189125084);
    lemma_pow_mod_mul(3, 64, 64, 189125084, 189125084, 68624915);
    lemma_pow_mod_mul(3, 128, 128, 68624915, 68624915, 324670755);
    lemma_pow_mod_mul(3, 256, 256, 324670755, 324670755, 251317614);
    lemma_pow_mod_mul(3, 512, 512, 251317614, 251317614, 263047000);
    lemma_pow_mod_mul(3, 1024, 1024, 263047000, 263047000, 123888162);
    lemma_pow_mod_mul(3, 2048, 2048, 123888162, 123888162, 95650243);
    lemma_pow_mod_mul(3, 4096, 4096, 95650243, 95650243, 290385250);
    lemma_pow_mod_mul(3, 8192, 8192, 290385250, 290385250, 153328329);
    lemma_pow_mod_mul(3, 16384, 16384, 153328329, 153328329, 261148353);
    lemma_pow_mod_mul(3, 32768, 32768, 261148353, 261148353, 24376670);
    lemma_pow_mod_mul(3, 65536, 65536, 24376670, 24376670, 294502742);
    lemma_pow_mod_mul(3, 131072, 131072, 294502742, 294502742, 465408120);
    lemma_pow_mod_mul(3, 262144, 262144, 465408120, 465408120, 389773744);
    lemma_pow_mod_mul(3, 524288, 524288, 389773744, 389773744, 363926210);
    lemma_pow_mod_mul(3, 1048576, 1048576, 363926210, 363926210, 81125136);
    lemma_pow_mod_mul(3, 2097152, 2097152, 81125136, 81125136, 304552728);
    lemma_pow_mod_mul(3, 4194304, 4194304, 304552728, 304552728, 6900502);
    lemma_pow_mod_mul(3, 8388608, 8388608, 6900502, 6900502, 437279217);
    lemma_pow_mod_mul(3, 16777216, 16777216, 437279217, 437279217, 427195177);
    lemma_pow_mod_mul(3, 33554432, 33554432, 427195177, 427195177, 132422475);
}

/// The order of the group is a period of the generator.
pub proof fn lemma_group_order_is_period()
    ensures
        is_period(group_order()),
{
    lemma_forward_generator_half_order();
    lemma_pow_mod_mul(3, 234881024, 234881024, 469762048, 469762048, 1);
}

/// The difference of two periods is a period.
pub proof fn lemma_period_difference(a: nat, b: nat)
    requires
        a >= b,
        is_period(a),
        is_period(b),
    ensures
        is_period((a - b) as nat),
{
    let p = modulus();
    lemma_pow_adds(3, (a - b) as nat, b);
    lemma_small_mod(1, p as nat);
    lemma_times_one(pow(3, (a - b) as nat), pow(3, b), p);
}

/// A multiple of a period is a period.
pub proof fn lemma_period_multiple(a: nat, c: nat)
    requires
        is_period(a),
    ensures
        is_period(a * c),
{
    let p = modulus();
    lemma_pow_multiplies(3, a, c);
    lemma_pow_mod_noop(pow(3, a), c, p);
    lemma1_pow(c);
    lemma_small_mod(1, p as nat);
}

/// Two periods have a common divisor that is a period.
pub proof fn lemma_common_period(a: nat, b: nat) -> (d: nat)
    requires
        a > 0,
        b > 0,
        is_period(a),
        is_period(b),
    ensures
        d > 0,
        is_period(d),
        a % d == 0,
        b % d == 0,
    decreases a + b,
{
    if a == b {
        assert(a % a == 0) by {
            vstd::arithmetic::div_mod::lemma_mod_self_0(a as int);
        }
        a
    } else if a > b {
        lemma_period_difference(a, b);
        let d = lemma_common_period((a - b) as nat, b);
        lemma_add_mod_noop((a - b) as int, b as int, d as int);
        lemma_small_mod(0, d);
        d
    } else {
        lemma_period_difference(b, a);
        let d = lemma_common_period(a, (b - a) as nat);
        lemma_add_mod_noop((b - a) as int, a as int, d as int);
        lemma_small_mod(0, d);
        d
    }
}

/// An odd divisor of `7 * 2^k` divides seven.
pub proof fn lemma_odd_divisor(c: int, y: int, k: nat) -> (z: int)
    requires
        c > 0,
        y > 0,
        c % 2 == 1,
        c * y == 7 * two_pow(k),
    ensures
        c * z == 7,
        y == z * two_pow(k),
    decreases k,
{
    if k == 0 {
        assert(y == y * 1);
        y
    } else {
        let rest = two_pow((k - 1) as nat);
        // c is odd and c * y is even: y is even
        assert(y % 2 == 0) by {
            lemma_mul_mod_noop_general(c, y, 2);
            assert((c * y) % 2 == 0) by {
                assert(c * y == 2 * (7 * rest));
            }
            if y % 2 == 1 {
                assert(((c % 2) * (y % 2)) % 2 == 1);
            }
        }
        let half = y / 2;
        assert(c * half == 7 * rest) by (nonlinear_arith)
            requires
                c * y == 7 * (2 * rest),
                y == 2 * half,
        ;
        let z = lemma_odd_divisor(c, half, (k - 1) as nat);
        assert(y == z * (2 * rest)) by (nonlinear_arith)
            requires
                y == 2 * half,
                half == z * rest,
        ;
        z
    }
}

/// No positive number below the order of the group is a period of the
/// generator: the generator has the order of the group.
pub proof fn lemma_generator_order(d: nat)
    requires
        0 < d < group_order(),
    ensures
        !is_period(d),
{
    if is_period(d) {
        let n = group_order();
        lemma_group_order_is_period();
        let e = lemma_common_period(d, n);
        // e divides the order properly
        let c = (n / e) as int;
        lemma_fundamental_div_mod(n as int, e as int);
        lemma_fundamental_div_mod(d as int, e as int);
        assert(n == e * c);
        assert(e <= d) by {
            let q = (d / e) as int;
            assert(d == e * q);
            assert(q >= 1) by (nonlinear_arith)
                requires
                    d == e * q,
                    d > 0,
                    e > 0,
            ;
            assert(e * q >= e) by (nonlinear_arith)
                requires
                    q >= 1,
                    e > 0,
            ;
        }
        assert(c >= 2) by (nonlinear_arith)
            requires
                n == e * c,
                e < n,
                e > 0,
        ;
        assert(two_pow(26) == 67108864) by {
            reveal_with_fuel(two_pow, 27);
        }
        if c % 2 == 0 {
            let h = (c / 2) as nat;
            assert(e * h == 234881024) by (nonlinear_arith)
                requires
                    469762048 == e * c,
                    c == 2 * h,
            ;
            lemma_period_multiple(e, h);
            lemma_forward_generator_half_order();
        } else {
            assert(c * e == 7 * two_pow(26)) by (nonlinear_arith)
                requires
                    469762048 == e * c,
                    two_pow(26) == 67108864,
            ;
            let z = lemma_odd_divisor(c, e as int, 26);
            assert(z >= 1) by (nonlinear_arith)
                requires
                    c * z == 7,
                    c > 0,
            ;
            assert(c <= 7) by (nonlinear_arith)
                requires
                    c * z == 7,
                    z >= 1,
                    c > 0,
            ;
            assert(c == 7 && z == 1) by {
                if c == 3 {
                    assert(3 * z == 7);
                } else if c == 5 {
                    assert(5 * z == 7);
                } else {
                    assert(c == 7);
                    assert(7 * z == 7);
                }
            }
            assert(e == 67108864);
            lemma_generator_seventh_order();
        }
    }
}

/// The power `k` of the generator times the power `k` of its inverse is
/// one.
pub proof fn lemma_generator_power_unit(k: nat)
    ensures
        (pow(3, k) * pow(156587350, k)) % modulus() == 1,
        generator_power(k as int) != 0,
{
    let p = modulus();
    lemma_pow_distributes(3, 156587350, k);
    assert((3int * 156587350int) % 469762049int == 1);
    lemma_pow_mod_noop(3int * 156587350int, k, p);
    lemma1_pow(k);
    lemma_small_mod(1, p as nat);
    lemma_mul_mod_noop_general(pow(3, k), pow(156587350, k), p);
    if generator_power(k as int) == 0 {
        assert(0 * (pow(156587350, k) % p) == 0);
        lemma_small_mod(0, p as nat);
    }
}

/// Different exponents below the order of the group give different powers
/// of the generator.
pub proof fn lemma_generator_powers_differ(i: nat, j: nat)
    requires
        i < j < group_order(),
    ensures
        generator_power(i as int) != generator_power(j as int),
{
    let p = modulus();
    if generator_power(i as int) == generator_power(j as int) {
        let d = (j - i) as nat;
        let x = pow(3, d);
        let a = pow(3, i);
        let b = pow(156587350, i);
        lemma_pow_adds(3, d, i);
        lemma_generator_power_unit(i);
        // 3^j b is congruent both to 3^d and to one
        assert((pow(3, j) * b) % p == (a * b) % p) by {
            lemma_mul_mod_noop_general(pow(3, j), b, p);
            lemma_mul_mod_noop_general(a, b, p);
        }
        assert(pow(3, j) * b == x * (a * b)) by (nonlinear_arith)
            requires
                pow(3, j) == x * a,
        ;
        lemma_small_mod(1, p as nat);
        lemma_times_one(x, a * b, p);
        lemma_generator_order(d);
    }
}

/// Every residue but zero is a power of the generator.
pub proof fn lemma_generator_reaches(r: int) -> (k: nat)
    requires
        0 < r < modulus(),
    ensures
        k < group_order(),
        generator_power(k as int) == r,
{
    let p = modulus();
    let n = group_order() as int;
    let exponents = set_int_range(0, n);
    let residues = set_int_range(1, p);
    let f = |k: int| generator_power(k);
    let image = exponents.map(f);
    lemma_int_range(0, n);
    lemma_int_range(1, p);
    assert(injective_on(f, exponents)) by {
        assert forall|x1: int, x2: int|
            exponents.contains(x1) && exponents.contains(x2) && #[trigger] f(x1) == #[trigger] f(
                x2,
            ) implies x1 == x2 by {
            if x1 < x2 {
                lemma_generator_powers_differ(x1 as nat, x2 as nat);
            } else if x2 < x1 {
                lemma_generator_powers_differ(x2 as nat, x1 as nat);
            }
        }
    }
    lemma_map_size(exponents, image, f);
    assert(image.subset_of(residues)) by {
        assert forall|v: int| image.contains(v) implies residues.contains(v) by {
            let k = choose|k: int| exponents.contains(k) && v == f(k);
            lemma_generator_power_unit(k as nat);
            lemma_mod_bound(pow(3, k as nat), p);
        }
    }
    lemma_subset_equality(image, residues);
    assert(residues.contains(r));
    assert(image.contains(r));
    let k = choose|k: int| exponents.contains(k) && r == f(k);
    k as nat
}

/// Fermat's little theorem for the field: a number that the modulus does
/// not divide, raised to `P - 1`, is congruent to one.
pub proof fn lemma_fermat(a: int)
    requires
        a % modulus() != 0,
    ensures
        pow(a, group_order()) % modulus() == 1,
{
    let p = modulus();
    let n = group_order();
    let r = a % p;
    lemma_mod_bound(a, p);
    let k = lemma_generator_reaches(r);
    // a^n is (3^k)^n, which is (3^n)^k
    lemma_pow_mod_noop(a, n, p);
    lemma_pow_mod_noop(pow(3, k), n, p);
    lemma_pow_multiplies(3, k, n);
    lemma_pow_multiplies(3, n, k);
    assert(k * n == n * k) by (nonlinear_arith);
    lemma_group_order_is_period();
    lemma_pow_mod_noop(pow(3, n), k, p);
    lemma1_pow(k);
    lemma_small_mod(1, p as nat);
}

/// The power `P - 2` of a number that the modulus does not divide is its
/// inverse: their product is congruent to one.
pub proof fn lemma_inverse_by_power(a: int)
    requires
        a % modulus() != 0,
    ensures
        (a * (pow(a, (modulus() - 2) as nat) % modulus())) % modulus() == 1,
{
    let p = modulus();
    let e = (p - 2) as nat;
    lemma_fermat(a);
    lemma_pow_adds(a, 1, e);
    lemma_pow1(a);
    lemma_mul_mod_noop_general(a, pow(a, e), p);
    lemma_mul_mod_noop_general(a, pow(a, e) % p, p);
    lemma_mod_twice(pow(a, e), p);
}

} // verus!
