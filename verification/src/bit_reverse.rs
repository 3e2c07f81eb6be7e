use vstd::prelude::*;

verus! {

/// `2^k` as a mathematical integer.
pub open spec fn two_pow(k: nat) -> int
    decreases k,
{
    if k == 0 {
        1
    } else {
        2 * two_pow((k - 1) as nat)
    }
}

/// The number whose `bits` lowest binary digits are those of `x` in
/// reverse order.
pub open spec fn bit_reverse(x: int, bits: nat) -> int
    decreases bits,
{
    if bits == 0 {
        0
    } else {
        (x % 2) * two_pow((bits - 1) as nat) + bit_reverse(x / 2, (bits - 1) as nat)
    }
}

pub proof fn lemma_two_pow_positive(k: nat)
    ensures
        two_pow(k) >= 1,
    decreases k,
{
    if k > 0 {
        lemma_two_pow_positive((k - 1) as nat);
    }
}

pub proof fn lemma_two_pow_adds(a: nat, b: nat)
    ensures
        two_pow(a + b) == two_pow(a) * two_pow(b),
    decreases a,
{
    if a == 0 {
        assert(1 * two_pow(b) == two_pow(b));
    } else {
        lemma_two_pow_adds((a - 1) as nat, b);
        assert((a + b - 1) as nat == (a - 1) as nat + b);
        let x = two_pow((a - 1) as nat);
        let y = two_pow(b);
        assert(2 * (x * y) == (2 * x) * y) by (nonlinear_arith);
    }
}

pub proof fn lemma_two_pow_monotonic(a: nat, b: nat)
    requires
        a <= b,
    ensures
        two_pow(a) <= two_pow(b),
    decreases b,
{
    if a < b {
        lemma_two_pow_monotonic(a, (b - 1) as nat);
        lemma_two_pow_positive((b - 1) as nat);
    }
}

/// The reversal of a number of `bits` digits has `bits` digits.
pub proof fn lemma_bit_reverse_bound(x: int, bits: nat)
    ensures
        0 <= bit_reverse(x, bits) < two_pow(bits),
    decreases bits,
{
    if bits > 0 {
        lemma_bit_reverse_bound(x / 2, (bits - 1) as nat);
        let h = two_pow((bits - 1) as nat);
        let d = x % 2;
        assert(d == 0 || d == 1);
        assert(d * h == 0 || d * h == h) by (nonlinear_arith)
            requires
                d == 0 || d == 1,
        ;
    }
}

/// Reversal takes the lowest digit to the highest place, and so the
/// highest digit to the lowest place.
pub proof fn lemma_bit_reverse_high(x: int, bits: nat)
    requires
        bits >= 1,
        0 <= x < two_pow(bits),
    ensures
        bit_reverse(x, bits) == 2 * bit_reverse(x % two_pow((bits - 1) as nat), (bits - 1) as nat)
            + x / two_pow((bits - 1) as nat),
    decreases bits,
{
    let h = two_pow((bits - 1) as nat);
    lemma_two_pow_positive((bits - 1) as nat);
    if bits == 1 {
        assert(h == 1);
        assert(bit_reverse(x / 2, 0) == 0);
        assert(bit_reverse(x % 1, 0) == 0);
    } else {
        let q = two_pow((bits - 2) as nat);
        lemma_two_pow_positive((bits - 2) as nat);
        assert(h == 2 * q);
        let y = x / 2;
        assert(0 <= y < h);
        lemma_bit_reverse_high(y, (bits - 1) as nat);
        // The digits of x, as top digit, middle part and lowest digit.
        let top = x / h;
        let low = x % h;
        assert(y / q == top && y % q == low / 2 && low % 2 == x % 2) by {
            lemma_split_three(x, q);
        }
        assert(bit_reverse(y, (bits - 1) as nat) == 2 * bit_reverse(y % q, (bits - 2) as nat) + y
            / q);
        assert(bit_reverse(low, (bits - 1) as nat) == (low % 2) * q + bit_reverse(
            low / 2,
            (bits - 2) as nat,
        ));
        let d = x % 2;
        let r = bit_reverse(low / 2, (bits - 2) as nat);
        assert(d * (2 * q) + (2 * r + top) == 2 * (d * q + r) + top) by (nonlinear_arith);
    }
}

/// Dividing by two and then by `q` is dividing by `2q`; the remainders fit.
pub proof fn lemma_split_three(x: int, q: int)
    requires
        x >= 0,
        q >= 1,
    ensures
        (x / 2) / q == x / (2 * q),
        (x / 2) % q == (x % (2 * q)) / 2,
        (x % (2 * q)) % 2 == x % 2,
{
    let h = 2 * q;
    let top = x / h;
    let low = x % h;
    vstd::arithmetic::div_mod::lemma_fundamental_div_mod(x, h);
    vstd::arithmetic::div_mod::lemma_mod_bound(x, h);
    let lh = low / 2;
    let d = low % 2;
    assert(low == 2 * lh + d);
    assert(0 <= lh < q);
    // x = h * top + low = 2 * (q * top + lh) + d
    assert(x == 2 * (q * top + lh) + d) by (nonlinear_arith)
        requires
            x == h * top + low,
            h == 2 * q,
            low == 2 * lh + d,
    ;
    vstd::arithmetic::div_mod::lemma_fundamental_div_mod_converse(x, 2, q * top + lh, d);
    assert(x / 2 == q * top + lh);
    assert(q * top + lh == top * q + lh) by (nonlinear_arith);
    vstd::arithmetic::div_mod::lemma_fundamental_div_mod_converse(x / 2, q, top, lh);
}

/// Reversing twice gives the number back.
pub proof fn lemma_bit_reverse_involution(x: int, bits: nat)
    requires
        0 <= x < two_pow(bits),
    ensures
        bit_reverse(bit_reverse(x, bits), bits) == x,
        0 <= bit_reverse(x, bits) < two_pow(bits),
    decreases bits,
{
    lemma_bit_reverse_bound(x, bits);
    if bits > 0 {
        let h = two_pow((bits - 1) as nat);
        lemma_two_pow_positive((bits - 1) as nat);
        let d = x % 2;
        let rest = bit_reverse(x / 2, (bits - 1) as nat);
        let r = bit_reverse(x, bits);
        lemma_bit_reverse_bound(x / 2, (bits - 1) as nat);
        lemma_bit_reverse_involution(x / 2, (bits - 1) as nat);
        assert(r == d * h + rest);
        assert(d == 0 || d == 1);
        vstd::arithmetic::div_mod::lemma_fundamental_div_mod_converse(r, h, d, rest);
        lemma_bit_reverse_high(r, bits);
    }
}

/// Zero is its own reversal.
pub proof fn lemma_bit_reverse_zero(bits: nat)
    ensures
        bit_reverse(0, bits) == 0,
    decreases bits,
{
    if bits > 0 {
        lemma_bit_reverse_zero((bits - 1) as nat);
        assert(0 * two_pow((bits - 1) as nat) == 0);
    }
}

/// The reversals of `2s` and `2s + 1` in one more digit.
pub proof fn lemma_bit_reverse_even_odd(s: int, bits: nat)
    requires
        bits >= 1,
        s >= 0,
    ensures
        bit_reverse(2 * s, bits) == bit_reverse(s, (bits - 1) as nat),
        bit_reverse(2 * s + 1, bits) == two_pow((bits - 1) as nat) + bit_reverse(
            s,
            (bits - 1) as nat,
        ),
{
    let h = two_pow((bits - 1) as nat);
    assert((2 * s) % 2 == 0 && (2 * s) / 2 == s);
    assert((2 * s + 1) % 2 == 1 && (2 * s + 1) / 2 == s);
    assert(0 * h == 0);
    assert(1 * h == h);
}

} // verus!
