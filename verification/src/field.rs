use crate::error::AlgebraError;
use vstd::arithmetic::div_mod::*;
use vstd::arithmetic::mul::*;
use vstd::arithmetic::power::*;
use vstd::calc;
use vstd::prelude::*;

verus! {

/// The prime modulus of the field: `7 * 2^26 + 1`.
pub const DEFAULT_P: i64 = 469_762_049;

/// The modulus as a mathematical integer.
pub open spec fn modulus() -> int {
    469_762_049
}

/// `base` raised to `exp`, reduced into `[0, m)`.
pub open spec fn pow_mod(base: int, exp: nat, m: int) -> int {
    pow(base, exp) % m
}

/// The Euclidean remainder of a negative number, from that of its negation.
pub proof fn lemma_mod_of_negative(x: int, m: int)
    requires
        m > 0,
        x < 0,
    ensures
        (-x) % m == 0 ==> x % m == 0,
        (-x) % m != 0 ==> x % m == m - (-x) % m,
{
    let q = (-x) / m;
    let s = (-x) % m;
    lemma_fundamental_div_mod(-x, m);
    lemma_mod_bound(-x, m);
    if s == 0 {
        assert(x == (-q) * m + 0) by (nonlinear_arith)
            requires
                -x == m * q + s,
                s == 0,
        ;
        lemma_fundamental_div_mod_converse(x, m, -q, 0);
    } else {
        assert(x == (-q - 1) * m + (m - s)) by (nonlinear_arith)
            requires
                -x == m * q + s,
        ;
        lemma_fundamental_div_mod_converse(x, m, -q - 1, m - s);
    }
}

/// Reduces a wide integer into `[0, m)`.
pub fn reduce(x: i128, m: i64) -> (r: i64)
    requires
        m > 0,
    ensures
        r == x as int % m as int,
        0 <= r < m,
{
    let wide: i128 = m as i128;
    let t: i128 = x % wide;
    proof {
        lemma_mod_bound(x as int, m as int);
        if x < 0 {
            lemma_mod_of_negative(x as int, m as int);
            lemma_mod_bound(-(x as int), m as int);
        }
    }
    if t < 0 {
        (t + wide) as i64
    } else {
        t as i64
    }
}

/// The product of two 64-bit integers fits in 128 bits.
pub proof fn lemma_product_fits(a: int, b: int)
    requires
        -0x8000_0000_0000_0000 <= a < 0x8000_0000_0000_0000,
        -0x8000_0000_0000_0000 <= b < 0x8000_0000_0000_0000,
    ensures
        -0x4000_0000_0000_0000_0000_0000_0000_0000 <= a * b
            <= 0x4000_0000_0000_0000_0000_0000_0000_0000,
{
    assert(a * b <= 0x4000_0000_0000_0000_0000_0000_0000_0000) by (nonlinear_arith)
        requires
            -0x8000_0000_0000_0000 <= a < 0x8000_0000_0000_0000,
            -0x8000_0000_0000_0000 <= b < 0x8000_0000_0000_0000,
    ;
    assert(a * b >= -0x4000_0000_0000_0000_0000_0000_0000_0000) by (nonlinear_arith)
        requires
            -0x8000_0000_0000_0000 <= a < 0x8000_0000_0000_0000,
            -0x8000_0000_0000_0000 <= b < 0x8000_0000_0000_0000,
    ;
}

/// `(a * b) mod m`, computed without overflow for any two 64-bit operands.
pub fn mul_mod(a: i64, b: i64, m: i64) -> (r: i64)
    requires
        m > 0,
    ensures
        r == (a as int * b as int) % m as int,
        0 <= r < m,
{
    proof {
        lemma_product_fits(a as int, b as int);
    }
    let w: i128 = (a as i128) * (b as i128);
    reduce(w, m)
}

/// One round of square-and-multiply keeps the value of `r * a^x`.
pub proof fn lemma_pow_mod_step(r: int, a: int, x: nat, m: int)
    requires
        m > 0,
        x > 0,
    ensures
        x % 2 == 1 ==> (((r * a) % m) * pow((a * a) % m, x / 2)) % m == (r * pow(a, x)) % m,
        x % 2 == 0 ==> (r * pow((a * a) % m, x / 2)) % m == (r * pow(a, x)) % m,
{
    let h = x / 2;
    let sq = (a * a) % m;
    // pow(sq, h) is congruent to pow(a, 2h)
    lemma_pow_mod_noop(a * a, h, m);
    assert(pow(a, 2) == a * a) by {
        lemma_square_is_pow2(a);
    }
    lemma_pow_multiplies(a, 2, h);
    assert(pow(sq, h) % m == pow(a, 2 * h) % m);
    if x % 2 == 1 {
        assert(x == 2 * h + 1);
        lemma_pow_adds(a, 1, 2 * h);
        lemma_pow1(a);
        assert(pow(a, x) == a * pow(a, 2 * h));
        calc! {
            (==)
            (((r * a) % m) * pow(sq, h)) % m; {
                lemma_mul_mod_noop_general(r * a, pow(sq, h), m);
            }
            (((r * a) % m) * (pow(sq, h) % m)) % m; {}
            (((r * a) % m) * (pow(a, 2 * h) % m)) % m; {
                lemma_mul_mod_noop_general(r * a, pow(a, 2 * h), m);
            }
            ((r * a) * pow(a, 2 * h)) % m; {
                lemma_mul_is_associative(r, a, pow(a, 2 * h));
            }
            (r * pow(a, x)) % m;
        }
    } else {
        assert(x == 2 * h);
        calc! {
            (==)
            (r * pow(sq, h)) % m; {
                lemma_mul_mod_noop_general(r, pow(sq, h), m);
            }
            ((r % m) * (pow(sq, h) % m)) % m; {}
            ((r % m) * (pow(a, 2 * h) % m)) % m; {
                lemma_mul_mod_noop_general(r, pow(a, 2 * h), m);
            }
            (r * pow(a, x)) % m;
        }
    }
}

/// `a^x mod p`, in `[0, p)`, by repeated squaring, for an exponent of 64
/// bits.
pub fn pow_mod_u64(a: i64, x: u64, p: i64) -> (r: i64)
    requires
        p > 0,
    ensures
        r == pow_mod(a as int, x as nat, p as int),
        0 <= r < p,
{
    let mut r: i64 = reduce(1, p);
    let mut a_t: i64 = reduce(a as i128, p);
    let mut x_t: u64 = x;
    proof {
        lemma_pow_mod_noop(a as int, x as nat, p as int);
        lemma_mul_mod_noop_general(1, pow(a_t as int, x as nat), p as int);
        assert(1 * pow(a_t as int, x as nat) == pow(a_t as int, x as nat));
    }
    while x_t != 0
        invariant
            p > 0,
            0 <= r < p,
            0 <= a_t < p,
            (r as int * pow(a_t as int, x_t as nat)) % (p as int) == pow_mod(
                a as int,
                x as nat,
                p as int,
            ),
        decreases x_t,
    {
        proof {
            lemma_pow_mod_step(r as int, a_t as int, x_t as nat, p as int);
        }
        if x_t % 2 == 1 {
            r = mul_mod(r, a_t, p);
        }
        a_t = mul_mod(a_t, a_t, p);
        x_t = x_t / 2;
    }
    proof {
        lemma_pow0(a_t as int);
        lemma_small_mod(r as nat, p as nat);
    }
    r
}

/// Modular exponentiation by repeated squaring: `a^x mod p`, in `[0, p)`.
///
/// Takes a number of multiplications logarithmic in `x`.
pub fn fast_pow(a: i64, x: usize, p: i64) -> (r: i64)
    requires
        p > 0,
    ensures
        r == pow_mod(a as int, x as nat, p as int),
        0 <= r < p,
{
    pow_mod_u64(a, x as u64, p)
}

/// The remainder of `a` on division by `b` that has the sign of `a`.
pub open spec fn truncated_rem(a: int, b: int) -> int {
    let size = if b < 0 {
        -b
    } else {
        b
    };
    if a >= 0 {
        a % size
    } else {
        -((-a) % size)
    }
}

/// An element of the prime field of order [`DEFAULT_P`].
///
/// The element is the residue class of `val`; any 64-bit integer may stand
/// for its class. Every operation of the field returns the canonical
/// representative, the one in `[0, P)`.
#[derive(Clone, Copy, Debug)]
pub struct GaloisField {
    pub val: i64,
}

impl View for GaloisField {
    type V = int;

    /// The canonical representative of the element, in `[0, P)`.
    open spec fn view(&self) -> int {
        self.val as int % modulus()
    }
}

/// The view of a canonical representative is the representative.
pub proof fn lemma_canonical_view(e: GaloisField)
    requires
        e.is_canonical(),
    ensures
        e@ == e.val,
{
    lemma_small_mod(e.val as nat, modulus() as nat);
}

impl GaloisField {
    /// Whether `val` is the canonical representative.
    pub open spec fn is_canonical(&self) -> bool {
        0 <= self.val < modulus()
    }

    /// The additive identity.
    pub fn zero() -> (r: GaloisField)
        ensures
            r.val == 0,
    {
        GaloisField { val: 0 }
    }

    /// The multiplicative identity.
    pub fn one() -> (r: GaloisField)
        ensures
            r.val == 1,
    {
        GaloisField { val: 1 }
    }

    /// The element that an integer stands for; the integer is kept as it is.
    pub fn from(target: i64) -> (r: GaloisField)
        ensures
            r.val == target,
    {
        GaloisField { val: target }
    }

    /// The element that a size or an index stands for, reduced into `[0, P)`.
    pub fn from_usize(target: usize) -> (r: GaloisField)
        ensures
            r.val == target as int % modulus(),
            r.is_canonical(),
    {
        GaloisField { val: reduce(target as i128, DEFAULT_P) }
    }

    /// The same element, held by its canonical representative.
    pub fn canonical(&self) -> (r: GaloisField)
        ensures
            r.val == self@,
            r.is_canonical(),
    {
        GaloisField { val: reduce(self.val as i128, DEFAULT_P) }
    }

    /// Whether the element is the zero of the field.
    pub fn is_zero(&self) -> (r: bool)
        ensures
            r == (self@ == 0),
    {
        reduce(self.val as i128, DEFAULT_P) == 0
    }

    /// Whether two representatives stand for the same element.
    pub fn equals(&self, other: &GaloisField) -> (r: bool)
        ensures
            r == (self@ == other@),
    {
        reduce(self.val as i128, DEFAULT_P) == reduce(other.val as i128, DEFAULT_P)
    }

    /// The sum of two elements.
    pub fn add(self, other: GaloisField) -> (r: GaloisField)
        ensures
            r.val == (self.val + other.val) % modulus(),
            r.is_canonical(),
    {
        GaloisField { val: reduce((self.val as i128) + (other.val as i128), DEFAULT_P) }
    }

    /// The difference of two elements.
    pub fn sub(self, other: GaloisField) -> (r: GaloisField)
        ensures
            r.val == (self.val - other.val) % modulus(),
            r.is_canonical(),
    {
        GaloisField { val: reduce((self.val as i128) - (other.val as i128), DEFAULT_P) }
    }

    /// The product of two elements.
    pub fn mul(self, other: GaloisField) -> (r: GaloisField)
        ensures
            r.val == (self.val * other.val) % modulus(),
            r.is_canonical(),
    {
        GaloisField { val: mul_mod(self.val, other.val, DEFAULT_P) }
    }

    /// The additive inverse of the element.
    pub fn neg(&self) -> (r: GaloisField)
        ensures
            r.val == (-self.val) % modulus(),
            r.is_canonical(),
    {
        GaloisField { val: reduce(-(self.val as i128), DEFAULT_P) }
    }

    /// The element raised to `exp`, by repeated squaring.
    pub fn pow(&self, exp: usize) -> (r: GaloisField)
        ensures
            r.val == pow_mod(self.val as int, exp as nat, modulus()),
            r.is_canonical(),
    {
        GaloisField { val: fast_pow(self.val, exp, DEFAULT_P) }
    }

    /// The multiplicative inverse of the element: its power `P - 2`.
    ///
    /// The zero element has no inverse and is refused.
    pub fn inverse(&self) -> (r: Result<GaloisField, AlgebraError>)
        ensures
            r is Err <==> self@ == 0,
            r is Err ==> r->Err_0 == AlgebraError::DivideByZero,
            r is Ok ==> r->Ok_0.val == pow_mod(self.val as int, (modulus() - 2) as nat, modulus())
                && r->Ok_0.is_canonical() && (self.val * r->Ok_0.val) % modulus() == 1,
    {
        if self.is_zero() {
            Err(AlgebraError::DivideByZero)
        } else {
            proof {
                crate::fermat::lemma_inverse_by_power(self.val as int);
            }
            Ok(self.pow((DEFAULT_P - 2) as usize))
        }
    }

    /// The quotient of two elements: the first times the inverse of the
    /// second. The quotient times the divisor is the dividend.
    ///
    /// Division by the zero element is refused.
    pub fn div(self, other: GaloisField) -> (r: Result<GaloisField, AlgebraError>)
        ensures
            r is Err <==> other@ == 0,
            r is Err ==> r->Err_0 == AlgebraError::DivideByZero,
            r is Ok ==> r->Ok_0.val == (self.val * pow_mod(
                other.val as int,
                (modulus() - 2) as nat,
                modulus(),
            )) % modulus() && r->Ok_0.is_canonical() && (r->Ok_0.val * other.val) % modulus()
                == self@,
    {
        match other.inverse() {
            Ok(inv) => {
                let q = self.mul(inv);
                proof {
                    let p = modulus();
                    let a = self.val as int;
                    let b = other.val as int;
                    let i = inv.val as int;
                    lemma_mul_mod_noop_general(a * i, b, p);
                    assert((a * i) * b == a * (b * i)) by (nonlinear_arith);
                    lemma_mul_mod_noop_general(a, b * i, p);
                    lemma_mul_mod_noop_general(a, 1, p);
                    lemma_small_mod(1, p as nat);
                    assert(a * 1 == a);
                    lemma_mod_twice(a, p);
                }
                Ok(q)
            },
            Err(e) => Err(e),
        }
    }

    /// The absolute value of the representative.
    pub fn abs(&self) -> (r: GaloisField)
        requires
            self.val > i64::MIN,
        ensures
            r.val == (if self.val < 0 {
                -self.val
            } else {
                self.val as int
            }),
    {
        if self.val < 0 {
            GaloisField { val: -self.val }
        } else {
            GaloisField { val: self.val }
        }
    }

    /// Replaces the representative by its remainder on division by `p`,
    /// which has the sign of the representative.
    pub fn modulo(&mut self, p: i64)
        requires
            p != 0,
        ensures
            final(self).val == truncated_rem(old(self).val as int, p as int),
    {
        let wide: i128 = self.val as i128;
        let size: i128 = if p < 0 {
            -(p as i128)
        } else {
            p as i128
        };
        let t: i128 = wide % size;
        proof {
            lemma_mod_bound(wide as int, size as int);
            lemma_mod_bound(-(wide as int), size as int);
        }
        self.val = t as i64;
    }
}

} // verus!
