use vstd::prelude::*;

verus! {

/// The sign of a [`BigInteger`].
#[derive(Clone, Copy, Debug, PartialEq, Eq, Structural)]
pub enum Sign {
    Negative,
    Positive,
}

/// The base of the limbs: `2^64`.
pub open spec fn limb_base() -> int {
    0x1_0000_0000_0000_0000
}

/// The number that a little-endian sequence of 64-bit limbs writes.
pub open spec fn limbs_value(limbs: Seq<u64>) -> int
    decreases limbs.len(),
{
    if limbs.len() == 0 {
        0
    } else {
        limbs[0] as int + limb_base() * limbs_value(limbs.drop_first())
    }
}

/// The weight of the limb at index `i`: `2^(64 i)`.
pub open spec fn limb_weight(i: nat) -> int
    decreases i,
{
    if i == 0 {
        1
    } else {
        limb_base() * limb_weight((i - 1) as nat)
    }
}

/// Appending a limb adds it at the weight of its index.
pub proof fn lemma_limbs_value_push(limbs: Seq<u64>, top: u64)
    ensures
        limbs_value(limbs.push(top)) == limbs_value(limbs) + limb_weight(limbs.len()) * top as int,
    decreases limbs.len(),
{
    if limbs.len() == 0 {
        assert(limbs.push(top).drop_first() =~= limbs);
        assert(limbs_value(limbs.push(top)) == top as int + limb_base() * limbs_value(limbs));
    } else {
        let rest = limbs.drop_first();
        assert(limbs.push(top).drop_first() =~= rest.push(top));
        lemma_limbs_value_push(rest, top);
        let w = limb_weight(rest.len());
        let v = limbs_value(rest);
        let b = limb_base();
        let t = top as int;
        assert(b * (v + w * t) == b * v + (b * w) * t) by (nonlinear_arith);
    }
}

/// A prefix of the limbs, as a number.
pub open spec fn prefix_value(limbs: Seq<u64>, n: int) -> int {
    limbs_value(limbs.subrange(0, n))
}

/// The limb at index `i`, or zero past the end.
pub open spec fn limb_at(limbs: Seq<u64>, i: int) -> int {
    if 0 <= i < limbs.len() {
        limbs[i] as int
    } else {
        0
    }
}

/// Limbs past the end of a number count as zero.
pub open spec fn padded_value(limbs: Seq<u64>, n: nat) -> int
    decreases n,
{
    if n == 0 {
        0
    } else {
        padded_value(limbs, (n - 1) as nat) + limb_weight((n - 1) as nat) * limb_at(
            limbs,
            n - 1,
        )
    }
}

/// Up to its length, the padded value of a number is the value of a prefix.
pub proof fn lemma_padded_prefix(limbs: Seq<u64>, n: nat)
    requires
        n <= limbs.len(),
    ensures
        padded_value(limbs, n) == prefix_value(limbs, n as int),
    decreases n,
{
    if n == 0 {
        assert(limbs.subrange(0, 0) =~= Seq::<u64>::empty());
    } else {
        lemma_padded_prefix(limbs, (n - 1) as nat);
        let head = limbs.subrange(0, n - 1);
        assert(limbs.subrange(0, n as int) =~= head.push(limbs[n - 1]));
        lemma_limbs_value_push(head, limbs[n - 1]);
    }
}

/// Past its length, the padded value of a number is its value.
pub proof fn lemma_padded_whole(limbs: Seq<u64>, n: nat)
    requires
        n >= limbs.len(),
    ensures
        padded_value(limbs, n) == limbs_value(limbs),
    decreases n,
{
    if n == limbs.len() {
        lemma_padded_prefix(limbs, n);
        assert(limbs.subrange(0, n as int) =~= limbs);
    } else {
        lemma_padded_whole(limbs, (n - 1) as nat);
        assert(limb_weight((n - 1) as nat) * 0 == 0);
    }
}

/// An integer of arbitrary size: a sign and a magnitude, the magnitude
/// written in little-endian limbs of 64 bits.
#[derive(Debug)]
pub struct BigInteger {
    data: Vec<u64>,
    sign: Sign,
}

impl Clone for BigInteger {
    fn clone(&self) -> (r: Self)
        ensures
            r.limbs() == self.limbs(),
            r.spec_sign() == self.spec_sign(),
    {
        BigInteger { data: self.data.clone(), sign: self.sign }
    }
}

impl BigInteger {
    /// The limbs of the magnitude, least significant first.
    pub closed spec fn limbs(&self) -> Seq<u64> {
        self.data@
    }

    /// The sign.
    pub closed spec fn spec_sign(&self) -> Sign {
        self.sign
    }

    /// The magnitude as a number.
    pub open spec fn magnitude(&self) -> int {
        limbs_value(self.limbs())
    }

    /// A number from its limbs, least significant first, and its sign.
    pub fn new(data: Vec<u64>, sign: Sign) -> (r: BigInteger)
        ensures
            r.limbs() == data@,
            r.spec_sign() == sign,
    {
        BigInteger { data, sign }
    }

    /// The sign of the number.
    pub fn sign(&self) -> (s: Sign)
        ensures
            s == self.spec_sign(),
    {
        self.sign
    }

    /// The limbs of the magnitude, least significant first.
    pub fn to_limbs(&self) -> (v: Vec<u64>)
        ensures
            v@ == self.limbs(),
    {
        self.data.clone()
    }

    /// Whether two numbers have the same limbs and the same sign.
    pub fn equals(&self, other: &BigInteger) -> (r: bool)
        ensures
            r == (self.limbs() == other.limbs() && self.spec_sign() == other.spec_sign()),
    {
        if self.data.len() != other.data.len() {
            return false;
        }
        let mut i: usize = 0;
        while i < self.data.len()
            invariant
                i <= self.data@.len(),
                self.data@.len() == other.data@.len(),
                forall|j: int| 0 <= j < i ==> self.data@[j] == #[trigger] other.data@[j],
            decreases self.data@.len() - i,
        {
            if self.data[i] != other.data[i] {
                return false;
            }
            i = i + 1;
        }
        proof {
            assert(self.data@ =~= other.data@);
        }
        self.sign == other.sign
    }

    /// The number zero: one zero limb, positive.
    pub fn zero() -> (r: BigInteger)
        ensures
            r.limbs() == seq![0u64],
            r.spec_sign() == Sign::Positive,
    {
        let mut data: Vec<u64> = Vec::new();
        data.push(0);
        proof {
            assert(data@ =~= seq![0u64]);
        }
        BigInteger { data, sign: Sign::Positive }
    }

    /// The number one: one limb, positive.
    pub fn one() -> (r: BigInteger)
        ensures
            r.limbs() == seq![1u64],
            r.spec_sign() == Sign::Positive,
    {
        let mut data: Vec<u64> = Vec::new();
        data.push(1);
        proof {
            assert(data@ =~= seq![1u64]);
        }
        BigInteger { data, sign: Sign::Positive }
    }

    /// Adds the magnitudes limb by limb, carrying into the next limb, and
    /// keeps the sign of `self`.
    ///
    /// The result has as many limbs as the longer operand, and one more
    /// where the last limb carries.
    pub fn add(&self, other: &BigInteger) -> (r: BigInteger)
        ensures
            r.magnitude() == self.magnitude() + other.magnitude(),
            r.spec_sign() == self.spec_sign(),
            r.limbs().len() == vstd::math::max(
                self.limbs().len() as int,
                other.limbs().len() as int,
            ) + (if self.magnitude() + other.magnitude() >= limb_weight(
                vstd::math::max(self.limbs().len() as int, other.limbs().len() as int) as nat,
            ) {
                1int
            } else {
                0int
            }),
    {
        let new_len: usize = if self.data.len() > other.data.len() {
            self.data.len()
        } else {
            other.data.len()
        };
        let mut target: Vec<u64> = Vec::new();
        let mut round: u64 = 0;
        let mut i: usize = 0;
        while i < new_len
            invariant
                i <= new_len,
                new_len == vstd::math::max(self.data@.len() as int, other.data@.len() as int),
                target@.len() == i,
                round <= 1,
                limbs_value(target@) + limb_weight(i as nat) * round as int == padded_value(
                    self.data@,
                    i as nat,
                ) + padded_value(other.data@, i as nat),
            decreases new_len - i,
        {
            let a: u64 = if i < self.data.len() {
                self.data[i]
            } else {
                0
            };
            let b: u64 = if i < other.data.len() {
                other.data[i]
            } else {
                0
            };
            let tmp: u128 = (a as u128) + (b as u128) + (round as u128);
            let low: u64 = (tmp % 0x1_0000_0000_0000_0000u128) as u64;
            let high: u64 = (tmp / 0x1_0000_0000_0000_0000u128) as u64;
            proof {
                lemma_limbs_value_push(target@, low);
                let w = limb_weight(i as nat);
                let bs = limb_base();
                assert(tmp as int == low as int + bs * high as int);
                assert(limb_weight((i + 1) as nat) == bs * w);
                assert(w * low as int + (bs * w) * high as int == w * a as int + w * b as int + w
                    * round as int) by (nonlinear_arith)
                    requires
                        low as int + bs * high as int == a as int + b as int + round as int,
                ;
            }
            target.push(low);
            round = high;
            i = i + 1;
        }
        proof {
            lemma_padded_whole(self.data@, new_len as nat);
            lemma_padded_whole(other.data@, new_len as nat);
            lemma_limbs_value_below_weight(target@);
            if round != 0 {
                lemma_limbs_value_push(target@, round);
                assert(limb_weight(new_len as nat) * 1 == limb_weight(new_len as nat));
            } else {
                assert(limb_weight(new_len as nat) * 0 == 0);
            }
        }
        if round != 0 {
            target.push(round);
        }
        BigInteger { data: target, sign: self.sign }
    }

    /// Subtracts the magnitudes limb by limb, borrowing from the next limb,
    /// and keeps the sign of `self`.
    ///
    /// The result has as many limbs as the longer operand. Where the
    /// magnitude of `other` is the larger one, the borrow out of the last
    /// limb is dropped: the result is the difference modulo `2^(64 n)`, for
    /// `n` limbs.
    pub fn sub(&self, other: &BigInteger) -> (r: BigInteger)
        ensures
            r.magnitude() == (self.magnitude() - other.magnitude()) % limb_weight(
                vstd::math::max(self.limbs().len() as int, other.limbs().len() as int) as nat,
            ),
            self.magnitude() >= other.magnitude() ==> r.magnitude() == self.magnitude()
                - other.magnitude(),
            r.spec_sign() == self.spec_sign(),
            r.limbs().len() == vstd::math::max(
                self.limbs().len() as int,
                other.limbs().len() as int,
            ),
    {
        let new_len: usize = if self.data.len() > other.data.len() {
            self.data.len()
        } else {
            other.data.len()
        };
        let mut target: Vec<u64> = Vec::new();
        let mut borrow: u64 = 0;
        let mut i: usize = 0;
        while i < new_len
            invariant
                i <= new_len,
                new_len == vstd::math::max(self.data@.len() as int, other.data@.len() as int),
                target@.len() == i,
                borrow <= 1,
                limbs_value(target@) - limb_weight(i as nat) * borrow as int == padded_value(
                    self.data@,
                    i as nat,
                ) - padded_value(other.data@, i as nat),
            decreases new_len - i,
        {
            let a: u64 = if i < self.data.len() {
                self.data[i]
            } else {
                0
            };
            let b: u64 = if i < other.data.len() {
                other.data[i]
            } else {
                0
            };
            let tmp: u128 = 0x1_0000_0000_0000_0000u128 + (a as u128) - (b as u128) - (
            borrow as u128);
            let low: u64 = (tmp % 0x1_0000_0000_0000_0000u128) as u64;
            let high: u64 = (tmp / 0x1_0000_0000_0000_0000u128) as u64;
            proof {
                lemma_limbs_value_push(target@, low);
                let w = limb_weight(i as nat);
                let bs = limb_base();
                assert(tmp as int == low as int + bs * high as int);
                assert(high <= 1);
                assert(limb_weight((i + 1) as nat) == bs * w);
                assert(w * low as int - (bs * w) * (1 - high as int) == w * a as int - w * b as int
                    - w * borrow as int) by (nonlinear_arith)
                    requires
                        low as int + bs * high as int == bs + a as int - b as int - borrow as int,
                ;
            }
            target.push(low);
            borrow = 1 - high;
            i = i + 1;
        }
        proof {
            lemma_padded_whole(self.data@, new_len as nat);
            lemma_padded_whole(other.data@, new_len as nat);
            lemma_limbs_value_below_weight(target@);
            lemma_limbs_value_below_weight(self.data@);
            lemma_limbs_value_below_weight(other.data@);
            let w = limb_weight(new_len as nat);
            let v = limbs_value(target@);
            let diff = limbs_value(self.data@) - limbs_value(other.data@);
            assert(diff == w * (-(borrow as int)) + v) by (nonlinear_arith)
                requires
                    v - w * borrow as int == diff,
            ;
            vstd::arithmetic::div_mod::lemma_fundamental_div_mod_converse(
                diff,
                w,
                -(borrow as int),
                v,
            );
            if diff >= 0 {
                lemma_limb_weight_monotonic(self.data@.len(), new_len as nat);
                assert(borrow == 0) by (nonlinear_arith)
                    requires
                        v - w * borrow as int == diff,
                        0 <= v < w,
                        0 <= diff,
                        borrow <= 1,
                ;
                assert(w * 0 == 0);
            }
        }
        BigInteger { data: target, sign: self.sign }
    }
}

/// The weights of the limbs grow with their index.
pub proof fn lemma_limb_weight_monotonic(a: nat, b: nat)
    requires
        a <= b,
    ensures
        1 <= limb_weight(a) <= limb_weight(b),
    decreases b,
{
    if a < b {
        lemma_limb_weight_monotonic(a, (b - 1) as nat);
        let w = limb_weight((b - 1) as nat);
        assert(limb_base() * w >= w) by (nonlinear_arith)
            requires
                w >= 1,
                limb_base() >= 1,
        ;
    } else if a > 0 {
        lemma_limb_weight_monotonic((a - 1) as nat, (a - 1) as nat);
        let w = limb_weight((a - 1) as nat);
        assert(limb_base() * w >= 1) by (nonlinear_arith)
            requires
                w >= 1,
                limb_base() >= 1,
        ;
    }
}

/// A number of `n` limbs is below the weight of the limb at index `n`.
pub proof fn lemma_limbs_value_below_weight(limbs: Seq<u64>)
    ensures
        0 <= limbs_value(limbs) < limb_weight(limbs.len()),
    decreases limbs.len(),
{
    if limbs.len() > 0 {
        let rest = limbs.drop_first();
        lemma_limbs_value_below_weight(rest);
        let v = limbs_value(rest);
        let w = limb_weight(rest.len());
        let b = limb_base();
        let x = limbs[0] as int;
        assert(x + b * v < b * w) by (nonlinear_arith)
            requires
                0 <= x < b,
                0 <= v < w,
                b > 0,
        ;
        assert(0 <= x + b * v) by (nonlinear_arith)
            requires
                0 <= x,
                0 <= v,
                b > 0,
        ;
    }
}

} // verus!
