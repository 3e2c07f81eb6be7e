use crate::bit_reverse::{
    bit_reverse, lemma_bit_reverse_bound, lemma_bit_reverse_involution, lemma_bit_reverse_zero,
    lemma_two_pow_monotonic, lemma_two_pow_positive, two_pow,
};
use crate::dft::{
    dft_at, is_transform_length, lemma_butterfly_minus, lemma_butterfly_plus,
    lemma_stage_root, lemma_stages_compute_dft, lemma_twiddle_next, length_inverse, max_log,
    residues, root_of_unity, stage_value, transform,
};
use crate::error::AlgebraError;
use crate::field::{modulus, GaloisField, DEFAULT_P};
use crate::roots::lemma_root_is_principal;
use vstd::arithmetic::div_mod::{lemma_fundamental_div_mod_converse, lemma_small_mod};
use vstd::arithmetic::power::{lemma_pow0, pow};
use vstd::prelude::*;

verus! {

/// The direction of a transform.
#[derive(Clone, Copy, Debug, PartialEq, Eq, Structural)]
pub enum FFTType {
    /// From coefficients to values at the roots of unity.
    Straight,
    /// From values at the roots of unity back to coefficients.
    Inverse,
}

impl FFTType {
    /// Whether this is the inverse direction.
    pub open spec fn is_inverse(self) -> bool {
        self == FFTType::Inverse
    }
}

impl GaloisField {
    /// The principal `n`-th root of unity of a direction: the generator of
    /// the direction raised to `(P - 1) / n`.
    pub fn get_1s_roots(n: usize, fft_type: FFTType) -> (r: GaloisField)
        requires
            n > 0,
        ensures
            r.val == root_of_unity(n as int, fft_type.is_inverse()),
            r.is_canonical(),
    {
        let e: usize = ((DEFAULT_P - 1) as usize) / n;
        match fft_type {
            FFTType::Straight => GaloisField { val: 3 }.pow(e),
            FFTType::Inverse => GaloisField { val: 156587350 }.pow(e),
        }
    }

    /// The field element that stands for a length.
    pub fn type_cast(n: usize) -> (r: GaloisField)
        ensures
            r.val == n as int % crate::field::modulus(),
            r.is_canonical(),
    {
        GaloisField::from_usize(n)
    }
}

/// The binary logarithm of a transform length, or `None` where `n` is not
/// a power of two that divides `P - 1`.
pub fn transform_log(n: usize) -> (r: Option<u8>)
    ensures
        r is Some <==> is_transform_length(n as int),
        r is Some ==> r->0 <= max_log() && n == two_pow(r->0 as nat),
{
    let mut k: u8 = 0;
    let mut m: usize = 1;
    proof {
        crate::dft::lemma_two_pow_26();
    }
    while m < n && k < 26
        invariant
            k <= 26,
            m == two_pow(k as nat),
            m <= 67108864,
            k == 0 || two_pow((k - 1) as nat) < n,
            two_pow(26) == 67108864,
        decreases 26 - k,
    {
        proof {
            lemma_two_pow_monotonic((k + 1) as nat, 26);
        }
        m = m * 2;
        k = k + 1;
    }
    if m == n {
        Some(k)
    } else {
        proof {
            assert forall|q: nat| q <= max_log() implies n != #[trigger] two_pow(q) by {
                if q >= k {
                    lemma_two_pow_monotonic(k as nat, q);
                    lemma_two_pow_monotonic(q, 26);
                } else {
                    lemma_two_pow_monotonic(q, (k - 1) as nat);
                }
            }
        }
        None
    }
}

/// Reorders the buffer so that each index holds what stood at the index
/// with its binary digits reversed.
pub(crate) fn bit_reverse_permute(arr: &mut [GaloisField], k: u8)
    requires
        old(arr)@.len() == two_pow(k as nat),
        k <= 26,
    ensures
        final(arr)@.len() == old(arr)@.len(),
        forall|x: int|
            0 <= x < old(arr)@.len() ==> final(arr)@[x] == old(arr)@[bit_reverse(x, k as nat)],
{
    let n: usize = arr.len();
    let ghost a0 = arr@;
    let ghost bits = k as nat;
    let mut j: usize = 0;
    let mut i: usize = 1;
    proof {
        lemma_bit_reverse_zero(bits);
        lemma_two_pow_positive(bits);
        assert forall|x: int| 0 <= x < n implies arr@[x] == (if x < 1 || bit_reverse(x, bits) < 1 {
            a0[bit_reverse(x, bits)]
        } else {
            a0[x]
        }) by {
            lemma_bit_reverse_involution(x, bits);
        }
    }
    while i < n
        invariant
            1 <= i <= n,
            arr@.len() == n,
            a0.len() == n,
            n == two_pow(bits),
            bits == k as nat,
            j == bit_reverse(i - 1, bits),
            forall|x: int|
                0 <= x < n ==> arr@[x] == (if x < i || bit_reverse(x, bits) < i {
                    a0[bit_reverse(x, bits)]
                } else {
                    a0[x]
                }),
        decreases n - i,
    {
        let mut bit: usize = n / 2;
        let ghost mut y: int = i - 1;
        let ghost mut b: nat = bits;
        proof {
            assert(two_pow(1) == 2) by {
                reveal_with_fuel(two_pow, 2);
            }
            assert(bits >= 1) by {
                if bits == 0 {
                    assert(two_pow(0) == 1);
                }
            }
        }
        while j >= bit
            invariant
                1 <= b <= bits,
                bit == two_pow((b - 1) as nat),
                j == bit_reverse(y, b),
                0 <= y,
                y + 1 < two_pow(b),
                bit_reverse(i as int, bits) == bit_reverse(y + 1, b),
                two_pow(1) == 2,
            decreases b,
        {
            proof {
                lemma_bit_reverse_bound(y / 2, (b - 1) as nat);
                let d = y % 2;
                let h = two_pow((b - 1) as nat);
                assert(d * h == 0 || d * h == h) by (nonlinear_arith)
                    requires
                        d == 0 || d == 1,
                ;
                assert(d == 1);
                assert(b >= 2);
                assert((y + 1) % 2 == 0);
                assert(0 * h == 0);
                assert((y + 1) / 2 == y / 2 + 1);
            }
            j = j - bit;
            bit = bit / 2;
            proof {
                y = y / 2;
                b = (b - 1) as nat;
            }
        }
        proof {
            lemma_bit_reverse_bound(y / 2, (b - 1) as nat);
            let d = y % 2;
            let h = two_pow((b - 1) as nat);
            assert(d * h == 0 || d * h == h) by (nonlinear_arith)
                requires
                    d == 0 || d == 1,
            ;
            assert(d == 0);
            assert((y + 1) % 2 == 1);
            assert((y + 1) / 2 == y / 2);
            assert(1 * h == h);
            lemma_bit_reverse_bound(i as int, bits);
        }
        j = j + bit;
        if i < j {
            let tmp = arr[i];
            arr[i] = arr[j];
            arr[j] = tmp;
        }
        proof {
            lemma_bit_reverse_involution(i as int, bits);
            assert forall|x: int| 0 <= x < n implies arr@[x] == (if x < i + 1 || bit_reverse(
                x,
                bits,
            ) < i + 1 {
                a0[bit_reverse(x, bits)]
            } else {
                a0[x]
            }) by {
                lemma_bit_reverse_involution(x, bits);
            }
        }
        i = i + 1;
    }
    proof {
        assert(n >= 1) by {
            lemma_two_pow_positive(bits);
        }
    }
}

/// What the buffer holds while stage `l` runs: the values of stage `l` in
/// the blocks before `k0` and at the first `j` places of both halves of
/// the block at `k0`, the values of stage `l - 1` elsewhere.
pub open spec fn stage_progress(
    s: Seq<GaloisField>,
    c: Seq<int>,
    w: int,
    k: nat,
    l: nat,
    k0: int,
    j: int,
) -> bool {
    let h = two_pow((l - 1) as nat);
    forall|idx: int|
        0 <= idx < s.len() ==> (#[trigger] s[idx])@ == (if idx < k0 || (k0 <= idx < k0 + j) || (k0
            + h <= idx < k0 + h + j) {
            stage_value(c, w, k, l, idx)
        } else {
            stage_value(c, w, k, (l - 1) as nat, idx)
        })
}

/// Joins the two halves of the block of `2h` values at `k0` by `h`
/// butterflies, with the powers of `omega_m` as twiddle factors.
fn butterfly_block(
    arr: &mut [GaloisField],
    k0: usize,
    h: usize,
    omega_m: GaloisField,
    Ghost(c): Ghost<Seq<int>>,
    Ghost(w): Ghost<int>,
    Ghost(k): Ghost<nat>,
    Ghost(l): Ghost<nat>,
    Ghost(q): Ghost<int>,
)
    requires
        1 <= l <= k,
        h == two_pow((l - 1) as nat),
        k0 == 2 * h * q,
        q >= 0,
        k0 + 2 * h <= old(arr)@.len(),
        omega_m.val == pow(w, two_pow((k - l) as nat) as nat) % modulus(),
        stage_progress(old(arr)@, c, w, k, l, k0 as int, 0),
    ensures
        final(arr)@.len() == old(arr)@.len(),
        stage_progress(final(arr)@, c, w, k, l, k0 + 2 * h, 0),
{
    let n: usize = arr.len();
    let ghost e = two_pow((k - l) as nat) as nat;
    let ghost m = 2 * h;
    let mut omega = GaloisField::one();
    let mut j: usize = 0;
    proof {
        lemma_two_pow_positive((k - l) as nat);
        lemma_two_pow_positive((l - 1) as nat);
        lemma_pow0(w);
        assert(e * 0 == 0);
        lemma_small_mod(1, modulus() as nat);
    }
    while j < h
        invariant
            0 <= j <= h,
            h >= 1,
            m == 2 * h,
            k0 == m * q,
            q >= 0,
            k0 + m <= n,
            h == two_pow((l - 1) as nat),
            1 <= l <= k,
            arr@.len() == n,
            e == two_pow((k - l) as nat),
            omega_m.val == pow(w, e) % modulus(),
            omega.val == pow(w, e * j as nat) % modulus(),
            stage_progress(arr@, c, w, k, l, k0 as int, j as int),
        decreases h - j,
    {
        let ghost before = arr@;
        let lo_idx: usize = k0 + j;
        let hi_idx: usize = k0 + j + h;
        let b = arr[hi_idx];
        let u = arr[lo_idx];
        let t = omega.mul(b);
        let hi = u.sub(t);
        let lo = u.add(t);
        arr[hi_idx] = hi;
        arr[lo_idx] = lo;
        proof {
            let p = modulus();
            let tw = pow(w, (e * j) as nat);
            lemma_small_mod(omega.val as nat, p as nat);
            lemma_butterfly_plus(u.val as int, b.val as int, omega.val as int, tw, p);
            lemma_butterfly_minus(u.val as int, b.val as int, omega.val as int, tw, p);
            lemma_small_mod(hi.val as nat, p as nat);
            lemma_small_mod(lo.val as nat, p as nat);
            assert(m * q == q * m) by (nonlinear_arith);
            lemma_fundamental_div_mod_converse(lo_idx as int, m as int, q, j as int);
            lemma_fundamental_div_mod_converse(hi_idx as int, m as int, q, (j + h) as int);
            assert(before[lo_idx as int]@ == stage_value(c, w, k, (l - 1) as nat, lo_idx as int));
            assert(before[hi_idx as int]@ == stage_value(c, w, k, (l - 1) as nat, hi_idx as int));
            assert(lo@ == stage_value(c, w, k, l, lo_idx as int));
            assert(hi@ == stage_value(c, w, k, l, hi_idx as int));
            lemma_twiddle_next(w, e, j as nat, p);
            assert forall|idx: int| 0 <= idx < n implies (#[trigger] arr@[idx])@ == (if idx < k0
                || (k0 <= idx < k0 + (j + 1)) || (k0 + h <= idx < k0 + h + (j + 1)) {
                stage_value(c, w, k, l, idx)
            } else {
                stage_value(c, w, k, (l - 1) as nat, idx)
            }) by {
                if idx != lo_idx && idx != hi_idx {
                    assert(arr@[idx] == before[idx]);
                }
            }
        }
        omega = omega.mul(omega_m);
        j = j + 1;
    }
}

/// Runs stage `l` of the transform: joins each pair of neighbouring blocks
/// of `2^(l-1)` values into one block of `2^l`.
fn butterfly_stage(
    arr: &mut [GaloisField],
    k: u8,
    l: u8,
    m: usize,
    fft_type: FFTType,
    Ghost(c): Ghost<Seq<int>>,
)
    requires
        1 <= l <= k <= 26,
        m == two_pow(l as nat),
        old(arr)@.len() == two_pow(k as nat),
        forall|idx: int|
            0 <= idx < old(arr)@.len() ==> (#[trigger] old(arr)@[idx])@ == stage_value(
                c,
                root_of_unity(old(arr)@.len() as int, fft_type.is_inverse()),
                k as nat,
                (l - 1) as nat,
                idx,
            ),
    ensures
        final(arr)@.len() == old(arr)@.len(),
        forall|idx: int|
            0 <= idx < old(arr)@.len() ==> (#[trigger] final(arr)@[idx])@ == stage_value(
                c,
                root_of_unity(old(arr)@.len() as int, fft_type.is_inverse()),
                k as nat,
                l as nat,
                idx,
            ),
{
    let n: usize = arr.len();
    let ghost bits = k as nat;
    let ghost lv = l as nat;
    let ghost w = root_of_unity(n as int, fft_type.is_inverse());
    let ghost blocks = two_pow((bits - lv) as nat);
    proof {
        lemma_two_pow_positive(lv);
        lemma_two_pow_positive((lv - 1) as nat);
        lemma_two_pow_positive((bits - lv) as nat);
        lemma_stage_root(bits, lv, fft_type.is_inverse());
        crate::bit_reverse::lemma_two_pow_adds(lv, (bits - lv) as nat);
        assert(n == m * blocks);
    }
    let omega_m = GaloisField::get_1s_roots(m, fft_type);
    let h: usize = m / 2;
    let mut k0: usize = 0;
    let ghost mut q: int = 0;
    proof {
        assert(m * 0 == 0);
    }
    while k0 < n
        invariant
            0 <= q <= blocks,
            k0 == m * q,
            n == m * blocks,
            m == 2 * h,
            h == two_pow((lv - 1) as nat),
            h >= 1,
            1 <= lv <= bits,
            arr@.len() == n,
            omega_m.val == pow(w, two_pow((bits - lv) as nat) as nat) % modulus(),
            stage_progress(arr@, c, w, bits, lv, k0 as int, 0),
        decreases blocks - q,
    {
        proof {
            assert(q < blocks) by (nonlinear_arith)
                requires
                    m * q < m * blocks,
                    m > 0,
            ;
            assert(m * (q + 1) <= m * blocks) by (nonlinear_arith)
                requires
                    q + 1 <= blocks,
                    m > 0,
            ;
            assert(m * (q + 1) == m * q + m) by (nonlinear_arith);
        }
        butterfly_block(arr, k0, h, omega_m, Ghost(c), Ghost(w), Ghost(bits), Ghost(lv), Ghost(q));
        k0 = k0 + m;
        proof {
            q = q + 1;
        }
    }
}

/// Runs the butterfly stages of a transform of length `2^k` on a buffer
/// that is already in bit-reversed order.
pub(crate) fn butterflies(arr: &mut [GaloisField], k: u8, fft_type: FFTType)
    requires
        old(arr)@.len() == two_pow(k as nat),
        k <= 26,
    ensures
        final(arr)@.len() == old(arr)@.len(),
        forall|idx: int|
            0 <= idx < old(arr)@.len() ==> (#[trigger] final(arr)@[idx])@ == stage_value(
                residues(old(arr)@),
                root_of_unity(old(arr)@.len() as int, fft_type.is_inverse()),
                k as nat,
                k as nat,
                idx,
            ),
{
    let n: usize = arr.len();
    let ghost c = residues(arr@);
    let ghost bits = k as nat;
    let ghost w = root_of_unity(n as int, fft_type.is_inverse());
    let mut l: u8 = 1;
    let mut m: usize = 2;
    proof {
        assert(two_pow(1) == 2) by {
            reveal_with_fuel(two_pow, 2);
        }
        assert forall|idx: int| 0 <= idx < n implies (#[trigger] arr@[idx])@ == stage_value(
            c,
            w,
            bits,
            0,
            idx,
        ) by {
            vstd::arithmetic::div_mod::lemma_mod_twice(arr@[idx].val as int, modulus());
        }
    }
    while l <= k
        invariant
            1 <= l <= k + 1,
            k <= 26,
            bits == k as nat,
            m == two_pow(l as nat),
            arr@.len() == n,
            n == two_pow(bits),
            w == root_of_unity(n as int, fft_type.is_inverse()),
            forall|idx: int|
                0 <= idx < n ==> (#[trigger] arr@[idx])@ == stage_value(
                    c,
                    w,
                    bits,
                    (l - 1) as nat,
                    idx,
                ),
        decreases k + 1 - l,
    {
        butterfly_stage(arr, k, l, m, fft_type, Ghost(c));
        proof {
            lemma_two_pow_monotonic((l + 1) as nat, 27);
            assert(two_pow(27) == 134217728) by {
                reveal_with_fuel(two_pow, 28);
            }
        }
        m = m * 2;
        l = l + 1;
    }
}

/// Multiplies every element of the buffer by `factor`.
pub(crate) fn scale(arr: &mut [GaloisField], factor: GaloisField)
    ensures
        final(arr)@.len() == old(arr)@.len(),
        forall|i: int|
            0 <= i < old(arr)@.len() ==> (#[trigger] final(arr)@[i]).val == (old(arr)@[i].val
                * factor.val) % modulus(),
{
    let n: usize = arr.len();
    let ghost a0 = arr@;
    let mut i: usize = 0;
    while i < n
        invariant
            i <= n,
            arr@.len() == n,
            a0.len() == n,
            forall|x: int|
                0 <= x < n ==> (#[trigger] arr@[x]) == (if x < i {
                    GaloisField { val: ((a0[x].val * factor.val) % modulus()) as i64 }
                } else {
                    a0[x]
                }),
            forall|x: int|
                0 <= x < i ==> (#[trigger] arr@[x]).val == (a0[x].val * factor.val) % modulus(),
        decreases n - i,
    {
        let v = arr[i].mul(factor);
        arr[i] = v;
        i = i + 1;
    }
}

/// Transforms the buffer in place: forward, from the coefficients of a
/// polynomial to its values at the powers of a principal root of unity, or
/// inverse, from those values back to the coefficients.
///
/// The length of the buffer has to be a power of two that divides `P - 1`;
/// a buffer of any other length is refused and left as it was.
pub fn do_fft(arr: &mut [GaloisField], fft_type: FFTType) -> (r: Result<(), AlgebraError>)
    ensures
        final(arr)@.len() == old(arr)@.len(),
        r is Ok <==> is_transform_length(old(arr)@.len() as int),
        r is Err ==> r == Err::<(), AlgebraError>(AlgebraError::InvalidTransformLength)
            && final(arr)@ == old(arr)@,
        r is Ok ==> residues(final(arr)@) == transform(
            residues(old(arr)@),
            fft_type.is_inverse(),
        ),
{
    let n: usize = arr.len();
    let ghost a0 = arr@;
    match transform_log(n) {
        None => Err(AlgebraError::InvalidTransformLength),
        Some(k) => {
            bit_reverse_permute(arr, k);
            let ghost a1 = arr@;
            butterflies(arr, k, fft_type);
            let ghost a2 = arr@;
            let ghost w = root_of_unity(n as int, fft_type.is_inverse());
            proof {
                lemma_root_is_principal(k as nat, fft_type.is_inverse());
                assert forall|idx: int| 0 <= idx < n implies (#[trigger] a2[idx])@ == dft_at(
                    residues(a0),
                    w,
                    idx,
                ) by {
                    assert forall|i: int| 0 <= i < n implies #[trigger] residues(a1)[i]
                        == residues(a0)[bit_reverse(i, k as nat)] by {
                        lemma_bit_reverse_bound(i, k as nat);
                    }
                    lemma_stages_compute_dft(residues(a0), residues(a1), w, k as nat, idx);
                }
            }
            match fft_type {
                FFTType::Inverse => {
                    let n_inv = GaloisField::type_cast(n).pow((DEFAULT_P - 2) as usize);
                    scale(arr, n_inv);
                    proof {
                        let p = modulus();
                        crate::dft::lemma_two_pow_26();
                        lemma_two_pow_monotonic(k as nat, 26);
                        lemma_small_mod(n as nat, p as nat);
                        assert(n_inv.val == length_inverse(n as int));
                        assert forall|idx: int| 0 <= idx < n implies (#[trigger] arr@[idx])@ == (
                        length_inverse(n as int) * dft_at(residues(a0), w, idx)) % p by {
                            vstd::arithmetic::div_mod::lemma_mul_mod_noop_general(
                                a2[idx].val as int,
                                n_inv.val as int,
                                p,
                            );
                            vstd::arithmetic::div_mod::lemma_mul_mod_noop_general(
                                a2[idx]@,
                                n_inv.val as int,
                                p,
                            );
                            vstd::arithmetic::div_mod::lemma_mod_twice(a2[idx].val as int, p);
                            vstd::arithmetic::div_mod::lemma_mod_twice(
                                a2[idx].val * n_inv.val,
                                p,
                            );
                            assert(a2[idx]@ * n_inv.val == n_inv.val * a2[idx]@)
                                by (nonlinear_arith);
                        }
                        assert(residues(arr@) =~= transform(residues(a0), true));
                    }
                },
                FFTType::Straight => {
                    proof {
                        assert(residues(arr@) =~= transform(residues(a0), false));
                    }
                },
            }
            Ok(())
        },
    }
}

} // verus!
