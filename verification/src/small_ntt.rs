use crate::bit_reverse::two_pow;
use crate::dft::{is_transform_length, residues, transform};
use crate::fft::{do_fft, FFTType};
use crate::field::{modulus, pow_mod, GaloisField};
use crate::int_polynomial::int_residues;
use vstd::prelude::*;

verus! {

/// Half the order of the multiplicative group of the field.
pub const MAX: usize = 234_881_024;

/// The prime modulus of the field.
pub const P: i64 = 469_762_049;

/// `a^x mod P`, in `[0, P)`, by repeated squaring.
pub fn fast_pow(a: i64, x: i64) -> (r: i64)
    requires
        x >= 0,
    ensures
        r == pow_mod(a as int, x as nat, modulus()),
        0 <= r < modulus(),
{
    crate::field::pow_mod_u64(a, x as u64, P)
}

/// Transforms a buffer of integers in place, each integer taken as the
/// element of the field that it stands for; `inv` selects the inverse
/// transform. The buffer has `2^shift` elements, and `2^shift` divides
/// `P - 1`. What it holds afterwards are canonical representatives.
pub fn fft(arr: &mut [i64], shift: u8, inv: bool)
    requires
        shift <= 26,
        old(arr)@.len() == two_pow(shift as nat),
    ensures
        final(arr)@.len() == old(arr)@.len(),
        forall|i: int|
            0 <= i < old(arr)@.len() ==> #[trigger] final(arr)@[i] as int == transform(
                int_residues(old(arr)@),
                inv,
            )[i],
{
    let n: usize = arr.len();
    let ghost a0 = arr@;
    let mut buffer: Vec<GaloisField> = Vec::new();
    let mut i: usize = 0;
    while i < n
        invariant
            i <= n,
            arr@ == a0,
            a0.len() == n,
            buffer@.len() == i,
            forall|j: int| 0 <= j < i ==> (#[trigger] buffer@[j]).val == a0[j],
        decreases n - i,
    {
        buffer.push(GaloisField::from(arr[i]));
        i = i + 1;
    }
    let direction = if inv {
        FFTType::Inverse
    } else {
        FFTType::Straight
    };
    proof {
        assert(residues(buffer@) =~= int_residues(a0));
        assert(is_transform_length(n as int));
    }
    let _outcome = do_fft(buffer.as_mut_slice(), direction);
    let mut i: usize = 0;
    while i < n
        invariant
            i <= n,
            arr@.len() == n,
            buffer@.len() == n,
            forall|j: int| 0 <= j < i ==> #[trigger] arr@[j] as int == residues(buffer@)[j],
        decreases n - i,
    {
        let c = buffer[i].canonical();
        arr[i] = c.val;
        i = i + 1;
    }
}

} // verus!
