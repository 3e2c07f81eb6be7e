use crate::bit_reverse::{lemma_two_pow_adds, lemma_two_pow_positive, two_pow};
use crate::dft::{
    generator, is_principal_root, lemma_root_exponent, lemma_two_pow_26, max_log, root_of_unity,
};
use crate::field::{modulus, pow_mod};
use vstd::arithmetic::div_mod::{lemma_mul_mod_noop_general, lemma_small_mod};
use vstd::arithmetic::power::{
    lemma_pow1, lemma_pow_adds, lemma_pow_mod_noop, lemma_pow_multiplies, pow,
};
use vstd::prelude::*;

verus! {

/// The residue of a power whose exponent is a sum, from the residues of
/// the powers of the summands.
pub proof fn lemma_pow_mod_mul(g: int, e1: nat, e2: nat, x1: int, x2: int, y: int)
    requires
        pow(g, e1) % modulus() == x1,
        pow(g, e2) % modulus() == x2,
        (x1 * x2) % modulus() == y,
    ensures
        pow(g, e1 + e2) % modulus() == y,
{
    lemma_pow_adds(g, e1, e2);
    lemma_mul_mod_noop_general(pow(g, e1), pow(g, e2), modulus());
}

/// The generator of the forward transform, raised to half the order of
/// the multiplicative group, is minus one.
pub proof fn lemma_forward_generator_half_order()
    ensures
        pow(3, 234881024) % modulus() == modulus() - 1,
{
    lemma_pow1(3);
    lemma_pow_mod_mul(3, 1, 1, 3, 3, 9);
    lemma_pow_mod_mul(3, 2, 1, 9, 3, 27);
    lemma_pow_mod_mul(3, 3, 3, 27, 27, 729);
    lemma_pow_mod_mul(3, 6, 1, 729, 3, 2187);
    lemma_pow_mod_mul(3, 7, 7, 2187, 2187, 4782969);
    lemma_pow_mod_mul(3, 14, 14, 4782969, 4782969, 320192759);
    lemma_pow_mod_mul(3, 28, 28, 320192759, 320192759, 385303873);
    lemma_pow_mod_mul(3, 56, 56, 385303873, 385303873, 391371999);
    lemma_pow_mod_mul(3, 112, 112, 391371999, 391371999, 297449090);
    lemma_pow_mod_mul(3, 224, 224, 297449090, 297449090, 197868229);
    lemma_pow_mod_mul(3, 448, 448, 197868229, 197868229, 49553715);
    lemma_pow_mod_mul(3, 896, 896, 49553715, 49553715, 422997289);
    lemma_pow_mod_mul(3, 1792, 1792, 422997289, 422997289, 321129726);
    lemma_pow_mod_mul(3, 3584, 3584, 321129726, 321129726, 386080322);
    lemma_pow_mod_mul(3, 7168, 7168, 386080322, 386080322, 372627191);
    lemma_pow_mod_mul(3, 14336, 14336, 372627191, 372627191, 19512135);
    lemma_pow_mod_mul(3, 28672, 28672, 19512135, 19512135, 62025685);
    lemma_pow_mod_mul(3, 57344, 57344, 62025685, 62025685, 244412522);
    lemma_pow_mod_mul(3, 114688, 114688, 244412522, 244412522, 165447688);
    lemma_pow_mod_mul(3, 229376, 229376, 165447688, 165447688, 110059487);
    lemma_pow_mod_mul(3, 458752, 458752, 110059487, 110059487, 25153357);
    lemma_pow_mod_mul(3, 917504, 917504, 25153357, 25153357, 338628632);
    lemma_pow_mod_mul(3, 1835008, 1835008, 338628632, 338628632, 189158148);
    lemma_pow_mod_mul(3, 3670016, 3670016, 189158148, 189158148, 210853138);
    lemma_pow_mod_mul(3, 7340032, 7340032, 210853138, 210853138, 244709223);
    lemma_pow_mod_mul(3, 14680064, 14680064, 244709223, 244709223, 426037461);
    lemma_pow_mod_mul(3, 29360128, 29360128, 426037461, 426037461, 129701348);
    lemma_pow_mod_mul(3, 58720256, 58720256, 129701348, 129701348, 450151958);
    lemma_pow_mod_mul(3, 117440512, 117440512, 450151958, 450151958, 469762048);
}

/// The generator of the inverse transform, raised to half the order of
/// the multiplicative group, is minus one.
pub proof fn lemma_inverse_generator_half_order()
    ensures
        pow(156587350, 234881024) % modulus() == modulus() - 1,
{
    lemma_pow1(156587350);
    lemma_pow_mod_mul(156587350, 1, 1, 156587350, 156587350, 208783133);
    lemma_pow_mod_mul(156587350, 2, 1, 208783133, 156587350, 382769077);
    lemma_pow_mod_mul(156587350, 3, 3, 382769077, 382769077, 292554143);
    lemma_pow_mod_mul(156587350, 6, 1, 292554143, 156587350, 410692747);
    lemma_pow_mod_mul(156587350, 7, 7, 410692747, 410692747, 392193156);
    lemma_pow_mod_mul(156587350, 14, 14, 392193156, 392193156, 49490419);
    lemma_pow_mod_mul(156587350, 28, 28, 49490419, 49490419, 300035530);
    lemma_pow_mod_mul(156587350, 56, 56, 300035530, 300035530, 426545640);
    lemma_pow_mod_mul(156587350, 112, 112, 426545640, 426545640, 131257384);
    lemma_pow_mod_mul(156587350, 224, 224, 131257384, 131257384, 256026808);
    lemma_pow_mod_mul(156587350, 448, 448, 256026808, 256026808, 96523612);
    lemma_pow_mod_mul(156587350, 896, 896, 96523612, 96523612, 44275780);
    lemma_pow_mod_mul(156587350, 1792, 1792, 44275780, 44275780, 417932558);
    lemma_pow_mod_mul(156587350, 3584, 3584, 417932558, 417932558, 380600599);
    lemma_pow_mod_mul(156587350, 7168, 7168, 380600599, 380600599, 271119509);
    lemma_pow_mod_mul(156587350, 14336, 14336, 271119509, 271119509, 317243944);
    lemma_pow_mod_mul(156587350, 28672, 28672, 317243944, 317243944, 318475127);
    lemma_pow_mod_mul(156587350, 57344, 57344, 318475127, 318475127, 309717554);
    lemma_pow_mod_mul(156587350, 114688, 114688, 309717554, 309717554, 63413564);
    lemma_pow_mod_mul(156587350, 229376, 229376, 63413564, 63413564, 458753944);
    lemma_pow_mod_mul(156587350, 458752, 458752, 458753944, 458753944, 436579181);
    lemma_pow_mod_mul(156587350, 917504, 917504, 436579181, 436579181, 215855482);
    lemma_pow_mod_mul(156587350, 1835008, 1835008, 215855482, 215855482, 230980285);
    lemma_pow_mod_mul(156587350, 3670016, 3670016, 230980285, 230980285, 58439238);
    lemma_pow_mod_mul(156587350, 7340032, 7340032, 58439238, 58439238, 278703339);
    lemma_pow_mod_mul(156587350, 14680064, 14680064, 278703339, 278703339, 358191614);
    lemma_pow_mod_mul(156587350, 29360128, 29360128, 358191614, 358191614, 26623616);
    lemma_pow_mod_mul(156587350, 58720256, 58720256, 26623616, 26623616, 19610091);
    lemma_pow_mod_mul(156587350, 117440512, 117440512, 19610091, 19610091, 469762048);
}

/// The generators of the two directions are inverse to each other.
pub proof fn lemma_generators_are_inverse()
    ensures
        (generator(false) * generator(true)) % modulus() == 1,
{
}

/// The root of unity that a transform of length `2^k` uses is a principal
/// root of that order.
pub proof fn lemma_root_is_principal(k: nat, inverse: bool)
    requires
        k <= max_log(),
    ensures
        is_principal_root(root_of_unity(two_pow(k), inverse), k),
{
    if k >= 1 {
        let p = modulus();
        let g = generator(inverse);
        lemma_root_exponent(k);
        let ek = (7 * two_pow((26 - k) as nat)) as nat;
        let h = two_pow((k - 1) as nat) as nat;
        lemma_two_pow_positive((26 - k) as nat);
        lemma_two_pow_positive((k - 1) as nat);
        lemma_two_pow_adds((26 - k) as nat, (k - 1) as nat);
        assert((26 - k) as nat + (k - 1) as nat == 25);
        assert(two_pow(25) == 33554432) by {
            reveal_with_fuel(two_pow, 26);
        }
        assert(ek * h == 234881024) by (nonlinear_arith)
            requires
                ek == 7 * two_pow((26 - k) as nat),
                h == two_pow((k - 1) as nat),
                two_pow((26 - k) as nat) * two_pow((k - 1) as nat) == 33554432,
        ;
        lemma_pow_mod_noop(pow(g, ek), h, p);
        lemma_pow_multiplies(g, ek, h);
        if inverse {
            lemma_inverse_generator_half_order();
        } else {
            lemma_forward_generator_half_order();
        }
    }
}

/// A transform length times its power `P - 2` is one: that power is the
/// inverse of the length in the field.
pub proof fn lemma_length_inverse(k: nat)
    requires
        k <= max_log(),
    ensures
        (two_pow(k) * pow_mod(two_pow(k), (modulus() - 2) as nat, modulus())) % modulus() == 1,
{
    let n = two_pow(k);
    lemma_two_pow_26();
    lemma_two_pow_positive(k);
    crate::bit_reverse::lemma_two_pow_monotonic(k, 26);
    lemma_small_mod(n as nat, modulus() as nat);
    crate::fermat::lemma_inverse_by_power(n);
}

} // verus!
