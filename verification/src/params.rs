//! Parameters of a short Weierstrass curve `y^2 = x^3 + a*x + b` over a prime field.
use vstd::prelude::*;
use crate::field::{euler, is_prime_u64, pow_mod};
use crate::modular::is_prime;

verus! {

/// Curve parameters: the base field modulus, the coefficients, a generator, the
/// cofactor, the inverse of the cofactor in the scalar field and the scalar field
/// modulus. Multi-limb integers are held as little-endian `u64` limbs.
pub struct SWParams {
    /// The prime modulus `p` of the base field.
    pub modulus: u64,
    /// The least residue `z >= 2` that Euler's criterion marks as a non-square.
    pub nonresidue: u64,
    /// The coefficient `a`.
    pub coeff_a: u64,
    /// The coefficient `b`.
    pub coeff_b: u64,
    /// The x-coordinate of the generator.
    pub generator_x: u64,
    /// The y-coordinate of the generator.
    pub generator_y: u64,
    /// The cofactor of the curve.
    pub cofactor: Vec<u64>,
    /// The inverse of the cofactor in the scalar field.
    pub cofactor_inv: Vec<u64>,
    /// The modulus (characteristic) of the scalar field.
    pub scalar_modulus: Vec<u64>,
}

/// `z` is a residue in `[2, p)` that Euler's criterion marks as a non-square.
pub open spec fn is_nonresidue(p: int, z: int) -> bool {
    2 <= z < p && euler(p, z) == p - 1
}

impl SWParams {
    /// The base field modulus as an integer.
    pub open spec fn p(&self) -> int {
        self.modulus as int
    }

    /// The coefficient `a` as an integer.
    pub open spec fn a(&self) -> int {
        self.coeff_a as int
    }

    /// The coefficient `b` as an integer.
    pub open spec fn b(&self) -> int {
        self.coeff_b as int
    }

    /// The parameters describe a curve over a prime field of odd characteristic.
    pub open spec fn wf(&self) -> bool {
        &&& is_prime(self.p())
        &&& self.p() > 2
        &&& is_nonresidue(self.p(), self.nonresidue as int)
        &&& self.coeff_a < self.modulus
        &&& self.coeff_b < self.modulus
        &&& self.generator_x < self.modulus
        &&& self.generator_y < self.modulus
        &&& self.cofactor@.len() * 64 <= usize::MAX
        &&& self.cofactor_inv@.len() * 64 <= usize::MAX
        &&& self.scalar_modulus@.len() * 64 <= usize::MAX
    }

    /// Builds curve parameters, checking that the modulus is an odd prime, that the
    /// coefficients and the generator are reduced and that the bits of each multi-limb
    /// integer can be counted in a `usize`, and finding the least non-residue used by
    /// square roots. The primality check costs `O(sqrt(modulus))` divisions.
    pub fn new(
        modulus: u64,
        coeff_a: u64,
        coeff_b: u64,
        generator_x: u64,
        generator_y: u64,
        cofactor: Vec<u64>,
        cofactor_inv: Vec<u64>,
        scalar_modulus: Vec<u64>,
    ) -> (r: Option<Self>)
        ensures
            r is Some <==> {
                &&& is_prime(modulus as int)
                &&& modulus > 2
                &&& coeff_a < modulus
                &&& coeff_b < modulus
                &&& generator_x < modulus
                &&& generator_y < modulus
                &&& cofactor@.len() * 64 <= usize::MAX
                &&& cofactor_inv@.len() * 64 <= usize::MAX
                &&& scalar_modulus@.len() * 64 <= usize::MAX
                &&& exists|z: int| is_nonresidue(modulus as int, z)
            },
            r matches Some(c) ==> {
                &&& c.wf()
                &&& c.modulus == modulus
                &&& c.coeff_a == coeff_a
                &&& c.coeff_b == coeff_b
                &&& c.generator_x == generator_x
                &&& c.generator_y == generator_y
                &&& c.cofactor@ == cofactor@
                &&& c.cofactor_inv@ == cofactor_inv@
                &&& c.scalar_modulus@ == scalar_modulus@
                &&& forall|z: int| 2 <= z < c.nonresidue ==> !#[trigger] is_nonresidue(modulus as int, z)
            },
    {
        if !is_prime_u64(modulus) || modulus <= 2 || coeff_a >= modulus || coeff_b >= modulus
            || generator_x >= modulus || generator_y >= modulus || cofactor.len() > usize::MAX / 64
            || cofactor_inv.len() > usize::MAX / 64 || scalar_modulus.len() > usize::MAX / 64 {
            return None;
        }
        let half = (modulus - 1) / 2;
        let mut z: u64 = 2;
        while z < modulus
            invariant
                2 <= z <= modulus,
                half == (modulus - 1) / 2,
                modulus > 2,
                is_prime(modulus as int),
                coeff_a < modulus,
                coeff_b < modulus,
                generator_x < modulus,
                generator_y < modulus,
                cofactor@.len() * 64 <= usize::MAX,
                cofactor_inv@.len() * 64 <= usize::MAX,
                scalar_modulus@.len() * 64 <= usize::MAX,
                forall|y: int| 2 <= y < z ==> !#[trigger] is_nonresidue(modulus as int, y),
            decreases modulus - z,
        {
            let e = pow_mod(modulus, z, half);
            if e == modulus - 1 {
                proof {
                    assert(((modulus - 1) / 2) as nat == half as nat);
                    assert(is_nonresidue(modulus as int, z as int));
                }
                return Some(
                    SWParams {
                        modulus,
                        nonresidue: z,
                        coeff_a,
                        coeff_b,
                        generator_x,
                        generator_y,
                        cofactor,
                        cofactor_inv,
                        scalar_modulus,
                    },
                );
            }
            z = z + 1;
        }
        None
    }
}

} // verus!
