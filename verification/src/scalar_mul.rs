//! Scalar multiplication by double-and-add over big-endian bits, and what is built
//! on it: multiplication by the cofactor, by its inverse, and the subgroup check.
use vstd::prelude::*;
use crate::affine::Affine;
use crate::bits::{
    bits_be, lemma_strip_leading_false, limbs_bits_be, limbs_bits_be_without_leading_zeros,
};
use crate::group_law::{
    aff_mul_bits, jac_mul_bits, jac_mul_bits_full, jac_to_aff, lemma_jac_mul_bits_full_prefix,
    lemma_jac_mul_bits_prefix, lemma_mul_bits_correct, AffPoint,
};
use crate::params::SWParams;
use crate::projective::Projective;

verus! {

impl Affine {
    /// Multiplies `self` by the scalar whose big-endian bits are `bits`: leading zero
    /// bits are skipped, then for each bit the accumulator is doubled and `self` is
    /// added when the bit is set.
    pub fn mul_bits(&self, bits: &Vec<bool>, params: &SWParams) -> (r: Projective)
        requires
            params.wf(),
            self.is_reduced(params.p()),
        ensures
            r.jac() == jac_mul_bits(params.p(), params.a(), self.point(), bits@),
            r.is_reduced(params.p()),
    {
        let n = bits.len();
        let mut res = Projective::zero();
        let mut i: usize = 0;
        while i < n && !bits[i]
            invariant
                i <= n,
                n == bits@.len(),
                forall|j: int| 0 <= j < i ==> !#[trigger] bits@[j],
            decreases n - i,
        {
            i = i + 1;
        }
        let start = i;
        proof {
            assert(bits@.subrange(start as int, start as int) =~= Seq::<bool>::empty());
        }
        while i < n
            invariant
                params.wf(),
                self.is_reduced(params.p()),
                start <= i <= n,
                n == bits@.len(),
                res.is_reduced(params.p()),
                res.jac() == jac_mul_bits(
                    params.p(),
                    params.a(),
                    self.point(),
                    bits@.subrange(start as int, i as int),
                ),
            decreases n - i,
        {
            res.double_in_place(params);
            if bits[i] {
                res.add_unique_in_place(self, params);
            }
            proof {
                assert(bits@.subrange(start as int, i + 1).drop_last() =~= bits@.subrange(
                    start as int,
                    i as int,
                ));
            }
            i = i + 1;
        }
        proof {
            lemma_jac_mul_bits_prefix(params.p(), params.a(), self.point(), bits@, start as int);
        }
        res
    }

    /// Multiplies `self` by the cofactor of the curve.
    pub fn scale_by_cofactor(&self, params: &SWParams) -> (r: Projective)
        requires
            params.wf(),
            self.is_reduced(params.p()),
        ensures
            r.jac() == jac_mul_bits(params.p(), params.a(), self.point(), bits_be(params.cofactor@)),
            r.is_reduced(params.p()),
    {
        self.mul(params.cofactor.as_slice(), params)
    }

    /// Multiplies `self` by the cofactor of the curve.
    pub fn mul_by_cofactor_to_projective(&self, params: &SWParams) -> (r: Projective)
        requires
            params.wf(),
            self.is_reduced(params.p()),
        ensures
            r.jac() == jac_mul_bits(params.p(), params.a(), self.point(), bits_be(params.cofactor@)),
            r.is_reduced(params.p()),
    {
        self.scale_by_cofactor(params)
    }

    /// Multiplies `self` by the scalar held in the little-endian limbs `by`.
    pub fn mul(&self, by: &[u64], params: &SWParams) -> (r: Projective)
        requires
            params.wf(),
            by@.len() * 64 <= usize::MAX,
            self.is_reduced(params.p()),
        ensures
            r.jac() == jac_mul_bits(params.p(), params.a(), self.point(), bits_be(by@)),
            r.is_reduced(params.p()),
    {
        let bits = limbs_bits_be_without_leading_zeros(by);
        let r = self.mul_bits(&bits, params);
        proof {
            let s = bits_be(by@);
            let k = lemma_strip_leading_false(s);
            lemma_jac_mul_bits_prefix(params.p(), params.a(), self.point(), s, k);
        }
        r
    }

    /// Multiplies `self` by the inverse of the cofactor in the scalar field, in affine
    /// coordinates.
    pub fn mul_by_cofactor_inv(&self, params: &SWParams) -> (r: Affine)
        requires
            params.wf(),
            self.is_reduced(params.p()),
        ensures
            r.point() == jac_to_aff(
                params.p(),
                jac_mul_bits(params.p(), params.a(), self.point(), bits_be(params.cofactor_inv@)),
            ),
            r.infinity ==> r == Affine::spec_zero(),
            r.is_reduced(params.p()),
    {
        let q = self.mul(params.cofactor_inv.as_slice(), params);
        Affine::from_projective(&q, params)
    }

    /// Checks that `self`, taken to lie on the curve, is in the subgroup whose order is
    /// the scalar field modulus: multiplying by that modulus gives the point at infinity.
    pub fn is_in_correct_subgroup_assuming_on_curve(&self, params: &SWParams) -> (r: bool)
        requires
            params.wf(),
            self.is_reduced(params.p()),
        ensures
            r == (aff_mul_bits(
                params.p(),
                params.a(),
                self.point(),
                bits_be(params.scalar_modulus@),
            ) == AffPoint::Infinity),
    {
        let bits = limbs_bits_be(params.scalar_modulus.as_slice());
        let q = self.mul_bits(&bits, params);
        proof {
            lemma_mul_bits_correct(params.p(), params.a(), self.point(), bits@);
            vstd::arithmetic::div_mod::lemma_small_mod(q.z as nat, params.p() as nat);
        }
        q.is_zero()
    }
}

impl Projective {
    /// Multiplies `self` by the scalar held in the little-endian limbs `by`, by
    /// double-and-add with full additions.
    pub fn mul(&self, by: &[u64], params: &SWParams) -> (r: Projective)
        requires
            params.wf(),
            by@.len() * 64 <= usize::MAX,
            self.is_reduced(params.p()),
        ensures
            r.jac() == jac_mul_bits_full(params.p(), params.a(), self.jac(), bits_be(by@)),
            r.is_reduced(params.p()),
    {
        let bits = limbs_bits_be_without_leading_zeros(by);
        let n = bits.len();
        let mut res = Projective::zero();
        let mut i: usize = 0;
        while i < n
            invariant
                params.wf(),
                self.is_reduced(params.p()),
                i <= n,
                n == bits@.len(),
                res.is_reduced(params.p()),
                res.jac() == jac_mul_bits_full(
                    params.p(),
                    params.a(),
                    self.jac(),
                    bits@.subrange(0, i as int),
                ),
            decreases n - i,
        {
            res.double_in_place(params);
            if bits[i] {
                res.add_assign(self, params);
            }
            proof {
                assert(bits@.subrange(0, i + 1).drop_last() =~= bits@.subrange(0, i as int));
            }
            i = i + 1;
        }
        proof {
            let s = bits_be(by@);
            let k = lemma_strip_leading_false(s);
            lemma_jac_mul_bits_full_prefix(params.p(), params.a(), self.jac(), s, k);
            assert(bits@.subrange(0, n as int) =~= bits@);
        }
        res
    }

    /// Multiplies `self` in place by the scalar held in the little-endian limbs `by`.
    pub fn mul_assign(&mut self, by: &[u64], params: &SWParams)
        requires
            params.wf(),
            by@.len() * 64 <= usize::MAX,
            old(self).is_reduced(params.p()),
        ensures
            final(self).jac() == jac_mul_bits_full(params.p(), params.a(), old(self).jac(), bits_be(by@)),
            final(self).is_reduced(params.p()),
    {
        *self = self.mul(by, params);
    }
}

} // verus!
