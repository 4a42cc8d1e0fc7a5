//! One draw of sampling a point: the candidate that a random x-coordinate and a random
//! choice of root give, cleared of the cofactor. The random draws themselves, and the
//! loop that repeats them until a candidate exists, are left to the caller.
use vstd::prelude::*;
use crate::affine::{curve_rhs_spec, Affine};
use crate::bits::bits_be;
use crate::group_law::{jac_mul_bits, jac_to_aff};
use crate::modular::is_square;
use crate::params::SWParams;
use crate::projective::Projective;

verus! {

impl Affine {
    /// The point built from the x-coordinate `x` (the larger root of `x^3 + a x + b` when
    /// `greatest` is set), multiplied by the cofactor and converted to affine coordinates;
    /// `None` when `x^3 + a x + b` is not a square.
    pub fn sample_from_x(x: u64, greatest: bool, params: &SWParams) -> (r: Option<Affine>)
        requires
            params.wf(),
            x < params.p(),
        ensures
            r is Some <==> is_square(params.p(), curve_rhs_spec(params, x as int)),
            r matches Some(a) ==> a.point() == jac_to_aff(
                params.p(),
                jac_mul_bits(
                    params.p(),
                    params.a(),
                    Affine::spec_from_x(params, x, greatest).point(),
                    bits_be(params.cofactor@),
                ),
            ),
            r matches Some(a) ==> a.is_reduced(params.p()) && (a.infinity ==> a == Affine::spec_zero()),
    {
        match Projective::sample_from_x(x, greatest, params) {
            Some(q) => Some(Affine::from_projective(&q, params)),
            None => None,
        }
    }
}

impl Projective {
    /// The point built from the x-coordinate `x` (the larger root of `x^3 + a x + b` when
    /// `greatest` is set), multiplied by the cofactor, in Jacobian coordinates; `None` when
    /// `x^3 + a x + b` is not a square.
    pub fn sample_from_x(x: u64, greatest: bool, params: &SWParams) -> (r: Option<Projective>)
        requires
            params.wf(),
            x < params.p(),
        ensures
            r is Some <==> is_square(params.p(), curve_rhs_spec(params, x as int)),
            r matches Some(q) ==> q.jac() == jac_mul_bits(
                params.p(),
                params.a(),
                Affine::spec_from_x(params, x, greatest).point(),
                bits_be(params.cofactor@),
            ),
            r matches Some(q) ==> q.is_reduced(params.p()),
    {
        match Affine::get_point_from_x(x, greatest, params) {
            Some(p) => Some(p.scale_by_cofactor(params)),
            None => None,
        }
    }
}

} // verus!
