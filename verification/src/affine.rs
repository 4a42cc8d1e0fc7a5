//! Points in affine coordinates `(x, y)`, with a flag for the point at infinity.
use vstd::prelude::*;
use crate::field::{add_mod, inv_mod, mul_mod, neg_mod, sqrt_mod};
use crate::group_law::{
    jac_to_aff, lemma_add_step, lemma_jac_one, lemma_mul_step,
    on_curve, AffPoint, Jac,
};
use crate::modular::{
    cong, inv, is_selected_root, is_square, lemma_cong_mod, lemma_cong_reduced, lemma_neg_neg,
    lemma_select_root, select_root,
};
use crate::params::SWParams;
use crate::projective::Projective;
use vstd::arithmetic::div_mod::{lemma_mod_bound, lemma_small_mod};

verus! {

/// Affine coordinates for a point on a short Weierstrass curve. When `infinity` is
/// set the point is the point at infinity and the coordinates carry no meaning.
#[derive(Clone, Copy, Debug, PartialEq, Eq, Hash, Structural)]
pub struct Affine {
    pub x: u64,
    pub y: u64,
    pub infinity: bool,
}

impl Affine {
    /// The point that `self` stands for.
    pub open spec fn point(self) -> AffPoint {
        if self.infinity {
            AffPoint::Infinity
        } else {
            AffPoint::Finite(self.x as int, self.y as int)
        }
    }

    /// Both coordinates are residues below `p`.
    pub open spec fn is_reduced(self, p: int) -> bool {
        &&& self.x < p
        &&& self.y < p
    }

    /// The Jacobian coordinates `(x, y, 1)` of a finite point.
    pub open spec fn jac_one(self) -> Jac {
        (self.x as int, self.y as int, 1)
    }

    /// Builds a point from its coordinates and infinity flag without checking them.
    pub fn new(x: u64, y: u64, infinity: bool) -> (r: Self)
        ensures
            r.x == x,
            r.y == y,
            r.infinity == infinity,
    {
        Affine { x, y, infinity }
    }

    /// The point at infinity as it is represented: `(0, 1)` with the flag set.
    pub open spec fn spec_zero() -> Self {
        Affine { x: 0, y: 1, infinity: true }
    }

    /// The point at infinity. In affine coordinates it is not a point of the curve;
    /// the flag marks it.
    pub fn zero() -> (r: Self)
        ensures
            r == Self::spec_zero(),
    {
        Affine { x: 0, y: 1, infinity: true }
    }

    /// `self` is the point at infinity.
    pub fn is_zero(&self) -> (r: bool)
        ensures
            r == self.infinity,
    {
        self.infinity
    }

    /// The generator given by the curve parameters.
    pub fn generator(params: &SWParams) -> (r: Self)
        ensures
            r.x == params.generator_x,
            r.y == params.generator_y,
            !r.infinity,
    {
        Affine { x: params.generator_x, y: params.generator_y, infinity: false }
    }

    /// `self` is the point at infinity or satisfies the curve equation.
    pub fn is_on_curve(&self, params: &SWParams) -> (r: bool)
        requires
            params.wf(),
            self.is_reduced(params.p()),
        ensures
            r == (self.infinity || on_curve(params.p(), params.a(), params.b(), self.x as int, self.y as int)),
    {
        if self.infinity {
            true
        } else {
            let p = params.modulus;
            let y2 = mul_mod(p, self.y, self.y);
            let x3b = curve_rhs(params, self.x);
            y2 == x3b
        }
    }

    /// Tries to build a point from its x-coordinate: `y` is a square root of
    /// `x^3 + a x + b`, the larger of the two roots (as residues) when `greatest` is set
    /// and the smaller one otherwise; `None` when `x^3 + a x + b` is not a square. The
    /// point need not lie in the prime order subgroup.
    pub fn get_point_from_x(x: u64, greatest: bool, params: &SWParams) -> (r: Option<Self>)
        requires
            params.wf(),
            x < params.p(),
        ensures
            r is Some <==> is_square(params.p(), curve_rhs_spec(params, x as int)),
            r matches Some(pt) ==> pt == Self::spec_from_x(params, x, greatest),
            r matches Some(pt) ==> is_selected_root(
                params.p(),
                curve_rhs_spec(params, x as int),
                greatest,
                pt.y as int,
            ),
    {
        let p = params.modulus;
        let x3b = curve_rhs(params, x);
        match sqrt_mod(p, params.nonresidue, x3b) {
            Some(y) => {
                let negy = neg_mod(p, y);
                let y_sel = if (y < negy) ^ greatest {
                    y
                } else {
                    negy
                };
                proof {
                    let m = params.p();
                    lemma_mod_bound(-(y as int), m);
                    lemma_neg_neg(m, y as int);
                    // (-y)^2 == y^2
                    lemma_cong_mod(m, -(y as int));
                    vstd::arithmetic::div_mod::lemma_mul_mod_noop(-(y as int), -(y as int), m);
                    assert((-(y as int)) * (-(y as int)) == (y as int) * (y as int)) by (nonlinear_arith);
                    assert(((negy as int) * (negy as int)) % m == ((y as int) * (y as int)) % m);
                    assert(is_selected_root(m, x3b as int, greatest, y_sel as int));
                    lemma_select_root(m, x3b as int, greatest, y_sel as int);
                }
                Some(Affine { x, y: y_sel, infinity: false })
            },
            None => None,
        }
    }

    /// The point that `get_point_from_x` builds when `x^3 + a x + b` is a square.
    pub open spec fn spec_from_x(params: &SWParams, x: u64, greatest: bool) -> Self {
        Affine {
            x,
            y: select_root(params.p(), curve_rhs_spec(params, x as int), greatest) as u64,
            infinity: false,
        }
    }

    /// Negation: `(x, y)` becomes `(x, -y)`; the point at infinity is kept.
    pub fn neg(self, params: &SWParams) -> (r: Self)
        requires
            params.wf(),
            self.is_reduced(params.p()),
        ensures
            r == self.neg_spec(params.p()),
            r.is_reduced(params.p()),
    {
        if !self.infinity {
            proof {
                lemma_mod_bound(-(self.y as int), params.p());
            }
            Affine { x: self.x, y: neg_mod(params.modulus, self.y), infinity: false }
        } else {
            self
        }
    }

    /// The negation that `neg` computes.
    pub open spec fn neg_spec(self, p: int) -> Self {
        if self.infinity {
            self
        } else {
            Affine { x: self.x, y: ((-self.y) % p) as u64, infinity: false }
        }
    }

    /// The affine coordinates of a Jacobian point: `(X/Z^2, Y/Z^3)`, or `(0, 1)` with the
    /// flag set when `Z` is zero.
    pub open spec fn from_projective_spec(m: int, q: Projective) -> Self {
        if q.z == 0 {
            Self::spec_zero()
        } else {
            let w = inv(m, q.z as int);
            Affine {
                x: ((q.x * (w * w)) % m) as u64,
                y: ((q.y * (w * w * w)) % m) as u64,
                infinity: false,
            }
        }
    }

    /// The affine point that a Jacobian point stands for, computed with one inversion:
    /// `(X/Z^2, Y/Z^3)`, or the point at infinity `(0, 1)` when `Z` is zero.
    pub fn from_projective(q: &Projective, params: &SWParams) -> (r: Self)
        requires
            params.wf(),
            q.is_reduced(params.p()),
        ensures
            r == Self::from_projective_spec(params.p(), *q),
            r.point() == jac_to_aff(params.p(), q.jac()),
            r.is_reduced(params.p()),
    {
        let ghost m = params.p();
        let p = params.modulus;
        proof {
            lemma_small_mod(q.z as nat, m as nat);
            lemma_small_mod(0, m as nat);
        }
        if q.z == 0 {
            Self::zero()
        } else if q.z == 1 {
            proof {
                lemma_jac_one(m, q.x as int, q.y as int);
                let w = inv(m, 1);
                lemma_small_mod(1, m as nat);
                crate::modular::lemma_prime_invertible(m, 1);
                assert(w == 1) by {
                    lemma_small_mod(w as nat, m as nat);
                }
                lemma_small_mod(q.x as nat, m as nat);
                lemma_small_mod(q.y as nat, m as nat);
            }
            Affine { x: q.x, y: q.y, infinity: false }
        } else {
            let zinv = match inv_mod(p, q.z) {
                Some(w) => w,
                None => {
                    proof {
                        assert(false);
                    }
                    0
                },
            };
            let zinv2 = mul_mod(p, zinv, zinv);
            let x = mul_mod(p, q.x, zinv2);
            let zinv3 = mul_mod(p, zinv2, zinv);
            let y = mul_mod(p, q.y, zinv3);
            proof {
                let w = zinv as int;
                assert(w == inv(m, q.z as int));
                lemma_mul_step(m, w, w, w, w);
                lemma_mul_step(m, q.x as int, zinv2 as int, q.x as int, w * w);
                lemma_mul_step(m, zinv2 as int, w, w * w, w);
                lemma_mul_step(m, q.y as int, zinv3 as int, q.y as int, w * w * w);
                lemma_cong_reduced(m, x as int, (q.x as int) * (w * w));
                lemma_cong_reduced(m, y as int, (q.y as int) * (w * w * w));
            }
            Affine { x, y, infinity: false }
        }
    }
}

/// `x^3 + a x + b` modulo `p`.
pub open spec fn curve_rhs_spec(params: &SWParams, x: int) -> int {
    (x * x * x + params.a() * x + params.b()) % params.p()
}

/// `x^3 + a x + b`, with the `a x` term left out when `a` is zero.
fn curve_rhs(params: &SWParams, x: u64) -> (r: u64)
    requires
        params.wf(),
        x < params.p(),
    ensures
        r == curve_rhs_spec(params, x as int),
        r < params.p(),
{
    let p = params.modulus;
    let ghost m = params.p();
    let x2 = mul_mod(p, x, x);
    let x3 = mul_mod(p, x2, x);
    let s = if params.coeff_a == 0 {
        x3
    } else {
        let ax = mul_mod(p, params.coeff_a, x);
        add_mod(p, x3, ax)
    };
    let r = add_mod(p, s, params.coeff_b);
    proof {
        let xi = x as int;
        lemma_mul_step(m, xi, xi, xi, xi);
        lemma_mul_step(m, x2 as int, xi, xi * xi, xi);
        if params.coeff_a == 0 {
            assert(params.a() * xi == 0) by (nonlinear_arith)
                requires
                    params.a() == 0,
            ;
            assert(cong(m, s as int, xi * xi * xi + params.a() * xi));
        } else {
            lemma_mul_step(m, params.a(), xi, params.a(), xi);
            lemma_add_step(m, x3 as int, (params.a() * xi) % m, xi * xi * xi, params.a() * xi);
        }
        lemma_add_step(m, s as int, params.b(), xi * xi * xi + params.a() * xi, params.b());
        lemma_cong_reduced(m, r as int, xi * xi * xi + params.a() * xi + params.b());
    }
    r
}

} // verus!
