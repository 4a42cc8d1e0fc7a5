//! Affine addition and sums of points, computed through Jacobian coordinates, and the
//! conversion of many Jacobian points to affine coordinates.
use vstd::prelude::*;
use crate::affine::Affine;
use crate::batch::{batch_inv_mod, inverses};
use crate::field::mul_mod;
use crate::group_law::{
    aff_add, aff_sum, jac_add, jac_to_aff, jac_zero, lemma_add_correct, lemma_jac_one, lemma_mul_step,
    AffPoint, Jac,
};
use crate::modular::{inv, lemma_cong_reduced};
use crate::params::SWParams;
use crate::projective::Projective;
use vstd::arithmetic::div_mod::lemma_small_mod;

verus! {

/// The points of a sequence of affine points.
pub open spec fn affine_points(v: Seq<Affine>) -> Seq<AffPoint> {
    v.map_values(|q: Affine| q.point())
}

/// The points of a sequence of Jacobian points.
pub open spec fn projective_points(m: int, v: Seq<Projective>) -> Seq<AffPoint> {
    v.map_values(|q: Projective| jac_to_aff(m, q.jac()))
}

/// The Jacobian coordinates of the sum of a sequence of Jacobian points, added from the
/// first to the last starting at the point at infinity `(1, 1, 0)`.
pub open spec fn jac_sum(m: int, a: int, v: Seq<Projective>) -> Jac
    decreases v.len(),
{
    if v.len() == 0 {
        jac_zero()
    } else {
        jac_add(m, a, jac_sum(m, a, v.drop_last()), v.last().jac())
    }
}

impl Affine {
    /// `self + other`, computed by a mixed addition in Jacobian coordinates and one
    /// conversion back.
    pub fn add(self, other: &Affine, params: &SWParams) -> (r: Affine)
        requires
            params.wf(),
            self.is_reduced(params.p()),
            other.is_reduced(params.p()),
        ensures
            r.point() == aff_add(params.p(), params.a(), self.point(), other.point()),
            r.point() == AffPoint::Infinity ==> r == Affine::spec_zero(),
            r.is_reduced(params.p()),
    {
        let mut copy = self;
        copy.add_assign(other, params);
        copy
    }

    /// Adds `other` to `self` in place.
    pub fn add_assign(&mut self, other: &Affine, params: &SWParams)
        requires
            params.wf(),
            old(self).is_reduced(params.p()),
            other.is_reduced(params.p()),
        ensures
            final(self).point() == aff_add(params.p(), params.a(), old(self).point(), other.point()),
            final(self).point() == AffPoint::Infinity ==> *final(self) == Affine::spec_zero(),
            final(self).is_reduced(params.p()),
    {
        let ghost m = params.p();
        let mut s = Projective::from_affine(self);
        proof {
            lemma_small_mod(1, m as nat);
            lemma_small_mod(0, m as nat);
            if !self.infinity {
                lemma_jac_one(m, self.x as int, self.y as int);
            }
            if !other.infinity {
                lemma_jac_one(m, other.x as int, other.y as int);
            }
            lemma_add_correct(m, params.a(), s.jac(), other.jac_one());
        }
        s.add_unique_in_place(other, params);
        *self = Affine::from_projective(&s, params);
        proof {
            lemma_small_mod(s.z as nat, m as nat);
        }
    }

    /// Equality with a Jacobian point: the Jacobian coordinates of `self` stand for the
    /// same point as `other`.
    pub fn eq_projective(&self, other: &Projective, params: &SWParams) -> (r: bool)
        requires
            params.wf(),
            self.is_reduced(params.p()),
            other.is_reduced(params.p()),
        ensures
            r == (self.point() == jac_to_aff(params.p(), other.jac())),
    {
        let s = Projective::from_affine(self);
        proof {
            lemma_small_mod(1, params.p() as nat);
            lemma_small_mod(0, params.p() as nat);
            if !self.infinity {
                lemma_jac_one(params.p(), self.x as int, self.y as int);
            }
        }
        s.eq(other, params)
    }

    /// The sum of affine points, accumulated in Jacobian coordinates by mixed additions
    /// and converted back once.
    pub fn sum(items: &[Affine], params: &SWParams) -> (r: Affine)
        requires
            params.wf(),
            forall|i: int| 0 <= i < items@.len() ==> #[trigger] items@[i].is_reduced(params.p()),
        ensures
            r.point() == aff_sum(params.p(), params.a(), affine_points(items@)),
            r.point() == AffPoint::Infinity ==> r == Affine::spec_zero(),
            r.is_reduced(params.p()),
    {
        let ghost m = params.p();
        let mut acc = Projective::zero();
        let n = items.len();
        let mut i: usize = 0;
        proof {
            lemma_small_mod(0, m as nat);
            assert(affine_points(items@.subrange(0, 0)) =~= Seq::<AffPoint>::empty());
        }
        while i < n
            invariant
                params.wf(),
                m == params.p(),
                n == items@.len(),
                i <= n,
                forall|j: int| 0 <= j < items@.len() ==> #[trigger] items@[j].is_reduced(m),
                acc.is_reduced(m),
                jac_to_aff(m, acc.jac()) == aff_sum(m, params.a(), affine_points(items@.subrange(0, i as int))),
            decreases n - i,
        {
            let item = items[i];
            proof {
                assert(items@[i as int].is_reduced(m));
                lemma_small_mod(1, m as nat);
                lemma_small_mod(0, m as nat);
                if !item.infinity {
                    lemma_jac_one(m, item.x as int, item.y as int);
                }
                lemma_add_correct(m, params.a(), acc.jac(), item.jac_one());
                assert(affine_points(items@.subrange(0, i + 1)).drop_last() =~= affine_points(
                    items@.subrange(0, i as int),
                ));
                assert(affine_points(items@.subrange(0, i + 1)).last() == item.point());
            }
            acc = acc.add_unique(&item, params);
            i = i + 1;
        }
        proof {
            assert(items@.subrange(0, n as int) =~= items@);
            lemma_small_mod(acc.z as nat, m as nat);
        }
        Affine::from_projective(&acc, params)
    }

    /// The sum of Jacobian points, accumulated by full additions and converted to affine
    /// coordinates once.
    pub fn sum_projective(items: &[Projective], params: &SWParams) -> (r: Affine)
        requires
            params.wf(),
            forall|i: int| 0 <= i < items@.len() ==> #[trigger] items@[i].is_reduced(params.p()),
        ensures
            r.point() == aff_sum(params.p(), params.a(), projective_points(params.p(), items@)),
            r.point() == AffPoint::Infinity ==> r == Affine::spec_zero(),
            r.is_reduced(params.p()),
    {
        let acc = Projective::sum(items, params);
        proof {
            lemma_small_mod(acc.z as nat, params.p() as nat);
        }
        Affine::from_projective(&acc, params)
    }
}

impl Projective {
    /// The generator given by the curve parameters, in affine coordinates.
    pub fn generator(params: &SWParams) -> (r: Affine)
        ensures
            r.x == params.generator_x,
            r.y == params.generator_y,
            !r.infinity,
    {
        Affine::generator(params)
    }

    /// The affine coordinates of `self`.
    pub fn to_unique(&self, params: &SWParams) -> (r: Affine)
        requires
            params.wf(),
            self.is_reduced(params.p()),
        ensures
            r.point() == jac_to_aff(params.p(), self.jac()),
            self.z == 0 ==> r == Affine::spec_zero(),
            r.is_reduced(params.p()),
    {
        Affine::from_projective(self, params)
    }

    /// The sum of Jacobian points by full additions.
    pub fn sum(items: &[Projective], params: &SWParams) -> (r: Projective)
        requires
            params.wf(),
            forall|i: int| 0 <= i < items@.len() ==> #[trigger] items@[i].is_reduced(params.p()),
        ensures
            r.jac() == jac_sum(params.p(), params.a(), items@),
            jac_to_aff(params.p(), r.jac()) == aff_sum(
                params.p(),
                params.a(),
                projective_points(params.p(), items@),
            ),
            r.is_reduced(params.p()),
    {
        let ghost m = params.p();
        let mut acc = Projective::zero();
        let n = items.len();
        let mut i: usize = 0;
        proof {
            lemma_small_mod(0, m as nat);
            assert(projective_points(m, items@.subrange(0, 0)) =~= Seq::<AffPoint>::empty());
        }
        while i < n
            invariant
                params.wf(),
                m == params.p(),
                n == items@.len(),
                i <= n,
                forall|j: int| 0 <= j < items@.len() ==> #[trigger] items@[j].is_reduced(m),
                acc.is_reduced(m),
                acc.jac() == jac_sum(m, params.a(), items@.subrange(0, i as int)),
                jac_to_aff(m, acc.jac()) == aff_sum(
                    m,
                    params.a(),
                    projective_points(m, items@.subrange(0, i as int)),
                ),
            decreases n - i,
        {
            let item = items[i];
            proof {
                assert(items@[i as int].is_reduced(m));
                lemma_add_correct(m, params.a(), acc.jac(), item.jac());
                assert(projective_points(m, items@.subrange(0, i + 1)).drop_last() =~= projective_points(
                    m,
                    items@.subrange(0, i as int),
                ));
                assert(items@.subrange(0, i + 1).drop_last() =~= items@.subrange(0, i as int));
            }
            acc.add_assign(&item, params);
            i = i + 1;
        }
        proof {
            assert(items@.subrange(0, n as int) =~= items@);
        }
        acc
    }

    /// Converts each point to its unique affine form: `(X, Y, Z)` becomes
    /// `(X/Z^2, Y/Z^3)`, and a point at infinity the point at infinity, in order,
    /// inverting all the `Z` coordinates with a single inversion.
    pub fn batch_to_unique(v: &[Projective], params: &SWParams) -> (r: Vec<Affine>)
        requires
            params.wf(),
            forall|i: int| 0 <= i < v@.len() ==> #[trigger] v@[i].is_reduced(params.p()),
        ensures
            r@.len() == v@.len(),
            forall|i: int|
                0 <= i < v@.len() ==> #[trigger] r@[i] == Affine::from_projective_spec(params.p(), v@[i]),
            forall|i: int| 0 <= i < r@.len() ==> #[trigger] r@[i].is_reduced(params.p()),
    {
        let ghost m = params.p();
        let p = params.modulus;
        let n = v.len();
        let mut zs: Vec<u64> = Vec::new();
        let mut j: usize = 0;
        while j < n
            invariant
                n == v@.len(),
                j <= n,
                zs@.len() == j,
                forall|k: int| 0 <= k < j ==> #[trigger] zs@[k] == v@[k].z,
            decreases n - j,
        {
            zs.push(v[j].z);
            j = j + 1;
        }
        let ghost zs0 = zs@;
        proof {
            assert forall|k: int| 0 <= k < zs@.len() implies #[trigger] zs@[k] < p by {
                assert(v@[k].is_reduced(m));
            }
        }
        batch_inv_mod(p, &mut zs);
        let mut out: Vec<Affine> = Vec::new();
        let mut i: usize = 0;
        while i < n
            invariant
                params.wf(),
                m == params.p(),
                p == params.modulus,
                n == v@.len(),
                i <= n,
                forall|j: int| 0 <= j < v@.len() ==> #[trigger] v@[j].is_reduced(m),
                zs@ == inverses(m, zs0),
                zs0.len() == n,
                forall|k: int| 0 <= k < n ==> #[trigger] zs0[k] == v@[k].z,
                out@.len() == i,
                forall|j: int| 0 <= j < i ==> #[trigger] out@[j] == Affine::from_projective_spec(m, v@[j]),
                forall|j: int| 0 <= j < out@.len() ==> #[trigger] out@[j].is_reduced(m),
            decreases n - i,
        {
            let g = v[i];
            proof {
                assert(v@[i as int].is_reduced(m));
                lemma_small_mod(0, m as nat);
                lemma_small_mod(1, m as nat);
            }
            if g.z == 0 {
                out.push(Affine::zero());
            } else if g.z == 1 {
                proof {
                    crate::modular::lemma_inv_one(m);
                    lemma_small_mod(g.x as nat, m as nat);
                    lemma_small_mod(g.y as nat, m as nat);
                }
                proof {
                    let w = inv(m, 1);
                    assert((g.x as int) * (w * w) == g.x as int && (g.y as int) * (w * w * w) == g.y as int)
                        by (nonlinear_arith)
                        requires
                            w == 1,
                    ;
                    assert(Affine::from_projective_spec(m, g) == (Affine { x: g.x, y: g.y, infinity: false }));
                }
                out.push(Affine::new(g.x, g.y, false));
            } else {
                proof {
                    lemma_small_mod(g.z as nat, m as nat);
                }
                let zinv = zs[i];
                proof {
                    assert(zs0[i as int] == g.z);
                    crate::modular::lemma_prime_invertible(m, g.z as int);
                    assert(zinv == inv(m, g.z as int));
                }
                let z2 = mul_mod(p, zinv, zinv);
                let x = mul_mod(p, g.x, z2);
                let z3 = mul_mod(p, z2, zinv);
                let y = mul_mod(p, g.y, z3);
                proof {
                    let w = zinv as int;
                    lemma_mul_step(m, w, w, w, w);
                    lemma_mul_step(m, g.x as int, z2 as int, g.x as int, w * w);
                    lemma_mul_step(m, z2 as int, w, w * w, w);
                    lemma_mul_step(m, g.y as int, z3 as int, g.y as int, w * w * w);
                    lemma_cong_reduced(m, x as int, (g.x as int) * (w * w));
                    lemma_cong_reduced(m, y as int, (g.y as int) * (w * w * w));
                }
                let gn = Projective::new(x, y, 1);
                let a = gn.to_unique(params);
                proof {
                    lemma_small_mod(1, m as nat);
                    lemma_small_mod(0, m as nat);
                    lemma_jac_one(m, x as int, y as int);
                    assert(a == Affine::from_projective_spec(m, g));
                }
                out.push(a);
            }
            i = i + 1;
        }
        out
    }
}

} // verus!
