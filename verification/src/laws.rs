//! Laws that relate the operations of the library to each other and to the group law
//! on affine points.
use vstd::prelude::*;
use vstd::arithmetic::div_mod::{lemma_mod_bound, lemma_small_mod};
use crate::affine::Affine;
use crate::affine::curve_rhs_spec;
use crate::bits::bits_be;
use crate::group_law::{
    aff_add, aff_mul_bits, aff_neg, jac_add, jac_double, jac_mul_bits, jac_mul_bits_full,
    jac_to_aff, lemma_add_correct, lemma_jac_one, lemma_jac_to_aff_represents,
    lemma_mul_bits_correct, lemma_mul_bits_full_correct, on_curve, AffPoint,
};
use crate::serialize::in_subgroup;
use crate::modular::{
    inv, is_prime, is_selected_root, is_square, lemma_cong_add, lemma_cong_mod, lemma_cong_mul, lemma_cong_reduced,
    lemma_cong_scale, lemma_cong_sub, lemma_inv_one, lemma_neg_neg, lemma_prime_cancel,
    lemma_prime_invertible, lemma_select_root, lemma_selected_root_exists,
    lemma_small_nonzero_mod,
};
use crate::params::SWParams;
use crate::projective::Projective;

verus! {

/// Adding a point to itself gives exactly the coordinates of doubling it: the Jacobian
/// addition detects equal summands and doubles.
pub proof fn law_add_self_is_double(params: &SWParams, q: Projective)
    requires
        params.wf(),
        q.is_reduced(params.p()),
    ensures
        jac_add(params.p(), params.a(), q.jac(), q.jac()) == jac_double(params.p(), params.a(), q.jac()),
{
}

/// The point at infinity is the identity of Jacobian addition, on either side.
pub proof fn law_zero_is_identity(params: &SWParams, q: Projective)
    requires
        params.wf(),
        q.is_reduced(params.p()),
    ensures
        jac_add(params.p(), params.a(), Projective::spec_zero().jac(), q.jac()) == q.jac(),
        q.z != 0 ==> jac_add(params.p(), params.a(), q.jac(), Projective::spec_zero().jac()) == q.jac(),
        jac_to_aff(params.p(), jac_add(params.p(), params.a(), q.jac(), Projective::spec_zero().jac()))
            == jac_to_aff(params.p(), q.jac()),
{
    lemma_small_mod(0, params.p() as nat);
    lemma_small_mod(q.z as nat, params.p() as nat);
}

/// Negating a point twice gives it back, in affine and in Jacobian coordinates.
pub proof fn law_neg_involution(params: &SWParams, pt: Affine, q: Projective)
    requires
        params.wf(),
        pt.is_reduced(params.p()),
        q.is_reduced(params.p()),
    ensures
        pt.neg_spec(params.p()).neg_spec(params.p()) == pt,
        q.neg_spec(params.p()).neg_spec(params.p()) == q,
{
    let m = params.p();
    lemma_neg_neg(m, pt.y as int);
    lemma_neg_neg(m, q.y as int);
    lemma_mod_bound(-(pt.y as int), m);
    lemma_mod_bound(-(q.y as int), m);
}

/// Negation of an affine point is the group negation `(x, y) -> (x, -y)`.
pub proof fn law_affine_neg(params: &SWParams, pt: Affine)
    requires
        params.wf(),
        pt.is_reduced(params.p()),
    ensures
        pt.neg_spec(params.p()).point() == aff_neg(params.p(), pt.point()),
{
    lemma_mod_bound(-(pt.y as int), params.p());
}

/// Negation in Jacobian coordinates stands for the negation of the affine point.
pub proof fn law_projective_neg(params: &SWParams, q: Projective)
    requires
        params.wf(),
        q.is_reduced(params.p()),
    ensures
        jac_to_aff(params.p(), q.neg_spec(params.p()).jac()) == aff_neg(params.p(), jac_to_aff(params.p(), q.jac())),
{
    let m = params.p();
    lemma_small_mod(q.z as nat, m as nat);
    if q.z != 0 {
        let w = inv(m, q.z as int);
        let w3 = w * w * w;
        let yi = q.y as int;
        let ny = (-yi) % m;
        lemma_mod_bound(-yi, m);
        lemma_mod_bound(yi * w3, m);
        // (-Y mod m) w^3 and -(Y w^3 mod m) are both -Y w^3 modulo m.
        lemma_cong_mod(m, -yi);
        lemma_cong_mul(m, ny, -yi, w3, w3);
        assert((-yi) * w3 == -(yi * w3)) by (nonlinear_arith);
        lemma_cong_mod(m, ny * w3);
        lemma_cong_mod(m, yi * w3);
        lemma_cong_sub(m, 0, 0, (yi * w3) % m, yi * w3);
        lemma_cong_mod(m, -((yi * w3) % m));
        lemma_mod_bound(ny * w3, m);
        lemma_cong_reduced(m, (ny * w3) % m, -(yi * w3));
        lemma_mod_bound(-((yi * w3) % m), m);
        lemma_cong_reduced(m, (-((yi * w3) % m)) % m, -(yi * w3));
    }
}

/// A reduced point added to its negation gives the point at infinity.
proof fn lemma_aff_add_neg(m: int, a: int, p: AffPoint)
    requires
        m > 0,
        p matches AffPoint::Finite(x, y) ==> 0 <= x < m && 0 <= y < m,
    ensures
        aff_add(m, a, p, aff_neg(m, p)) == AffPoint::Infinity,
{
    if let AffPoint::Finite(x, y) = p {
        lemma_small_mod(y as nat, m as nat);
        if y == (-y) % m {
            // y == -y modulo m, so 2y vanishes modulo m
            vstd::arithmetic::div_mod::lemma_add_mod_noop(y, -y, m);
            vstd::arithmetic::div_mod::lemma_add_mod_noop(y, y, m);
            lemma_small_mod(0, m as nat);
            assert((2 * y) % m == 0);
        }
    }
}

/// A point added to its negation gives the point at infinity.
pub proof fn law_add_neg_is_zero(params: &SWParams, q: Projective)
    requires
        params.wf(),
        q.is_reduced(params.p()),
    ensures
        jac_to_aff(params.p(), jac_add(params.p(), params.a(), q.jac(), q.neg_spec(params.p()).jac()))
            == AffPoint::Infinity,
{
    let m = params.p();
    law_projective_neg(params, q);
    lemma_add_correct(m, params.a(), q.jac(), q.neg_spec(m).jac());
    lemma_small_mod(q.z as nat, m as nat);
    if q.z != 0 {
        lemma_jac_to_aff_represents(m, q.jac());
    }
    lemma_aff_add_neg(m, params.a(), jac_to_aff(m, q.jac()));
}

/// An affine point added to its negation gives the point at infinity.
pub proof fn law_affine_add_neg_is_zero(params: &SWParams, pt: Affine)
    requires
        params.wf(),
        pt.is_reduced(params.p()),
    ensures
        aff_add(params.p(), params.a(), pt.point(), pt.neg_spec(params.p()).point()) == AffPoint::Infinity,
{
    law_affine_neg(params, pt);
    lemma_aff_add_neg(params.p(), params.a(), pt.point());
}

/// Affine addition does not depend on the order of the summands.
pub proof fn law_affine_add_commutes(params: &SWParams, pt: Affine, qt: Affine)
    requires
        params.wf(),
        pt.is_reduced(params.p()),
        qt.is_reduced(params.p()),
    ensures
        aff_add(params.p(), params.a(), pt.point(), qt.point()) == aff_add(
            params.p(),
            params.a(),
            qt.point(),
            pt.point(),
        ),
{
    lemma_aff_add_commutes(params.p(), params.a(), pt.point(), qt.point());
}

/// The affine form of the Jacobian form of an affine point is the point itself; the point
/// at infinity comes back in its canonical representation `(0, 1)`.
pub proof fn law_affine_projective_roundtrip(params: &SWParams, pt: Affine)
    requires
        params.wf(),
        pt.is_reduced(params.p()),
    ensures
        Affine::from_projective_spec(params.p(), Projective::from_affine_spec(pt)) == (if pt.infinity {
            Affine::spec_zero()
        } else {
            pt
        }),
        jac_to_aff(params.p(), Projective::from_affine_spec(pt).jac()) == pt.point(),
{
    let m = params.p();
    lemma_small_mod(0, m as nat);
    if !pt.infinity {
        lemma_inv_one(m);
        lemma_small_mod(pt.x as nat, m as nat);
        lemma_small_mod(pt.y as nat, m as nat);
        lemma_jac_one(m, pt.x as int, pt.y as int);
    }
}

/// The affine form of a Jacobian point stands for the same point, and so does the
/// Jacobian form of that affine form.
pub proof fn law_projective_affine_roundtrip(params: &SWParams, q: Projective)
    requires
        params.wf(),
        q.is_reduced(params.p()),
    ensures
        Affine::from_projective_spec(params.p(), q).point() == jac_to_aff(params.p(), q.jac()),
        Affine::from_projective_spec(params.p(), q).is_reduced(params.p()),
        jac_to_aff(params.p(), Projective::from_affine_spec(Affine::from_projective_spec(params.p(), q)).jac())
            == jac_to_aff(params.p(), q.jac()),
{
    let m = params.p();
    lemma_small_mod(q.z as nat, m as nat);
    lemma_small_mod(0, m as nat);
    lemma_small_mod(1, m as nat);
    if q.z != 0 {
        lemma_jac_to_aff_represents(m, q.jac());
        let w = inv(m, q.z as int);
        lemma_mod_bound((q.x as int) * (w * w), m);
        lemma_mod_bound((q.y as int) * (w * w * w), m);
        let r = Affine::from_projective_spec(m, q);
        lemma_jac_one(m, r.x as int, r.y as int);
    }
}

/// Two Jacobian points are equal exactly when their affine forms are equal.
pub proof fn law_eq_iff_same_affine(params: &SWParams, q: Projective, r: Projective)
    requires
        params.wf(),
        q.is_reduced(params.p()),
        r.is_reduced(params.p()),
    ensures
        (jac_to_aff(params.p(), q.jac()) == jac_to_aff(params.p(), r.jac())) == (Affine::from_projective_spec(
            params.p(),
            q,
        ) == Affine::from_projective_spec(params.p(), r)),
{
    law_projective_affine_roundtrip(params, q);
    law_projective_affine_roundtrip(params, r);
}

/// The sum of two reduced affine points does not depend on their order.
proof fn lemma_aff_add_commutes(m: int, a: int, p: AffPoint, q: AffPoint)
    requires
        is_prime(m),
        p matches AffPoint::Finite(x, y) ==> 0 <= x < m && 0 <= y < m,
        q matches AffPoint::Finite(x, y) ==> 0 <= x < m && 0 <= y < m,
    ensures
        aff_add(m, a, p, q) == aff_add(m, a, q, p),
{
    if let (AffPoint::Finite(x1, y1), AffPoint::Finite(x2, y2)) = (p, q) {
        if x1 != x2 {
            let d = x2 - x1;
            lemma_small_nonzero_mod(m, d);
            lemma_small_nonzero_mod(m, -d);
            lemma_prime_invertible(m, d);
            lemma_prime_invertible(m, -d);
            let w1 = inv(m, d);
            let w2 = inv(m, x1 - x2);
            assert(x1 - x2 == -d);
            // w1 == -w2: both invert d modulo m
            assert(d * (-w2) == (-d) * w2) by (nonlinear_arith);
            lemma_prime_cancel(m, d, w1, -w2);
            let l = ((y2 - y1) * w1) % m;
            lemma_cong_scale(m, y2 - y1, w1, -w2);
            assert((y2 - y1) * (-w2) == (y1 - y2) * w2) by (nonlinear_arith);
            assert(l == ((y1 - y2) * w2) % m);
            let x3 = (l * l - x1 - x2) % m;
            assert(x3 == (l * l - x2 - x1) % m);
            // l d == y2 - y1 modulo m
            lemma_cong_mod(m, (y2 - y1) * w1);
            lemma_cong_mul(m, l, (y2 - y1) * w1, d, d);
            assert(((y2 - y1) * w1) * d == (y2 - y1) * (d * w1)) by (nonlinear_arith);
            lemma_small_mod(1, m as nat);
            lemma_cong_scale(m, y2 - y1, d * w1, 1);
            let aa = l * (x1 - x3) - y1;
            let bb = l * (x2 - x3) - y2;
            lemma_cong_sub(m, y2 - y1, y2 - y1, l * d, y2 - y1);
            lemma_cong_add(m, bb, bb, (y2 - y1) - l * d, 0);
            assert(bb + ((y2 - y1) - l * d) == aa) by (nonlinear_arith)
                requires
                    d == x2 - x1,
                    aa == l * (x1 - x3) - y1,
                    bb == l * (x2 - x3) - y2,
            ;
        }
    }
}

/// Jacobian addition is commutative on the points it stands for.
pub proof fn law_add_commutes(params: &SWParams, q: Projective, r: Projective)
    requires
        params.wf(),
        q.is_reduced(params.p()),
        r.is_reduced(params.p()),
    ensures
        jac_to_aff(params.p(), jac_add(params.p(), params.a(), q.jac(), r.jac())) == jac_to_aff(
            params.p(),
            jac_add(params.p(), params.a(), r.jac(), q.jac()),
        ),
{
    let m = params.p();
    lemma_add_correct(m, params.a(), q.jac(), r.jac());
    lemma_add_correct(m, params.a(), r.jac(), q.jac());
    lemma_small_mod(q.z as nat, m as nat);
    lemma_small_mod(r.z as nat, m as nat);
    if q.z != 0 {
        lemma_jac_to_aff_represents(m, q.jac());
    }
    if r.z != 0 {
        lemma_jac_to_aff_represents(m, r.jac());
    }
    lemma_aff_add_commutes(m, params.a(), jac_to_aff(m, q.jac()), jac_to_aff(m, r.jac()));
}

/// A point built from an x-coordinate whose `x^3 + a x + b` is a square lies on the
/// curve, with reduced coordinates.
pub proof fn law_point_from_x_on_curve(params: &SWParams, x: u64, greatest: bool)
    requires
        params.wf(),
        x < params.p(),
        is_square(params.p(), curve_rhs_spec(params, x as int)),
    ensures
        Affine::spec_from_x(params, x, greatest).is_reduced(params.p()),
        on_curve(
            params.p(),
            params.a(),
            params.b(),
            x as int,
            Affine::spec_from_x(params, x, greatest).y as int,
        ),
{
    let m = params.p();
    let c = curve_rhs_spec(params, x as int);
    lemma_mod_bound(x * x * x + params.a() * x + params.b(), m);
    lemma_small_mod(c as nat, m as nat);
    let y0 = choose|y: int| 0 <= y < m && #[trigger] ((y * y) % m) == c % m;
    lemma_selected_root_exists(m, c, greatest, y0);
}

/// A finite point of the curve is rebuilt from its x-coordinate when the larger root is
/// asked for exactly when `y` is the larger of `y` and `-y`.
pub proof fn law_point_from_x_recovers(params: &SWParams, pt: Affine)
    requires
        params.wf(),
        pt.is_reduced(params.p()),
        !pt.infinity,
        on_curve(params.p(), params.a(), params.b(), pt.x as int, pt.y as int),
    ensures
        is_square(params.p(), curve_rhs_spec(params, pt.x as int)),
        Affine::spec_from_x(params, pt.x, pt.y > (-pt.y) % params.p()) == pt,
{
    let m = params.p();
    let c = curve_rhs_spec(params, pt.x as int);
    let y = pt.y as int;
    lemma_mod_bound(pt.x * pt.x * pt.x + params.a() * pt.x + params.b(), m);
    lemma_small_mod(c as nat, m as nat);
    assert((y * y) % m == c % m);
    let g = y > (-y) % m;
    assert(is_selected_root(m, c, g, y));
    lemma_select_root(m, c, g, y);
}

/// Double-and-add stays at the point at infinity when it starts from it.
proof fn lemma_mul_bits_zero(m: int, a: int, bits: Seq<bool>)
    ensures
        aff_mul_bits(m, a, AffPoint::Infinity, bits) == AffPoint::Infinity,
    decreases bits.len(),
{
    if bits.len() > 0 {
        lemma_mul_bits_zero(m, a, bits.drop_last());
    }
}

/// The point at infinity passes the subgroup check.
pub proof fn law_zero_in_subgroup(params: &SWParams)
    requires
        params.wf(),
    ensures
        in_subgroup(params, Affine::spec_zero()),
{
    lemma_mul_bits_zero(params.p(), params.a(), bits_be(params.scalar_modulus@));
}

/// Multiplying an affine point by mixed additions, or its Jacobian form by full
/// additions, computes the same affine double-and-add.
pub proof fn law_mul_affine_projective_agree(params: &SWParams, pt: Affine, bits: Seq<bool>)
    requires
        params.wf(),
        pt.is_reduced(params.p()),
    ensures
        jac_to_aff(params.p(), jac_mul_bits(params.p(), params.a(), pt.point(), bits)) == aff_mul_bits(
            params.p(),
            params.a(),
            pt.point(),
            bits,
        ),
        jac_to_aff(
            params.p(),
            jac_mul_bits_full(params.p(), params.a(), Projective::from_affine_spec(pt).jac(), bits),
        ) == aff_mul_bits(params.p(), params.a(), pt.point(), bits),
{
    lemma_mul_bits_correct(params.p(), params.a(), pt.point(), bits);
    lemma_mul_bits_full_correct(params.p(), params.a(), Projective::from_affine_spec(pt).jac(), bits);
    law_affine_projective_roundtrip(params, pt);
}

} // verus!
