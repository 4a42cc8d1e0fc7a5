//! The group law keeps points on the curve: sums, doubles, negations and multiples of
//! points of the curve lie on the curve.
use vstd::prelude::*;
use vstd::arithmetic::div_mod::{lemma_mod_bound, lemma_small_mod};
use crate::affine::{curve_rhs_spec, Affine};
use crate::bits::bits_be;
use crate::group_law::{
    aff_add, aff_double, aff_mul_bits, aff_neg, jac_add, jac_double, jac_mul_bits,
    jac_mul_bits_full, jac_to_aff, lemma_add_correct, lemma_double_correct,
    lemma_jac_to_aff_represents, lemma_mul_bits_correct, lemma_mul_bits_full_correct, on_curve,
    AffPoint,
};
use crate::laws::{law_affine_neg, law_point_from_x_on_curve};
use crate::params::SWParams;
use crate::projective::Projective;
use crate::modular::{
    cong, inv, is_prime, is_square, lemma_cong_add, lemma_cong_mod, lemma_cong_mul, lemma_cong_scale,
    lemma_cong_sub, lemma_prime_cancel, lemma_prime_invertible, lemma_small_nonzero_mod,
};

verus! {

/// The point is at infinity, or a point of the curve `y^2 = x^3 + a x + b`.
pub open spec fn aff_on_curve(m: int, a: int, b: int, p: AffPoint) -> bool {
    match p {
        AffPoint::Infinity => true,
        AffPoint::Finite(x, y) => on_curve(m, a, b, x, y),
    }
}

/// The coordinates of a finite point are residues below `m`.
pub open spec fn aff_reduced(m: int, p: AffPoint) -> bool {
    match p {
        AffPoint::Infinity => true,
        AffPoint::Finite(x, y) => 0 <= x < m && 0 <= y < m,
    }
}

/// Congruent values, or opposite ones, have congruent squares.
proof fn lemma_cong_square(m: int, u: int, v: int)
    requires
        m > 0,
        cong(m, u, v) || cong(m, u, -v),
    ensures
        cong(m, u * u, v * v),
{
    if cong(m, u, v) {
        lemma_cong_mul(m, u, v, u, v);
    } else {
        lemma_cong_mul(m, u, -v, u, -v);
        assert((-v) * (-v) == v * v) by (nonlinear_arith);
    }
}

/// Congruent values give congruent right-hand sides `u^3 + a u + b`.
proof fn lemma_cong_cubic(m: int, a: int, b: int, u: int, v: int)
    requires
        m > 0,
        cong(m, u, v),
    ensures
        cong(m, u * u * u + a * u + b, v * v * v + a * v + b),
{
    lemma_cong_mul(m, u, v, u, v);
    lemma_cong_mul(m, u * u, v * v, u, v);
    lemma_cong_scale(m, a, u, v);
    lemma_cong_add(m, u * u * u, v * v * v, a * u, a * v);
    lemma_cong_add(m, u * u * u + a * u, v * v * v + a * v, b, b);
}

/// The square of `l u + y`, expanded.
proof fn lemma_line_square(l: int, u: int, y: int)
    by (nonlinear_arith)
    ensures
        (l * u + y) * (l * u + y) == l * l * (u * u) + u * (2 * l * y) + y * y,
{
}

/// `t^3 + a t + b` minus the same at `x` has the factor `t - x`.
proof fn lemma_rhs_difference(t: int, x: int, u: int, a: int, b: int)
    by (nonlinear_arith)
    requires
        u == t - x,
    ensures
        (t * t * t + a * t + b) - (x * x * x + a * x + b) == u * (t * t + x * t + x * x + a),
{
}

/// The y-coordinate of the line through `(x, y)` with slope `l`, taken at `x3`, squares to
/// `x3^3 + a x3 + b` modulo `m`, given `2 l y == g - l^2 d`, where `x3 - x == u` and the
/// bracket `l^2 (u - d) + g - (x3^2 + x x3 + x^2 + a)` vanishes.
proof fn lemma_third_point(m: int, a: int, b: int, l: int, x: int, y: int, x3: int, d: int, g: int)
    requires
        m > 0,
        on_curve(m, a, b, x, y),
        cong(m, 2 * l * y, g - l * l * d),
        l * l * (x3 - x - d) + g - (x3 * x3 + x * x3 + x * x + a) == 0,
    ensures
        cong(m, (l * (x3 - x) + y) * (l * (x3 - x) + y), x3 * x3 * x3 + a * x3 + b),
{
    let u = x3 - x;
    let c = x * x * x + a * x + b;
    let r3 = x3 * x3 * x3 + a * x3 + b;
    let h = x3 * x3 + x * x3 + x * x + a;
    lemma_line_square(l, u, y);
    lemma_rhs_difference(x3, x, u, a, b);
    assert(x3 * x3 + x * x3 + x * x + a == h);
    lemma_cong_scale(m, u, 2 * l * y, g - l * l * d);
    lemma_cong_add(m, l * l * (u * u), l * l * (u * u), u * (2 * l * y), u * (g - l * l * d));
    lemma_cong_add(m, l * l * (u * u) + u * (2 * l * y), l * l * (u * u) + u * (g - l * l * d), y * y, c);
    assert(l * l * (u * u) + u * (g - l * l * d) + c == c + u * h + u * (l * l * (u - d) + g - h))
        by (nonlinear_arith);
    assert(u * (l * l * (u - d) + g - h) == 0) by (nonlinear_arith)
        requires
            l * l * (u - d) + g - h == 0,
    ;
}

/// Reducing the third point of a line: if `yl^2 == x3^3 + a x3 + b` then the reduced
/// coordinates `x3 mod m` and `(l (x - (x3 mod m)) - y) mod m` satisfy the curve equation.
proof fn lemma_reduce_third_point(m: int, a: int, b: int, l: int, x: int, y: int, x3i: int)
    requires
        m > 0,
        cong(m, (l * (x3i - x) + y) * (l * (x3i - x) + y), x3i * x3i * x3i + a * x3i + b),
    ensures
        on_curve(m, a, b, x3i % m, (l * (x - x3i % m) - y) % m),
        0 <= x3i % m < m,
        0 <= (l * (x - x3i % m) - y) % m < m,
{
    let yl = l * (x3i - x) + y;
    let x3 = x3i % m;
    let y3 = (l * (x - x3) - y) % m;
    lemma_mod_bound(x3i, m);
    lemma_mod_bound(l * (x - x3) - y, m);
    lemma_cong_mod(m, x3i);
    lemma_cong_cubic(m, a, b, x3, x3i);
    lemma_cong_sub(m, x, x, x3, x3i);
    lemma_cong_scale(m, l, x - x3, x - x3i);
    lemma_cong_sub(m, l * (x - x3), l * (x - x3i), y, y);
    lemma_cong_mod(m, l * (x - x3) - y);
    assert(l * (x - x3i) - y == -yl) by (nonlinear_arith)
        requires
            yl == l * (x3i - x) + y,
    ;
    lemma_cong_square(m, y3, yl);
}

/// The tangent at a point of the curve meets the curve again at the doubled point,
/// reflected.
proof fn lemma_double_on_curve(m: int, a: int, b: int, x: int, y: int)
    requires
        is_prime(m),
        0 <= x < m,
        0 <= y < m,
        on_curve(m, a, b, x, y),
    ensures
        aff_on_curve(m, a, b, aff_double(m, a, AffPoint::Finite(x, y))),
        aff_reduced(m, aff_double(m, a, AffPoint::Finite(x, y))),
{
    if (2 * y) % m != 0 {
        lemma_prime_invertible(m, 2 * y);
        let w = inv(m, 2 * y);
        let g = 3 * x * x + a;
        let l = (g * w) % m;
        lemma_small_mod(1, m as nat);
        // 2 l y == 3 x^2 + a
        lemma_cong_mod(m, g * w);
        lemma_cong_scale(m, 2 * y, l, g * w);
        assert((2 * y) * (g * w) == g * ((2 * y) * w)) by (nonlinear_arith);
        lemma_cong_scale(m, g, (2 * y) * w, 1);
        assert((2 * y) * l == 2 * l * y && l * l * 0 == 0) by (nonlinear_arith);
        let x3i = l * l - 2 * x;
        assert(l * l * (x3i - x - 0) + g - (x3i * x3i + x * x3i + x * x + a) == 0) by (nonlinear_arith)
            requires
                x3i == l * l - 2 * x,
                g == 3 * x * x + a,
        ;
        lemma_third_point(m, a, b, l, x, y, x3i, 0, g);
        lemma_reduce_third_point(m, a, b, l, x, y, x3i);
    }
}

/// The chord through two points of the curve with different x-coordinates meets the
/// curve again at their sum, reflected.
proof fn lemma_chord_on_curve(m: int, a: int, b: int, x1: int, y1: int, x2: int, y2: int)
    requires
        is_prime(m),
        0 <= x1 < m,
        0 <= y1 < m,
        0 <= x2 < m,
        0 <= y2 < m,
        x1 != x2,
        on_curve(m, a, b, x1, y1),
        on_curve(m, a, b, x2, y2),
    ensures
        aff_on_curve(m, a, b, aff_add(m, a, AffPoint::Finite(x1, y1), AffPoint::Finite(x2, y2))),
        aff_reduced(m, aff_add(m, a, AffPoint::Finite(x1, y1), AffPoint::Finite(x2, y2))),
{
    let d = x2 - x1;
    lemma_small_nonzero_mod(m, d);
    lemma_prime_invertible(m, d);
    let w = inv(m, d);
    let l = ((y2 - y1) * w) % m;
    lemma_small_mod(1, m as nat);
    // l d == y2 - y1
    lemma_cong_mod(m, (y2 - y1) * w);
    lemma_cong_scale(m, d, l, (y2 - y1) * w);
    assert(d * ((y2 - y1) * w) == (y2 - y1) * (d * w)) by (nonlinear_arith);
    lemma_cong_scale(m, y2 - y1, d * w, 1);
    assert(d * l == l * d) by (nonlinear_arith);
    assert(cong(m, l * d, y2 - y1));
    // l (y1 + y2) == x2^2 + x1 x2 + x1^2 + a, from y2^2 - y1^2 == x2^3 - x1^3 + a (x2 - x1)
    let g = x2 * x2 + x1 * x2 + x1 * x1 + a;
    let c1 = x1 * x1 * x1 + a * x1 + b;
    let c2 = x2 * x2 * x2 + a * x2 + b;
    lemma_rhs_difference(x2, x1, d, a, b);
    lemma_cong_sub(m, y2 * y2, c2, y1 * y1, c1);
    assert(y2 * y2 - y1 * y1 == (y2 - y1) * (y2 + y1)) by (nonlinear_arith);
    lemma_cong_mul(m, y2 - y1, l * d, y2 + y1, y2 + y1);
    assert((l * d) * (y2 + y1) == d * (l * (y1 + y2))) by (nonlinear_arith);
    lemma_prime_cancel(m, d, l * (y1 + y2), g);
    // 2 l y1 == g - l^2 d, as y2 == l d + y1
    lemma_cong_add(m, y1, y1, y2 - y1, l * d);
    lemma_cong_add(m, y1, y1, y2, l * d + y1);
    lemma_cong_scale(m, l, y1 + y2, y1 + (l * d + y1));
    assert(l * (y1 + (l * d + y1)) == 2 * l * y1 + l * l * d) by (nonlinear_arith);
    lemma_cong_sub(m, 2 * l * y1 + l * l * d, g, l * l * d, l * l * d);
    let x3i = l * l - x1 - x2;
    assert(l * l * (x3i - x1 - d) + g - (x3i * x3i + x1 * x3i + x1 * x1 + a) == 0) by (nonlinear_arith)
        requires
            x3i == l * l - x1 - x2,
            d == x2 - x1,
            g == x2 * x2 + x1 * x2 + x1 * x1 + a,
    ;
    lemma_third_point(m, a, b, l, x1, y1, x3i, d, g);
    lemma_reduce_third_point(m, a, b, l, x1, y1, x3i);
}

/// Doubling keeps a reduced point on the curve.
pub proof fn lemma_aff_double_on_curve(m: int, a: int, b: int, p: AffPoint)
    requires
        is_prime(m),
        aff_reduced(m, p),
        aff_on_curve(m, a, b, p),
    ensures
        aff_on_curve(m, a, b, aff_double(m, a, p)),
        aff_reduced(m, aff_double(m, a, p)),
{
    if let AffPoint::Finite(x, y) = p {
        lemma_double_on_curve(m, a, b, x, y);
    }
}

/// The sum of two reduced points of the curve lies on the curve.
pub proof fn lemma_aff_add_on_curve(m: int, a: int, b: int, p: AffPoint, q: AffPoint)
    requires
        is_prime(m),
        aff_reduced(m, p),
        aff_reduced(m, q),
        aff_on_curve(m, a, b, p),
        aff_on_curve(m, a, b, q),
    ensures
        aff_on_curve(m, a, b, aff_add(m, a, p, q)),
        aff_reduced(m, aff_add(m, a, p, q)),
{
    if let (AffPoint::Finite(x1, y1), AffPoint::Finite(x2, y2)) = (p, q) {
        if x1 == x2 {
            lemma_aff_double_on_curve(m, a, b, p);
        } else {
            lemma_chord_on_curve(m, a, b, x1, y1, x2, y2);
        }
    }
}

/// The negation of a point of the curve lies on the curve.
pub proof fn lemma_aff_neg_on_curve(m: int, a: int, b: int, p: AffPoint)
    requires
        m > 0,
        aff_on_curve(m, a, b, p),
    ensures
        aff_on_curve(m, a, b, aff_neg(m, p)),
{
    if let AffPoint::Finite(x, y) = p {
        lemma_cong_mod(m, -y);
        lemma_cong_square(m, (-y) % m, y);
    }
}

/// Double-and-add from a reduced point of the curve stays on the curve.
pub proof fn lemma_aff_mul_bits_on_curve(m: int, a: int, b: int, p: AffPoint, bits: Seq<bool>)
    requires
        is_prime(m),
        aff_reduced(m, p),
        aff_on_curve(m, a, b, p),
    ensures
        aff_on_curve(m, a, b, aff_mul_bits(m, a, p, bits)),
        aff_reduced(m, aff_mul_bits(m, a, p, bits)),
    decreases bits.len(),
{
    if bits.len() > 0 {
        lemma_aff_mul_bits_on_curve(m, a, b, p, bits.drop_last());
        let r = aff_mul_bits(m, a, p, bits.drop_last());
        lemma_aff_double_on_curve(m, a, b, r);
        lemma_aff_add_on_curve(m, a, b, aff_double(m, a, r), p);
    }
}

/// The point that Jacobian coordinates stand for is reduced.
proof fn lemma_jac_reduced(params: &SWParams, q: Projective)
    requires
        params.wf(),
    ensures
        aff_reduced(params.p(), jac_to_aff(params.p(), q.jac())),
{
    if q.jac().2 % params.p() != 0 {
        lemma_jac_to_aff_represents(params.p(), q.jac());
    }
}

/// Jacobian addition keeps points on the curve: when `q` and `r` stand for points of the
/// curve, so does their sum.
pub proof fn law_add_on_curve(params: &SWParams, q: Projective, r: Projective)
    requires
        params.wf(),
        aff_on_curve(params.p(), params.a(), params.b(), jac_to_aff(params.p(), q.jac())),
        aff_on_curve(params.p(), params.a(), params.b(), jac_to_aff(params.p(), r.jac())),
    ensures
        aff_on_curve(
            params.p(),
            params.a(),
            params.b(),
            jac_to_aff(params.p(), jac_add(params.p(), params.a(), q.jac(), r.jac())),
        ),
{
    let m = params.p();
    lemma_jac_reduced(params, q);
    lemma_jac_reduced(params, r);
    lemma_add_correct(m, params.a(), q.jac(), r.jac());
    lemma_aff_add_on_curve(m, params.a(), params.b(), jac_to_aff(m, q.jac()), jac_to_aff(m, r.jac()));
}

/// Jacobian doubling keeps points on the curve.
pub proof fn law_double_on_curve(params: &SWParams, q: Projective)
    requires
        params.wf(),
        aff_on_curve(params.p(), params.a(), params.b(), jac_to_aff(params.p(), q.jac())),
    ensures
        aff_on_curve(
            params.p(),
            params.a(),
            params.b(),
            jac_to_aff(params.p(), jac_double(params.p(), params.a(), q.jac())),
        ),
{
    let m = params.p();
    lemma_jac_reduced(params, q);
    lemma_double_correct(m, params.a(), q.jac());
    lemma_aff_double_on_curve(m, params.a(), params.b(), jac_to_aff(m, q.jac()));
}

/// Negation keeps points on the curve.
pub proof fn law_neg_on_curve(params: &SWParams, pt: Affine)
    requires
        params.wf(),
        pt.is_reduced(params.p()),
        aff_on_curve(params.p(), params.a(), params.b(), pt.point()),
    ensures
        aff_on_curve(params.p(), params.a(), params.b(), pt.neg_spec(params.p()).point()),
{
    law_affine_neg(params, pt);
    lemma_aff_neg_on_curve(params.p(), params.a(), params.b(), pt.point());
}

/// Scalar multiplication keeps points on the curve, whether it runs on an affine point
/// with mixed additions or on Jacobian coordinates with full additions.
pub proof fn law_mul_on_curve(params: &SWParams, pt: Affine, q: Projective, bits: Seq<bool>)
    requires
        params.wf(),
        pt.is_reduced(params.p()),
        aff_on_curve(params.p(), params.a(), params.b(), pt.point()),
        aff_on_curve(params.p(), params.a(), params.b(), jac_to_aff(params.p(), q.jac())),
    ensures
        aff_on_curve(
            params.p(),
            params.a(),
            params.b(),
            jac_to_aff(params.p(), jac_mul_bits(params.p(), params.a(), pt.point(), bits)),
        ),
        aff_on_curve(
            params.p(),
            params.a(),
            params.b(),
            jac_to_aff(params.p(), jac_mul_bits_full(params.p(), params.a(), q.jac(), bits)),
        ),
{
    let m = params.p();
    lemma_mul_bits_correct(m, params.a(), pt.point(), bits);
    lemma_mul_bits_full_correct(m, params.a(), q.jac(), bits);
    lemma_jac_reduced(params, q);
    lemma_aff_mul_bits_on_curve(m, params.a(), params.b(), pt.point(), bits);
    lemma_aff_mul_bits_on_curve(m, params.a(), params.b(), jac_to_aff(m, q.jac()), bits);
}

/// A point sampled from an x-coordinate lies on the curve.
pub proof fn law_sample_on_curve(params: &SWParams, x: u64, greatest: bool)
    requires
        params.wf(),
        x < params.p(),
        is_square(params.p(), curve_rhs_spec(params, x as int)),
    ensures
        aff_on_curve(
            params.p(),
            params.a(),
            params.b(),
            jac_to_aff(
                params.p(),
                jac_mul_bits(
                    params.p(),
                    params.a(),
                    Affine::spec_from_x(params, x, greatest).point(),
                    bits_be(params.cofactor@),
                ),
            ),
        ),
{
    let m = params.p();
    let pt = Affine::spec_from_x(params, x, greatest);
    law_point_from_x_on_curve(params, x, greatest);
    lemma_mul_bits_correct(m, params.a(), pt.point(), bits_be(params.cofactor@));
    lemma_aff_mul_bits_on_curve(m, params.a(), params.b(), pt.point(), bits_be(params.cofactor@));
}

} // verus!
