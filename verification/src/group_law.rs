//! The chord-and-tangent group law on affine points and the Jacobian formulas, as
//! specifications over residues modulo `m`.
use vstd::prelude::*;
use vstd::arithmetic::div_mod::{lemma_mod_bound, lemma_small_mod};
use crate::modular::{
    cong, inv, is_prime, lemma_cong_add, lemma_cong_mod, lemma_cong_mul,
    lemma_cong_scale, lemma_cong_sub, lemma_prime_cancel, lemma_prime_invertible,
    lemma_prime_product_nonzero, lemma_prime_product_zero, lemma_small_nonzero_mod,
};

verus! {

/// A point of the affine plane, or the point at infinity.
pub enum AffPoint {
    Infinity,
    Finite(int, int),
}

/// Jacobian coordinates `(X, Y, Z)`.
pub type Jac = (int, int, int);

/// `(x, y)` satisfies `y^2 = x^3 + a*x + b` modulo `m`.
pub open spec fn on_curve(m: int, a: int, b: int, x: int, y: int) -> bool {
    (y * y) % m == (x * x * x + a * x + b) % m
}

/// The affine point that Jacobian coordinates stand for: `(X/Z^2, Y/Z^3)`, or infinity
/// when `Z` is zero.
pub open spec fn jac_to_aff(m: int, p: Jac) -> AffPoint {
    if p.2 % m == 0 {
        AffPoint::Infinity
    } else {
        let w = inv(m, p.2);
        AffPoint::Finite((p.0 * (w * w)) % m, (p.1 * (w * w * w)) % m)
    }
}

/// Negation: `-(x, y) = (x, -y)`.
pub open spec fn aff_neg(m: int, p: AffPoint) -> AffPoint {
    match p {
        AffPoint::Infinity => AffPoint::Infinity,
        AffPoint::Finite(x, y) => AffPoint::Finite(x, (-y) % m),
    }
}

/// Doubling by the tangent: `lambda = (3x^2 + a) / 2y`, `x3 = lambda^2 - 2x`,
/// `y3 = lambda (x - x3) - y`; a point with `2y = 0` doubles to infinity.
pub open spec fn aff_double(m: int, a: int, p: AffPoint) -> AffPoint {
    match p {
        AffPoint::Infinity => AffPoint::Infinity,
        AffPoint::Finite(x, y) => {
            if (2 * y) % m == 0 {
                AffPoint::Infinity
            } else {
                let l = ((3 * x * x + a) * inv(m, 2 * y)) % m;
                let x3 = (l * l - 2 * x) % m;
                let y3 = (l * (x - x3) - y) % m;
                AffPoint::Finite(x3, y3)
            }
        },
    }
}

/// Addition by the chord: `lambda = (y2 - y1) / (x2 - x1)`, `x3 = lambda^2 - x1 - x2`,
/// `y3 = lambda (x1 - x3) - y1`. Equal points are doubled; two points with the same
/// `x` and different `y` add up to infinity. Coordinates are taken as reduced.
pub open spec fn aff_add(m: int, a: int, p: AffPoint, q: AffPoint) -> AffPoint {
    match (p, q) {
        (AffPoint::Infinity, _) => q,
        (_, AffPoint::Infinity) => p,
        (AffPoint::Finite(x1, y1), AffPoint::Finite(x2, y2)) => {
            if x1 == x2 {
                if y1 == y2 {
                    aff_double(m, a, p)
                } else {
                    AffPoint::Infinity
                }
            } else {
                let l = ((y2 - y1) * inv(m, x2 - x1)) % m;
                let x3 = (l * l - x1 - x2) % m;
                let y3 = (l * (x1 - x3) - y1) % m;
                AffPoint::Finite(x3, y3)
            }
        },
    }
}

/// Jacobian doubling (dbl-2007-bl): with `S = 4XY^2` and `M = 3X^2 + aZ^4`,
/// `X3 = M^2 - 2S`, `Y3 = M(S - X3) - 8Y^4`, `Z3 = 2YZ`. A point with `Z = 0` is kept.
pub open spec fn jac_double(m: int, a: int, p: Jac) -> Jac {
    let (x, y, z) = p;
    if z % m == 0 {
        p
    } else {
        let s = 4 * x * (y * y);
        let mm = 3 * (x * x) + a * ((z * z) * (z * z));
        let x3 = mm * mm - 2 * s;
        ((x3) % m, (mm * (s - x3) - 8 * ((y * y) * (y * y))) % m, (2 * y * z) % m)
    }
}

/// The chord step of Jacobian addition (add-2007-bl) from `U1 = X1 Z2^2`, `U2 = X2 Z1^2`,
/// `S1 = Y1 Z2^3`, `S2 = Y2 Z1^3`: with `H = U2 - U1`, `I = (2H)^2`, `J = H I`,
/// `r = 2(S2 - S1)` and `V = U1 I`, `X3 = r^2 - J - 2V`, `Y3 = r(V - X3) - 2 S1 J`,
/// `Z3 = 2 Z1 Z2 H`.
pub open spec fn jac_chord(m: int, z1: int, z2: int, u1: int, u2: int, s1: int, s2: int) -> Jac {
    let h = u2 - u1;
    let i = (2 * h) * (2 * h);
    let j = h * i;
    let r = 2 * (s2 - s1);
    let v = u1 * i;
    let x3 = r * r - j - 2 * v;
    (x3 % m, (r * (v - x3) - 2 * s1 * j) % m, (2 * z1 * z2 * h) % m)
}

/// Jacobian addition: a summand at infinity gives the other summand; equal points are
/// doubled; otherwise the chord step.
pub open spec fn jac_add(m: int, a: int, p: Jac, q: Jac) -> Jac {
    if p.2 % m == 0 {
        q
    } else if q.2 % m == 0 {
        p
    } else {
        let z1z1 = p.2 * p.2;
        let z2z2 = q.2 * q.2;
        let u1 = p.0 * z2z2;
        let u2 = q.0 * z1z1;
        let s1 = p.1 * q.2 * z2z2;
        let s2 = q.1 * p.2 * z1z1;
        if u1 % m == u2 % m && s1 % m == s2 % m {
            jac_double(m, a, p)
        } else {
            jac_chord(m, p.2, q.2, u1, u2, s1, s2)
        }
    }
}

/// Steps of a proof that a value computed by reduced operations is congruent to a polynomial.
pub proof fn lemma_mul_step(m: int, u: int, v: int, uu: int, vv: int)
    requires
        m > 0,
        cong(m, u, uu),
        cong(m, v, vv),
    ensures
        cong(m, (u * v) % m, uu * vv),
{
    lemma_cong_mod(m, u * v);
    lemma_cong_mul(m, u, uu, v, vv);
}

pub proof fn lemma_add_step(m: int, u: int, v: int, uu: int, vv: int)
    requires
        m > 0,
        cong(m, u, uu),
        cong(m, v, vv),
    ensures
        cong(m, (u + v) % m, uu + vv),
{
    lemma_cong_mod(m, u + v);
    lemma_cong_add(m, u, uu, v, vv);
}

pub proof fn lemma_sub_step(m: int, u: int, v: int, uu: int, vv: int)
    requires
        m > 0,
        cong(m, u, uu),
        cong(m, v, vv),
    ensures
        cong(m, (u - v) % m, uu - vv),
{
    lemma_cong_mod(m, u - v);
    lemma_cong_sub(m, u, uu, v, vv);
}

/// The chord step gives the same residues for congruent inputs.
pub proof fn lemma_chord_cong(
    m: int,
    z1: int,
    z2: int,
    u1: int,
    u2: int,
    s1: int,
    s2: int,
    z1b: int,
    z2b: int,
    u1b: int,
    u2b: int,
    s1b: int,
    s2b: int,
)
    requires
        m > 0,
        cong(m, z1, z1b),
        cong(m, z2, z2b),
        cong(m, u1, u1b),
        cong(m, u2, u2b),
        cong(m, s1, s1b),
        cong(m, s2, s2b),
    ensures
        jac_chord(m, z1, z2, u1, u2, s1, s2) == jac_chord(m, z1b, z2b, u1b, u2b, s1b, s2b),
{
    let h = u2 - u1;
    let hb = u2b - u1b;
    lemma_cong_sub(m, u2, u2b, u1, u1b);
    lemma_cong_add(m, h, hb, h, hb);
    assert(2 * h == h + h && 2 * hb == hb + hb);
    lemma_cong_mul(m, 2 * h, 2 * hb, 2 * h, 2 * hb);
    let i = (2 * h) * (2 * h);
    let ib = (2 * hb) * (2 * hb);
    lemma_cong_mul(m, h, hb, i, ib);
    let j = h * i;
    let jb = hb * ib;
    lemma_cong_sub(m, s2, s2b, s1, s1b);
    lemma_cong_add(m, s2 - s1, s2b - s1b, s2 - s1, s2b - s1b);
    let r = 2 * (s2 - s1);
    let rb = 2 * (s2b - s1b);
    assert(r == (s2 - s1) + (s2 - s1) && rb == (s2b - s1b) + (s2b - s1b));
    lemma_cong_mul(m, u1, u1b, i, ib);
    let v = u1 * i;
    let vb = u1b * ib;
    lemma_cong_mul(m, r, rb, r, rb);
    lemma_cong_sub(m, r * r, rb * rb, j, jb);
    lemma_cong_add(m, v, vb, v, vb);
    lemma_cong_sub(m, r * r - j, rb * rb - jb, v + v, vb + vb);
    let x3 = r * r - j - 2 * v;
    let x3b = rb * rb - jb - 2 * vb;
    assert(x3 == r * r - j - (v + v) && x3b == rb * rb - jb - (vb + vb));
    lemma_cong_sub(m, v, vb, x3, x3b);
    lemma_cong_mul(m, r, rb, v - x3, vb - x3b);
    lemma_cong_mul(m, s1, s1b, j, jb);
    lemma_cong_add(m, s1 * j, s1b * jb, s1 * j, s1b * jb);
    assert(2 * s1 * j == s1 * j + s1 * j) by (nonlinear_arith);
    assert(2 * s1b * jb == s1b * jb + s1b * jb) by (nonlinear_arith);
    lemma_cong_sub(m, r * (v - x3), rb * (vb - x3b), 2 * s1 * j, 2 * s1b * jb);
    lemma_cong_mul(m, z1, z1b, z2, z2b);
    lemma_cong_mul(m, z1 * z2, z1b * z2b, h, hb);
    lemma_cong_add(m, z1 * z2 * h, z1b * z2b * hb, z1 * z2 * h, z1b * z2b * hb);
    assert(2 * z1 * z2 * h == z1 * z2 * h + z1 * z2 * h) by (nonlinear_arith);
    assert(2 * z1b * z2b * hb == z1b * z2b * hb + z1b * z2b * hb) by (nonlinear_arith);
}

/// `p` stands for the affine point `(x, y)`: `Z` is not zero, `X = x Z^2` and `Y = y Z^3`.
pub open spec fn represents(m: int, p: Jac, x: int, y: int) -> bool {
    &&& p.2 % m != 0
    &&& cong(m, p.0, x * (p.2 * p.2))
    &&& cong(m, p.1, y * (p.2 * p.2 * p.2))
}

/// A point with `Z` not zero stands for the reduced affine point given by `jac_to_aff`.
pub proof fn lemma_jac_to_aff_represents(m: int, p: Jac)
    requires
        is_prime(m),
        p.2 % m != 0,
    ensures
        jac_to_aff(m, p) matches AffPoint::Finite(x, y) && represents(m, p, x, y) && 0 <= x < m
            && 0 <= y < m,
{
    let (xx, yy, zz) = p;
    lemma_prime_invertible(m, zz);
    let w = inv(m, zz);
    let x = (xx * (w * w)) % m;
    let y = (yy * (w * w * w)) % m;
    lemma_mod_bound(xx * (w * w), m);
    lemma_mod_bound(yy * (w * w * w), m);
    lemma_small_mod(1, m as nat);
    // x Z^2 == X (w Z)^2 == X
    lemma_cong_mod(m, xx * (w * w));
    lemma_cong_mul(m, x, xx * (w * w), zz * zz, zz * zz);
    lemma_cong_mod(m, zz * w);
    lemma_cong_mul(m, zz * w, 1, zz * w, 1);
    lemma_cong_scale(m, xx, (zz * w) * (zz * w), 1);
    assert(xx * (w * w) * (zz * zz) == xx * ((zz * w) * (zz * w))) by (nonlinear_arith);
    // y Z^3 == Y (w Z)^3 == Y
    lemma_cong_mod(m, yy * (w * w * w));
    lemma_cong_mul(m, y, yy * (w * w * w), zz * zz * zz, zz * zz * zz);
    lemma_cong_mul(m, (zz * w) * (zz * w), 1, zz * w, 1);
    lemma_cong_scale(m, yy, (zz * w) * (zz * w) * (zz * w), 1);
    assert(yy * (w * w * w) * (zz * zz * zz) == yy * ((zz * w) * (zz * w) * (zz * w)))
        by (nonlinear_arith);
}

/// The affine point that a Jacobian point stands for is unique.
pub proof fn lemma_represents_unique(m: int, p: Jac, x: int, y: int)
    requires
        is_prime(m),
        represents(m, p, x, y),
        0 <= x < m,
        0 <= y < m,
    ensures
        jac_to_aff(m, p) == AffPoint::Finite(x, y),
{
    let zz = p.2;
    lemma_jac_to_aff_represents(m, p);
    let (x2, y2) = match jac_to_aff(m, p) {
        AffPoint::Finite(a, b) => (a, b),
        AffPoint::Infinity => (0, 0),
    };
    lemma_prime_product_nonzero(m, zz, zz);
    lemma_prime_product_nonzero(m, zz * zz, zz);
    assert(x * (zz * zz) == (zz * zz) * x && x2 * (zz * zz) == (zz * zz) * x2) by (nonlinear_arith);
    lemma_prime_cancel(m, zz * zz, x, x2);
    assert(y * (zz * zz * zz) == (zz * zz * zz) * y && y2 * (zz * zz * zz) == (zz * zz * zz) * y2)
        by (nonlinear_arith);
    lemma_prime_cancel(m, zz * zz * zz, y, y2);
    lemma_small_mod(x as nat, m as nat);
    lemma_small_mod(x2 as nat, m as nat);
    lemma_small_mod(y as nat, m as nat);
    lemma_small_mod(y2 as nat, m as nat);
}

proof fn lemma_double_x_identity(l: int, x: int, y: int, e: int)
    ensures
        (l * (2 * y) * e) * (l * (2 * y) * e) - 2 * (4 * (x * y * y * (e * e))) == (l * l - 2 * x)
            * (((2 * y) * e) * ((2 * y) * e)),
{
    assert((l * (2 * y) * e) * (l * (2 * y) * e) == 4 * (l * l) * (y * y) * (e * e))
        by (nonlinear_arith);
    assert(((2 * y) * e) * ((2 * y) * e) == 4 * (y * y) * (e * e)) by (nonlinear_arith);
    assert(4 * (x * y * y * (e * e)) == 4 * x * (y * y) * (e * e)) by (nonlinear_arith);
    assert((l * l - 2 * x) * (4 * (y * y) * (e * e)) == 4 * (l * l) * (y * y) * (e * e) - 2 * (4
        * x * (y * y) * (e * e))) by (nonlinear_arith);
}

proof fn lemma_double_y_identity(l: int, x: int, y: int, e: int)
    ensures
        ({
            let mi = l * (2 * y) * e;
            let si = 4 * (x * y * y * (e * e));
            let zi = (2 * y) * e;
            mi * (si - (mi * mi - 2 * si)) - 8 * (y * y * y * y * (e * e * e)) == (l * (x - (l * l
                - 2 * x)) - y) * (zi * zi * zi)
        }),
{
    let mi = l * (2 * y) * e;
    let si = 4 * (x * y * y * (e * e));
    let zi = (2 * y) * e;
    let e3 = e * e * e;
    let y3 = y * y * y;
    assert(mi * mi == 4 * (l * l) * (y * y) * (e * e)) by (nonlinear_arith)
        requires
            mi == l * (2 * y) * e,
    ;
    assert(si - (mi * mi - 2 * si) == (y * y) * (e * e) * (12 * x - 4 * (l * l))) by (nonlinear_arith)
        requires
            si == 4 * (x * y * y * (e * e)),
            mi * mi == 4 * (l * l) * (y * y) * (e * e),
    ;
    assert(mi * ((y * y) * (e * e) * (12 * x - 4 * (l * l))) == 2 * l * y3 * e3 * (12 * x - 4 * (l
        * l))) by (nonlinear_arith)
        requires
            mi == l * (2 * y) * e,
            e3 == e * e * e,
            y3 == y * y * y,
    ;
    assert(zi * zi * zi == 8 * (y3 * e3)) by (nonlinear_arith)
        requires
            zi == (2 * y) * e,
            e3 == e * e * e,
            y3 == y * y * y,
    ;
    assert(y * y * y * y * (e * e * e) == y * y3 * e3) by (nonlinear_arith)
        requires
            e3 == e * e * e,
            y3 == y * y * y,
    ;
    let w = y3 * e3;
    assert(2 * l * y3 * e3 * (12 * x - 4 * (l * l)) == 24 * (l * x) * w - 8 * (l * l * l) * w)
        by (nonlinear_arith)
        requires
            w == y3 * e3,
    ;
    assert(y * y3 * e3 == y * w) by (nonlinear_arith)
        requires
            w == y3 * e3,
    ;
    assert(l * (x - (l * l - 2 * x)) == 3 * (l * x) - l * l * l) by (nonlinear_arith);
    assert((3 * (l * x) - l * l * l - y) * (8 * w) == 24 * (l * x) * w - 8 * (l * l * l) * w - 8 * (
    y * w)) by (nonlinear_arith);
    let k = si - (mi * mi - 2 * si);
    assert(mi * k == 2 * l * y3 * e3 * (12 * x - 4 * (l * l))) by (nonlinear_arith)
        requires
            k == (y * y) * (e * e) * (12 * x - 4 * (l * l)),
            mi * ((y * y) * (e * e) * (12 * x - 4 * (l * l))) == 2 * l * y3 * e3 * (12 * x - 4 * (l
                * l)),
    ;
    let c = l * (x - (l * l - 2 * x)) - y;
    assert(c * (zi * zi * zi) == (3 * (l * x) - l * l * l - y) * (8 * w)) by (nonlinear_arith)
        requires
            c == 3 * (l * x) - l * l * l - y,
            zi * zi * zi == 8 * w,
    ;
}

/// Powers of `Z` that the doubling proof needs, as products of `Z^2`.
proof fn lemma_z_powers(z: int, x: int, y: int)
    ensures
        ({
            let z2 = z * z;
            let z3 = z * z * z;
            let e = z2 * z2;
            &&& z3 * z == e
            &&& (x * z2) * ((y * z3) * (y * z3)) == x * y * y * (e * e)
            &&& ((y * z3) * (y * z3)) * ((y * z3) * (y * z3)) == y * y * y * y * (e * e * e)
        }),
{
    let z2 = z * z;
    let z3 = z * z * z;
    let e = z2 * z2;
    assert(z3 * z == e) by (nonlinear_arith)
        requires
            z2 == z * z,
            z3 == z * z * z,
            e == z2 * z2,
    ;
    assert((y * z3) * (y * z3) == y * y * (e * z2)) by (nonlinear_arith)
        requires
            z2 == z * z,
            z3 == z * z * z,
            e == z2 * z2,
    ;
    assert((x * z2) * (y * y * (e * z2)) == x * y * y * (e * e)) by (nonlinear_arith)
        requires
            e == z2 * z2,
    ;
    assert((y * y * (e * z2)) * (y * y * (e * z2)) == y * y * y * y * (e * e * e)) by (nonlinear_arith)
        requires
            e == z2 * z2,
    ;
}

/// Jacobian doubling computes the tangent doubling of the affine point.
pub proof fn lemma_double_correct(m: int, a: int, p: Jac)
    requires
        is_prime(m),
        m > 2,
    ensures
        jac_to_aff(m, jac_double(m, a, p)) == aff_double(m, a, jac_to_aff(m, p)),
{
    let (xx, yy, zz) = p;
    if zz % m == 0 {
        return;
    }
    lemma_jac_to_aff_represents(m, p);
    let (x, y) = match jac_to_aff(m, p) {
        AffPoint::Finite(a, b) => (a, b),
        AffPoint::Infinity => (0, 0),
    };
    let z2 = zz * zz;
    let z3 = zz * zz * zz;
    let e = z2 * z2;
    lemma_z_powers(zz, x, y);
    let q = jac_double(m, a, p);
    let s = 4 * xx * (yy * yy);
    let mm = 3 * (xx * xx) + a * ((zz * zz) * (zz * zz));
    let x3p = mm * mm - 2 * s;
    let y3p = mm * (s - x3p) - 8 * ((yy * yy) * (yy * yy));
    let z3p = 2 * yy * zz;
    lemma_small_mod(2, m as nat);
    lemma_small_mod(0, m as nat);
    // Z3 == 2 y Z^4
    lemma_cong_mul(m, yy, y * z3, zz, zz);
    lemma_cong_scale(m, 2, yy * zz, y * z3 * zz);
    assert(z3p == 2 * (yy * zz)) by (nonlinear_arith)
        requires
            z3p == 2 * yy * zz,
    ;
    assert(2 * (y * z3 * zz) == (2 * y) * e) by (nonlinear_arith)
        requires
            z3 * zz == e,
    ;
    lemma_cong_mod(m, z3p);
    if (2 * y) % m == 0 {
        // y == 0, hence Z3 == 0
        lemma_prime_product_zero(m, 2, y);
        lemma_cong_scale(m, 2 * e, y, 0);
        assert((2 * y) * e == (2 * e) * y) by (nonlinear_arith);
        return;
    }
    // 2y and Z are not zero, hence Z3 is not zero
    let t = 2 * y;
    lemma_prime_product_nonzero(m, zz, zz);
    lemma_prime_product_nonzero(m, z2, z2);
    lemma_prime_product_nonzero(m, t, e);
    assert(q.2 % m != 0);
    // the slope: l * 2y == 3x^2 + a
    lemma_prime_invertible(m, t);
    let l = ((3 * x * x + a) * inv(m, t)) % m;
    lemma_cong_mod(m, (3 * x * x + a) * inv(m, t));
    lemma_cong_mul(m, l, (3 * x * x + a) * inv(m, t), t, t);
    lemma_cong_mod(m, t * inv(m, t));
    lemma_cong_scale(m, 3 * x * x + a, t * inv(m, t), 1);
    assert((3 * x * x + a) * inv(m, t) * t == (3 * x * x + a) * (t * inv(m, t))) by (nonlinear_arith);
    assert(cong(m, l * t, 3 * x * x + a));
    let x3 = (l * l - 2 * x) % m;
    let y3 = (l * (x - x3) - y) % m;
    lemma_mod_bound(l * l - 2 * x, m);
    lemma_mod_bound(l * (x - x3) - y, m);
    // M == 2 y l Z^4
    let xi = x * z2;
    let yi = y * z3;
    lemma_cong_mul(m, xx, xi, xx, xi);
    lemma_cong_scale(m, 3, xx * xx, xi * xi);
    lemma_cong_add(m, 3 * (xx * xx), 3 * (xi * xi), a * e, a * e);
    assert(3 * (xi * xi) + a * e == (3 * x * x + a) * e) by (nonlinear_arith)
        requires
            xi == x * z2,
            e == z2 * z2,
    ;
    lemma_cong_mul(m, 3 * x * x + a, l * t, e, e);
    let mi = l * t * e;
    assert(cong(m, mm, mi));
    // S == 4 x y^2 Z^8
    lemma_cong_mul(m, yy, yi, yy, yi);
    lemma_cong_mul(m, xx, xi, yy * yy, yi * yi);
    lemma_cong_scale(m, 4, xx * (yy * yy), xi * (yi * yi));
    let si = 4 * (x * y * y * (e * e));
    assert(s == 4 * (xx * (yy * yy))) by (nonlinear_arith)
        requires
            s == 4 * xx * (yy * yy),
    ;
    assert(cong(m, s, si));
    // X3 == x3 Z3^2
    lemma_cong_mul(m, mm, mi, mm, mi);
    lemma_cong_scale(m, 2, s, si);
    lemma_cong_sub(m, mm * mm, mi * mi, 2 * s, 2 * si);
    let zi = t * e;
    lemma_cong_mod(m, l * l - 2 * x);
    lemma_cong_mul(m, q.2, zi, q.2, zi);
    lemma_cong_mul(m, x3, l * l - 2 * x, q.2 * q.2, zi * zi);
    lemma_double_x_identity(l, x, y, e);
    lemma_cong_mod(m, x3p);
    assert(cong(m, q.0, x3 * (q.2 * q.2)));
    // Y3 == y3 Z3^3
    lemma_cong_sub(m, s, si, x3p, mi * mi - 2 * si);
    lemma_cong_mul(m, mm, mi, s - x3p, si - (mi * mi - 2 * si));
    lemma_cong_mul(m, yy * yy, yi * yi, yy * yy, yi * yi);
    lemma_cong_scale(m, 8, (yy * yy) * (yy * yy), (yi * yi) * (yi * yi));
    lemma_cong_sub(
        m,
        mm * (s - x3p),
        mi * (si - (mi * mi - 2 * si)),
        8 * ((yy * yy) * (yy * yy)),
        8 * ((yi * yi) * (yi * yi)),
    );
    lemma_cong_mod(m, l * (x - x3) - y);
    lemma_cong_sub(m, x, x, x3, l * l - 2 * x);
    lemma_cong_scale(m, l, x - x3, x - (l * l - 2 * x));
    lemma_cong_sub(m, l * (x - x3), l * (x - (l * l - 2 * x)), y, y);
    lemma_cong_mul(m, q.2 * q.2, zi * zi, q.2, zi);
    lemma_cong_mul(m, y3, l * (x - (l * l - 2 * x)) - y, q.2 * q.2 * q.2, zi * zi * zi);
    lemma_double_y_identity(l, x, y, e);
    lemma_cong_mod(m, y3p);
    assert(cong(m, q.1, y3 * (q.2 * q.2 * q.2)));
    lemma_represents_unique(m, q, x3, y3);
}

/// The chord identities for the x-coordinate, with `h = d w^2`, `r = 2 l d w^3`.
proof fn lemma_chord_x_identity(l: int, d: int, x1: int, w: int)
    ensures
        ({
            let x2 = x1 + d;
            let h = x2 * (w * w) - x1 * (w * w);
            let i = (2 * h) * (2 * h);
            let j = h * i;
            let v = x1 * (w * w) * i;
            let r = 2 * (l * d * (w * w * w));
            let z3 = 2 * d * (w * w * w);
            r * r - j - 2 * v == (l * l - x1 - x2) * (z3 * z3)
        }),
{
    let x2 = x1 + d;
    let g = w * w;
    let g3 = w * w * w;
    let h = x2 * (w * w) - x1 * (w * w);
    assert(h == d * g) by (nonlinear_arith)
        requires
            x2 == x1 + d,
            h == x2 * (w * w) - x1 * (w * w),
            g == w * w,
    ;
    let i = (2 * h) * (2 * h);
    let j = h * i;
    let v = x1 * (w * w) * i;
    let r = 2 * (l * d * g3);
    let z3 = 2 * d * g3;
    let k = d * d * (g3 * g3);
    assert(g * g * g == g3 * g3) by (nonlinear_arith)
        requires
            g == w * w,
            g3 == w * w * w,
    ;
    assert(i == 4 * (d * d) * (g * g)) by (nonlinear_arith)
        requires
            i == (2 * h) * (2 * h),
            h == d * g,
    ;
    assert(j == 4 * d * k) by (nonlinear_arith)
        requires
            j == h * i,
            h == d * g,
            i == 4 * (d * d) * (g * g),
            g * g * g == g3 * g3,
            k == d * d * (g3 * g3),
    ;
    assert(v == 4 * x1 * k) by (nonlinear_arith)
        requires
            v == x1 * (w * w) * i,
            g == w * w,
            i == 4 * (d * d) * (g * g),
            g * g * g == g3 * g3,
            k == d * d * (g3 * g3),
    ;
    assert(r * r == 4 * (l * l) * k) by (nonlinear_arith)
        requires
            r == 2 * (l * d * g3),
            k == d * d * (g3 * g3),
    ;
    assert(z3 * z3 == 4 * k) by (nonlinear_arith)
        requires
            z3 == 2 * d * g3,
            k == d * d * (g3 * g3),
    ;
    assert((l * l - x1 - x2) * (4 * k) == 4 * (l * l) * k - 4 * d * k - 2 * (4 * x1 * k))
        by (nonlinear_arith)
        requires
            x2 == x1 + d,
    ;
}

/// The chord identities for the y-coordinate.
proof fn lemma_chord_y_identity(l: int, d: int, x1: int, y1: int, w: int)
    ensures
        ({
            let x2 = x1 + d;
            let h = x2 * (w * w) - x1 * (w * w);
            let i = (2 * h) * (2 * h);
            let j = h * i;
            let v = x1 * (w * w) * i;
            let r = 2 * (l * d * (w * w * w));
            let z3 = 2 * d * (w * w * w);
            let x3 = r * r - j - 2 * v;
            r * (v - x3) - 2 * (y1 * (w * w * w)) * j == (l * (x1 - (l * l - x1 - x2)) - y1) * (z3
                * z3 * z3)
        }),
{
    let x2 = x1 + d;
    let g = w * w;
    let g3 = w * w * w;
    let h = x2 * (w * w) - x1 * (w * w);
    let i = (2 * h) * (2 * h);
    let j = h * i;
    let v = x1 * (w * w) * i;
    let r = 2 * (l * d * g3);
    let z3 = 2 * d * g3;
    let x3 = r * r - j - 2 * v;
    let k = d * d * (g3 * g3);
    lemma_chord_x_identity(l, d, x1, w);
    assert(h == d * g) by (nonlinear_arith)
        requires
            x2 == x1 + d,
            h == x2 * (w * w) - x1 * (w * w),
            g == w * w,
    ;
    assert(g * g * g == g3 * g3) by (nonlinear_arith)
        requires
            g == w * w,
            g3 == w * w * w,
    ;
    assert(i == 4 * (d * d) * (g * g)) by (nonlinear_arith)
        requires
            i == (2 * h) * (2 * h),
            h == d * g,
    ;
    assert(j == 4 * d * k) by (nonlinear_arith)
        requires
            j == h * i,
            h == d * g,
            i == 4 * (d * d) * (g * g),
            g * g * g == g3 * g3,
            k == d * d * (g3 * g3),
    ;
    assert(v == 4 * x1 * k) by (nonlinear_arith)
        requires
            v == x1 * (w * w) * i,
            g == w * w,
            i == 4 * (d * d) * (g * g),
            g * g * g == g3 * g3,
            k == d * d * (g3 * g3),
    ;
    assert(z3 * z3 == 4 * k) by (nonlinear_arith)
        requires
            z3 == 2 * d * g3,
            k == d * d * (g3 * g3),
    ;
    let t = x1 - (l * l - x1 - x2);
    assert(x3 == (l * l - x1 - x2) * (4 * k));
    assert(v - x3 == 4 * k * t) by (nonlinear_arith)
        requires
            v == 4 * x1 * k,
            x3 == (l * l - x1 - x2) * (4 * k),
            t == x1 - (l * l - x1 - x2),
    ;
    let q = d * g3 * k;
    assert(r * (4 * k * t) == 8 * l * t * q) by (nonlinear_arith)
        requires
            r == 2 * (l * d * g3),
            q == d * g3 * k,
    ;
    assert(2 * (y1 * g3) * j == 8 * y1 * q) by (nonlinear_arith)
        requires
            j == 4 * d * k,
            q == d * g3 * k,
    ;
    assert(z3 * z3 * z3 == 8 * q) by (nonlinear_arith)
        requires
            z3 * z3 == 4 * k,
            z3 == 2 * d * g3,
            q == d * g3 * k,
    ;
    assert((l * t - y1) * (8 * q) == 8 * l * t * q - 8 * y1 * q) by (nonlinear_arith);
    assert(r * (v - x3) == 8 * l * t * q);
}

/// Jacobian addition computes the chord-and-tangent sum of the affine points.
pub proof fn lemma_add_correct(m: int, a: int, p: Jac, q: Jac)
    requires
        is_prime(m),
        m > 2,
    ensures
        jac_to_aff(m, jac_add(m, a, p, q)) == aff_add(m, a, jac_to_aff(m, p), jac_to_aff(m, q)),
{
    let (x1p, y1p, z1) = p;
    let (x2p, y2p, z2) = q;
    if z1 % m == 0 || z2 % m == 0 {
        return;
    }
    lemma_jac_to_aff_represents(m, p);
    lemma_jac_to_aff_represents(m, q);
    let (x1, y1) = match jac_to_aff(m, p) {
        AffPoint::Finite(a, b) => (a, b),
        AffPoint::Infinity => (0, 0),
    };
    let (x2, y2) = match jac_to_aff(m, q) {
        AffPoint::Finite(a, b) => (a, b),
        AffPoint::Infinity => (0, 0),
    };
    let w = z1 * z2;
    let u1 = x1p * (z2 * z2);
    let u2 = x2p * (z1 * z1);
    let s1 = y1p * z2 * (z2 * z2);
    let s2 = y2p * z1 * (z1 * z1);
    // U1 == x1 W^2, U2 == x2 W^2, S1 == y1 W^3, S2 == y2 W^3
    lemma_cong_mul(m, x1p, x1 * (z1 * z1), z2 * z2, z2 * z2);
    lemma_cong_mul(m, x2p, x2 * (z2 * z2), z1 * z1, z1 * z1);
    lemma_cong_mul(m, y1p, y1 * (z1 * z1 * z1), z2 * (z2 * z2), z2 * (z2 * z2));
    lemma_cong_mul(m, y2p, y2 * (z2 * z2 * z2), z1 * (z1 * z1), z1 * (z1 * z1));
    assert(x1 * (z1 * z1) * (z2 * z2) == x1 * (w * w)) by (nonlinear_arith)
        requires
            w == z1 * z2,
    ;
    assert(x2 * (z2 * z2) * (z1 * z1) == x2 * (w * w)) by (nonlinear_arith)
        requires
            w == z1 * z2,
    ;
    assert(y1 * (z1 * z1 * z1) * (z2 * (z2 * z2)) == y1 * (w * w * w)) by (nonlinear_arith)
        requires
            w == z1 * z2,
    ;
    assert(y2 * (z2 * z2 * z2) * (z1 * (z1 * z1)) == y2 * (w * w * w)) by (nonlinear_arith)
        requires
            w == z1 * z2,
    ;
    assert(u1 == x1p * (z2 * z2) && u2 == x2p * (z1 * z1));
    assert(s1 == y1p * (z2 * (z2 * z2))) by (nonlinear_arith)
        requires
            s1 == y1p * z2 * (z2 * z2),
    ;
    assert(s2 == y2p * (z1 * (z1 * z1))) by (nonlinear_arith)
        requires
            s2 == y2p * z1 * (z1 * z1),
    ;
    let g = w * w;
    let g3 = w * w * w;
    assert(cong(m, u1, x1 * g));
    assert(cong(m, u2, x2 * g));
    assert(cong(m, s1, y1 * g3));
    assert(cong(m, s2, y2 * g3));
    lemma_prime_product_nonzero(m, z1, z2);
    lemma_prime_product_nonzero(m, w, w);
    lemma_prime_product_nonzero(m, g, w);
    assert(x1 * g == g * x1 && x2 * g == g * x2 && y1 * g3 == g3 * y1 && y2 * g3 == g3 * y2)
        by (nonlinear_arith);
    lemma_small_mod(x1 as nat, m as nat);
    lemma_small_mod(x2 as nat, m as nat);
    lemma_small_mod(y1 as nat, m as nat);
    lemma_small_mod(y2 as nat, m as nat);
    if u1 % m == u2 % m {
        lemma_prime_cancel(m, g, x1, x2);
    }
    if s1 % m == s2 % m {
        lemma_prime_cancel(m, g3, y1, y2);
    }
    if u1 % m == u2 % m && s1 % m == s2 % m {
        lemma_double_correct(m, a, p);
        return;
    }
    // the chord step with the inputs replaced by their affine forms
    lemma_chord_cong(m, z1, z2, u1, u2, s1, s2, z1, z2, x1 * g, x2 * g, y1 * g3, y2 * g3);
    let c = jac_chord(m, z1, z2, x1 * g, x2 * g, y1 * g3, y2 * g3);
    let d = x2 - x1;
    let h = x2 * g - x1 * g;
    assert(h == d * g) by (nonlinear_arith)
        requires
            h == x2 * g - x1 * g,
            d == x2 - x1,
    ;
    assert(2 * z1 * z2 * h == 2 * d * g3) by (nonlinear_arith)
        requires
            h == d * g,
            w == z1 * z2,
            g == w * w,
            g3 == w * w * w,
    ;
    lemma_small_mod(0, m as nat);
    if x1 == x2 {
        assert(c.2 == 0);
        return;
    }
    // d is not zero modulo m
    lemma_small_nonzero_mod(m, d);
    lemma_small_mod(2, m as nat);
    lemma_prime_product_nonzero(m, d, g3);
    lemma_prime_product_nonzero(m, 2, d * g3);
    assert(2 * d * g3 == 2 * (d * g3)) by (nonlinear_arith);
    assert(c.2 % m != 0) by {
        lemma_cong_mod(m, 2 * d * g3);
    }
    // the slope l * d == y2 - y1
    lemma_prime_invertible(m, d);
    let l = ((y2 - y1) * inv(m, d)) % m;
    lemma_cong_mod(m, (y2 - y1) * inv(m, d));
    lemma_cong_mul(m, l, (y2 - y1) * inv(m, d), d, d);
    lemma_cong_mod(m, d * inv(m, d));
    lemma_cong_scale(m, y2 - y1, d * inv(m, d), 1);
    assert((y2 - y1) * inv(m, d) * d == (y2 - y1) * (d * inv(m, d))) by (nonlinear_arith);
    assert(cong(m, l * d, y2 - y1));
    let x3 = (l * l - x1 - x2) % m;
    let y3 = (l * (x1 - x3) - y1) % m;
    lemma_mod_bound(l * l - x1 - x2, m);
    lemma_mod_bound(l * (x1 - x3) - y1, m);
    // r == 2 l d W^3
    let i = (2 * h) * (2 * h);
    let j = h * i;
    let v = x1 * g * i;
    let r = 2 * (y2 * g3 - y1 * g3);
    let ri = 2 * (l * d * g3);
    lemma_cong_mul(m, y2 - y1, l * d, g3, g3);
    lemma_cong_scale(m, 2, (y2 - y1) * g3, l * d * g3);
    assert(r == 2 * ((y2 - y1) * g3)) by (nonlinear_arith)
        requires
            r == 2 * (y2 * g3 - y1 * g3),
    ;
    assert(cong(m, r, ri));
    // X3 == x3 Z3^2
    let z3 = 2 * d * g3;
    let x3r = r * r - j - 2 * v;
    let x3i = ri * ri - j - 2 * v;
    lemma_cong_mul(m, r, ri, r, ri);
    lemma_cong_sub(m, r * r, ri * ri, j + 2 * v, j + 2 * v);
    assert(x3r == r * r - (j + 2 * v) && x3i == ri * ri - (j + 2 * v));
    lemma_chord_x_identity(l, d, x1, w);
    assert(x2 == x1 + d);
    lemma_cong_mod(m, l * l - x1 - x2);
    lemma_cong_mod(m, z3);
    lemma_cong_mul(m, c.2, z3, c.2, z3);
    lemma_cong_mul(m, x3, l * l - x1 - x2, c.2 * c.2, z3 * z3);
    lemma_cong_mod(m, x3r);
    assert(cong(m, c.0, x3 * (c.2 * c.2)));
    // Y3 == y3 Z3^3
    let y3r = r * (v - x3r) - 2 * (y1 * g3) * j;
    let y3i = ri * (v - x3i) - 2 * (y1 * g3) * j;
    lemma_cong_sub(m, v, v, x3r, x3i);
    lemma_cong_mul(m, r, ri, v - x3r, v - x3i);
    lemma_cong_sub(m, r * (v - x3r), ri * (v - x3i), 2 * (y1 * g3) * j, 2 * (y1 * g3) * j);
    lemma_chord_y_identity(l, d, x1, y1, w);
    lemma_cong_mod(m, l * (x1 - x3) - y1);
    lemma_cong_sub(m, x1, x1, x3, l * l - x1 - x2);
    lemma_cong_scale(m, l, x1 - x3, x1 - (l * l - x1 - x2));
    lemma_cong_sub(m, l * (x1 - x3), l * (x1 - (l * l - x1 - x2)), y1, y1);
    lemma_cong_mul(m, c.2 * c.2, z3 * z3, c.2, z3);
    lemma_cong_mul(m, y3, l * (x1 - (l * l - x1 - x2)) - y1, c.2 * c.2 * c.2, z3 * z3 * z3);
    assert(2 * y1 * g3 * j == 2 * (y1 * g3) * j) by (nonlinear_arith);
    lemma_cong_mod(m, y3r);
    assert(cong(m, c.1, y3 * (c.2 * c.2 * c.2)));
    lemma_represents_unique(m, c, x3, y3);
}

/// A reduced affine point with `Z = 1` stands for itself.
pub proof fn lemma_jac_one(m: int, x: int, y: int)
    requires
        is_prime(m),
        0 <= x < m,
        0 <= y < m,
    ensures
        jac_to_aff(m, (x, y, 1)) == AffPoint::Finite(x, y),
{
    lemma_small_mod(1, m as nat);
    assert(x * (1 * 1) == x && y * (1 * 1 * 1) == y);
    lemma_represents_unique(m, (x, y, 1), x, y);
}

/// Two Jacobian points with `Z` not zero stand for the same affine point exactly when
/// `X1 Z2^2 = X2 Z1^2` and `Y1 Z2^3 = Y2 Z1^3`.
pub proof fn lemma_cross_compare(m: int, p: Jac, q: Jac)
    requires
        is_prime(m),
        p.2 % m != 0,
        q.2 % m != 0,
    ensures
        ((p.0 * (q.2 * q.2)) % m == (q.0 * (p.2 * p.2)) % m && (p.1 * ((q.2 * q.2) * q.2)) % m == (
        q.1 * ((p.2 * p.2) * p.2)) % m) <==> jac_to_aff(m, p) == jac_to_aff(m, q),
{
    let (x1p, y1p, z1) = p;
    let (x2p, y2p, z2) = q;
    lemma_jac_to_aff_represents(m, p);
    lemma_jac_to_aff_represents(m, q);
    let (x1, y1) = match jac_to_aff(m, p) {
        AffPoint::Finite(a, b) => (a, b),
        AffPoint::Infinity => (0, 0),
    };
    let (x2, y2) = match jac_to_aff(m, q) {
        AffPoint::Finite(a, b) => (a, b),
        AffPoint::Infinity => (0, 0),
    };
    let w = z1 * z2;
    let g = w * w;
    let g3 = w * w * w;
    lemma_cong_mul(m, x1p, x1 * (z1 * z1), z2 * z2, z2 * z2);
    lemma_cong_mul(m, x2p, x2 * (z2 * z2), z1 * z1, z1 * z1);
    lemma_cong_mul(m, y1p, y1 * (z1 * z1 * z1), (z2 * z2) * z2, (z2 * z2) * z2);
    lemma_cong_mul(m, y2p, y2 * (z2 * z2 * z2), (z1 * z1) * z1, (z1 * z1) * z1);
    assert(x1 * (z1 * z1) * (z2 * z2) == g * x1) by (nonlinear_arith)
        requires
            w == z1 * z2,
            g == w * w,
    ;
    assert(x2 * (z2 * z2) * (z1 * z1) == g * x2) by (nonlinear_arith)
        requires
            w == z1 * z2,
            g == w * w,
    ;
    assert(y1 * (z1 * z1 * z1) * ((z2 * z2) * z2) == g3 * y1) by (nonlinear_arith)
        requires
            w == z1 * z2,
            g3 == w * w * w,
    ;
    assert(y2 * (z2 * z2 * z2) * ((z1 * z1) * z1) == g3 * y2) by (nonlinear_arith)
        requires
            w == z1 * z2,
            g3 == w * w * w,
    ;
    lemma_prime_product_nonzero(m, z1, z2);
    lemma_prime_product_nonzero(m, w, w);
    lemma_prime_product_nonzero(m, g, w);
    lemma_small_mod(x1 as nat, m as nat);
    lemma_small_mod(x2 as nat, m as nat);
    lemma_small_mod(y1 as nat, m as nat);
    lemma_small_mod(y2 as nat, m as nat);
    if (p.0 * (q.2 * q.2)) % m == (q.0 * (p.2 * p.2)) % m {
        lemma_prime_cancel(m, g, x1, x2);
    }
    if (p.1 * ((q.2 * q.2) * q.2)) % m == (q.1 * ((p.2 * p.2) * p.2)) % m {
        lemma_prime_cancel(m, g3, y1, y2);
    }
}

/// Double-and-add over big-endian bits in the affine group law: for each bit the
/// accumulator is doubled, and `base` is added when the bit is set.
pub open spec fn aff_mul_bits(m: int, a: int, base: AffPoint, bits: Seq<bool>) -> AffPoint
    decreases bits.len(),
{
    if bits.len() == 0 {
        AffPoint::Infinity
    } else {
        let r = aff_double(m, a, aff_mul_bits(m, a, base, bits.drop_last()));
        if bits.last() {
            aff_add(m, a, r, base)
        } else {
            r
        }
    }
}

/// The Jacobian point at infinity `(1, 1, 0)`.
pub open spec fn jac_zero() -> Jac {
    (1, 1, 0)
}

/// Double-and-add in Jacobian coordinates with mixed additions of an affine base.
pub open spec fn jac_mul_bits(m: int, a: int, base: AffPoint, bits: Seq<bool>) -> Jac
    decreases bits.len(),
{
    if bits.len() == 0 {
        jac_zero()
    } else {
        let r = jac_double(m, a, jac_mul_bits(m, a, base, bits.drop_last()));
        match base {
            AffPoint::Finite(x, y) => if bits.last() {
                jac_add(m, a, r, (x, y, 1))
            } else {
                r
            },
            AffPoint::Infinity => r,
        }
    }
}

/// Double-and-add in Jacobian coordinates with full additions of a Jacobian base.
pub open spec fn jac_mul_bits_full(m: int, a: int, base: Jac, bits: Seq<bool>) -> Jac
    decreases bits.len(),
{
    if bits.len() == 0 {
        jac_zero()
    } else {
        let r = jac_double(m, a, jac_mul_bits_full(m, a, base, bits.drop_last()));
        if bits.last() {
            jac_add(m, a, r, base)
        } else {
            r
        }
    }
}

/// Leading zero bits leave double-and-add at the point at infinity.
pub proof fn lemma_jac_mul_bits_prefix(m: int, a: int, base: AffPoint, bits: Seq<bool>, k: int)
    requires
        m > 1,
        0 <= k <= bits.len(),
        forall|j: int| 0 <= j < k ==> !#[trigger] bits[j],
    ensures
        jac_mul_bits(m, a, base, bits) == jac_mul_bits(m, a, base, bits.subrange(k, bits.len() as int)),
    decreases bits.len(),
{
    lemma_small_mod(0, m as nat);
    if bits.len() == 0 {
        assert(bits.subrange(k, 0) =~= bits);
    } else if bits.len() == k {
        lemma_jac_mul_bits_prefix(m, a, base, bits.drop_last(), k - 1);
        assert(bits.drop_last().subrange(k - 1, bits.len() - 1) =~= Seq::<bool>::empty());
        assert(bits.subrange(k, k) =~= Seq::<bool>::empty());
        assert(!bits.last());
    } else {
        lemma_jac_mul_bits_prefix(m, a, base, bits.drop_last(), k);
        assert(bits.subrange(k, bits.len() as int).drop_last() =~= bits.drop_last().subrange(
            k,
            bits.len() - 1,
        ));
    }
}

/// The same for full additions.
pub proof fn lemma_jac_mul_bits_full_prefix(m: int, a: int, base: Jac, bits: Seq<bool>, k: int)
    requires
        m > 1,
        0 <= k <= bits.len(),
        forall|j: int| 0 <= j < k ==> !#[trigger] bits[j],
    ensures
        jac_mul_bits_full(m, a, base, bits) == jac_mul_bits_full(
            m,
            a,
            base,
            bits.subrange(k, bits.len() as int),
        ),
    decreases bits.len(),
{
    lemma_small_mod(0, m as nat);
    if bits.len() == 0 {
        assert(bits.subrange(k, 0) =~= bits);
    } else if bits.len() == k {
        lemma_jac_mul_bits_full_prefix(m, a, base, bits.drop_last(), k - 1);
        assert(bits.drop_last().subrange(k - 1, bits.len() - 1) =~= Seq::<bool>::empty());
        assert(bits.subrange(k, k) =~= Seq::<bool>::empty());
        assert(!bits.last());
    } else {
        lemma_jac_mul_bits_full_prefix(m, a, base, bits.drop_last(), k);
        assert(bits.subrange(k, bits.len() as int).drop_last() =~= bits.drop_last().subrange(
            k,
            bits.len() - 1,
        ));
    }
}

/// Jacobian double-and-add with mixed additions computes affine double-and-add.
pub proof fn lemma_mul_bits_correct(m: int, a: int, base: AffPoint, bits: Seq<bool>)
    requires
        is_prime(m),
        m > 2,
        base matches AffPoint::Finite(x, y) ==> 0 <= x < m && 0 <= y < m,
    ensures
        jac_to_aff(m, jac_mul_bits(m, a, base, bits)) == aff_mul_bits(m, a, base, bits),
    decreases bits.len(),
{
    lemma_small_mod(0, m as nat);
    if bits.len() > 0 {
        lemma_mul_bits_correct(m, a, base, bits.drop_last());
        let r = jac_double(m, a, jac_mul_bits(m, a, base, bits.drop_last()));
        lemma_double_correct(m, a, jac_mul_bits(m, a, base, bits.drop_last()));
        match base {
            AffPoint::Finite(x, y) => {
                lemma_add_correct(m, a, r, (x, y, 1));
                lemma_jac_one(m, x, y);
            },
            AffPoint::Infinity => {},
        }
    }
}

/// Jacobian double-and-add with full additions computes affine double-and-add.
pub proof fn lemma_mul_bits_full_correct(m: int, a: int, base: Jac, bits: Seq<bool>)
    requires
        is_prime(m),
        m > 2,
    ensures
        jac_to_aff(m, jac_mul_bits_full(m, a, base, bits)) == aff_mul_bits(
            m,
            a,
            jac_to_aff(m, base),
            bits,
        ),
    decreases bits.len(),
{
    lemma_small_mod(0, m as nat);
    if bits.len() > 0 {
        lemma_mul_bits_full_correct(m, a, base, bits.drop_last());
        let r = jac_double(m, a, jac_mul_bits_full(m, a, base, bits.drop_last()));
        lemma_double_correct(m, a, jac_mul_bits_full(m, a, base, bits.drop_last()));
        lemma_add_correct(m, a, r, base);
    }
}

/// The sum of a sequence of points, added from the first to the last.
pub open spec fn aff_sum(m: int, a: int, pts: Seq<AffPoint>) -> AffPoint
    decreases pts.len(),
{
    if pts.len() == 0 {
        AffPoint::Infinity
    } else {
        aff_add(m, a, aff_sum(m, a, pts.drop_last()), pts.last())
    }
}

} // verus!
