//! Number theory modulo `m`: congruences, divisibility, Bezout coefficients, inverses
//! modulo a prime and the two square roots of a residue.
use vstd::prelude::*;
use vstd::arithmetic::div_mod::*;
use vstd::arithmetic::mul::*;

verus! {

/// `a` and `b` are congruent modulo `m`.
pub open spec fn cong(m: int, a: int, b: int) -> bool {
    a % m == b % m
}

/// `p` is a prime number.
pub open spec fn is_prime(p: int) -> bool {
    &&& p > 1
    &&& forall|d: int| 1 < d < p ==> #[trigger] (p % d) != 0
}

/// `d` divides `x`.
pub open spec fn divides(d: int, x: int) -> bool {
    x % d == 0
}

/// Some residue multiplied by `a` gives one modulo `m`.
pub open spec fn is_invertible(m: int, a: int) -> bool {
    exists|w: int| 0 <= w < m && #[trigger] ((a * w) % m) == 1
}

/// The inverse of `a` modulo `m`, where it exists.
pub open spec fn inv(m: int, a: int) -> int {
    choose|w: int| 0 <= w < m && #[trigger] ((a * w) % m) == 1
}

pub proof fn lemma_cong_mod(m: int, a: int)
    requires
        m > 0,
    ensures
        cong(m, a % m, a),
{
    lemma_mod_twice(a, m);
}

pub proof fn lemma_cong_add(m: int, a1: int, b1: int, a2: int, b2: int)
    requires
        m > 0,
        cong(m, a1, b1),
        cong(m, a2, b2),
    ensures
        cong(m, a1 + a2, b1 + b2),
{
    lemma_add_mod_noop(a1, a2, m);
    lemma_add_mod_noop(b1, b2, m);
}

pub proof fn lemma_cong_sub(m: int, a1: int, b1: int, a2: int, b2: int)
    requires
        m > 0,
        cong(m, a1, b1),
        cong(m, a2, b2),
    ensures
        cong(m, a1 - a2, b1 - b2),
{
    lemma_sub_mod_noop(a1, a2, m);
    lemma_sub_mod_noop(b1, b2, m);
}

pub proof fn lemma_cong_mul(m: int, a1: int, b1: int, a2: int, b2: int)
    requires
        m > 0,
        cong(m, a1, b1),
        cong(m, a2, b2),
    ensures
        cong(m, a1 * a2, b1 * b2),
{
    lemma_mul_mod_noop(a1, a2, m);
    lemma_mul_mod_noop(b1, b2, m);
}

/// Congruence is kept when both sides are scaled by the same integer.
pub proof fn lemma_cong_scale(m: int, c: int, a: int, b: int)
    requires
        m > 0,
        cong(m, a, b),
    ensures
        cong(m, c * a, c * b),
{
    lemma_cong_mul(m, c, c, a, b);
}

/// A congruence between a reduced value and another value pins the reduced value.
pub proof fn lemma_cong_reduced(m: int, a: int, b: int)
    requires
        m > 0,
        0 <= a < m,
        cong(m, a, b),
    ensures
        a == b % m,
{
    lemma_small_mod(a as nat, m as nat);
}

pub proof fn lemma_divides_linear(d: int, x: int, y: int, q: int)
    requires
        d > 0,
        divides(d, x),
        divides(d, y),
    ensures
        divides(d, x + q * y),
        divides(d, x - q * y),
{
    lemma_fundamental_div_mod(x, d);
    lemma_fundamental_div_mod(y, d);
    let kx = x / d;
    let ky = y / d;
    assert(x + q * y == d * (kx + q * ky) + 0) by (nonlinear_arith)
        requires
            x == d * kx,
            y == d * ky,
    ;
    assert(x - q * y == d * (kx - q * ky) + 0) by (nonlinear_arith)
        requires
            x == d * kx,
            y == d * ky,
    ;
    lemma_mod_multiples_vanish(kx + q * ky, 0, d);
    lemma_mod_multiples_vanish(kx - q * ky, 0, d);
    lemma_small_mod(0, d as nat);
}

/// A positive divisor of a positive number is at most that number.
pub proof fn lemma_divisor_le(d: int, x: int)
    requires
        d > 0,
        x > 0,
        divides(d, x),
    ensures
        d <= x,
{
    lemma_mod_is_zero(x as nat, d as nat);
}

/// Bezout coefficients: `x * s + y * t == g` where `g` divides both `x` and `y`.
pub proof fn lemma_bezout(x: nat, y: nat) -> (res: (int, int, nat))
    ensures
        x * res.0 + y * res.1 == res.2,
        (x > 0 || y > 0) ==> res.2 > 0,
        res.2 > 0 ==> divides(res.2 as int, x as int) && divides(res.2 as int, y as int),
    decreases y,
{
    if y == 0 {
        if x > 0 {
            lemma_mod_self_0(x as int);
        }
        (1, 0, x)
    } else {
        lemma_mod_bound(x as int, y as int);
        let r = (x % y) as nat;
        let (s, t, g) = lemma_bezout(y, r);
        let q = x as int / y as int;
        lemma_fundamental_div_mod(x as int, y as int);
        assert(x == y * q + r);
        assert(x * t + y * (s - q * t) == g) by (nonlinear_arith)
            requires
                x == y * q + r,
                y * s + r * t == g,
        ;
        if g > 0 {
            // g divides y and r, hence x = r + q * y
            lemma_divides_linear(g as int, r as int, y as int, q);
            assert(r + q * y == x) by (nonlinear_arith)
                requires
                    x == y * q + r,
            ;
        }
        (t, s - q * t, g)
    }
}

/// Modulo a prime, every residue that is not zero has an inverse.
pub proof fn lemma_prime_invertible(p: int, a: int)
    requires
        is_prime(p),
        a % p != 0,
    ensures
        is_invertible(p, a),
        0 <= inv(p, a) < p,
        (a * inv(p, a)) % p == 1,
{
    let a0 = a % p;
    lemma_mod_bound(a, p);
    let (s, t, g) = lemma_bezout(a0 as nat, p as nat);
    assert(g > 0);
    lemma_divisor_le(g as int, p);
    lemma_divisor_le(g as int, a0);
    if g > 1 {
        assert(p % (g as int) != 0);
    }
    assert(g == 1);
    // a0 * s == 1 - p * t
    assert(a0 * s == p * (-t) + 1) by (nonlinear_arith)
        requires
            a0 * s + p * t == 1,
    ;
    lemma_fundamental_div_mod_converse(a0 * s, p, -t, 1);
    let w = s % p;
    lemma_mod_bound(s, p);
    lemma_mul_mod_noop_general(a, s, p);
    lemma_mul_mod_noop_general(a, w, p);
    lemma_mod_twice(s, p);
    assert((a * w) % p == 1);
    assert(is_invertible(p, a));
}

/// Modulo a prime, a product vanishes only when a factor does.
pub proof fn lemma_prime_product_zero(p: int, u: int, v: int)
    requires
        is_prime(p),
        (u * v) % p == 0,
    ensures
        u % p == 0 || v % p == 0,
{
    if u % p != 0 {
        lemma_prime_invertible(p, u);
        let w = inv(p, u);
        // v == w * u * v == 0 (mod p)
        lemma_cong_scale(p, w, u * v, 0);
        assert(w * (u * v) == (u * w) * v) by (nonlinear_arith);
        lemma_small_mod(1, p as nat);
        lemma_small_mod(0, p as nat);
        lemma_cong_mul(p, u * w, 1, v, v);
    }
}

/// Modulo a prime, a non-zero factor can be cancelled from a congruence.
pub proof fn lemma_prime_cancel(p: int, c: int, a: int, b: int)
    requires
        is_prime(p),
        c % p != 0,
        cong(p, c * a, c * b),
    ensures
        cong(p, a, b),
{
    lemma_mod_equivalence(c * a, c * b, p);
    assert(c * a - c * b == c * (a - b)) by (nonlinear_arith);
    lemma_prime_product_zero(p, c, a - b);
    lemma_mod_equivalence(a, b, p);
}

/// Modulo a prime, two residues with the same square are equal or opposite.
pub proof fn lemma_prime_square_roots(p: int, u: int, v: int)
    requires
        is_prime(p),
        cong(p, u * u, v * v),
    ensures
        cong(p, u, v) || cong(p, u, -v),
{
    lemma_mod_equivalence(u * u, v * v, p);
    assert(u * u - v * v == (u - v) * (u + v)) by (nonlinear_arith);
    lemma_prime_product_zero(p, u - v, u + v);
    lemma_mod_equivalence(u, v, p);
    lemma_mod_equivalence(u, -v, p);
}

/// The product of residues that are not zero is not zero, modulo a prime.
pub proof fn lemma_prime_product_nonzero(p: int, u: int, v: int)
    requires
        is_prime(p),
        u % p != 0,
        v % p != 0,
    ensures
        (u * v) % p != 0,
{
    if (u * v) % p == 0 {
        lemma_prime_product_zero(p, u, v);
    }
}

/// A non-zero integer strictly between `-m` and `m` is not a multiple of `m`.
pub proof fn lemma_small_nonzero_mod(m: int, d: int)
    requires
        m > 0,
        -m < d < m,
        d != 0,
    ensures
        d % m != 0,
{
    lemma_fundamental_div_mod(d, m);
    let q = d / m;
    if d % m == 0 {
        assert(q == 0) by (nonlinear_arith)
            requires
                d == m * q,
                -m < d < m,
                m > 0,
        ;
    }
}

/// `a` is a square modulo `m`.
pub open spec fn is_square(m: int, a: int) -> bool {
    exists|y: int| 0 <= y < m && #[trigger] ((y * y) % m) == a % m
}

/// `y` is the square root of `c` modulo `m` that is the larger of `y` and `-y` (as
/// residues) when `greatest` is set, and the smaller one otherwise.
pub open spec fn is_selected_root(m: int, c: int, greatest: bool, y: int) -> bool {
    &&& 0 <= y < m
    &&& (y * y) % m == c
    &&& greatest ==> y >= (-y) % m
    &&& !greatest ==> y <= (-y) % m
}

/// The square root of `c` that `is_selected_root` describes.
pub open spec fn select_root(m: int, c: int, greatest: bool) -> int {
    choose|y: int| is_selected_root(m, c, greatest, y)
}

/// Negating a residue twice gives it back.
pub proof fn lemma_neg_neg(m: int, y: int)
    requires
        m > 0,
        0 <= y < m,
    ensures
        (-((-y) % m)) % m == y,
{
    lemma_small_mod(y as nat, m as nat);
    lemma_sub_mod_noop(0, -y, m);
    lemma_small_mod(0, m as nat);
}

/// Modulo a prime there is at most one selected square root.
pub proof fn lemma_selected_root_unique(m: int, c: int, greatest: bool, y1: int, y2: int)
    requires
        is_prime(m),
        is_selected_root(m, c, greatest, y1),
        is_selected_root(m, c, greatest, y2),
    ensures
        y1 == y2,
{
    lemma_prime_square_roots(m, y1, y2);
    lemma_small_mod(y1 as nat, m as nat);
    lemma_small_mod(y2 as nat, m as nat);
    if !cong(m, y1, y2) {
        assert(y1 == (-y2) % m);
        lemma_neg_neg(m, y2);
    }
}

/// The selected square root is the one that `select_root` picks.
pub proof fn lemma_select_root(m: int, c: int, greatest: bool, y: int)
    requires
        is_prime(m),
        is_selected_root(m, c, greatest, y),
    ensures
        select_root(m, c, greatest) == y,
        is_selected_root(m, c, greatest, select_root(m, c, greatest)),
{
    lemma_selected_root_unique(m, c, greatest, y, select_root(m, c, greatest));
}

/// The inverse of one is one.
pub proof fn lemma_inv_one(m: int)
    requires
        is_prime(m),
    ensures
        inv(m, 1) == 1,
{
    lemma_small_mod(1, m as nat);
    lemma_prime_invertible(m, 1);
    lemma_small_mod(inv(m, 1) as nat, m as nat);
}

/// A residue with a square root has a selected square root of either kind.
pub proof fn lemma_selected_root_exists(m: int, c: int, greatest: bool, y0: int)
    requires
        is_prime(m),
        0 <= y0 < m,
        (y0 * y0) % m == c,
    ensures
        is_selected_root(m, c, greatest, select_root(m, c, greatest)),
{
    let n0 = (-y0) % m;
    lemma_mod_bound(-y0, m);
    lemma_neg_neg(m, y0);
    lemma_mul_mod_noop(-y0, -y0, m);
    assert((-y0) * (-y0) == y0 * y0) by (nonlinear_arith);
    assert((n0 * n0) % m == c);
    let y = if greatest == (y0 >= n0) {
        y0
    } else {
        n0
    };
    assert(is_selected_root(m, c, greatest, y));
    lemma_select_root(m, c, greatest, y);
}

} // verus!
