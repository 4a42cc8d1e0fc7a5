//! Arithmetic in the prime field `Z/pZ` on residues held as `u64` values below `p`.
use vstd::prelude::*;
use vstd::arithmetic::div_mod::*;
use vstd::arithmetic::mul::*;
use vstd::arithmetic::power::*;
use vstd::arithmetic::power2::*;
use crate::modular::{
    cong, divides, inv, is_prime, lemma_cong_mod, lemma_cong_mul, lemma_cong_scale, lemma_cong_sub,
    lemma_divides_linear, lemma_divisor_le, lemma_prime_invertible, lemma_prime_square_roots,
    is_square,
};
use crate::fermat::lemma_euler_square;

verus! {

/// Sum of two residues.
pub fn add_mod(p: u64, a: u64, b: u64) -> (r: u64)
    requires
        0 < p,
        a < p,
        b < p,
    ensures
        r == (a + b) % (p as int),
{
    if a >= p - b {
        proof {
            lemma_fundamental_div_mod_converse(a + b, p as int, 1, a + b - p);
        }
        a - (p - b)
    } else {
        proof {
            lemma_small_mod((a + b) as nat, p as nat);
        }
        a + b
    }
}

/// Difference of two residues.
pub fn sub_mod(p: u64, a: u64, b: u64) -> (r: u64)
    requires
        0 < p,
        a < p,
        b < p,
    ensures
        r == (a - b) % (p as int),
{
    if a >= b {
        proof {
            lemma_small_mod((a - b) as nat, p as nat);
        }
        a - b
    } else {
        proof {
            lemma_fundamental_div_mod_converse(a - b, p as int, -1, a - b + p);
        }
        p - (b - a)
    }
}

/// Additive inverse of a residue.
pub fn neg_mod(p: u64, a: u64) -> (r: u64)
    requires
        0 < p,
        a < p,
    ensures
        r == (-a) % (p as int),
{
    if a == 0 {
        proof {
            lemma_small_mod(0, p as nat);
        }
        0
    } else {
        proof {
            lemma_fundamental_div_mod_converse(-a, p as int, -1, p - a);
        }
        p - a
    }
}

/// Product of two residues.
pub fn mul_mod(p: u64, a: u64, b: u64) -> (r: u64)
    requires
        0 < p,
        a < p,
        b < p,
    ensures
        r == (a * b) % (p as int),
{
    let a2 = a as u128;
    let b2 = b as u128;
    assert(a2 * b2 <= 0xffff_ffff_ffff_ffff * 0xffff_ffff_ffff_ffff) by {
        lemma_mul_upper_bound(a2 as int, 0xffff_ffff_ffff_ffff, b2 as int, 0xffff_ffff_ffff_ffff);
    }
    let prod = a2 * b2;
    let r = prod % (p as u128);
    proof {
        lemma_mod_bound(prod as int, p as int);
    }
    r as u64
}


/// Multiplicative inverse of a residue modulo a prime, by the extended Euclidean
/// algorithm: `None` exactly for zero.
pub fn inv_mod(p: u64, a: u64) -> (r: Option<u64>)
    requires
        is_prime(p as int),
        a < p,
    ensures
        a == 0 ==> r is None,
        a != 0 ==> (r matches Some(w) && w < p && (a * w) % (p as int) == 1 && w == inv(p as int, a as int)),
{
    let ghost m = p as int;
    let mut old_r: u64 = a;
    let mut r: u64 = p;
    let mut old_s: u64 = 1;
    let mut s: u64 = 0;
    proof {
        lemma_small_mod(1, p as nat);
        lemma_small_mod(a as nat, p as nat);
        lemma_mod_self_0(m);
        lemma_small_mod(0, p as nat);
    }
    while r != 0
        invariant
            m == p,
            m > 1,
            old_s < p,
            s < p,
            old_r > 0 || r > 0,
            cong(m, old_r as int, old_s * a),
            cong(m, r as int, s * a),
            forall|d: int|
                d > 0 && #[trigger] divides(d, old_r as int) && divides(d, r as int) ==> divides(
                    d,
                    a as int,
                ) && divides(d, m),
        decreases r,
    {
        let q = old_r / r;
        let new_r = old_r % r;
        let qm = q % p;
        let qs = mul_mod(p, qm, s);
        let new_s = sub_mod(p, old_s, qs);
        proof {
            let (oR, R, oS, S, Q) = (old_r as int, r as int, old_s as int, s as int, q as int);
            lemma_fundamental_div_mod(oR, R);
            assert(new_r == oR - Q * R);
            // new_r == old_s * a - q * s * a (mod m)
            lemma_cong_scale(m, Q, R, S * a);
            lemma_cong_sub(m, oR, oS * a, Q * R, Q * (S * a));
            // new_s == old_s - q * s (mod m)
            lemma_cong_mod(m, Q);
            lemma_cong_mul(m, qm as int, Q, S, S);
            lemma_cong_mod(m, qm * S);
            lemma_cong_sub(m, oS, oS, qs as int, Q * S);
            lemma_cong_mod(m, oS - qs);
            lemma_cong_mul(m, new_s as int, oS - Q * S, a as int, a as int);
            assert((oS - Q * S) * a == oS * a - Q * (S * a)) by (nonlinear_arith);
            lemma_mod_bound(oR, R);
            assert forall|d: int|
                d > 0 && #[trigger] divides(d, r as int) && divides(d, new_r as int) implies divides(
                d,
                a as int,
            ) && divides(d, m) by {
                lemma_divides_linear(d, new_r as int, R, Q);
                assert(new_r + Q * R == oR);
            }
        }
        old_r = r;
        r = new_r;
        old_s = s;
        s = new_s;
    }
    proof {
        lemma_mod_self_0(old_r as int);
        lemma_small_mod(0, old_r as nat);
        assert(divides(old_r as int, old_r as int) && divides(old_r as int, 0));
    }
    if old_r == 1 {
        proof {
            assert((old_s * a) % m == 1);
            assert(a * old_s == old_s * a) by (nonlinear_arith);
            if a != 0 {
                lemma_prime_invertible(m, a as int);
                let w = inv(m, a as int);
                // both old_s and w are inverses, hence equal
                lemma_small_mod(w as nat, p as nat);
                lemma_small_mod(old_s as nat, p as nat);
                lemma_cong_mul(m, old_s * a, 1, w as int, w as int);
                lemma_cong_mul(m, a * w, 1, old_s as int, old_s as int);
                assert(old_s * a * w == a * w * old_s) by (nonlinear_arith);
            } else {
                assert(0 * old_s == 0);
                lemma_small_mod(0, p as nat);
            }
        }
        Some(old_s)
    } else {
        proof {
            if a != 0 {
                lemma_divisor_le(old_r as int, a as int);
                lemma_divisor_le(old_r as int, m);
                assert(m % (old_r as int) != 0);
            }
        }
        None
    }
}


/// `base` raised to `e`, modulo `p`, by square-and-multiply.
pub fn pow_mod(p: u64, base: u64, e: u64) -> (r: u64)
    requires
        1 < p,
        base < p,
    ensures
        r == pow(base as int, e as nat) % (p as int),
        r < p,
{
    let ghost m = p as int;
    let mut acc: u64 = 1;
    let mut b: u64 = base;
    let mut k: u64 = e;
    proof {
        lemma_pow0(b as int);
        assert(1 * pow(base as int, e as nat) == pow(base as int, e as nat));
    }
    while k > 0
        invariant
            m == p,
            1 < p,
            acc < p,
            b < p,
            cong(m, acc * pow(b as int, k as nat), pow(base as int, e as nat)),
        decreases k,
    {
        let ghost (acc0, b0, k0) = (acc as int, b as int, k as nat);
        let h = k / 2;
        let bit = k % 2;
        if bit == 1 {
            acc = mul_mod(p, acc, b);
        }
        b = mul_mod(p, b, b);
        k = h;
        proof {
            let hh = h as nat;
            let bb = (b0 * b0) % m;
            assert(k0 == 2 * hh + bit);
            lemma_pow_adds(b0, bit as nat, 2 * hh);
            lemma_pow_multiplies(b0, 2, hh);
            lemma_square_is_pow2(b0);
            // pow(b, k) == pow(b0, bit) * pow(b0 * b0, h)
            lemma_pow_mod_noop(b0 * b0, hh, m);
            lemma_cong_mod(m, pow(b0 * b0, hh));
            assert(cong(m, pow(bb, hh), pow(b0 * b0, hh)));
            if bit == 1 {
                lemma_pow1(b0);
                lemma_cong_mod(m, acc0 * b0);
                lemma_cong_mul(m, acc as int, acc0 * b0, pow(bb, hh), pow(b0 * b0, hh));
                assert(acc0 * b0 * pow(b0 * b0, hh) == acc0 * (pow(b0, 1) * pow(b0, 2 * hh)))
                    by (nonlinear_arith)
                    requires
                        pow(b0, 1) == b0,
                        pow(b0 * b0, hh) == pow(b0, 2 * hh),
                ;
            } else {
                lemma_pow0(b0);
                lemma_cong_scale(m, acc0, pow(bb, hh), pow(b0 * b0, hh));
                assert(acc0 * pow(b0 * b0, hh) == acc0 * (pow(b0, 0) * pow(b0, 2 * hh)))
                    by (nonlinear_arith)
                    requires
                        pow(b0, 0) == 1,
                        pow(b0 * b0, hh) == pow(b0, 2 * hh),
                ;
            }
        }
    }
    proof {
        lemma_pow0(b as int);
        lemma_small_mod(acc as nat, p as nat);
    }
    acc
}


/// Euler's criterion value of `a`: `a^((p-1)/2) mod p`.
pub open spec fn euler(p: int, a: int) -> int {
    pow(a, ((p - 1) / 2) as nat) % p
}

/// Raising congruent bases to the same power gives congruent results.
pub proof fn lemma_pow_cong(m: int, x: int, y: int, e: nat)
    requires
        m > 0,
        cong(m, x, y),
    ensures
        cong(m, pow(x, e), pow(y, e)),
{
    lemma_pow_mod_noop(x, e, m);
    lemma_pow_mod_noop(y, e, m);
}

/// `x^(2^(k+1)) == (x^(2^k))^2`.
pub proof fn lemma_pow_pow2_succ(x: int, k: nat)
    ensures
        pow(x, pow2(k + 1)) == pow(x, pow2(k)) * pow(x, pow2(k)),
{
    lemma_pow2_unfold(k + 1);
    lemma_pow_adds(x, pow2(k), pow2(k));
}

/// Squaring a residue of `x^(2^k)` gives the residue of `x^(2^(k+1))`.
pub proof fn lemma_square_step(m: int, x: int, k: nat, v: int)
    requires
        m > 0,
        v == pow(x, pow2(k)) % m,
    ensures
        (v * v) % m == pow(x, pow2(k + 1)) % m,
{
    lemma_pow_pow2_succ(x, k);
    lemma_mul_mod_noop(pow(x, pow2(k)), pow(x, pow2(k)), m);
    lemma_mod_twice(pow(x, pow2(k)), m);
}

/// `x^(a * 2^k)` squared `j` more times is `x^(a * 2^(k+j))`.
pub proof fn lemma_pow_pow_pow2(x: int, a: nat, j: nat)
    ensures
        pow(pow(x, a), pow2(j)) == pow(x, a * pow2(j)),
{
    lemma_pow_multiplies(x, a, pow2(j));
}

/// `true` exactly when `n` is prime, by trial division up to the square root of `n`.
pub fn is_prime_u64(n: u64) -> (r: bool)
    ensures
        r == is_prime(n as int),
{
    if n < 2 {
        return false;
    }
    let mut d: u64 = 2;
    while d <= n / d
        invariant
            2 <= d,
            n >= 2,
            d <= n,
            forall|e: int| 1 < e < d ==> #[trigger] ((n as int) % e) != 0,
        decreases n - d,
    {
        proof {
            lemma_fundamental_div_mod(n as int, d as int);
            assert(d * d <= n) by (nonlinear_arith)
                requires
                    d <= n / d,
                    n == d * (n / d) + n % d,
                    d > 0,
                    n % d >= 0,
            ;
            assert(d + 1 <= n) by (nonlinear_arith)
                requires
                    d * d <= n,
                    d >= 2,
            ;
        }
        if n % d == 0 {
            proof {
                assert(d < n) by (nonlinear_arith)
                    requires
                        d * d <= n,
                        d >= 2,
                ;
                assert(1 < d < n && (n as int) % (d as int) == 0);
            }
            return false;
        }
        d = d + 1;
    }
    proof {
        assert forall|e: int| 1 < e < n implies #[trigger] ((n as int) % e) != 0 by {
            if e >= d && (n as int) % e == 0 {
                let f = (n as int) / e;
                lemma_fundamental_div_mod(n as int, e);
                assert(n == e * f);
                assert(f > 1) by (nonlinear_arith)
                    requires
                        n == e * f,
                        e < n,
                        e > 1,
                ;
                lemma_fundamental_div_mod(n as int, d as int);
                assert(f < d) by (nonlinear_arith)
                    requires
                        n == e * f,
                        e >= d,
                        d > n / d,
                        n == d * (n / d) + n % d,
                        n % d < d,
                        d > 0,
                        f > 1,
                ;
                assert(n == f * e);
                lemma_mod_multiples_vanish(e, 0, f);
                lemma_small_mod(0, f as nat);
                assert((n as int) % f == 0);
            }
        }
    }
    true
}

/// Splits `p - 1` as `q * 2^s` with `q` odd.
fn two_adic_split(p: u64) -> (res: (u64, u32))
    requires
        is_prime(p as int),
        p > 2,
    ensures
        res.0 * pow2(res.1 as nat) == p - 1,
        res.0 % 2 == 1,
        1 <= res.1 <= 64,
{
    let mut q: u64 = p - 1;
    let mut s: u32 = 0;
    proof {
        lemma_pow2(0);
        reveal(pow);
        assert(p % 2 != 0);
    }
    while q % 2 == 0
        invariant
            q >= 1,
            q * pow2(s as nat) == p - 1,
            s <= 64,
            s == 0 ==> q == p - 1,
            (p as int) % 2 != 0,
        decreases q,
    {
        proof {
            lemma_fundamental_div_mod(q as int, 2);
            lemma_pow2_unfold((s + 1) as nat);
            assert((q / 2) * pow2((s + 1) as nat) == p - 1) by (nonlinear_arith)
                requires
                    q == 2 * (q / 2),
                    pow2((s + 1) as nat) == 2 * pow2(s as nat),
                    q * pow2(s as nat) == p - 1,
            ;
            lemma_pow2_pos(s as nat);
            if s >= 64 {
                lemma_pow2_strictly_increases(63, s as nat);
                lemma2_to64_rest();
                assert(q * pow2(s as nat) >= pow2(s as nat)) by (nonlinear_arith)
                    requires
                        q >= 1,
                        pow2(s as nat) > 0,
                ;
            }
        }
        q = q / 2;
        s = s + 1;
    }
    proof {
        if s == 0 {
            assert((p - 1) % 2 == 0) by {
                lemma_fundamental_div_mod(p as int, 2);
            }
        }
    }
    (q, s)
}

/// Square root modulo an odd prime `p` by the Tonelli-Shanks algorithm, given a
/// residue `z` that Euler's criterion marks as a non-square.
///
/// Returns `Some(0)` for zero; for a residue whose Euler criterion value is one it
/// returns a root; otherwise `None`.
pub fn sqrt_mod(p: u64, z: u64, a: u64) -> (r: Option<u64>)
    requires
        is_prime(p as int),
        p > 2,
        z < p,
        euler(p as int, z as int) == p - 1,
        a < p,
    ensures
        a == 0 ==> r == Some(0u64),
        a != 0 && euler(p as int, a as int) != 1 ==> r is None,
        a != 0 && euler(p as int, a as int) == 1 ==> (r matches Some(y) && y < p && (y * y) % (
        p as int) == a),
        r is Some <==> is_square(p as int, a as int),
        r matches Some(y) ==> y < p && (y * y) % (p as int) == a,
{
    let ghost m = p as int;
    if a == 0 {
        proof {
            lemma_small_mod(0, p as nat);
            assert(0 <= 0 < m && (0int * 0int) % m == (a as int) % m);
        }
        return Some(0);
    }
    let half = (p - 1) / 2;
    let e = pow_mod(p, a, half);
    if e != 1 {
        proof {
            if is_square(m, a as int) {
                let y = choose|y: int| 0 <= y < m && #[trigger] ((y * y) % m) == (a as int) % m;
                lemma_small_mod(a as nat, p as nat);
                lemma_euler_square(p as nat, y);
                lemma_cong_mod(m, y * y);
                lemma_pow_cong(m, a as int, y * y, half as nat);
            }
        }
        return None;
    }
    let (q, s) = two_adic_split(p);
    let ghost hh = half as nat;
    proof {
        lemma_pow2_unfold(s as nat);
        assert(p - 1 == 2 * (q * pow2((s - 1) as nat)) + 0) by (nonlinear_arith)
            requires
                q * pow2(s as nat) == p - 1,
                pow2(s as nat) == 2 * pow2((s - 1) as nat),
        ;
        lemma_fundamental_div_mod_converse(p - 1, 2, q * pow2((s - 1) as nat), 0);
        lemma_pow2_pos(s as nat);
        assert(q <= p - 1) by (nonlinear_arith)
            requires
                q * pow2(s as nat) == p - 1,
                pow2(s as nat) >= 1,
                q >= 1,
        ;
    }
    let mut order: u32 = s;
    let mut c = pow_mod(p, z, q);
    let mut t = pow_mod(p, a, q);
    let mut root = pow_mod(p, a, (q + 1) / 2);
    proof {
        lemma_cong_mod(m, pow(a as int, q as nat));
        lemma_cong_mod(m, pow(z as int, q as nat));
        lemma_cong_mod(m, pow(a as int, ((q + 1) / 2) as nat));
        // t^(2^(s-1)) == a^((p-1)/2) == 1
        lemma_pow_cong(m, t as int, pow(a as int, q as nat), pow2((s - 1) as nat));
        lemma_pow_pow_pow2(a as int, q as nat, (s - 1) as nat);
        // c^(2^(s-1)) == z^((p-1)/2) == -1
        lemma_pow_cong(m, c as int, pow(z as int, q as nat), pow2((s - 1) as nat));
        lemma_pow_pow_pow2(z as int, q as nat, (s - 1) as nat);
        // root^2 == a^(q+1) == a * t
        let hq = ((q + 1) / 2) as nat;
        assert(hq + hq == q + 1) by {
            lemma_fundamental_div_mod(q as int, 2);
        }
        lemma_pow_adds(a as int, hq, hq);
        lemma_pow_adds(a as int, 1, q as nat);
        lemma_pow1(a as int);
        lemma_cong_mul(m, root as int, pow(a as int, hq), root as int, pow(a as int, hq));
        lemma_cong_scale(m, a as int, t as int, pow(a as int, q as nat));
    }
    while t != 1
        invariant
            m == p,
            is_prime(m),
            m > 2,
            a < p,
            c < p,
            t < p,
            root < p,
            order >= 1,
            order <= s,
            s <= 64,
            cong(m, root * root, a * t),
            pow(t as int, pow2((order - 1) as nat)) % m == 1,
            pow(c as int, pow2((order - 1) as nat)) % m == m - 1,
        decreases order,
    {
        // least i with t^(2^i) == 1
        let mut i: u32 = 1;
        let mut tt = mul_mod(p, t, t);
        proof {
            lemma_pow2(0);
            lemma_pow0(2);
            lemma_pow1(t as int);
            lemma_small_mod(t as nat, p as nat);
            lemma_square_step(m, t as int, 0, t as int);
        }
        while tt != 1
            invariant
                m == p,
                m > 2,
                t < p,
                1 <= i,
                i <= order - 1,
                order <= 64,
                tt == pow(t as int, pow2(i as nat)) % m,
                pow(t as int, pow2((order - 1) as nat)) % m == 1,
                pow(t as int, pow2((i - 1) as nat)) % m != 1,
            decreases order - i,
        {
            proof {
                lemma_square_step(m, t as int, i as nat, tt as int);
            }
            tt = mul_mod(p, tt, tt);
            i = i + 1;
        }
        // t^(2^(i-1)) is a square root of one other than one, so it is minus one
        proof {
            let u = pow(t as int, pow2((i - 1) as nat));
            lemma_pow_pow2_succ(t as int, (i - 1) as nat);
            lemma_small_mod(1, p as nat);
            lemma_prime_square_roots(m, u, 1);
            lemma_mod_bound(u, m);
            lemma_fundamental_div_mod_converse(-1, m, -1, m - 1);
        }
        let mut b = c;
        let mut j: u32 = 0;
        proof {
            lemma_pow2(0);
            lemma_pow0(2);
            lemma_pow1(c as int);
            lemma_small_mod(c as nat, p as nat);
        }
        while j < order - i - 1
            invariant
                m == p,
                m > 2,
                c < p,
                b < p,
                1 <= i < order,
                j <= order - i - 1,
                b == pow(c as int, pow2(j as nat)) % m,
            decreases order - i - 1 - j,
        {
            proof {
                lemma_square_step(m, c as int, j as nat, b as int);
            }
            b = mul_mod(p, b, b);
            j = j + 1;
        }
        let ghost (c0, t0, r0, o0) = (c as int, t as int, root as int, order as nat);
        let b2 = mul_mod(p, b, b);
        let new_t = mul_mod(p, t, b2);
        let new_root = mul_mod(p, root, b);
        proof {
            let im1 = (i - 1) as nat;
            let k = (o0 - i) as nat;
            // b2 == c^(2^(order - i))
            lemma_square_step(m, c0, (o0 - i - 1) as nat, b as int);
            // b2^(2^(i-1)) == c^(2^(order-1)) == -1
            lemma_cong_mod(m, pow(c0, pow2(k)));
            lemma_pow_cong(m, b2 as int, pow(c0, pow2(k)), pow2(im1));
            lemma_pow_pow_pow2(c0, pow2(k), im1);
            lemma_pow2_adds(k, im1);
            assert(k + im1 == (o0 - 1) as nat);
            // new_t^(2^(i-1)) == t^(2^(i-1)) * b2^(2^(i-1)) == (-1) * (-1) == 1
            lemma_cong_mod(m, t0 * b2);
            lemma_pow_cong(m, new_t as int, t0 * b2, pow2(im1));
            lemma_pow_distributes(t0, b2 as int, pow2(im1));
            let pt = pow(t0, pow2(im1));
            let pb = pow(b2 as int, pow2(im1));
            lemma_cong_mod(m, pt);
            lemma_cong_mod(m, pb);
            assert(cong(m, pt, -1));
            assert(cong(m, pb, -1));
            lemma_cong_mul(m, pt, -1, pb, -1);
            lemma_small_mod(1, p as nat);
            // new_root^2 == root^2 * b^2 == a * t * b2 == a * new_t
            lemma_cong_mod(m, r0 * (b as int));
            lemma_cong_mul(m, new_root as int, r0 * (b as int), new_root as int, r0 * (b as int));
            lemma_cong_mod(m, (b as int) * (b as int));
            lemma_cong_mul(m, r0 * r0, a * t0, (b as int) * (b as int), b2 as int);
            assert(r0 * (b as int) * (r0 * (b as int)) == (r0 * r0) * ((b as int) * (b as int)))
                by (nonlinear_arith);
            lemma_cong_scale(m, a as int, new_t as int, t0 * b2);
            assert(a * t0 * b2 == a * (t0 * b2)) by (nonlinear_arith);
        }
        order = i;
        c = b2;
        t = new_t;
        root = new_root;
    }
    proof {
        lemma_small_mod(a as nat, p as nat);
        assert(a * 1 == a);
        assert(is_square(m, a as int)) by {
            assert(0 <= root < m && ((root as int) * (root as int)) % m == (a as int) % m);
        }
    }
    Some(root)
}

} // verus!
