//! Fermat's little theorem, through the binomial theorem, and Euler's criterion for
//! squares.
use vstd::prelude::*;
use vstd::arithmetic::div_mod::*;
use vstd::arithmetic::power::*;
use crate::modular::{
    cong, is_prime, lemma_cong_add, lemma_cong_scale, lemma_prime_cancel,
    lemma_prime_product_zero,
};

verus! {

/// The binomial coefficient `n choose k`, by Pascal's rule.
pub open spec fn binom(n: nat, k: nat) -> nat
    decreases n, k,
{
    if k == 0 {
        1
    } else if n == 0 {
        0
    } else {
        binom((n - 1) as nat, (k - 1) as nat) + binom((n - 1) as nat, k)
    }
}

/// `sum_{k <= j} binom(n, k) x^k`.
pub open spec fn binom_sum(x: int, n: nat, j: nat) -> int
    decreases j,
{
    if j == 0 {
        1
    } else {
        binom_sum(x, n, (j - 1) as nat) + binom(n, j) * pow(x, j)
    }
}

proof fn lemma_binom_above(n: nat, k: nat)
    requires
        k > n,
    ensures
        binom(n, k) == 0,
    decreases n,
{
    if n > 0 {
        lemma_binom_above((n - 1) as nat, (k - 1) as nat);
        lemma_binom_above((n - 1) as nat, k);
    }
}

proof fn lemma_binom_diag(n: nat)
    ensures
        binom(n, n) == 1,
    decreases n,
{
    if n > 0 {
        lemma_binom_diag((n - 1) as nat);
        lemma_binom_above((n - 1) as nat, n);
    }
}

/// `binom_sum(x, n + 1, j) == binom_sum(x, n, j) + x * binom_sum(x, n, j - 1)`.
proof fn lemma_binom_sum_step(x: int, n: nat, j: nat)
    requires
        j >= 1,
    ensures
        binom_sum(x, n + 1, j) == binom_sum(x, n, j) + x * binom_sum(x, n, (j - 1) as nat),
    decreases j,
{
    reveal(pow);
    if j == 1 {
        assert(binom(n + 1, 1) == binom(n, 0) + binom(n, 1));
        assert(pow(x, 1) == x * pow(x, 0));
        assert(pow(x, 0) == 1);
        assert(pow(x, 1) == x);
        assert(binom_sum(x, n + 1, 0) == 1);
        assert(binom_sum(x, n, 0) == 1);
        assert(binom_sum(x, n + 1, 1) == 1 + binom(n + 1, 1) * x);
        assert(binom_sum(x, n, 1) == 1 + binom(n, 1) * x);
        assert(binom_sum(x, n, 0) == 1);
        assert((1 + binom(n, 1)) * x == binom(n, 1) * x + x * 1) by (nonlinear_arith);
    } else {
        lemma_binom_sum_step(x, n, (j - 1) as nat);
        let pj = pow(x, j);
        let pj1 = pow(x, (j - 1) as nat);
        assert(pj == x * pj1);
        assert(binom(n + 1, j) == binom(n, (j - 1) as nat) + binom(n, j));
        let a = binom_sum(x, n, (j - 2) as nat);
        let b = binom_sum(x, n, (j - 1) as nat);
        assert(b == a + binom(n, (j - 1) as nat) * pj1);
        assert((binom(n, (j - 1) as nat) + binom(n, j)) * pj == binom(n, j) * pj + x * (binom(
            n,
            (j - 1) as nat,
        ) * pj1)) by (nonlinear_arith)
            requires
                pj == x * pj1,
        ;
        assert(x * b == x * a + x * (binom(n, (j - 1) as nat) * pj1)) by (nonlinear_arith)
            requires
                b == a + binom(n, (j - 1) as nat) * pj1,
        ;
        assert(binom_sum(x, n + 1, (j - 1) as nat) == b + x * a);
        assert(binom_sum(x, n + 1, j) == binom_sum(x, n + 1, (j - 1) as nat) + binom(n + 1, j) * pj);
        assert(binom_sum(x, n, j) == b + binom(n, j) * pj);
    }
}

/// The binomial theorem for `(x + 1)^n`.
pub proof fn lemma_binomial(x: int, n: nat)
    ensures
        pow(x + 1, n) == binom_sum(x, n, n),
    decreases n,
{
    reveal(pow);
    if n > 0 {
        let k = (n - 1) as nat;
        lemma_binomial(x, k);
        lemma_binom_sum_step(x, k, n);
        lemma_binom_above(k, n);
        assert(binom_sum(x, k, n) == binom_sum(x, k, k));
        assert(pow(x + 1, n) == (x + 1) * pow(x + 1, k));
        assert((x + 1) * binom_sum(x, k, k) == binom_sum(x, k, k) + x * binom_sum(x, k, k))
            by (nonlinear_arith);
    }
}

/// `k * binom(n, k) == n * binom(n - 1, k - 1)`.
proof fn lemma_binom_absorb(n: nat, k: nat)
    requires
        n >= 1,
        k >= 1,
    ensures
        k * binom(n, k) == n * binom((n - 1) as nat, (k - 1) as nat),
    decreases n,
{
    if n == 1 {
        if k > 1 {
            lemma_binom_above(1, k);
            lemma_binom_above(0, (k - 1) as nat);
            assert(k * 0 == 1 * 0);
        } else {
            lemma_binom_above(0, 1);
            assert(binom(0, 0) == 1);
            assert(binom(1, 1) == binom(0, 0) + binom(0, 1));
            assert(k * binom(n, k) == 1);
        }
    } else {
        let m = (n - 1) as nat;
        // k C(n, k) = k C(m, k - 1) + k C(m, k) = (k - 1) C(m, k - 1) + C(m, k - 1) + m C(m - 1, k - 1)
        lemma_binom_absorb(m, k);
        if k == 1 {
            assert(binom(m, 0) == 1);
            assert(binom((m - 1) as nat, 0) == 1);
            assert(binom(n, 1) == binom(m, 0) + binom(m, 1));
            assert(binom(m, 1) == m) by {
                lemma_binom_absorb(m, 1);
                assert(binom((m - 1) as nat, 0) == 1);
                assert(1 * binom(m, 1) == binom(m, 1));
                assert(m * 1 == m);
            }
            assert(1 * binom(n, 1) == binom(n, 1));
            assert(binom(m, 0) == 1);
            assert(n * binom(m, 0) == n * 1);
            assert(k * binom(n, k) == n * binom((n - 1) as nat, (k - 1) as nat));
        } else {
            lemma_binom_absorb(m, (k - 1) as nat);
            let c1 = binom(m, (k - 1) as nat);
            let c2 = binom(m, k);
            let d1 = binom((m - 1) as nat, (k - 2) as nat);
            let d2 = binom((m - 1) as nat, (k - 1) as nat);
            assert(binom(n, k) == c1 + c2);
            assert(c1 == d1 + d2);
            assert(k * (c1 + c2) == (k - 1) * c1 + c1 + k * c2) by (nonlinear_arith);
            assert((k - 1) * c1 == m * d1);
            assert(k * c2 == m * d2);
            assert(m * d1 + c1 + m * d2 == n * c1) by (nonlinear_arith)
                requires
                    c1 == d1 + d2,
                    n == m + 1,
            ;
            assert(binom((n - 1) as nat, (k - 1) as nat) == c1);
            assert(k * binom(n, k) == n * c1);
        }
    }
}

/// A prime divides the binomial coefficients strictly between the ends.
proof fn lemma_prime_divides_binom(p: nat, k: nat)
    requires
        is_prime(p as int),
        0 < k < p,
    ensures
        (binom(p, k) as int) % (p as int) == 0,
{
    lemma_binom_absorb(p, k);
    let c = binom((p - 1) as nat, (k - 1) as nat);
    lemma_mod_multiples_basic(c as int, p as int);
    assert(((k * binom(p, k)) as int) % (p as int) == 0) by {
        assert(k * binom(p, k) == c * p) by (nonlinear_arith)
            requires
                k * binom(p, k) == p * c,
        ;
    }
    lemma_prime_product_zero(p as int, k as int, binom(p, k) as int);
    lemma_small_mod(k, p);
}

/// The partial binomial sums of `(x + 1)^p` below the top term are one modulo `p`.
proof fn lemma_binom_sum_mod_prime(x: int, p: nat, j: nat)
    requires
        is_prime(p as int),
        j < p,
    ensures
        binom_sum(x, p, j) % (p as int) == 1,
    decreases j,
{
    lemma_small_mod(1, p);
    if j > 0 {
        lemma_binom_sum_mod_prime(x, p, (j - 1) as nat);
        lemma_prime_divides_binom(p, j);
        lemma_small_mod(0, p);
        lemma_cong_scale(p as int, pow(x, j), binom(p, j) as int, 0);
        assert(pow(x, j) * binom(p, j) == binom(p, j) * pow(x, j)) by (nonlinear_arith);
        lemma_cong_add(
            p as int,
            binom_sum(x, p, (j - 1) as nat),
            1,
            binom(p, j) * pow(x, j),
            pow(x, j) * 0,
        );
    }
}

/// `(x + 1)^p == x^p + 1` modulo a prime `p`.
proof fn lemma_freshman(x: int, p: nat)
    requires
        is_prime(p as int),
    ensures
        cong(p as int, pow(x + 1, p), pow(x, p) + 1),
{
    lemma_binomial(x, p);
    lemma_binom_sum_mod_prime(x, p, (p - 1) as nat);
    lemma_binom_diag(p);
    lemma_small_mod(1, p);
    lemma_cong_add(p as int, binom_sum(x, p, (p - 1) as nat), 1, pow(x, p), pow(x, p));
}

/// Fermat's little theorem: `x^p == x` modulo a prime `p`.
pub proof fn lemma_fermat(x: int, p: nat)
    requires
        is_prime(p as int),
    ensures
        cong(p as int, pow(x, p), x),
{
    let m = p as int;
    lemma_pow_mod_noop(x, p, m);
    lemma_fermat_nat((x % m) as nat, p);
    lemma_mod_twice(x, m);
}

proof fn lemma_fermat_nat(x: nat, p: nat)
    requires
        is_prime(p as int),
    ensures
        cong(p as int, pow(x as int, p), x as int),
    decreases x,
{
    if x == 0 {
        lemma0_pow(p);
    } else {
        let y = (x - 1) as nat;
        lemma_fermat_nat(y, p);
        lemma_freshman(y as int, p);
        lemma_cong_add(p as int, pow(y as int, p), y as int, 1, 1);
    }
}

/// A residue that is not zero raised to `p - 1` is one modulo a prime `p`.
pub proof fn lemma_fermat_unit(x: int, p: nat)
    requires
        is_prime(p as int),
        x % (p as int) != 0,
    ensures
        pow(x, (p - 1) as nat) % (p as int) == 1,
{
    let m = p as int;
    lemma_fermat(x, p);
    reveal(pow);
    assert(pow(x, p) == x * pow(x, (p - 1) as nat));
    assert(x * 1 == x);
    lemma_prime_cancel(m, x, pow(x, (p - 1) as nat), 1);
    lemma_small_mod(1, p);
}

/// Euler's criterion, for squares: a square that is not zero has Euler criterion value
/// one modulo an odd prime.
pub proof fn lemma_euler_square(p: nat, y: int)
    requires
        is_prime(p as int),
        p > 2,
        (y * y) % (p as int) != 0,
    ensures
        pow(y * y, ((p - 1) / 2) as nat) % (p as int) == 1,
{
    let m = p as int;
    let h = ((p - 1) / 2) as nat;
    assert(p % 2 != 0);
    lemma_fundamental_div_mod((p - 1) as int, 2);
    assert(2 * h == p - 1);
    lemma_square_is_pow2(y);
    lemma_pow_multiplies(y, 2, h);
    if y % m == 0 {
        lemma_mul_mod_noop(y, y, m);
        lemma_small_mod(0, p);
        assert(0int * (y % m) == 0);
    }
    lemma_fermat_unit(y, p);
}

} // verus!
