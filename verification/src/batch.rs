//! Inversion of many residues at once with a single inversion (Montgomery's trick).
use vstd::prelude::*;
use vstd::arithmetic::div_mod::{lemma_mod_bound, lemma_small_mod};
use crate::field::{inv_mod, mul_mod};
use crate::modular::{
    inv, is_prime, lemma_cong_mod, lemma_cong_mul, lemma_prime_cancel, lemma_prime_invertible,
    lemma_prime_product_nonzero,
};

verus! {

/// The product of the entries of `s` that are not zero, modulo `m`.
pub open spec fn nonzero_product(m: int, s: Seq<u64>) -> int
    decreases s.len(),
{
    if s.len() == 0 {
        1
    } else {
        let r = nonzero_product(m, s.drop_last());
        if s.last() == 0 {
            r
        } else {
            (r * s.last()) % m
        }
    }
}

/// Each entry replaced by its inverse modulo `m`; zero entries stay zero.
pub open spec fn inverses(m: int, s: Seq<u64>) -> Seq<u64> {
    s.map_values(|e: u64| if e == 0 { 0u64 } else { inv(m, e as int) as u64 })
}

/// The product of residues that are not zero is a non-zero residue.
proof fn lemma_nonzero_product_unit(m: int, s: Seq<u64>)
    requires
        is_prime(m),
        forall|i: int| 0 <= i < s.len() ==> #[trigger] s[i] < m,
    ensures
        0 < nonzero_product(m, s) < m,
    decreases s.len(),
{
    if s.len() > 0 {
        lemma_nonzero_product_unit(m, s.drop_last());
        let r = nonzero_product(m, s.drop_last());
        if s.last() != 0 {
            assert(s[s.len() - 1] < m);
            lemma_small_mod(r as nat, m as nat);
            lemma_small_mod(s.last() as nat, m as nat);
            lemma_prime_product_nonzero(m, r, s.last() as int);
            lemma_mod_bound(r * s.last(), m);
        }
    }
}

/// A reduced residue that multiplies `e` to one is the inverse of `e`.
proof fn lemma_inv_unique(m: int, e: int, u: int)
    requires
        is_prime(m),
        0 <= u < m,
        (e * u) % m == 1,
    ensures
        u == inv(m, e),
{
    lemma_small_mod(0, m as nat);
    lemma_small_mod(1, m as nat);
    if e % m == 0 {
        vstd::arithmetic::div_mod::lemma_mul_mod_noop_left(e, u, m);
        assert(0 * u == 0);
    }
    lemma_prime_invertible(m, e);
    let w = inv(m, e);
    lemma_prime_cancel(m, e, u, w);
    lemma_small_mod(u as nat, m as nat);
    lemma_small_mod(w as nat, m as nat);
}

/// One backward step of Montgomery's trick: with `w` the inverse of `P e`, `w P` is the
/// inverse of `e` and `w e` the inverse of `P`.
proof fn lemma_peel(m: int, pp: int, e: int, w: int)
    requires
        is_prime(m),
        0 < pp < m,
        0 < e < m,
        w == inv(m, (pp * e) % m),
    ensures
        (w * pp) % m == inv(m, e),
        (w * e) % m == inv(m, pp),
{
    lemma_small_mod(pp as nat, m as nat);
    lemma_small_mod(e as nat, m as nat);
    lemma_prime_product_nonzero(m, pp, e);
    lemma_mod_bound(pp * e, m);
    lemma_small_mod(((pp * e) % m) as nat, m as nat);
    lemma_prime_invertible(m, (pp * e) % m);
    // (P e) w == 1
    lemma_cong_mod(m, pp * e);
    lemma_cong_mul(m, (pp * e) % m, pp * e, w, w);
    assert((pp * e) * w == e * (w * pp) && (pp * e) * w == pp * (w * e)) by (nonlinear_arith);
    lemma_cong_mod(m, w * pp);
    lemma_cong_mod(m, w * e);
    lemma_cong_mul(m, e, e, (w * pp) % m, w * pp);
    lemma_cong_mul(m, pp, pp, (w * e) % m, w * e);
    lemma_mod_bound(w * pp, m);
    lemma_mod_bound(w * e, m);
    lemma_inv_unique(m, e, (w * pp) % m);
    lemma_inv_unique(m, pp, (w * e) % m);
}

/// Replaces every entry of `v` by its inverse modulo `p`, leaving zero entries as they
/// are, with one inversion and three multiplications per entry: prefix products going
/// forward, then the inverse of the full product peeled off going backward.
pub fn batch_inv_mod(p: u64, v: &mut Vec<u64>)
    requires
        is_prime(p as int),
        forall|i: int| 0 <= i < old(v)@.len() ==> #[trigger] old(v)@[i] < p,
    ensures
        final(v)@ == inverses(p as int, old(v)@),
{
    let ghost m = p as int;
    let ghost s = v@;
    let n = v.len();
    let mut prefix: Vec<u64> = Vec::new();
    let mut acc: u64 = 1;
    let mut i: usize = 0;
    proof {
        assert(s.subrange(0, 0) =~= Seq::<u64>::empty());
        lemma_small_mod(1, m as nat);
    }
    while i < n
        invariant
            m == p,
            is_prime(m),
            s == v@,
            n == s.len(),
            i <= n,
            forall|j: int| 0 <= j < s.len() ==> #[trigger] s[j] < p,
            prefix@.len() == i,
            forall|j: int| 0 <= j < i ==> #[trigger] prefix@[j] == nonzero_product(m, s.subrange(0, j)),
            acc == nonzero_product(m, s.subrange(0, i as int)),
            acc < p,
        decreases n - i,
    {
        prefix.push(acc);
        let e = v[i];
        proof {
            assert(s.subrange(0, i + 1).drop_last() =~= s.subrange(0, i as int));
            assert(s[i as int] < p);
        }
        if e != 0 {
            acc = mul_mod(p, acc, e);
        }
        i = i + 1;
    }
    proof {
        assert(s.subrange(0, n as int) =~= s);
        lemma_nonzero_product_unit(m, s);
    }
    let mut w: u64 = match inv_mod(p, acc) {
        Some(x) => x,
        None => {
            proof {
                assert(false);
            }
            0
        },
    };
    let mut k: usize = n;
    while k > 0
        invariant
            m == p,
            is_prime(m),
            n == s.len(),
            k <= n,
            v@.len() == n,
            prefix@.len() == n,
            forall|j: int| 0 <= j < s.len() ==> #[trigger] s[j] < p,
            forall|j: int| 0 <= j < n ==> #[trigger] prefix@[j] == nonzero_product(m, s.subrange(0, j)),
            forall|j: int| 0 <= j < k ==> #[trigger] v@[j] == s[j],
            forall|j: int| k <= j < n ==> #[trigger] v@[j] == inverses(m, s)[j],
            w == inv(m, nonzero_product(m, s.subrange(0, k as int))),
            w < p,
        decreases k,
    {
        k = k - 1;
        let e = v[k];
        let pk = prefix[k];
        proof {
            assert(s.subrange(0, k + 1).drop_last() =~= s.subrange(0, k as int));
            lemma_nonzero_product_unit(m, s.subrange(0, k as int));
        }
        if e != 0 {
            proof {
                assert(e == s[k as int]);
                lemma_peel(m, pk as int, e as int, w as int);
            }
            let inv_e = mul_mod(p, w, pk);
            w = mul_mod(p, w, e);
            v.set(k, inv_e);
        }
    }
    proof {
        assert(v@ =~= inverses(m, s));
    }
}

} // verus!
