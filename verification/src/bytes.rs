//! Little-endian byte encodings of integers.
use vstd::prelude::*;
use vstd::arithmetic::div_mod::*;
use vstd::arithmetic::mul::*;
use vstd::arithmetic::power::*;

verus! {

/// The `n` low bytes of `v`, least significant first.
pub open spec fn le_bytes(v: nat, n: nat) -> Seq<u8> {
    Seq::new(n, |i: int| ((v / (pow(256, i as nat) as nat)) % 256) as u8)
}

/// The integer whose little-endian bytes are `b`.
pub open spec fn le_value(b: Seq<u8>) -> nat
    decreases b.len(),
{
    if b.len() == 0 {
        0
    } else {
        b[0] as nat + 256 * le_value(b.drop_first())
    }
}

/// `256^i` is positive.
pub proof fn lemma_pow256_pos(i: nat)
    ensures
        pow(256, i) > 0,
{
    lemma_pow_positive(256, i);
}

/// A value of `n` bytes is below `256^n`.
pub proof fn lemma_le_value_bound(b: Seq<u8>)
    ensures
        le_value(b) < pow(256, b.len()),
    decreases b.len(),
{
    reveal(pow);
    if b.len() > 0 {
        lemma_le_value_bound(b.drop_first());
        let t = le_value(b.drop_first());
        let q = pow(256, (b.len() - 1) as nat);
        assert(b[0] as nat + 256 * t < 256 * q) by (nonlinear_arith)
            requires
                t < q,
                b[0] < 256,
        ;
    }
}

/// Decoding the `n` low bytes of `v` gives `v` modulo `256^n`.
pub proof fn lemma_le_roundtrip(v: nat, n: nat)
    ensures
        le_value(le_bytes(v, n)) == v % (pow(256, n) as nat),
    decreases n,
{
    reveal(pow);
    lemma_pow256_pos(n);
    if n == 0 {
        lemma_small_mod(0, 1);
        assert(v % 1 == 0) by {
            lemma_mod_self_0(1);
            lemma_mod_multiples_basic(v as int, 1);
        }
    } else {
        let k = (n - 1) as nat;
        lemma_le_roundtrip(v / 256, k);
        let q = pow(256, k) as nat;
        lemma_pow256_pos(k);
        // le_bytes(v, n).drop_first() == le_bytes(v / 256, k)
        assert forall|i: int| 0 <= i < k implies #[trigger] le_bytes(v, n).drop_first()[i] == le_bytes(
            v / 256,
            k,
        )[i] by {
            let pi = pow(256, i as nat);
            lemma_pow256_pos(i as nat);
            assert(pow(256, (i + 1) as nat) == 256 * pi);
            lemma_div_denominator(v as int, 256, pi);
            assert((v as int) / (256 * pi) == ((v as int) / 256) / pi);
        }
        assert(le_bytes(v, n).drop_first() =~= le_bytes(v / 256, k));
        assert(pow(256, 0) == 1);
        assert(le_bytes(v, n)[0] == (v % 256) as u8);
        // v % 256^n == v % 256 + 256 * ((v / 256) % 256^k)
        lemma_fundamental_div_mod(v as int, 256);
        lemma_fundamental_div_mod((v / 256) as int, q as int);
        let r0 = v % 256;
        let r1 = (v / 256) % q;
        let q1 = (v / 256) / q;
        assert(v == 256 * q1 * q + (r0 + 256 * r1)) by (nonlinear_arith)
            requires
                v == 256 * (v / 256) + r0,
                v / 256 == q * q1 + r1,
        ;
        assert(r0 + 256 * r1 < 256 * q) by (nonlinear_arith)
            requires
                r0 < 256,
                r1 < q,
        ;
        assert(pow(256, n) == 256 * q);
        assert(v == q1 * (256 * q) + (r0 + 256 * r1)) by (nonlinear_arith)
            requires
                v == 256 * q1 * q + (r0 + 256 * r1),
        ;
        lemma_fundamental_div_mod_converse(v as int, (256 * q) as int, q1 as int, (r0 + 256 * r1) as int);
    }
}

/// Writes the `n` low bytes of `v`, least significant first.
pub fn write_le(v: u64, n: usize) -> (r: Vec<u8>)
    ensures
        r@ == le_bytes(v as nat, n as nat),
{
    let mut out: Vec<u8> = Vec::new();
    let mut rest: u64 = v;
    let mut i: usize = 0;
    proof {
        reveal(pow);
        assert(pow(256, 0) == 1);
        lemma_fundamental_div_mod_converse(v as int, 1, v as int, 0);
    }
    while i < n
        invariant
            i <= n,
            out@.len() == i,
            rest as nat == (v as nat) / (pow(256, i as nat) as nat),
            forall|j: int| 0 <= j < i ==> #[trigger] out@[j] == le_bytes(v as nat, n as nat)[j],
        decreases n - i,
    {
        let b = (rest % 256) as u8;
        out.push(b);
        proof {
            let pi = pow(256, i as nat);
            lemma_pow256_pos(i as nat);
            reveal(pow);
            assert(pow(256, (i + 1) as nat) == 256 * pi);
            lemma_div_denominator(v as int, pi, 256);
            assert(pi * 256 == 256 * pi);
        }
        rest = rest / 256;
        i = i + 1;
    }
    proof {
        assert(out@ =~= le_bytes(v as nat, n as nat));
    }
    out
}

/// Reads the integer whose little-endian bytes are `b[start..end]`, at most eight bytes.
pub fn read_le(b: &[u8], start: usize, end: usize) -> (r: u64)
    requires
        start <= end <= b@.len(),
        end - start <= 8,
    ensures
        r as nat == le_value(b@.subrange(start as int, end as int)),
{
    let mut acc: u64 = 0;
    let mut i: usize = end;
    proof {
        assert(b@.subrange(end as int, end as int) =~= Seq::<u8>::empty());
    }
    while i > start
        invariant
            start <= i <= end,
            end <= b@.len(),
            end - start <= 8,
            acc as nat == le_value(b@.subrange(i as int, end as int)),
        decreases i - start,
    {
        let ghost t = b@.subrange(i as int, end as int);
        proof {
            lemma_le_value_bound(t);
            reveal(pow);
            assert(pow(256, t.len()) <= pow(256, 7)) by {
                lemma_pow_increases(256, t.len(), 7);
            }
            reveal_with_fuel(pow, 8);
            assert(pow(256, 7) == 0x100_0000_0000_0000);
        }
        i = i - 1;
        proof {
            assert(b@.subrange(i as int, end as int).drop_first() =~= t);
        }
        acc = acc * 256 + b[i] as u64;
    }
    acc
}

} // verus!
