//! Big-endian bit decompositions of multi-limb integers, taken from `ark_ff`.
use vstd::prelude::*;
use ark_ff::BitIteratorBE;

verus! {

/// The bits of an integer held as little-endian `u64` limbs, most significant bit
/// first: `64 * len` bits, the `i`-th being bit `n % 64` of limb `n / 64` where
/// `n = 64 * len - 1 - i`.
pub open spec fn bits_be(limbs: Seq<u64>) -> Seq<bool> {
    Seq::new(
        (limbs.len() * 64) as nat,
        |i: int|
            {
                let n = limbs.len() * 64 - 1 - i;
                (limbs[n / 64] & (1u64 << ((n % 64) as u64))) > 0
            },
    )
}

/// The sequence without its leading `false` entries.
pub open spec fn strip_leading_false(s: Seq<bool>) -> Seq<bool>
    decreases s.len(),
{
    if s.len() > 0 && !s[0] {
        strip_leading_false(s.drop_first())
    } else {
        s
    }
}

/// Stripping leading `false` entries drops a prefix of `false` entries.
pub proof fn lemma_strip_leading_false(s: Seq<bool>) -> (k: int)
    ensures
        0 <= k <= s.len(),
        strip_leading_false(s) == s.subrange(k, s.len() as int),
        forall|j: int| 0 <= j < k ==> !#[trigger] s[j],
    decreases s.len(),
{
    if s.len() > 0 && !s[0] {
        let k1 = lemma_strip_leading_false(s.drop_first());
        assert(s.drop_first().subrange(k1, s.drop_first().len() as int) =~= s.subrange(
            k1 + 1,
            s.len() as int,
        ));
        assert forall|j: int| 0 <= j < k1 + 1 implies !#[trigger] s[j] by {
            if j > 0 {
                assert(s[j] == s.drop_first()[j - 1]);
            }
        }
        k1 + 1
    } else {
        assert(s.subrange(0, s.len() as int) =~= s);
        0
    }
}

/// The bits of `limbs`, most significant first, through `ark_ff::BitIteratorBE::new`.
///
/// Trusted: the contract restates what `BitIteratorBE::next` yields in ark-ff 0.3,
/// namely `s[n / 64] & (1 << (n % 64)) > 0` for `n` counting down from `64 * len - 1`;
/// the bit count `64 * len` is computed in a `usize`, hence the bound on `len`.
#[verifier::external_body]
pub(crate) fn limbs_bits_be(limbs: &[u64]) -> (r: Vec<bool>)
    requires
        limbs@.len() * 64 <= usize::MAX,
    ensures
        r@ == bits_be(limbs@),
{
    BitIteratorBE::new(limbs).collect()
}

/// The bits of `limbs` from the most significant one, through
/// `ark_ff::BitIteratorBE::without_leading_zeros`.
///
/// Trusted: the contract restates that this function is `new` followed by
/// `skip_while(|b| !b)` in ark-ff 0.3.
#[verifier::external_body]
pub(crate) fn limbs_bits_be_without_leading_zeros(limbs: &[u64]) -> (r: Vec<bool>)
    requires
        limbs@.len() * 64 <= usize::MAX,
    ensures
        r@ == strip_leading_false(bits_be(limbs@)),
{
    BitIteratorBE::without_leading_zeros(limbs).collect()
}

} // verus!
