//! Canonical byte encodings of points: the x-coordinate with two flag bits for the
//! sign of `y` and the point at infinity (compressed), or both coordinates with the
//! flags on `y` (uncompressed). Field elements are written little-endian on
//! `ceil(bits / 8)` bytes, where `bits` counts the bits of the modulus and those of
//! the flags; flags sit in the top bits of the last byte.
use vstd::prelude::*;
use vstd::arithmetic::div_mod::{lemma_fundamental_div_mod, lemma_mod_bound, lemma_small_mod};
use vstd::arithmetic::power::{lemma_pow_multiplies, pow};
use vstd::arithmetic::power2::{lemma_pow2, lemma_pow2_adds, lemma_pow2_pos, lemma_pow2_strictly_increases, lemma2_to64_rest, pow2};
use ark_serialize::{buffer_byte_size, EmptyFlags, Flags, SWFlags};
use crate::affine::{curve_rhs_spec, Affine};
use crate::bits::bits_be;
use crate::bytes::{le_value, le_bytes, lemma_le_roundtrip, lemma_pow256_pos, read_le, write_le};
use crate::field::neg_mod;
use crate::group_law::{aff_mul_bits, on_curve, AffPoint};
use crate::laws::law_point_from_x_recovers;
use crate::modular::is_square;
use crate::params::SWParams;
use crate::projective::Projective;

verus! {

/// The flags carried by a point's encoding.
#[derive(Clone, Copy, Debug, PartialEq, Eq, Structural)]
pub enum YFlag {
    Infinity,
    PositiveY,
    NegativeY,
}

/// Why decoding failed.
#[derive(Clone, Copy, Debug, PartialEq, Eq, Structural)]
pub enum SerializationError {
    /// The bytes decode to no point of the prime order subgroup.
    InvalidData,
    /// The flag bits hold a combination that no flag uses.
    UnexpectedFlags,
    /// Too few bytes, or a coordinate that is not below the modulus.
    IoError,
}

/// The bits of a flag in the last byte: bit 6 for infinity, bit 7 for a positive `y`.
pub open spec fn flag_mask(f: YFlag) -> u8 {
    match f {
        YFlag::Infinity => 64,
        YFlag::PositiveY => 128,
        YFlag::NegativeY => 0,
    }
}

/// Reads the flag from the top two bits of a byte and clears its bits: both bits set is
/// no flag (the byte is kept); bit 6 is infinity, bit 7 a positive `y`, neither a
/// negative `y`.
pub open spec fn flag_take(b: u8) -> (u8, Option<YFlag>) {
    let sign = (b >> 7u8) & 1u8 == 1u8;
    let inf = (b >> 6u8) & 1u8 == 1u8;
    if sign && inf {
        (b, None)
    } else {
        let f = if inf {
            YFlag::Infinity
        } else if sign {
            YFlag::PositiveY
        } else {
            YFlag::NegativeY
        };
        (b & !flag_mask(f), Some(f))
    }
}

/// The mask of a flag, through `ark_serialize::Flags::u8_bitmask` on `SWFlags`.
///
/// Trusted: in ark-serialize 0.3 the mask of `SWFlags::Infinity` is `1 << 6`, that of
/// `SWFlags::PositiveY` is `1 << 7`, and that of `SWFlags::NegativeY` is zero.
#[verifier::external_body]
fn sw_flag_mask(f: YFlag) -> (r: u8)
    ensures
        r == flag_mask(f),
{
    let g = match f {
        YFlag::Infinity => SWFlags::Infinity,
        YFlag::PositiveY => SWFlags::PositiveY,
        YFlag::NegativeY => SWFlags::NegativeY,
    };
    g.u8_bitmask()
}

/// Reads and clears the flag of a byte, through
/// `ark_serialize::Flags::from_u8_remove_flags` on `SWFlags`.
///
/// Trusted: in ark-serialize 0.3 `SWFlags::from_u8` reads bit 7 as the sign and bit 6
/// as infinity, refuses both set, and `from_u8_remove_flags` clears the mask of the flag
/// it read, leaving the byte unchanged when there is none.
#[verifier::external_body]
fn sw_flag_take(b: u8) -> (r: (u8, Option<YFlag>))
    ensures
        r == flag_take(b),
{
    let mut v = b;
    let f = SWFlags::from_u8_remove_flags(&mut v);
    let g = match f {
        Some(SWFlags::Infinity) => Some(YFlag::Infinity),
        Some(SWFlags::PositiveY) => Some(YFlag::PositiveY),
        Some(SWFlags::NegativeY) => Some(YFlag::NegativeY),
        None => None,
    };
    (v, g)
}

/// Whether a byte carries no flag bits, through `ark_serialize::Flags::from_u8` on
/// `EmptyFlags`.
///
/// Trusted: in ark-serialize 0.3 `EmptyFlags::from_u8` accepts exactly the bytes whose
/// top bit is clear.
#[verifier::external_body]
fn empty_flag_accepts(b: u8) -> (r: bool)
    ensures
        r == (b >> 7u8 == 0u8),
{
    EmptyFlags::from_u8(b).is_some()
}

/// The bytes needed for `bits` bits, through `ark_serialize::buffer_byte_size`.
///
/// Trusted: in ark-serialize 0.3 this is `(bits + 7) / 8`.
#[verifier::external_body]
fn byte_size(bits: usize) -> (r: usize)
    requires
        bits + 7 <= usize::MAX,
    ensures
        r == (bits + 7) / 8,
{
    buffer_byte_size(bits)
}

/// The number of bits of `v`.
pub open spec fn bit_len(v: nat) -> nat
    decreases v,
{
    if v == 0 {
        0
    } else {
        1 + bit_len(v / 2)
    }
}

/// A `u64` has at most 64 bits.
proof fn lemma_bit_len_u64(v: nat, k: nat)
    requires
        v < vstd::arithmetic::power2::pow2(k),
    ensures
        bit_len(v) <= k,
    decreases v,
{
    if v > 0 {
        vstd::arithmetic::power2::lemma_pow2_pos(0);
        if k == 0 {
            vstd::arithmetic::power2::lemma_pow2(0);
            vstd::arithmetic::power::lemma_pow0(2);
        } else {
            vstd::arithmetic::power2::lemma_pow2_unfold(k);
            lemma_bit_len_u64(v / 2, (k - 1) as nat);
        }
    }
}

/// The number of bits of `v`.
fn bit_length(v: u64) -> (r: usize)
    ensures
        r == bit_len(v as nat),
        r <= 64,
{
    let mut n: usize = 0;
    let mut w: u64 = v;
    proof {
        vstd::arithmetic::power2::lemma2_to64_rest();
        lemma_bit_len_u64(v as nat, 64);
    }
    while w > 0
        invariant
            bit_len(v as nat) == n + bit_len(w as nat),
            bit_len(v as nat) <= 64,
        decreases w,
    {
        w = w / 2;
        n = n + 1;
    }
    n
}

/// Bytes of a coordinate written without flags.
pub open spec fn plain_bytes(p: int) -> nat {
    (bit_len(p as nat) + 7) / 8
}

/// Bytes of a coordinate written with the two flag bits.
pub open spec fn flagged_bytes(p: int) -> nat {
    (bit_len(p as nat) + 2 + 7) / 8
}

/// `n` little-endian bytes of `v` with `mask` or-ed into the last byte.
pub open spec fn encode_field(v: nat, n: nat, mask: u8) -> Seq<u8> {
    let b = le_bytes(v, n);
    b.update(n - 1, b[n - 1] | mask)
}

/// The flag that the compressed encoding of a point carries.
pub open spec fn point_flag(p: int, a: Affine) -> YFlag {
    if a.infinity {
        YFlag::Infinity
    } else if a.y > (-a.y) % p {
        YFlag::PositiveY
    } else {
        YFlag::NegativeY
    }
}

/// The compressed encoding: the x-coordinate (zero for the point at infinity) and the
/// point's flag.
pub open spec fn compressed(params: &SWParams, a: Affine) -> Seq<u8> {
    let n = flagged_bytes(params.p());
    if a.infinity {
        encode_field(0, n, flag_mask(YFlag::Infinity))
    } else {
        encode_field(a.x as nat, n, flag_mask(point_flag(params.p(), a)))
    }
}

/// The uncompressed encoding: the x-coordinate, then the y-coordinate with the
/// infinity flag (or no flag bits).
pub open spec fn uncompressed(params: &SWParams, a: Affine) -> Seq<u8> {
    let mask = if a.infinity {
        flag_mask(YFlag::Infinity)
    } else {
        0u8
    };
    le_bytes(a.x as nat, plain_bytes(params.p())) + encode_field(
        a.y as nat,
        flagged_bytes(params.p()),
        mask,
    )
}

/// At most eight bytes carry a coordinate's value.
pub open spec fn value_len(n: nat) -> int {
    if n < 8 {
        n as int
    } else {
        8
    }
}

/// Reads a coordinate written with flags from the start of `b`.
pub open spec fn read_flagged(b: Seq<u8>, n: nat, p: int) -> Result<(u64, YFlag), SerializationError> {
    if b.len() < n {
        Err(SerializationError::IoError)
    } else {
        let (cleared, f) = flag_take(b[n - 1]);
        match f {
            None => Err(SerializationError::UnexpectedFlags),
            Some(fl) => {
                let v = le_value(b.subrange(0, n as int).update(n - 1, cleared).subrange(0, value_len(n)));
                if v < p {
                    Ok((v as u64, fl))
                } else {
                    Err(SerializationError::IoError)
                }
            },
        }
    }
}

/// Reads a coordinate written without flags from the start of `b`.
pub open spec fn read_plain(b: Seq<u8>, n: nat, p: int) -> Result<u64, SerializationError> {
    if b.len() < n {
        Err(SerializationError::IoError)
    } else if (b[n - 1] >> 7u8) != 0 {
        Err(SerializationError::UnexpectedFlags)
    } else {
        let v = le_value(b.subrange(0, value_len(n)));
        if v < p {
            Ok(v as u64)
        } else {
            Err(SerializationError::IoError)
        }
    }
}

/// The point lies in the subgroup whose order is the scalar field modulus.
pub open spec fn in_subgroup(params: &SWParams, a: Affine) -> bool {
    aff_mul_bits(params.p(), params.a(), a.point(), bits_be(params.scalar_modulus@))
        == AffPoint::Infinity
}

/// The point that a compressed encoding stands for, once its x-coordinate and flag are
/// read.
pub open spec fn decompress(params: &SWParams, x: u64, f: YFlag) -> Result<Affine, SerializationError> {
    if f == YFlag::Infinity {
        Ok(Affine::spec_zero())
    } else if !is_square(params.p(), curve_rhs_spec(params, x as int)) {
        Err(SerializationError::InvalidData)
    } else {
        let pt = Affine::spec_from_x(params, x, f == YFlag::PositiveY);
        if in_subgroup(params, pt) {
            Ok(pt)
        } else {
            Err(SerializationError::InvalidData)
        }
    }
}

/// Decoding of a compressed encoding.
pub open spec fn decode_compressed(params: &SWParams, b: Seq<u8>) -> Result<Affine, SerializationError> {
    match read_flagged(b, flagged_bytes(params.p()), params.p()) {
        Err(e) => Err(e),
        Ok((x, f)) => decompress(params, x, f),
    }
}

/// Decoding of an uncompressed encoding, without the subgroup check.
pub open spec fn decode_unchecked(params: &SWParams, b: Seq<u8>) -> Result<Affine, SerializationError> {
    let n1 = plain_bytes(params.p());
    match read_plain(b, n1, params.p()) {
        Err(e) => Err(e),
        Ok(x) => match read_flagged(b.skip(n1 as int), flagged_bytes(params.p()), params.p()) {
            Err(e) => Err(e),
            Ok((y, f)) => Ok(Affine { x, y, infinity: f == YFlag::Infinity }),
        },
    }
}

/// Decoding of an uncompressed encoding, with the subgroup check.
pub open spec fn decode_uncompressed(params: &SWParams, b: Seq<u8>) -> Result<Affine, SerializationError> {
    match decode_unchecked(params, b) {
        Err(e) => Err(e),
        Ok(pt) => if in_subgroup(params, pt) {
            Ok(pt)
        } else {
            Err(SerializationError::InvalidData)
        },
    }
}

/// The sizes of the encodings of a field element, for the curve's modulus.
fn sizes(params: &SWParams) -> (r: (usize, usize))
    requires
        params.wf(),
    ensures
        r.0 == plain_bytes(params.p()),
        r.1 == flagged_bytes(params.p()),
        1 <= r.0 <= 8,
        1 <= r.1 <= 9,
{
    let bits = bit_length(params.modulus);
    proof {
        assert(bit_len(params.p() as nat) >= 1) by {
            assert(params.p() > 0);
        }
    }
    (byte_size(bits), byte_size(bits + 2))
}

/// Writes `n` little-endian bytes of `v` with `mask` or-ed into the last one.
fn write_field(v: u64, n: usize, mask: u8) -> (r: Vec<u8>)
    requires
        n >= 1,
    ensures
        r@ == encode_field(v as nat, n as nat, mask),
{
    let mut out = write_le(v, n);
    let last = out[n - 1] | mask;
    out.set(n - 1, last);
    out
}

/// Reads a coordinate written with flags from `b[start..]`.
fn read_field_flagged(b: &[u8], start: usize, n: usize, p: u64) -> (r: Result<(u64, YFlag), SerializationError>)
    requires
        start <= b@.len(),
        1 <= n <= 9,
    ensures
        r == read_flagged(b@.skip(start as int), n as nat, p as int),
{
    let ghost s = b@.skip(start as int);
    if b.len() - start < n {
        return Err(SerializationError::IoError);
    }
    let (cleared, f) = sw_flag_take(b[start + n - 1]);
    match f {
        None => Err(SerializationError::UnexpectedFlags),
        Some(fl) => {
            let mut buf: Vec<u8> = Vec::new();
            let mut i: usize = 0;
            while i < n
                invariant
                    i <= n,
                    start + n <= b@.len(),
                    b@.len() == b.len(),
                    buf@ == b@.subrange(start as int, start + i),
                decreases n - i,
            {
                buf.push(b[start + i]);
                proof {
                    assert(b@.subrange(start as int, start + i + 1) =~= b@.subrange(start as int, start + i).push(b@[start + i]));
                }
                i = i + 1;
            }
            buf.set(n - 1, cleared);
            let k = if n < 8 {
                n
            } else {
                8
            };
            let v = read_le(buf.as_slice(), 0, k);
            proof {
                assert(s.subrange(0, n as int) =~= b@.subrange(start as int, start + n));
                assert(s[n - 1] == b@[start + n - 1]);
            }
            if v < p {
                Ok((v, fl))
            } else {
                Err(SerializationError::IoError)
            }
        },
    }
}

/// Reads a coordinate written without flags from `b[start..]`.
fn read_field_plain(b: &[u8], start: usize, n: usize, p: u64) -> (r: Result<u64, SerializationError>)
    requires
        start <= b@.len(),
        1 <= n <= 8,
    ensures
        r == read_plain(b@.skip(start as int), n as nat, p as int),
{
    let ghost s = b@.skip(start as int);
    if b.len() - start < n {
        return Err(SerializationError::IoError);
    }
    if !empty_flag_accepts(b[start + n - 1]) {
        return Err(SerializationError::UnexpectedFlags);
    }
    let v = read_le(b, start, start + n);
    proof {
        assert(s.subrange(0, n as int) =~= b@.subrange(start as int, start + n));
    }
    if v < p {
        Ok(v)
    } else {
        Err(SerializationError::IoError)
    }
}

impl Affine {
    /// The size of the compressed encoding.
    pub fn serialized_size(params: &SWParams) -> (r: usize)
        requires
            params.wf(),
        ensures
            r == flagged_bytes(params.p()),
    {
        sizes(params).1
    }

    /// The size of the uncompressed encoding.
    pub fn uncompressed_size(params: &SWParams) -> (r: usize)
        requires
            params.wf(),
        ensures
            r == plain_bytes(params.p()) + flagged_bytes(params.p()),
    {
        let (n1, n2) = sizes(params);
        n1 + n2
    }

    /// The compressed encoding: the x-coordinate with the sign of `y` (set when `y` is
    /// the larger of `y` and `-y`), or zero with the infinity flag.
    pub fn serialize(&self, params: &SWParams) -> (r: Vec<u8>)
        requires
            params.wf(),
            self.is_reduced(params.p()),
        ensures
            r@ == compressed(params, *self),
    {
        let (_, n) = sizes(params);
        if self.infinity {
            let mask = sw_flag_mask(YFlag::Infinity);
            write_field(0, n, mask)
        } else {
            let negy = neg_mod(params.modulus, self.y);
            let f = if self.y > negy {
                YFlag::PositiveY
            } else {
                YFlag::NegativeY
            };
            let mask = sw_flag_mask(f);
            write_field(self.x, n, mask)
        }
    }

    /// The uncompressed encoding: both coordinates, the flag of `y` marking the point
    /// at infinity.
    pub fn serialize_uncompressed(&self, params: &SWParams) -> (r: Vec<u8>)
        requires
            params.wf(),
            self.is_reduced(params.p()),
        ensures
            r@ == uncompressed(params, *self),
    {
        let (n1, n2) = sizes(params);
        let mask = if self.infinity {
            sw_flag_mask(YFlag::Infinity)
        } else {
            sw_flag_mask(YFlag::NegativeY)
        };
        let mut out = write_field(self.x, n1, 0);
        let mut ys = write_field(self.y, n2, mask);
        proof {
            let b = le_bytes(self.x as nat, n1 as nat);
            assert(b[n1 - 1] | 0u8 == b[n1 - 1]) by (bit_vector);
            assert(out@ =~= b);
        }
        out.append(&mut ys);
        out
    }

    /// Decodes a compressed encoding from the start of `bytes`, checking that the point
    /// lies on the curve and in the prime order subgroup.
    pub fn deserialize(bytes: &[u8], params: &SWParams) -> (r: Result<Affine, SerializationError>)
        requires
            params.wf(),
        ensures
            r == decode_compressed(params, bytes@),
    {
        let (_, n) = sizes(params);
        proof {
            assert(bytes@.skip(0) =~= bytes@);
        }
        let (x, f) = match read_field_flagged(bytes, 0, n, params.modulus) {
            Err(e) => return Err(e),
            Ok(v) => v,
        };
        if f == YFlag::Infinity {
            return Ok(Affine::zero());
        }
        let greatest = f == YFlag::PositiveY;
        match Affine::get_point_from_x(x, greatest, params) {
            None => Err(SerializationError::InvalidData),
            Some(pt) => {
                if !pt.is_in_correct_subgroup_assuming_on_curve(params) {
                    Err(SerializationError::InvalidData)
                } else {
                    Ok(pt)
                }
            },
        }
    }

    /// Decodes an uncompressed encoding from the start of `bytes`, checking that the
    /// point lies in the prime order subgroup.
    pub fn deserialize_uncompressed(bytes: &[u8], params: &SWParams) -> (r: Result<Affine, SerializationError>)
        requires
            params.wf(),
        ensures
            r == decode_uncompressed(params, bytes@),
    {
        let pt = Self::deserialize_unchecked(bytes, params)?;
        if !pt.is_in_correct_subgroup_assuming_on_curve(params) {
            return Err(SerializationError::InvalidData);
        }
        Ok(pt)
    }

    /// Decodes an uncompressed encoding from the start of `bytes` without checking the
    /// point.
    pub fn deserialize_unchecked(bytes: &[u8], params: &SWParams) -> (r: Result<Affine, SerializationError>)
        requires
            params.wf(),
        ensures
            r == decode_unchecked(params, bytes@),
            r matches Ok(pt) ==> pt.is_reduced(params.p()),
    {
        let (n1, n2) = sizes(params);
        proof {
            assert(bytes@.skip(0) =~= bytes@);
        }
        let x = match read_field_plain(bytes, 0, n1, params.modulus) {
            Err(e) => return Err(e),
            Ok(v) => v,
        };
        let (y, f) = match read_field_flagged(bytes, n1, n2, params.modulus) {
            Err(e) => return Err(e),
            Ok(v) => v,
        };
        Ok(Affine { x, y, infinity: f == YFlag::Infinity })
    }
}

impl Projective {
    /// The compressed encoding of the affine form.
    pub fn serialize(&self, params: &SWParams) -> (r: Vec<u8>)
        requires
            params.wf(),
            self.is_reduced(params.p()),
        ensures
            r@ == compressed(params, Affine::from_projective_spec(params.p(), *self)),
    {
        Affine::from_projective(self, params).serialize(params)
    }

    /// The uncompressed encoding of the affine form.
    pub fn serialize_uncompressed(&self, params: &SWParams) -> (r: Vec<u8>)
        requires
            params.wf(),
            self.is_reduced(params.p()),
        ensures
            r@ == uncompressed(params, Affine::from_projective_spec(params.p(), *self)),
    {
        Affine::from_projective(self, params).serialize_uncompressed(params)
    }

    /// The size of the compressed encoding.
    pub fn serialized_size(params: &SWParams) -> (r: usize)
        requires
            params.wf(),
        ensures
            r == flagged_bytes(params.p()),
    {
        Affine::serialized_size(params)
    }

    /// The size of the uncompressed encoding.
    pub fn uncompressed_size(params: &SWParams) -> (r: usize)
        requires
            params.wf(),
        ensures
            r == plain_bytes(params.p()) + flagged_bytes(params.p()),
    {
        Affine::uncompressed_size(params)
    }

    /// Decodes a compressed encoding into Jacobian coordinates.
    pub fn deserialize(bytes: &[u8], params: &SWParams) -> (r: Result<Projective, SerializationError>)
        requires
            params.wf(),
        ensures
            r == match decode_compressed(params, bytes@) {
                Err(e) => Err(e),
                Ok(a) => Ok(Projective::from_affine_spec(a)),
            },
    {
        let a = Affine::deserialize(bytes, params)?;
        Ok(Projective::from_affine(&a))
    }

    /// Decodes an uncompressed encoding into Jacobian coordinates, with the subgroup check.
    pub fn deserialize_uncompressed(bytes: &[u8], params: &SWParams) -> (r: Result<Projective, SerializationError>)
        requires
            params.wf(),
        ensures
            r == match decode_uncompressed(params, bytes@) {
                Err(e) => Err(e),
                Ok(a) => Ok(Projective::from_affine_spec(a)),
            },
    {
        let a = Affine::deserialize_uncompressed(bytes, params)?;
        Ok(Projective::from_affine(&a))
    }

    /// Decodes an uncompressed encoding into Jacobian coordinates, without checks.
    pub fn deserialize_unchecked(bytes: &[u8], params: &SWParams) -> (r: Result<Projective, SerializationError>)
        requires
            params.wf(),
        ensures
            r == match decode_unchecked(params, bytes@) {
                Err(e) => Err(e),
                Ok(a) => Ok(Projective::from_affine_spec(a)),
            },
    {
        let a = Affine::deserialize_unchecked(bytes, params)?;
        Ok(Projective::from_affine(&a))
    }
}

/// A number is below two to the power of its bit count.
pub proof fn lemma_bit_len_bound(v: nat)
    ensures
        v < pow2(bit_len(v)),
    decreases v,
{
    if v == 0 {
        lemma_pow2_pos(0);
    } else {
        lemma_bit_len_bound(v / 2);
        vstd::arithmetic::power2::lemma_pow2_unfold(bit_len(v));
        lemma_fundamental_div_mod(v as int, 2);
    }
}

/// `2^e` grows with `e`.
proof fn lemma_pow2_le(e1: nat, e2: nat)
    requires
        e1 <= e2,
    ensures
        pow2(e1) <= pow2(e2),
{
    if e1 < e2 {
        lemma_pow2_strictly_increases(e1, e2);
    }
}

/// `256^k == 2^(8k)`.
proof fn lemma_pow256(k: nat)
    ensures
        pow(256, k) == pow2(8 * k) as int,
{
    lemma_pow2(8 * k);
    lemma_pow_multiplies(2, 8, k);
    reveal_with_fuel(pow, 9);
    assert(pow(2, 8) == 256);
}

/// The last of `n` bytes of a value below `2^(8n - t)` is below `2^(8 - t)`.
proof fn lemma_last_byte_bound(v: nat, n: nat, t: nat)
    requires
        1 <= n,
        t <= 8,
        v < pow2((8 * n - t) as nat),
    ensures
        (le_bytes(v, n)[n - 1] as nat) < pow2((8 - t) as nat),
{
    let k = (n - 1) as nat;
    let a = pow(256, k);
    lemma_pow256(k);
    lemma_pow256_pos(k);
    lemma_pow2_adds(8 * k, (8 - t) as nat);
    assert(8 * k + (8 - t) == 8 * n - t);
    let c = pow2((8 - t) as nat);
    lemma_fundamental_div_mod(v as int, a);
    let q = (v as int) / a;
    assert(q < c) by (nonlinear_arith)
        requires
            v == a * q + (v as int) % a,
            (v as int) % a >= 0,
            v < a * c,
            a > 0,
    ;
    assert(q >= 0) by (nonlinear_arith)
        requires
            v == a * q + (v as int) % a,
            (v as int) % a < a,
            v >= 0,
            a > 0,
    ;
    lemma_mod_bound(q, 256);
    vstd::arithmetic::div_mod::lemma_mod_decreases(q as nat, 256);
}

/// A value below `256^k` reads back from its `k` low bytes.
proof fn lemma_le_exact(v: nat, k: nat)
    requires
        v < pow(256, k),
    ensures
        le_value(le_bytes(v, k)) == v,
{
    lemma_le_roundtrip(v, k);
    lemma_small_mod(v, pow(256, k) as nat);
}

/// Reading back a coordinate written with a flag.
pub proof fn lemma_read_flagged_encode(v: nat, n: nat, p: int, f: YFlag, rest: Seq<u8>)
    requires
        1 <= n <= 9,
        v < p,
        v < pow2((8 * n - 2) as nat),
        v < pow2(64),
    ensures
        read_flagged(encode_field(v, n, flag_mask(f)) + rest, n, p) == Ok::<(u64, YFlag), SerializationError>((v as u64, f)),
{
    let b = le_bytes(v, n);
    let s = encode_field(v, n, flag_mask(f)) + rest;
    lemma_last_byte_bound(v, n, 2);
    vstd::arithmetic::power2::lemma2_to64();
    let last = b[n - 1];
    assert(last < 64);
    let mask = flag_mask(f);
    assert(s[n - 1] == last | mask);
    match f {
        YFlag::Infinity => {
            assert(((last | 64u8) >> 7u8) & 1u8 == 0u8 && ((last | 64u8) >> 6u8) & 1u8 == 1u8 && (last
                | 64u8) & !64u8 == last) by (bit_vector)
                requires
                    last < 64u8,
            ;
        },
        YFlag::PositiveY => {
            assert(((last | 128u8) >> 7u8) & 1u8 == 1u8 && ((last | 128u8) >> 6u8) & 1u8 == 0u8 && (
            last | 128u8) & !128u8 == last) by (bit_vector)
                requires
                    last < 64u8,
            ;
        },
        YFlag::NegativeY => {
            assert(((last | 0u8) >> 7u8) & 1u8 == 0u8 && ((last | 0u8) >> 6u8) & 1u8 == 0u8 && (last
                | 0u8) & !0u8 == last) by (bit_vector)
                requires
                    last < 64u8,
            ;
        },
    }
    assert(flag_take(s[n - 1]) == (last, Some(f)));
    let body = s.subrange(0, n as int).update(n - 1, last);
    assert(body =~= b);
    let k = value_len(n) as nat;
    assert(b.subrange(0, k as int) =~= le_bytes(v, k));
    lemma_pow256(k);
    if n <= 8 {
        lemma_pow2_le((8 * n - 2) as nat, 8 * k);
    } else {
        assert(8 * k == 64);
    }
    lemma_le_exact(v, k);
}

/// Reading back a coordinate written without flags, when the top bit of its last byte
/// is clear.
pub proof fn lemma_read_plain_encode(v: nat, n: nat, p: int, rest: Seq<u8>)
    requires
        1 <= n <= 8,
        v < p,
        v < pow2((8 * n - 1) as nat),
    ensures
        read_plain(le_bytes(v, n) + rest, n, p) == Ok::<u64, SerializationError>(v as u64),
{
    let b = le_bytes(v, n);
    let s = b + rest;
    lemma_last_byte_bound(v, n, 1);
    vstd::arithmetic::power2::lemma2_to64();
    let last = b[n - 1];
    assert(last < 128);
    assert(last >> 7u8 == 0u8) by (bit_vector)
        requires
            last < 128u8,
    ;
    assert(s.subrange(0, value_len(n)) =~= le_bytes(v, n));
    lemma_pow256(n);
    lemma_pow2_le((8 * n - 1) as nat, 8 * n);
    lemma_le_exact(v, n);
    lemma2_to64_rest();
    lemma_pow2_le(8 * n, 64);
}

/// The sizes of the encodings of a coordinate, and the room they leave for its value.
proof fn lemma_field_sizes(m: int)
    requires
        2 < m <= u64::MAX,
    ensures
        1 <= plain_bytes(m) <= 8,
        1 <= flagged_bytes(m) <= 9,
        m < pow2((8 * flagged_bytes(m) - 2) as nat),
        m < pow2(64),
{
    vstd::arithmetic::power2::lemma2_to64();
    lemma_bit_len_u64(m as nat, 64);
    lemma_bit_len_bound(m as nat);
    let b = bit_len(m as nat);
    assert(b >= 1);
    lemma_pow2_le(b, (8 * flagged_bytes(m) - 2) as nat);
}

/// Decoding the compressed encoding of a point of the curve that lies in the prime order
/// subgroup gives the point back; the point at infinity comes back as `(0, 1)`.
pub proof fn law_compressed_roundtrip(params: &SWParams, pt: Affine)
    requires
        params.wf(),
        pt.is_reduced(params.p()),
        !pt.infinity ==> on_curve(params.p(), params.a(), params.b(), pt.x as int, pt.y as int)
            && in_subgroup(params, pt),
    ensures
        decode_compressed(params, compressed(params, pt)) == Ok::<Affine, SerializationError>(
            if pt.infinity {
                Affine::spec_zero()
            } else {
                pt
            },
        ),
{
    let m = params.p();
    let n = flagged_bytes(m);
    lemma_field_sizes(m);
    let v: nat = if pt.infinity {
        0
    } else {
        pt.x as nat
    };
    let f = point_flag(m, pt);
    lemma_read_flagged_encode(v, n, m, f, Seq::<u8>::empty());
    assert(compressed(params, pt) + Seq::<u8>::empty() =~= compressed(params, pt));
    if !pt.infinity {
        law_point_from_x_recovers(params, pt);
    }
}

/// Decoding the uncompressed encoding of a point gives it back, when the top bit of the
/// last byte of its x-coordinate is clear (always so unless the bit count of the modulus
/// is a multiple of eight); with the subgroup check, for points of the subgroup.
pub proof fn law_uncompressed_roundtrip(params: &SWParams, pt: Affine)
    requires
        params.wf(),
        pt.is_reduced(params.p()),
        pt.x < pow2((8 * plain_bytes(params.p()) - 1) as nat),
    ensures
        decode_unchecked(params, uncompressed(params, pt)) == Ok::<Affine, SerializationError>(pt),
        in_subgroup(params, pt) ==> decode_uncompressed(params, uncompressed(params, pt)) == Ok::<
            Affine,
            SerializationError,
        >(pt),
{
    let m = params.p();
    let n1 = plain_bytes(m);
    let n2 = flagged_bytes(m);
    lemma_field_sizes(m);
    let f = if pt.infinity {
        YFlag::Infinity
    } else {
        YFlag::NegativeY
    };
    let ey = encode_field(pt.y as nat, n2, flag_mask(f));
    let enc = uncompressed(params, pt);
    assert(enc =~= le_bytes(pt.x as nat, n1) + ey);
    lemma_read_plain_encode(pt.x as nat, n1, m, ey);
    assert(enc.skip(n1 as int) =~= ey + Seq::<u8>::empty());
    lemma_read_flagged_encode(pt.y as nat, n2, m, f, Seq::<u8>::empty());
}

/// The encodings have the lengths that `serialized_size` and `uncompressed_size` report.
pub proof fn law_encoding_sizes(params: &SWParams, pt: Affine)
    requires
        params.wf(),
    ensures
        compressed(params, pt).len() == flagged_bytes(params.p()),
        uncompressed(params, pt).len() == plain_bytes(params.p()) + flagged_bytes(params.p()),
{
    lemma_field_sizes(params.p());
}

/// A positive number is at least two to the power of its bit count less one.
proof fn lemma_bit_len_lower(v: nat)
    requires
        v >= 1,
    ensures
        pow2((bit_len(v) - 1) as nat) <= v,
    decreases v,
{
    if v == 1 {
        assert(bit_len(0) == 0);
        lemma_pow2(0);
        vstd::arithmetic::power::lemma_pow0(2);
    } else {
        lemma_bit_len_lower(v / 2);
        vstd::arithmetic::power2::lemma_pow2_unfold((bit_len(v) - 1) as nat);
    }
}

/// Each coordinate is written on the fewest bytes that hold the modulus's bits: without
/// flags on the fewest bytes of `8 n` bits above the modulus, with the two flag bits on
/// the fewest bytes of `8 n - 2` bits above it.
pub proof fn law_field_sizes_minimal(params: &SWParams)
    requires
        params.wf(),
    ensures
        params.p() < pow2(8 * plain_bytes(params.p())),
        plain_bytes(params.p()) >= 2 ==> pow2((8 * (plain_bytes(params.p()) - 1)) as nat) <= params.p(),
        params.p() < pow2((8 * flagged_bytes(params.p()) - 2) as nat),
        flagged_bytes(params.p()) >= 2 ==> pow2((8 * (flagged_bytes(params.p()) - 1) - 2) as nat)
            <= params.p(),
{
    let m = params.p();
    let b = bit_len(m as nat);
    lemma_field_sizes(m);
    lemma_bit_len_bound(m as nat);
    lemma_bit_len_lower(m as nat);
    lemma_pow2_le(b, 8 * plain_bytes(m));
    if plain_bytes(m) >= 2 {
        lemma_pow2_le((8 * (plain_bytes(m) - 1)) as nat, (b - 1) as nat);
    }
    if flagged_bytes(m) >= 2 {
        lemma_pow2_le((8 * (flagged_bytes(m) - 1) - 2) as nat, (b - 1) as nat);
    }
}

/// Raising the last byte of a little-endian number by `d` raises the number by
/// `d 256^(len - 1)`.
proof fn lemma_le_value_raise_last(s: Seq<u8>, d: int)
    requires
        s.len() >= 1,
        0 <= d,
        s.last() + d < 256,
    ensures
        le_value(s.update(s.len() - 1, (s.last() + d) as u8)) == le_value(s) + d * pow(256, (s.len() - 1) as nat),
    decreases s.len(),
{
    let n = s.len();
    let t = s.update(n - 1, (s.last() + d) as u8);
    reveal(pow);
    if n == 1 {
        assert(t.drop_first() =~= Seq::<u8>::empty());
        assert(s.drop_first() =~= Seq::<u8>::empty());
        assert(pow(256, 0) == 1);
    } else {
        let r = s.drop_first();
        lemma_le_value_raise_last(r, d);
        assert(t.drop_first() =~= r.update(r.len() - 1, (r.last() + d) as u8));
        let q = pow(256, (n - 2) as nat);
        assert(pow(256, (n - 1) as nat) == 256 * q);
        assert(256 * (le_value(r) + d * q) == 256 * le_value(r) + d * (256 * q)) by (nonlinear_arith);
    }
}

/// The little-endian value of a coordinate written with flag bits: the coordinate plus
/// the mask times `256^(n - 1)`.
proof fn lemma_encode_value(v: nat, n: nat, mask: u8)
    requires
        1 <= n <= 9,
        v < pow2((8 * n - 2) as nat),
        mask == 0 || mask == 64 || mask == 128,
    ensures
        encode_field(v, n, mask).len() == n,
        le_value(encode_field(v, n, mask)) == v + mask * pow(256, (n - 1) as nat),
{
    let b = le_bytes(v, n);
    lemma_last_byte_bound(v, n, 2);
    vstd::arithmetic::power2::lemma2_to64();
    let last = b[n - 1];
    assert(last < 64);
    assert(last | mask == last + mask) by (bit_vector)
        requires
            last < 64u8,
            mask == 0u8 || mask == 64u8 || mask == 128u8,
    ;
    assert(encode_field(v, n, mask) =~= b.update(n - 1, (b.last() + mask) as u8));
    lemma_le_value_raise_last(b, mask as int);
    lemma_pow256(n);
    lemma_pow2_le((8 * n - 2) as nat, 8 * n);
    lemma_le_exact(v, n);
}

/// The compressed encoding, read as a little-endian number, is the x-coordinate plus
/// `128 * 256^(n - 1)` (the top bit of the last byte) exactly when `y` is the larger of `y`
/// and `-y`; the point at infinity is zero plus `64 * 256^(n - 1)` (the bit below it).
pub proof fn law_compressed_value(params: &SWParams, pt: Affine)
    requires
        params.wf(),
        pt.is_reduced(params.p()),
    ensures
        compressed(params, pt).len() == flagged_bytes(params.p()),
        le_value(compressed(params, pt)) == if pt.infinity {
            64 * pow(256, (flagged_bytes(params.p()) - 1) as nat)
        } else if pt.y > (-pt.y) % params.p() {
            pt.x + 128 * pow(256, (flagged_bytes(params.p()) - 1) as nat)
        } else {
            pt.x as int
        },
{
    let m = params.p();
    let n = flagged_bytes(m);
    lemma_field_sizes(m);
    let v: nat = if pt.infinity {
        0
    } else {
        pt.x as nat
    };
    lemma_encode_value(v, n, flag_mask(point_flag(m, pt)));
}

/// The uncompressed encoding is the x-coordinate on `plain_bytes` little-endian bytes,
/// then the y-coordinate on `flagged_bytes` little-endian bytes, plus `64 * 256^(n - 1)`
/// (bit 6 of its last byte) for the point at infinity; this holds for every coordinate
/// below the modulus.
pub proof fn law_uncompressed_value(params: &SWParams, pt: Affine)
    requires
        params.wf(),
        pt.is_reduced(params.p()),
    ensures
        uncompressed(params, pt).len() == plain_bytes(params.p()) + flagged_bytes(params.p()),
        le_value(uncompressed(params, pt).subrange(0, plain_bytes(params.p()) as int)) == pt.x,
        le_value(
            uncompressed(params, pt).subrange(
                plain_bytes(params.p()) as int,
                (plain_bytes(params.p()) + flagged_bytes(params.p())) as int,
            ),
        ) == pt.y + if pt.infinity {
            64 * pow(256, (flagged_bytes(params.p()) - 1) as nat)
        } else {
            0
        },
{
    let m = params.p();
    let n1 = plain_bytes(m);
    let n2 = flagged_bytes(m);
    law_field_sizes_minimal(params);
    lemma_field_sizes(m);
    let mask: u8 = if pt.infinity {
        64
    } else {
        0
    };
    lemma_encode_value(pt.y as nat, n2, mask);
    let u = uncompressed(params, pt);
    assert(u.subrange(0, n1 as int) =~= le_bytes(pt.x as nat, n1));
    assert(u.subrange(n1 as int, (n1 + n2) as int) =~= encode_field(pt.y as nat, n2, mask));
    lemma_pow256(n1);
    lemma_le_exact(pt.x as nat, n1);
}

/// A compressed encoding decodes to a finite point only with reduced coordinates on the
/// curve, whose y is the larger of `y` and `-y` when the top bit of the last byte is set
/// and the smaller one when it is clear; it decodes to the point at infinity only as
/// `(0, 1)`, when bit 6 of the last byte is set.
pub proof fn law_decode_compressed_sign(params: &SWParams, b: Seq<u8>)
    requires
        params.wf(),
    ensures
        decode_compressed(params, b) matches Ok(pt) ==> {
            let last = b[flagged_bytes(params.p()) - 1];
            &&& b.len() >= flagged_bytes(params.p())
            &&& pt.infinity ==> pt == Affine::spec_zero() && (last >> 6u8) & 1u8 == 1u8
            &&& !pt.infinity ==> {
                &&& pt.is_reduced(params.p())
                &&& on_curve(params.p(), params.a(), params.b(), pt.x as int, pt.y as int)
                &&& (last >> 7u8) & 1u8 == 1u8 ==> pt.y >= (-pt.y) % params.p()
                &&& (last >> 7u8) & 1u8 == 0u8 ==> pt.y <= (-pt.y) % params.p()
            }
        },
{
    let m = params.p();
    let n = flagged_bytes(m);
    if let Ok((x, f)) = read_flagged(b, n, m) {
        let last = b[n - 1];
        let sign = (last >> 7u8) & 1u8 == 1u8;
        let inf = (last >> 6u8) & 1u8 == 1u8;
        assert(((last >> 7u8) & 1u8 == 1u8) || ((last >> 7u8) & 1u8 == 0u8)) by (bit_vector);
        if f != YFlag::Infinity && is_square(m, curve_rhs_spec(params, x as int)) {
            crate::laws::law_point_from_x_on_curve(params, x, f == YFlag::PositiveY);
            let c = curve_rhs_spec(params, x as int);
            lemma_mod_bound(x * x * x + params.a() * x + params.b(), m);
            lemma_small_mod(c as nat, m as nat);
            let y0 = choose|y: int| 0 <= y < m && #[trigger] ((y * y) % m) == c % m;
            crate::modular::lemma_selected_root_exists(m, c, f == YFlag::PositiveY, y0);
        }
    }
}

/// Reading a coordinate with flags: when it succeeds on at most eight bytes, the bytes
/// read as a little-endian number are the coordinate plus the flag's mask times
/// `256^(n - 1)`.
proof fn lemma_read_flagged_value(b: Seq<u8>, n: nat, p: int)
    requires
        1 <= n <= 8,
    ensures
        read_flagged(b, n, p) matches Ok((v, f)) ==> le_value(b.subrange(0, n as int)) == v + flag_mask(f)
            * pow(256, (n - 1) as nat),
{
    if let Ok((v, f)) = read_flagged(b, n, p) {
        let last = b[n - 1];
        let (cleared, _) = flag_take(last);
        let mask = flag_mask(f);
        assert(((last >> 7u8) & 1u8 == 1u8 || (last >> 7u8) & 1u8 == 0u8) && ((last >> 6u8) & 1u8
            == 1u8 || (last >> 6u8) & 1u8 == 0u8)) by (bit_vector);
        assert(cleared + mask == last) by (bit_vector)
            requires
                cleared == last & !mask,
                (mask == 64u8 && (last >> 6u8) & 1u8 == 1u8 && (last >> 7u8) & 1u8 == 0u8) || (mask
                    == 128u8 && (last >> 7u8) & 1u8 == 1u8 && (last >> 6u8) & 1u8 == 0u8) || (mask
                    == 0u8 && (last >> 7u8) & 1u8 == 0u8 && (last >> 6u8) & 1u8 == 0u8),
        ;
        let t = b.subrange(0, n as int).update(n - 1, cleared);
        assert(t.subrange(0, value_len(n)) =~= t);
        lemma_le_value_raise_last(t, mask as int);
        assert(t.update(n - 1, (t.last() + mask) as u8) =~= b.subrange(0, n as int));
        crate::bytes::lemma_le_value_bound(t);
        lemma_pow256(n);
        lemma_pow2_le(8 * n, 64);
        vstd::arithmetic::power2::lemma2_to64();
    }
}

/// A compressed encoding of at most eight bytes that decodes to a finite point reads, as
/// a little-endian number, as its x-coordinate plus `128 * 256^(n - 1)` exactly when the
/// top bit of the last byte is set.
pub proof fn law_decode_compressed_value(params: &SWParams, b: Seq<u8>)
    requires
        params.wf(),
        flagged_bytes(params.p()) <= 8,
    ensures
        decode_compressed(params, b) matches Ok(pt) ==> (!pt.infinity ==> le_value(
            b.subrange(0, flagged_bytes(params.p()) as int),
        ) == pt.x + if (b[flagged_bytes(params.p()) - 1] >> 7u8) & 1u8 == 1u8 {
            128 * pow(256, (flagged_bytes(params.p()) - 1) as nat)
        } else {
            0
        }),
{
    let m = params.p();
    let n = flagged_bytes(m);
    lemma_field_sizes(m);
    lemma_read_flagged_value(b, n, m);
}

/// An uncompressed encoding that decodes gives back the little-endian number of its
/// first `plain_bytes` bytes as the x-coordinate, and the point at infinity exactly when
/// bit 6 of the last byte is set.
pub proof fn law_decode_unchecked_value(params: &SWParams, b: Seq<u8>)
    requires
        params.wf(),
    ensures
        decode_unchecked(params, b) matches Ok(pt) ==> {
            &&& pt.is_reduced(params.p())
            &&& le_value(b.subrange(0, plain_bytes(params.p()) as int)) == pt.x
            &&& pt.infinity == ((b[plain_bytes(params.p()) + flagged_bytes(params.p()) - 1] >> 6u8)
                & 1u8 == 1u8)
        },
{
    let m = params.p();
    let n1 = plain_bytes(m);
    lemma_field_sizes(m);
    if let Ok(pt) = decode_unchecked(params, b) {
        assert(b.subrange(0, n1 as int).subrange(0, value_len(n1)) =~= b.subrange(0, n1 as int));
        assert(b.subrange(0, value_len(n1)) =~= b.subrange(0, n1 as int));
        let s = b.skip(n1 as int);
        let n2 = flagged_bytes(m);
        assert(s[n2 - 1] == b[n1 + n2 - 1]);
        let last = s[n2 - 1];
        assert(((last >> 7u8) & 1u8 == 1u8 && (last >> 6u8) & 1u8 == 1u8) || !((last >> 6u8) & 1u8
            == 1u8) || ((last >> 6u8) & 1u8 == 1u8)) by (bit_vector);
    }
}

} // verus!
