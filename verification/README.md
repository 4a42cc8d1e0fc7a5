# ark_ec

Points of short Weierstrass curves `y^2 = x^3 + a x + b` over a prime field, in affine
and Jacobian coordinates, with contracts proved by Verus.

The curve is described at run time by `SWParams` (a prime modulus below `2^64`, the
coefficients, a generator, the cofactor and the scalar field modulus as little-endian
limbs). Field elements are `u64` residues below the modulus.

## Layout

- `src/modular.rs`, `src/fermat.rs`: congruences, inverses modulo a prime, square
  roots, Fermat's little theorem and Euler's criterion.
- `src/field.rs`, `src/batch.rs`: executable field arithmetic (addition, inversion by
  the extended Euclidean algorithm, Tonelli-Shanks square roots, primality by trial
  division) and inversion of many residues with one inversion.
- `src/group_law.rs`: the chord-and-tangent group law and the Jacobian formulas as
  specifications, with proofs that the formulas compute the group law.
- `src/affine.rs`, `src/projective.rs`, `src/ops.rs`, `src/scalar_mul.rs`,
  `src/sample.rs`: the point types and their operations.
- `src/serialize.rs`, `src/bytes.rs`: compressed and uncompressed byte encodings.
- `src/laws.rs`, `src/closure.rs`: laws relating the operations (commutativity,
  negation, identity, conversions, decoding what was encoded, points staying on the
  curve).
- `src/text.rs`: the text of a point.
- Trusted wrappers: `src/bits.rs` (`ark-ff` bit iterators), `src/serialize.rs`
  (`ark-serialize` flags and sizes), `src/wipe.rs` (`zeroize`), `src/text.rs`
  (collecting characters into a `String`).
- `app/lib.rs`: points bound to a curve type, with the operator traits, `Display`,
  ark-serialize's `CanonicalSerialize`/`CanonicalDeserialize` over readers and writers,
  `Zeroize`, `Zero` and random sampling.
