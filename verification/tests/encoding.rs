use ark_ec::affine::Affine;
use ark_ec::params::SWParams;
use ark_ec::projective::Projective;
use ark_ec::serialize::SerializationError;

fn curve23() -> SWParams {
    SWParams::new(23, 1, 1, 13, 16, vec![4], vec![2], vec![7]).unwrap()
}

/// A modulus of eight bits: the uncompressed x-coordinate has no spare top bit.
fn curve251() -> SWParams {
    SWParams::new(251, 1, 1, 0, 1, vec![1], vec![1], vec![1]).unwrap()
}

fn aff(x: u64, y: u64) -> Affine {
    Affine::new(x, y, false)
}

#[test]
fn encoding_sizes() {
    let c = curve23();
    assert_eq!(Affine::serialized_size(&c), 1);
    assert_eq!(Affine::uncompressed_size(&c), 2);
    assert_eq!(Projective::serialized_size(&c), 1);
    assert_eq!(Projective::uncompressed_size(&c), 2);
    let d = curve251();
    assert_eq!(Affine::serialized_size(&d), 2);
    assert_eq!(Affine::uncompressed_size(&d), 3);
    let e = SWParams::new(1099511627791, 0, 7, 0, 0, vec![1], vec![1], vec![1]).unwrap();
    assert_eq!(Affine::serialized_size(&e), 6);
    assert_eq!(Affine::uncompressed_size(&e), 12);
}

#[test]
fn compressed_encoding() {
    let c = curve23();
    assert_eq!(aff(13, 16).serialize(&c), vec![0x8d]);
    assert_eq!(aff(13, 7).serialize(&c), vec![0x0d]);
    assert_eq!(aff(4, 0).serialize(&c), vec![0x04]);
    assert_eq!(Affine::zero().serialize(&c), vec![0x40]);
    assert_eq!(Affine::new(9, 9, true).serialize(&c), vec![0x40]);
    assert_eq!(Projective::new(12, 11, 2).serialize(&c), vec![0x03]);
    assert_eq!(Projective::zero().serialize(&c), vec![0x40]);
}

#[test]
fn uncompressed_encoding() {
    let c = curve23();
    assert_eq!(aff(13, 16).serialize_uncompressed(&c), vec![13, 16]);
    assert_eq!(Affine::zero().serialize_uncompressed(&c), vec![0, 0x41]);
    assert_eq!(Projective::new(12, 11, 2).serialize_uncompressed(&c), vec![3, 10]);
    assert_eq!(aff(129, 4).serialize_uncompressed(&curve251()), vec![129, 4, 0]);
}

#[test]
fn compressed_roundtrip() {
    let c = curve23();
    for p in [aff(13, 16), aff(13, 7), aff(5, 4), aff(5, 19), aff(17, 3), aff(17, 20), Affine::zero()] {
        let bytes = p.serialize(&c);
        assert_eq!(Affine::deserialize(&bytes, &c), Ok(p));
    }
    let q = Projective::deserialize(&[0x8d], &c).unwrap();
    assert_eq!((q.x, q.y, q.z), (13, 16, 1));
    assert!(Projective::deserialize(&[0x40], &c).unwrap().is_zero());
}

#[test]
fn compressed_decoding_errors() {
    let c = curve23();
    assert_eq!(Affine::deserialize(&[], &c), Err(SerializationError::IoError));
    assert_eq!(Affine::deserialize(&[0xc3], &c), Err(SerializationError::UnexpectedFlags));
    assert_eq!(Affine::deserialize(&[0x3f], &c), Err(SerializationError::IoError));
    assert_eq!(Affine::deserialize(&[0x02], &c), Err(SerializationError::InvalidData));
    assert_eq!(Affine::deserialize(&[0x03], &c), Err(SerializationError::InvalidData));
    assert_eq!(Projective::deserialize(&[0x02], &c).err(), Some(SerializationError::InvalidData));
}

#[test]
fn uncompressed_roundtrip() {
    let c = curve23();
    for p in [aff(13, 16), aff(5, 19), Affine::zero()] {
        let bytes = p.serialize_uncompressed(&c);
        assert_eq!(Affine::deserialize_uncompressed(&bytes, &c), Ok(p));
        assert_eq!(Affine::deserialize_unchecked(&bytes, &c), Ok(p));
    }
    let p = aff(3, 10);
    assert_eq!(Affine::deserialize_unchecked(&p.serialize_uncompressed(&c), &c), Ok(p));
    let q = Projective::deserialize_uncompressed(&[13, 16], &c).unwrap();
    assert_eq!((q.x, q.y, q.z), (13, 16, 1));
    let r = Projective::deserialize_unchecked(&[3, 10], &c).unwrap();
    assert_eq!((r.x, r.y, r.z), (3, 10, 1));
    let d = curve251();
    assert_eq!(Affine::deserialize_unchecked(&aff(1, 76).serialize_uncompressed(&d), &d), Ok(aff(1, 76)));
}

#[test]
fn uncompressed_decoding_errors() {
    let c = curve23();
    assert_eq!(Affine::deserialize_unchecked(&[13], &c), Err(SerializationError::IoError));
    assert_eq!(Affine::deserialize_unchecked(&[0x80, 16], &c), Err(SerializationError::UnexpectedFlags));
    assert_eq!(Affine::deserialize_unchecked(&[13, 0xd0], &c), Err(SerializationError::UnexpectedFlags));
    assert_eq!(Affine::deserialize_unchecked(&[24, 16], &c), Err(SerializationError::IoError));
    assert_eq!(Affine::deserialize_unchecked(&[13, 23], &c), Err(SerializationError::IoError));
    assert_eq!(Affine::deserialize_uncompressed(&[3, 10], &c), Err(SerializationError::InvalidData));
    assert_eq!(Projective::deserialize_uncompressed(&[3, 10], &c).err(), Some(SerializationError::InvalidData));
}

#[test]
fn eight_bit_modulus_rejects_large_uncompressed_x() {
    let d = curve251();
    let bytes = aff(129, 4).serialize_uncompressed(&d);
    assert_eq!(Affine::deserialize_unchecked(&bytes, &d), Err(SerializationError::UnexpectedFlags));
}

#[test]
fn trailing_bytes_are_ignored() {
    let c = curve23();
    assert_eq!(Affine::deserialize(&[0x8d, 0xff], &c), Ok(aff(13, 16)));
    assert_eq!(Affine::deserialize_unchecked(&[13, 16, 99], &c), Ok(aff(13, 16)));
}

#[test]
fn encodings_have_the_reported_sizes() {
    for c in [curve23(), curve251()] {
        for p in [aff(1, 2), aff(0, 1), Affine::zero()] {
            assert_eq!(p.serialize(&c).len(), Affine::serialized_size(&c));
            assert_eq!(p.serialize_uncompressed(&c).len(), Affine::uncompressed_size(&c));
        }
    }
}
