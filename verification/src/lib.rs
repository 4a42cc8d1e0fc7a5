//! Short Weierstrass elliptic-curve points in affine and Jacobian coordinates over a
//! prime field, with verified group-law formulas and point (de)serialization.
pub mod modular;
pub mod fermat;
pub mod field;
pub mod batch;
pub mod bytes;
pub mod bits;
pub mod params;
pub mod group_law;
pub mod affine;
pub mod projective;
pub mod scalar_mul;
pub mod ops;
pub mod sample;
pub mod text;
pub mod wipe;
pub mod closure;
pub mod laws;
pub mod serialize;
