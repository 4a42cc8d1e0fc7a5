//! Zeroizing points, their field-element encodings and default values.
use vstd::prelude::*;
use zeroize::Zeroize;
use crate::affine::Affine;
use crate::params::SWParams;
use crate::projective::Projective;

verus! {

/// Overwrites a `u64` with zero through `zeroize::Zeroize::zeroize`.
///
/// Trusted: for `u64` the zeroize crate writes `u64::default()`, that is zero, with a
/// volatile write.
#[verifier::external_body]
fn wipe_u64(v: &mut u64)
    ensures
        *final(v) == 0,
{
    v.zeroize();
}

/// Overwrites a `bool` with `false` through `zeroize::Zeroize::zeroize`.
///
/// Trusted: for `bool` the zeroize crate writes `bool::default()`, that is `false`,
/// with a volatile write.
#[verifier::external_body]
fn wipe_bool(v: &mut bool)
    ensures
        *final(v) == false,
{
    v.zeroize();
}

impl Affine {
    /// Overwrites both coordinates with zero and clears the infinity flag.
    pub fn zeroize(&mut self)
        ensures
            *final(self) == (Affine { x: 0, y: 0, infinity: false }),
    {
        wipe_u64(&mut self.x);
        wipe_u64(&mut self.y);
        wipe_bool(&mut self.infinity);
    }

    /// The coordinates and the infinity flag as field elements: `[x, y, 0 or 1]`.
    pub fn to_field_elements(&self) -> (r: Vec<u64>)
        ensures
            r@ == seq![self.x, self.y, if self.infinity { 1u64 } else { 0u64 }],
    {
        let flag: u64 = if self.infinity {
            1
        } else {
            0
        };
        let r = vec![self.x, self.y, flag];
        proof {
            assert(r@ =~= seq![self.x, self.y, flag]);
        }
        r
    }
}

impl Projective {
    /// Overwrites all three coordinates with zero.
    pub fn zeroize(&mut self)
        ensures
            *final(self) == (Projective { x: 0, y: 0, z: 0 }),
    {
        wipe_u64(&mut self.x);
        wipe_u64(&mut self.y);
        wipe_u64(&mut self.z);
    }

    /// The field elements of the affine form of `self`.
    pub fn to_field_elements(&self, params: &SWParams) -> (r: Vec<u64>)
        requires
            params.wf(),
            self.is_reduced(params.p()),
        ensures
            ({
                let a = Affine::from_projective_spec(params.p(), *self);
                r@ == seq![a.x, a.y, if a.infinity { 1u64 } else { 0u64 }]
            }),
    {
        let a = Affine::from_projective(self, params);
        a.to_field_elements()
    }
}

impl Default for Affine {
    /// The point at infinity.
    fn default() -> (r: Self)
        ensures
            r == Affine::spec_zero(),
    {
        Affine::zero()
    }
}

impl Default for Projective {
    /// The point at infinity.
    fn default() -> (r: Self)
        ensures
            r == Projective::spec_zero(),
    {
        Projective::zero()
    }
}

} // verus!
