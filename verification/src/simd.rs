//! The capability token for the vector unit.
//!
//! The verified metric in this crate is exact integer arithmetic and needs
//! no vector instructions; the token is what callers probe once per batch
//! before committing to an accelerated floating-point front end outside
//! the verified core. Holding a token is proof that the probe succeeded,
//! so token-parameterized code may issue the instructions without
//! re-checking.

use vstd::prelude::*;
use crate::color::{diff_scalar, spec_diff, Color, MAX_DIFF};

verus! {

#[verifier::external_type_specification]
#[verifier::external_body]
pub struct ExSimdToken64(archmage::Desktop64);

/// Relies on archmage's `X64V3Token::summon`: a runtime probe for the
/// x86-64-v3 feature level (AVX2, FMA and kin). Whether a token comes
/// back depends on the machine, so nothing is promised of the outcome.
#[verifier::external_body]
pub fn summon_token() -> (t: Option<archmage::Desktop64>) {
    <archmage::Desktop64 as archmage::SimdToken>::summon()
}

/// The color distance behind a per-call dispatch point. The verified
/// metric is exact integer arithmetic, so the scalar path and any
/// accelerated front end must return this same value; here the scalar
/// form serves every caller.
pub fn diff(x: &Color, y: &Color) -> (d: u64)
    requires
        x.wf(),
        y.wf(),
    ensures
        d == spec_diff(*x, *y),
        d <= MAX_DIFF,
{
    diff_scalar(x, y)
}

} // verus!
