//! Trusted bindings to functions of outside crates.
//!
//! Each item here carries a contract that Verus believes without reading
//! the body; the doc comment names the outside function relied on.
use std::hash::{BuildHasher, BuildHasherDefault, DefaultHasher};
use vstd::prelude::*;

verus! {

use crate::spec_complement;

/// The 64-bit digest std's `DefaultHasher` computes for a 32-bit input.
pub uninterp spec fn seed_mix(x: u32) -> u64;

/// Relies on `packed_seq::complement_base`: the complement of a 2-bit
/// encoded base is `base ^ 2`.
#[verifier::external_body]
pub(crate) fn complement_base(b: u8) -> (r: u8)
    ensures
        r == spec_complement(b),
{
    packed_seq::complement_base(b)
}

/// Relies on `std::hash::DefaultHasher`: every instance built by `new`
/// hashes alike, so the digest depends on the input alone and is named by
/// [`seed_mix`].
#[verifier::external_body]
pub(crate) fn mix_seed(x: u32) -> (r: u64)
    ensures
        r == seed_mix(x),
{
    BuildHasherDefault::<DefaultHasher>::new().hash_one(x)
}

} // verus!
