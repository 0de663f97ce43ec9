//! Chance, as the crate `rand` provides it.

use crate::text::texts;
use rand::seq::SliceRandom;
use rand::Rng;
use vstd::prelude::*;

verus! {

/// `rand`'s `Rng::random` for a byte, on the thread's generator. Any byte may come.
#[verifier::external_body]
pub(crate) fn random_u8() -> (r: u8) {
    rand::rng().random::<u8>()
}

/// `rand::random` for a 32-bit number. Any number may come.
#[verifier::external_body]
pub(crate) fn random_u32() -> (r: u32) {
    rand::random::<u32>()
}

/// `rand`'s `SliceRandom::shuffle`, on the thread's generator: the same strings in
/// some order.
#[verifier::external_body]
pub(crate) fn shuffle(v: &mut Vec<String>)
    ensures
        texts(final(v)@).to_multiset() == texts(old(v)@).to_multiset(),
{
    v.shuffle(&mut rand::rng());
}

} // verus!
