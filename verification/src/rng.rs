use vstd::prelude::*;
use rand::seq::SliceRandom;
use rand::Rng;

verus! {

/// Relies on rand's `SliceRandom::shuffle` (a Fisher-Yates pass over the
/// slice that only swaps elements in place), so the length and the multiset
/// of elements are unchanged; the order that comes back is arbitrary.
#[verifier::external_body]
pub(crate) fn shuffle<T>(v: &mut Vec<T>)
    ensures
        final(v)@.len() == old(v)@.len(),
        final(v)@.to_multiset() == old(v)@.to_multiset(),
{
    v.shuffle(&mut rand::thread_rng());
}

/// Relies on rand's `Rng::gen_range` over the non-empty range
/// `b'a'..=b'z'`, which returns a byte inside that range.
#[verifier::external_body]
pub(crate) fn random_lowercase() -> (c: char)
    ensures
        'a' <= c && c <= 'z',
{
    rand::thread_rng().gen_range(b'a'..=b'z') as char
}

} // verus!
