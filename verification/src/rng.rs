//! Random choices, made by the `rand` crate's thread-local generator.

use vstd::prelude::*;
use rand::seq::{IndexedRandom, IteratorRandom};

verus! {

/// Calls `IteratorRandom::choose` on the range `0..n`. The range knows its
/// exact length, so `rand` returns `None` exactly when the range is empty and
/// otherwise one of its numbers; which one is left to chance and unstated.
#[verifier::external_body]
pub(crate) fn roll_below(n: u32) -> (r: Option<u32>)
    ensures
        r is None <==> n == 0,
        r matches Some(x) ==> x < n,
{
    (0..n).choose(&mut rand::rng())
}

/// `r` is nothing when `v` is empty, and otherwise one of the handles of `v`.
pub(crate) open spec fn chosen_from(v: Seq<u64>, r: Option<u64>) -> bool {
    &&& r is None <==> v.len() == 0
    &&& r matches Some(x) ==> v.contains(x)
}

/// Calls `IteratorRandom::choose` on an iterator over the handles. The
/// iterator knows its exact length, so `rand` returns `None` exactly when there
/// is no handle and otherwise one of them; which one is left to chance and
/// unstated.
#[verifier::external_body]
pub(crate) fn choose_from_iter(v: &Vec<u64>) -> (r: Option<u64>)
    ensures
        chosen_from(v@, r),
{
    v.iter().choose(&mut rand::rng()).copied()
}

/// Calls `IndexedRandom::choose` on the slice of handles, which returns
/// `None` exactly when the slice is empty and otherwise one of its handles;
/// which one is left to chance and unstated.
#[verifier::external_body]
pub(crate) fn choose_from_slice(v: &Vec<u64>) -> (r: Option<u64>)
    ensures
        chosen_from(v@, r),
{
    v.as_slice().choose(&mut rand::rng()).copied()
}

} // verus!
