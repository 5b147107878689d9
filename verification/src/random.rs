use rand::seq::SliceRandom;
use vstd::prelude::*;

verus! {

/// Puts the items of `v` in a random order, through `rand`'s
/// `SliceRandom::shuffle` with the thread-local generator (`rand::thread_rng`).
/// Claimed of it: the same items come out, each as often as it went in (the
/// source swaps items in place and nothing else). Which order comes out
/// depends on chance and is left open.
#[verifier::external_body]
pub(crate) fn shuffle_in_place<T>(v: &mut Vec<T>)
    ensures
        final(v)@.to_multiset() == old(v)@.to_multiset(),
{
    v.shuffle(&mut rand::thread_rng());
}

/// One item of `v` picked at random, through `rand`'s `SliceRandom::choose`
/// with the thread-local generator (`rand::thread_rng`), copied out.
/// Claimed of it: nothing comes out exactly when `v` is empty, and what comes
/// out is an item of `v`. Which item depends on chance and is left open.
#[verifier::external_body]
pub(crate) fn pick_one<T: Copy>(v: &Vec<T>) -> (r: Option<T>)
    ensures
        r is None <==> v@.len() == 0,
        r matches Some(x) ==> v@.contains(x),
{
    v.choose(&mut rand::thread_rng()).copied()
}

} // verus!
