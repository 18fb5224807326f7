//! The PCG-64 generator of `rand_pcg`, as a source of 32-bit words.

use rand::{RngCore, SeedableRng};
use rand_pcg::Pcg64;
use vstd::prelude::*;

verus! {

/// The word that a `Pcg64` made from `seed` hands out after `skipped`
/// earlier draws.
pub uninterp spec fn pcg64_word(seed: Seq<u8>, skipped: nat) -> u32;

/// Makes a `rand_pcg::Pcg64` with `SeedableRng::from_seed`, moves it past
/// `skipped` draws with `Pcg64::advance` and takes one word from it with
/// `RngCore::next_u32`. The generator has no state but the seed and its
/// position, so the word depends on the two arguments alone; the contract
/// claims no more than that.
#[verifier::external_body]
pub(crate) fn draw_word(seed: &[u8; 32], skipped: u128) -> (word: u32)
    ensures
        word == pcg64_word(seed@, skipped as nat),
{
    let mut generator = Pcg64::from_seed(*seed);
    generator.advance(skipped);
    generator.next_u32()
}

} // verus!
