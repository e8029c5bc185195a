//! Shared capabilities of the sketch types.

use vstd::prelude::*;

verus! {

/// Carries a mutable noise seed.
pub trait Seedable {
    /// The seed as contracts see it.
    spec fn spec_seed(&self) -> u32;

    /// Replace the seed.
    fn set_seed(&mut self, seed: u32)
        ensures
            final(self).spec_seed() == seed,
    ;

    /// The current seed.
    fn seed(&self) -> (s: u32)
        ensures
            s == self.spec_seed(),
    ;
}

} // verus!
