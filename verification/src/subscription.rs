//! Recipes, their identity digests, and declared subscriptions.

use vstd::prelude::*;

verus! {

/// Variant tag entering the digest of the periodic timer recipe.
pub const PERIODIC_TIMER_TAG: u64 = 1;

/// A process-stable identity for one declared event source.
///
/// Two recipes describe the same declared source exactly when their
/// digests are equal. The digest combines a per-variant tag with the
/// variant's construction parameters, so recipes of different variants,
/// or of the same variant with different parameters, never collide.
#[derive(Clone, Copy, PartialEq, Eq, Hash, Debug, Structural)]
pub struct Digest {
    pub bits: u128,
}

/// A declarative description of one recurring asynchronous event source.
///
/// A recipe carries only construction parameters: it is cheap to build
/// and to hash, and is turned into a live sequence only once the registry
/// has decided that its identity is new.
#[derive(Clone, Copy, PartialEq, Eq, Debug, Structural)]
pub enum Recipe {
    /// Emits a timestamp after every `interval_nanos` nanoseconds, forever.
    PeriodicTimer { interval_nanos: u64 },
}

impl Recipe {
    /// The digest of this recipe: variant tag in the high 64 bits,
    /// construction parameters in the low 64 bits.
    pub open spec fn digest_spec(self) -> Digest {
        match self {
            Recipe::PeriodicTimer { interval_nanos } => Digest {
                bits: ((PERIODIC_TIMER_TAG as u128) * 0x1_0000_0000_0000_0000 + (
                interval_nanos as u128)) as u128,
            },
        }
    }

    /// A recipe is well formed when its parameters are in range;
    /// a periodic timer requires a positive interval.
    pub open spec fn wf(self) -> bool {
        match self {
            Recipe::PeriodicTimer { interval_nanos } => interval_nanos > 0,
        }
    }

    /// Computes the identity digest of this recipe.
    pub fn identity_hash(&self) -> (d: Digest)
        ensures
            d == self.digest_spec(),
    {
        match self {
            Recipe::PeriodicTimer { interval_nanos } => {
                let tag: u128 = PERIODIC_TIMER_TAG as u128;
                let bits: u128 = tag * 0x1_0000_0000_0000_0000 + (*interval_nanos as u128);
                Digest { bits }
            },
        }
    }
}

/// Law: the identity digest is deterministic. Recipes of equal variant
/// and equal construction parameters have equal digests.
pub proof fn lemma_identity_deterministic(r1: Recipe, r2: Recipe)
    requires
        r1 == r2,
    ensures
        r1.digest_spec() == r2.digest_spec(),
{
}

/// Law: the identity digest is injective. Recipes with different
/// construction parameters (or of different variants) have different
/// digests, so no two distinct durations ever collide.
pub proof fn lemma_identity_injective(r1: Recipe, r2: Recipe)
    requires
        r1.digest_spec() == r2.digest_spec(),
    ensures
        r1 == r2,
{
}

/// One declared event source, as handed to the registry each cycle.
#[derive(Clone, Copy, PartialEq, Eq, Debug, Structural)]
pub struct Subscription {
    recipe: Recipe,
}

impl Subscription {
    /// The recipe this subscription declares.
    pub closed spec fn recipe_spec(self) -> Recipe {
        self.recipe
    }

    /// Returns the declared recipe, for the backend that instantiates it.
    pub fn recipe(&self) -> (r: Recipe)
        ensures
            r == self.recipe_spec(),
    {
        self.recipe
    }
}

/// Wraps a recipe into a declared subscription.
pub fn from_recipe(recipe: Recipe) -> (s: Subscription)
    ensures
        s.recipe_spec() == recipe,
{
    Subscription { recipe }
}

} // verus!
