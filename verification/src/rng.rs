//! The random part of binding names.
//!
//! The binding of each system of a system tree is named at random, so that
//! two bindings do not collide. The name draws six letters and digits from
//! a generator that is handed to it, so that a caller who seeds the
//! generator gets the same names again.

use vstd::prelude::*;

verus! {

#[verifier::external_type_specification]
#[verifier::external_body]
pub struct ExSmallRng(rand::rngs::SmallRng);

/// `SeedableRng::seed_from_u64` for `SmallRng`: the generator that the seed
/// gives.
#[verifier::external_body]
fn seeded_rng(seed: u64) -> rand::rngs::SmallRng {
    rand::SeedableRng::seed_from_u64(seed)
}

/// `SeedableRng::from_rng` for `SmallRng`, seeded by the operating
/// system's generator (`OsRng`); nothing when that gives no seed.
#[verifier::external_body]
fn fresh_rng() -> Option<rand::rngs::SmallRng> {
    rand::SeedableRng::from_rng(rand::rngs::OsRng).ok()
}

/// An ASCII letter or digit.
pub open spec fn is_alphanumeric(ch: char) -> bool {
    ('a' <= ch && ch <= 'z') || ('A' <= ch && ch <= 'Z') || ('0' <= ch && ch <= '9')
}

/// Only ASCII letters and digits.
pub open spec fn all_alphanumeric(text: Seq<char>) -> bool {
    forall|i: int| 0 <= i < text.len() ==> is_alphanumeric(#[trigger] text[i])
}

/// The number of characters in a slug.
pub const SLUG_LEN: usize = 6;

/// Six ASCII letters and digits.
pub open spec fn is_slug(slug: Seq<char>) -> bool {
    slug.len() == SLUG_LEN && all_alphanumeric(slug)
}

/// `count` characters drawn by `Rng::sample_iter` from `Alphanumeric`,
/// which gives ASCII letters and digits. Which ones is up to the
/// generator.
#[verifier::external_body]
fn random_letters(rng: &mut rand::rngs::SmallRng, count: usize) -> (text: String)
    ensures
        text@.len() == count,
        all_alphanumeric(text@),
{
    rand::Rng::sample_iter(rng, rand::distributions::Alphanumeric).take(count).map(char::from).collect()
}

/// The source of the random part of binding names.
pub struct NodeRng {
    rng: rand::rngs::SmallRng,
}

impl NodeRng {
    /// A source seeded by the operating system, or nothing when it gives
    /// no seed.
    pub fn from_entropy() -> Option<NodeRng> {
        match fresh_rng() {
            Some(rng) => Some(NodeRng { rng }),
            None => None,
        }
    }

    /// A source that gives the same names each time it is made from the
    /// same seed.
    pub fn seeded(seed: u64) -> NodeRng {
        NodeRng { rng: seeded_rng(seed) }
    }

    /// The generator itself: the one that the source holds, handed out to
    /// be drawn from. What the caller leaves of it is what the source holds
    /// afterwards.
    pub fn get(&mut self) -> (generator: &mut rand::rngs::SmallRng)
        ensures
            *generator == old(self).generator(),
            final(self).generator() == *final(generator),
    {
        &mut self.rng
    }

    /// The slug of the next binding name: six letters and digits.
    pub fn slug(&mut self) -> (slug: String)
        ensures
            is_slug(slug@),
    {
        random_letters(&mut self.rng, SLUG_LEN)
    }

    /// Starts the source over from `seed`.
    pub fn reseed(&mut self, seed: u64) {
        self.rng = seeded_rng(seed);
    }

    /// The generator that the source holds.
    pub closed spec fn generator(self) -> rand::rngs::SmallRng {
        self.rng
    }
}

} // verus!
