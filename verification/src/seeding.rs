//! The two places where the library leans on outside code: the seeded
//! sampler that places the mines, and the name generator that supplies a
//! default seed.

use crate::text::is_space;
use vstd::prelude::*;

verus! {

/// The indices that the seeded sampler draws for a given seed string,
/// population size and draw count.
pub uninterp spec fn mine_sample(seed: Seq<char>, total: nat, count: nat) -> Seq<usize>;

/// Relies on `rand_seeder::Seeder::from` / `Seeder::make_rng` and
/// `rand::seq::index::sample`. The `Seeder` state is a SipHash of the seed
/// string's bytes, so the generator it yields is a function of the string
/// alone; `sample` returns exactly `count` distinct indices drawn from
/// `0..total` and panics when `count > total`; for `total` within `u32`
/// range it draws only 32-bit values, so the result depends on
/// `(seed, total, count)` alone, on every machine.
#[verifier::external_body]
pub(crate) fn sample_indices(seed: &str, total: usize, count: usize) -> (r: Vec<usize>)
    requires
        count <= total,
        total <= u32::MAX as usize,
    ensures
        r@ == mine_sample(seed@, total as nat, count as nat),
        r@.len() == count,
        forall|k: int| 0 <= k < r@.len() ==> (#[trigger] r@[k]) < total,
        forall|k1: int, k2: int| 0 <= k1 < k2 < r@.len() ==> r@[k1] != r@[k2],
{
    let mut rng: rand_seeder::SipRng = rand_seeder::Seeder::from(seed).make_rng();
    rand::seq::index::sample(&mut rng, total, count).into_vec()
}

/// Relies on `petname::petname(4, "-")`: four words drawn at random from
/// built-in word lists (each entry produced by splitting a word file on
/// whitespace, hence nonempty and whitespace-free), joined by `-`, so every
/// outcome is a nonempty string without whitespace.
#[verifier::external_body]
pub(crate) fn random_seed_name() -> (r: String)
    ensures
        r@.len() > 0,
        forall|k: int| 0 <= k < r@.len() ==> !is_space(#[trigger] r@[k]),
{
    petname::petname(4, "-")
}

} // verus!
