use rand::rngs::StdRng;
use rand::seq::SliceRandom;
use rand::{Rng, SeedableRng};
use vstd::prelude::*;

verus! {

#[verifier::external_type_specification]
#[verifier::external_body]
pub struct ExStdRng(StdRng);

/// The word at position `index` (from 0) of the stream of 32-bit words that
/// `StdRng::seed_from_u64(seed)` yields through `next_u32`. `seed_from_u64`
/// is documented as value-stable, so the stream is a function of the seed.
pub uninterp spec fn seeded_word(seed: u64, index: nat) -> u32;

/// What `SliceRandom::shuffle` does to `len` items when the stream of `seed`
/// stands at word `start`: the order it leaves (entry `i` names the old
/// position of the item now at `i`) and how many words it draws.
pub uninterp spec fn shuffle_outcome(seed: u64, start: nat, len: nat) -> (Seq<int>, nat);

/// The items of `s` in the order `order`.
pub open spec fn reordered<T>(s: Seq<T>, order: Seq<int>) -> Seq<T> {
    Seq::new(order.len(), |i: int| s[order[i]])
}

/// `order` lists each position below `before.len()` once, and `after` holds
/// the items of `before` in that order.
pub open spec fn shuffled<T>(before: Seq<T>, after: Seq<T>, order: Seq<int>) -> bool {
    &&& order.len() == before.len()
    &&& forall|i: int| 0 <= i < order.len() ==> 0 <= #[trigger] order[i] < order.len()
    &&& forall|i: int, j: int| 0 <= i < j < order.len() ==> #[trigger] order[i] != #[trigger] order[j]
    &&& after == reordered(before, order)
}

/// A seeded `StdRng` with, as ghost values, its seed and how many words it
/// has handed out. Only `SeededRng::new` makes one, and each draw goes through
/// the methods below, so the next word is always `seeded_word(seed, drawn)`.
pub struct SeededRng {
    rng: StdRng,
    seed: Ghost<u64>,
    drawn: Ghost<nat>,
}

impl SeededRng {
    /// The seed the generator was made from.
    pub closed spec fn seed(&self) -> u64 {
        self.seed@
    }

    /// How many words of the stream the generator has handed out.
    pub closed spec fn drawn(&self) -> nat {
        self.drawn@
    }

    /// `SeedableRng::seed_from_u64` for `StdRng`: a generator at the start of
    /// the stream of `seed`.
    #[verifier::external_body]
    pub(crate) fn new(seed: u64) -> (r: Self)
        ensures
            r.seed() == seed,
            r.drawn() == 0,
    {
        SeededRng { rng: StdRng::seed_from_u64(seed), seed: Ghost(seed), drawn: Ghost(0) }
    }

    /// `Rng::gen::<u32>` (the `Standard` distribution, that is `next_u32`):
    /// the next word of the stream.
    #[verifier::external_body]
    pub(crate) fn next_word(&mut self) -> (w: u32)
        ensures
            w == seeded_word(old(self).seed(), old(self).drawn()),
            final(self).seed() == old(self).seed(),
            final(self).drawn() == old(self).drawn() + 1,
    {
        self.rng.gen::<u32>()
    }

    /// `SliceRandom::shuffle`: reorders the items by the order that the
    /// stream gives at this point, a permutation of their positions, and
    /// moves the stream on by the number of words that `shuffle_outcome` names.
    #[verifier::external_body]
    pub(crate) fn shuffle<T>(&mut self, items: &mut Vec<T>)
        ensures
            shuffled(
                old(items)@,
                final(items)@,
                shuffle_outcome(old(self).seed(), old(self).drawn(), old(items)@.len()).0,
            ),
            final(self).drawn() == old(self).drawn() + shuffle_outcome(
                old(self).seed(),
                old(self).drawn(),
                old(items)@.len(),
            ).1,
            final(self).seed() == old(self).seed(),
    {
        items.shuffle(&mut self.rng);
    }
}

} // verus!
