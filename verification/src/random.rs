//! The generator a search draws from.
//!
//! A search is a function of its seed: every strategy has a stream of its own,
//! forked from one generator in the order the strategies are listed. Only the
//! seeding and the forking are here; the draws are the strategies' own.

use vstd::prelude::*;
use rand::rngs::Xoshiro256PlusPlus;
use rand::SeedableRng;

verus! {

/// The generator, whose state the crate carries and never reads.
#[verifier::external_type_specification]
#[verifier::external_body]
pub struct ExGenerator(Xoshiro256PlusPlus);

/// The words a generator's state holds.
pub uninterp spec fn words(generator: Xoshiro256PlusPlus) -> Seq<u64>;

/// What SplitMix64 gives for a counter.
pub open spec fn mixed(counter: u64) -> u64 {
    let first = (counter ^ (counter >> 30)).wrapping_mul(0xbf58_476d_1ce4_e5b9);
    let second = (first ^ (first >> 27)).wrapping_mul(0x94d0_49bb_1331_11eb);
    second ^ (second >> 31)
}

/// The four words a seed expands to: what SplitMix64 gives for a counter that
/// starts at the seed and grows by the golden ratio's fraction of a word.
pub open spec fn expanded(seed: u64) -> Seq<u64> {
    let first = seed.wrapping_add(0x9e37_79b9_7f4a_7c15);
    let second = first.wrapping_add(0x9e37_79b9_7f4a_7c15);
    let third = second.wrapping_add(0x9e37_79b9_7f4a_7c15);
    let fourth = third.wrapping_add(0x9e37_79b9_7f4a_7c15);
    seq![mixed(first), mixed(second), mixed(third), mixed(fourth)]
}

/// A word turned left by so many bits; `right` is how many that leaves of it.
pub open spec fn turned(word: u64, left: u64, right: u64) -> u64 {
    (word << left) | (word >> right)
}

/// The next word a generator in this state gives: that of xoshiro256++.
pub open spec fn next_word(state: Seq<u64>) -> u64 {
    turned(state[0].wrapping_add(state[3]), 23, 41).wrapping_add(state[0])
}

/// The state a generator is in after a word.
pub open spec fn after_word(state: Seq<u64>) -> Seq<u64> {
    let third = state[2] ^ state[0];
    let fourth = state[3] ^ state[1];
    seq![state[0] ^ fourth, state[1] ^ third, third ^ (state[1] << 17), turned(fourth, 45, 19)]
}

/// What forking a generator in this state leaves: the state of the fork, which is
/// the next four words, and that of the generator after them. Four zeros would be
/// no state, and stand for what zero expands to.
pub open spec fn parted(state: Seq<u64>) -> (Seq<u64>, Seq<u64>) {
    let second = after_word(state);
    let third = after_word(second);
    let fourth = after_word(third);
    let seed = seq![next_word(state), next_word(second), next_word(third), next_word(fourth)];
    let fork = if seed == seq![0u64, 0, 0, 0] {
        expanded(0)
    } else {
        seed
    };
    (fork, after_word(fourth))
}

/// Calls `Xoshiro256PlusPlus::seed_from_u64`, which fills the state with what
/// SplitMix64 gives for the seed.
#[verifier::external_body]
pub(crate) fn seeded(seed: u64) -> (generator: Xoshiro256PlusPlus)
    ensures
        words(generator) == expanded(seed),
{
    Xoshiro256PlusPlus::seed_from_u64(seed)
}

/// Calls `Xoshiro256PlusPlus::from_rng` on another such generator. It fills the
/// seed of the fork with that one's next four words, which are the fork's state
/// unless all are zero.
#[verifier::external_body]
pub(crate) fn forked(generator: &mut Xoshiro256PlusPlus) -> (fork: Xoshiro256PlusPlus)
    ensures
        (words(fork), words(*final(generator))) == parted(words(*old(generator))),
{
    Xoshiro256PlusPlus::from_rng(generator)
}

/// Calls `Xoshiro256PlusPlus::from_rng` on the thread's own generator, which
/// the operating system seeds: nothing is known of what it returns.
#[verifier::external_body]
pub(crate) fn unpredictable() -> (generator: Xoshiro256PlusPlus) {
    Xoshiro256PlusPlus::from_rng(&mut rand::rng())
}

/// The words of a generator after so many forks.
pub open spec fn after_forks(state: Seq<u64>, forks: nat) -> Seq<u64>
    decreases forks,
{
    if forks == 0 {
        state
    } else {
        parted(after_forks(state, (forks - 1) as nat)).1
    }
}

/// The words of a generator's fork after so many others.
pub open spec fn fork_at(state: Seq<u64>, index: nat) -> Seq<u64> {
    parted(after_forks(state, index)).0
}

} // verus!
