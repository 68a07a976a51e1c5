//! The random stream that a collapse draws from, behind `rand`'s `StdRng`.

use vstd::prelude::*;
use rand::rngs::StdRng;
use rand::{RngCore, SeedableRng};

verus! {

#[verifier::external_type_specification]
#[verifier::external_body]
pub struct ExStdRng(StdRng);

/// Word `i` of the stream of a `StdRng` seeded with `seed`: the generator is
/// deterministic, so the word depends on the seed and the position alone.
pub uninterp spec fn stream_word(seed: u64, i: nat) -> u64;

/// A seeded generator, with the seed it started from and how many words it has
/// handed out.
pub struct Stream {
    pub rng: StdRng,
    pub seed: Ghost<u64>,
    pub pos: Ghost<nat>,
}

/// Relies on `rand::SeedableRng::seed_from_u64` for `StdRng`: a generator at the
/// start of the stream that `seed` fixes.
#[verifier::external_body]
pub fn stream_from(seed: u64) -> (r: Stream)
    ensures
        r.seed@ == seed,
        r.pos@ == 0,
{
    Stream { rng: StdRng::seed_from_u64(seed), seed: Ghost(seed), pos: Ghost(0) }
}

/// Relies on `rand::RngCore::next_u64` for `StdRng`: the next word of the stream.
#[verifier::external_body]
pub fn stream_next(s: &mut Stream) -> (r: u64)
    ensures
        r == stream_word(old(s).seed@, old(s).pos@),
        final(s).seed@ == old(s).seed@,
        final(s).pos@ == old(s).pos@ + 1,
{
    s.rng.next_u64()
}

/// Relies on `rand::thread_rng` and `RngCore::next_u64`: a word from the
/// process's own generator, for use as a seed when none is given.
#[verifier::external_body]
pub(crate) fn fresh_seed() -> u64 {
    rand::thread_rng().next_u64()
}

/// The next `count` words of the stream.
pub fn draw_words(s: &mut Stream, count: usize) -> (r: Vec<u64>)
    ensures
        r@ == Seq::new(count as nat, |i: int| stream_word(old(s).seed@, (old(s).pos@ + i) as nat)),
        final(s).seed@ == old(s).seed@,
        final(s).pos@ == old(s).pos@ + count,
{
    let mut r: Vec<u64> = Vec::new();
    let mut i: usize = 0;
    while i < count
        invariant
            i <= count,
            s.seed@ == old(s).seed@,
            s.pos@ == old(s).pos@ + i,
            r@ == Seq::new(i as nat, |j: int| stream_word(old(s).seed@, (old(s).pos@ + j) as nat)),
        decreases count - i,
    {
        let w = stream_next(s);
        r.push(w);
        i = i + 1;
        assert(r@ =~= Seq::new(i as nat, |j: int| stream_word(old(s).seed@, (old(s).pos@ + j) as nat)));
    }
    r
}

} // verus!
