//! The source of random draws that the generation algorithms consume.

use rand::rngs::StdRng;
use rand::{Rng, SeedableRng};
use vstd::prelude::*;

verus! {

/// The pseudo-random generator of rand, held without looking inside.
#[verifier::external_type_specification]
#[verifier::external_body]
pub struct ExStdRng(StdRng);

/// Relies on `StdRng::from_entropy` (rand_core): a generator seeded from the
/// operating system, which panics only when the system has no entropy to
/// give.
#[verifier::external_body]
fn entropy_rng() -> StdRng {
    StdRng::from_entropy()
}

/// Relies on `StdRng::seed_from_u64` (rand_core): a generator whose draws are
/// fixed by `seed`.
#[verifier::external_body]
fn seeded_rng(seed: u64) -> StdRng {
    StdRng::seed_from_u64(seed)
}

/// Relies on `Rng::gen_range` (rand): a uniform draw from `0..n`, which
/// panics only on an empty range.
#[verifier::external_body]
fn draw_below(rng: &mut StdRng, n: usize) -> (r: usize)
    requires
        n > 0,
    ensures
        r < n,
{
    rng.gen_range(0..n)
}

/// A uniform random source. It either draws from a pseudo-random
/// generator, or replays a fixed sequence of values in a cycle, which makes
/// the generation algorithms reproducible.
pub struct RandomSource {
    rng: StdRng,
    replay: Vec<usize>,
    next: usize,
}

impl RandomSource {
    /// The values this source replays; empty when it draws from its
    /// generator.
    pub closed spec fn replayed(&self) -> Seq<usize> {
        self.replay@
    }

    /// The position in `replayed()` that the next draw is taken from.
    pub closed spec fn position(&self) -> int {
        if self.replay@.len() > 0 {
            (self.next as int) % (self.replay@.len() as int)
        } else {
            0
        }
    }

    /// Whether this source replays a fixed sequence.
    pub open spec fn replays(&self) -> bool {
        self.replayed().len() > 0
    }

    /// The replayed value that the next draw is taken from.
    pub open spec fn next_replayed(&self) -> usize {
        self.replayed()[self.position()]
    }

    /// Whether this source replays `v` at every draw.
    pub open spec fn replays_only(&self, v: usize) -> bool {
        &&& self.replays()
        &&& forall|i: int| 0 <= i < self.replayed().len() ==> #[trigger] self.replayed()[i] == v
    }

    /// The position of a replaying source lies among its values.
    pub proof fn lemma_position_in_range(&self)
        ensures
            self.replays() ==> 0 <= self.position() < self.replayed().len(),
            forall|v: usize| #[trigger] self.replays_only(v) ==> self.next_replayed() == v,
    {
    }

    /// A source seeded from the operating system.
    pub fn new() -> (r: RandomSource)
        ensures
            !r.replays(),
    {
        RandomSource { rng: entropy_rng(), replay: Vec::new(), next: 0 }
    }

    /// A source whose draws are fixed by `seed`.
    pub fn seeded(seed: u64) -> (r: RandomSource)
        ensures
            !r.replays(),
    {
        RandomSource { rng: seeded_rng(seed), replay: Vec::new(), next: 0 }
    }

    /// A source whose draws take the values of `values` in turn, starting
    /// over after the last; a draw below `n` gives the value modulo `n`. With
    /// no values it draws from a generator seeded with zero.
    pub fn replaying(values: Vec<usize>) -> (r: RandomSource)
        ensures
            r.replayed() == values@,
            r.position() == 0,
    {
        let r = RandomSource { rng: seeded_rng(0), replay: values, next: 0 };
        proof {
            let len = r.replay@.len() as int;
            if len > 0 {
                assert(0int % len == 0) by (nonlinear_arith)
                    requires
                        len > 0,
                ;
            }
        }
        r
    }

    /// A draw from `0..n`, uniform unless the source replays. A replaying
    /// source gives its current value modulo `n` and moves on to the next
    /// value, after the last back to the first.
    pub fn below(&mut self, n: usize) -> (r: usize)
        requires
            n > 0,
        ensures
            r < n,
            final(self).replayed() == old(self).replayed(),
            old(self).replays() ==> r == old(self).next_replayed() % n,
            old(self).replays() ==> final(self).position() == (old(self).position() + 1) % (old(
                self,
            ).replayed().len() as int),
            0 <= final(self).position() < final(self).replayed().len() || !final(self).replays(),
    {
        if self.replay.len() > 0 {
            let len = self.replay.len();
            let i = self.next % len;
            let v = self.replay[i];
            self.next = if i + 1 < len {
                i + 1
            } else {
                0
            };
            proof {
                let l = len as int;
                let j = i as int;
                assert(0 <= j < l);
                if j + 1 < l {
                    assert((j + 1) % l == j + 1) by (nonlinear_arith)
                        requires
                            0 <= j + 1 < l,
                    ;
                    assert((self.next as int) % l == j + 1) by (nonlinear_arith)
                        requires
                            0 <= j + 1 < l,
                            self.next as int == j + 1,
                    ;
                } else {
                    assert((j + 1) % l == 0) by (nonlinear_arith)
                        requires
                            j + 1 == l,
                            l > 0,
                    ;
                    assert(0int % l == 0) by (nonlinear_arith)
                        requires
                            l > 0,
                    ;
                }
            }
            v % n
        } else {
            draw_below(&mut self.rng, n)
        }
    }
}

} // verus!
