//! The randomness capability consumed by the evaluator.
//!
//! The evaluator only ever asks for "the next unsigned integer", so the
//! capability is a small trait. `FixedRolls` replays a fixed sequence and
//! makes evaluation reproducible; `RandomRolls` draws from the thread-local
//! generator of the `rand` crate.

use vstd::prelude::*;

verus! {

/// A sequential source of unsigned integers for the dice roller.
///
/// `future()` is the sequence of draws the source is known to produce next;
/// a source backed by a true generator knows nothing of its future and
/// reports an empty sequence.
pub trait RollSource {
    spec fn future(&self) -> Seq<u32>;

    fn next_u32(&mut self) -> (r: u32)
        ensures
            old(self).future().len() > 0 ==> r == old(self).future()[0] && final(self).future()
                == old(self).future().drop_first(),
            old(self).future().len() == 0 ==> final(self).future().len() == 0,
    ;
}

/// A roll source that replays a fixed sequence of draws and yields `0` once
/// the sequence is exhausted.
pub struct FixedRolls {
    values: Vec<u32>,
    position: usize,
}

impl FixedRolls {
    pub fn new(values: Vec<u32>) -> (s: FixedRolls)
        ensures
            s.future() == values@,
    {
        let s = FixedRolls { values, position: 0 };
        proof {
            assert(s.future() =~= s.values@);
        }
        s
    }
}

impl RollSource for FixedRolls {
    closed spec fn future(&self) -> Seq<u32> {
        if self.position < self.values@.len() {
            self.values@.skip(self.position as int)
        } else {
            Seq::empty()
        }
    }

    fn next_u32(&mut self) -> (r: u32)
        ensures
            old(self).future().len() > 0 ==> r == old(self).future()[0] && final(self).future()
                == old(self).future().drop_first(),
            old(self).future().len() == 0 ==> final(self).future().len() == 0,
    {
        if self.position < self.values.len() {
            let r = self.values[self.position];
            self.position = self.position + 1;
            proof {
                assert(final(self).future() =~= old(self).future().drop_first());
            }
            r
        } else {
            0
        }
    }
}

/// A roll source backed by the thread-local generator of the `rand` crate.
/// Nothing is known of its draws ahead of time.
pub struct RandomRolls {
    rng: rand::rngs::ThreadRng,
}

impl RandomRolls {
    pub fn new() -> RandomRolls {
        RandomRolls { rng: fresh_thread_rng() }
    }
}

impl RollSource for RandomRolls {
    open spec fn future(&self) -> Seq<u32> {
        Seq::empty()
    }

    fn next_u32(&mut self) -> (r: u32)
        ensures
            old(self).future().len() > 0 ==> r == old(self).future()[0] && final(self).future()
                == old(self).future().drop_first(),
            old(self).future().len() == 0 ==> final(self).future().len() == 0,
    {
        thread_rng_next(&mut self.rng)
    }
}

#[verifier::external_type_specification]
#[verifier::external_body]
pub struct ExThreadRng(rand::rngs::ThreadRng);

/// Relies on rand::thread_rng: a handle to the lazily-initialized
/// thread-local random number generator.
#[verifier::external_body]
fn fresh_thread_rng() -> rand::rngs::ThreadRng {
    rand::thread_rng()
}

/// Relies on rand::RngCore::next_u32: one draw from the generator. The
/// result is random, so nothing is promised of it.
#[verifier::external_body]
fn thread_rng_next(rng: &mut rand::rngs::ThreadRng) -> u32 {
    rand::RngCore::next_u32(rng)
}

} // verus!
