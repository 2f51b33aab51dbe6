//! Random draws.

use vstd::prelude::*;

verus! {

/// What the generator draws below a bound from a state, and the state that it is left in. The
/// generator draws words of the machine's width, so a draw depends on the width too.
pub uninterp spec fn drawn(state: u64, bound: usize, width: u32) -> (usize, u64);

/// Draws with `fastrand::Rng::usize` from the generator that `fastrand::Rng::with_seed` makes
/// of the state, and reads the state back with `fastrand::Rng::get_seed`. The generator holds
/// nothing but that state, so both results are functions of it, of the bound and of the width
/// of a word; the draw is below the bound. An empty range, on which the generator panics, is
/// left out.
#[verifier::external_body]
fn draw_from(state: u64, bound: usize) -> (r: (usize, u64))
    requires
        bound > 0,
    ensures
        r == drawn(state, bound, usize::BITS),
        r.0 < bound,
{
    let mut rng = fastrand::Rng::with_seed(state);
    let draw = rng.usize(0..bound);
    (draw, rng.get_seed())
}

/// Draws with `fastrand::usize` from the thread's generator. What comes out rests on chance;
/// it is below the bound. An empty range, on which the generator panics, is left out.
#[verifier::external_body]
fn draw(bound: usize) -> (r: usize)
    requires
        bound > 0,
    ensures
        r < bound,
{
    fastrand::usize(0..bound)
}

/// The thread's generator can have returned `value` when asked for a number below `bound`. Only a
/// draw shows this of a value.
pub closed spec fn thread_drew(bound: usize, value: usize) -> bool {
    call_ensures(draw, (bound,), value)
}

/// What was drawn is below the bound.
pub proof fn lemma_thread_drew(bound: usize, value: usize)
    requires
        bound > 0,
        thread_drew(bound, value),
    ensures
        value < bound,
{
}

/// Draws a number below a bound from the thread's generator.
pub fn draw_below(bound: usize) -> (r: usize)
    requires
        bound > 0,
    ensures
        r < bound,
        thread_drew(bound, r),
{
    draw(bound)
}

/// A reproducible stream of draws.
#[derive(Clone, Copy, Debug, PartialEq, Eq, Structural)]
pub struct SeededStream {
    pub state: u64,
}

impl SeededStream {
    /// The stream that starts from a seed.
    pub fn with_seed(seed: u64) -> (r: Self)
        ensures
            r.state == seed,
    {
        SeededStream { state: seed }
    }

    /// Draws a number below a bound.
    pub fn draw(&mut self, bound: usize) -> (r: usize)
        requires
            bound > 0,
        ensures
            r < bound,
            (r, final(self).state) == drawn(old(self).state, bound, usize::BITS),
    {
        let (draw, state) = draw_from(self.state, bound);
        self.state = state;
        draw
    }
}

} // verus!
