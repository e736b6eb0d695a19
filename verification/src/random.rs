//! A small pseudo-random generator. Its whole state is one 64-bit word, and
//! every draw is a function of that word, so a search that starts from the
//! same seed makes the same choices.

use vstd::prelude::*;

verus! {

/// The state that follows state `s`.
pub open spec fn next_state(s: u64) -> u64 {
    s.wrapping_add(0x9E37_79B9_7F4A_7C15)
}

/// The scrambling of a state word into an output word.
pub open spec fn mix(z: u64) -> u64 {
    let a = (z ^ (z >> 30)).wrapping_mul(0xBF58_476D_1CE4_E5B9);
    let b = (a ^ (a >> 27)).wrapping_mul(0x94D0_49BB_1331_11EB);
    b ^ (b >> 31)
}

/// The word that is drawn in state `s`.
pub open spec fn draw(s: u64) -> u64 {
    mix(next_state(s))
}

/// The index below `n` that is drawn in state `s`.
pub open spec fn draw_below(s: u64, n: nat) -> nat {
    (draw(s) as nat) % n
}

/// A pseudo-random generator.
#[derive(Clone, Copy, PartialEq, Eq, Structural, Debug)]
pub struct Rng {
    pub(crate) state: u64,
}

impl View for Rng {
    type V = u64;

    open(crate) spec fn view(&self) -> u64 {
        self.state
    }
}

impl Rng {
    /// A generator in the state `seed`.
    pub fn new(seed: u64) -> (r: Rng)
        ensures
            r@ == seed,
    {
        Rng { state: seed }
    }

    /// Draws a word and moves to the next state.
    pub fn next_u64(&mut self) -> (r: u64)
        ensures
            r == draw(old(self)@),
            final(self)@ == next_state(old(self)@),
    {
        self.state = self.state.wrapping_add(0x9E37_79B9_7F4A_7C15);
        let z = self.state;
        let a = (z ^ (z >> 30)).wrapping_mul(0xBF58_476D_1CE4_E5B9);
        let b = (a ^ (a >> 27)).wrapping_mul(0x94D0_49BB_1331_11EB);
        b ^ (b >> 31)
    }

    /// Draws an index below `n` and moves to the next state.
    pub fn below(&mut self, n: usize) -> (r: usize)
        requires
            n > 0,
        ensures
            r < n,
            r == draw_below(old(self)@, n as nat),
            final(self)@ == next_state(old(self)@),
    {
        let word = self.next_u64();
        let r = word % (n as u64);
        r as usize
    }
}

} // verus!
