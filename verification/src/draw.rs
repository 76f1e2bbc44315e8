//! A seedable source of tokens, for a driver that wants its pieces to be
//! reproducible: the same seed gives the same tokens in the same order.

use vstd::prelude::*;
use crate::token::{Token, PALETTE_SIZE};

verus! {

/// Factor of the generator's step.
pub const GENERATOR_FACTOR: u64 = 6364136223846793005;

/// Increment of the generator's step.
pub const GENERATOR_INCREMENT: u64 = 1442695040888963407;

/// A linear congruential generator over 64-bit states. Each step multiplies
/// the state by a fixed factor and adds a fixed increment, modulo `2^64`; the
/// upper half of the new state is the word drawn.
#[derive(Clone, Copy, Debug)]
pub struct TokenSource {
    state: u64,
}

impl View for TokenSource {
    type V = int;

    closed spec fn view(&self) -> int {
        self.state as int
    }
}

/// The state that follows state `s`.
pub open spec fn next_state(s: int) -> int {
    (s * GENERATOR_FACTOR + GENERATOR_INCREMENT) % 0x1_0000_0000_0000_0000
}

/// The word that state `s` shows: its upper 32 bits.
pub open spec fn word_of(s: int) -> int {
    s / 0x1_0000_0000
}

/// The token that state `s` shows.
pub open spec fn token_of(s: int) -> Token {
    Token::at(word_of(s) % PALETTE_SIZE as int)
}

impl TokenSource {
    /// A source that starts from `seed`.
    pub fn new(seed: u64) -> (s: TokenSource)
        ensures
            s@ == seed,
    {
        TokenSource { state: seed }
    }

    /// Steps the generator and returns the word of the new state.
    pub fn next_word(&mut self) -> (w: u32)
        ensures
            final(self)@ == next_state(old(self)@),
            w == word_of(final(self)@),
    {
        assert(self.state * GENERATOR_FACTOR <= 0xffff_ffff_ffff_ffff * 0xffff_ffff_ffff_ffff)
            by (nonlinear_arith)
            requires
                0 <= self.state <= 0xffff_ffff_ffff_ffff,
                0 <= GENERATOR_FACTOR <= 0xffff_ffff_ffff_ffff,
        ;
        let wide: u128 = self.state as u128 * GENERATOR_FACTOR as u128 + GENERATOR_INCREMENT as u128;
        self.state = (wide % 0x1_0000_0000_0000_0000) as u64;
        (self.state / 0x1_0000_0000) as u32
    }

    /// Steps the generator once and returns the token of the new state.
    pub fn next_token(&mut self) -> (t: Token)
        ensures
            final(self)@ == next_state(old(self)@),
            t == token_of(final(self)@),
    {
        let w: u32 = self.next_word();
        Token::from_index(w)
    }

    /// Draws the three tokens of a piece, one step of the generator each.
    pub fn next_tokens(&mut self) -> (tokens: [Token; 3])
        ensures
            final(self)@ == next_state(next_state(next_state(old(self)@))),
            tokens[0] == token_of(next_state(old(self)@)),
            tokens[1] == token_of(next_state(next_state(old(self)@))),
            tokens[2] == token_of(final(self)@),
    {
        let a: Token = self.next_token();
        let b: Token = self.next_token();
        let c: Token = self.next_token();
        [a, b, c]
    }
}

} // verus!
