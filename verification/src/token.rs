//! The closed palette of token kinds.

use vstd::prelude::*;

verus! {

/// Number of token kinds in the palette.
pub const PALETTE_SIZE: u32 = 5;

/// One kind of token. Kinds carry no order; matching only ever asks whether
/// two tokens are equal.
#[derive(Clone, Copy, Debug, PartialEq, Eq, Structural)]
pub enum Token {
    Red,
    Green,
    Blue,
    Yellow,
    Purple,
}

impl Token {
    /// Position of the kind in the palette, `0 <= ordinal < PALETTE_SIZE`.
    pub open spec fn ordinal_spec(self) -> int {
        match self {
            Token::Red => 0,
            Token::Green => 1,
            Token::Blue => 2,
            Token::Yellow => 3,
            Token::Purple => 4,
        }
    }

    /// The kind at palette position `i`, for `0 <= i < PALETTE_SIZE`.
    pub open spec fn at(i: int) -> Token {
        if i == 0 {
            Token::Red
        } else if i == 1 {
            Token::Green
        } else if i == 2 {
            Token::Blue
        } else if i == 3 {
            Token::Yellow
        } else {
            Token::Purple
        }
    }

    /// Position of the kind in the palette.
    pub fn ordinal(self) -> (i: u32)
        ensures
            i == self.ordinal_spec(),
            i < PALETTE_SIZE,
    {
        match self {
            Token::Red => 0,
            Token::Green => 1,
            Token::Blue => 2,
            Token::Yellow => 3,
            Token::Purple => 4,
        }
    }

    /// Maps an arbitrary word, such as the output of a random generator, onto
    /// the palette by reducing it modulo the palette size.
    pub fn from_index(word: u32) -> (t: Token)
        ensures
            t == Token::at(word as int % PALETTE_SIZE as int),
            t.ordinal_spec() == word as int % PALETTE_SIZE as int,
    {
        let k: u32 = word % PALETTE_SIZE;
        if k == 0 {
            Token::Red
        } else if k == 1 {
            Token::Green
        } else if k == 2 {
            Token::Blue
        } else if k == 3 {
            Token::Yellow
        } else {
            Token::Purple
        }
    }
}

/// The tokens of a piece from three arbitrary words, such as three outputs
/// of a random generator: each word is reduced modulo the palette size.
pub fn draw_tokens(words: [u32; 3]) -> (tokens: [Token; 3])
    ensures
        forall|i: int|
            0 <= i < 3 ==> #[trigger] tokens[i] == Token::at(words[i] as int % PALETTE_SIZE as int),
{
    [Token::from_index(words[0]), Token::from_index(words[1]), Token::from_index(words[2])]
}

/// Palette positions and kinds correspond one to one.
pub proof fn lemma_palette_bijection(t: Token, i: int)
    ensures
        0 <= t.ordinal_spec() < PALETTE_SIZE,
        Token::at(t.ordinal_spec()) == t,
        0 <= i < PALETTE_SIZE ==> Token::at(i).ordinal_spec() == i,
{
}

} // verus!
