use vstd::prelude::*;

verus! {

/// The two sides of a game. Black (sente) moves first.
#[derive(Clone, Copy, Debug, PartialEq, Eq, Hash, Structural)]
pub enum Color {
    Black,
    White,
}

impl Color {
    /// Array position of a color: Black is 0, White is 1.
    pub open spec fn idx(self) -> int {
        match self {
            Color::Black => 0,
            Color::White => 1,
        }
    }

    /// The other color.
    pub open spec fn opposite(self) -> Color {
        match self {
            Color::Black => Color::White,
            Color::White => Color::Black,
        }
    }

    pub fn index(&self) -> (r: usize)
        ensures
            r == self.idx(),
    {
        match self {
            Color::Black => 0,
            Color::White => 1,
        }
    }

    pub fn flip(self) -> (r: Color)
        ensures
            r == self.opposite(),
    {
        match self {
            Color::Black => Color::White,
            Color::White => Color::Black,
        }
    }

    /// Both colors, Black first.
    pub fn all() -> (r: [Color; 2])
        ensures
            r@ == seq![Color::Black, Color::White],
    {
        [Color::Black, Color::White]
    }
}

/// Flipping twice gives back the color, and flipping changes the array position.
pub proof fn lemma_flip_involutive(c: Color)
    ensures
        c.opposite().opposite() == c,
        c.opposite() != c,
        c.opposite().idx() == 1 - c.idx(),
{
}

} // verus!
