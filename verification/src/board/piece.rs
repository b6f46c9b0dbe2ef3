//! Basic chess concepts: colors and piece types.
use vstd::prelude::*;

verus! {

/// A side, or `NoColor` for the color of an empty square.
#[derive(Copy, Clone, PartialEq, Eq, Debug, Structural)]
pub enum Color {
    White,
    Black,
    NoColor,
}

impl Color {
    /// The other side; `NoColor` stays `NoColor`.
    pub open spec fn spec_opposite(self) -> Color {
        match self {
            Color::White => Color::Black,
            Color::Black => Color::White,
            Color::NoColor => Color::NoColor,
        }
    }

    /// Array index of a color: White 0, Black 1, NoColor 2.
    pub open spec fn spec_idx(self) -> usize {
        match self {
            Color::White => 0,
            Color::Black => 1,
            Color::NoColor => 2,
        }
    }

    /// The color with a given index 0 or 1.
    pub open spec fn from_idx(i: int) -> Color {
        if i == 0 {
            Color::White
        } else {
            Color::Black
        }
    }

    #[verifier::when_used_as_spec(spec_opposite)]
    pub fn opposite(self) -> (r: Color)
        ensures
            r == self.spec_opposite(),
    {
        match self {
            Color::White => Color::Black,
            Color::Black => Color::White,
            Color::NoColor => Color::NoColor,
        }
    }

    #[verifier::when_used_as_spec(spec_idx)]
    pub fn idx(self) -> (r: usize)
        ensures
            r == self.spec_idx(),
    {
        match self {
            Color::White => 0,
            Color::Black => 1,
            Color::NoColor => 2,
        }
    }
}

/// The opposite of the opposite of a side is the side itself.
pub proof fn lemma_opposite_involutive(c: Color)
    ensures
        c.spec_opposite().spec_opposite() == c,
{
}

/// A piece type, or `Empty` for an empty square.
#[derive(Copy, Clone, PartialEq, Eq, Debug, Structural)]
pub enum PieceType {
    Pawn,
    Knight,
    Bishop,
    Rook,
    Queen,
    King,
    Empty,
}

impl PieceType {
    /// Array index of a piece type: Pawn 0 .. King 5, Empty 6.
    pub open spec fn spec_idx(self) -> usize {
        match self {
            PieceType::Pawn => 0,
            PieceType::Knight => 1,
            PieceType::Bishop => 2,
            PieceType::Rook => 3,
            PieceType::Queen => 4,
            PieceType::King => 5,
            PieceType::Empty => 6,
        }
    }

    /// The piece type with a given index 0..5.
    pub open spec fn from_idx(i: int) -> PieceType {
        if i == 0 {
            PieceType::Pawn
        } else if i == 1 {
            PieceType::Knight
        } else if i == 2 {
            PieceType::Bishop
        } else if i == 3 {
            PieceType::Rook
        } else if i == 4 {
            PieceType::Queen
        } else if i == 5 {
            PieceType::King
        } else {
            PieceType::Empty
        }
    }

    #[verifier::when_used_as_spec(spec_idx)]
    pub fn idx(self) -> (r: usize)
        ensures
            r == self.spec_idx(),
    {
        match self {
            PieceType::Pawn => 0,
            PieceType::Knight => 1,
            PieceType::Bishop => 2,
            PieceType::Rook => 3,
            PieceType::Queen => 4,
            PieceType::King => 5,
            PieceType::Empty => 6,
        }
    }
}

} // verus!
