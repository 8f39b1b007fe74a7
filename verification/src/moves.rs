//! Squares, pieces and moves as plain values.
//!
//! A square is its index from 0 (a1) over 7 (h1) and 8 (a2) to 63 (h8): the
//! rank times eight, plus the file.

use vstd::prelude::*;

verus! {

/// The side a player drills: White moves first.
#[derive(Clone, Copy, PartialEq, Eq, Debug, Structural)]
pub enum Color {
    White,
    Black,
}

/// The kind of a piece.
#[derive(Clone, Copy, PartialEq, Eq, Debug, Structural)]
pub enum PieceKind {
    Pawn,
    Knight,
    Bishop,
    Rook,
    Queen,
    King,
}

/// A move of one piece from a square to a square. A pawn that reaches the
/// last rank names the piece it becomes; a king that castles moves two files
/// and takes its rook along.
#[derive(Clone, Copy, Debug)]
pub struct Move {
    pub from: u8,
    pub to: u8,
    pub promotion: Option<PieceKind>,
}

/// The file of a square, 0 for the a-file to 7 for the h-file.
pub open spec fn file_of(square: u8) -> u8 {
    square % 8
}

/// The rank of a square, 0 for the first rank to 7 for the eighth.
pub open spec fn rank_of(square: u8) -> u8 {
    square / 8
}

impl PieceKind {
    /// The place of the kind in the order pawn, knight, bishop, rook, queen,
    /// king.
    pub open spec fn spec_index(self) -> u8 {
        match self {
            PieceKind::Pawn => 0,
            PieceKind::Knight => 1,
            PieceKind::Bishop => 2,
            PieceKind::Rook => 3,
            PieceKind::Queen => 4,
            PieceKind::King => 5,
        }
    }

    /// The place of the kind in the order pawn, knight, bishop, rook, queen,
    /// king.
    #[verifier::when_used_as_spec(spec_index)]
    pub fn index(self) -> (index: u8)
        ensures
            index == self.spec_index(),
            index < 6,
    {
        match self {
            PieceKind::Pawn => 0,
            PieceKind::Knight => 1,
            PieceKind::Bishop => 2,
            PieceKind::Rook => 3,
            PieceKind::Queen => 4,
            PieceKind::King => 5,
        }
    }

    /// The kind at a place in that order; past the end, the king.
    pub fn from_index(index: u8) -> (kind: PieceKind)
        ensures
            index < 6 ==> kind.spec_index() == index,
            index >= 6 ==> kind == PieceKind::King,
    {
        match index {
            0 => PieceKind::Pawn,
            1 => PieceKind::Knight,
            2 => PieceKind::Bishop,
            3 => PieceKind::Rook,
            4 => PieceKind::Queen,
            _ => PieceKind::King,
        }
    }
}

impl Move {
    /// Both squares are on the board.
    pub open spec fn wf(self) -> bool {
        self.from < 64 && self.to < 64
    }

    /// Whether two moves are the same move.
    pub fn same(&self, other: &Move) -> (equal: bool)
        ensures
            equal == (*self == *other),
    {
        self.from == other.from && self.to == other.to && match (self.promotion, other.promotion) {
            (Some(mine), Some(theirs)) => mine == theirs,
            (None, None) => true,
            _ => false,
        }
    }
}

} // verus!
