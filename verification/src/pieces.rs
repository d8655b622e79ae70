//! The basic data of the game: colors, piece kinds, squares, and the
//! classification of a finished or running game.
use vstd::prelude::*;

verus! {

/// The two sides.
#[derive(Copy, Clone, Debug, PartialEq, Eq, Structural)]
pub enum Color {
    W,
    B,
}

impl Color {
    /// The opposing side of `self`.
    pub open spec fn spec_inverted(self) -> Color {
        match self {
            Color::W => Color::B,
            Color::B => Color::W,
        }
    }

    /// Returns the opposing side.
    pub fn get_inverted(self) -> (r: Color)
        ensures
            r == self.spec_inverted(),
    {
        match self {
            Color::W => Color::B,
            Color::B => Color::W,
        }
    }
}

/// The kinds of piece. `NONE` is the placeholder used by a move submission
/// that requests no promotion; it never stands on a well-formed board.
#[derive(Copy, Clone, Debug, PartialEq, Eq, Structural)]
pub enum PieceType {
    PAWN,
    KNIGHT,
    BISHIOP,
    ROOK,
    QUEEN,
    KING,
    NONE,
}

/// A piece: its kind, its side, and whether it has moved (which gates
/// castling rights and pawn double steps).
#[derive(Copy, Clone, Debug, PartialEq, Eq, Structural)]
pub struct Piece {
    pub variant: PieceType,
    pub color: Color,
    pub has_moved: bool,
}

/// What a square holds: a piece, or nothing.
#[derive(Copy, Clone, Debug, PartialEq, Eq, Structural)]
pub enum PositionContent {
    PIECE_CONT(Piece),
    NONE,
}

impl PositionContent {
    /// Whether the square holds nothing.
    pub open spec fn spec_is_empty(self) -> bool {
        self is NONE
    }

    /// The piece held; meaningful only when the square is occupied.
    pub open spec fn spec_piece(self) -> Piece {
        match self {
            PositionContent::PIECE_CONT(p) => p,
            PositionContent::NONE => arbitrary(),
        }
    }

    /// Returns whether the square holds nothing.
    pub fn is_empty(self) -> (r: bool)
        ensures
            r == self.spec_is_empty(),
    {
        match self {
            PositionContent::NONE => true,
            _ => false,
        }
    }

    /// Returns the piece on an occupied square. Asking for the piece of an
    /// empty square is a contract violation and is excluded by `requires`.
    pub fn get_piece(self) -> (r: Piece)
        requires
            self is PIECE_CONT,
        ensures
            r == self.spec_piece(),
    {
        match self {
            PositionContent::PIECE_CONT(p) => p,
            PositionContent::NONE => vstd::pervasive::unreached(),
        }
    }
}

/// One square of the board.
#[derive(Copy, Clone, Debug, PartialEq, Eq, Structural)]
pub struct Position {
    pub content: PositionContent,
}

/// The classification of the game: still running, won by white, won by
/// black, or drawn.
#[derive(Copy, Clone, Debug, PartialEq, Eq, Structural)]
pub enum GameState {
    ONGOING,
    WIN_W,
    WIN_B,
    DRAW,
}

/// A square holding a piece never holds the `NONE` kind.
pub open spec fn valid_content(p: Position) -> bool {
    p.content is PIECE_CONT ==> p.content.spec_piece().variant != PieceType::NONE
}

} // verus!
