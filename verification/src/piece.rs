//! Pieces: kind, color, and the has-it-moved flag.

use vstd::prelude::*;

verus! {

/// The six piece kinds of chess.
#[derive(Copy, Clone, Debug, PartialEq, Eq, Structural)]
pub enum Type {
    Rook,
    Knight,
    Bishop,
    Queen,
    King,
    Pawn,
}

/// The two sides.
#[derive(Copy, Clone, Debug, PartialEq, Eq, Structural)]
pub enum Color {
    White,
    Black,
}

/// Whether a piece has moved yet. `LastTurn` is reserved bookkeeping for a
/// turn manager; move generation only distinguishes `No` from the rest, to
/// gate the pawn double-step.
#[derive(Copy, Clone, Debug, PartialEq, Eq, Structural)]
pub enum PieceMoved {
    Yes,
    LastTurn,
    No,
}

/// Everything the board records about one piece.
#[derive(Copy, Clone, Debug, PartialEq, Eq, Structural)]
pub struct PieceState {
    pub piece_type: Type,
    pub color: Color,
    pub moved: PieceMoved,
}

impl Color {
    /// The other side.
    pub open spec fn spec_opposite(self) -> Color {
        match self {
            Color::White => Color::Black,
            Color::Black => Color::White,
        }
    }

    /// The other side.
    pub fn opposite(&self) -> (c: Color)
        ensures
            c == self.spec_opposite(),
    {
        match *self {
            Color::White => Color::Black,
            Color::Black => Color::White,
        }
    }
}

impl PieceState {
    /// The terminal rendering of this piece: a chess glyph between ANSI
    /// color escape codes.
    pub open spec fn spec_utf8(self) -> Seq<char> {
        match (self.piece_type, self.color) {
            (Type::King, Color::White) => "\x1B[38;2;0;0;0m\u{2654}\x1B[0m"@,
            (Type::King, Color::Black) => "\x1B[38;2;0;0;0m\u{265A}\x1B[0m"@,
            (Type::Queen, Color::White) => "\x1B[38;2;0;0;0m\u{2655}\x1B[0m"@,
            (Type::Queen, Color::Black) => "\x1B[38;2;0;0;0m\u{265B}\x1B[0m"@,
            (Type::Rook, Color::White) => "\x1B[38;2;0;0;0m\u{2656}\x1B[0m"@,
            (Type::Rook, Color::Black) => "\x1B[38;2;0;0;0m\u{265C}\x1B[0m"@,
            (Type::Bishop, Color::White) => "\x1B[38;2;0;0;0m\u{2657}\x1B[0m"@,
            (Type::Bishop, Color::Black) => "\x1B[38;2;0;0;0m\u{265D}\x1B[0m"@,
            (Type::Knight, Color::White) => "\x1B[38;2;0;0;0m\u{2658}\x1B[0m"@,
            (Type::Knight, Color::Black) => "\x1B[38;2;0;0;0m\u{265E}\x1B[0m"@,
            (Type::Pawn, Color::White) => "\x1B[38;2;0;0;0m\u{2659}\x1B[0m"@,
            (Type::Pawn, Color::Black) => "\x1B[38;2;0;0;0m\u{265F}\u{FE0E}\x1B[0m"@,
        }
    }

    /// The terminal rendering of this piece as a chess glyph.
    pub fn fmt_utf8(&self) -> (s: &'static str)
        ensures
            s@ == self.spec_utf8(),
    {
        match (self.piece_type, self.color) {
            (Type::King, Color::White) => "\x1B[38;2;0;0;0m\u{2654}\x1B[0m",
            (Type::King, Color::Black) => "\x1B[38;2;0;0;0m\u{265A}\x1B[0m",
            (Type::Queen, Color::White) => "\x1B[38;2;0;0;0m\u{2655}\x1B[0m",
            (Type::Queen, Color::Black) => "\x1B[38;2;0;0;0m\u{265B}\x1B[0m",
            (Type::Rook, Color::White) => "\x1B[38;2;0;0;0m\u{2656}\x1B[0m",
            (Type::Rook, Color::Black) => "\x1B[38;2;0;0;0m\u{265C}\x1B[0m",
            (Type::Bishop, Color::White) => "\x1B[38;2;0;0;0m\u{2657}\x1B[0m",
            (Type::Bishop, Color::Black) => "\x1B[38;2;0;0;0m\u{265D}\x1B[0m",
            (Type::Knight, Color::White) => "\x1B[38;2;0;0;0m\u{2658}\x1B[0m",
            (Type::Knight, Color::Black) => "\x1B[38;2;0;0;0m\u{265E}\x1B[0m",
            (Type::Pawn, Color::White) => "\x1B[38;2;0;0;0m\u{2659}\x1B[0m",
            (Type::Pawn, Color::Black) => "\x1B[38;2;0;0;0m\u{265F}\u{FE0E}\x1B[0m",
        }
    }
}

} // verus!
