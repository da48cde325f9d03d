use vstd::prelude::*;

verus! {

/// A player's side.
#[derive(Clone, Copy, Debug, PartialEq, Eq, Structural)]
pub enum Color {
    White,
    Black,
}

/// The side the given side plays against.
pub open spec fn opposite_color(c: Color) -> Color {
    match c {
        Color::White => Color::Black,
        Color::Black => Color::White,
    }
}

impl Color {
    /// The other side.
    pub fn opposite(&self) -> (c: Color)
        ensures
            c == opposite_color(*self),
    {
        match self {
            Color::White => Color::Black,
            Color::Black => Color::White,
        }
    }
}

/// The six piece kinds under their full names.
#[derive(Clone, Copy, Debug, PartialEq, Eq, Structural)]
pub enum PieceType {
    King,
    Queen,
    Rook,
    Bishop,
    Knight,
    Pawn,
}

/// The upper-case algebraic letter of a piece kind.
pub open spec fn piece_type_char(p: PieceType) -> char {
    match p {
        PieceType::King => 'K',
        PieceType::Queen => 'Q',
        PieceType::Rook => 'R',
        PieceType::Bishop => 'B',
        PieceType::Knight => 'N',
        PieceType::Pawn => 'P',
    }
}

/// The lower-case algebraic letter of a piece kind.
pub open spec fn piece_type_char_lower(p: PieceType) -> char {
    match p {
        PieceType::King => 'k',
        PieceType::Queen => 'q',
        PieceType::Rook => 'r',
        PieceType::Bishop => 'b',
        PieceType::Knight => 'n',
        PieceType::Pawn => 'p',
    }
}

impl PieceType {
    /// The upper-case algebraic letter of this piece kind.
    pub fn to_char(&self) -> (c: char)
        ensures
            c == piece_type_char(*self),
    {
        match self {
            PieceType::King => 'K',
            PieceType::Queen => 'Q',
            PieceType::Rook => 'R',
            PieceType::Bishop => 'B',
            PieceType::Knight => 'N',
            PieceType::Pawn => 'P',
        }
    }
}

/// A piece as a kind together with the side owning it.
#[derive(Clone, Copy, Debug, PartialEq, Eq, Structural)]
pub struct Piece {
    pub piece_type: PieceType,
    pub color: Color,
}

/// Display letter of a piece: upper case for White, lower case for Black.
pub open spec fn piece_char(p: Piece) -> char {
    match p.color {
        Color::White => piece_type_char(p.piece_type),
        Color::Black => piece_type_char_lower(p.piece_type),
    }
}

impl Piece {
    /// Bundles a kind and a side into a piece.
    pub fn new(piece_type: PieceType, color: Color) -> (p: Piece)
        ensures
            p.piece_type == piece_type,
            p.color == color,
    {
        Piece { piece_type, color }
    }

    /// The display letter of this piece: upper case for White, lower case
    /// for Black.
    pub fn to_char(&self) -> (c: char)
        ensures
            c == piece_char(*self),
    {
        let c = self.piece_type.to_char();
        match self.color {
            Color::White => c,
            Color::Black => match self.piece_type {
                PieceType::King => 'k',
                PieceType::Queen => 'q',
                PieceType::Rook => 'r',
                PieceType::Bishop => 'b',
                PieceType::Knight => 'n',
                PieceType::Pawn => 'p',
            },
        }
    }
}

} // verus!
