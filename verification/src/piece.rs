//! Piece kinds, colours and the one-letter symbols that stand for them.

use vstd::prelude::*;

verus! {

/// The six kinds of chess piece, in the order in which combinations list them.
#[derive(Clone, Copy, Debug, PartialEq, Eq, Structural)]
pub enum PieceType {
    Pawn,
    Knight,
    Bishop,
    Rook,
    Queen,
    King,
}

/// The side a piece belongs to.
#[derive(Clone, Copy, Debug, PartialEq, Eq, Structural)]
pub enum Color {
    White,
    Black,
}

/// A piece on the board: its kind and its side.
#[derive(Clone, Copy, Debug, PartialEq, Eq, Structural)]
pub struct Piece {
    pub kind: PieceType,
    pub color: Color,
}

impl PieceType {
    /// Position of the kind in the canonical list Pawn, Knight, Bishop, Rook,
    /// Queen, King.
    pub open spec fn spec_ordinal(self) -> int {
        match self {
            PieceType::Pawn => 0,
            PieceType::Knight => 1,
            PieceType::Bishop => 2,
            PieceType::Rook => 3,
            PieceType::Queen => 4,
            PieceType::King => 5,
        }
    }

    /// Position of the kind in the canonical list.
    pub fn ordinal(self) -> (r: usize)
        ensures
            r == self.spec_ordinal(),
    {
        match self {
            PieceType::Pawn => 0,
            PieceType::Knight => 1,
            PieceType::Bishop => 2,
            PieceType::Rook => 3,
            PieceType::Queen => 4,
            PieceType::King => 5,
        }
    }

    /// The kind at a position of the canonical list.
    pub open spec fn spec_from_ordinal(i: int) -> PieceType {
        if i <= 0 {
            PieceType::Pawn
        } else if i == 1 {
            PieceType::Knight
        } else if i == 2 {
            PieceType::Bishop
        } else if i == 3 {
            PieceType::Rook
        } else if i == 4 {
            PieceType::Queen
        } else {
            PieceType::King
        }
    }

    /// The kind at position `i` of the canonical list.
    pub fn from_ordinal(i: usize) -> (r: PieceType)
        requires
            i < 6,
        ensures
            r == Self::spec_from_ordinal(i as int),
            r.spec_ordinal() == i,
    {
        if i == 0 {
            PieceType::Pawn
        } else if i == 1 {
            PieceType::Knight
        } else if i == 2 {
            PieceType::Bishop
        } else if i == 3 {
            PieceType::Rook
        } else if i == 4 {
            PieceType::Queen
        } else {
            PieceType::King
        }
    }

    /// Rank (1 to 8) on which White's pieces of this kind start a game.
    pub open spec fn spec_white_home_rank(self) -> int {
        if self == PieceType::Pawn {
            2
        } else {
            1
        }
    }

    /// Rank (1 to 8) on which White's pieces of this kind start a game.
    pub fn white_home_rank(self) -> (r: u8)
        ensures
            r == self.spec_white_home_rank(),
    {
        match self {
            PieceType::Pawn => 2,
            _ => 1,
        }
    }

    /// Rank (1 to 8) on which Black's pieces of this kind start a game.
    pub open spec fn spec_black_home_rank(self) -> int {
        if self == PieceType::Pawn {
            7
        } else {
            8
        }
    }

    /// Rank (1 to 8) on which Black's pieces of this kind start a game.
    pub fn black_home_rank(self) -> (r: u8)
        ensures
            r == self.spec_black_home_rank(),
    {
        match self {
            PieceType::Pawn => 7,
            _ => 8,
        }
    }
}

impl Color {
    /// The other side.
    pub open spec fn spec_opposite(self) -> Color {
        match self {
            Color::White => Color::Black,
            Color::Black => Color::White,
        }
    }

    /// The other side.
    #[verifier::when_used_as_spec(spec_opposite)]
    pub fn opposite(self) -> (r: Color)
        ensures
            r == self.spec_opposite(),
    {
        match self {
            Color::White => Color::Black,
            Color::Black => Color::White,
        }
    }
}

impl Piece {
    /// A white piece of the given kind.
    pub open spec fn white(kind: PieceType) -> Piece {
        Piece { kind, color: Color::White }
    }

    /// A black piece of the given kind.
    pub open spec fn black(kind: PieceType) -> Piece {
        Piece { kind, color: Color::Black }
    }

    /// The letter that stands for the piece: upper case for White, lower case
    /// for Black.
    pub open spec fn spec_symbol(self) -> char {
        match self.color {
            Color::White => match self.kind {
                PieceType::Pawn => 'P',
                PieceType::Knight => 'N',
                PieceType::Bishop => 'B',
                PieceType::Rook => 'R',
                PieceType::Queen => 'Q',
                PieceType::King => 'K',
            },
            Color::Black => match self.kind {
                PieceType::Pawn => 'p',
                PieceType::Knight => 'n',
                PieceType::Bishop => 'b',
                PieceType::Rook => 'r',
                PieceType::Queen => 'q',
                PieceType::King => 'k',
            },
        }
    }

    /// The letter that stands for the piece.
    #[verifier::when_used_as_spec(spec_symbol)]
    pub fn symbol(self) -> (c: char)
        ensures
            c == self.spec_symbol(),
    {
        match self.color {
            Color::White => match self.kind {
                PieceType::Pawn => 'P',
                PieceType::Knight => 'N',
                PieceType::Bishop => 'B',
                PieceType::Rook => 'R',
                PieceType::Queen => 'Q',
                PieceType::King => 'K',
            },
            Color::Black => match self.kind {
                PieceType::Pawn => 'p',
                PieceType::Knight => 'n',
                PieceType::Bishop => 'b',
                PieceType::Rook => 'r',
                PieceType::Queen => 'q',
                PieceType::King => 'k',
            },
        }
    }

    /// The piece that a letter stands for, if it stands for one.
    pub open spec fn spec_from_symbol(c: char) -> Option<Piece> {
        if c == 'P' {
            Some(Piece::white(PieceType::Pawn))
        } else if c == 'N' {
            Some(Piece::white(PieceType::Knight))
        } else if c == 'B' {
            Some(Piece::white(PieceType::Bishop))
        } else if c == 'R' {
            Some(Piece::white(PieceType::Rook))
        } else if c == 'Q' {
            Some(Piece::white(PieceType::Queen))
        } else if c == 'K' {
            Some(Piece::white(PieceType::King))
        } else if c == 'p' {
            Some(Piece::black(PieceType::Pawn))
        } else if c == 'n' {
            Some(Piece::black(PieceType::Knight))
        } else if c == 'b' {
            Some(Piece::black(PieceType::Bishop))
        } else if c == 'r' {
            Some(Piece::black(PieceType::Rook))
        } else if c == 'q' {
            Some(Piece::black(PieceType::Queen))
        } else if c == 'k' {
            Some(Piece::black(PieceType::King))
        } else {
            None
        }
    }

    /// The piece that a letter stands for; `None` for any other character.
    #[verifier::when_used_as_spec(spec_from_symbol)]
    pub fn from_symbol(c: char) -> (r: Option<Piece>)
        ensures
            r == Self::spec_from_symbol(c),
    {
        match c {
            'P' => Some(Piece { kind: PieceType::Pawn, color: Color::White }),
            'N' => Some(Piece { kind: PieceType::Knight, color: Color::White }),
            'B' => Some(Piece { kind: PieceType::Bishop, color: Color::White }),
            'R' => Some(Piece { kind: PieceType::Rook, color: Color::White }),
            'Q' => Some(Piece { kind: PieceType::Queen, color: Color::White }),
            'K' => Some(Piece { kind: PieceType::King, color: Color::White }),
            'p' => Some(Piece { kind: PieceType::Pawn, color: Color::Black }),
            'n' => Some(Piece { kind: PieceType::Knight, color: Color::Black }),
            'b' => Some(Piece { kind: PieceType::Bishop, color: Color::Black }),
            'r' => Some(Piece { kind: PieceType::Rook, color: Color::Black }),
            'q' => Some(Piece { kind: PieceType::Queen, color: Color::Black }),
            'k' => Some(Piece { kind: PieceType::King, color: Color::Black }),
            _ => None,
        }
    }
}

/// A symbol names exactly one piece: reading back the letter of a piece gives
/// that piece, and a letter that names a piece is the letter of that piece.
pub proof fn lemma_symbol_names_one_piece(p: Piece, c: char)
    ensures
        Piece::spec_from_symbol(p.spec_symbol()) == Some(p),
        Piece::spec_from_symbol(c) == Some(p) ==> p.spec_symbol() == c,
{
}

} // verus!
