//! The twelve pieces and their two-character textual codes: a color letter
//! (`w` or `b`) followed by a kind letter (`P`, `N`, `B`, `R`, `Q`, `K`).
//! Decoding rejects every unrecognized code instead of falling back to a
//! default piece, so a bad code can never silently enter the game state.

use vstd::prelude::*;

use crate::Color;

verus! {

/// One of the twelve color/kind combinations.
#[derive(Clone, Copy, PartialEq, Eq, Structural, Debug)]
pub enum Piece {
    WhitePawn,
    WhiteKnight,
    WhiteBishop,
    WhiteRook,
    WhiteQueen,
    WhiteKing,
    BlackPawn,
    BlackKnight,
    BlackBishop,
    BlackRook,
    BlackQueen,
    BlackKing,
}

/// Why a piece code was not decoded.
#[derive(Clone, Copy, PartialEq, Eq, Structural, Debug)]
pub enum PieceCodeError {
    /// The code is not one of the twelve recognized two-character codes.
    Unrecognized,
}

impl Piece {
    /// The color that owns the piece.
    pub open spec fn spec_color(self) -> Color {
        match self {
            Piece::WhitePawn => Color::White,
            Piece::WhiteKnight => Color::White,
            Piece::WhiteBishop => Color::White,
            Piece::WhiteRook => Color::White,
            Piece::WhiteQueen => Color::White,
            Piece::WhiteKing => Color::White,
            Piece::BlackPawn => Color::Black,
            Piece::BlackKnight => Color::Black,
            Piece::BlackBishop => Color::Black,
            Piece::BlackRook => Color::Black,
            Piece::BlackQueen => Color::Black,
            Piece::BlackKing => Color::Black,
        }
    }

    /// Returns the color that owns the piece.
    pub fn color(&self) -> (c: Color)
        ensures
            c == self.spec_color(),
    {
        match self {
            Piece::WhitePawn => Color::White,
            Piece::WhiteKnight => Color::White,
            Piece::WhiteBishop => Color::White,
            Piece::WhiteRook => Color::White,
            Piece::WhiteQueen => Color::White,
            Piece::WhiteKing => Color::White,
            Piece::BlackPawn => Color::Black,
            Piece::BlackKnight => Color::Black,
            Piece::BlackBishop => Color::Black,
            Piece::BlackRook => Color::Black,
            Piece::BlackQueen => Color::Black,
            Piece::BlackKing => Color::Black,
        }
    }

    /// The two-character code of the piece: its color letter, then its kind
    /// letter.
    pub open spec fn spec_code(self) -> Seq<char> {
        match self {
            Piece::WhitePawn => seq!['w', 'P'],
            Piece::WhiteKnight => seq!['w', 'N'],
            Piece::WhiteBishop => seq!['w', 'B'],
            Piece::WhiteRook => seq!['w', 'R'],
            Piece::WhiteQueen => seq!['w', 'Q'],
            Piece::WhiteKing => seq!['w', 'K'],
            Piece::BlackPawn => seq!['b', 'P'],
            Piece::BlackKnight => seq!['b', 'N'],
            Piece::BlackBishop => seq!['b', 'B'],
            Piece::BlackRook => seq!['b', 'R'],
            Piece::BlackQueen => seq!['b', 'Q'],
            Piece::BlackKing => seq!['b', 'K'],
        }
    }

    /// Encodes the piece as its two-character code.
    pub fn code(&self) -> (s: String)
        ensures
            s@ == self.spec_code(),
    {
        proof {
            reveal_strlit("wP");
            reveal_strlit("wN");
            reveal_strlit("wB");
            reveal_strlit("wR");
            reveal_strlit("wQ");
            reveal_strlit("wK");
            reveal_strlit("bP");
            reveal_strlit("bN");
            reveal_strlit("bB");
            reveal_strlit("bR");
            reveal_strlit("bQ");
            reveal_strlit("bK");
        }
        match self {
            Piece::WhitePawn => "wP".to_owned(),
            Piece::WhiteKnight => "wN".to_owned(),
            Piece::WhiteBishop => "wB".to_owned(),
            Piece::WhiteRook => "wR".to_owned(),
            Piece::WhiteQueen => "wQ".to_owned(),
            Piece::WhiteKing => "wK".to_owned(),
            Piece::BlackPawn => "bP".to_owned(),
            Piece::BlackKnight => "bN".to_owned(),
            Piece::BlackBishop => "bB".to_owned(),
            Piece::BlackRook => "bR".to_owned(),
            Piece::BlackQueen => "bQ".to_owned(),
            Piece::BlackKing => "bK".to_owned(),
        }
    }
}

/// Decodes a two-character piece code into the piece it names. A code
/// outside the twelve recognized values is rejected, never coerced to some
/// default piece.
pub fn decode_piece(code: &str) -> (r: Result<Piece, PieceCodeError>)
    ensures
        match r {
            Ok(p) => code@ == p.spec_code(),
            Err(e) => e == PieceCodeError::Unrecognized && forall|p: Piece|
                code@ != #[trigger] p.spec_code(),
        },
{
    if code.unicode_len() != 2 {
        proof {
            assert forall|p: Piece| code@ != #[trigger] p.spec_code() by {
                assert(p.spec_code().len() == 2);
            }
        }
        return Err(PieceCodeError::Unrecognized);
    }
    let c0 = code.get_char(0);
    let c1 = code.get_char(1);
    proof {
        assert(code@ =~= seq![c0, c1]);
    }
    match (c0, c1) {
        ('w', 'P') => Ok(Piece::WhitePawn),
        ('w', 'N') => Ok(Piece::WhiteKnight),
        ('w', 'B') => Ok(Piece::WhiteBishop),
        ('w', 'R') => Ok(Piece::WhiteRook),
        ('w', 'Q') => Ok(Piece::WhiteQueen),
        ('w', 'K') => Ok(Piece::WhiteKing),
        ('b', 'P') => Ok(Piece::BlackPawn),
        ('b', 'N') => Ok(Piece::BlackKnight),
        ('b', 'B') => Ok(Piece::BlackBishop),
        ('b', 'R') => Ok(Piece::BlackRook),
        ('b', 'Q') => Ok(Piece::BlackQueen),
        ('b', 'K') => Ok(Piece::BlackKing),
        _ => {
            proof {
                assert forall|p: Piece| code@ != #[trigger] p.spec_code() by {
                    assert(p.spec_code().len() == 2);
                    assert(p.spec_code()[0] == 'w' || p.spec_code()[0] == 'b');
                }
            }
            Err(PieceCodeError::Unrecognized)
        },
    }
}

} // verus!
