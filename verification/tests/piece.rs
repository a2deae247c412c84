use chess::piece::{decode_piece, Piece, PieceCodeError};
use chess::Color;

const ALL_PIECES: [(&str, Piece); 12] = [
    ("wP", Piece::WhitePawn),
    ("wN", Piece::WhiteKnight),
    ("wB", Piece::WhiteBishop),
    ("wR", Piece::WhiteRook),
    ("wQ", Piece::WhiteQueen),
    ("wK", Piece::WhiteKing),
    ("bP", Piece::BlackPawn),
    ("bN", Piece::BlackKnight),
    ("bB", Piece::BlackBishop),
    ("bR", Piece::BlackRook),
    ("bQ", Piece::BlackQueen),
    ("bK", Piece::BlackKing),
];

#[test]
fn decode_recognizes_all_twelve_codes() {
    for (code, piece) in ALL_PIECES {
        assert_eq!(decode_piece(code), Ok(piece));
    }
}

#[test]
fn decode_rejects_unrecognized_codes() {
    for code in ["", "w", "b", "wX", "xP", "Pw", "WP", "wp", "wPP", "  ", "zz"] {
        assert_eq!(decode_piece(code), Err(PieceCodeError::Unrecognized));
    }
}

#[test]
fn encode_matches_the_code_table() {
    for (code, piece) in ALL_PIECES {
        assert_eq!(piece.code(), code);
    }
}

#[test]
fn encode_decode_round_trip() {
    for (_, piece) in ALL_PIECES {
        let code = piece.code();
        assert_eq!(decode_piece(&code), Ok(piece));
    }
}

#[test]
fn piece_colors_follow_the_first_letter() {
    assert_eq!(Piece::WhitePawn.color(), Color::White);
    assert_eq!(Piece::WhiteKing.color(), Color::White);
    assert_eq!(Piece::BlackQueen.color(), Color::Black);
    assert_eq!(Piece::BlackPawn.color(), Color::Black);
}
