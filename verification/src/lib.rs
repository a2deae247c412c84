use vstd::prelude::*;

pub mod bits;
pub mod game;
pub mod moves;
pub mod piece;

verus! {

/// A bitboard: one bit per square of the 8x8 board, square `i` at bit `i`.
/// Bit `i` set means square `i` is occupied, attacked, or reachable,
/// depending on context.
pub type Bitboard = u64;

/// A square index in 0..64, rank-major little-endian: index 0 is the
/// corner square of the first rank and the a-file, index 63 the corner
/// square of the last rank and the h-file.
pub type Square = u8;

/// The first square of rank 3. A white pawn strictly below this boundary
/// is still allowed its initial double-step push.
pub const SQ_A3: Square = 16;

/// The last square of rank 6. A black pawn strictly above this boundary
/// is still allowed its initial double-step push.
pub const SQ_H6: Square = 47;

/// One of the two sides. White pawns move toward increasing square
/// indices (steps of 8), black pawns toward decreasing ones.
#[derive(Clone, Copy, PartialEq, Eq, Structural, Debug)]
pub enum Color {
    White,
    Black,
}

impl Color {
    /// The opposing color.
    pub open spec fn spec_opposite(self) -> Color {
        match self {
            Color::White => Color::Black,
            Color::Black => Color::White,
        }
    }

    /// Returns the opposing color.
    pub fn opposite(&self) -> (c: Color)
        ensures
            c == self.spec_opposite(),
    {
        match self {
            Color::White => Color::Black,
            Color::Black => Color::White,
        }
    }
}

} // verus!
