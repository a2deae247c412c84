//! Attack and move generation: per-square bitboards for pawns, knights and
//! kings, and blocker-aware ray casting for the sliding pieces.
//!
//! Every generator is specified against a geometric reachability predicate:
//! bit `t` of the result is set exactly when square `t` is reachable from the
//! given square under that piece's movement rule.

use vstd::prelude::*;

use crate::bits::{bit_at, file_of, popcnt64, rank_of};
use crate::bits::{lemma_bit_empty, lemma_bit_ext, lemma_bit_insert, lemma_bit_union};
use crate::bits::{lemma_sq_join, lemma_sq_split};
use crate::{Bitboard, Color, Square, SQ_A3, SQ_H6};

verus! {

/// Every square but those of the a-file.
pub const NOT_A_FILE: Bitboard = 0xFEFE_FEFE_FEFE_FEFE;

/// Every square but those of the h-file.
pub const NOT_H_FILE: Bitboard = 0x7F7F_7F7F_7F7F_7F7F;

/// Every square but those of the g- and h-files.
pub const NOT_HG_FILE: Bitboard = 0x3F3F_3F3F_3F3F_3F3F;

/// Every square but those of the a- and b-files.
pub const NOT_AB_FILE: Bitboard = 0xFCFC_FCFC_FCFC_FCFC;

/// A pawn of color `c` on square `s` may push to square `t`: one rank
/// forward on the same file, or two ranks forward from inside the pawn's
/// double-step zone. Occupancy of the destination is the caller's concern.
pub open spec fn pawn_push(c: Color, s: u64, t: u64) -> bool {
    s < 64 && t < 64 && file_of(t) == file_of(s) && match c {
        Color::White => rank_of(t) == rank_of(s) + 1 || (s < SQ_A3 && rank_of(t) == rank_of(
            s,
        ) + 2),
        Color::Black => rank_of(t) + 1 == rank_of(s) || (s > SQ_H6 && rank_of(t) + 2 == rank_of(
            s,
        )),
    }
}

/// A pawn of color `c` on square `s` attacks square `t`: one rank forward
/// and exactly one file to either side, never wrapping around the board edge.
pub open spec fn pawn_attack(c: Color, s: u64, t: u64) -> bool {
    s < 64 && t < 64 && (file_of(t) == file_of(s) + 1 || file_of(t) + 1 == file_of(s)) && match c {
        Color::White => rank_of(t) == rank_of(s) + 1,
        Color::Black => rank_of(t) + 1 == rank_of(s),
    }
}

/// A knight on square `s` attacks square `t`: two ranks and one file away,
/// or one rank and two files away.
pub open spec fn knight_attack(s: u64, t: u64) -> bool {
    s < 64 && t < 64 && {
        ||| (rank_of(t) == rank_of(s) + 2 || rank_of(t) + 2 == rank_of(s)) && (file_of(t) == file_of(
            s,
        ) + 1 || file_of(t) + 1 == file_of(s))
        ||| (rank_of(t) == rank_of(s) + 1 || rank_of(t) + 1 == rank_of(s)) && (file_of(t) == file_of(
            s,
        ) + 2 || file_of(t) + 2 == file_of(s))
    }
}

/// A king on square `s` attacks square `t`: any other square at most one
/// rank and one file away.
pub open spec fn king_attack(s: u64, t: u64) -> bool {
    s < 64 && t < 64 && t != s && rank_of(t) <= rank_of(s) + 1 && rank_of(s) <= rank_of(t) + 1
        && file_of(t) <= file_of(s) + 1 && file_of(s) <= file_of(t) + 1
}

/// How many squares a king on `s` attacks: 3 from a corner, 5 from another
/// edge square, 8 from an interior square.
pub open spec fn king_degree(s: u64) -> int {
    if (rank_of(s) == 0 || rank_of(s) == 7) && (file_of(s) == 0 || file_of(s) == 7) {
        3
    } else if rank_of(s) == 0 || rank_of(s) == 7 || file_of(s) == 0 || file_of(s) == 7 {
        5
    } else {
        8
    }
}

/// The forward-push bitboard of a pawn on `square`: the single push, and the
/// double push where the square lies inside the double-step zone. Destination
/// emptiness is occupancy, not an attack-table concern, so it is not tested here.
pub fn check_pawn_moves(square: Square, color: &Color) -> (moves: Bitboard)
    requires
        square < 64,
    ensures
        forall|t: u64| #![trigger bit_at(moves, t)] t < 64 ==> (bit_at(moves, t) <==> pawn_push(
            *color,
            square as u64,
            t,
        )),
{
    let board: Bitboard = 1u64 << square;
    match color {
        Color::White => {
            let moves: Bitboard = if square < SQ_A3 {
                (board << 16) | (board << 8)
            } else {
                board << 8
            };
            proof {
                assert(forall|t: u64| #![trigger bit_at(moves, t)] t < 64 ==> (bit_at(moves, t)
                    <==> (file_of(t) == file_of(square as u64) && (rank_of(t) == rank_of(
                    square as u64,
                ) + 1 || (square < 16 && rank_of(t) == rank_of(square as u64) + 2)))))
                    by (bit_vector)
                    requires
                        square < 64,
                        board == 1u64 << square,
                        moves == if square < 16 {
                            (board << 16) | (board << 8)
                        } else {
                            board << 8
                        },
                ;
            }
            moves
        },
        Color::Black => {
            let moves: Bitboard = if square > SQ_H6 {
                (board >> 16) | (board >> 8)
            } else {
                board >> 8
            };
            proof {
                assert(forall|t: u64| #![trigger bit_at(moves, t)] t < 64 ==> (bit_at(moves, t)
                    <==> (file_of(t) == file_of(square as u64) && (rank_of(t) + 1 == rank_of(
                    square as u64,
                ) || (square > 47 && rank_of(t) + 2 == rank_of(square as u64))))))
                    by (bit_vector)
                    requires
                        square < 64,
                        board == 1u64 << square,
                        moves == if square > 47 {
                            (board >> 16) | (board >> 8)
                        } else {
                            board >> 8
                        },
                ;
            }
            moves
        },
    }
}

/// The diagonal capture bitboard of a pawn on `square`: the two forward
/// diagonals, clipped by the file masks so that no attack wraps from the
/// a-file to the h-file or back.
pub fn mask_pawn_attacks(square: Square, color: &Color) -> (attacks: Bitboard)
    requires
        square < 64,
    ensures
        forall|t: u64| #![trigger bit_at(attacks, t)] t < 64 ==> (bit_at(attacks, t)
            <==> pawn_attack(*color, square as u64, t)),
{
    let board: Bitboard = 1u64 << square;
    match color {
        Color::White => {
            let attacks: Bitboard = ((board << 9) & NOT_A_FILE) | ((board << 7) & NOT_H_FILE);
            proof {
                assert(forall|t: u64| #![trigger bit_at(attacks, t)] t < 64 ==> (bit_at(attacks, t)
                    <==> ((file_of(t) == file_of(square as u64) + 1 || file_of(t) + 1 == file_of(
                    square as u64,
                )) && rank_of(t) == rank_of(square as u64) + 1)))
                    by (bit_vector)
                    requires
                        square < 64,
                        board == 1u64 << square,
                        attacks == ((board << 9) & 0xFEFE_FEFE_FEFE_FEFEu64) | ((board << 7)
                            & 0x7F7F_7F7F_7F7F_7F7Fu64),
                ;
            }
            attacks
        },
        Color::Black => {
            let attacks: Bitboard = ((board >> 9) & NOT_H_FILE) | ((board >> 7) & NOT_A_FILE);
            proof {
                assert(forall|t: u64| #![trigger bit_at(attacks, t)] t < 64 ==> (bit_at(attacks, t)
                    <==> ((file_of(t) == file_of(square as u64) + 1 || file_of(t) + 1 == file_of(
                    square as u64,
                )) && rank_of(t) + 1 == rank_of(square as u64))))
                    by (bit_vector)
                    requires
                        square < 64,
                        board == 1u64 << square,
                        attacks == ((board >> 9) & 0x7F7F_7F7F_7F7F_7F7Fu64) | ((board >> 7)
                            & 0xFEFE_FEFE_FEFE_FEFEu64),
                ;
            }
            attacks
        },
    }
}

/// The attack bitboard of a knight on `square`: the eight knight leaps, each
/// clipped by the file mask matching its horizontal displacement.
pub fn attacks_knight_moves(square: Square) -> (attacks: Bitboard)
    requires
        square < 64,
    ensures
        forall|t: u64| #![trigger bit_at(attacks, t)] t < 64 ==> (bit_at(attacks, t)
            <==> knight_attack(square as u64, t)),
        popcnt64(attacks) == 2 || popcnt64(attacks) == 3 || popcnt64(attacks) == 4 || popcnt64(
            attacks,
        ) == 6 || popcnt64(attacks) == 8,
{
    let board: Bitboard = 1u64 << square;
    let attacks: Bitboard = ((board >> 17) & NOT_H_FILE) | ((board >> 15) & NOT_A_FILE) | ((board
        >> 10) & NOT_HG_FILE) | ((board >> 6) & NOT_AB_FILE) | ((board << 17) & NOT_A_FILE) | ((
    board << 15) & NOT_H_FILE) | ((board << 10) & NOT_AB_FILE) | ((board << 6) & NOT_HG_FILE);

    proof {
        assert(forall|t: u64| #![trigger bit_at(attacks, t)] t < 64 ==> (bit_at(attacks, t) <==> ((
        (rank_of(t) == rank_of(square as u64) + 2 || rank_of(t) + 2 == rank_of(square as u64)) && (
        file_of(t) == file_of(square as u64) + 1 || file_of(t) + 1 == file_of(square as u64))) || ((
        rank_of(t) == rank_of(square as u64) + 1 || rank_of(t) + 1 == rank_of(square as u64)) && (
        file_of(t) == file_of(square as u64) + 2 || file_of(t) + 2 == file_of(square as u64))))))
            by (bit_vector)
            requires
                square < 64,
                board == 1u64 << square,
                attacks == ((board >> 17) & 0x7F7F_7F7F_7F7F_7F7Fu64) | ((board >> 15)
                    & 0xFEFE_FEFE_FEFE_FEFEu64) | ((board >> 10) & 0x3F3F_3F3F_3F3F_3F3Fu64) | ((
                board >> 6) & 0xFCFC_FCFC_FCFC_FCFCu64) | ((board << 17)
                    & 0xFEFE_FEFE_FEFE_FEFEu64) | ((board << 15) & 0x7F7F_7F7F_7F7F_7F7Fu64) | ((
                board << 10) & 0xFCFC_FCFC_FCFC_FCFCu64) | ((board << 6)
                    & 0x3F3F_3F3F_3F3F_3F3Fu64),
        ;
        assert(popcnt64(attacks) == 2 || popcnt64(attacks) == 3 || popcnt64(attacks) == 4
            || popcnt64(attacks) == 6 || popcnt64(attacks) == 8)
            by (bit_vector)
            requires
                square < 64,
                board == 1u64 << square,
                attacks == ((board >> 17) & 0x7F7F_7F7F_7F7F_7F7Fu64) | ((board >> 15)
                    & 0xFEFE_FEFE_FEFE_FEFEu64) | ((board >> 10) & 0x3F3F_3F3F_3F3F_3F3Fu64) | ((
                board >> 6) & 0xFCFC_FCFC_FCFC_FCFCu64) | ((board << 17)
                    & 0xFEFE_FEFE_FEFE_FEFEu64) | ((board << 15) & 0x7F7F_7F7F_7F7F_7F7Fu64) | ((
                board << 10) & 0xFCFC_FCFC_FCFC_FCFCu64) | ((board << 6)
                    & 0x3F3F_3F3F_3F3F_3F3Fu64),
        ;
    }
    attacks
}

/// The attack bitboard of a king on `square`: the up-to-eight adjacent
/// squares, the horizontal and diagonal steps clipped by the file masks.
pub fn attacks_king_moves(square: Square) -> (attacks: Bitboard)
    requires
        square < 64,
    ensures
        forall|t: u64| #![trigger bit_at(attacks, t)] t < 64 ==> (bit_at(attacks, t)
            <==> king_attack(square as u64, t)),
        popcnt64(attacks) == king_degree(square as u64),
{
    let board: Bitboard = 1u64 << square;
    let attacks: Bitboard = ((board >> 9) & NOT_H_FILE) | (board >> 8) | ((board >> 7)
        & NOT_A_FILE) | ((board >> 1) & NOT_H_FILE) | ((board << 1) & NOT_A_FILE) | ((board << 7)
        & NOT_H_FILE) | (board << 8) | ((board << 9) & NOT_A_FILE);

    proof {
        assert(forall|t: u64| #![trigger bit_at(attacks, t)] t < 64 ==> (bit_at(attacks, t) <==> (t
            != square && rank_of(t) <= rank_of(square as u64) + 1 && rank_of(square as u64)
            <= rank_of(t) + 1 && file_of(t) <= file_of(square as u64) + 1 && file_of(square as u64)
            <= file_of(t) + 1)))
            by (bit_vector)
            requires
                square < 64,
                board == 1u64 << square,
                attacks == ((board >> 9) & 0x7F7F_7F7F_7F7F_7F7Fu64) | (board >> 8) | ((board >> 7)
                    & 0xFEFE_FEFE_FEFE_FEFEu64) | ((board >> 1) & 0x7F7F_7F7F_7F7F_7F7Fu64) | ((
                board << 1) & 0xFEFE_FEFE_FEFE_FEFEu64) | ((board << 7)
                    & 0x7F7F_7F7F_7F7F_7F7Fu64) | (board << 8) | ((board << 9)
                    & 0xFEFE_FEFE_FEFE_FEFEu64),
        ;
        assert(popcnt64(attacks) == (if (rank_of(square as u64) == 0 || rank_of(square as u64) == 7)
            && (file_of(square as u64) == 0 || file_of(square as u64) == 7) {
            3int
        } else if rank_of(square as u64) == 0 || rank_of(square as u64) == 7 || file_of(
            square as u64,
        ) == 0 || file_of(square as u64) == 7 {
            5int
        } else {
            8int
        }))
            by (bit_vector)
            requires
                square < 64,
                board == 1u64 << square,
                attacks == ((board >> 9) & 0x7F7F_7F7F_7F7F_7F7Fu64) | (board >> 8) | ((board >> 7)
                    & 0xFEFE_FEFE_FEFE_FEFEu64) | ((board >> 1) & 0x7F7F_7F7F_7F7F_7F7Fu64) | ((
                board << 1) & 0xFEFE_FEFE_FEFE_FEFEu64) | ((board << 7)
                    & 0x7F7F_7F7F_7F7F_7F7Fu64) | (board << 8) | ((board << 9)
                    & 0xFEFE_FEFE_FEFE_FEFEu64),
        ;
    }
    attacks
}

/// The 64-entry pawn push table for `color`: entry `i` is the push bitboard
/// of a pawn of that color on square `i`.
pub fn computed_pawn_moves(color: &Color) -> (table: Vec<Bitboard>)
    ensures
        table@.len() == 64,
        forall|i: int, t: u64| #![trigger bit_at(table@[i], t)] 0 <= i < 64 && t < 64 ==> (bit_at(table@[i], t)
            <==> pawn_push(*color, i as u64, t)),
{
    let mut table: Vec<Bitboard> = Vec::new();
    for i in 0..64u8
        invariant
            table@.len() == i as int,
            forall|j: int, t: u64| #![trigger bit_at(table@[j], t)] 0 <= j < i as int && t < 64 ==> (bit_at(table@[j], t)
                <==> pawn_push(*color, j as u64, t)),
    {
        let boards = check_pawn_moves(i, color);
        table.push(boards);
    }
    table
}

/// The 64-entry pawn attack table for `color`: entry `i` is the attack
/// bitboard of a pawn of that color on square `i`.
pub fn computed_pawn_attacks(color: &Color) -> (table: Vec<Bitboard>)
    ensures
        table@.len() == 64,
        forall|i: int, t: u64| #![trigger bit_at(table@[i], t)] 0 <= i < 64 && t < 64 ==> (bit_at(table@[i], t)
            <==> pawn_attack(*color, i as u64, t)),
{
    let mut table: Vec<Bitboard> = Vec::new();
    for i in 0..64u8
        invariant
            table@.len() == i as int,
            forall|j: int, t: u64| #![trigger bit_at(table@[j], t)] 0 <= j < i as int && t < 64 ==> (bit_at(table@[j], t)
                <==> pawn_attack(*color, j as u64, t)),
    {
        let boards = mask_pawn_attacks(i, color);
        table.push(boards);
    }
    table
}

/// The 64-entry knight attack table: entry `i` is the attack bitboard of a
/// knight on square `i`.
pub fn computed_knight_attacks() -> (table: Vec<Bitboard>)
    ensures
        table@.len() == 64,
        forall|i: int, t: u64| #![trigger bit_at(table@[i], t)] 0 <= i < 64 && t < 64 ==> (bit_at(table@[i], t)
            <==> knight_attack(i as u64, t)),
{
    let mut table: Vec<Bitboard> = Vec::new();
    for i in 0..64u8
        invariant
            table@.len() == i as int,
            forall|j: int, t: u64| #![trigger bit_at(table@[j], t)] 0 <= j < i as int && t < 64 ==> (bit_at(table@[j], t)
                <==> knight_attack(j as u64, t)),
    {
        let boards = attacks_knight_moves(i);
        table.push(boards);
    }
    table
}

/// The 64-entry king attack table: entry `i` is the attack bitboard of a
/// king on square `i`.
pub fn computed_king_moves() -> (table: Vec<Bitboard>)
    ensures
        table@.len() == 64,
        forall|i: int, t: u64| #![trigger bit_at(table@[i], t)] 0 <= i < 64 && t < 64 ==> (bit_at(table@[i], t)
            <==> king_attack(i as u64, t)),
{
    let mut table: Vec<Bitboard> = Vec::new();
    for i in 0..64u8
        invariant
            table@.len() == i as int,
            forall|j: int, t: u64| #![trigger bit_at(table@[j], t)] 0 <= j < i as int && t < 64 ==> (bit_at(table@[j], t)
                <==> king_attack(j as u64, t)),
    {
        let boards = attacks_king_moves(i);
        table.push(boards);
    }
    table
}


/// `x` lies strictly between `a` and `b`, in whichever order.
pub open spec fn strictly_between(a: u64, x: u64, b: u64) -> bool {
    (a < x && x < b) || (b < x && x < a)
}

/// Square `u` lies strictly between squares `s` and `t` on the rank or the
/// file the two share.
pub open spec fn on_rook_segment(s: u64, t: u64, u: u64) -> bool {
    ||| (file_of(u) == file_of(s) && file_of(t) == file_of(s) && strictly_between(
        rank_of(s),
        rank_of(u),
        rank_of(t),
    ))
    ||| (rank_of(u) == rank_of(s) && rank_of(t) == rank_of(s) && strictly_between(
        file_of(s),
        file_of(u),
        file_of(t),
    ))
}

/// A rook on `s` reaches `t` through the blockers `blockers`: `t` shares a
/// rank or a file with `s`, and no blocker stands strictly between them.
/// The first blocked square on a ray is itself reached; squares past it are not.
pub open spec fn rook_reaches(blockers: u64, s: u64, t: u64) -> bool {
    s < 64 && t < 64 && t != s && (file_of(t) == file_of(s) || rank_of(t) == rank_of(s)) && (forall|
        u: u64,
    |
        #![trigger bit_at(blockers, u)]
        u < 64 && on_rook_segment(s, t, u) ==> !bit_at(blockers, u))
}

/// Squares `s` and `t` share a diagonal (rank minus file constant).
pub open spec fn same_diagonal(s: u64, t: u64) -> bool {
    rank_of(s) + file_of(t) == rank_of(t) + file_of(s)
}

/// Squares `s` and `t` share an anti-diagonal (rank plus file constant).
pub open spec fn same_antidiagonal(s: u64, t: u64) -> bool {
    rank_of(s) + file_of(s) == rank_of(t) + file_of(t)
}

/// Square `u` lies strictly between squares `s` and `t` on the diagonal or
/// the anti-diagonal the two share.
pub open spec fn on_bishop_segment(s: u64, t: u64, u: u64) -> bool {
    ||| (same_diagonal(s, t) && same_diagonal(s, u) && strictly_between(
        rank_of(s),
        rank_of(u),
        rank_of(t),
    ))
    ||| (same_antidiagonal(s, t) && same_antidiagonal(s, u) && strictly_between(
        rank_of(s),
        rank_of(u),
        rank_of(t),
    ))
}

/// A bishop on `s` reaches `t` through the blockers `blockers`: `t` shares a
/// diagonal or an anti-diagonal with `s`, and no blocker stands strictly
/// between them. The first blocked square on a ray is itself reached.
pub open spec fn bishop_reaches(blockers: u64, s: u64, t: u64) -> bool {
    s < 64 && t < 64 && t != s && (same_diagonal(s, t) || same_antidiagonal(s, t)) && (forall|
        u: u64,
    |
        #![trigger bit_at(blockers, u)]
        u < 64 && on_bishop_segment(s, t, u) ==> !bit_at(blockers, u))
}

/// A queen on `s` reaches `t` exactly where a rook or a bishop on `s` would.
pub open spec fn queen_reaches(blockers: u64, s: u64, t: u64) -> bool {
    rook_reaches(blockers, s, t) || bishop_reaches(blockers, s, t)
}

/// Scans the ray of increasing ranks on the file of `s`, stopping on (and
/// including) the first blocked square.
fn rook_ray_up(s: u64, block: u64) -> (att: u64)
    requires
        s < 64,
    ensures
        forall|t: u64| #![trigger bit_at(att, t)] t < 64 ==> (bit_at(att, t) <==> (rook_reaches(
            block,
            s,
            t,
        ) && rank_of(t) > rank_of(s) && file_of(t) == file_of(s))),
{
    let r0: u64 = s / 8;
    let f0: u64 = s % 8;
    let mut att: u64 = 0;
    let mut rank: u64 = r0 + 1;
    proof {
        lemma_bit_empty();
        lemma_sq_split(s);
    }
    while rank < 8
        invariant_except_break
            s < 64,
            r0 == rank_of(s),
            f0 == file_of(s),
            r0 < 8,
            f0 < 8,
            r0 < rank <= 8,
            forall|t: u64| #![trigger bit_at(att, t)] t < 64 ==> (bit_at(att, t) <==> (file_of(t) == f0 && r0 < rank_of(t) < rank)),
            forall|u: u64| #![trigger bit_at(block, u)] u < 64 && (file_of(u) == f0 && r0 < rank_of(u) < rank) ==> !bit_at(
                block,
                u,
            ),
        ensures
            forall|t: u64| #![trigger bit_at(att, t)] t < 64 ==> (bit_at(att, t) <==> (rook_reaches(
                block,
                s,
                t,
            ) && rank_of(t) > rank_of(s) && file_of(t) == file_of(s))),
        decreases 8 - rank,
    {
        let idx: u64 = rank * 8 + f0;
        let bb: u64 = 1u64 << idx;
        let ghost att0: u64 = att;
        att = att | bb;
        proof {
            lemma_sq_join(rank, f0);
            lemma_bit_insert(att0, idx, att);
            assert forall|t: u64| t < 64 && file_of(t) == f0 && rank_of(t) == rank implies t == idx by {
                lemma_sq_split(t);
            }
        }
        if block & bb != 0 {
            proof {
                assert(bit_at(block, idx));
                assert forall|t: u64| t < 64 implies (bit_at(att, t) <==> (rook_reaches(
                    block,
                    s,
                    t,
                ) && rank_of(t) > rank_of(s) && file_of(t) == file_of(s))) by {
                    lemma_sq_split(t);
                }
            }
            break;
        }
        proof {
            assert(!bit_at(block, idx));
        }
        rank = rank + 1;
    }
    att
}

/// Scans the ray of decreasing ranks on the file of `s`, stopping on (and
/// including) the first blocked square.
fn rook_ray_down(s: u64, block: u64) -> (att: u64)
    requires
        s < 64,
    ensures
        forall|t: u64| #![trigger bit_at(att, t)] t < 64 ==> (bit_at(att, t) <==> (rook_reaches(
            block,
            s,
            t,
        ) && rank_of(t) < rank_of(s) && file_of(t) == file_of(s))),
{
    let r0: u64 = s / 8;
    let f0: u64 = s % 8;
    let mut att: u64 = 0;
    let mut k: u64 = 1;
    proof {
        lemma_bit_empty();
        lemma_sq_split(s);
    }
    while k <= r0
        invariant_except_break
            s < 64,
            r0 == rank_of(s),
            f0 == file_of(s),
            r0 < 8,
            f0 < 8,
            1 <= k <= 8,
            forall|t: u64| #![trigger bit_at(att, t)] t < 64 ==> (bit_at(att, t) <==> (file_of(t) == f0 && rank_of(t) < r0 && r0 < rank_of(t) + k)),
            forall|u: u64| #![trigger bit_at(block, u)] u < 64 && (file_of(u) == f0 && rank_of(u) < r0 && r0 < rank_of(u) + k) ==> !bit_at(
                block,
                u,
            ),
        ensures
            forall|t: u64| #![trigger bit_at(att, t)] t < 64 ==> (bit_at(att, t) <==> (rook_reaches(
                block,
                s,
                t,
            ) && rank_of(t) < rank_of(s) && file_of(t) == file_of(s))),
        decreases 8 - k,
    {
        let idx: u64 = (r0 - k) * 8 + f0;
        let bb: u64 = 1u64 << idx;
        let ghost att0: u64 = att;
        att = att | bb;
        proof {
            lemma_sq_join((r0 - k) as u64, f0);
            lemma_bit_insert(att0, idx, att);
            assert forall|t: u64| t < 64 && file_of(t) == f0 && rank_of(t) + k == r0 implies t == idx by {
                lemma_sq_split(t);
            }
        }
        if block & bb != 0 {
            proof {
                assert(bit_at(block, idx));
                assert forall|t: u64| t < 64 implies (bit_at(att, t) <==> (rook_reaches(
                    block,
                    s,
                    t,
                ) && rank_of(t) < rank_of(s) && file_of(t) == file_of(s))) by {
                    lemma_sq_split(t);
                }
            }
            break;
        }
        proof {
            assert(!bit_at(block, idx));
        }
        k = k + 1;
    }
    att
}

/// Scans the ray of increasing files on the rank of `s`, stopping on (and
/// including) the first blocked square.
fn rook_ray_right(s: u64, block: u64) -> (att: u64)
    requires
        s < 64,
    ensures
        forall|t: u64| #![trigger bit_at(att, t)] t < 64 ==> (bit_at(att, t) <==> (rook_reaches(
            block,
            s,
            t,
        ) && file_of(t) > file_of(s) && rank_of(t) == rank_of(s))),
{
    let r0: u64 = s / 8;
    let f0: u64 = s % 8;
    let mut att: u64 = 0;
    let mut file: u64 = f0 + 1;
    proof {
        lemma_bit_empty();
        lemma_sq_split(s);
    }
    while file < 8
        invariant_except_break
            s < 64,
            r0 == rank_of(s),
            f0 == file_of(s),
            r0 < 8,
            f0 < 8,
            f0 < file <= 8,
            forall|t: u64| #![trigger bit_at(att, t)] t < 64 ==> (bit_at(att, t) <==> (rank_of(t) == r0 && f0 < file_of(t) < file)),
            forall|u: u64| #![trigger bit_at(block, u)] u < 64 && (rank_of(u) == r0 && f0 < file_of(u) < file) ==> !bit_at(
                block,
                u,
            ),
        ensures
            forall|t: u64| #![trigger bit_at(att, t)] t < 64 ==> (bit_at(att, t) <==> (rook_reaches(
                block,
                s,
                t,
            ) && file_of(t) > file_of(s) && rank_of(t) == rank_of(s))),
        decreases 8 - file,
    {
        let idx: u64 = r0 * 8 + file;
        let bb: u64 = 1u64 << idx;
        let ghost att0: u64 = att;
        att = att | bb;
        proof {
            lemma_sq_join(r0, file);
            lemma_bit_insert(att0, idx, att);
            assert forall|t: u64| t < 64 && rank_of(t) == r0 && file_of(t) == file implies t == idx by {
                lemma_sq_split(t);
            }
        }
        if block & bb != 0 {
            proof {
                assert(bit_at(block, idx));
                assert forall|t: u64| t < 64 implies (bit_at(att, t) <==> (rook_reaches(
                    block,
                    s,
                    t,
                ) && file_of(t) > file_of(s) && rank_of(t) == rank_of(s))) by {
                    lemma_sq_split(t);
                }
            }
            break;
        }
        proof {
            assert(!bit_at(block, idx));
        }
        file = file + 1;
    }
    att
}

/// Scans the ray of decreasing files on the rank of `s`, stopping on (and
/// including) the first blocked square.
fn rook_ray_left(s: u64, block: u64) -> (att: u64)
    requires
        s < 64,
    ensures
        forall|t: u64| #![trigger bit_at(att, t)] t < 64 ==> (bit_at(att, t) <==> (rook_reaches(
            block,
            s,
            t,
        ) && file_of(t) < file_of(s) && rank_of(t) == rank_of(s))),
{
    let r0: u64 = s / 8;
    let f0: u64 = s % 8;
    let mut att: u64 = 0;
    let mut k: u64 = 1;
    proof {
        lemma_bit_empty();
        lemma_sq_split(s);
    }
    while k <= f0
        invariant_except_break
            s < 64,
            r0 == rank_of(s),
            f0 == file_of(s),
            r0 < 8,
            f0 < 8,
            1 <= k <= 8,
            forall|t: u64| #![trigger bit_at(att, t)] t < 64 ==> (bit_at(att, t) <==> (rank_of(t) == r0 && file_of(t) < f0 && f0 < file_of(t) + k)),
            forall|u: u64| #![trigger bit_at(block, u)] u < 64 && (rank_of(u) == r0 && file_of(u) < f0 && f0 < file_of(u) + k) ==> !bit_at(
                block,
                u,
            ),
        ensures
            forall|t: u64| #![trigger bit_at(att, t)] t < 64 ==> (bit_at(att, t) <==> (rook_reaches(
                block,
                s,
                t,
            ) && file_of(t) < file_of(s) && rank_of(t) == rank_of(s))),
        decreases 8 - k,
    {
        let idx: u64 = r0 * 8 + (f0 - k);
        let bb: u64 = 1u64 << idx;
        let ghost att0: u64 = att;
        att = att | bb;
        proof {
            lemma_sq_join(r0, (f0 - k) as u64);
            lemma_bit_insert(att0, idx, att);
            assert forall|t: u64| t < 64 && rank_of(t) == r0 && file_of(t) + k == f0 implies t == idx by {
                lemma_sq_split(t);
            }
        }
        if block & bb != 0 {
            proof {
                assert(bit_at(block, idx));
                assert forall|t: u64| t < 64 implies (bit_at(att, t) <==> (rook_reaches(
                    block,
                    s,
                    t,
                ) && file_of(t) < file_of(s) && rank_of(t) == rank_of(s))) by {
                    lemma_sq_split(t);
                }
            }
            break;
        }
        proof {
            assert(!bit_at(block, idx));
        }
        k = k + 1;
    }
    att
}

/// The attack bitboard of a rook on `square` against the occupancy `block`:
/// the four orthogonal rays, each stopping on (and including) its first
/// blocked square.
pub fn generate_rook_attacks_on_the_fly(square: Square, block: Bitboard) -> (attacks: Bitboard)
    requires
        square < 64,
    ensures
        forall|t: u64| #![trigger bit_at(attacks, t)] t < 64 ==> (bit_at(attacks, t)
            <==> rook_reaches(block, square as u64, t)),
{
    let s: u64 = square as u64;
    let up = rook_ray_up(s, block);
    let down = rook_ray_down(s, block);
    let right = rook_ray_right(s, block);
    let left = rook_ray_left(s, block);
    let attacks = up | down | right | left;
    proof {
        lemma_bit_union(up, down, up | down);
        lemma_bit_union(up | down, right, (up | down) | right);
        lemma_bit_union((up | down) | right, left, attacks);
        assert forall|t: u64| t < 64 implies (bit_at(attacks, t) <==> rook_reaches(
            block,
            s,
            t,
        )) by {
            lemma_sq_split(s);
            lemma_sq_split(t);
        }
    }
    attacks
}

/// Scans the diagonal ray of increasing ranks and files from `s`, stopping
/// on (and including) the first blocked square.
fn bishop_ray_up_right(s: u64, block: u64) -> (att: u64)
    requires
        s < 64,
    ensures
        forall|t: u64| #![trigger bit_at(att, t)] t < 64 ==> (bit_at(att, t) <==> (bishop_reaches(
            block,
            s,
            t,
        ) && rank_of(t) > rank_of(s) && file_of(t) > file_of(s))),
{
    let r0: u64 = s / 8;
    let f0: u64 = s % 8;
    let mut att: u64 = 0;
    let mut k: u64 = 1;
    proof {
        lemma_bit_empty();
        lemma_sq_split(s);
    }
    while r0 + k < 8 && f0 + k < 8
        invariant_except_break
            s < 64,
            r0 == rank_of(s),
            f0 == file_of(s),
            r0 < 8,
            f0 < 8,
            1 <= k <= 8,
            forall|t: u64| #![trigger bit_at(att, t)] t < 64 ==> (bit_at(att, t) <==> (same_diagonal(s, t) && r0 < rank_of(t) < r0 + k)),
            forall|u: u64| #![trigger bit_at(block, u)] u < 64 && (same_diagonal(s, u) && r0 < rank_of(u) < r0 + k) ==> !bit_at(
                block,
                u,
            ),
        ensures
            forall|t: u64| #![trigger bit_at(att, t)] t < 64 ==> (bit_at(att, t) <==> (
            bishop_reaches(block, s, t) && rank_of(t) > rank_of(s) && file_of(t) > file_of(s))),
        decreases 8 - k,
    {
        let idx: u64 = (r0 + k) * 8 + (f0 + k);
        let bb: u64 = 1u64 << idx;
        let ghost att0: u64 = att;
        att = att | bb;
        proof {
            lemma_sq_join((r0 + k) as u64, (f0 + k) as u64);
            lemma_bit_insert(att0, idx, att);
            assert forall|t: u64| t < 64 && same_diagonal(s, t) && rank_of(t) == r0 + k implies t == idx by {
                lemma_sq_split(t);
            }
        }
        if block & bb != 0 {
            proof {
                assert(bit_at(block, idx));
                assert forall|t: u64| t < 64 implies (bit_at(att, t) <==> (bishop_reaches(
                    block,
                    s,
                    t,
                ) && rank_of(t) > rank_of(s) && file_of(t) > file_of(s))) by {
                    lemma_sq_split(t);
                }
            }
            break;
        }
        proof {
            assert(!bit_at(block, idx));
        }
        k = k + 1;
    }
    att
}

/// Scans the anti-diagonal ray of increasing ranks and decreasing files
/// from `s`, stopping on (and including) the first blocked square.
fn bishop_ray_up_left(s: u64, block: u64) -> (att: u64)
    requires
        s < 64,
    ensures
        forall|t: u64| #![trigger bit_at(att, t)] t < 64 ==> (bit_at(att, t) <==> (bishop_reaches(
            block,
            s,
            t,
        ) && rank_of(t) > rank_of(s) && file_of(t) < file_of(s))),
{
    let r0: u64 = s / 8;
    let f0: u64 = s % 8;
    let mut att: u64 = 0;
    let mut k: u64 = 1;
    proof {
        lemma_bit_empty();
        lemma_sq_split(s);
    }
    while r0 + k < 8 && k <= f0
        invariant_except_break
            s < 64,
            r0 == rank_of(s),
            f0 == file_of(s),
            r0 < 8,
            f0 < 8,
            1 <= k <= 8,
            forall|t: u64| #![trigger bit_at(att, t)] t < 64 ==> (bit_at(att, t) <==> (same_antidiagonal(s, t) && r0 < rank_of(t) < r0 + k)),
            forall|u: u64| #![trigger bit_at(block, u)] u < 64 && (same_antidiagonal(s, u) && r0 < rank_of(u) < r0 + k) ==> !bit_at(
                block,
                u,
            ),
        ensures
            forall|t: u64| #![trigger bit_at(att, t)] t < 64 ==> (bit_at(att, t) <==> (
            bishop_reaches(block, s, t) && rank_of(t) > rank_of(s) && file_of(t) < file_of(s))),
        decreases 8 - k,
    {
        let idx: u64 = (r0 + k) * 8 + (f0 - k);
        let bb: u64 = 1u64 << idx;
        let ghost att0: u64 = att;
        att = att | bb;
        proof {
            lemma_sq_join((r0 + k) as u64, (f0 - k) as u64);
            lemma_bit_insert(att0, idx, att);
            assert forall|t: u64| t < 64 && same_antidiagonal(s, t) && rank_of(t) == r0 + k implies t == idx by {
                lemma_sq_split(t);
            }
        }
        if block & bb != 0 {
            proof {
                assert(bit_at(block, idx));
                assert forall|t: u64| t < 64 implies (bit_at(att, t) <==> (bishop_reaches(
                    block,
                    s,
                    t,
                ) && rank_of(t) > rank_of(s) && file_of(t) < file_of(s))) by {
                    lemma_sq_split(t);
                }
            }
            break;
        }
        proof {
            assert(!bit_at(block, idx));
        }
        k = k + 1;
    }
    att
}

/// Scans the anti-diagonal ray of decreasing ranks and increasing files
/// from `s`, stopping on (and including) the first blocked square.
fn bishop_ray_down_right(s: u64, block: u64) -> (att: u64)
    requires
        s < 64,
    ensures
        forall|t: u64| #![trigger bit_at(att, t)] t < 64 ==> (bit_at(att, t) <==> (bishop_reaches(
            block,
            s,
            t,
        ) && rank_of(t) < rank_of(s) && file_of(t) > file_of(s))),
{
    let r0: u64 = s / 8;
    let f0: u64 = s % 8;
    let mut att: u64 = 0;
    let mut k: u64 = 1;
    proof {
        lemma_bit_empty();
        lemma_sq_split(s);
    }
    while k <= r0 && f0 + k < 8
        invariant_except_break
            s < 64,
            r0 == rank_of(s),
            f0 == file_of(s),
            r0 < 8,
            f0 < 8,
            1 <= k <= 8,
            forall|t: u64| #![trigger bit_at(att, t)] t < 64 ==> (bit_at(att, t) <==> (same_antidiagonal(s, t) && rank_of(t) < r0 && r0 < rank_of(t) + k)),
            forall|u: u64| #![trigger bit_at(block, u)] u < 64 && (same_antidiagonal(s, u) && rank_of(u) < r0 && r0 < rank_of(u) + k) ==> !bit_at(
                block,
                u,
            ),
        ensures
            forall|t: u64| #![trigger bit_at(att, t)] t < 64 ==> (bit_at(att, t) <==> (
            bishop_reaches(block, s, t) && rank_of(t) < rank_of(s) && file_of(t) > file_of(s))),
        decreases 8 - k,
    {
        let idx: u64 = (r0 - k) * 8 + (f0 + k);
        let bb: u64 = 1u64 << idx;
        let ghost att0: u64 = att;
        att = att | bb;
        proof {
            lemma_sq_join((r0 - k) as u64, (f0 + k) as u64);
            lemma_bit_insert(att0, idx, att);
            assert forall|t: u64| t < 64 && same_antidiagonal(s, t) && rank_of(t) + k == r0 implies t == idx by {
                lemma_sq_split(t);
            }
        }
        if block & bb != 0 {
            proof {
                assert(bit_at(block, idx));
                assert forall|t: u64| t < 64 implies (bit_at(att, t) <==> (bishop_reaches(
                    block,
                    s,
                    t,
                ) && rank_of(t) < rank_of(s) && file_of(t) > file_of(s))) by {
                    lemma_sq_split(t);
                }
            }
            break;
        }
        proof {
            assert(!bit_at(block, idx));
        }
        k = k + 1;
    }
    att
}

/// Scans the diagonal ray of decreasing ranks and files from `s`, stopping
/// on (and including) the first blocked square.
fn bishop_ray_down_left(s: u64, block: u64) -> (att: u64)
    requires
        s < 64,
    ensures
        forall|t: u64| #![trigger bit_at(att, t)] t < 64 ==> (bit_at(att, t) <==> (bishop_reaches(
            block,
            s,
            t,
        ) && rank_of(t) < rank_of(s) && file_of(t) < file_of(s))),
{
    let r0: u64 = s / 8;
    let f0: u64 = s % 8;
    let mut att: u64 = 0;
    let mut k: u64 = 1;
    proof {
        lemma_bit_empty();
        lemma_sq_split(s);
    }
    while k <= r0 && k <= f0
        invariant_except_break
            s < 64,
            r0 == rank_of(s),
            f0 == file_of(s),
            r0 < 8,
            f0 < 8,
            1 <= k <= 8,
            forall|t: u64| #![trigger bit_at(att, t)] t < 64 ==> (bit_at(att, t) <==> (same_diagonal(s, t) && rank_of(t) < r0 && r0 < rank_of(t) + k)),
            forall|u: u64| #![trigger bit_at(block, u)] u < 64 && (same_diagonal(s, u) && rank_of(u) < r0 && r0 < rank_of(u) + k) ==> !bit_at(
                block,
                u,
            ),
        ensures
            forall|t: u64| #![trigger bit_at(att, t)] t < 64 ==> (bit_at(att, t) <==> (
            bishop_reaches(block, s, t) && rank_of(t) < rank_of(s) && file_of(t) < file_of(s))),
        decreases 8 - k,
    {
        let idx: u64 = (r0 - k) * 8 + (f0 - k);
        let bb: u64 = 1u64 << idx;
        let ghost att0: u64 = att;
        att = att | bb;
        proof {
            lemma_sq_join((r0 - k) as u64, (f0 - k) as u64);
            lemma_bit_insert(att0, idx, att);
            assert forall|t: u64| t < 64 && same_diagonal(s, t) && rank_of(t) + k == r0 implies t == idx by {
                lemma_sq_split(t);
            }
        }
        if block & bb != 0 {
            proof {
                assert(bit_at(block, idx));
                assert forall|t: u64| t < 64 implies (bit_at(att, t) <==> (bishop_reaches(
                    block,
                    s,
                    t,
                ) && rank_of(t) < rank_of(s) && file_of(t) < file_of(s))) by {
                    lemma_sq_split(t);
                }
            }
            break;
        }
        proof {
            assert(!bit_at(block, idx));
        }
        k = k + 1;
    }
    att
}

/// The attack bitboard of a bishop on `square` against the occupancy
/// `block`: the four diagonal rays, each clipped at the board edge and
/// stopping on (and including) its first blocked square.
pub fn bishop_attacks_on_the_fly(square: Square, block: Bitboard) -> (attacks: Bitboard)
    requires
        square < 64,
    ensures
        forall|t: u64| #![trigger bit_at(attacks, t)] t < 64 ==> (bit_at(attacks, t)
            <==> bishop_reaches(block, square as u64, t)),
{
    let s: u64 = square as u64;
    let up_right = bishop_ray_up_right(s, block);
    let up_left = bishop_ray_up_left(s, block);
    let down_right = bishop_ray_down_right(s, block);
    let down_left = bishop_ray_down_left(s, block);
    let attacks = up_right | up_left | down_right | down_left;
    proof {
        lemma_bit_union(up_right, up_left, up_right | up_left);
        lemma_bit_union(up_right | up_left, down_right, (up_right | up_left) | down_right);
        lemma_bit_union((up_right | up_left) | down_right, down_left, attacks);
        assert forall|t: u64| t < 64 implies (bit_at(attacks, t) <==> bishop_reaches(
            block,
            s,
            t,
        )) by {
            lemma_sq_split(s);
            lemma_sq_split(t);
        }
    }
    attacks
}

/// The attack bitboard of a queen on `square` against the occupancy `block`:
/// the union of the rook's and the bishop's attacks from the same square.
pub fn queen_attacks_on_the_fly(square: Square, block: Bitboard) -> (attacks: Bitboard)
    requires
        square < 64,
    ensures
        forall|t: u64| #![trigger bit_at(attacks, t)] t < 64 ==> (bit_at(attacks, t)
            <==> queen_reaches(block, square as u64, t)),
{
    let rook_attacks = generate_rook_attacks_on_the_fly(square, block);
    let bishop_attacks = bishop_attacks_on_the_fly(square, block);
    let attacks = rook_attacks | bishop_attacks;
    proof {
        lemma_bit_union(rook_attacks, bishop_attacks, attacks);
    }
    attacks
}

/// A queen's attack bitboard is exactly the union of the rook's and the
/// bishop's attack bitboards from the same square against the same blockers.
pub proof fn lemma_queen_attacks_union(
    blockers: u64,
    s: u64,
    queen_bb: u64,
    rook_bb: u64,
    bishop_bb: u64,
)
    requires
        forall|t: u64| #![trigger bit_at(queen_bb, t)] t < 64 ==> (bit_at(queen_bb, t)
            <==> queen_reaches(blockers, s, t)),
        forall|t: u64| #![trigger bit_at(rook_bb, t)] t < 64 ==> (bit_at(rook_bb, t)
            <==> rook_reaches(blockers, s, t)),
        forall|t: u64| #![trigger bit_at(bishop_bb, t)] t < 64 ==> (bit_at(bishop_bb, t)
            <==> bishop_reaches(blockers, s, t)),
    ensures
        queen_bb == (rook_bb | bishop_bb),
{
    lemma_bit_union(rook_bb, bishop_bb, rook_bb | bishop_bb);
    lemma_bit_ext(queen_bb, rook_bb | bishop_bb);
}

/// Blocker inclusion: where `b` is the first blocker on a ray out of `s`,
/// the sliding attacks from `s` reach `b` itself, and reach no square on
/// that ray strictly beyond `b`; `t` stands for any such farther square.
pub proof fn lemma_blocker_inclusion(blockers: u64, s: u64, b: u64, t: u64)
    requires
        s < 64,
        b < 64,
        t < 64,
        bit_at(blockers, b),
        on_rook_segment(s, t, b) || on_bishop_segment(s, t, b),
        forall|u: u64|
            #![trigger bit_at(blockers, u)]
            u < 64 && (on_rook_segment(s, b, u) || on_bishop_segment(s, b, u)) ==> !bit_at(
                blockers,
                u,
            ),
    ensures
        queen_reaches(blockers, s, b),
        !queen_reaches(blockers, s, t),
{
    lemma_sq_split(s);
    lemma_sq_split(b);
    lemma_sq_split(t);
}

/// Blocker inclusion on a computed attack bitboard: where `attacks` is the
/// sliding-attack bitboard from `s` against `blockers`, and `b` is the first
/// blocker on a ray out of `s`, the bitboard holds `b` itself and no square
/// on that ray strictly beyond it; `t` stands for any such farther square.
pub proof fn lemma_blocker_inclusion_bitboard(
    blockers: u64,
    s: u64,
    b: u64,
    t: u64,
    attacks: u64,
)
    requires
        s < 64,
        b < 64,
        t < 64,
        bit_at(blockers, b),
        on_rook_segment(s, t, b) || on_bishop_segment(s, t, b),
        forall|u: u64|
            #![trigger bit_at(blockers, u)]
            u < 64 && (on_rook_segment(s, b, u) || on_bishop_segment(s, b, u)) ==> !bit_at(
                blockers,
                u,
            ),
        forall|x: u64| #![trigger bit_at(attacks, x)] x < 64 ==> (bit_at(attacks, x)
            <==> queen_reaches(blockers, s, x)),
    ensures
        bit_at(attacks, b),
        !bit_at(attacks, t),
{
    lemma_blocker_inclusion(blockers, s, b, t);
}

/// A pawn attack never leaves the files adjacent to the pawn's own: the
/// attacked file differs from the pawn's file by exactly one, so an attack
/// can never wrap past the a-file or h-file edge.
pub proof fn lemma_pawn_attack_adjacent_file(c: Color, s: u64, t: u64)
    requires
        pawn_attack(c, s, t),
    ensures
        file_of(t) <= file_of(s) + 1,
        file_of(s) <= file_of(t) + 1,
        file_of(t) != file_of(s),
{
}

/// A knight never attacks the square it stands on.
pub proof fn lemma_knight_attack_moves_away(s: u64, t: u64)
    requires
        knight_attack(s, t),
    ensures
        t != s,
{
    lemma_sq_split(s);
    lemma_sq_split(t);
}


} // verus!
