//! Bit-level view of a bitboard: which squares a `u64` holds, how many,
//! and the handful of bit-vector facts the move generator's proofs rest on.

use vstd::prelude::*;

verus! {

/// True when bit `i` of `b` is set, that is, when square `i` is in the board `b`.
pub open spec fn bit_at(b: u64, i: u64) -> bool
    recommends
        i < 64,
{
    b & (1u64 << i) != 0
}

/// The rank (row, 0..8) of square `s`.
pub open spec fn rank_of(s: u64) -> u64 {
    s / 8
}

/// The file (column, 0..8) of square `s`.
pub open spec fn file_of(s: u64) -> u64 {
    s % 8
}

/// The number of set bits of `b`: one term per square of the board.
pub open spec fn popcnt64(b: u64) -> int {
    ((b >> 0) & 1) + ((b >> 1) & 1) + ((b >> 2) & 1) + ((b >> 3) & 1)
        + ((b >> 4) & 1) + ((b >> 5) & 1) + ((b >> 6) & 1) + ((b >> 7) & 1)
        + ((b >> 8) & 1) + ((b >> 9) & 1) + ((b >> 10) & 1) + ((b >> 11) & 1)
        + ((b >> 12) & 1) + ((b >> 13) & 1) + ((b >> 14) & 1) + ((b >> 15) & 1)
        + ((b >> 16) & 1) + ((b >> 17) & 1) + ((b >> 18) & 1) + ((b >> 19) & 1)
        + ((b >> 20) & 1) + ((b >> 21) & 1) + ((b >> 22) & 1) + ((b >> 23) & 1)
        + ((b >> 24) & 1) + ((b >> 25) & 1) + ((b >> 26) & 1) + ((b >> 27) & 1)
        + ((b >> 28) & 1) + ((b >> 29) & 1) + ((b >> 30) & 1) + ((b >> 31) & 1)
        + ((b >> 32) & 1) + ((b >> 33) & 1) + ((b >> 34) & 1) + ((b >> 35) & 1)
        + ((b >> 36) & 1) + ((b >> 37) & 1) + ((b >> 38) & 1) + ((b >> 39) & 1)
        + ((b >> 40) & 1) + ((b >> 41) & 1) + ((b >> 42) & 1) + ((b >> 43) & 1)
        + ((b >> 44) & 1) + ((b >> 45) & 1) + ((b >> 46) & 1) + ((b >> 47) & 1)
        + ((b >> 48) & 1) + ((b >> 49) & 1) + ((b >> 50) & 1) + ((b >> 51) & 1)
        + ((b >> 52) & 1) + ((b >> 53) & 1) + ((b >> 54) & 1) + ((b >> 55) & 1)
        + ((b >> 56) & 1) + ((b >> 57) & 1) + ((b >> 58) & 1) + ((b >> 59) & 1)
        + ((b >> 60) & 1) + ((b >> 61) & 1) + ((b >> 62) & 1) + ((b >> 63) & 1)
}

/// The empty board holds no square.
pub proof fn lemma_bit_empty()
    by (bit_vector)
    ensures
        forall|t: u64| t < 64 ==> !bit_at(0u64, t),
{
}

/// A union of two boards holds exactly the squares of either.
pub proof fn lemma_bit_union(a: u64, b: u64, r: u64)
    by (bit_vector)
    requires
        r == (a | b),
    ensures
        forall|t: u64| #![trigger bit_at(r, t)] t < 64 ==> (bit_at(r, t) <==> bit_at(a, t)
            || bit_at(b, t)),
{
}

/// Adding square `i` to a board adds that square and nothing else.
pub proof fn lemma_bit_insert(b: u64, i: u64, r: u64)
    by (bit_vector)
    requires
        i < 64,
        r == (b | (1u64 << i)),
    ensures
        forall|t: u64| #![trigger bit_at(r, t)] t < 64 ==> (bit_at(r, t) <==> bit_at(b, t) || t
            == i),
{
}

/// Two boards that hold the same squares are the same board.
pub proof fn lemma_bit_ext(a: u64, b: u64)
    requires
        forall|t: u64| t < 64 ==> (bit_at(a, t) <==> bit_at(b, t)),
    ensures
        a == b,
{
    assert(a == b) by (bit_vector)
        requires
            bit_at(a, 0) == bit_at(b, 0),
            bit_at(a, 1) == bit_at(b, 1),
            bit_at(a, 2) == bit_at(b, 2),
            bit_at(a, 3) == bit_at(b, 3),
            bit_at(a, 4) == bit_at(b, 4),
            bit_at(a, 5) == bit_at(b, 5),
            bit_at(a, 6) == bit_at(b, 6),
            bit_at(a, 7) == bit_at(b, 7),
            bit_at(a, 8) == bit_at(b, 8),
            bit_at(a, 9) == bit_at(b, 9),
            bit_at(a, 10) == bit_at(b, 10),
            bit_at(a, 11) == bit_at(b, 11),
            bit_at(a, 12) == bit_at(b, 12),
            bit_at(a, 13) == bit_at(b, 13),
            bit_at(a, 14) == bit_at(b, 14),
            bit_at(a, 15) == bit_at(b, 15),
            bit_at(a, 16) == bit_at(b, 16),
            bit_at(a, 17) == bit_at(b, 17),
            bit_at(a, 18) == bit_at(b, 18),
            bit_at(a, 19) == bit_at(b, 19),
            bit_at(a, 20) == bit_at(b, 20),
            bit_at(a, 21) == bit_at(b, 21),
            bit_at(a, 22) == bit_at(b, 22),
            bit_at(a, 23) == bit_at(b, 23),
            bit_at(a, 24) == bit_at(b, 24),
            bit_at(a, 25) == bit_at(b, 25),
            bit_at(a, 26) == bit_at(b, 26),
            bit_at(a, 27) == bit_at(b, 27),
            bit_at(a, 28) == bit_at(b, 28),
            bit_at(a, 29) == bit_at(b, 29),
            bit_at(a, 30) == bit_at(b, 30),
            bit_at(a, 31) == bit_at(b, 31),
            bit_at(a, 32) == bit_at(b, 32),
            bit_at(a, 33) == bit_at(b, 33),
            bit_at(a, 34) == bit_at(b, 34),
            bit_at(a, 35) == bit_at(b, 35),
            bit_at(a, 36) == bit_at(b, 36),
            bit_at(a, 37) == bit_at(b, 37),
            bit_at(a, 38) == bit_at(b, 38),
            bit_at(a, 39) == bit_at(b, 39),
            bit_at(a, 40) == bit_at(b, 40),
            bit_at(a, 41) == bit_at(b, 41),
            bit_at(a, 42) == bit_at(b, 42),
            bit_at(a, 43) == bit_at(b, 43),
            bit_at(a, 44) == bit_at(b, 44),
            bit_at(a, 45) == bit_at(b, 45),
            bit_at(a, 46) == bit_at(b, 46),
            bit_at(a, 47) == bit_at(b, 47),
            bit_at(a, 48) == bit_at(b, 48),
            bit_at(a, 49) == bit_at(b, 49),
            bit_at(a, 50) == bit_at(b, 50),
            bit_at(a, 51) == bit_at(b, 51),
            bit_at(a, 52) == bit_at(b, 52),
            bit_at(a, 53) == bit_at(b, 53),
            bit_at(a, 54) == bit_at(b, 54),
            bit_at(a, 55) == bit_at(b, 55),
            bit_at(a, 56) == bit_at(b, 56),
            bit_at(a, 57) == bit_at(b, 57),
            bit_at(a, 58) == bit_at(b, 58),
            bit_at(a, 59) == bit_at(b, 59),
            bit_at(a, 60) == bit_at(b, 60),
            bit_at(a, 61) == bit_at(b, 61),
            bit_at(a, 62) == bit_at(b, 62),
            bit_at(a, 63) == bit_at(b, 63),
    ;
}

/// A square splits into its rank and file, both on the board.
pub proof fn lemma_sq_split(u: u64)
    requires
        u < 64,
    ensures
        u == 8 * rank_of(u) + file_of(u),
        rank_of(u) < 8,
        file_of(u) < 8,
{
    assert(u == 8 * (u / 8) + u % 8 && u / 8 < 8 && u % 8 < 8) by (bit_vector)
        requires
            u < 64,
    ;
}

/// A rank and a file join into the square they locate.
pub proof fn lemma_sq_join(r: u64, f: u64)
    requires
        r < 8,
        f < 8,
    ensures
        8 * r + f < 64,
        rank_of((8 * r + f) as u64) == r,
        file_of((8 * r + f) as u64) == f,
{
    assert(8 * r + f < 64 && ((8 * r + f) as u64) / 8 == r && ((8 * r + f) as u64) % 8 == f)
        by (bit_vector)
        requires
            r < 8,
            f < 8,
    ;
}

} // verus!
