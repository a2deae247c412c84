//! The turn-based game state: which color is active, and how an attempted
//! move or capture either flips the turn or leaves the state untouched.
//!
//! Full legality (pins, check, castling, promotion, en passant) belongs to a
//! board oracle outside this state machine; its verdict on a proposed move
//! arrives here as the `legal` argument, and this module enforces only turn
//! order and the all-or-nothing update of the state.

use vstd::prelude::*;

use crate::Color;

verus! {

/// Why an attempted move or capture was rejected. A rejection always leaves
/// the game state exactly as it was.
#[derive(Clone, Copy, PartialEq, Eq, Structural, Debug)]
pub enum MoveError {
    /// The caller's color is not the color whose turn is active.
    NotYourTurn,
    /// The board's legality oracle refused the move or capture.
    IllegalMove,
}

/// The turn state of one game. A fresh game starts with White active, and
/// the active color flips after every accepted move or capture and at no
/// other time.
pub struct Game {
    /// The color whose turn it is to move.
    pub active: Color,
    /// How many moves and captures have been accepted since the game began.
    pub moves_applied: Ghost<nat>,
}

impl Game {
    /// The active color tracks the parity of the accepted-move count: White
    /// is active exactly when that count is even.
    pub open spec fn wf(self) -> bool {
        (self.active == Color::White) <==> (self.moves_applied@ % 2 == 0)
    }

    /// A fresh game: White to move, no move accepted yet.
    pub fn new() -> (g: Game)
        ensures
            g.active == Color::White,
            g.moves_applied@ == 0,
            g.wf(),
    {
        Game { active: Color::White, moves_applied: Ghost(0) }
    }

    /// Flips the active color; called exactly once for each accepted move or
    /// capture.
    pub fn switch_player_turn(&mut self)
        ensures
            final(self).active == old(self).active.spec_opposite(),
            final(self).moves_applied@ == old(self).moves_applied@ + 1,
            old(self).wf() ==> final(self).wf(),
    {
        self.active = self.active.opposite();
        self.moves_applied = Ghost(self.moves_applied@ + 1);
    }

    /// Attempts a move. `caller` is the color the mover controls and `legal`
    /// is the board oracle's verdict on the proposed move. The move is
    /// accepted, and the turn flips, exactly when the caller owns the active
    /// color and the oracle agreed; otherwise the state is left untouched
    /// and the rejection is reported.
    pub fn apply_move(&mut self, caller: Color, legal: bool) -> (r: Result<(), MoveError>)
        ensures
            caller != old(self).active ==> r == Err::<(), MoveError>(MoveError::NotYourTurn)
                && *final(self) == *old(self),
            caller == old(self).active && !legal ==> r == Err::<(), MoveError>(
                MoveError::IllegalMove,
            ) && *final(self) == *old(self),
            caller == old(self).active && legal ==> r == Ok::<(), MoveError>(())
                && final(self).active == old(self).active.spec_opposite()
                && final(self).moves_applied@ == old(self).moves_applied@ + 1,
            old(self).wf() ==> final(self).wf(),
    {
        if caller != self.active {
            return Err(MoveError::NotYourTurn);
        }
        if !legal {
            return Err(MoveError::IllegalMove);
        }
        self.switch_player_turn();
        Ok(())
    }

    /// Attempts a capture. The shape matches `apply_move`, but whether the
    /// caller must own the active color is made explicit: with
    /// `enforce_turn` set the capture path checks ownership exactly as the
    /// move path does, and without it any caller may resolve the capture.
    pub fn apply_capture(&mut self, enforce_turn: bool, caller: Color, legal: bool) -> (r: Result<
        (),
        MoveError,
    >)
        ensures
            enforce_turn && caller != old(self).active ==> r == Err::<(), MoveError>(
                MoveError::NotYourTurn,
            ) && *final(self) == *old(self),
            (!enforce_turn || caller == old(self).active) && !legal ==> r == Err::<(), MoveError>(
                MoveError::IllegalMove,
            ) && *final(self) == *old(self),
            (!enforce_turn || caller == old(self).active) && legal ==> r == Ok::<(), MoveError>(
                (),
            ) && final(self).active == old(self).active.spec_opposite()
                && final(self).moves_applied@ == old(self).moves_applied@ + 1,
            old(self).wf() ==> final(self).wf(),
    {
        if enforce_turn && caller != self.active {
            return Err(MoveError::NotYourTurn);
        }
        if !legal {
            return Err(MoveError::IllegalMove);
        }
        self.switch_player_turn();
        Ok(())
    }
}

/// Turn alternation: a fresh game satisfies `wf` with zero accepted moves,
/// and every accepted move adds one to the count while flipping the color,
/// so in any reachable game state the active color is White exactly when the
/// number of accepted moves is even. Rejected attempts change neither.
pub proof fn lemma_turn_alternation(g: Game)
    requires
        g.wf(),
    ensures
        g.active == Color::White <==> g.moves_applied@ % 2 == 0,
        g.active == Color::Black <==> g.moves_applied@ % 2 == 1,
{
}

} // verus!
