use chess::game::{Game, MoveError};
use chess::Color;

#[test]
fn new_game_starts_with_white() {
    let game = Game::new();
    assert_eq!(game.active, Color::White);
}

#[test]
fn turn_alternation_counts_only_accepted_moves() {
    let mut game = Game::new();
    for n in 0..10 {
        let expected = if n % 2 == 0 { Color::White } else { Color::Black };
        let other = if n % 2 == 0 { Color::Black } else { Color::White };
        assert_eq!(game.active, expected);
        // An illegal move is rejected and does not advance the alternation.
        assert_eq!(game.apply_move(expected, false), Err(MoveError::IllegalMove));
        assert_eq!(game.active, expected);
        // A move by the inactive player is rejected too.
        assert_eq!(game.apply_move(other, true), Err(MoveError::NotYourTurn));
        assert_eq!(game.active, expected);
        // The accepted move flips the turn.
        assert_eq!(game.apply_move(expected, true), Ok(()));
    }
    // Ten accepted moves: an even count, so White is active again.
    assert_eq!(game.active, Color::White);
}

#[test]
fn capture_turn_enforcement_is_explicit() {
    let mut game = Game::new();
    // Without enforcement, the inactive player's capture is applied.
    assert_eq!(game.apply_capture(false, Color::Black, true), Ok(()));
    assert_eq!(game.active, Color::Black);
    // With enforcement, the wrong caller is rejected and nothing changes.
    assert_eq!(
        game.apply_capture(true, Color::White, true),
        Err(MoveError::NotYourTurn)
    );
    assert_eq!(game.active, Color::Black);
    // The active player's capture is applied.
    assert_eq!(game.apply_capture(true, Color::Black, true), Ok(()));
    assert_eq!(game.active, Color::White);
    // An illegal capture is rejected and leaves the state unchanged.
    assert_eq!(
        game.apply_capture(true, Color::White, false),
        Err(MoveError::IllegalMove)
    );
    assert_eq!(game.active, Color::White);
}

#[test]
fn switch_player_turn_flips_the_active_color() {
    let mut game = Game::new();
    game.switch_player_turn();
    assert_eq!(game.active, Color::Black);
    game.switch_player_turn();
    assert_eq!(game.active, Color::White);
}

#[test]
fn opposite_swaps_the_colors() {
    assert_eq!(Color::White.opposite(), Color::Black);
    assert_eq!(Color::Black.opposite(), Color::White);
}
