use bleak_blocks::block::{Block, BlockType};
use bleak_blocks::coordinate::coordinate;
use bleak_blocks::game_session::{calculate_points, GameSession, GameState};

fn fill_board(session: &mut GameSession, types: &[BlockType]) {
    let rows = session.layout.rows;
    let cols = session.layout.cols;
    let size = session.layout.block_size;
    let mut i = 0;
    for row in 0..rows {
        for col in 0..cols {
            let position = coordinate(row, col);
            let taken = session.layout.take_block(position);
            assert!(taken.is_some());
            session.layout.place_block(position, Block::new(size, types[i]));
            i += 1;
        }
    }
}

/// Ticks the session until it settles back into `Playing` or `GameOver`.
fn run_to_rest(session: &mut GameSession) {
    let mut ticks = 0;
    loop {
        match session.state {
            GameState::Playing | GameState::GameOver => break,
            _ => {}
        }
        session.update(16);
        ticks += 1;
        assert!(ticks < 10_000, "session did not settle");
    }
}

#[test]
fn points_follow_the_squared_rule() {
    assert_eq!(calculate_points(0), 0);
    assert_eq!(calculate_points(1), 0);
    assert_eq!(calculate_points(2), 1);
    assert_eq!(calculate_points(3), 4);
    assert_eq!(calculate_points(5), 16);
    assert_eq!(calculate_points(100), 9801);
    // The rule saturates instead of wrapping.
    assert_eq!(calculate_points(u32::MAX), u32::MAX);
}

#[test]
fn clearing_the_whole_board_ends_the_game() {
    // A 2x2 board, all four cells the same type: one click anywhere
    // resolves a region of size four, the board empties, and the session
    // reaches its terminal state.
    let mut session = GameSession::new(0, 0, 200, 200, 2, 2);
    fill_board(&mut session, &[BlockType::Potion; 4]);
    assert_eq!(session.state, GameState::Playing);

    let removed = session.handle_click(150, 50);
    assert_eq!(removed, 4);
    assert_eq!(session.blocks_remaining(), 0);
    assert!(session.is_game_over());
    assert_eq!(session.score, 9);

    session.update(16);
    assert_eq!(session.state, GameState::GameOver);

    // The terminal state ignores further clicks and ticks.
    assert_eq!(session.handle_click(50, 50), 0);
    session.update(16);
    assert_eq!(session.state, GameState::GameOver);
}

#[test]
fn bottom_gap_in_a_column_drains_by_falling() {
    // One column of three cells; the bottom one is cleared, so both
    // blocks above the gap fall by exactly one row each.
    let mut session = GameSession::new(0, 0, 100, 300, 3, 1);
    let a = BlockType::Flame;
    let b = BlockType::Coffin;
    fill_board(&mut session, &[a, a, b]);

    let removed = session.handle_click(10, 250);
    assert_eq!(removed, 1);
    assert_eq!(session.blocks_remaining(), 2);

    // Every cell above the gap falls by one row: two moves.
    let moves = session.layout.find_falling_blocks().unwrap();
    assert_eq!(moves.len(), 2);
    assert!(moves.contains(&(coordinate(1, 0), coordinate(2, 0))));
    assert!(moves.contains(&(coordinate(0, 0), coordinate(1, 0))));

    session.update(16);
    assert_eq!(session.state, GameState::BlocksFalling);
    run_to_rest(&mut session);

    assert_eq!(session.state, GameState::Playing);
    assert!(session.layout.find_falling_blocks().is_none());
    assert!(session.layout.get_block(coordinate(0, 0)).is_none());
    assert!(session.layout.get_block(coordinate(1, 0)).is_some());
    assert!(session.layout.get_block(coordinate(2, 0)).is_some());
    assert_eq!(session.blocks_remaining(), 2);
}

#[test]
fn empty_leading_column_drains_by_shifting() {
    // One row of three cells; the left column is cleared, so both
    // remaining columns shift one column left.
    let mut session = GameSession::new(0, 0, 300, 100, 1, 3);
    let a = BlockType::Potion;
    let b = BlockType::Brain;
    let g = BlockType::Gravestone;
    fill_board(&mut session, &[a, b, g]);

    let removed = session.handle_click(10, 10);
    assert_eq!(removed, 1);

    let moves = session.layout.find_shifting_blocks().unwrap();
    assert_eq!(moves.len(), 2);
    assert!(moves.contains(&(coordinate(0, 1), coordinate(0, 0))));
    assert!(moves.contains(&(coordinate(0, 2), coordinate(0, 1))));

    session.update(16);
    assert_eq!(session.state, GameState::ColumnsShifting);
    run_to_rest(&mut session);

    assert_eq!(session.state, GameState::Playing);
    assert!(!session.layout.is_column_empty(0));
    assert!(!session.layout.is_column_empty(1));
    assert!(session.layout.is_column_empty(2));
    assert_eq!(session.blocks_remaining(), 2);
}

#[test]
fn falling_resolves_before_shifting() {
    // Clearing the bottom-left cell leaves both a vertical gap and, after
    // it drains, no empty column; the session must fall first.
    let mut session = GameSession::new(0, 0, 200, 200, 2, 2);
    let a = BlockType::Potion;
    let b = BlockType::Brain;
    // a b
    // b b ... clicking the bottom-left clears the b-region of size 3.
    fill_board(&mut session, &[a, b, b, b]);

    let removed = session.handle_click(10, 150);
    assert_eq!(removed, 3);
    assert_eq!(session.blocks_remaining(), 1);

    session.update(16);
    assert_eq!(session.state, GameState::BlocksFalling);
    run_to_rest(&mut session);

    // The lone block fell into the bottom-left corner; nothing shifts.
    assert_eq!(session.state, GameState::Playing);
    assert!(session.layout.get_block(coordinate(1, 0)).is_some());
    assert!(session.layout.get_block(coordinate(0, 0)).is_none());
    assert!(session.layout.is_column_empty(1));
    assert_eq!(session.blocks_remaining(), 1);
}

#[test]
fn falling_then_shifting_cascade_in_sequence() {
    // Clearing a whole column triggers no fall, but the column collapse
    // shifts its right neighbor left.
    let mut session = GameSession::new(0, 0, 200, 200, 2, 2);
    let a = BlockType::Potion;
    let b = BlockType::Brain;
    // a b
    // a b
    fill_board(&mut session, &[a, b, a, b]);

    let removed = session.handle_click(10, 10);
    assert_eq!(removed, 2);

    session.update(16);
    assert_eq!(session.state, GameState::ColumnsShifting);
    run_to_rest(&mut session);

    assert_eq!(session.state, GameState::Playing);
    assert!(!session.layout.is_column_empty(0));
    assert!(session.layout.is_column_empty(1));
    assert_eq!(session.blocks_remaining(), 2);
}

#[test]
fn clicks_are_ignored_while_blocks_are_falling() {
    let mut session = GameSession::new(0, 0, 100, 300, 3, 1);
    let a = BlockType::Flame;
    let b = BlockType::Coffin;
    fill_board(&mut session, &[a, a, b]);
    let removed = session.handle_click(10, 250);
    assert_eq!(removed, 1);
    session.update(16);
    assert_eq!(session.state, GameState::BlocksFalling);

    let remaining_before = session.blocks_remaining();
    let score_before = session.score;
    assert_eq!(session.handle_click(10, 10), 0);
    assert_eq!(session.blocks_remaining(), remaining_before);
    assert_eq!(session.score, score_before);
}

#[test]
fn score_accumulates_monotonically() {
    let mut session = GameSession::new(0, 0, 200, 200, 2, 2);
    let a = BlockType::Potion;
    let b = BlockType::Brain;
    // a a
    // b b
    fill_board(&mut session, &[a, a, b, b]);

    assert_eq!(session.score, 0);
    let removed = session.handle_click(10, 10);
    assert_eq!(removed, 2);
    assert_eq!(session.score, 1);
    run_to_rest(&mut session);
    let removed = session.handle_click(10, 150);
    assert_eq!(removed, 2);
    assert_eq!(session.score, 2);
}
