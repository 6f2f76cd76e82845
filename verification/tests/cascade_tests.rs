use bleak_blocks::block::{Block, BlockType};
use bleak_blocks::coordinate::coordinate;
use bleak_blocks::grid_layout::GridLayout;
use bleak_blocks::physics_system::PhysicsSystem;

fn fill_board(layout: &mut GridLayout, types: &[BlockType]) {
    let rows = layout.rows;
    let cols = layout.cols;
    let size = layout.block_size;
    let mut i = 0;
    for row in 0..rows {
        for col in 0..cols {
            let position = coordinate(row, col);
            let taken = layout.take_block(position);
            assert!(taken.is_some());
            layout.place_block(position, Block::new(size, types[i]));
            i += 1;
        }
    }
}

#[test]
fn settled_board_has_no_falling_or_shifting_blocks() {
    let layout = GridLayout::new(0, 0, 300, 300, 3, 3);
    assert!(layout.find_falling_blocks().is_none());
    assert!(layout.find_shifting_blocks().is_none());
}

#[test]
fn falling_blocks_drop_by_the_number_of_empty_cells_below() {
    let mut layout = GridLayout::new(0, 0, 300, 300, 3, 3);
    let a = BlockType::Potion;
    let b = BlockType::Brain;
    // b a b
    // a a a
    // b b b
    fill_board(&mut layout, &[b, a, b, a, a, a, b, b, b]);
    // Remove the plus-shaped region of `a` around the middle.
    let removed = layout.remove_block_region(150, 150);
    assert_eq!(removed, 4);
    // Column 0: row 1 empty; row 0 occupied -> falls one row.
    // Column 1: rows 0 and 1 empty; nothing above them falls.
    // Column 2: row 1 empty; row 0 occupied -> falls one row.
    let moves = layout.find_falling_blocks().unwrap();
    assert_eq!(moves.len(), 2);
    assert!(moves.contains(&(coordinate(0, 0), coordinate(1, 0))));
    assert!(moves.contains(&(coordinate(0, 2), coordinate(1, 2))));
}

#[test]
fn falling_block_skips_over_several_gaps_at_once() {
    let mut layout = GridLayout::new(0, 0, 300, 300, 3, 1);
    let a = BlockType::Flame;
    let b = BlockType::Coffin;
    // a / b / b stacked in one column.
    fill_board(&mut layout, &[a, b, b]);
    // Remove the two `b` cells at the bottom.
    let removed = layout.remove_block_region(10, 150);
    assert_eq!(removed, 2);
    let moves = layout.find_falling_blocks().unwrap();
    assert_eq!(moves, vec![(coordinate(0, 0), coordinate(2, 0))]);
}

#[test]
fn shifting_blocks_move_left_by_the_number_of_empty_columns() {
    let mut layout = GridLayout::new(0, 0, 400, 100, 1, 4);
    let a = BlockType::Potion;
    let b = BlockType::Brain;
    let g = BlockType::Gravestone;
    let f = BlockType::Flame;
    // a b g f in one row.
    fill_board(&mut layout, &[a, b, g, f]);
    // Empty column 1.
    let removed = layout.remove_block_region(150, 10);
    assert_eq!(removed, 1);
    let moves = layout.find_shifting_blocks().unwrap();
    assert_eq!(moves.len(), 2);
    assert!(moves.contains(&(coordinate(0, 2), coordinate(0, 1))));
    assert!(moves.contains(&(coordinate(0, 3), coordinate(0, 2))));
}

#[test]
fn shifting_skips_nothing_when_only_trailing_columns_are_empty() {
    let mut layout = GridLayout::new(0, 0, 200, 100, 1, 2);
    let a = BlockType::Potion;
    let b = BlockType::Brain;
    fill_board(&mut layout, &[a, b]);
    // Empty the rightmost column: nothing precedes a non-empty column.
    let removed = layout.remove_block_region(150, 10);
    assert_eq!(removed, 1);
    assert!(layout.find_shifting_blocks().is_none());
}

#[test]
fn engine_is_idle_with_nothing_queued() {
    let mut layout = GridLayout::new(0, 0, 200, 200, 2, 2);
    let before = layout.blocks_remaining;
    let mut engine = PhysicsSystem::new();
    assert!(!engine.update(&mut layout, 2, 16));
    assert_eq!(layout.blocks_remaining, before);
}

#[test]
fn engine_moves_a_block_over_several_ticks_then_commits() {
    let mut layout = GridLayout::new(0, 0, 300, 300, 3, 1);
    let a = BlockType::Flame;
    let b = BlockType::Coffin;
    fill_board(&mut layout, &[a, b, b]);
    let removed = layout.remove_block_region(10, 150);
    assert_eq!(removed, 2);
    let moving_block = layout.get_block(coordinate(0, 0)).unwrap();

    let mut engine = PhysicsSystem::new();
    engine.queue_block_animation(coordinate(0, 0), coordinate(2, 0));

    // The first tick is too short to cover 200 pixels, so the block is
    // still in flight: the grid itself must not have changed yet, but the
    // draw offset must have started to grow downward.
    assert!(engine.update(&mut layout, 2, 16));
    assert!(layout.get_block(coordinate(0, 0)).is_some());
    assert!(layout.get_block(coordinate(2, 0)).is_none());
    let (dx, dy) = engine.get_animation_offset(coordinate(0, 0));
    assert_eq!(dx, 0);
    assert!(dy >= 0);

    // Drive the animation to completion.
    let mut ticks = 0;
    while engine.update(&mut layout, 2, 16) {
        ticks += 1;
        assert!(ticks < 10_000, "animation did not settle");
    }

    // The batch committed: the block now sits at its destination, the
    // origin is empty, and the counter never drifted.
    assert!(layout.get_block(coordinate(0, 0)).is_none());
    assert_eq!(layout.get_block(coordinate(2, 0)), Some(moving_block));
    assert_eq!(layout.blocks_remaining, 1);
    assert!(layout.find_falling_blocks().is_none());
    // Nothing is queued any more.
    assert!(!engine.update(&mut layout, 2, 16));
}

#[test]
fn engine_commits_a_converging_chain_without_losing_blocks() {
    // Three stacked blocks all fall by one row: each destination is the
    // origin of the move below it, so the commit order matters.
    let mut layout = GridLayout::new(0, 0, 400, 400, 4, 1);
    let a = BlockType::Potion;
    let b = BlockType::Brain;
    fill_board(&mut layout, &[a, a, a, b]);
    let removed = layout.remove_block_region(10, 350);
    assert_eq!(removed, 1);
    let moves = layout.find_falling_blocks().unwrap();
    assert_eq!(moves.len(), 3);

    let mut engine = PhysicsSystem::new();
    for (from, to) in moves {
        engine.queue_block_animation(from, to);
    }
    let mut ticks = 0;
    while engine.update(&mut layout, 2, 16) {
        ticks += 1;
        assert!(ticks < 10_000, "animation did not settle");
    }
    assert_eq!(layout.blocks_remaining, 3);
    assert!(layout.get_block(coordinate(0, 0)).is_none());
    assert!(layout.get_block(coordinate(1, 0)).is_some());
    assert!(layout.get_block(coordinate(2, 0)).is_some());
    assert!(layout.get_block(coordinate(3, 0)).is_some());
    assert!(layout.find_falling_blocks().is_none());
}
