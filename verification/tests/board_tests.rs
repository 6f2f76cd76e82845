use bleak_blocks::block::{Block, BlockType, SpriteId};
use bleak_blocks::coordinate::{coordinate, Coordinate};
use bleak_blocks::grid_layout::GridLayout;

/// Overwrites every slot of the board with blocks of the given types, row
/// by row, keeping the occupancy counter truthful (every take is paired
/// with a place).
fn fill_board(layout: &mut GridLayout, types: &[BlockType]) {
    let rows = layout.rows;
    let cols = layout.cols;
    let size = layout.block_size;
    let mut i = 0;
    for row in 0..rows {
        for col in 0..cols {
            let position = coordinate(row, col);
            let taken = layout.take_block(position);
            assert!(taken.is_some());
            layout.place_block(position, Block::new(size, types[i]));
            i += 1;
        }
    }
}

#[test]
fn new_board_fills_every_slot() {
    let layout = GridLayout::new(20, 20, 450, 450, 10, 10);
    assert_eq!(layout.rows, 10);
    assert_eq!(layout.cols, 10);
    assert_eq!(layout.block_size, 45);
    assert_eq!(layout.blocks_remaining, 100);
    for row in 0..10 {
        for col in 0..10 {
            let block = layout.get_block(coordinate(row, col));
            assert!(block.is_some());
            assert_eq!(block.unwrap().size, 45);
        }
    }
}

#[test]
fn block_size_is_min_of_both_axes() {
    let layout = GridLayout::new(0, 0, 400, 300, 3, 4);
    // 400 / 4 = 100, 300 / 3 = 100
    assert_eq!(layout.block_size, 100);
    let wide = GridLayout::new(0, 0, 500, 300, 3, 4);
    // min(500 / 4, 300 / 3) = min(125, 100)
    assert_eq!(wide.block_size, 100);
}

#[test]
fn world_to_grid_round_trips_in_range() {
    let layout = GridLayout::new(20, 20, 450, 450, 10, 10);
    for row in 0..10 {
        for col in 0..10 {
            let c = coordinate(row, col);
            let (px, py) = layout.grid_to_world(c);
            let back = layout.world_to_grid(px, py);
            assert_eq!(back, Some(c));
        }
    }
}

#[test]
fn grid_to_world_maps_linearly() {
    let layout = GridLayout::new(20, 30, 450, 450, 10, 10);
    assert_eq!(layout.grid_to_world(coordinate(0, 0)), (20, 30));
    assert_eq!(layout.grid_to_world(coordinate(2, 3)), (20 + 3 * 45, 30 + 2 * 45));
}

#[test]
fn world_to_grid_rejects_points_outside_the_extent() {
    let layout = GridLayout::new(20, 20, 450, 450, 10, 10);
    assert_eq!(layout.world_to_grid(0, 0), None);
    assert_eq!(layout.world_to_grid(19, 200), None);
    assert_eq!(layout.world_to_grid(200, 19), None);
    assert_eq!(layout.world_to_grid(470, 200), None);
    assert_eq!(layout.world_to_grid(200, 470), None);
    assert_eq!(layout.world_to_grid(20, 20), Some(coordinate(0, 0)));
    assert_eq!(layout.world_to_grid(469, 469), Some(coordinate(9, 9)));
}

#[test]
fn get_block_is_none_out_of_range() {
    let layout = GridLayout::new(0, 0, 100, 100, 2, 2);
    assert!(layout.get_block(coordinate(2, 0)).is_none());
    assert!(layout.get_block(coordinate(0, 2)).is_none());
    assert!(layout.get_block(coordinate(7, 7)).is_none());
}

#[test]
fn take_and_place_relocate_a_block() {
    let mut layout = GridLayout::new(0, 0, 100, 100, 2, 2);
    let a = coordinate(0, 0);
    let b = coordinate(1, 1);
    let taken = layout.take_block(a).unwrap();
    let _ = layout.take_block(b);
    assert!(layout.is_empty_at(a));
    layout.place_block(b, taken);
    assert!(layout.get_block(b).is_some());
    assert!(layout.is_empty_at(a));
}

#[test]
fn region_is_empty_for_empty_or_out_of_range_start() {
    let mut layout = GridLayout::new(0, 0, 100, 100, 2, 2);
    assert!(layout.get_block_region(coordinate(5, 5)).is_empty());
    let _ = layout.take_block(coordinate(0, 0));
    assert!(layout.get_block_region(coordinate(0, 0)).is_empty());
}

#[test]
fn region_spans_same_type_neighbors_only() {
    let mut layout = GridLayout::new(0, 0, 300, 300, 3, 3);
    let a = BlockType::Potion;
    let b = BlockType::Brain;
    // a a b
    // b a b
    // b a a
    fill_board(&mut layout, &[a, a, b, b, a, b, b, a, a]);
    let region = layout.get_block_region(coordinate(0, 0));
    assert_eq!(region.len(), 5);
    for c in [
        coordinate(0, 0),
        coordinate(0, 1),
        coordinate(1, 1),
        coordinate(2, 1),
        coordinate(2, 2),
    ] {
        assert!(region.contains(&c));
    }
    assert!(!region.contains(&coordinate(0, 2)));
    // The region is the same set from any of its members.
    let mut from_middle = layout.get_block_region(coordinate(1, 1));
    let mut from_corner = region.clone();
    from_middle.sort_by_key(|c| (c.row, c.col));
    from_corner.sort_by_key(|c| (c.row, c.col));
    assert_eq!(from_middle, from_corner);
}

#[test]
fn region_does_not_cross_diagonals() {
    let mut layout = GridLayout::new(0, 0, 200, 200, 2, 2);
    let a = BlockType::Flame;
    let b = BlockType::Coffin;
    // a b
    // b a
    fill_board(&mut layout, &[a, b, b, a]);
    let region = layout.get_block_region(coordinate(0, 0));
    assert_eq!(region.len(), 1);
    assert!(region.contains(&coordinate(0, 0)));
}

#[test]
fn remove_block_region_vacates_exactly_the_region() {
    let mut layout = GridLayout::new(0, 0, 300, 300, 3, 3);
    let a = BlockType::Potion;
    let b = BlockType::Brain;
    // a a b
    // b a b
    // b a a
    fill_board(&mut layout, &[a, a, b, b, a, b, b, a, a]);
    assert_eq!(layout.blocks_remaining, 9);
    // Click the middle cell (world point inside cell (1, 1)).
    let removed = layout.remove_block_region(150, 150);
    assert_eq!(removed, 5);
    assert_eq!(layout.blocks_remaining, 4);
    assert!(layout.is_empty_at(coordinate(0, 0)));
    assert!(layout.is_empty_at(coordinate(1, 1)));
    assert!(layout.is_empty_at(coordinate(2, 2)));
    assert!(!layout.is_empty_at(coordinate(0, 2)));
    assert!(!layout.is_empty_at(coordinate(1, 0)));
}

#[test]
fn remove_block_region_outside_board_is_a_no_op() {
    let mut layout = GridLayout::new(10, 10, 100, 100, 2, 2);
    let removed = layout.remove_block_region(5, 5);
    assert_eq!(removed, 0);
    assert_eq!(layout.blocks_remaining, 4);
}

#[test]
fn remove_block_region_on_empty_cell_is_a_no_op() {
    let mut layout = GridLayout::new(0, 0, 100, 100, 2, 2);
    let first = layout.remove_block_region(10, 10);
    assert!(first >= 1);
    let again = layout.remove_block_region(10, 10);
    assert_eq!(again, 0);
    assert_eq!(layout.blocks_remaining, 4 - first);
}

#[test]
fn is_column_empty_tracks_occupancy() {
    let mut layout = GridLayout::new(0, 0, 200, 200, 2, 2);
    let a = BlockType::Potion;
    let b = BlockType::Brain;
    // a b
    // a b
    fill_board(&mut layout, &[a, b, a, b]);
    assert!(!layout.is_column_empty(0));
    let removed = layout.remove_block_region(10, 10);
    assert_eq!(removed, 2);
    assert!(layout.is_column_empty(0));
    assert!(!layout.is_column_empty(1));
    // A column outside the grid has no occupied slots.
    assert!(layout.is_column_empty(9));
}

#[test]
fn coordinate_neighbors_are_the_in_bounds_orthogonals() {
    let middle = coordinate(1, 1).get_neighbors(3, 3);
    assert_eq!(middle.len(), 4);
    assert!(middle.contains(&coordinate(0, 1)));
    assert!(middle.contains(&coordinate(2, 1)));
    assert!(middle.contains(&coordinate(1, 0)));
    assert!(middle.contains(&coordinate(1, 2)));

    let corner = coordinate(0, 0).get_neighbors(3, 3);
    assert_eq!(corner.len(), 2);
    assert!(corner.contains(&coordinate(1, 0)));
    assert!(corner.contains(&coordinate(0, 1)));

    let single = coordinate(0, 0).get_neighbors(1, 1);
    assert!(single.is_empty());
}

#[test]
fn coordinate_add_and_sub_are_component_wise() {
    let c = coordinate(3, 5).add(coordinate(2, 1));
    assert_eq!(c, coordinate(5, 6));
    let d = coordinate(3, 5).sub(coordinate(1, 4));
    assert_eq!(d, coordinate(2, 1));
}

#[test]
fn sprite_ids_cover_the_palette() {
    assert_eq!(BlockType::Brain.get_sprite_id(), SpriteId(0, 0));
    assert_eq!(BlockType::Blood.get_sprite_id(), SpriteId(0, 1));
    assert_eq!(BlockType::Poison.get_sprite_id(), SpriteId(0, 2));
    assert_eq!(BlockType::Phantom.get_sprite_id(), SpriteId(0, 3));
    assert_eq!(BlockType::Gravestone.get_sprite_id(), SpriteId(1, 0));
    assert_eq!(BlockType::Flame.get_sprite_id(), SpriteId(1, 1));
    assert_eq!(BlockType::Potion.get_sprite_id(), SpriteId(1, 2));
    assert_eq!(BlockType::Coffin.get_sprite_id(), SpriteId(1, 3));
}

#[test]
fn block_type_from_index_enumerates_the_palette() {
    let all = [
        BlockType::Potion,
        BlockType::Blood,
        BlockType::Phantom,
        BlockType::Poison,
        BlockType::Coffin,
        BlockType::Gravestone,
        BlockType::Flame,
        BlockType::Brain,
    ];
    for (i, expected) in all.iter().enumerate() {
        assert_eq!(BlockType::from_index(i as u32), *expected);
    }
}

#[test]
fn coordinate_equality_is_by_value() {
    let a = coordinate(2, 7);
    let b = Coordinate { row: 2, col: 7 };
    assert_eq!(a, b);
    assert_ne!(a, coordinate(7, 2));
}
