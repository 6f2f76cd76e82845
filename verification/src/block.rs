//! Blocks: a typed tile occupying one board slot.

use vstd::prelude::*;

verus! {

/// How a block is presented this frame (normal, or highlighted because the
/// cursor hovers over its region). Presentation-only; the board never reads it.
pub enum BlockState {
    Default,
    Hover,
}

/// The finite palette of block categories. Two blocks of the same type are
/// interchangeable for matching purposes: equality is by category only.
#[derive(PartialEq, Eq, Structural, Hash, Clone, Copy, Debug)]
pub enum BlockType {
    Potion,
    Blood,
    Phantom,
    Poison,
    Coffin,
    Gravestone,
    Flame,
    Brain,
}

/// The number of variants of `BlockType`.
pub const BLOCK_TYPE_COUNT: u32 = 8;

/// The block type that `index` (a palette position below `BLOCK_TYPE_COUNT`)
/// stands for.
pub open spec fn spec_block_type_from_index(index: int) -> BlockType {
    if index == 0 {
        BlockType::Potion
    } else if index == 1 {
        BlockType::Blood
    } else if index == 2 {
        BlockType::Phantom
    } else if index == 3 {
        BlockType::Poison
    } else if index == 4 {
        BlockType::Coffin
    } else if index == 5 {
        BlockType::Gravestone
    } else if index == 6 {
        BlockType::Flame
    } else {
        BlockType::Brain
    }
}

/// A cell address within a sprite sheet: (row, column).
#[derive(PartialEq, Eq, Structural, Hash, Clone, Copy, Debug)]
pub struct SpriteId(pub u32, pub u32);

impl BlockType {
    /// Picks the block type at a palette position, used when filling a fresh
    /// board from a source of uniformly distributed indices.
    pub fn from_index(index: u32) -> (t: BlockType)
        requires
            index < BLOCK_TYPE_COUNT,
        ensures
            t == spec_block_type_from_index(index as int),
    {
        if index == 0 {
            BlockType::Potion
        } else if index == 1 {
            BlockType::Blood
        } else if index == 2 {
            BlockType::Phantom
        } else if index == 3 {
            BlockType::Poison
        } else if index == 4 {
            BlockType::Coffin
        } else if index == 5 {
            BlockType::Gravestone
        } else if index == 6 {
            BlockType::Flame
        } else {
            BlockType::Brain
        }
    }

    /// The sprite-sheet cell that draws this block type.
    pub fn get_sprite_id(&self) -> (id: SpriteId)
        ensures
            id == spec_sprite_id(*self),
    {
        match self {
            BlockType::Brain => SpriteId(0, 0),
            BlockType::Blood => SpriteId(0, 1),
            BlockType::Poison => SpriteId(0, 2),
            BlockType::Phantom => SpriteId(0, 3),
            BlockType::Gravestone => SpriteId(1, 0),
            BlockType::Flame => SpriteId(1, 1),
            BlockType::Potion => SpriteId(1, 2),
            BlockType::Coffin => SpriteId(1, 3),
        }
    }
}

/// The sprite-sheet cell assigned to each block type.
pub open spec fn spec_sprite_id(t: BlockType) -> SpriteId {
    match t {
        BlockType::Brain => SpriteId(0, 0),
        BlockType::Blood => SpriteId(0, 1),
        BlockType::Poison => SpriteId(0, 2),
        BlockType::Phantom => SpriteId(0, 3),
        BlockType::Gravestone => SpriteId(1, 0),
        BlockType::Flame => SpriteId(1, 1),
        BlockType::Potion => SpriteId(1, 2),
        BlockType::Coffin => SpriteId(1, 3),
    }
}

/// One tile: a category plus its pixel edge length. A block does not store a
/// position; its position is always derived from its grid coordinate plus any
/// in-flight animation offset, which keeps the grid the single source of
/// truth for where a block is.
#[derive(PartialEq, Eq, Structural, Clone, Copy, Debug)]
pub struct Block {
    pub block_type: BlockType,
    pub size: u32,
}

impl Block {
    /// Builds a block with the given edge length and category.
    pub fn new(size: u32, block_type: BlockType) -> (b: Block)
        ensures
            b.size == size,
            b.block_type == block_type,
    {
        Block { size, block_type }
    }
}

} // verus!
