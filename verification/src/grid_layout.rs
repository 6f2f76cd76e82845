//! The board: a dense rows×cols grid of optional typed blocks, with
//! world/grid coordinate conversion, connected-region discovery, removal,
//! and gap/shift detection.

use vstd::arithmetic::div_mod::{
    lemma_div_by_multiple, lemma_fundamental_div_mod, lemma_fundamental_div_mod_converse,
    lemma_mod_bound,
};
use vstd::prelude::*;

use crate::block::{Block, BlockType, BLOCK_TYPE_COUNT};
use crate::coordinate::{adjacent, Coordinate};

verus! {

broadcast use vstd::seq_lib::lemma_seq_contains_after_push;

/// How many of the slots hold a block.
pub open spec fn count_some(s: Seq<Option<Block>>) -> nat
    decreases s.len(),
{
    if s.len() == 0 {
        0
    } else {
        count_some(s.drop_last()) + (if s.last() is Some {
            1nat
        } else {
            0nat
        })
    }
}

/// How many entries of a flag sequence are set.
pub open spec fn count_true(s: Seq<bool>) -> nat
    decreases s.len(),
{
    if s.len() == 0 {
        0
    } else {
        count_true(s.drop_last()) + (if s.last() {
            1nat
        } else {
            0nat
        })
    }
}

pub proof fn lemma_count_some_le_len(s: Seq<Option<Block>>)
    ensures
        count_some(s) <= s.len(),
    decreases s.len(),
{
    if s.len() > 0 {
        lemma_count_some_le_len(s.drop_last());
    }
}

pub proof fn lemma_count_true_le_len(s: Seq<bool>)
    ensures
        count_true(s) <= s.len(),
    decreases s.len(),
{
    if s.len() > 0 {
        lemma_count_true_le_len(s.drop_last());
    }
}

pub proof fn lemma_count_some_update(s: Seq<Option<Block>>, i: int, v: Option<Block>)
    requires
        0 <= i < s.len(),
    ensures
        count_some(s.update(i, v)) == count_some(s) - (if s[i] is Some {
            1nat
        } else {
            0nat
        }) + (if v is Some {
            1nat
        } else {
            0nat
        }),
    decreases s.len(),
{
    let t = s.update(i, v);
    if i == s.len() - 1 {
        assert(t.drop_last() =~= s.drop_last());
    } else {
        assert(t.drop_last() =~= s.drop_last().update(i, v));
        lemma_count_some_update(s.drop_last(), i, v);
    }
}

pub proof fn lemma_count_true_update(s: Seq<bool>, i: int, v: bool)
    requires
        0 <= i < s.len(),
    ensures
        count_true(s.update(i, v)) == count_true(s) - (if s[i] {
            1nat
        } else {
            0nat
        }) + (if v {
            1nat
        } else {
            0nat
        }),
    decreases s.len(),
{
    let t = s.update(i, v);
    if i == s.len() - 1 {
        assert(t.drop_last() =~= s.drop_last());
    } else {
        assert(t.drop_last() =~= s.drop_last().update(i, v));
        lemma_count_true_update(s.drop_last(), i, v);
    }
}

pub proof fn lemma_count_true_all_false(s: Seq<bool>)
    requires
        forall|i: int| 0 <= i < s.len() ==> !s[i],
    ensures
        count_true(s) == 0,
    decreases s.len(),
{
    if s.len() > 0 {
        lemma_count_true_all_false(s.drop_last());
    }
}

pub proof fn lemma_count_some_all(s: Seq<Option<Block>>)
    requires
        forall|i: int| 0 <= i < s.len() ==> s[i] is Some,
    ensures
        count_some(s) == s.len(),
    decreases s.len(),
{
    if s.len() > 0 {
        lemma_count_some_all(s.drop_last());
    }
}

/// The board. Slots are stored row-major, top to bottom; `blocks_remaining`
/// is kept equal to the number of occupied slots by every public mutation,
/// with the sole, deliberate exception of the `take_block` / `place_block`
/// pair, which the animation engine uses in matched pairs within one commit
/// pass.
pub struct GridLayout {
    pub rows: u32,
    pub cols: u32,
    /// The number of occupied slots.
    pub blocks_remaining: u32,
    /// The uniform pixel edge length of every block on this board.
    pub block_size: u32,
    /// World-space position of the board's top-left corner, in pixels.
    pub x: u32,
    pub y: u32,
    /// World-space extent of the board, in pixels.
    pub width: u32,
    pub height: u32,
    /// Ordered row by row, top to bottom.
    pub blocks: Vec<Option<Block>>,
}

impl GridLayout {
    /// Geometric well-formedness: extents are consistent, the slot vector has
    /// one entry per cell, and every stored block has the board's edge length.
    pub open spec fn wf_geom(self) -> bool {
        &&& 1 <= self.rows
        &&& 1 <= self.cols
        &&& self.rows * self.cols <= u32::MAX
        &&& self.blocks@.len() == self.rows * self.cols
        &&& 1 <= self.block_size
        &&& self.block_size * self.cols <= self.width
        &&& self.block_size * self.rows <= self.height
        &&& self.x + self.width <= u32::MAX
        &&& self.y + self.height <= u32::MAX
        &&& forall|i: int|
            0 <= i < self.blocks@.len() && self.blocks@[i] is Some
                ==> self.blocks@[i].unwrap().size == self.block_size
    }

    /// The occupancy counter agrees with the slots.
    pub open spec fn counted(self) -> bool {
        self.blocks_remaining == count_some(self.blocks@)
    }

    pub open spec fn wf(self) -> bool {
        self.wf_geom() && self.counted()
    }

    /// Flat index of a (row, col) cell: row-major.
    pub open spec fn idx_of(self, r: int, c: int) -> int {
        r * self.cols + c
    }

    pub open spec fn in_bounds_rc(self, r: int, c: int) -> bool {
        0 <= r < self.rows && 0 <= c < self.cols
    }

    pub open spec fn in_bounds(self, co: Coordinate) -> bool {
        self.in_bounds_rc(co.row as int, co.col as int)
    }

    pub open spec fn cell_rc(self, r: int, c: int) -> Option<Block> {
        self.blocks@[self.idx_of(r, c)]
    }

    pub open spec fn cell(self, co: Coordinate) -> Option<Block> {
        self.cell_rc(co.row as int, co.col as int)
    }

    pub open spec fn occupied_rc(self, r: int, c: int) -> bool {
        self.in_bounds_rc(r, c) && self.cell_rc(r, c) is Some
    }

    pub open spec fn occupied(self, co: Coordinate) -> bool {
        self.occupied_rc(co.row as int, co.col as int)
    }

    /// What a bounds-checked read of the slot at `co` yields.
    pub open spec fn spec_get(self, co: Coordinate) -> Option<Block> {
        if self.in_bounds(co) {
            self.cell(co)
        } else {
            None
        }
    }

    pub proof fn lemma_idx_bounds(self, r: int, c: int)
        requires
            self.in_bounds_rc(r, c),
        ensures
            0 <= self.idx_of(r, c) < self.rows * self.cols,
            c <= self.idx_of(r, c),
    {
        assert(0 <= r * self.cols + c < self.rows * self.cols && c <= r * self.cols + c)
            by (nonlinear_arith)
            requires
                0 <= r < self.rows,
                0 <= c < self.cols,
        ;
    }

    pub proof fn lemma_idx_injective(self, r1: int, c1: int, r2: int, c2: int)
        requires
            self.in_bounds_rc(r1, c1),
            self.in_bounds_rc(r2, c2),
            self.idx_of(r1, c1) == self.idx_of(r2, c2),
        ensures
            r1 == r2 && c1 == c2,
    {
        let n = self.idx_of(r1, c1);
        lemma_fundamental_div_mod_converse(n, self.cols as int, r1, c1);
        lemma_fundamental_div_mod_converse(n, self.cols as int, r2, c2);
    }

    /// Builds a fresh board: computes a uniform block edge length as
    /// `min(width / cols, height / rows)` and fills every slot with a block
    /// whose type is drawn from the palette by the pseudo-random source.
    pub fn new(x: u32, y: u32, width: u32, height: u32, rows: u32, cols: u32) -> (board:
        GridLayout)
        requires
            1 <= rows,
            1 <= cols,
            rows * cols <= u32::MAX,
            cols <= width,
            rows <= height,
            x + width <= u32::MAX,
            y + height <= u32::MAX,
        ensures
            board.wf(),
            board.rows == rows,
            board.cols == cols,
            board.x == x,
            board.y == y,
            board.width == width,
            board.height == height,
            board.block_size == if width as int / cols as int <= height as int / rows as int {
                width as int / cols as int
            } else {
                height as int / rows as int
            },
            board.blocks_remaining == rows * cols,
            forall|r: int, c: int| board.in_bounds_rc(r, c) ==> board.occupied_rc(r, c),
    {
        let per_col = width / cols;
        let per_row = height / rows;
        let block_size = if per_col <= per_row {
            per_col
        } else {
            per_row
        };
        proof {
            lemma_fundamental_div_mod(width as int, cols as int);
            lemma_fundamental_div_mod(height as int, rows as int);
            lemma_mod_bound(width as int, cols as int);
            lemma_mod_bound(height as int, rows as int);
            assert(1 <= block_size && block_size * cols <= width && block_size * rows <= height)
                by (nonlinear_arith)
                requires
                    1 <= rows,
                    1 <= cols,
                    cols <= width,
                    rows <= height,
                    block_size == (width as int) / (cols as int) || block_size == (height as int)
                        / (rows as int),
                    block_size <= (width as int) / (cols as int),
                    block_size <= (height as int) / (rows as int),
                    width == ((width as int) / (cols as int)) * cols + ((width as int) % (
                    cols as int)),
                    height == ((height as int) / (rows as int)) * rows + ((height as int) % (
                    rows as int)),
                    0 <= (width as int) % (cols as int),
                    ((width as int) % (cols as int)) < cols,
                    0 <= (height as int) % (rows as int),
                    ((height as int) % (rows as int)) < rows,
            ;
        }

        let total = rows * cols;
        let mut blocks: Vec<Option<Block>> = Vec::new();
        let mut i: u32 = 0;
        while i < total
            invariant
                i <= total,
                blocks@.len() == i,
                forall|j: int|
                    0 <= j < i ==> blocks@[j] is Some && blocks@[j].unwrap().size == block_size,
            decreases total - i,
        {
            let type_index = random_u32() % BLOCK_TYPE_COUNT;
            let block_type = BlockType::from_index(type_index);
            blocks.push(Some(Block::new(block_size, block_type)));
            i = i + 1;
        }

        proof {
            lemma_count_some_all(blocks@);
        }

        let board = GridLayout {
            rows,
            cols,
            blocks_remaining: total,
            block_size,
            x,
            y,
            width,
            height,
            blocks,
        };
        proof {
            assert forall|r: int, c: int| board.in_bounds_rc(r, c) implies board.occupied_rc(
                r,
                c,
            ) by {
                board.lemma_idx_bounds(r, c);
            }
        }
        board
    }

    pub fn x(&self) -> (r: u32)
        ensures
            r == self.x,
    {
        self.x
    }

    pub fn y(&self) -> (r: u32)
        ensures
            r == self.y,
    {
        self.y
    }

    pub fn width(&self) -> (r: u32)
        ensures
            r == self.width,
    {
        self.width
    }

    pub fn height(&self) -> (r: u32)
        ensures
            r == self.height,
    {
        self.height
    }

    /// Flat index of an in-bounds coordinate.
    fn get_index(&self, position: Coordinate) -> (i: usize)
        requires
            self.wf_geom(),
            self.in_bounds(position),
        ensures
            i == self.idx_of(position.row as int, position.col as int),
            i < self.blocks@.len(),
    {
        proof {
            self.lemma_idx_bounds(position.row as int, position.col as int);
        }
        (position.row as usize) * (self.cols as usize) + (position.col as usize)
    }

    /// Bounds-checked read: `None` for an out-of-range coordinate or an
    /// empty slot.
    pub fn get_block(&self, position: Coordinate) -> (r: Option<Block>)
        requires
            self.wf_geom(),
        ensures
            r == self.spec_get(position),
    {
        if position.row < self.rows && position.col < self.cols {
            let index = self.get_index(position);
            self.blocks[index]
        } else {
            None
        }
    }

    /// True when the slot at `position` holds no block (also for coordinates
    /// outside the grid).
    pub fn is_empty_at(&self, position: Coordinate) -> (r: bool)
        requires
            self.wf_geom(),
        ensures
            r == !self.occupied(position),
    {
        self.get_block(position).is_none()
    }

    /// Vacates the slot and hands the block (if any) to the caller. This
    /// deliberately leaves `blocks_remaining` untouched: the animation engine
    /// pairs every `take_block` with a `place_block` before a commit pass
    /// ends, so the counter stays truthful at every public boundary.
    pub fn take_block(&mut self, position: Coordinate) -> (r: Option<Block>)
        requires
            old(self).wf_geom(),
        ensures
            final(self).wf_geom(),
            final(self).rows == old(self).rows,
            final(self).cols == old(self).cols,
            final(self).blocks_remaining == old(self).blocks_remaining,
            final(self).block_size == old(self).block_size,
            final(self).x == old(self).x,
            final(self).y == old(self).y,
            final(self).width == old(self).width,
            final(self).height == old(self).height,
            old(self).in_bounds(position) ==> r == old(self).cell(position) && final(self).blocks@
                == old(self).blocks@.update(
                old(self).idx_of(position.row as int, position.col as int),
                None,
            ),
            !old(self).in_bounds(position) ==> r is None && *final(self) == *old(self),
    {
        if position.row < self.rows && position.col < self.cols {
            let index = self.get_index(position);
            let r = self.blocks[index];
            self.blocks[index] = None;
            r
        } else {
            None
        }
    }

    /// Re-establishes occupancy at `position` (a no-op for an out-of-range
    /// coordinate). Like `take_block`, leaves `blocks_remaining` untouched.
    pub fn place_block(&mut self, position: Coordinate, block: Block)
        requires
            old(self).wf_geom(),
            block.size == old(self).block_size,
        ensures
            final(self).wf_geom(),
            final(self).rows == old(self).rows,
            final(self).cols == old(self).cols,
            final(self).blocks_remaining == old(self).blocks_remaining,
            final(self).block_size == old(self).block_size,
            final(self).x == old(self).x,
            final(self).y == old(self).y,
            final(self).width == old(self).width,
            final(self).height == old(self).height,
            old(self).in_bounds(position) ==> final(self).blocks@ == old(self).blocks@.update(
                old(self).idx_of(position.row as int, position.col as int),
                Some(block),
            ),
            !old(self).in_bounds(position) ==> *final(self) == *old(self),
    {
        if position.row < self.rows && position.col < self.cols {
            let index = self.get_index(position);
            self.blocks[index] = Some(block);
        }
    }

    /// True exactly when no slot in `col` is occupied. Columns outside the
    /// grid hold no slots, so they count as empty.
    pub open spec fn spec_col_empty(self, c: int) -> bool {
        forall|r: int| 0 <= r < self.rows ==> !self.occupied_rc(r, c)
    }

    pub fn is_column_empty(&self, col: u32) -> (r: bool)
        requires
            self.wf_geom(),
        ensures
            r == self.spec_col_empty(col as int),
    {
        let mut row: u32 = 0;
        while row < self.rows
            invariant
                self.wf_geom(),
                row <= self.rows,
                forall|rr: int| 0 <= rr < row ==> !self.occupied_rc(rr, col as int),
            decreases self.rows - row,
        {
            if self.get_block(Coordinate { row, col }).is_some() {
                proof {
                    assert(self.occupied_rc(row as int, col as int));
                }
                return false;
            }
            row = row + 1;
        }
        true
    }

    /// The type of the block at an occupied cell.
    pub open spec fn type_at(self, co: Coordinate) -> BlockType {
        self.cell(co).unwrap().block_type
    }

    /// The cell is occupied by a block of type `t`.
    pub open spec fn matches_type(self, t: BlockType, co: Coordinate) -> bool {
        self.occupied(co) && self.type_at(co) == t
    }

    /// `co` can be reached from `start` through occupied cells of type `t`
    /// in at most `k` adjacency steps (and itself matches `t`).
    pub open spec fn reachable_in(self, t: BlockType, start: Coordinate, co: Coordinate, k: nat)
        -> bool
        decreases k,
    {
        self.matches_type(t, co) && (co == start || (k > 0 && exists|m: Coordinate|
            adjacent(m, co) && self.reachable_in(t, start, m, (k - 1) as nat)))
    }

    /// `co` lies in the 4-connected component of same-type occupied cells
    /// that contains `start`.
    pub open spec fn reachable(self, t: BlockType, start: Coordinate, co: Coordinate) -> bool {
        exists|k: nat| self.reachable_in(t, start, co, k)
    }

    /// The maximal 4-connected, type-homogeneous set of occupied cells
    /// containing `start`; empty when `start` is empty or out of range.
    pub open spec fn region_of(self, start: Coordinate) -> Set<Coordinate> {
        if self.occupied(start) {
            Set::new(|co: Coordinate| self.reachable(self.type_at(start), start, co))
        } else {
            Set::empty()
        }
    }

    /// Reachability extends across one adjacency step onto a matching cell.
    pub proof fn lemma_reachable_step(
        self,
        t: BlockType,
        start: Coordinate,
        m: Coordinate,
        co: Coordinate,
    )
        requires
            self.reachable(t, start, m),
            adjacent(m, co),
            self.matches_type(t, co),
        ensures
            self.reachable(t, start, co),
    {
        let k = choose|k: nat| self.reachable_in(t, start, m, k);
        assert(self.reachable_in(t, start, co, k + 1));
    }

    /// Every reachable cell matches the region's type (so a region is
    /// type-homogeneous and consists of occupied cells).
    pub proof fn lemma_reachable_matches(
        self,
        t: BlockType,
        start: Coordinate,
        co: Coordinate,
    )
        requires
            self.reachable(t, start, co),
        ensures
            self.matches_type(t, co),
    {
        let k = choose|k: nat| self.reachable_in(t, start, co, k);
        assert(self.reachable_in(t, start, co, k));
    }

    /// Any collection that contains `start` and is closed under matching
    /// adjacency contains every reachable cell: the region is the least such
    /// collection, so the flood fill cannot return a proper superset.
    pub proof fn lemma_closed_contains_reachable(
        self,
        t: BlockType,
        start: Coordinate,
        members: Seq<Coordinate>,
        co: Coordinate,
        k: nat,
    )
        requires
            members.contains(start),
            forall|m: Coordinate, n: Coordinate|
                members.contains(m) && adjacent(m, n) && self.matches_type(t, n)
                    ==> members.contains(n),
            self.reachable_in(t, start, co, k),
        ensures
            members.contains(co),
        decreases k,
    {
        if co != start {
            let m = choose|m: Coordinate|
                adjacent(m, co) && self.reachable_in(t, start, m, (k - 1) as nat);
            self.lemma_closed_contains_reachable(t, start, members, m, (k - 1) as nat);
        }
    }

    /// Connected-region discovery: a flood fill from `start` over
    /// 4-directional neighbors, admitting a neighbor only if it is occupied
    /// by a block of the start cell's type. The returned list holds each
    /// member of the region exactly once, in traversal order; the set of
    /// members does not depend on traversal order, since it equals the
    /// reachability set.
    pub fn get_block_region(&self, start: Coordinate) -> (region: Vec<Coordinate>)
        requires
            self.wf_geom(),
        ensures
            region@.no_duplicates(),
            forall|co: Coordinate| #[trigger] region@.contains(co) <==> self.region_of(
                start,
            ).contains(co),
            self.region_of(start) == region@.to_set(),
    {
        let mut region: Vec<Coordinate> = Vec::new();

        let block_type = match self.get_block(start) {
            Some(block) => block.block_type,
            None => {
                proof {
                    assert(region@.to_set() =~= self.region_of(start));
                }
                return region;
            },
        };
        let ghost t = block_type;

        proof {
            assert(self.rows * self.cols <= u32::MAX);
        }
        let total = (self.rows as usize) * (self.cols as usize);
        let mut visited: Vec<bool> = Vec::new();
        let mut vi: usize = 0;
        while vi < total
            invariant
                vi <= total,
                visited@.len() == vi,
                forall|j: int| 0 <= j < vi ==> !visited@[j],
            decreases total - vi,
        {
            visited.push(false);
            vi = vi + 1;
        }

        let mut stack: Vec<Coordinate> = Vec::new();
        stack.push(start);

        proof {
            lemma_count_true_all_false(visited@);
            assert forall|co: Coordinate| self.in_bounds(co) implies !visited@[self.idx_of(
                co.row as int,
                co.col as int,
            )] by {
                self.lemma_idx_bounds(co.row as int, co.col as int);
            }
        }

        while stack.len() > 0
            invariant
                self.wf_geom(),
                self.occupied(start),
                t == self.type_at(start),
                t == block_type,
                visited@.len() == self.rows * self.cols,
                region@.no_duplicates(),
                count_true(visited@) == region@.len(),
                region@.len() <= self.rows * self.cols,
                forall|co: Coordinate| #[trigger] region@.contains(co) ==> self.in_bounds(co),
                forall|co: Coordinate|
                    self.in_bounds(co) ==> (visited@[self.idx_of(co.row as int, co.col as int)]
                        <==> region@.contains(co)),
                forall|co: Coordinate| #[trigger] region@.contains(co) ==> self.reachable(
                    t,
                    start,
                    co,
                ),
                forall|co: Coordinate| #[trigger] stack@.contains(co) ==> co == start || exists|
                    m: Coordinate,
                |
                    region@.contains(m) && adjacent(m, co),
                forall|m: Coordinate, n: Coordinate|
                    region@.contains(m) && adjacent(m, n) && self.matches_type(t, n)
                        ==> region@.contains(n) || stack@.contains(n),
                region@.contains(start) || stack@.contains(start),
            decreases self.rows * self.cols - region@.len(), stack@.len(),
        {
            let ghost prev_stack = stack@;
            let position = stack.pop().unwrap();
            proof {
                assert(prev_stack[prev_stack.len() - 1] == position);
                assert(prev_stack.contains(position));
                assert forall|n: Coordinate| prev_stack.contains(n) implies n == position
                    || stack@.contains(n) by {
                    let i = choose|i: int| 0 <= i < prev_stack.len() && prev_stack[i] == n;
                    if i < prev_stack.len() - 1 {
                        assert(stack@[i] == n);
                    }
                }
                assert forall|n: Coordinate| #[trigger] stack@.contains(n) implies prev_stack
                    .contains(n) by {
                    let i = choose|i: int| 0 <= i < stack@.len() && stack@[i] == n;
                    assert(prev_stack[i] == n);
                }
            }
            match self.get_block(position) {
                Some(block) => {
                    let index = self.get_index(position);
                    if !visited[index] && block.block_type == block_type {
                        proof {
                            assert(self.spec_get(position) == Some(block));
                            assert(self.occupied(position));
                            assert(self.matches_type(t, position));
                            lemma_count_true_le_len(visited@);
                            lemma_count_true_update(
                                visited@,
                                index as int,
                                true,
                            );
                            lemma_count_true_le_len(visited@.update(index as int, true));
                            if position == start {
                                assert(self.reachable_in(t, start, position, 0));
                            } else {
                                let m = choose|m: Coordinate|
                                    region@.contains(m) && adjacent(m, position);
                                self.lemma_reachable_step(t, start, m, position);
                            }
                            assert(self.reachable(t, start, position));
                            assert(!region@.contains(position));
                            assert forall|j: int| 0 <= j < region@.len() implies region@[j]
                                != position by {
                                if region@[j] == position {
                                    assert(region@.contains(position));
                                }
                            }
                        }
                        let neighbors = position.get_neighbors(self.rows, self.cols);
                        let mut ni: usize = 0;
                        let ghost pre_stack = stack@;
                        while ni < neighbors.len()
                            invariant
                                ni <= neighbors@.len(),
                                forall|n: Coordinate| #[trigger] stack@.contains(n)
                                    ==> pre_stack.contains(n) || neighbors@.contains(n),
                                forall|n: Coordinate| pre_stack.contains(n)
                                    ==> stack@.contains(n),
                                forall|j: int|
                                    0 <= j < ni ==> stack@.contains(neighbors@[j]),
                            decreases neighbors@.len() - ni,
                        {
                            stack.push(neighbors[ni]);
                            ni = ni + 1;
                        }
                        visited[index] = true;
                        let ghost old_region = region@;
                        region.push(position);
                        proof {
                            assert forall|co: Coordinate| self.in_bounds(co) implies (
                                visited@[self.idx_of(co.row as int, co.col as int)]
                                    <==> region@.contains(co)) by {
                                self.lemma_idx_bounds(co.row as int, co.col as int);
                                if co != position && self.idx_of(co.row as int, co.col as int)
                                    == self.idx_of(position.row as int, position.col as int) {
                                    self.lemma_idx_injective(
                                        co.row as int,
                                        co.col as int,
                                        position.row as int,
                                        position.col as int,
                                    );
                                }
                            }
                            assert forall|n: Coordinate| #[trigger] neighbors@.contains(n) implies
                                stack@.contains(n) by {
                                let j = choose|j: int|
                                    0 <= j < neighbors@.len() && neighbors@[j] == n;
                                assert(stack@.contains(neighbors@[j]));
                            }
                            assert forall|co: Coordinate| #[trigger] stack@.contains(co) implies co
                                == start || exists|m: Coordinate|
                                region@.contains(m) && adjacent(m, co) by {
                                if neighbors@.contains(co) {
                                    assert(region@.contains(position) && adjacent(position, co));
                                } else if co != start {
                                    assert(pre_stack.contains(co));
                                    assert(prev_stack.contains(co));
                                    let m = choose|m: Coordinate|
                                        old_region.contains(m) && adjacent(m, co);
                                    assert(region@.contains(m) && adjacent(m, co));
                                }
                            }
                            assert forall|m: Coordinate, n: Coordinate|
                                region@.contains(m) && adjacent(m, n) && self.matches_type(
                                t,
                                n,
                            ) implies region@.contains(n) || stack@.contains(n) by {
                                if old_region.contains(m) {
                                    if !old_region.contains(n) && !(n == position) {
                                        assert(prev_stack.contains(n));
                                        assert(n == position || stack@.contains(n));
                                    }
                                } else {
                                    assert(m == position);
                                    assert(self.in_bounds(n));
                                    assert(neighbors@.contains(n));
                                }
                            }
                        }
                    }
                },
                None => {},
            }
        }

        proof {
            assert forall|co: Coordinate| #[trigger] region@.contains(co) implies self.region_of(
                start,
            ).contains(co) by {
                assert(self.reachable(t, start, co));
            }
            assert forall|co: Coordinate| self.region_of(start).contains(co) implies region@
                .contains(co) by {
                let k = choose|k: nat| self.reachable_in(t, start, co, k);
                self.lemma_closed_contains_reachable(t, start, region@, co, k);
            }
            assert(region@.to_set() =~= self.region_of(start));
        }

        region
    }

    /// The world-space point of a cell's top-left corner.
    pub open spec fn spec_grid_to_world(self, co: Coordinate) -> (int, int) {
        (self.x + co.col * self.block_size, self.y + co.row * self.block_size)
    }

    /// The point lies within the board's rectangular extent.
    pub open spec fn spec_contains_point(self, px: int, py: int) -> bool {
        self.x <= px < self.x + self.width && self.y <= py < self.y + self.height
    }

    /// Where a world-space point lands on the grid: `None` outside the
    /// board's extent, otherwise the linear map by the uniform block edge
    /// length, truncating toward the origin cell.
    pub open spec fn spec_world_to_grid(self, px: int, py: int) -> Option<Coordinate> {
        if self.spec_contains_point(px, py) {
            Some(
                Coordinate {
                    row: ((py - self.y) / self.block_size as int) as u32,
                    col: ((px - self.x) / self.block_size as int) as u32,
                },
            )
        } else {
            None
        }
    }

    /// Maps a grid coordinate to the world-space point of its cell's
    /// top-left corner. Callers must supply an in-range coordinate; there is
    /// no bounds check.
    pub fn grid_to_world(&self, position: Coordinate) -> (p: (u32, u32))
        requires
            self.wf_geom(),
            self.in_bounds(position),
        ensures
            (p.0 as int, p.1 as int) == self.spec_grid_to_world(position),
    {
        proof {
            assert(position.col * self.block_size <= self.width - self.block_size
                && position.row * self.block_size <= self.height - self.block_size)
                by (nonlinear_arith)
                requires
                    position.col < self.cols,
                    position.row < self.rows,
                    self.block_size * self.cols <= self.width,
                    self.block_size * self.rows <= self.height,
                    1 <= self.block_size,
            ;
        }
        (self.x + position.col * self.block_size, self.y + position.row * self.block_size)
    }

    /// Maps a world-space point to the grid coordinate of the cell it falls
    /// in, or `None` if the point lies outside the board's extent.
    pub fn world_to_grid(&self, px: u32, py: u32) -> (r: Option<Coordinate>)
        requires
            self.wf_geom(),
        ensures
            r == self.spec_world_to_grid(px as int, py as int),
    {
        if px < self.x || py < self.y {
            return None;
        }
        let dx = px - self.x;
        let dy = py - self.y;
        if dx >= self.width || dy >= self.height {
            return None;
        }
        Some(Coordinate { row: dy / self.block_size, col: dx / self.block_size })
    }

    /// Converting a coordinate to world space and back yields the same
    /// coordinate, for every in-range coordinate.
    pub proof fn lemma_world_grid_roundtrip(self, co: Coordinate)
        requires
            self.wf_geom(),
            self.in_bounds(co),
        ensures
            self.spec_world_to_grid(
                self.spec_grid_to_world(co).0,
                self.spec_grid_to_world(co).1,
            ) == Some(co),
    {
        let bs = self.block_size as int;
        let px = self.x + co.col * bs;
        let py = self.y + co.row * bs;
        assert(co.col * bs + bs <= self.width && co.row * bs + bs <= self.height)
            by (nonlinear_arith)
            requires
                co.col < self.cols,
                co.row < self.rows,
                bs == self.block_size,
                self.block_size * self.cols <= self.width,
                self.block_size * self.rows <= self.height,
                1 <= self.block_size,
        ;
        assert(self.spec_contains_point(px, py));
        lemma_div_by_multiple(co.col as int, bs);
        lemma_div_by_multiple(co.row as int, bs);
        assert((px - self.x) / bs == co.col);
        assert((py - self.y) / bs == co.row);
    }

    /// The region a click at a world-space point would clear: empty when the
    /// point is outside the board or its cell is empty.
    pub open spec fn spec_click_region(self, px: int, py: int) -> Set<Coordinate> {
        match self.spec_world_to_grid(px, py) {
            Some(start) => self.region_of(start),
            None => Set::empty(),
        }
    }

    /// Resolves a world-space point to a cell, clears the maximal same-type
    /// region around that cell, and returns how many blocks were removed
    /// (zero, with no state change, when the point misses the board or hits
    /// an empty cell). `blocks_remaining` decreases by exactly the region's
    /// size, and every removed coordinate subsequently reads as empty.
    pub fn remove_block_region(&mut self, px: u32, py: u32) -> (removed: u32)
        requires
            old(self).wf(),
        ensures
            final(self).wf(),
            final(self).rows == old(self).rows,
            final(self).cols == old(self).cols,
            final(self).block_size == old(self).block_size,
            final(self).x == old(self).x,
            final(self).y == old(self).y,
            final(self).width == old(self).width,
            final(self).height == old(self).height,
            removed == old(self).spec_click_region(px as int, py as int).len(),
            final(self).blocks_remaining == old(self).blocks_remaining - removed,
            forall|co: Coordinate|
                old(self).spec_click_region(px as int, py as int).contains(co)
                    ==> !final(self).occupied(co),
            forall|co: Coordinate|
                old(self).in_bounds(co) && !old(self).spec_click_region(
                    px as int,
                    py as int,
                ).contains(co) ==> final(self).cell(co) == old(self).cell(co),
    {
        let ghost orig = *self;
        let start = match self.world_to_grid(px, py) {
            Some(start) => start,
            None => {
                proof {
                    assert(orig.spec_click_region(px as int, py as int) =~= Set::empty());
                    vstd::set_lib::lemma_set_empty_equivalency_len(
                        orig.spec_click_region(px as int, py as int),
                    );
                }
                return 0;
            },
        };

        let positions = self.get_block_region(start);
        proof {
            positions@.unique_seq_to_set();
            assert(positions@.len() == orig.region_of(start).len());
        }

        let mut i: usize = 0;
        while i < positions.len()
            invariant
                self.wf_geom(),
                orig.wf(),
                self.rows == orig.rows,
                self.cols == orig.cols,
                self.blocks_remaining == orig.blocks_remaining,
                self.block_size == orig.block_size,
                self.x == orig.x,
                self.y == orig.y,
                self.width == orig.width,
                self.height == orig.height,
                i <= positions@.len(),
                positions@.no_duplicates(),
                forall|co: Coordinate| #[trigger] positions@.contains(co) <==> orig.region_of(
                    start,
                ).contains(co),
                forall|co: Coordinate| #[trigger] positions@.contains(co) ==> orig.occupied(co),
                count_some(self.blocks@) == count_some(orig.blocks@) - i,
                forall|j: int| 0 <= j < i ==> !self.occupied(positions@[j]),
                forall|co: Coordinate|
                    self.in_bounds(co) && !positions@.take(i as int).contains(co) ==> self.cell(
                        co,
                    ) == orig.cell(co),
            decreases positions@.len() - i,
        {
            let ghost before = *self;
            let position = positions[i];
            proof {
                assert(positions@.contains(position));
                assert(!positions@.take(i as int).contains(position)) by {
                    if positions@.take(i as int).contains(position) {
                        let j = choose|j: int|
                            0 <= j < i && positions@.take(i as int)[j] == position;
                        assert(positions@[j] == position);
                    }
                }
                assert(before.cell(position) == orig.cell(position));
                assert(orig.occupied(position));
                before.lemma_idx_bounds(position.row as int, position.col as int);
                lemma_count_some_update(
                    before.blocks@,
                    before.idx_of(position.row as int, position.col as int),
                    None,
                );
            }
            let _ = self.take_block(position);
            i = i + 1;
            proof {
                assert forall|co: Coordinate|
                    self.in_bounds(co) && !positions@.take(i as int).contains(co) implies self
                    .cell(co) == orig.cell(co) by {
                    assert(!positions@.take(i as int - 1).contains(co)) by {
                        if positions@.take(i as int - 1).contains(co) {
                            let j = choose|j: int|
                                0 <= j < i - 1 && #[trigger] positions@.take(i as int - 1)[j]
                                    == co;
                            assert(positions@.take(i as int)[j] == co);
                        }
                    }
                    assert(co != position) by {
                        assert(positions@.take(i as int)[i - 1] == position);
                    }
                    before.lemma_idx_bounds(co.row as int, co.col as int);
                    if before.idx_of(co.row as int, co.col as int) == before.idx_of(
                        position.row as int,
                        position.col as int,
                    ) {
                        before.lemma_idx_injective(
                            co.row as int,
                            co.col as int,
                            position.row as int,
                            position.col as int,
                        );
                    }
                }
                assert forall|j: int| 0 <= j < i implies !self.occupied(positions@[j]) by {
                    let co = positions@[j];
                    assert(positions@.contains(co));
                    assert(orig.occupied(co));
                    self.lemma_idx_bounds(co.row as int, co.col as int);
                    if j < i - 1 {
                        assert(co != position);
                        if self.idx_of(co.row as int, co.col as int) == self.idx_of(
                            position.row as int,
                            position.col as int,
                        ) {
                            self.lemma_idx_injective(
                                co.row as int,
                                co.col as int,
                                position.row as int,
                                position.col as int,
                            );
                        }
                    }
                }
            }
        }

        proof {
            lemma_count_some_le_len(self.blocks@);
            assert(positions@.take(positions@.len() as int) =~= positions@);
        }
        let removed = positions.len() as u32;
        self.blocks_remaining = self.blocks_remaining - removed;
        proof {
            assert forall|co: Coordinate|
                orig.spec_click_region(px as int, py as int).contains(co) implies !self.occupied(
                co,
            ) by {
                assert(positions@.contains(co));
                let j = choose|j: int| 0 <= j < positions@.len() && positions@[j] == co;
            }
        }
        removed
    }

    /// A clicked region is connected (each member is reachable from the
    /// start through same-type occupied cells), type-homogeneous, contains
    /// the start coordinate, and is maximal: no occupied same-type neighbor
    /// of any member is excluded.
    pub proof fn lemma_region_properties(self, start: Coordinate)
        ensures
            self.occupied(start) ==> self.region_of(start).contains(start),
            forall|co: Coordinate|
                self.region_of(start).contains(co) ==> self.occupied(co) && self.occupied(start)
                    && self.type_at(co) == self.type_at(start),
            forall|co: Coordinate|
                self.region_of(start).contains(co) ==> self.reachable(
                    self.type_at(start),
                    start,
                    co,
                ),
            forall|co: Coordinate, n: Coordinate|
                self.region_of(start).contains(co) && adjacent(co, n) && self.occupied(n)
                    && self.type_at(n) == self.type_at(start) ==> self.region_of(start).contains(
                    n,
                ),
    {
        let t = self.type_at(start);
        if self.occupied(start) {
            assert(self.reachable_in(t, start, start, 0));
            assert(self.reachable(t, start, start));
        }
        assert forall|co: Coordinate| self.region_of(start).contains(co) implies self.occupied(co)
            && self.occupied(start) && self.type_at(co) == t by {
            self.lemma_reachable_matches(t, start, co);
        }
        assert forall|co: Coordinate, n: Coordinate|
            self.region_of(start).contains(co) && adjacent(co, n) && self.occupied(n)
                && self.type_at(n) == t implies self.region_of(start).contains(n) by {
            self.lemma_reachable_step(t, start, co, n);
        }
    }

    /// Number of empty cells in column `c` among rows `lo..hi`.
    pub open spec fn empties_in_col(self, c: int, lo: int, hi: int) -> nat
        decreases hi - lo,
    {
        if lo >= hi {
            0
        } else {
            (if self.occupied_rc(lo, c) {
                0nat
            } else {
                1nat
            }) + self.empties_in_col(c, lo + 1, hi)
        }
    }

    /// How many empty cells lie below the cell (r, c) in its column: how far
    /// its block would fall.
    pub open spec fn gap_below(self, r: int, c: int) -> nat {
        self.empties_in_col(c, r + 1, self.rows as int)
    }

    /// The cell holds a block with at least one empty cell below it.
    pub open spec fn falls(self, r: int, c: int) -> bool {
        self.occupied_rc(r, c) && self.gap_below(r, c) > 0
    }

    /// The board is settled vertically: no occupied cell has an empty cell
    /// below it in its column.
    pub open spec fn settled_vertically(self) -> bool {
        forall|rr: int, cc: int| !self.falls(rr, cc)
    }

    pub proof fn lemma_empties_le(self, c: int, lo: int, hi: int)
        requires
            lo <= hi,
        ensures
            self.empties_in_col(c, lo, hi) <= hi - lo,
        decreases hi - lo,
    {
        if lo < hi {
            self.lemma_empties_le(c, lo + 1, hi);
        }
    }

    /// A row range that ends at an occupied cell holds strictly fewer empty
    /// cells than its length.
    pub proof fn lemma_empties_occupied_cell(self, c: int, lo: int, r: int)
        requires
            lo <= r,
            self.occupied_rc(r, c),
        ensures
            self.empties_in_col(c, lo, r + 1) <= r - lo,
    {
        self.lemma_empties_split(c, lo, r, r + 1);
        assert(self.empties_in_col(c, r + 1, r + 1) == 0);
        assert(self.empties_in_col(c, r, r + 1) == 0);
        self.lemma_empties_le(c, lo, r);
    }

    /// Falling preserves the vertical order of two blocks in one column:
    /// the lower block lands strictly below the upper one.
    pub proof fn lemma_fall_dest_ordered(self, c: int, r1: int, r2: int)
        requires
            self.occupied_rc(r1, c),
            self.occupied_rc(r2, c),
            r1 < r2,
        ensures
            r1 + self.gap_below(r1, c) < r2 + self.gap_below(r2, c),
    {
        self.lemma_empties_split(c, r1 + 1, r2 + 1, self.rows as int);
        self.lemma_empties_occupied_cell(c, r1 + 1, r2);
    }

    /// If a falling block's landing cell is currently occupied, the block
    /// sitting there must itself fall (so, within one detected batch, a
    /// destination is only ever the origin of another move).
    pub proof fn lemma_fall_dest_occupied(self, r: int, c: int)
        requires
            self.falls(r, c),
            self.occupied_rc(r + self.gap_below(r, c), c),
        ensures
            self.falls(r + self.gap_below(r, c), c),
    {
        let g = self.gap_below(r, c);
        self.lemma_empties_split(c, r + 1, r + g + 1, self.rows as int);
        self.lemma_empties_occupied_cell(c, r + 1, r + g);
    }

    /// Shifting preserves the horizontal order of two non-empty columns:
    /// the left one lands strictly left of the right one.
    pub proof fn lemma_shift_dest_ordered(self, c1: int, c2: int)
        requires
            0 <= c1 < c2,
            !self.spec_col_empty(c1),
        ensures
            c1 - self.shift_of(c1) < c2 - self.shift_of(c2),
    {
        self.lemma_empty_cols_split(0, c1, c2);
        assert(self.empty_cols_in(c1, c2) == self.empty_cols_in(c1 + 1, c2));
        self.lemma_empty_cols_le(c1 + 1, c2);
    }

    /// If a shifting column's landing column is currently non-empty, the
    /// column sitting there must itself shift (so, within one detected
    /// batch, a destination is only ever the origin of another move).
    pub proof fn lemma_shift_dest_occupied(self, c: int)
        requires
            0 <= c,
            self.shift_of(c) > 0,
            !self.spec_col_empty(c - self.shift_of(c)),
        ensures
            self.shift_of(c - self.shift_of(c)) > 0,
    {
        let k = self.shift_of(c);
        self.lemma_empty_cols_le(0, c);
        self.lemma_empty_cols_split(0, c - k, c);
        assert(self.empty_cols_in(c - k, c) == self.empty_cols_in(c - k + 1, c));
        self.lemma_empty_cols_le(c - k + 1, c);
    }

    /// One entry of a falling-move list is well-formed: its origin must
    /// fall, and its destination is the same column, exactly as many rows
    /// down as there are empty cells below the origin.
    pub open spec fn fall_pair_ok(self, p: (Coordinate, Coordinate)) -> bool {
        &&& self.falls(p.0.row as int, p.0.col as int)
        &&& p.1.col == p.0.col
        &&& p.1.row as int == p.0.row + self.gap_below(p.0.row as int, p.0.col as int)
        &&& self.in_bounds(p.1)
    }

    /// Detects, over the current board and without moving anything, every
    /// block that must fall: for each column, scanning from the bottom, a
    /// block with `k > 0` empty cells below it yields a move dropping it by
    /// exactly `k` rows. Returns `None` exactly when the board is settled
    /// vertically.
    pub fn find_falling_blocks(&self) -> (r: Option<Vec<(Coordinate, Coordinate)>>)
        requires
            self.wf_geom(),
        ensures
            r is None <==> self.settled_vertically(),
            r matches Some(v) ==> {
                &&& v@.len() > 0
                &&& forall|i: int| 0 <= i < v@.len() ==> self.fall_pair_ok(#[trigger] v@[i])
                &&& forall|rr: int, cc: int|
                    self.falls(rr, cc) ==> contains_from_rc(v@, rr, cc)
                &&& distinct_froms(v@)
            },
    {
        let mut result: Vec<(Coordinate, Coordinate)> = Vec::new();

        let mut col: u32 = 0;
        while col < self.cols
            invariant
                self.wf_geom(),
                col <= self.cols,
                forall|i: int| 0 <= i < result@.len() ==> self.fall_pair_ok(#[trigger] result@[i]),
                forall|rr: int, cc: int|
                    cc < col && self.falls(rr, cc) ==> contains_from_rc(result@, rr, cc),
                distinct_froms(result@),
                forall|i: int| 0 <= i < result@.len() ==> (#[trigger] result@[i]).0.col < col,
            decreases self.cols - col,
        {
            let mut rows_to_fall: u32 = 0;
            let mut row: u32 = self.rows;

            while row > 0
                invariant
                    self.wf_geom(),
                    col < self.cols,
                    row <= self.rows,
                    rows_to_fall == self.empties_in_col(col as int, row as int, self.rows as int),
                    forall|i: int|
                        0 <= i < result@.len() ==> self.fall_pair_ok(#[trigger] result@[i]),
                    forall|rr: int, cc: int|
                        cc < col && self.falls(rr, cc) ==> contains_from_rc(result@, rr, cc),
                    forall|rr: int|
                        row <= rr && self.falls(rr, col as int) ==> contains_from_rc(
                            result@,
                            rr,
                            col as int,
                        ),
                    distinct_froms(result@),
                    forall|i: int|
                        0 <= i < result@.len() ==> (#[trigger] result@[i]).0.col < col || ((
                        #[trigger] result@[i]).0.col == col && result@[i].0.row >= row),
                decreases row,
            {
                row = row - 1;
                let position = Coordinate { row, col };
                proof {
                    self.lemma_empties_le(col as int, row as int + 1, self.rows as int);
                    assert(self.empties_in_col(col as int, row as int, self.rows as int) == (
                    if self.occupied_rc(row as int, col as int) {
                        0nat
                    } else {
                        1nat
                    }) + self.empties_in_col(col as int, row as int + 1, self.rows as int));
                }
                if self.is_empty_at(position) {
                    rows_to_fall = rows_to_fall + 1;
                } else if rows_to_fall > 0 {
                    let ghost old_result = result@;
                    result.push((position, Coordinate { row: row + rows_to_fall, col }));
                    proof {
                        assert forall|rr: int, cc: int|
                            contains_from_rc(old_result, rr, cc) implies contains_from_rc(
                            result@,
                            rr,
                            cc,
                        ) by {
                            let i = choose|i: int|
                                0 <= i < old_result.len() && old_result[i].0.row == rr
                                    && old_result[i].0.col == cc;
                            assert(result@[i] == old_result[i]);
                        }
                        assert(result@[result@.len() - 1].0 == position);
                    }
                }
            }
            col = col + 1;
        }

        if result.len() == 0 {
            proof {
                assert forall|rr: int, cc: int| !self.falls(rr, cc) by {
                    if self.falls(rr, cc) {
                        assert(contains_from_rc(result@, rr, cc));
                    }
                }
            }
            None
        } else {
            proof {
                let p = result@[0];
                assert(self.fall_pair_ok(p));
                assert(self.falls(p.0.row as int, p.0.col as int));
            }
            Some(result)
        }
    }

    /// True exactly when no empty column lies to the left of any occupied
    /// column: the board is settled horizontally.
    pub open spec fn settled_horizontally(self) -> bool {
        forall|rr: int, cc: int| !self.shifts(rr, cc)
    }

    /// Number of empty columns among columns `lo..hi`.
    pub open spec fn empty_cols_in(self, lo: int, hi: int) -> nat
        decreases hi - lo,
    {
        if lo >= hi {
            0
        } else {
            (if self.spec_col_empty(lo) {
                1nat
            } else {
                0nat
            }) + self.empty_cols_in(lo + 1, hi)
        }
    }

    /// How many empty columns precede column `c`: how far its blocks would
    /// shift left.
    pub open spec fn shift_of(self, c: int) -> nat {
        self.empty_cols_in(0, c)
    }

    /// The cell holds a block in a column preceded by at least one empty
    /// column.
    pub open spec fn shifts(self, r: int, c: int) -> bool {
        self.occupied_rc(r, c) && self.shift_of(c) > 0
    }

    pub proof fn lemma_empty_cols_le(self, lo: int, hi: int)
        requires
            lo <= hi,
        ensures
            self.empty_cols_in(lo, hi) <= hi - lo,
        decreases hi - lo,
    {
        if lo < hi {
            self.lemma_empty_cols_le(lo + 1, hi);
        }
    }

    /// Counting empty columns over a range splits at any midpoint.
    pub proof fn lemma_empty_cols_split(self, lo: int, mid: int, hi: int)
        requires
            lo <= mid <= hi,
        ensures
            self.empty_cols_in(lo, hi) == self.empty_cols_in(lo, mid) + self.empty_cols_in(
                mid,
                hi,
            ),
        decreases mid - lo,
    {
        if lo < mid {
            self.lemma_empty_cols_split(lo + 1, mid, hi);
        }
    }

    /// Counting empty cells of a column over a row range splits at any
    /// midpoint.
    pub proof fn lemma_empties_split(self, c: int, lo: int, mid: int, hi: int)
        requires
            lo <= mid <= hi,
        ensures
            self.empties_in_col(c, lo, hi) == self.empties_in_col(c, lo, mid)
                + self.empties_in_col(c, mid, hi),
        decreases mid - lo,
    {
        if lo < mid {
            self.lemma_empties_split(c, lo + 1, mid, hi);
        }
    }

    /// One entry of a shifting-move list is well-formed: its origin must
    /// shift, and its destination is the same row, exactly as many columns
    /// left as there are empty columns before the origin's column.
    pub open spec fn shift_pair_ok(self, p: (Coordinate, Coordinate)) -> bool {
        &&& self.shifts(p.0.row as int, p.0.col as int)
        &&& p.1.row == p.0.row
        &&& p.1.col as int == p.0.col - self.shift_of(p.0.col as int)
        &&& self.in_bounds(p.1)
    }

    /// Detects, over the current board and without moving anything, every
    /// block in a column that must shift left: scanning columns left to
    /// right, every occupied cell of a column preceded by `k > 0` fully
    /// empty columns yields a move of exactly `k` columns left. Returns
    /// `None` exactly when no empty column precedes a non-empty one.
    pub fn find_shifting_blocks(&self) -> (r: Option<Vec<(Coordinate, Coordinate)>>)
        requires
            self.wf_geom(),
        ensures
            r is None <==> self.settled_horizontally(),
            r matches Some(v) ==> {
                &&& v@.len() > 0
                &&& forall|i: int| 0 <= i < v@.len() ==> self.shift_pair_ok(#[trigger] v@[i])
                &&& forall|rr: int, cc: int|
                    self.shifts(rr, cc) ==> contains_from_rc(v@, rr, cc)
                &&& distinct_froms(v@)
            },
    {
        let mut result: Vec<(Coordinate, Coordinate)> = Vec::new();

        let mut columns_to_shift: u32 = 0;
        let mut col: u32 = 0;
        while col < self.cols
            invariant
                self.wf_geom(),
                col <= self.cols,
                columns_to_shift == self.empty_cols_in(0, col as int),
                forall|i: int|
                    0 <= i < result@.len() ==> self.shift_pair_ok(#[trigger] result@[i]),
                forall|rr: int, cc: int|
                    cc < col && self.shifts(rr, cc) ==> contains_from_rc(result@, rr, cc),
                distinct_froms(result@),
                forall|i: int| 0 <= i < result@.len() ==> (#[trigger] result@[i]).0.col < col,
            decreases self.cols - col,
        {
            proof {
                self.lemma_empty_cols_le(0, col as int);
                self.lemma_empty_cols_split(0, col as int, col as int + 1);
                assert(self.empty_cols_in(col as int + 1, col as int + 1) == 0);
                assert(self.empty_cols_in(col as int, col as int + 1) == (
                if self.spec_col_empty(col as int) {
                    1nat
                } else {
                    0nat
                }));
            }
            if self.is_column_empty(col) {
                columns_to_shift = columns_to_shift + 1;
            } else if columns_to_shift > 0 {
                let mut row: u32 = 0;
                while row < self.rows
                    invariant
                        self.wf_geom(),
                        col < self.cols,
                        row <= self.rows,
                        columns_to_shift == self.empty_cols_in(0, col as int),
                        columns_to_shift <= col,
                        columns_to_shift > 0,
                        forall|i: int|
                            0 <= i < result@.len() ==> self.shift_pair_ok(#[trigger] result@[i]),
                        forall|rr: int, cc: int|
                            cc < col && self.shifts(rr, cc) ==> contains_from_rc(result@, rr, cc),
                        forall|rr: int|
                            rr < row && self.shifts(rr, col as int) ==> contains_from_rc(
                                result@,
                                rr,
                                col as int,
                            ),
                        distinct_froms(result@),
                        forall|i: int|
                            0 <= i < result@.len() ==> (#[trigger] result@[i]).0.col < col || ((
                            #[trigger] result@[i]).0.col == col && result@[i].0.row < row),
                    decreases self.rows - row,
                {
                    let position = Coordinate { row, col };
                    if !self.is_empty_at(position) {
                        let ghost old_result = result@;
                        result.push((position, Coordinate { row, col: col - columns_to_shift }));
                        proof {
                            assert forall|rr: int, cc: int|
                                contains_from_rc(old_result, rr, cc) implies contains_from_rc(
                                result@,
                                rr,
                                cc,
                            ) by {
                                let i = choose|i: int|
                                    0 <= i < old_result.len() && old_result[i].0.row == rr
                                        && old_result[i].0.col == cc;
                                assert(result@[i] == old_result[i]);
                            }
                            assert(result@[result@.len() - 1].0 == position);
                        }
                    }
                    row = row + 1;
                }
            }
            col = col + 1;
        }

        if result.len() == 0 {
            proof {
                assert forall|rr: int, cc: int| !self.shifts(rr, cc) by {
                    if self.shifts(rr, cc) {
                        assert(contains_from_rc(result@, rr, cc));
                    }
                }
            }
            None
        } else {
            proof {
                let p = result@[0];
                assert(self.shift_pair_ok(p));
                assert(self.shifts(p.0.row as int, p.0.col as int));
            }
            Some(result)
        }
    }
}

/// There is an entry in `s` whose origin is the cell (rr, cc).
pub open spec fn contains_from_rc(s: Seq<(Coordinate, Coordinate)>, rr: int, cc: int) -> bool {
    exists|i: int| 0 <= i < s.len() && s[i].0.row == rr && s[i].0.col == cc
}

/// No two entries of `s` share an origin coordinate.
pub open spec fn distinct_froms(s: Seq<(Coordinate, Coordinate)>) -> bool {
    forall|i: int, j: int| 0 <= i < j < s.len() ==> s[i].0 != s[j].0
}

/// Relies on `macroquad::rand::rand` (the global pseudo-random generator):
/// returns a pseudo-random number between 0 and `u32::MAX`. The result
/// depends on mutable global state, so nothing is promised of it; callers
/// reduce it into range themselves.
#[verifier::external_body]
fn random_u32() -> u32 {
    macroquad::rand::rand()
}

} // verus!
