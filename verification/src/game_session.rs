//! The per-frame session state machine: it owns one board and one animation
//! engine, forwards player clicks to the board only while accepting input,
//! and sequences the two cascade phases (all vertical falling first, then
//! all horizontal shifting) after every removal.

use vstd::prelude::*;

use crate::constants::FORCE;
use crate::coordinate::Coordinate;
use crate::grid_layout::{contains_from_rc, distinct_froms, GridLayout};
use crate::physics_system::{
    all_done, is_from, is_to, lemma_move_dist_bounds, move_progress_ok, moves_valid,
    step_velocity, stepped, valid_move_shape, PendingMove, PhysicsSystem,
};

verus! {

/// The session's phase. Input is accepted only while `Playing`; the two
/// animation phases drain to completion before play resumes; `GameOver` is
/// terminal.
#[derive(PartialEq, Eq, Structural, Clone, Copy, Debug)]
pub enum GameState {
    Playing,
    BlocksFalling,
    ColumnsShifting,
    GameOver,
}

/// Points awarded for clearing `n` blocks at once: `(n - 1)` squared,
/// saturating at the counter's ceiling.
pub open spec fn spec_points(n: int) -> int {
    if n == 0 {
        0
    } else if (n - 1) * (n - 1) >= u32::MAX {
        u32::MAX as int
    } else {
        (n - 1) * (n - 1)
    }
}

/// Points for clearing `n` blocks at once, by the `(n - 1)` squared rule.
pub fn calculate_points(number_of_blocks: u32) -> (points: u32)
    ensures
        points == spec_points(number_of_blocks as int),
{
    if number_of_blocks == 0 {
        return 0;
    }
    let m: u64 = (number_of_blocks - 1) as u64;
    proof {
        assert(m * m == (m as int) * (m as int) && (m as int) * (m as int) < 0x1_0000_0000_0000_0000)
            by (nonlinear_arith)
            requires
                m as int <= 0xFFFF_FFFF,
        ;
    }
    let sq: u64 = m * m;
    if sq >= u32::MAX as u64 {
        u32::MAX
    } else {
        sq as u32
    }
}

/// Every cell that must fall has a queued move starting there.
pub open spec fn queue_covers_falls(b: GridLayout, s: Seq<PendingMove>) -> bool {
    forall|rr: int, cc: int|
        b.falls(rr, cc) ==> exists|k: int|
            0 <= k < s.len() && (#[trigger] s[k]).from.row == rr && s[k].from.col == cc
}

/// Every cell that must shift has a queued move starting there.
pub open spec fn queue_covers_shifts(b: GridLayout, s: Seq<PendingMove>) -> bool {
    forall|rr: int, cc: int|
        b.shifts(rr, cc) ==> exists|k: int|
            0 <= k < s.len() && (#[trigger] s[k]).from.row == rr && s[k].from.col == cc
}

/// Every queued move is a falling move: down its own column by exactly the
/// number of empty cells below its origin.
pub open spec fn queue_is_falling(b: GridLayout, s: Seq<PendingMove>) -> bool {
    forall|k: int|
        0 <= k < s.len() ==> b.fall_pair_ok(((#[trigger] s[k]).from, s[k].to))
}

/// Every queued move is a shifting move: left along its own row by exactly
/// the number of empty columns before its origin's column.
pub open spec fn queue_is_shifting(b: GridLayout, s: Seq<PendingMove>) -> bool {
    forall|k: int|
        0 <= k < s.len() ==> b.shift_pair_ok(((#[trigger] s[k]).from, s[k].to))
}

/// A batch of freshly queued falling moves, one per falling cell, can be
/// committed: origins are distinct and occupied, destinations are distinct,
/// and a destination that is currently occupied is the origin of another
/// move of the same batch (the block there falls too).
pub proof fn lemma_falling_moves_valid(
    b: GridLayout,
    v: Seq<(Coordinate, Coordinate)>,
    s: Seq<PendingMove>,
)
    requires
        b.wf(),
        s.len() == v.len(),
        forall|i: int|
            0 <= i < s.len() ==> (#[trigger] s[i]).from == v[i].0 && s[i].to == v[i].1
                && s[i].progress == 0 && !s[i].done,
        forall|i: int| 0 <= i < v.len() ==> b.fall_pair_ok(#[trigger] v[i]),
        forall|rr: int, cc: int| b.falls(rr, cc) ==> contains_from_rc(v, rr, cc),
        distinct_froms(v),
    ensures
        moves_valid(b, s),
{
    assert forall|i: int| 0 <= i < s.len() implies valid_move_shape(b, #[trigger] s[i]) by {
        assert(b.fall_pair_ok(v[i]));
    }
    assert forall|i: int, j: int| 0 <= i < j < s.len() implies s[i].to != s[j].to by {
        let f1 = v[i].0;
        let f2 = v[j].0;
        assert(b.fall_pair_ok(v[i]) && b.fall_pair_ok(v[j]));
        if f1.col == f2.col {
            assert(f1 != f2);
            if f1.row < f2.row {
                b.lemma_fall_dest_ordered(f1.col as int, f1.row as int, f2.row as int);
            } else {
                b.lemma_fall_dest_ordered(f1.col as int, f2.row as int, f1.row as int);
            }
        }
    }
    assert forall|i: int| 0 <= i < s.len() implies !b.occupied((#[trigger] s[i]).to) || is_from(
        s,
        s[i].to,
    ) by {
        assert(b.fall_pair_ok(v[i]));
        let from = v[i].0;
        let to = v[i].1;
        if b.occupied(to) {
            b.lemma_fall_dest_occupied(from.row as int, from.col as int);
            assert(b.falls(to.row as int, to.col as int));
            assert(contains_from_rc(v, to.row as int, to.col as int));
            let k = choose|k: int|
                0 <= k < v.len() && (#[trigger] v[k]).0.row == to.row && v[k].0.col == to.col;
            assert(s[k].from == to);
        }
    }
    assert forall|i: int| 0 <= i < s.len() implies move_progress_ok(b, #[trigger] s[i]) by {
        assert(valid_move_shape(b, s[i]));
        lemma_move_dist_bounds(b, s[i]);
    }
}

/// The shifting counterpart of `lemma_falling_moves_valid`: a batch of
/// freshly queued shifting moves, one per occupied cell of every shifting
/// column, can be committed.
pub proof fn lemma_shifting_moves_valid(
    b: GridLayout,
    v: Seq<(Coordinate, Coordinate)>,
    s: Seq<PendingMove>,
)
    requires
        b.wf(),
        s.len() == v.len(),
        forall|i: int|
            0 <= i < s.len() ==> (#[trigger] s[i]).from == v[i].0 && s[i].to == v[i].1
                && s[i].progress == 0 && !s[i].done,
        forall|i: int| 0 <= i < v.len() ==> b.shift_pair_ok(#[trigger] v[i]),
        forall|rr: int, cc: int| b.shifts(rr, cc) ==> contains_from_rc(v, rr, cc),
        distinct_froms(v),
    ensures
        moves_valid(b, s),
{
    assert forall|i: int| 0 <= i < s.len() implies valid_move_shape(b, #[trigger] s[i]) by {
        assert(b.shift_pair_ok(v[i]));
    }
    assert forall|i: int, j: int| 0 <= i < j < s.len() implies s[i].to != s[j].to by {
        let f1 = v[i].0;
        let f2 = v[j].0;
        assert(b.shift_pair_ok(v[i]) && b.shift_pair_ok(v[j]));
        if f1.col == f2.col {
            assert(f1 != f2);
        } else if f1.col < f2.col {
            b.lemma_shift_dest_ordered(f1.col as int, f2.col as int);
        } else {
            b.lemma_shift_dest_ordered(f2.col as int, f1.col as int);
        }
    }
    assert forall|i: int| 0 <= i < s.len() implies !b.occupied((#[trigger] s[i]).to) || is_from(
        s,
        s[i].to,
    ) by {
        assert(b.shift_pair_ok(v[i]));
        let from = v[i].0;
        let to = v[i].1;
        if b.occupied(to) {
            b.lemma_shift_dest_occupied(from.col as int);
            assert(b.shifts(to.row as int, to.col as int));
            assert(contains_from_rc(v, to.row as int, to.col as int));
            let k = choose|k: int|
                0 <= k < v.len() && (#[trigger] v[k]).0.row == to.row && v[k].0.col == to.col;
            assert(s[k].from == to);
        }
    }
    assert forall|i: int| 0 <= i < s.len() implies move_progress_ok(b, #[trigger] s[i]) by {
        assert(valid_move_shape(b, s[i]));
        lemma_move_dist_bounds(b, s[i]);
    }
}

/// One game: a board, an animation engine, the current phase and the
/// accumulated score.
pub struct GameSession {
    pub state: GameState,
    pub score: u32,
    pub layout: GridLayout,
    pub physics_system: PhysicsSystem,
}

impl GameSession {
    /// The session's invariant, established by `new` and preserved by every
    /// method: the board is well-formed, the queued moves (if any) can be
    /// committed against it, and nothing is ever queued outside an
    /// animation phase.
    pub open spec fn wf(self) -> bool {
        &&& self.layout.wf()
        &&& moves_valid(self.layout, self.physics_system.moves@)
        &&& self.physics_system.inv()
        &&& (self.state is Playing || self.state is GameOver)
            ==> self.physics_system.moves@.len() == 0
    }

    /// Starts a session on a freshly filled board.
    pub fn new(x: u32, y: u32, width: u32, height: u32, rows: u32, cols: u32) -> (session:
        GameSession)
        requires
            1 <= rows,
            1 <= cols,
            rows * cols <= u32::MAX,
            cols <= width,
            rows <= height,
            x + width <= u32::MAX,
            y + height <= u32::MAX,
        ensures
            session.wf(),
            session.state is Playing,
            session.score == 0,
            session.layout.rows == rows,
            session.layout.cols == cols,
            session.layout.blocks_remaining == rows * cols,
            forall|r: int, c: int|
                session.layout.in_bounds_rc(r, c) ==> session.layout.occupied_rc(r, c),
    {
        GameSession {
            state: GameState::Playing,
            score: 0,
            layout: GridLayout::new(x, y, width, height, rows, cols),
            physics_system: PhysicsSystem::new(),
        }
    }

    /// The game is over when no blocks remain.
    pub fn is_game_over(&self) -> (r: bool)
        ensures
            r == (self.layout.blocks_remaining == 0),
    {
        self.layout.blocks_remaining == 0
    }

    pub fn blocks_remaining(&self) -> (r: u32)
        ensures
            r == self.layout.blocks_remaining,
    {
        self.layout.blocks_remaining
    }

    /// Forwards a click to the board — only while accepting input. Clears
    /// the maximal same-type region around the clicked cell, awards
    /// `(n - 1)` squared points for it, and returns how many blocks were
    /// removed. A click outside the board, on an empty cell, or in any
    /// other phase is a no-op returning zero.
    pub fn handle_click(&mut self, px: u32, py: u32) -> (removed: u32)
        requires
            old(self).wf(),
        ensures
            final(self).wf(),
            final(self).state == old(self).state,
            final(self).physics_system == old(self).physics_system,
            !(old(self).state is Playing) ==> removed == 0 && *final(self) == *old(self),
            old(self).state is Playing ==> {
                &&& removed == old(self).layout.spec_click_region(px as int, py as int).len()
                &&& final(self).layout.blocks_remaining == old(self).layout.blocks_remaining
                    - removed
                &&& final(self).score == (if old(self).score + spec_points(removed as int)
                    >= u32::MAX {
                    u32::MAX as int
                } else {
                    old(self).score + spec_points(removed as int)
                })
                &&& forall|co: Coordinate|
                    old(self).layout.spec_click_region(px as int, py as int).contains(co)
                        ==> !final(self).layout.occupied(co)
                &&& forall|co: Coordinate|
                    old(self).layout.in_bounds(co) && !old(self).layout.spec_click_region(
                        px as int,
                        py as int,
                    ).contains(co) ==> final(self).layout.cell(co) == old(self).layout.cell(co)
                &&& final(self).layout.rows == old(self).layout.rows
                &&& final(self).layout.cols == old(self).layout.cols
                &&& final(self).layout.block_size == old(self).layout.block_size
            },
    {
        match self.state {
            GameState::Playing => {
                let removed = self.layout.remove_block_region(px, py);
                let points = calculate_points(removed);
                if self.score >= u32::MAX - points {
                    self.score = u32::MAX;
                } else {
                    self.score = self.score + points;
                }
                removed
            },
            _ => 0,
        }
    }

    /// Runs the cascade detection that follows every settled state: queue a
    /// falling batch if any block must fall; otherwise queue a shifting
    /// batch if any column must shift; otherwise return to accepting input.
    fn detect_and_queue(&mut self)
        requires
            old(self).layout.wf(),
            old(self).physics_system.moves@.len() == 0,
        ensures
            final(self).layout == old(self).layout,
            final(self).score == old(self).score,
            final(self).physics_system.inv(),
            moves_valid(final(self).layout, final(self).physics_system.moves@),
            !old(self).layout.settled_vertically() ==> final(self).state is BlocksFalling
                && queue_is_falling(final(self).layout, final(self).physics_system.moves@)
                && queue_covers_falls(final(self).layout, final(self).physics_system.moves@),
            old(self).layout.settled_vertically() && !old(self).layout.settled_horizontally()
                ==> final(self).state is ColumnsShifting && queue_is_shifting(
                final(self).layout,
                final(self).physics_system.moves@,
            ) && queue_covers_shifts(final(self).layout, final(self).physics_system.moves@),
            old(self).layout.settled_vertically() && old(self).layout.settled_horizontally()
                ==> final(self).state is Playing && final(self).physics_system.moves@.len() == 0,
            final(self).state is Playing ==> final(self).physics_system.moves@.len() == 0,
            !(final(self).state is GameOver),
    {
        match self.layout.find_falling_blocks() {
            Some(falling_blocks) => {
                self.queue_all(&falling_blocks);
                proof {
                    lemma_falling_moves_valid(
                        self.layout,
                        falling_blocks@,
                        self.physics_system.moves@,
                    );
                    assert forall|rr: int, cc: int| self.layout.falls(rr, cc) implies exists|
                        k: int,
                    |
                        0 <= k < self.physics_system.moves@.len() && (#[trigger] self
                            .physics_system.moves@[k]).from.row == rr
                            && self.physics_system.moves@[k].from.col == cc by {
                        assert(contains_from_rc(falling_blocks@, rr, cc));
                        let k = choose|k: int|
                            0 <= k < falling_blocks@.len() && (#[trigger] falling_blocks@[
                            k]).0.row == rr && falling_blocks@[k].0.col == cc;
                        assert(self.physics_system.moves@[k].from == falling_blocks@[k].0);
                    }
                }
                self.state = GameState::BlocksFalling;
            },
            None => {
                match self.layout.find_shifting_blocks() {
                    Some(shifting_blocks) => {
                        self.queue_all(&shifting_blocks);
                        proof {
                            lemma_shifting_moves_valid(
                                self.layout,
                                shifting_blocks@,
                                self.physics_system.moves@,
                            );
                            assert forall|rr: int, cc: int|
                                self.layout.shifts(rr, cc) implies exists|k: int|
                                0 <= k < self.physics_system.moves@.len() && (#[trigger] self
                                    .physics_system.moves@[k]).from.row == rr
                                    && self.physics_system.moves@[k].from.col == cc by {
                                assert(contains_from_rc(shifting_blocks@, rr, cc));
                                let k = choose|k: int|
                                    0 <= k < shifting_blocks@.len() && (#[trigger] shifting_blocks@[
                                    k]).0.row == rr && shifting_blocks@[k].0.col == cc;
                                assert(self.physics_system.moves@[k].from == shifting_blocks@[
                                k].0);
                            }
                        }
                        self.state = GameState::ColumnsShifting;
                    },
                    None => {
                        self.state = GameState::Playing;
                    },
                }
            },
        }
    }

    /// Registers one animation per detected move.
    fn queue_all(&mut self, pairs: &Vec<(Coordinate, Coordinate)>)
        requires
            old(self).physics_system.moves@.len() == 0,
        ensures
            final(self).layout == old(self).layout,
            final(self).score == old(self).score,
            final(self).state == old(self).state,
            final(self).physics_system.moves@.len() == pairs@.len(),
            forall|i: int|
                0 <= i < pairs@.len() ==> (#[trigger] final(self).physics_system.moves@[i]).from
                    == pairs@[i].0 && final(self).physics_system.moves@[i].to == pairs@[i].1
                    && final(self).physics_system.moves@[i].progress == 0
                    && !final(self).physics_system.moves@[i].done,
            final(self).physics_system.inv(),
    {
        let mut i: usize = 0;
        while i < pairs.len()
            invariant
                self.layout == old(self).layout,
                self.score == old(self).score,
                self.state == old(self).state,
                i <= pairs@.len(),
                self.physics_system.moves@.len() == i,
                forall|k: int|
                    0 <= k < i ==> (#[trigger] self.physics_system.moves@[k]).from == pairs@[k].0
                        && self.physics_system.moves@[k].to == pairs@[k].1
                        && self.physics_system.moves@[k].progress == 0
                        && !self.physics_system.moves@[k].done,
            decreases pairs@.len() - i,
        {
            let pair = pairs[i];
            self.physics_system.queue_block_animation(pair.0, pair.1);
            i = i + 1;
        }
        proof {
            if self.physics_system.moves@.len() > 0 {
                assert(!self.physics_system.moves@[0].done);
            }
        }
    }

    /// One frame tick. In `Playing`, checks for game over, then for blocks
    /// that must fall, then for columns that must shift, in that priority
    /// order — otherwise the session keeps accepting input. In the two
    /// animation phases, advances the engine; once the batch commits, the
    /// same detection runs again (falling before shifting) to catch newly
    /// exposed gaps before play resumes. `GameOver` is terminal.
    pub fn update(&mut self, dt: u32)
        requires
            old(self).wf(),
        ensures
            final(self).wf(),
            final(self).score == old(self).score,
            final(self).layout.blocks_remaining == old(self).layout.blocks_remaining,
            final(self).layout.rows == old(self).layout.rows,
            final(self).layout.cols == old(self).layout.cols,
            final(self).layout.block_size == old(self).layout.block_size,
            old(self).state is GameOver ==> *final(self) == *old(self),
            final(self).state is Playing ==> final(self).layout.settled_vertically()
                && final(self).layout.settled_horizontally(),
            old(self).state is Playing ==> {
                &&& final(self).layout == old(self).layout
                &&& (final(self).state is GameOver <==> old(self).layout.blocks_remaining == 0)
                &&& (final(self).state is BlocksFalling <==> old(self).layout.blocks_remaining > 0
                    && !old(self).layout.settled_vertically())
                &&& (final(self).state is ColumnsShifting <==> old(self).layout.blocks_remaining
                    > 0 && old(self).layout.settled_vertically() && !old(
                    self,
                ).layout.settled_horizontally())
            },
            (old(self).state is BlocksFalling || old(self).state is ColumnsShifting) ==> ({
                let v = step_velocity(old(self).physics_system.velocity, FORCE, dt);
                let st = stepped(old(self).layout, old(self).physics_system.moves@, v, dt);
                if old(self).physics_system.moves@.len() > 0 && !all_done(st) {
                    &&& final(self).state == old(self).state
                    &&& final(self).layout == old(self).layout
                    &&& final(self).physics_system.moves@ == st
                    &&& final(self).physics_system.velocity == v
                } else {
                    &&& !(final(self).state is GameOver)
                    &&& (final(self).state is Playing <==> final(self).layout.settled_vertically()
                        && final(self).layout.settled_horizontally())
                    &&& forall|k: int|
                        0 <= k < old(self).physics_system.moves@.len() ==> final(self).layout.cell(
                            (#[trigger] old(self).physics_system.moves@[k]).to,
                        ) == old(self).layout.cell(old(self).physics_system.moves@[k].from)
                    &&& forall|co: Coordinate|
                        old(self).layout.in_bounds(co) && is_from(
                            old(self).physics_system.moves@,
                            co,
                        ) && !is_to(old(self).physics_system.moves@, co)
                            ==> final(self).layout.cell(co) is None
                    &&& forall|co: Coordinate|
                        old(self).layout.in_bounds(co) && !is_from(
                            old(self).physics_system.moves@,
                            co,
                        ) && !is_to(old(self).physics_system.moves@, co)
                            ==> final(self).layout.cell(co) == old(self).layout.cell(co)
                }
            }),
    {
        match self.state {
            GameState::Playing => {
                if self.layout.blocks_remaining == 0 {
                    self.state = GameState::GameOver;
                } else {
                    self.detect_and_queue();
                }
            },
            GameState::BlocksFalling | GameState::ColumnsShifting => {
                let still = self.physics_system.update(&mut self.layout, FORCE, dt);
                if !still {
                    self.detect_and_queue();
                }
            },
            GameState::GameOver => {},
        }
    }
}

} // verus!
