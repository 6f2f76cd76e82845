//! The animation engine: tracks in-flight block relocations, integrates a
//! shared per-phase velocity against elapsed time, and atomically commits
//! settled positions back into the board once the whole batch has finished.

use vstd::prelude::*;

use crate::block::Block;
use crate::constants::MILLIPIXELS_PER_PIXEL;
use crate::coordinate::Coordinate;
use crate::grid_layout::{count_some, lemma_count_some_update, GridLayout};

verus! {

/// An in-flight relocation: a block moving from its origin grid cell toward
/// its destination grid cell, with the distance it has covered so far.
/// While the move is in flight the block still sits in its origin slot; the
/// grid is only rewritten when the whole batch commits.
#[derive(PartialEq, Eq, Structural, Clone, Copy, Debug)]
pub struct PendingMove {
    pub from: Coordinate,
    pub to: Coordinate,
    /// Straight-line distance traveled since the phase began, in
    /// millipixels.
    pub progress: u64,
    /// The move has covered the whole origin-to-destination distance and
    /// waits for the batch to commit.
    pub done: bool,
}

/// How many grid cells a move crosses (its two endpoints lie on one axis,
/// so this is also the straight-line cell distance).
pub open spec fn move_cells(m: PendingMove) -> int {
    (if m.to.row >= m.from.row {
        m.to.row - m.from.row
    } else {
        m.from.row - m.to.row
    }) + (if m.to.col >= m.from.col {
        m.to.col - m.from.col
    } else {
        m.from.col - m.to.col
    })
}

/// The straight-line distance between a move's origin and destination
/// world points, in millipixels.
pub open spec fn move_dist(b: GridLayout, m: PendingMove) -> int {
    b.block_size * MILLIPIXELS_PER_PIXEL * move_cells(m)
}

/// A single move makes sense on this board: both endpoints are in range and
/// distinct, they lie on one axis, and a block sits at the origin.
pub open spec fn valid_move_shape(b: GridLayout, m: PendingMove) -> bool {
    &&& b.in_bounds(m.from)
    &&& b.in_bounds(m.to)
    &&& m.from != m.to
    &&& m.from.row == m.to.row || m.from.col == m.to.col
    &&& b.occupied(m.from)
}

/// Some queued move starts at `co`.
pub open spec fn is_from(s: Seq<PendingMove>, co: Coordinate) -> bool {
    exists|i: int| 0 <= i < s.len() && s[i].from == co
}

/// Some queued move ends at `co`.
pub open spec fn is_to(s: Seq<PendingMove>, co: Coordinate) -> bool {
    exists|i: int| 0 <= i < s.len() && s[i].to == co
}

/// `co` is the origin of one of the first `n` moves.
pub open spec fn is_from_among(s: Seq<PendingMove>, n: int, co: Coordinate) -> bool {
    exists|i: int| 0 <= i < n && s[i].from == co
}

/// `co` is the destination of one of the first `n` moves.
pub open spec fn is_to_among(s: Seq<PendingMove>, n: int, co: Coordinate) -> bool {
    exists|i: int| 0 <= i < n && s[i].to == co
}

/// No two queued moves share an origin.
pub open spec fn froms_distinct(s: Seq<PendingMove>) -> bool {
    forall|i: int, j: int| 0 <= i < j < s.len() ==> s[i].from != s[j].from
}

/// A whole batch can be committed: every move is well-shaped, origins and
/// destinations are each pairwise distinct, and every destination is either
/// an empty cell or the origin of another move in the same batch (so that
/// taking every origin first and then filling every destination collides
/// with nothing).
pub open spec fn moves_placeable(b: GridLayout, s: Seq<PendingMove>) -> bool {
    &&& forall|i: int| 0 <= i < s.len() ==> valid_move_shape(b, #[trigger] s[i])
    &&& froms_distinct(s)
    &&& forall|i: int, j: int| 0 <= i < j < s.len() ==> s[i].to != s[j].to
    &&& forall|i: int| 0 <= i < s.len() ==> !b.occupied((#[trigger] s[i]).to) || is_from(s, s[i].to)
}

/// A move's recorded progress is consistent: it never exceeds the
/// origin-to-destination distance, and the move is marked done exactly when
/// it has covered that distance.
pub open spec fn move_progress_ok(b: GridLayout, m: PendingMove) -> bool {
    &&& m.progress <= move_dist(b, m)
    &&& (m.done <==> m.progress == move_dist(b, m))
}

/// The engine's queue is consistent with the board.
pub open spec fn moves_valid(b: GridLayout, s: Seq<PendingMove>) -> bool {
    &&& moves_placeable(b, s)
    &&& forall|i: int| 0 <= i < s.len() ==> move_progress_ok(b, #[trigger] s[i])
}

/// The shared velocity after one tick: `velocity + force * dt`, saturating
/// at `u32::MAX`.
pub open spec fn step_velocity(v: u32, force: u32, dt: u32) -> u32 {
    if v + force * dt >= u32::MAX {
        u32::MAX
    } else {
        (v + force * dt) as u32
    }
}

/// One move after one tick at velocity `v`: it advances by `v * dt`
/// millipixels; if that reaches the remaining distance it snaps exactly to
/// the destination and is marked done.
pub open spec fn step_move(b: GridLayout, m: PendingMove, v: u32, dt: u32) -> PendingMove {
    if m.done {
        m
    } else if v * dt >= move_dist(b, m) - m.progress {
        PendingMove { progress: move_dist(b, m) as u64, done: true, ..m }
    } else {
        PendingMove { progress: (m.progress + v * dt) as u64, ..m }
    }
}

/// The whole batch after one tick.
pub open spec fn stepped(b: GridLayout, s: Seq<PendingMove>, v: u32, dt: u32) -> Seq<PendingMove> {
    Seq::new(s.len(), |i: int| step_move(b, s[i], v, dt))
}

/// Every move of the batch has reached its destination.
pub open spec fn all_done(s: Seq<PendingMove>) -> bool {
    forall|i: int| 0 <= i < s.len() ==> (#[trigger] s[i]).done
}

/// The pixel offset at which a move's block should be drawn, relative to
/// its origin cell's world point.
pub open spec fn spec_offset(m: PendingMove) -> (int, int) {
    let px = m.progress / (MILLIPIXELS_PER_PIXEL as u64);
    (
        if m.to.col > m.from.col {
            px as int
        } else if m.to.col < m.from.col {
            -(px as int)
        } else {
            0
        },
        if m.to.row > m.from.row {
            px as int
        } else if m.to.row < m.from.row {
            -(px as int)
        } else {
            0
        },
    )
}

/// A well-shaped move covers at least one cell on a well-formed board, so
/// its distance is positive, and it never exceeds the board's extent (in
/// millipixels), so every distance fits comfortably in 64 bits.
pub proof fn lemma_move_dist_bounds(b: GridLayout, m: PendingMove)
    requires
        b.wf_geom(),
        valid_move_shape(b, m),
    ensures
        0 < move_dist(b, m),
        move_dist(b, m) <= (u32::MAX as int) * (MILLIPIXELS_PER_PIXEL as int),
{
    let cells = move_cells(m);
    assert(1 <= cells <= b.rows + b.cols);
    if m.from.row == m.to.row {
        assert(0 < b.block_size * MILLIPIXELS_PER_PIXEL * cells && b.block_size
            * MILLIPIXELS_PER_PIXEL * cells <= b.width * MILLIPIXELS_PER_PIXEL)
            by (nonlinear_arith)
            requires
                1 <= cells,
                cells < b.cols,
                1 <= b.block_size,
                b.block_size * b.cols <= b.width,
                MILLIPIXELS_PER_PIXEL == 1000,
        ;
    } else {
        assert(0 < b.block_size * MILLIPIXELS_PER_PIXEL * cells && b.block_size
            * MILLIPIXELS_PER_PIXEL * cells <= b.height * MILLIPIXELS_PER_PIXEL)
            by (nonlinear_arith)
            requires
                1 <= cells,
                cells < b.rows,
                1 <= b.block_size,
                b.block_size * b.rows <= b.height,
                MILLIPIXELS_PER_PIXEL == 1000,
        ;
    }
}

/// A non-degenerate tick (one that covers at least one millipixel) strictly
/// shrinks the remaining distance of every move that is not yet done, or
/// finishes it; so, with any positive velocity, repeated ticks finish every
/// move within finitely many frames.
pub proof fn lemma_step_strict(b: GridLayout, m: PendingMove, v: u32, dt: u32)
    requires
        b.wf_geom(),
        valid_move_shape(b, m),
        move_progress_ok(b, m),
        !m.done,
        v * dt >= 1,
    ensures
        step_move(b, m, v, dt).done || move_dist(b, m) - step_move(b, m, v, dt).progress
            < move_dist(b, m) - m.progress,
        move_progress_ok(b, step_move(b, m, v, dt)),
{
    lemma_move_dist_bounds(b, m);
}

/// The distance a move still has to cover, in millipixels.
pub open spec fn remaining_of(b: GridLayout, m: PendingMove) -> int {
    move_dist(b, m) - m.progress
}

/// The total distance the whole batch still has to cover, in millipixels.
pub open spec fn total_remaining(b: GridLayout, s: Seq<PendingMove>) -> int
    decreases s.len(),
{
    if s.len() == 0 {
        0
    } else {
        total_remaining(b, s.drop_last()) + remaining_of(b, s.last())
    }
}

/// The batch's total remaining distance is a non-negative measure that
/// every non-degenerate tick strictly decreases while any move is
/// unfinished. Since `update` leaves the queue exactly one tick further
/// along until the batch commits, repeated calls with any positive velocity
/// finish every batch — and return to reporting `false` — within finitely
/// many frames.
pub proof fn lemma_stepped_measure(b: GridLayout, s: Seq<PendingMove>, v: u32, dt: u32)
    requires
        b.wf_geom(),
        forall|i: int|
            0 <= i < s.len() ==> valid_move_shape(b, #[trigger] s[i]) && move_progress_ok(
                b,
                s[i],
            ),
        v * dt >= 1,
    ensures
        0 <= total_remaining(b, stepped(b, s, v, dt)),
        total_remaining(b, stepped(b, s, v, dt)) <= total_remaining(b, s),
        (exists|i: int| 0 <= i < s.len() && !(#[trigger] s[i]).done) ==> total_remaining(
            b,
            stepped(b, s, v, dt),
        ) < total_remaining(b, s),
    decreases s.len(),
{
    let st = stepped(b, s, v, dt);
    if s.len() == 0 {
    } else {
        let pre = s.drop_last();
        let m = s.last();
        assert(st.drop_last() =~= stepped(b, pre, v, dt));
        lemma_stepped_measure(b, pre, v, dt);
        if !m.done {
            lemma_step_strict(b, m, v, dt);
            lemma_move_dist_bounds(b, m);
        }
        assert(st.last() == step_move(b, m, v, dt));
        if exists|i: int| 0 <= i < s.len() && !(#[trigger] s[i]).done {
            let i = choose|i: int| 0 <= i < s.len() && !(#[trigger] s[i]).done;
            if i < s.len() - 1 {
                assert(!pre[i].done);
            }
        }
    }
}

/// The engine: the queue of in-flight moves for the current phase, plus one
/// shared velocity for the whole batch (all blocks of a falling or shifting
/// phase move under the same uniform acceleration).
pub struct PhysicsSystem {
    pub moves: Vec<PendingMove>,
    /// Shared batch velocity, in millipixels per millisecond.
    pub velocity: u32,
}

impl PhysicsSystem {
    /// Between ticks, a non-empty queue always holds at least one
    /// unfinished move: a batch whose last move finishes is committed and
    /// cleared within the same tick.
    pub open spec fn inv(self) -> bool {
        self.moves@.len() > 0 ==> exists|i: int|
            0 <= i < self.moves@.len() && !self.moves@[i].done
    }

    /// A fresh engine: nothing queued, velocity zero.
    pub fn new() -> (ps: PhysicsSystem)
        ensures
            ps.moves@.len() == 0,
            ps.velocity == 0,
            ps.inv(),
    {
        PhysicsSystem { moves: Vec::new(), velocity: 0 }
    }

    /// Registers a pending move; called once per detected gap or shift.
    pub fn queue_block_animation(&mut self, from: Coordinate, to: Coordinate)
        ensures
            final(self).moves@ == old(self).moves@.push(
                PendingMove { from, to, progress: 0, done: false },
            ),
            final(self).velocity == old(self).velocity,
            final(self).inv(),
    {
        self.moves.push(PendingMove { from, to, progress: 0, done: false });
        proof {
            assert(!self.moves@[self.moves@.len() - 1].done);
        }
    }

    /// The pixel offset at which the block at `position` should be drawn,
    /// relative to its cell's world point: zero unless the block is
    /// mid-flight.
    pub fn get_animation_offset(&self, position: Coordinate) -> (r: (i64, i64))
        requires
            froms_distinct(self.moves@),
        ensures
            !is_from(self.moves@, position) ==> r.0 == 0 && r.1 == 0,
            forall|i: int|
                0 <= i < self.moves@.len() && (#[trigger] self.moves@[i]).from == position ==> (
                r.0 as int,
                r.1 as int,
            ) == spec_offset(self.moves@[i]),
    {
        let mut i: usize = 0;
        while i < self.moves.len()
            invariant
                i <= self.moves@.len(),
                froms_distinct(self.moves@),
                forall|j: int| 0 <= j < i ==> (#[trigger] self.moves@[j]).from != position,
            decreases self.moves@.len() - i,
        {
            let m = self.moves[i];
            if m.from.row == position.row && m.from.col == position.col {
                let px = m.progress / (MILLIPIXELS_PER_PIXEL as u64);
                proof {
                    assert(px * (MILLIPIXELS_PER_PIXEL as int) <= m.progress) by {
                        vstd::arithmetic::div_mod::lemma_fundamental_div_mod(
                            m.progress as int,
                            MILLIPIXELS_PER_PIXEL as int,
                        );
                        vstd::arithmetic::div_mod::lemma_mod_bound(
                            m.progress as int,
                            MILLIPIXELS_PER_PIXEL as int,
                        );
                    }
                    assert(px < 0x4000_0000_0000_0000u64);
                }
                let dx: i64 = if m.to.col > m.from.col {
                    px as i64
                } else if m.to.col < m.from.col {
                    -(px as i64)
                } else {
                    0
                };
                let dy: i64 = if m.to.row > m.from.row {
                    px as i64
                } else if m.to.row < m.from.row {
                    -(px as i64)
                } else {
                    0
                };
                return (dx, dy);
            }
            i = i + 1;
        }
        (0, 0)
    }

    /// Advances every queued move by one tick and returns whether any move
    /// is still in flight.
    ///
    /// A no-op returning `false` if nothing is queued. Otherwise the shared
    /// velocity first integrates the applied force over the elapsed time,
    /// then every unfinished move advances by `velocity * dt` millipixels,
    /// snapping exactly onto its destination when it reaches it. The board
    /// is left untouched while any move is still in flight; only when every
    /// queued move has finished does one atomic commit pass relocate each
    /// block from its origin cell to its destination cell (taking every
    /// origin before filling any destination, so converging chains of moves
    /// cannot collide), clear the queue, and reset the velocity to zero.
    #[verifier::rlimit(60)]
    pub fn update(&mut self, layout: &mut GridLayout, force: u32, dt: u32) -> (still: bool)
        requires
            old(self).inv(),
            old(layout).wf(),
            moves_valid(*old(layout), old(self).moves@),
        ensures
            final(self).inv(),
            final(layout).wf(),
            final(layout).rows == old(layout).rows,
            final(layout).cols == old(layout).cols,
            final(layout).blocks_remaining == old(layout).blocks_remaining,
            final(layout).block_size == old(layout).block_size,
            final(layout).x == old(layout).x,
            final(layout).y == old(layout).y,
            final(layout).width == old(layout).width,
            final(layout).height == old(layout).height,
            moves_valid(*final(layout), final(self).moves@),
            old(self).moves@.len() == 0 ==> !still && *final(self) == *old(self) && *final(layout)
                == *old(layout),
            old(self).moves@.len() > 0 ==> ({
                let v = step_velocity(old(self).velocity, force, dt);
                let st = stepped(*old(layout), old(self).moves@, v, dt);
                if all_done(st) {
                    &&& !still
                    &&& final(self).moves@.len() == 0
                    &&& final(self).velocity == 0
                    &&& forall|k: int|
                        0 <= k < old(self).moves@.len() ==> final(layout).cell(
                            (#[trigger] old(self).moves@[k]).to,
                        ) == old(layout).cell(old(self).moves@[k].from)
                    &&& forall|co: Coordinate|
                        old(layout).in_bounds(co) && is_from(old(self).moves@, co) && !is_to(
                            old(self).moves@,
                            co,
                        ) ==> final(layout).cell(co) is None
                    &&& forall|co: Coordinate|
                        old(layout).in_bounds(co) && !is_from(old(self).moves@, co) && !is_to(
                            old(self).moves@,
                            co,
                        ) ==> final(layout).cell(co) == old(layout).cell(co)
                } else {
                    &&& still
                    &&& final(self).velocity == v
                    &&& final(self).moves@ == st
                    &&& *final(layout) == *old(layout)
                }
            }),
    {
        if self.moves.len() == 0 {
            return false;
        }

        let ghost orig_board = *layout;
        let ghost orig_moves = self.moves@;

        // Integrate the shared velocity, saturating at the type's ceiling.
        proof {
            assert((force as int) * (dt as int) < 0x1_0000_0000_0000_0000) by (nonlinear_arith)
                requires
                    force as int <= 0xFFFF_FFFF,
                    dt as int <= 0xFFFF_FFFF,
            ;
        }
        let dv: u64 = (force as u64) * (dt as u64);
        let head: u64 = (u32::MAX - self.velocity) as u64;
        if dv >= head {
            self.velocity = u32::MAX;
        } else {
            self.velocity = self.velocity + (dv as u32);
        }
        let v = self.velocity;
        proof {
            assert(v == step_velocity(old(self).velocity, force, dt));
        }

        // Advance every unfinished move by `v * dt` millipixels.
        let mut i: usize = 0;
        let mut all = true;
        let ghost mut bad: int = 0;
        while i < self.moves.len()
            invariant
                *layout == orig_board,
                layout.wf(),
                moves_valid(orig_board, orig_moves),
                self.velocity == v,
                i <= self.moves@.len(),
                self.moves@.len() == orig_moves.len(),
                forall|k: int|
                    0 <= k < i ==> #[trigger] self.moves@[k] == step_move(
                        orig_board,
                        orig_moves[k],
                        v,
                        dt,
                    ),
                forall|k: int| i <= k < orig_moves.len() ==> self.moves@[k] == orig_moves[k],
                all ==> (forall|k: int| 0 <= k < i ==> (#[trigger] self.moves@[k]).done),
                !all ==> 0 <= bad < i && !self.moves@[bad].done,
            decreases self.moves@.len() - i,
        {
            let m = self.moves[i];
            if !m.done {
                proof {
                    assert(valid_move_shape(orig_board, orig_moves[i as int]));
                    assert(move_progress_ok(orig_board, orig_moves[i as int]));
                    lemma_move_dist_bounds(orig_board, m);
                }
                let dr = if m.to.row >= m.from.row {
                    m.to.row - m.from.row
                } else {
                    m.from.row - m.to.row
                };
                let dc = if m.to.col >= m.from.col {
                    m.to.col - m.from.col
                } else {
                    m.from.col - m.to.col
                };
                let cells = dr + dc;
                proof {
                    assert(cells as int == move_cells(m));
                    assert((layout.block_size * MILLIPIXELS_PER_PIXEL) * cells == (
                    layout.block_size * cells) * MILLIPIXELS_PER_PIXEL) by (nonlinear_arith);
                    assert(layout.block_size * cells <= u32::MAX) by (nonlinear_arith)
                        requires
                            (layout.block_size * MILLIPIXELS_PER_PIXEL) * cells == (
                            layout.block_size * cells) * MILLIPIXELS_PER_PIXEL,
                            (layout.block_size as int) * (MILLIPIXELS_PER_PIXEL as int) * (
                            cells as int) <= (u32::MAX as int) * (MILLIPIXELS_PER_PIXEL as int),
                            MILLIPIXELS_PER_PIXEL == 1000,
                            0 <= cells,
                            0 <= layout.block_size,
                    ;
                }
                let px = layout.block_size * cells;
                let dist: u64 = (px as u64) * (MILLIPIXELS_PER_PIXEL as u64);
                proof {
                    assert(dist as int == move_dist(orig_board, m));
                }
                proof {
                    assert((v as int) * (dt as int) < 0x1_0000_0000_0000_0000) by (nonlinear_arith)
                        requires
                            v as int <= 0xFFFF_FFFF,
                            dt as int <= 0xFFFF_FFFF,
                    ;
                }
                let step: u64 = (v as u64) * (dt as u64);
                let need: u64 = dist - m.progress;
                if step >= need {
                    self.moves[i] = PendingMove {
                        from: m.from,
                        to: m.to,
                        progress: dist,
                        done: true,
                    };
                } else {
                    self.moves[i] = PendingMove {
                        from: m.from,
                        to: m.to,
                        progress: m.progress + step,
                        done: false,
                    };
                    all = false;
                    proof {
                        bad = i as int;
                    }
                }
                proof {
                    assert(self.moves@[i as int] == step_move(
                        orig_board,
                        orig_moves[i as int],
                        v,
                        dt,
                    ));
                }
            }
            i = i + 1;
        }

        let ghost st = stepped(orig_board, orig_moves, v, dt);
        proof {
            assert(self.moves@ =~= st);
            assert forall|k: int| 0 <= k < st.len() implies (#[trigger] st[k]).from
                == orig_moves[k].from && st[k].to == orig_moves[k].to by {}
            assert forall|k: int| 0 <= k < st.len() implies move_progress_ok(
                orig_board,
                #[trigger] st[k],
            ) by {
                lemma_move_dist_bounds(orig_board, orig_moves[k]);
            }
            assert forall|k: int| 0 <= k < st.len() implies valid_move_shape(
                orig_board,
                #[trigger] st[k],
            ) by {}
            assert forall|co: Coordinate| is_from(orig_moves, co) implies is_from(st, co) by {
                let k = choose|k: int| 0 <= k < orig_moves.len() && orig_moves[k].from == co;
                assert(st[k].from == co);
            }
            assert(moves_valid(orig_board, st));
        }

        if all {
            // Every move has reached its destination: commit the whole
            // batch at once. First take every block from its origin, then
            // fill every destination, so that a destination that is another
            // move's origin is vacated before it is filled.
            let mut taken: Vec<(Block, Coordinate)> = Vec::new();
            let mut j: usize = 0;
            while j < self.moves.len()
                invariant
                    self.moves@ == st,
                    st.len() == orig_moves.len(),
                    forall|k: int|
                        0 <= k < st.len() ==> (#[trigger] st[k]).from == orig_moves[k].from
                            && st[k].to == orig_moves[k].to,
                    orig_board.wf(),
                    moves_valid(orig_board, orig_moves),
                    j <= orig_moves.len(),
                    layout.wf_geom(),
                    layout.rows == orig_board.rows,
                    layout.cols == orig_board.cols,
                    layout.blocks_remaining == orig_board.blocks_remaining,
                    layout.block_size == orig_board.block_size,
                    layout.x == orig_board.x,
                    layout.y == orig_board.y,
                    layout.width == orig_board.width,
                    layout.height == orig_board.height,
                    taken@.len() == j,
                    forall|k: int|
                        0 <= k < j ==> (#[trigger] taken@[k]).0 == orig_board.cell(
                            orig_moves[k].from,
                        ).unwrap() && taken@[k].1 == orig_moves[k].to && taken@[k].0.size
                            == orig_board.block_size,
                    forall|k: int|
                        0 <= k < j ==> layout.cell((#[trigger] orig_moves[k]).from) is None,
                    forall|co: Coordinate|
                        orig_board.in_bounds(co) && !is_from_among(orig_moves, j as int, co)
                            ==> layout.cell(co) == orig_board.cell(co),
                    count_some(layout.blocks@) == count_some(orig_board.blocks@) - j,
                decreases orig_moves.len() - j,
            {
                let ghost before = *layout;
                let m = self.moves[j];
                proof {
                    assert(m.from == orig_moves[j as int].from);
                    assert(valid_move_shape(orig_board, orig_moves[j as int]));
                    assert(!is_from_among(orig_moves, j as int, m.from)) by {
                        if is_from_among(orig_moves, j as int, m.from) {
                            let k = choose|k: int|
                                0 <= k < j && (#[trigger] orig_moves[k]).from == m.from;
                            assert(orig_moves[k].from != orig_moves[j as int].from);
                        }
                    }
                    assert(layout.cell(m.from) == orig_board.cell(m.from));
                    assert(orig_board.occupied(m.from));
                    before.lemma_idx_bounds(m.from.row as int, m.from.col as int);
                    lemma_count_some_update(
                        before.blocks@,
                        before.idx_of(m.from.row as int, m.from.col as int),
                        None,
                    );
                }
                match layout.take_block(m.from) {
                    Some(b) => {
                        taken.push((b, m.to));
                    },
                    None => {
                        proof {
                            assert(false);
                        }
                    },
                }
                j = j + 1;
                proof {
                    assert forall|k: int| 0 <= k < j implies layout.cell(
                        (#[trigger] orig_moves[k]).from,
                    ) is None by {
                        let co = orig_moves[k].from;
                        before.lemma_idx_bounds(co.row as int, co.col as int);
                        if k < j - 1 && before.idx_of(co.row as int, co.col as int)
                            == before.idx_of(m.from.row as int, m.from.col as int) {
                            before.lemma_idx_injective(
                                co.row as int,
                                co.col as int,
                                m.from.row as int,
                                m.from.col as int,
                            );
                        }
                    }
                    assert forall|co: Coordinate|
                        orig_board.in_bounds(co) && !is_from_among(
                            orig_moves,
                            j as int,
                            co,
                        ) implies layout.cell(co) == orig_board.cell(co) by {
                        assert(!is_from_among(orig_moves, j as int - 1, co)) by {
                            if is_from_among(orig_moves, j as int - 1, co) {
                                let k = choose|k: int|
                                    0 <= k < j - 1 && (#[trigger] orig_moves[k]).from == co;
                            }
                        }
                        assert(co != m.from) by {
                            assert(orig_moves[j as int - 1].from == m.from);
                        }
                        before.lemma_idx_bounds(co.row as int, co.col as int);
                        if before.idx_of(co.row as int, co.col as int) == before.idx_of(
                            m.from.row as int,
                            m.from.col as int,
                        ) {
                            before.lemma_idx_injective(
                                co.row as int,
                                co.col as int,
                                m.from.row as int,
                                m.from.col as int,
                            );
                        }
                    }
                }
            }

            // Second pass: settle every taken block at its destination.
            let ghost mid_board = *layout;
            let n = taken.len();
            let mut p: usize = 0;
            while p < n
                invariant
                    n == orig_moves.len(),
                    orig_board.wf(),
                    moves_valid(orig_board, orig_moves),
                    p <= n,
                    layout.wf_geom(),
                    layout.rows == orig_board.rows,
                    layout.cols == orig_board.cols,
                    layout.blocks_remaining == orig_board.blocks_remaining,
                    layout.block_size == orig_board.block_size,
                    layout.x == orig_board.x,
                    layout.y == orig_board.y,
                    layout.width == orig_board.width,
                    layout.height == orig_board.height,
                    taken@.len() == n,
                    forall|k: int|
                        0 <= k < n ==> (#[trigger] taken@[k]).0 == orig_board.cell(
                            orig_moves[k].from,
                        ).unwrap() && taken@[k].1 == orig_moves[k].to && taken@[k].0.size
                            == orig_board.block_size,
                    forall|k: int|
                        0 <= k < p ==> layout.cell((#[trigger] orig_moves[k]).to)
                            == orig_board.cell(orig_moves[k].from),
                    forall|co: Coordinate|
                        orig_board.in_bounds(co) && is_from(orig_moves, co) && !is_to_among(
                            orig_moves,
                            p as int,
                            co,
                        ) ==> layout.cell(co) is None,
                    forall|co: Coordinate|
                        orig_board.in_bounds(co) && !is_from(orig_moves, co) && !is_to_among(
                            orig_moves,
                            p as int,
                            co,
                        ) ==> layout.cell(co) == orig_board.cell(co),
                    count_some(layout.blocks@) == count_some(orig_board.blocks@) - n + p,
                decreases n - p,
            {
                let ghost before = *layout;
                let entry = taken[p];
                let b = entry.0;
                let to = entry.1;
                proof {
                    assert(to == orig_moves[p as int].to);
                    assert(valid_move_shape(orig_board, orig_moves[p as int]));
                    assert(orig_board.in_bounds(to));
                    assert(!is_to_among(orig_moves, p as int, to)) by {
                        if is_to_among(orig_moves, p as int, to) {
                            let k = choose|k: int|
                                0 <= k < p && (#[trigger] orig_moves[k]).to == to;
                            assert(orig_moves[k].to != orig_moves[p as int].to);
                        }
                    }
                    assert(layout.cell(to) is None) by {
                        if is_from(orig_moves, to) {
                        } else {
                            assert(!orig_board.occupied(orig_moves[p as int].to) || is_from(
                                orig_moves,
                                orig_moves[p as int].to,
                            ));
                            assert(!orig_board.occupied(to));
                            assert(layout.cell(to) == orig_board.cell(to));
                        }
                    }
                    before.lemma_idx_bounds(to.row as int, to.col as int);
                    lemma_count_some_update(
                        before.blocks@,
                        before.idx_of(to.row as int, to.col as int),
                        Some(b),
                    );
                }
                layout.place_block(to, b);
                p = p + 1;
                proof {
                    assert forall|k: int| 0 <= k < p implies layout.cell(
                        (#[trigger] orig_moves[k]).to,
                    ) == orig_board.cell(orig_moves[k].from) by {
                        let co = orig_moves[k].to;
                        before.lemma_idx_bounds(co.row as int, co.col as int);
                        if k < p - 1 && before.idx_of(co.row as int, co.col as int)
                            == before.idx_of(to.row as int, to.col as int) {
                            before.lemma_idx_injective(
                                co.row as int,
                                co.col as int,
                                to.row as int,
                                to.col as int,
                            );
                        }
                        if k == p - 1 {
                            assert(orig_board.occupied(orig_moves[k].from));
                            assert(layout.cell(to) == Some(b));
                        }
                    }
                    assert forall|co: Coordinate|
                        orig_board.in_bounds(co) && is_from(orig_moves, co) && !is_to_among(
                            orig_moves,
                            p as int,
                            co,
                        ) implies layout.cell(co) is None by {
                        assert(!is_to_among(orig_moves, p as int - 1, co)) by {
                            if is_to_among(orig_moves, p as int - 1, co) {
                                let k = choose|k: int|
                                    0 <= k < p - 1 && (#[trigger] orig_moves[k]).to == co;
                            }
                        }
                        assert(co != to) by {
                            assert(orig_moves[p as int - 1].to == to);
                        }
                        before.lemma_idx_bounds(co.row as int, co.col as int);
                        if before.idx_of(co.row as int, co.col as int) == before.idx_of(
                            to.row as int,
                            to.col as int,
                        ) {
                            before.lemma_idx_injective(
                                co.row as int,
                                co.col as int,
                                to.row as int,
                                to.col as int,
                            );
                        }
                    }
                    assert forall|co: Coordinate|
                        orig_board.in_bounds(co) && !is_from(orig_moves, co) && !is_to_among(
                            orig_moves,
                            p as int,
                            co,
                        ) implies layout.cell(co) == orig_board.cell(co) by {
                        assert(!is_to_among(orig_moves, p as int - 1, co)) by {
                            if is_to_among(orig_moves, p as int - 1, co) {
                                let k = choose|k: int|
                                    0 <= k < p - 1 && (#[trigger] orig_moves[k]).to == co;
                            }
                        }
                        assert(co != to) by {
                            assert(orig_moves[p as int - 1].to == to);
                        }
                        before.lemma_idx_bounds(co.row as int, co.col as int);
                        if before.idx_of(co.row as int, co.col as int) == before.idx_of(
                            to.row as int,
                            to.col as int,
                        ) {
                            before.lemma_idx_injective(
                                co.row as int,
                                co.col as int,
                                to.row as int,
                                to.col as int,
                            );
                        }
                    }
                }
            }

            self.moves = Vec::new();
            self.velocity = 0;
            proof {
                assert(all_done(st));
                assert forall|co: Coordinate| is_to_among(
                    orig_moves,
                    orig_moves.len() as int,
                    co,
                ) implies is_to(orig_moves, co) by {}
                assert forall|co: Coordinate| is_to(orig_moves, co) implies is_to_among(
                    orig_moves,
                    orig_moves.len() as int,
                    co,
                ) by {}
            }
            false
        } else {
            proof {
                assert(!self.moves@[bad].done);
                assert(!all_done(st)) by {
                    assert(!st[bad].done);
                }
            }
            true
        }
    }
}

} // verus!
