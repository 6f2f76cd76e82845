//! Grid coordinates: a (row, col) address with bounded neighbor enumeration.

use vstd::prelude::*;

verus! {

broadcast use vstd::seq_lib::lemma_seq_contains_after_push;

/// A non-negative (row, col) address into the board grid.
///
/// Equality is by value. A coordinate does not know the board's extents;
/// operations that depend on them take the bounds as arguments.
#[derive(PartialEq, Eq, Structural, Hash, Clone, Copy, Debug)]
pub struct Coordinate {
    pub row: u32,
    pub col: u32,
}

/// Builds a coordinate from its two components.
pub fn coordinate(row: u32, col: u32) -> (c: Coordinate)
    ensures
        c.row == row,
        c.col == col,
{
    Coordinate { row, col }
}

/// Two coordinates are adjacent when they differ by exactly one step in
/// exactly one of the two components (4-adjacency: up, down, left, right —
/// never diagonal).
pub open spec fn adjacent(a: Coordinate, b: Coordinate) -> bool {
    ||| (a.row == b.row && (a.col + 1 == b.col || b.col + 1 == a.col))
    ||| (a.col == b.col && (a.row + 1 == b.row || b.row + 1 == a.row))
}

impl Coordinate {
    /// Component-wise addition, used to express directional offsets.
    pub fn add(self, rhs: Coordinate) -> (r: Coordinate)
        requires
            self.row + rhs.row <= u32::MAX,
            self.col + rhs.col <= u32::MAX,
        ensures
            r.row == self.row + rhs.row,
            r.col == self.col + rhs.col,
    {
        Coordinate { row: self.row + rhs.row, col: self.col + rhs.col }
    }

    /// Component-wise subtraction, used to express directional offsets.
    pub fn sub(self, rhs: Coordinate) -> (r: Coordinate)
        requires
            rhs.row <= self.row,
            rhs.col <= self.col,
        ensures
            r.row == self.row - rhs.row,
            r.col == self.col - rhs.col,
    {
        Coordinate { row: self.row - rhs.row, col: self.col - rhs.col }
    }

    /// Enumerates the in-bounds 4-adjacent neighbors of `self`: a neighbor is
    /// returned exactly when it is adjacent and lies within the given row and
    /// column bounds.
    pub fn get_neighbors(&self, row_bound: u32, col_bound: u32) -> (r: Vec<Coordinate>)
        requires
            self.row < row_bound,
            self.col < col_bound,
        ensures
            forall|n: Coordinate|
                r@.contains(n) <==> (adjacent(*self, n) && n.row < row_bound && n.col < col_bound),
    {
        let row = self.row;
        let col = self.col;
        let ghost up = Coordinate { row: (row - 1) as u32, col };
        let ghost down = Coordinate { row: (row + 1) as u32, col };
        let ghost left = Coordinate { row, col: (col - 1) as u32 };
        let ghost right = Coordinate { row, col: (col + 1) as u32 };
        let mut neighbors: Vec<Coordinate> = Vec::new();

        // Up
        if row > 0 {
            neighbors.push(Coordinate { row: row - 1, col });
        }
        assert(forall|n: Coordinate| neighbors@.contains(n) <==> (row > 0 && n == up));

        // Down
        if row < row_bound - 1 {
            neighbors.push(Coordinate { row: row + 1, col });
        }
        assert(forall|n: Coordinate|
            neighbors@.contains(n) <==> ((row > 0 && n == up) || (row + 1 < row_bound && n
                == down)));

        // Left
        if col > 0 {
            neighbors.push(Coordinate { row, col: col - 1 });
        }
        assert(forall|n: Coordinate|
            neighbors@.contains(n) <==> ((row > 0 && n == up) || (row + 1 < row_bound && n == down)
                || (col > 0 && n == left)));

        // Right
        if col < col_bound - 1 {
            neighbors.push(Coordinate { row, col: col + 1 });
        }
        assert(forall|n: Coordinate|
            neighbors@.contains(n) <==> ((row > 0 && n == up) || (row + 1 < row_bound && n == down)
                || (col > 0 && n == left) || (col + 1 < col_bound && n == right)));

        neighbors
    }
}

} // verus!
