//! Coordinates on the toroidal grid.

use vstd::prelude::*;

verus! {

/// Side length of the square grid.
pub const SIZE: usize = 4;

/// Number of cells on the grid.
pub const CELLS: usize = 16;

/// A cell of the grid: row, then column, each in `[0, SIZE)`.
#[derive(Clone, Copy, Debug, PartialEq, Eq, Structural, Hash)]
pub struct Point(pub usize, pub usize);

/// The cell one step from `p` in direction `k` (down, up, right, left), wrapping at the edges.
pub open spec fn step(p: Point, k: int) -> Point {
    if k == 0 {
        Point(((p.0 + 1) % 4) as usize, p.1)
    } else if k == 1 {
        Point(((p.0 + 3) % 4) as usize, p.1)
    } else if k == 2 {
        Point(p.0, ((p.1 + 1) % 4) as usize)
    } else {
        Point(p.0, ((p.1 + 3) % 4) as usize)
    }
}

/// The point of cell number `i` (row-major order).
pub open spec fn point_of(i: int) -> Point {
    Point((i / 4) as usize, (i % 4) as usize)
}

impl Point {
    /// Both coordinates lie on the grid.
    pub open spec fn valid(self) -> bool {
        self.0 < SIZE && self.1 < SIZE
    }

    /// Row-major number of the cell, in `[0, 16)` for a valid point.
    pub open spec fn cell(self) -> int {
        self.0 * 4 + self.1
    }

    /// Row-major number of the cell.
    pub fn index(&self) -> (r: usize)
        requires
            self.valid(),
        ensures
            r == self.cell(),
            r < CELLS,
    {
        self.0 * SIZE + self.1
    }

    /// Componentwise addition modulo the grid size.
    pub fn add(self, other: Point) -> (r: Point)
        requires
            self.valid(),
            other.valid(),
        ensures
            r == Point(((self.0 + other.0) % 4) as usize, ((self.1 + other.1) % 4) as usize),
            r.valid(),
    {
        Point((self.0 + other.0) % SIZE, (self.1 + other.1) % SIZE)
    }

    /// The four orthogonal neighbours, wrapping at the edges.
    pub fn neighbors(&self) -> (r: [Point; 4])
        requires
            self.valid(),
        ensures
            forall|k: int| 0 <= k < 4 ==> #[trigger] r@[k] == step(*self, k) && r@[k].valid(),
    {
        [
            self.add(Point(1, 0)),
            self.add(Point(SIZE - 1, 0)),
            self.add(Point(0, 1)),
            self.add(Point(0, SIZE - 1)),
        ]
    }
}

} // verus!
