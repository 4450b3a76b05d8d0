use crate::constraint::{X_LENGTH, Y_LENGTH, Y_STORE};
use vstd::prelude::*;

verus! {

/// The settled-cell grid: one occupancy flag per stored cell, row-major with
/// row 0 at the bottom. It is the single source of truth for locked cells;
/// the falling piece is not recorded here until it locks.
pub struct Board {
    grid: Vec<bool>,
}

impl Board {
    /// The grid holds exactly one flag for each stored cell.
    pub closed spec fn wf(self) -> bool {
        self.grid@.len() == (Y_STORE * X_LENGTH) as int
    }

    /// Occupancy of the cell at `(x, y)`; positions outside the stored range
    /// read as empty.
    pub closed spec fn occupied(self, x: int, y: int) -> bool {
        &&& 0 <= x < X_LENGTH as int
        &&& 0 <= y < Y_STORE as int
        &&& self.grid@[y * X_LENGTH as int + x]
    }

    /// A fully unoccupied board.
    pub fn new() -> (b: Board)
        ensures
            b.wf(),
            forall|x: int, y: int| !b.occupied(x, y),
    {
        let n: usize = (Y_STORE * X_LENGTH) as usize;
        let mut grid: Vec<bool> = Vec::new();
        let mut i: usize = 0;
        while i < n
            invariant
                i <= n,
                n == (Y_STORE * X_LENGTH) as int,
                grid@.len() == i as int,
                forall|j: int| 0 <= j < i as int ==> !grid@[j],
            decreases n - i,
        {
            grid.push(false);
            i += 1;
        }
        Board { grid }
    }

    /// Reinitializes every cell to unoccupied.
    pub fn reset(&mut self)
        ensures
            final(self).wf(),
            forall|x: int, y: int| !final(self).occupied(x, y),
    {
        *self = Board::new();
    }

    /// Reads the occupancy flag at `(x, y)`.
    pub fn is_occupied(&self, x: i32, y: i32) -> (r: bool)
        requires
            self.wf(),
            0 <= x as int && (x as int) < (X_LENGTH as int),
            0 <= y as int && (y as int) < (Y_STORE as int),
        ensures
            r == self.occupied(x as int, y as int),
    {
        let idx: usize = (y as usize) * (X_LENGTH as usize) + (x as usize);
        self.grid[idx]
    }

    /// Writes the occupancy flag at `(x, y)`, leaving every other cell as it
    /// was.
    pub fn set(&mut self, x: i32, y: i32, value: bool)
        requires
            old(self).wf(),
            0 <= x as int && (x as int) < (X_LENGTH as int),
            0 <= y as int && (y as int) < (Y_STORE as int),
        ensures
            final(self).wf(),
            final(self).occupied(x as int, y as int) == value,
            forall|i: int, j: int|
                !(i == x as int && j == y as int) ==> final(self).occupied(i, j) == old(
                    self,
                ).occupied(i, j),
    {
        let idx: usize = (y as usize) * (X_LENGTH as usize) + (x as usize);
        self.grid.set(idx, value);
    }

    /// A row of the visible field is full when every column of it is
    /// occupied; only full rows are eligible for clearing.
    pub open spec fn row_full(self, y: int) -> bool {
        forall|x: int| 0 <= x < X_LENGTH as int ==> self.occupied(x, y)
    }

    /// Decides whether row `y` is full.
    pub fn row_is_full(&self, y: i32) -> (r: bool)
        requires
            self.wf(),
            0 <= y as int && (y as int) < (Y_LENGTH as int),
        ensures
            r == self.row_full(y as int),
    {
        let mut x: i32 = 0;
        while x < X_LENGTH as i32
            invariant
                self.wf(),
                0 <= y as int && (y as int) < (Y_LENGTH as int),
                0 <= x as int && (x as int) <= (X_LENGTH as int),
                forall|i: int| 0 <= i < x as int ==> self.occupied(i, y as int),
            decreases X_LENGTH as int - x as int,
        {
            if !self.is_occupied(x, y) {
                return false;
            }
            x += 1;
        }
        true
    }
}

} // verus!
