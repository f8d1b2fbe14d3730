//! The playing field: which cells of the grid are in play, and how far apart two cells are.

use crate::positions::{adjacent, cell_distance, on_grid, reachable, Positions, CELLS};
use vstd::prelude::*;

verus! {

/// The cells that are in play. A board never changes once it is made.
#[derive(Clone, Copy, Debug, PartialEq, Eq, Structural)]
pub struct Board {
    cells: Positions,
}

impl View for Board {
    type V = Set<int>;

    closed spec fn view(&self) -> Set<int> {
        self.cells@
    }
}

impl Default for Board {
    /// The board on which every cell of the grid is in play.
    fn default() -> (b: Board)
        ensures
            b@ == Set::new(|i: int| on_grid(i)),
    {
        Board { cells: Positions::full() }
    }
}

impl Board {
    /// Every cell in play is a cell of the grid.
    pub proof fn lemma_on_grid(self)
        ensures
            forall|i: int| self@.contains(i) ==> on_grid(i),
            self@.finite(),
            self@.len() <= 64,
    {
        self.cells.lemma_on_grid();
    }

    /// Two boards with the same cells in play are the same value.
    pub proof fn lemma_same_board(self, other: Board)
        requires
            self@ == other@,
        ensures
            self == other,
    {
        self.cells.lemma_same_cells(other.cells);
    }

    /// The board whose cells in play are `cells`.
    pub fn new(cells: Positions) -> (b: Board)
        ensures
            b@ == cells@,
    {
        Board { cells }
    }

    /// The cells in play.
    pub fn cells(&self) -> (p: Positions)
        ensures
            p@ == self@,
    {
        self.cells
    }

    /// Whether `cell` is in play.
    pub fn in_play(&self, cell: u8) -> (b: bool)
        ensures
            b == self@.contains(cell as int),
    {
        self.cells.contains(cell)
    }

    /// Whether a blob on `from` can duplicate itself onto `to`: the two cells touch.
    pub fn is_adjacent(from: u8, to: u8) -> (b: bool)
        ensures
            b == adjacent(from as int, to as int),
    {
        from < CELLS && to < CELLS && cell_distance(from, to) == 1
    }

    /// Whether a blob on `from` can jump onto `to`: one cell lies between the two.
    pub fn is_reachable(from: u8, to: u8) -> (b: bool)
        ensures
            b == reachable(from as int, to as int),
    {
        from < CELLS && to < CELLS && cell_distance(from, to) == 2
    }

    /// The cells of the grid that touch `cell`.
    pub fn neighbours(cell: u8) -> (p: Positions)
        requires
            cell < CELLS,
        ensures
            p@ == Set::new(|i: int| adjacent(i, cell as int)),
    {
        let mut p = Positions::empty();
        let mut other: u8 = 0;
        while other < CELLS
            invariant
                cell < CELLS,
                other <= CELLS,
                p@ == Set::new(|i: int| i < other && adjacent(i, cell as int)),
            decreases CELLS - other,
        {
            if cell_distance(other, cell) == 1 {
                p = p.with(other);
            }
            other = other + 1;
            assert(p@ =~= Set::new(|i: int| i < other && adjacent(i, cell as int)));
        }
        assert(p@ =~= Set::new(|i: int| adjacent(i, cell as int)));
        p
    }
}

} // verus!
