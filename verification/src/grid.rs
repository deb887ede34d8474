//! The grid: a square table of tile labels and point values.

use vstd::prelude::*;

verus! {

/// Sum of the first `n` entries of `values`.
pub open spec fn prefix_sum(values: Seq<u32>, n: nat) -> int
    decreases n,
{
    if n == 0 {
        0
    } else {
        prefix_sum(values, (n - 1) as nat) + values[n - 1] as int
    }
}

/// Prefix sums grow with the prefix.
pub proof fn lemma_prefix_sum_monotone(values: Seq<u32>, m: nat, n: nat)
    requires
        m <= n,
    ensures
        prefix_sum(values, m) <= prefix_sum(values, n),
    decreases n,
{
    if m < n {
        lemma_prefix_sum_monotone(values, m, (n - 1) as nat);
    }
}

/// What a grid is, mathematically: its side length and its two tables in
/// row-major order.
pub ghost struct GridView {
    pub side: nat,
    pub tiles: Seq<u32>,
    pub values: Seq<u32>,
}

impl GridView {
    /// Number of cells.
    pub open spec fn cells(self) -> nat {
        self.side * self.side
    }

    /// Both tables have one entry per cell, and the values of all cells
    /// together fit in a `u32`, so that no walk's score can overflow.
    pub open spec fn wf(self) -> bool {
        &&& self.tiles.len() == self.cells()
        &&& self.values.len() == self.cells()
        &&& self.cells() <= usize::MAX
        &&& prefix_sum(self.values, self.cells()) <= u32::MAX
    }

    /// Whether `(row, col)` names a cell of the grid.
    pub open spec fn inside(self, p: (int, int)) -> bool {
        0 <= p.0 < self.side && 0 <= p.1 < self.side
    }

    /// Row-major index of a cell.
    pub open spec fn index(self, p: (int, int)) -> int {
        p.0 * self.side + p.1
    }

    /// Tile label of a cell.
    pub open spec fn tile(self, p: (int, int)) -> u32 {
        self.tiles[self.index(p)]
    }

    /// Point value of a cell.
    pub open spec fn value(self, p: (int, int)) -> int {
        self.values[self.index(p)] as int
    }
}

/// The index of a cell inside the grid is a valid table index.
pub proof fn lemma_index_in_bounds(side: nat, p: (int, int))
    requires
        0 <= p.0 < side,
        0 <= p.1 < side,
    ensures
        0 <= p.0 * side + p.1 < side * side,
{
    assert(p.0 * side + p.1 < side * side) by (nonlinear_arith)
        requires
            0 <= p.0 < side,
            0 <= p.1 < side,
    ;
    assert(0 <= p.0 * side) by (nonlinear_arith)
        requires
            0 <= p.0,
            0 <= side,
    ;
}

/// Why a pair of tables is not a grid.
#[derive(Clone, Copy, Debug, PartialEq, Eq)]
pub enum GridError {
    /// A table does not hold exactly `side * side` entries.
    LengthMismatch,
    /// The values of all cells together exceed `u32::MAX`.
    ValueOverflow,
}

/// An immutable square grid of tile labels and point values.
#[derive(Debug)]
pub struct Grid {
    side: usize,
    tiles: Vec<u32>,
    values: Vec<u32>,
}

impl View for Grid {
    type V = GridView;

    closed spec fn view(&self) -> GridView {
        GridView { side: self.side as nat, tiles: self.tiles@, values: self.values@ }
    }
}

/// Row-major index of the cell `pos` in a grid of the given side length.
pub fn to_pos(side: usize, pos: (usize, usize)) -> (index: usize)
    requires
        pos.0 < side,
        pos.1 < side,
        side * side <= usize::MAX,
    ensures
        index == pos.0 * side + pos.1,
        index < side * side,
{
    proof {
        lemma_index_in_bounds(side as nat, (pos.0 as int, pos.1 as int));
    }
    pos.0 * side + pos.1
}

impl Grid {
    /// Builds a grid from its side length and its two row-major tables.
    ///
    /// The tables are rejected when either does not hold exactly
    /// `side * side` entries, and otherwise when the values sum to more than
    /// `u32::MAX`.
    pub fn new(side: usize, tiles: Vec<u32>, values: Vec<u32>) -> (result: Result<Grid, GridError>)
        ensures
            match result {
                Ok(grid) => {
                    &&& grid@ == (GridView { side: side as nat, tiles: tiles@, values: values@ })
                    &&& grid@.wf()
                },
                Err(GridError::LengthMismatch) => {
                    tiles@.len() != side * side || values@.len() != side * side
                },
                Err(GridError::ValueOverflow) => {
                    &&& tiles@.len() == side * side
                    &&& values@.len() == side * side
                    &&& prefix_sum(values@, values@.len()) > u32::MAX
                },
            },
    {
        let tile_count = tiles.len();
        let value_count = values.len();
        let cells = match side.checked_mul(side) {
            Some(cells) => cells,
            None => {
                return Err(GridError::LengthMismatch);
            },
        };
        if tile_count != cells || value_count != cells {
            return Err(GridError::LengthMismatch);
        }
        let mut sum: u64 = 0;
        let mut i: usize = 0;
        while i < values.len()
            invariant
                i <= values.len(),
                tiles@.len() == side * side,
                values@.len() == side * side,
                sum == prefix_sum(values@, i as nat),
                sum <= u32::MAX,
            decreases values.len() - i,
        {
            sum = sum + values[i] as u64;
            i = i + 1;
            if sum > u32::MAX as u64 {
                proof {
                    lemma_prefix_sum_monotone(values@, i as nat, values@.len());
                }
                return Err(GridError::ValueOverflow);
            }
        }
        Ok(Grid { side, tiles, values })
    }

    /// Side length of the grid.
    pub fn side(&self) -> (side: usize)
        ensures
            side == self@.side,
    {
        self.side
    }

    /// Tile label of the cell `pos`.
    pub fn tile_type(&self, pos: (usize, usize)) -> (label: u32)
        requires
            self@.wf(),
            self@.inside((pos.0 as int, pos.1 as int)),
        ensures
            label == self@.tile((pos.0 as int, pos.1 as int)),
    {
        self.tiles[to_pos(self.side, pos)]
    }

    /// Point value of the cell `pos`.
    pub fn value(&self, pos: (usize, usize)) -> (reward: u32)
        requires
            self@.wf(),
            self@.inside((pos.0 as int, pos.1 as int)),
        ensures
            reward == self@.value((pos.0 as int, pos.1 as int)),
    {
        self.values[to_pos(self.side, pos)]
    }
}

} // verus!
