//! The grid, its cells, and the mathematical model that the engine's
//! contracts speak of.

use vstd::prelude::*;

use crate::GAME_SIZE;

verus! {

/// One of the two teams of a match. The first joiner plays `Red`.
#[derive(Clone, Copy, Debug, PartialEq, Eq, Structural)]
pub enum Colour {
    Red,
    Black,
}

/// The end of a row a piece was pushed in from, or `Win` on a cell that
/// belongs to the winning line.
#[derive(Clone, Copy, Debug, PartialEq, Eq, Structural)]
pub enum Direction {
    Left,
    Right,
    Win,
}

/// An occupied cell.
#[derive(Clone, Copy, Debug, PartialEq, Eq, Structural)]
pub struct Square {
    pub value: Colour,
    pub direction: Direction,
}

/// The board in row-major order; `None` is an empty cell.
pub type Squares = Vec<Vec<Option<Square>>>;

/// A row of the model.
pub type Row = Seq<Option<Square>>;

/// The model of a board: a sequence of rows.
pub type Grid = Seq<Seq<Option<Square>>>;

impl Colour {
    /// The other team.
    pub open spec fn spec_opponent(self) -> Colour {
        match self {
            Colour::Red => Colour::Black,
            Colour::Black => Colour::Red,
        }
    }

    /// The other team.
    #[verifier::when_used_as_spec(spec_opponent)]
    pub fn opponent(self) -> (other: Colour)
        ensures
            other == self.spec_opponent(),
    {
        match self {
            Colour::Red => Colour::Black,
            Colour::Black => Colour::Red,
        }
    }
}

/// The rows of `squares` as mathematical sequences.
pub open spec fn grid_of(squares: &Squares) -> Grid {
    Seq::new(squares@.len(), |i: int| squares@[i]@)
}

/// A grid of exactly `GAME_SIZE` rows of `GAME_SIZE` cells each.
pub open spec fn well_formed(grid: Grid) -> bool {
    &&& grid.len() == GAME_SIZE
    &&& forall|i: int| 0 <= i < GAME_SIZE ==> (#[trigger] grid[i]).len() == GAME_SIZE
}

/// The grid with no piece on it.
pub open spec fn empty_grid() -> Grid {
    Seq::new(GAME_SIZE as nat, |i: int| Seq::new(GAME_SIZE as nat, |j: int| None::<Square>))
}

/// `1` if the cell holds a piece of `colour`, else `0`.
pub open spec fn cell_count(cell: Option<Square>, colour: Colour) -> nat {
    match cell {
        Some(square) => if square.value == colour { 1 } else { 0 },
        None => 0,
    }
}

/// Number of pieces of `colour` in a row.
pub open spec fn row_count(row: Row, colour: Colour) -> nat
    decreases row.len(),
{
    if row.len() == 0 {
        0
    } else {
        row_count(row.drop_last(), colour) + cell_count(row.last(), colour)
    }
}

/// Number of pieces of `colour` on the whole grid.
pub open spec fn grid_count(grid: Grid, colour: Colour) -> nat
    decreases grid.len(),
{
    if grid.len() == 0 {
        0
    } else {
        grid_count(grid.drop_last(), colour) + row_count(grid.last(), colour)
    }
}

/// Number of cells of the grid, occupied or not.
pub open spec fn grid_cells(grid: Grid) -> nat
    decreases grid.len(),
{
    if grid.len() == 0 {
        0
    } else {
        grid_cells(grid.drop_last()) + grid.last().len()
    }
}

/// Number of occupied cells on the grid.
pub open spec fn pieces(grid: Grid) -> nat {
    grid_count(grid, Colour::Red) + grid_count(grid, Colour::Black)
}

/// A row never holds more pieces than cells.
pub proof fn lemma_row_count_bound(row: Row)
    ensures
        row_count(row, Colour::Red) + row_count(row, Colour::Black) <= row.len(),
    decreases row.len(),
{
    if row.len() > 0 {
        lemma_row_count_bound(row.drop_last());
    }
}

/// A grid never holds more pieces than cells.
pub proof fn lemma_grid_count_bound(grid: Grid)
    ensures
        pieces(grid) <= grid_cells(grid),
    decreases grid.len(),
{
    if grid.len() > 0 {
        lemma_grid_count_bound(grid.drop_last());
        lemma_row_count_bound(grid.last());
    }
}

/// Filling an empty cell of a row adds one piece of the placed colour and
/// none of the other.
pub proof fn lemma_row_count_fill(row: Row, j: int, square: Square, colour: Colour)
    requires
        0 <= j < row.len(),
        row[j] is None,
    ensures
        row_count(row.update(j, Some(square)), colour) == row_count(row, colour) + (if square.value
            == colour {
            1nat
        } else {
            0nat
        }),
    decreases row.len(),
{
    let filled = row.update(j, Some(square));
    if j == row.len() - 1 {
        assert(filled.drop_last() =~= row.drop_last());
    } else {
        assert(filled.drop_last() =~= row.drop_last().update(j, Some(square)));
        lemma_row_count_fill(row.drop_last(), j, square, colour);
    }
}

/// Replacing one row of a grid changes the grid's count by the change in
/// that row.
pub proof fn lemma_grid_count_replace_row(grid: Grid, i: int, row: Row, colour: Colour)
    requires
        0 <= i < grid.len(),
    ensures
        grid_count(grid.update(i, row), colour) + row_count(grid[i], colour) == grid_count(
            grid,
            colour,
        ) + row_count(row, colour),
    decreases grid.len(),
{
    let replaced = grid.update(i, row);
    if i == grid.len() - 1 {
        assert(replaced.drop_last() =~= grid.drop_last());
    } else {
        assert(replaced.drop_last() =~= grid.drop_last().update(i, row));
        lemma_grid_count_replace_row(grid.drop_last(), i, row, colour);
    }
}

/// A well-formed grid has `GAME_SIZE * GAME_SIZE` cells.
pub proof fn lemma_well_formed_cells(grid: Grid)
    requires
        well_formed(grid),
    ensures
        grid_cells(grid) == GAME_SIZE * GAME_SIZE,
{
    lemma_cells_of_uniform(grid, GAME_SIZE as nat);
}

/// A grid whose rows all have `width` cells has `len * width` cells.
pub proof fn lemma_cells_of_uniform(grid: Grid, width: nat)
    requires
        forall|i: int| 0 <= i < grid.len() ==> (#[trigger] grid[i]).len() == width,
    ensures
        grid_cells(grid) == grid.len() * width,
    decreases grid.len(),
{
    if grid.len() > 0 {
        lemma_cells_of_uniform(grid.drop_last(), width);
        assert(grid.len() * width == (grid.len() - 1) * width + width) by (nonlinear_arith);
    }
}

/// A row of empty cells holds no piece.
pub proof fn lemma_empty_row_count(row: Row, colour: Colour)
    requires
        forall|j: int| 0 <= j < row.len() ==> (#[trigger] row[j]) is None,
    ensures
        row_count(row, colour) == 0,
    decreases row.len(),
{
    if row.len() > 0 {
        lemma_empty_row_count(row.drop_last(), colour);
    }
}

/// A grid of rows of empty cells holds no piece.
pub proof fn lemma_empty_grid_count(grid: Grid, colour: Colour)
    requires
        forall|i: int, j: int|
            0 <= i < grid.len() && 0 <= j < grid[i].len() ==> (#[trigger] grid[i][j]) is None,
    ensures
        grid_count(grid, colour) == 0,
    decreases grid.len(),
{
    if grid.len() > 0 {
        assert forall|i: int, j: int|
            0 <= i < grid.drop_last().len() && 0 <= j < grid.drop_last()[i].len() implies (
        #[trigger] grid.drop_last()[i][j]) is None by {
            assert(grid[i][j] is None);
        }
        lemma_empty_grid_count(grid.drop_last(), colour);
        let last = grid.last();
        assert forall|j: int| 0 <= j < last.len() implies (#[trigger] last[j]) is None by {
            assert(grid[grid.len() - 1][j] is None);
        }
        lemma_empty_row_count(last, colour);
    }
}

/// A board of `GAME_SIZE` by `GAME_SIZE` empty cells.
pub fn empty_board() -> (squares: Squares)
    ensures
        grid_of(&squares) == empty_grid(),
        well_formed(grid_of(&squares)),
{
    let mut squares: Squares = Vec::new();
    let mut i: usize = 0;
    while i < GAME_SIZE
        invariant
            i <= GAME_SIZE,
            squares@.len() == i,
            forall|r: int|
                0 <= r < i ==> (#[trigger] squares@[r])@ == Seq::new(
                    GAME_SIZE as nat,
                    |j: int| None::<Square>,
                ),
        decreases GAME_SIZE - i,
    {
        let mut row: Vec<Option<Square>> = Vec::new();
        let mut j: usize = 0;
        while j < GAME_SIZE
            invariant
                j <= GAME_SIZE,
                row@.len() == j,
                forall|c: int| 0 <= c < j ==> (#[trigger] row@[c]) is None,
            decreases GAME_SIZE - j,
        {
            row.push(None);
            j += 1;
        }
        assert(row@ =~= Seq::new(GAME_SIZE as nat, |j: int| None::<Square>));
        squares.push(row);
        i += 1;
    }
    assert(grid_of(&squares) =~= empty_grid());
    squares
}

/// A copy of the board, cell for cell.
pub fn copy_board(squares: &Squares) -> (copy: Squares)
    ensures
        grid_of(&copy) == grid_of(squares),
{
    let mut copy: Squares = Vec::new();
    let mut i: usize = 0;
    while i < squares.len()
        invariant
            i <= squares@.len(),
            copy@.len() == i,
            forall|r: int| 0 <= r < i ==> (#[trigger] copy@[r])@ == squares@[r]@,
        decreases squares@.len() - i,
    {
        let mut row: Vec<Option<Square>> = Vec::new();
        let mut j: usize = 0;
        while j < squares[i].len()
            invariant
                i < squares@.len(),
                j <= squares@[i as int]@.len(),
                row@.len() == j,
                forall|c: int| 0 <= c < j ==> (#[trigger] row@[c]) == squares@[i as int]@[c],
            decreases squares@[i as int]@.len() - j,
        {
            row.push(squares[i][j]);
            j += 1;
        }
        assert(row@ =~= squares@[i as int]@);
        copy.push(row);
        i += 1;
    }
    assert(grid_of(&copy) =~= grid_of(squares));
    copy
}

/// Whether the board is a grid of `GAME_SIZE` rows of `GAME_SIZE` cells.
pub fn is_well_formed(squares: &Squares) -> (ok: bool)
    ensures
        ok == well_formed(grid_of(squares)),
{
    if squares.len() != GAME_SIZE {
        return false;
    }
    let mut i: usize = 0;
    while i < GAME_SIZE
        invariant
            i <= GAME_SIZE,
            squares@.len() == GAME_SIZE,
            forall|r: int| 0 <= r < i ==> (#[trigger] grid_of(squares)[r]).len() == GAME_SIZE,
        decreases GAME_SIZE - i,
    {
        if squares[i].len() != GAME_SIZE {
            assert(grid_of(squares)[i as int].len() != GAME_SIZE);
            return false;
        }
        assert(grid_of(squares)[i as int].len() == GAME_SIZE);
        i += 1;
    }
    true
}

} // verus!
