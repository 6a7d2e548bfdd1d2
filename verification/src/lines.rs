//! Windows of `WIN_LENGTH` cells, the order in which they are examined,
//! and what it means for one to win.

use vstd::prelude::*;

use crate::board::{well_formed, Colour, Direction, Grid, Square};
use crate::{GAME_SIZE, WIN_LENGTH};

verus! {

/// `WIN_LENGTH` cells in a line: cell `k` lies at row `row + k * dx` and
/// column `col + k * dy`.
pub struct Window {
    pub row: int,
    pub col: int,
    pub dx: int,
    pub dy: int,
}

/// Number of start positions along an axis from which a window that runs
/// along that axis still fits on the board.
pub open spec fn search_limit() -> int {
    GAME_SIZE - WIN_LENGTH + 1
}

impl Window {
    /// Row of the window's `k`-th cell.
    pub open spec fn cell_row(self, k: int) -> int {
        self.row + k * self.dx
    }

    /// Column of the window's `k`-th cell.
    pub open spec fn cell_col(self, k: int) -> int {
        self.col + k * self.dy
    }

    /// The window's `k`-th cell lies on the board.
    pub open spec fn cell_on_board(self, k: int) -> bool {
        &&& 0 <= self.cell_row(k) < GAME_SIZE
        &&& 0 <= self.cell_col(k) < GAME_SIZE
    }

    /// Every cell of the window lies on the board.
    pub open spec fn on_board(self) -> bool {
        forall|k: int| 0 <= k < WIN_LENGTH ==> #[trigger] self.cell_on_board(k)
    }

    /// The window's `k`-th cell is the cell at row `r`, column `c`.
    pub open spec fn cell_at(self, k: int, r: int, c: int) -> bool {
        self.cell_row(k) == r && self.cell_col(k) == c
    }

    /// One of the window's first `n` cells is the cell at row `r`, column `c`.
    pub open spec fn covers_upto(self, n: int, r: int, c: int) -> bool {
        exists|k: int| 0 <= k < n && #[trigger] self.cell_at(k, r, c)
    }

    /// The cell at row `r`, column `c` belongs to the window.
    pub open spec fn covers(self, r: int, c: int) -> bool {
        self.covers_upto(WIN_LENGTH as int, r, c)
    }

    /// Place of the window's direction in the scan: horizontal lines come
    /// first, then vertical ones, then diagonals, then anti-diagonals.
    pub open spec fn phase(self) -> int {
        if self.dx == 0 && self.dy == 1 {
            0
        } else if self.dx == 1 && self.dy == 0 {
            1
        } else if self.dx == 1 && self.dy == 1 {
            2
        } else {
            3
        }
    }

    /// The window is one of those the scan examines: it runs to the right,
    /// down, down and right, or down and left, and fits on the board.
    pub open spec fn in_scan(self) -> bool {
        ||| self.dx == 0 && self.dy == 1 && 0 <= self.row < GAME_SIZE && 0 <= self.col
            < search_limit()
        ||| self.dx == 1 && self.dy == 0 && 0 <= self.row < search_limit() && 0 <= self.col
            < GAME_SIZE
        ||| self.dx == 1 && self.dy == 1 && 0 <= self.row < search_limit() && 0 <= self.col
            < search_limit()
        ||| self.dx == 1 && self.dy == -1 && 0 <= self.row < search_limit() && WIN_LENGTH - 1
            <= self.col < GAME_SIZE
    }

    /// Position of the window in the scan: by direction first, then by the
    /// row of its first cell from the top, then by its column from the left.
    pub open spec fn scan_rank(self) -> int {
        self.phase() * (GAME_SIZE * GAME_SIZE) + self.row * GAME_SIZE + self.col
    }
}

/// Number of ranks the scan runs through.
pub open spec fn scan_end() -> int {
    4 * (GAME_SIZE * GAME_SIZE)
}

/// The window's `k`-th cell holds a piece of `colour`.
pub open spec fn cell_is(grid: Grid, w: Window, k: int, colour: Colour) -> bool {
    grid[w.cell_row(k)][w.cell_col(k)] matches Some(square) && square.value == colour
}

/// The colour that fills the whole window, if one does.
pub open spec fn window_colour(grid: Grid, w: Window) -> Option<Colour> {
    match grid[w.row][w.col] {
        Some(first) => if forall|k: int|
            0 <= k < WIN_LENGTH ==> #[trigger] cell_is(grid, w, k, first.value) {
            Some(first.value)
        } else {
            None
        },
        None => None,
    }
}

/// The cell with its marker overwritten by `Win`; an empty cell stays empty.
pub open spec fn won(cell: Option<Square>) -> Option<Square> {
    match cell {
        Some(square) => Some(Square { value: square.value, direction: Direction::Win }),
        None => None,
    }
}

/// The grid with the first `n` cells of the window marked `Win`.
pub open spec fn marked_upto(grid: Grid, w: Window, n: int) -> Grid {
    Seq::new(
        grid.len(),
        |r: int|
            Seq::new(
                grid[r].len(),
                |c: int|
                    if w.covers_upto(n, r, c) {
                        won(grid[r][c])
                    } else {
                        grid[r][c]
                    },
            ),
    )
}

/// The grid with every cell of the window marked `Win` and all other cells
/// as they were.
pub open spec fn marked(grid: Grid, w: Window) -> Grid {
    marked_upto(grid, w, WIN_LENGTH as int)
}

/// The scan examines `w`, and one colour fills it.
pub open spec fn wins(grid: Grid, w: Window) -> bool {
    w.in_scan() && window_colour(grid, w) is Some
}

/// No window that the scan examines before rank `bound` wins.
pub open spec fn no_win_before(grid: Grid, bound: int) -> bool {
    forall|v: Window| #[trigger] wins(grid, v) ==> v.scan_rank() >= bound
}

/// `w` wins, and no window before it in the scan does.
pub open spec fn is_first_win(grid: Grid, w: Window) -> bool {
    wins(grid, w) && no_win_before(grid, w.scan_rank())
}

/// Some window of the scan wins.
pub open spec fn has_win(grid: Grid) -> bool {
    exists|w: Window| wins(grid, w)
}

/// The winning window that the scan meets first, where one wins.
pub open spec fn first_win(grid: Grid) -> Window {
    choose|w: Window| is_first_win(grid, w)
}

/// The winner: the colour of the first winning window in scan order, or
/// nobody when no window wins.
pub open spec fn winner_of(grid: Grid) -> Option<Colour> {
    if has_win(grid) {
        window_colour(grid, first_win(grid))
    } else {
        None
    }
}

/// The grid after detection: the cells of the first winning window are
/// marked `Win`; without a winner the grid is as it was.
pub open spec fn marked_board(grid: Grid) -> Grid {
    if has_win(grid) {
        marked(grid, first_win(grid))
    } else {
        grid
    }
}

/// A window of the scan lies on the board.
pub proof fn lemma_in_scan_on_board(w: Window)
    requires
        w.in_scan(),
    ensures
        w.on_board(),
{
    assert forall|k: int| 0 <= k < WIN_LENGTH implies #[trigger] w.cell_on_board(k) by {
        assert(k * 0 == 0);
        assert(k * 1 == k);
        assert(k * (-1) == -k);
    }
}

/// Two windows of the scan at the same rank are the same window.
pub proof fn lemma_rank_injective(v: Window, w: Window)
    requires
        v.in_scan(),
        w.in_scan(),
        v.scan_rank() == w.scan_rank(),
    ensures
        v == w,
{
}

/// Every window of the scan has a rank from `0` up to `scan_end()`.
pub proof fn lemma_rank_range(w: Window)
    requires
        w.in_scan(),
    ensures
        0 <= w.scan_rank() < scan_end(),
{
}

/// Where `w` is the first winning window, it decides the winner and the
/// marks.
pub proof fn lemma_first_win_decides(grid: Grid, w: Window)
    requires
        is_first_win(grid, w),
    ensures
        has_win(grid),
        first_win(grid) == w,
        winner_of(grid) == window_colour(grid, w),
        winner_of(grid) is Some,
        marked_board(grid) == marked(grid, w),
{
    let v = first_win(grid);
    assert(is_first_win(grid, v));
    assert(wins(grid, v) && wins(grid, w));
    lemma_rank_injective(v, w);
}

/// Where no window wins up to the end of the scan, there is no winner and
/// the grid keeps its marks.
pub proof fn lemma_no_win(grid: Grid)
    requires
        no_win_before(grid, scan_end()),
    ensures
        !has_win(grid),
        winner_of(grid) is None,
        marked_board(grid) == grid,
{
    if has_win(grid) {
        let w = choose|w: Window| wins(grid, w);
        lemma_rank_range(w);
    }
}

/// Marking keeps the board's shape.
pub proof fn lemma_marked_well_formed(grid: Grid, w: Window)
    requires
        well_formed(grid),
    ensures
        well_formed(marked(grid, w)),
        well_formed(marked_board(grid)),
{
    let m = marked(grid, w);
    assert forall|i: int| 0 <= i < GAME_SIZE implies (#[trigger] m[i]).len() == GAME_SIZE by {
        assert(grid[i].len() == GAME_SIZE);
    }
    let f = marked(grid, first_win(grid));
    assert forall|i: int| 0 <= i < GAME_SIZE implies (#[trigger] f[i]).len() == GAME_SIZE by {
        assert(grid[i].len() == GAME_SIZE);
    }
}

/// The scan runs through the directions in the order horizontal, vertical,
/// diagonal, anti-diagonal, and within one direction by rows from the top
/// and in each row from the left.
pub proof fn lemma_scan_order(v: Window, w: Window)
    requires
        v.in_scan(),
        w.in_scan(),
    ensures
        v.scan_rank() < w.scan_rank() <==> (v.phase() < w.phase() || (v.phase() == w.phase() && (
        v.row < w.row || (v.row == w.row && v.col < w.col)))),
        v.phase() == 0 <==> (v.dx == 0 && v.dy == 1),
        v.phase() == 1 <==> (v.dx == 1 && v.dy == 0),
        v.phase() == 2 <==> (v.dx == 1 && v.dy == 1),
        v.phase() == 3 <==> (v.dx == 1 && v.dy == -1),
{
}

/// Among the winning windows with a rank below `bound` there is a first.
proof fn lemma_least_win(grid: Grid, bound: int) -> (w: Window)
    requires
        exists|v: Window| wins(grid, v) && v.scan_rank() < bound,
    ensures
        is_first_win(grid, w),
    decreases bound,
{
    let v = choose|v: Window| wins(grid, v) && v.scan_rank() < bound;
    lemma_rank_range(v);
    if exists|u: Window| wins(grid, u) && u.scan_rank() < bound - 1 {
        lemma_least_win(grid, bound - 1)
    } else {
        assert forall|u: Window| #[trigger] wins(grid, u) implies u.scan_rank()
            >= v.scan_rank() by {
            if u.scan_rank() < bound - 1 {
                assert(wins(grid, u) && u.scan_rank() < bound - 1);
            }
        }
        v
    }
}

/// Where a window wins, `first_win` is the winning window that the scan
/// meets first.
pub proof fn lemma_first_win_exists(grid: Grid)
    requires
        has_win(grid),
    ensures
        is_first_win(grid, first_win(grid)),
{
    let v = choose|v: Window| wins(grid, v);
    lemma_rank_range(v);
    let w = lemma_least_win(grid, scan_end());
    assert(is_first_win(grid, w));
}

/// On a board with two simultaneous winning lines, the reported colour is
/// that of the line the scan meets first: where `first` and `second` both
/// win, `first` comes earlier in the scan and nothing before it wins, the
/// winner is the colour of `first`, whatever the colour of `second`.
pub proof fn lemma_winner_follows_scan_order(grid: Grid, first: Window, second: Window)
    requires
        wins(grid, first),
        wins(grid, second),
        first.scan_rank() < second.scan_rank(),
        no_win_before(grid, first.scan_rank()),
    ensures
        winner_of(grid) == window_colour(grid, first),
        marked_board(grid) == marked(grid, first),
{
    lemma_first_win_decides(grid, first);
}

/// The winner is `None` exactly when no window of the scan is filled by one
/// colour; a winner is the colour of a window that no winning window
/// precedes.
pub proof fn lemma_winner_of(grid: Grid)
    ensures
        winner_of(grid) is None <==> forall|w: Window| !wins(grid, w),
        winner_of(grid) is Some ==> is_first_win(grid, first_win(grid)),
{
    if has_win(grid) {
        lemma_first_win_exists(grid);
    }
}

/// The colour of the piece in a cell, whatever its marker.
pub open spec fn colour_of(cell: Option<Square>) -> Option<Colour> {
    match cell {
        Some(square) => Some(square.value),
        None => None,
    }
}

/// Two grids of the same shape that hold the same colours in the same
/// cells, whatever the markers.
pub open spec fn same_colours(a: Grid, b: Grid) -> bool {
    &&& a.len() == b.len()
    &&& forall|r: int| 0 <= r < a.len() ==> (#[trigger] a[r]).len() == b[r].len()
    &&& forall|r: int, c: int|
        0 <= r < a.len() && 0 <= c < a[r].len() ==> colour_of(#[trigger] a[r][c]) == colour_of(
            b[r][c],
        )
}

/// Marking changes no colour.
pub proof fn lemma_marked_same_colours(grid: Grid, w: Window)
    ensures
        same_colours(marked(grid, w), grid),
        same_colours(marked_board(grid), grid),
{
    let m = marked(grid, w);
    assert(same_colours(m, grid));
    let f = marked(grid, first_win(grid));
    assert(same_colours(f, grid));
}

/// Detection looks at colours only: grids that agree on them have the same
/// winning windows.
pub proof fn lemma_same_colours_same_wins(a: Grid, b: Grid)
    requires
        well_formed(a),
        same_colours(a, b),
    ensures
        forall|w: Window| wins(a, w) == wins(b, w),
        has_win(a) == has_win(b),
        has_win(a) ==> first_win(a) == first_win(b),
        winner_of(a) == winner_of(b),
{
    assert forall|w: Window| wins(a, w) == wins(b, w) by {
        if w.in_scan() {
            lemma_window_colour_same(a, b, w);
        }
    }
    if has_win(a) {
        let v = choose|v: Window| wins(a, v);
        assert(wins(b, v));
        lemma_first_win_exists(a);
        let w = first_win(a);
        assert(is_first_win(b, w));
        lemma_first_win_decides(b, w);
        lemma_window_colour_same(a, b, w);
    } else if has_win(b) {
        let v = choose|v: Window| wins(b, v);
        assert(wins(a, v));
    }
}

/// A window of the scan is filled by the same colour, or by none, on grids
/// that agree on colours.
proof fn lemma_window_colour_same(a: Grid, b: Grid, w: Window)
    requires
        well_formed(a),
        same_colours(a, b),
        w.in_scan(),
    ensures
        window_colour(a, w) == window_colour(b, w),
{
    lemma_in_scan_on_board(w);
    assert(w.cell_on_board(0));
    assert(colour_of(a[w.row][w.col]) == colour_of(b[w.row][w.col]));
    assert forall|k: int, colour: Colour| 0 <= k < WIN_LENGTH implies cell_is(a, w, k, colour)
        == cell_is(b, w, k, colour) by {
        assert(w.cell_on_board(k));
        let r = w.cell_row(k);
        let c = w.cell_col(k);
        assert(a[r].len() == GAME_SIZE);
        assert(colour_of(a[r][c]) == colour_of(b[r][c]));
    }
    match a[w.row][w.col] {
        Some(first) => {
            let colour = first.value;
            if forall|k: int| 0 <= k < WIN_LENGTH ==> #[trigger] cell_is(a, w, k, colour) {
                assert forall|k: int| 0 <= k < WIN_LENGTH implies #[trigger] cell_is(
                    b,
                    w,
                    k,
                    colour,
                ) by {
                    assert(cell_is(a, w, k, colour));
                }
            } else {
                let k = choose|k: int| 0 <= k < WIN_LENGTH && !cell_is(a, w, k, colour);
                assert(!cell_is(b, w, k, colour));
            }
        },
        None => {},
    }
}

/// Detection is repeatable: run again on its own result, with no move in
/// between, it reports the same winner and leaves the same marks.
pub proof fn lemma_detection_idempotent(grid: Grid)
    requires
        well_formed(grid),
    ensures
        winner_of(marked_board(grid)) == winner_of(grid),
        marked_board(marked_board(grid)) == marked_board(grid),
{
    let once = marked_board(grid);
    lemma_marked_same_colours(grid, first_win(grid));
    lemma_marked_well_formed(grid, first_win(grid));
    lemma_same_colours_same_wins(once, grid);
    if has_win(grid) {
        let w = first_win(grid);
        assert(marked(once, w) =~~= once);
    }
}

/// A board that is written down and read back has the winner and the marks
/// it had, whatever the way of writing it down, as long as reading back
/// what was written returns the cells as they were.
pub proof fn lemma_round_trip_keeps_winner<T>(
    grid: Grid,
    encode: spec_fn(Grid) -> T,
    decode: spec_fn(T) -> Grid,
)
    requires
        decode(encode(grid)) == grid,
    ensures
        winner_of(decode(encode(grid))) == winner_of(grid),
        marked_board(decode(encode(grid))) == marked_board(grid),
{
}

/// Even a way of writing a board down that keeps only the colours, and
/// loses the markers, keeps the winner.
pub proof fn lemma_colours_keep_winner<T>(
    grid: Grid,
    encode: spec_fn(Grid) -> T,
    decode: spec_fn(T) -> Grid,
)
    requires
        well_formed(grid),
        same_colours(grid, decode(encode(grid))),
    ensures
        winner_of(decode(encode(grid))) == winner_of(grid),
{
    lemma_same_colours_same_wins(grid, decode(encode(grid)));
}

} // verus!
