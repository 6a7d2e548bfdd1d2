//! The board engine: placement, whose turn it is, and win detection.

use vstd::prelude::*;

use crate::board::{
    empty_grid, grid_count, grid_of, lemma_empty_grid_count, lemma_grid_count_bound,
    lemma_grid_count_replace_row, lemma_row_count_fill, lemma_well_formed_cells, pieces,
    row_count, well_formed, Colour, Direction, Grid, Row, Square, Squares,
};
use crate::lines::{
    cell_is, has_win, is_first_win, lemma_first_win_decides, lemma_in_scan_on_board,
    lemma_no_win, lemma_rank_injective, lemma_rank_range, marked, marked_board, marked_upto,
    no_win_before, window_colour, winner_of, wins, Window,
};
use crate::ws::Play;
use crate::{GAME_SIZE, WIN_LENGTH};

verus! {

/// Why the engine refused a move.
#[derive(Clone, Copy, Debug, PartialEq, Eq, Structural)]
pub enum EngineError {
    /// The row is not on the board, or the side is not an end of a row.
    InvalidInput,
}

/// `j` is the empty cell of `row` nearest to its left end.
pub open spec fn is_leftmost_empty(row: Row, j: int) -> bool {
    &&& 0 <= j < row.len()
    &&& row[j] is None
    &&& forall|k: int| 0 <= k < j ==> (#[trigger] row[k]) is Some
}

/// `j` is the empty cell of `row` nearest to its right end.
pub open spec fn is_rightmost_empty(row: Row, j: int) -> bool {
    &&& 0 <= j < row.len()
    &&& row[j] is None
    &&& forall|k: int| j < k < row.len() ==> (#[trigger] row[k]) is Some
}

/// No cell of the row is empty.
pub open spec fn row_full(row: Row) -> bool {
    forall|k: int| 0 <= k < row.len() ==> (#[trigger] row[k]) is Some
}

/// The cell a piece pushed in from `side` comes to rest in: the first empty
/// cell met when walking the row from that end. `None` when the row is full
/// or `side` is not an end of a row.
pub open spec fn target_slot(row: Row, side: Direction) -> Option<int> {
    match side {
        Direction::Left => if exists|j: int| is_leftmost_empty(row, j) {
            Some(choose|j: int| is_leftmost_empty(row, j))
        } else {
            None
        },
        Direction::Right => if exists|j: int| is_rightmost_empty(row, j) {
            Some(choose|j: int| is_rightmost_empty(row, j))
        } else {
            None
        },
        Direction::Win => None,
    }
}

/// The grid after `player` pushes a piece into row `row` from `side`. The
/// grid is unchanged when nobody is to move, when the row is full, and when
/// `side` is not an end of a row.
pub open spec fn placed(grid: Grid, player: Option<Colour>, row: int, side: Direction) -> Grid {
    match (player, target_slot(grid[row], side)) {
        (Some(colour), Some(j)) => grid.update(
            row,
            grid[row].update(j, Some(Square { value: colour, direction: side })),
        ),
        _ => grid,
    }
}

/// The leftmost empty cell is the target of a push from the left.
pub proof fn lemma_target_left(row: Row, j: int)
    requires
        is_leftmost_empty(row, j),
    ensures
        target_slot(row, Direction::Left) == Some(j),
{
    let chosen = choose|j: int| is_leftmost_empty(row, j);
    assert(is_leftmost_empty(row, chosen));
    if chosen < j {
        assert(row[chosen] is Some);
    } else if j < chosen {
        assert(row[j] is Some);
    }
}

/// The rightmost empty cell is the target of a push from the right.
pub proof fn lemma_target_right(row: Row, j: int)
    requires
        is_rightmost_empty(row, j),
    ensures
        target_slot(row, Direction::Right) == Some(j),
{
    let chosen = choose|j: int| is_rightmost_empty(row, j);
    assert(is_rightmost_empty(row, chosen));
    if chosen < j {
        assert(row[j] is Some);
    } else if j < chosen {
        assert(row[chosen] is Some);
    }
}

/// A push finds a target exactly when it comes from an end of a row that
/// is not full, and the target is an empty cell of the row.
pub proof fn lemma_target_slot(row: Row, side: Direction)
    ensures
        target_slot(row, side) is None <==> (side == Direction::Win || row_full(row)),
        target_slot(row, side) matches Some(j) ==> 0 <= j < row.len() && row[j] is None,
        side == Direction::Left ==> (target_slot(row, side) matches Some(j) ==> is_leftmost_empty(
            row,
            j,
        )),
        side == Direction::Right ==> (target_slot(row, side) matches Some(j)
            ==> is_rightmost_empty(row, j)),
{
    match side {
        Direction::Left => {
            if !row_full(row) {
                let j = lemma_leftmost_exists(row, row.len() as int);
                lemma_target_left(row, j);
            } else if exists|j: int| is_leftmost_empty(row, j) {
                let j = choose|j: int| is_leftmost_empty(row, j);
                assert(row[j] is Some);
            }
        },
        Direction::Right => {
            if !row_full(row) {
                let j = lemma_rightmost_exists(row, 0);
                lemma_target_right(row, j);
            } else if exists|j: int| is_rightmost_empty(row, j) {
                let j = choose|j: int| is_rightmost_empty(row, j);
                assert(row[j] is Some);
            }
        },
        Direction::Win => {},
    }
}

/// A row with an empty cell before `end` has a leftmost empty cell.
proof fn lemma_leftmost_exists(row: Row, end: int) -> (j: int)
    requires
        0 <= end <= row.len(),
        exists|k: int| 0 <= k < end && (#[trigger] row[k]) is None,
    ensures
        is_leftmost_empty(row, j),
        j < end,
    decreases end,
{
    if exists|k: int| 0 <= k < end - 1 && (#[trigger] row[k]) is None {
        lemma_leftmost_exists(row, end - 1)
    } else {
        let k = choose|k: int| 0 <= k < end && (#[trigger] row[k]) is None;
        assert(k == end - 1);
        assert forall|i: int| 0 <= i < k implies (#[trigger] row[i]) is Some by {
            if row[i] is None {
                assert(0 <= i < end - 1 && row[i] is None);
            }
        }
        k
    }
}

/// A row with an empty cell at or after `start` has a rightmost empty cell.
proof fn lemma_rightmost_exists(row: Row, start: int) -> (j: int)
    requires
        0 <= start <= row.len(),
        exists|k: int| start <= k < row.len() && (#[trigger] row[k]) is None,
    ensures
        is_rightmost_empty(row, j),
        start <= j,
    decreases row.len() - start,
{
    if exists|k: int| start + 1 <= k < row.len() && (#[trigger] row[k]) is None {
        lemma_rightmost_exists(row, start + 1)
    } else {
        let k = choose|k: int| start <= k < row.len() && (#[trigger] row[k]) is None;
        assert(k == start);
        assert forall|i: int| k < i < row.len() implies (#[trigger] row[i]) is Some by {
            if row[i] is None {
                assert(start + 1 <= i < row.len() && row[i] is None);
            }
        }
        k
    }
}

/// Pushes a piece of `current_player` into row `play.row` from the end
/// `play.direction`; it comes to rest in the first empty cell from that
/// end. Nothing changes when nobody is to move, when the row is full, or
/// when the direction is `Win`.
pub fn place_piece(current_player: Option<Colour>, play: Play, squares: &mut Squares)
    requires
        play.row < old(squares)@.len(),
    ensures
        grid_of(final(squares)) == placed(
            grid_of(old(squares)),
            current_player,
            play.row as int,
            play.direction,
        ),
{
    let ghost grid = grid_of(squares);
    let ghost row = grid[play.row as int];
    if let Some(colour) = current_player {
        let len = squares[play.row].len();
        let slot: Option<usize> = match play.direction {
            Direction::Left => {
                let mut j: usize = 0;
                while j < len && squares[play.row][j].is_some()
                    invariant
                        play.row < squares@.len(),
                        len == squares@[play.row as int]@.len(),
                        row == squares@[play.row as int]@,
                        j <= len,
                        forall|k: int| 0 <= k < j ==> (#[trigger] row[k]) is Some,
                    decreases len - j,
                {
                    j += 1;
                }
                if j < len {
                    proof {
                        lemma_target_left(row, j as int);
                    }
                    Some(j)
                } else {
                    proof {
                        lemma_target_slot(row, Direction::Left);
                    }
                    None
                }
            },
            Direction::Right => {
                let mut j: usize = len;
                while j > 0 && squares[play.row][j - 1].is_some()
                    invariant
                        play.row < squares@.len(),
                        len == squares@[play.row as int]@.len(),
                        row == squares@[play.row as int]@,
                        j <= len,
                        forall|k: int| j <= k < len ==> (#[trigger] row[k]) is Some,
                    decreases j,
                {
                    j -= 1;
                }
                if j > 0 {
                    proof {
                        lemma_target_right(row, j - 1);
                    }
                    Some(j - 1)
                } else {
                    proof {
                        lemma_target_slot(row, Direction::Right);
                    }
                    None
                }
            },
            Direction::Win => None,
        };
        assert(slot matches Some(j) ==> target_slot(row, play.direction) == Some(j as int));
        assert(slot is None ==> target_slot(row, play.direction) is None);
        if let Some(j) = slot {
            squares[play.row][j] = Some(Square { value: colour, direction: play.direction });
            assert(grid_of(squares) =~= grid.update(
                play.row as int,
                row.update(j as int, Some(Square { value: colour, direction: play.direction })),
            ));
        } else {
            assert(grid_of(squares) =~= grid);
        }
    } else {
        assert(grid_of(squares) =~= grid);
    }
}

/// Pushes a piece of `turn_colour` into row `row_index` from `side`, after
/// checking the move against the board's bounds. A full row is no error:
/// the board is then left as it was.
pub fn place(turn_colour: Colour, row_index: usize, side: Direction, squares: &mut Squares) -> (done:
    Result<(), EngineError>)
    requires
        well_formed(grid_of(old(squares))),
    ensures
        done is Err <==> (row_index >= GAME_SIZE || side == Direction::Win),
        done is Err ==> grid_of(final(squares)) == grid_of(old(squares)),
        done is Ok ==> grid_of(final(squares)) == placed(
            grid_of(old(squares)),
            Some(turn_colour),
            row_index as int,
            side,
        ),
        well_formed(grid_of(final(squares))),
{
    let ghost grid = grid_of(squares);
    if row_index >= GAME_SIZE {
        return Err(EngineError::InvalidInput);
    }
    match side {
        Direction::Win => {
            return Err(EngineError::InvalidInput);
        },
        _ => {},
    }
    place_piece(Some(turn_colour), Play { row: row_index, direction: side }, squares);
    proof {
        lemma_placed_well_formed(grid, Some(turn_colour), row_index as int, side);
    }
    Ok(())
}

/// Placement keeps the board's shape.
pub proof fn lemma_placed_well_formed(
    grid: Grid,
    player: Option<Colour>,
    row: int,
    side: Direction,
)
    requires
        well_formed(grid),
        0 <= row < GAME_SIZE,
    ensures
        well_formed(placed(grid, player, row, side)),
{
    lemma_target_slot(grid[row], side);
    let after = placed(grid, player, row, side);
    assert forall|i: int| 0 <= i < GAME_SIZE implies (#[trigger] after[i]).len() == GAME_SIZE by {
        assert(grid[i].len() == GAME_SIZE);
    }
}

/// A push changes the board exactly when somebody makes it and it finds an
/// empty cell.
pub proof fn lemma_placed_unchanged(grid: Grid, player: Option<Colour>, row: int, side: Direction)
    requires
        0 <= row < grid.len(),
    ensures
        placed(grid, player, row, side) == grid <==> (player is None || target_slot(
            grid[row],
            side,
        ) is None),
{
    lemma_target_slot(grid[row], side);
    if player is Some && target_slot(grid[row], side) is Some {
        let j = target_slot(grid[row], side)->0;
        let after = placed(grid, player, row, side);
        assert(after[row][j] is Some);
        assert(grid[row][j] is None);
    }
}

/// Whether a push into row `play.row` from the end `play.direction` finds
/// an empty cell.
pub fn can_land(squares: &Squares, play: Play) -> (room: bool)
    requires
        play.row < squares@.len(),
    ensures
        room == (target_slot(grid_of(squares)[play.row as int], play.direction) is Some),
{
    let ghost row = grid_of(squares)[play.row as int];
    proof {
        lemma_target_slot(row, play.direction);
    }
    match play.direction {
        Direction::Win => false,
        _ => {
            let len = squares[play.row].len();
            let mut j: usize = 0;
            while j < len
                invariant
                    play.row < squares@.len(),
                    play.direction != Direction::Win,
                    row == grid_of(squares)[play.row as int],
                    row == squares@[play.row as int]@,
                    len == row.len(),
                    j <= len,
                    forall|k: int| 0 <= k < j ==> (#[trigger] row[k]) is Some,
                decreases len - j,
            {
                if squares[play.row][j].is_none() {
                    proof {
                        assert(row[j as int] is None);
                        lemma_target_slot(row, play.direction);
                    }
                    return true;
                }
                j += 1;
            }
            false
        },
    }
}

/// Whose turn it is, from the pieces on the grid alone: nobody once as many
/// pieces lie on it as a board has cells; else `Black` when `Red` has more
/// pieces; else `Red`, who moves first.
pub open spec fn current_player(grid: Grid) -> Option<Colour> {
    let red = grid_count(grid, Colour::Red);
    let black = grid_count(grid, Colour::Black);
    if red + black == GAME_SIZE * GAME_SIZE {
        None
    } else if red > black {
        Some(Colour::Black)
    } else {
        Some(Colour::Red)
    }
}

/// Whose turn it is. The turn is not stored anywhere: it is derived from
/// the number of pieces of each colour.
pub fn calculate_current_player(squares: &Squares) -> (next: Option<Colour>)
    ensures
        next == current_player(grid_of(squares)),
{
    let ghost grid = grid_of(squares);
    let mut red_sum: u128 = 0;
    let mut black_sum: u128 = 0;
    let mut i: usize = 0;
    assert(grid.take(0) =~= Seq::<Row>::empty());
    while i < squares.len()
        invariant
            grid == grid_of(squares),
            i <= squares@.len(),
            red_sum == grid_count(grid.take(i as int), Colour::Red),
            black_sum == grid_count(grid.take(i as int), Colour::Black),
            red_sum + black_sum <= i * 0x1_0000_0000_0000_0000,
        decreases squares@.len() - i,
    {
        let ghost row = grid[i as int];
        let ghost red_before = red_sum;
        let ghost black_before = black_sum;
        let len = squares[i].len();
        let mut j: usize = 0;
        assert(row.take(0) =~= Seq::<Option<Square>>::empty());
        while j < len
            invariant
                grid == grid_of(squares),
                i < squares@.len(),
                row == squares@[i as int]@,
                len == row.len(),
                j <= len,
                red_sum == red_before + row_count(row.take(j as int), Colour::Red),
                black_sum == black_before + row_count(row.take(j as int), Colour::Black),
                red_before + black_before <= i * 0x1_0000_0000_0000_0000,
                red_sum + black_sum <= i * 0x1_0000_0000_0000_0000 + j,
            decreases len - j,
        {
            proof {
                assert(row.take(j + 1).drop_last() =~= row.take(j as int));
                assert(row.take(j + 1).last() == row[j as int]);
            }
            match squares[i][j] {
                Some(square) => match square.value {
                    Colour::Red => {
                        red_sum += 1;
                    },
                    Colour::Black => {
                        black_sum += 1;
                    },
                },
                None => {},
            }
            j += 1;
        }
        proof {
            assert(row.take(len as int) =~= row);
            assert(grid.take(i + 1).drop_last() =~= grid.take(i as int));
            assert(grid.take(i + 1).last() == row);
        }
        i += 1;
    }
    assert(grid.take(i as int) =~= grid);
    if red_sum + black_sum == (GAME_SIZE * GAME_SIZE) as u128 {
        None
    } else if red_sum > black_sum {
        Some(Colour::Black)
    } else {
        Some(Colour::Red)
    }
}

/// Overwrites with `Win` the marker of every piece in the window that
/// starts at row `i`, column `j` and advances by `dx` rows and `dy` columns
/// from cell to cell. Cells outside the window keep their marker.
pub fn mark_win(squares: &mut Squares, i: usize, j: usize, dx: isize, dy: isize)
    requires
        well_formed(grid_of(old(squares))),
        (Window { row: i as int, col: j as int, dx: dx as int, dy: dy as int }).on_board(),
    ensures
        grid_of(final(squares)) == marked(
            grid_of(old(squares)),
            Window { row: i as int, col: j as int, dx: dx as int, dy: dy as int },
        ),
{
    let ghost grid = grid_of(squares);
    let ghost w = Window { row: i as int, col: j as int, dx: dx as int, dy: dy as int };
    assert(grid_of(squares) =~~= marked_upto(grid, w, 0));
    assert(w.cell_on_board(0));
    let mut k: usize = 0;
    while k < WIN_LENGTH
        invariant
            k <= WIN_LENGTH,
            i < GAME_SIZE,
            j < GAME_SIZE,
            well_formed(grid),
            w == (Window { row: i as int, col: j as int, dx: dx as int, dy: dy as int }),
            w.on_board(),
            grid_of(squares) == marked_upto(grid, w, k as int),
        decreases WIN_LENGTH - k,
    {
        assert(w.cell_on_board(k as int));
        let r = ((i as isize) + (k as isize) * dx) as usize;
        let c = ((j as isize) + (k as isize) * dy) as usize;
        assert(w.cell_at(k as int, r as int, c as int));
        let ghost before = grid_of(squares);
        assert(before.len() == grid.len());
        assert(before[r as int].len() == grid[r as int].len());
        assert(before[r as int] == squares@[r as int]@);
        if let Some(square) = squares[r][c] {
            squares[r][c] = Some(Square { value: square.value, direction: Direction::Win });
        }
        proof {
            let after = grid_of(squares);
            let goal = marked_upto(grid, w, k + 1);
            assert(after.len() == goal.len());
            assert forall|r2: int| 0 <= r2 < after.len() implies after[r2] =~= goal[r2] by {
                assert(before[r2] == marked_upto(grid, w, k as int)[r2]);
                assert forall|c2: int| 0 <= c2 < after[r2].len() implies after[r2][c2]
                    == goal[r2][c2] by {
                    if w.covers_upto(k as int, r2, c2) {
                        let k0 = choose|k0: int| 0 <= k0 < k && #[trigger] w.cell_at(k0, r2, c2);
                        assert(w.cell_at(k0, r2, c2));
                    }
                    if w.covers_upto(k + 1, r2, c2) && !w.covers_upto(k as int, r2, c2) {
                        let k1 = choose|k1: int|
                            0 <= k1 < k + 1 && #[trigger] w.cell_at(k1, r2, c2);
                        assert(k1 == k);
                    }
                }
            }
            assert(after =~= goal);
        }
        k += 1;
    }
}

/// Looks at the window that starts at row `i`, column `j` and advances by
/// `dx` rows and `dy` columns from cell to cell. Where one colour fills it,
/// its cells are marked `Win` and the colour is returned; else the board is
/// left as it was.
pub fn check_win(squares: &mut Squares, i: usize, j: usize, dx: isize, dy: isize) -> (winner:
    Option<Colour>)
    requires
        well_formed(grid_of(old(squares))),
        (Window { row: i as int, col: j as int, dx: dx as int, dy: dy as int }).on_board(),
    ensures
        winner == window_colour(
            grid_of(old(squares)),
            Window { row: i as int, col: j as int, dx: dx as int, dy: dy as int },
        ),
        winner is Some ==> grid_of(final(squares)) == marked(
            grid_of(old(squares)),
            Window { row: i as int, col: j as int, dx: dx as int, dy: dy as int },
        ),
        winner is None ==> grid_of(final(squares)) == grid_of(old(squares)),
{
    let ghost grid = grid_of(squares);
    let ghost w = Window { row: i as int, col: j as int, dx: dx as int, dy: dy as int };
    assert(w.cell_on_board(0));
    if let Some(first) = squares[i][j] {
        let mut is_win_streak = true;
        let mut k: usize = 0;
        while k < WIN_LENGTH
            invariant
                k <= WIN_LENGTH,
                i < GAME_SIZE,
                j < GAME_SIZE,
                well_formed(grid),
                grid == grid_of(squares),
                w == (Window { row: i as int, col: j as int, dx: dx as int, dy: dy as int }),
                w.on_board(),
                is_win_streak <==> forall|n: int|
                    0 <= n < k ==> #[trigger] cell_is(grid, w, n, first.value),
            decreases WIN_LENGTH - k,
        {
            assert(w.cell_on_board(k as int));
            let r = ((i as isize) + (k as isize) * dx) as usize;
            let c = ((j as isize) + (k as isize) * dy) as usize;
            assert(grid[r as int] == squares@[r as int]@);
            let same = match squares[r][c] {
                Some(square) => square.value == first.value,
                None => false,
            };
            assert(same == cell_is(grid, w, k as int, first.value));
            is_win_streak = is_win_streak && same;
            k += 1;
        }
        if is_win_streak {
            mark_win(squares, i, j, dx, dy);
            return Some(first.value);
        }
    }
    None
}

/// One of the four directions the scan runs through, in scan order.
#[derive(Clone, Copy, Debug, PartialEq, Eq, Structural)]
enum Line {
    Horizontal,
    Vertical,
    Diagonal,
    AntiDiagonal,
}

impl Line {
    spec fn index(self) -> int {
        match self {
            Line::Horizontal => 0,
            Line::Vertical => 1,
            Line::Diagonal => 2,
            Line::AntiDiagonal => 3,
        }
    }

    spec fn window(self, i: int, j: int) -> Window {
        match self {
            Line::Horizontal => Window { row: i, col: j, dx: 0, dy: 1 },
            Line::Vertical => Window { row: i, col: j, dx: 1, dy: 0 },
            Line::Diagonal => Window { row: i, col: j, dx: 1, dy: 1 },
            Line::AntiDiagonal => Window { row: i, col: j, dx: 1, dy: -1 },
        }
    }

    spec fn base(self) -> int {
        self.index() * (GAME_SIZE * GAME_SIZE)
    }
}

/// Examines the windows of one direction, by rows from the top and in each
/// row from the left, and stops at the first that wins.
fn scan_lines(squares: &mut Squares, line: Line) -> (winner: Option<Colour>)
    requires
        well_formed(grid_of(old(squares))),
        no_win_before(grid_of(old(squares)), line.base()),
    ensures
        winner is None ==> grid_of(final(squares)) == grid_of(old(squares)) && no_win_before(
            grid_of(old(squares)),
            line.base() + GAME_SIZE * GAME_SIZE,
        ),
        winner is Some ==> winner == winner_of(grid_of(old(squares))) && grid_of(final(squares))
            == marked_board(grid_of(old(squares))),
{
    let ghost grid = grid_of(squares);
    let search: usize = GAME_SIZE - WIN_LENGTH + 1;
    let (dx, dy, rows, col_from, col_to): (isize, isize, usize, usize, usize) = match line {
        Line::Horizontal => (0, 1, GAME_SIZE, 0, search),
        Line::Vertical => (1, 0, search, 0, GAME_SIZE),
        Line::Diagonal => (1, 1, search, 0, search),
        Line::AntiDiagonal => (1, -1, search, WIN_LENGTH - 1, GAME_SIZE),
    };
    let mut i: usize = 0;
    while i < rows
        invariant
            i <= rows <= GAME_SIZE,
            col_from <= col_to <= GAME_SIZE,
            well_formed(grid),
            grid == grid_of(old(squares)),
            grid == grid_of(squares),
            forall|r: int, c: int|
                #![trigger line.window(r, c)]
                line.window(r, c).in_scan() <==> (0 <= r < rows && col_from <= c < col_to),
            forall|r: int, c: int|
                #![trigger line.window(r, c)]
                line.window(r, c).dx == dx && line.window(r, c).dy == dy && line.window(
                    r,
                    c,
                ).phase() == line.index(),
            no_win_before(grid, line.base() + i * GAME_SIZE),
        decreases rows - i,
    {
        let mut j: usize = col_from;
        proof {
            assert forall|v: Window| #[trigger] wins(grid, v) implies v.scan_rank() >= line.base()
                + i * GAME_SIZE + j by {
                if v.scan_rank() < line.base() + i * GAME_SIZE + j {
                    assert(v == line.window(v.row, v.col));
                }
            }
        }
        while j < col_to
            invariant
                i < rows <= GAME_SIZE,
                col_from <= j <= col_to <= GAME_SIZE,
                well_formed(grid),
                grid == grid_of(old(squares)),
                grid == grid_of(squares),
                forall|r: int, c: int|
                    #![trigger line.window(r, c)]
                    line.window(r, c).in_scan() <==> (0 <= r < rows && col_from <= c < col_to),
                forall|r: int, c: int|
                    #![trigger line.window(r, c)]
                    line.window(r, c).dx == dx && line.window(r, c).dy == dy && line.window(
                        r,
                        c,
                    ).phase() == line.index(),
                no_win_before(grid, line.base() + i * GAME_SIZE + j),
            decreases col_to - j,
        {
            let ghost w = line.window(i as int, j as int);
            proof {
                assert(w.in_scan());
                lemma_in_scan_on_board(w);
                assert(w == (Window { row: i as int, col: j as int, dx: dx as int, dy: dy as int }));
            }
            if let Some(winner) = check_win(squares, i, j, dx, dy) {
                proof {
                    assert(w.scan_rank() == line.base() + i * GAME_SIZE + j);
                    assert(is_first_win(grid, w));
                    lemma_first_win_decides(grid, w);
                }
                return Some(winner);
            }
            proof {
                assert forall|v: Window| #[trigger] wins(grid, v) implies v.scan_rank()
                    >= line.base() + i * GAME_SIZE + j + 1 by {
                    if v.scan_rank() == w.scan_rank() {
                        lemma_rank_injective(v, w);
                    }
                }
            }
            j += 1;
        }
        proof {
            assert forall|v: Window| #[trigger] wins(grid, v) implies v.scan_rank() >= line.base()
                + (i + 1) * GAME_SIZE by {
                if v.scan_rank() < line.base() + (i + 1) * GAME_SIZE {
                    assert(v == line.window(v.row, v.col));
                }
            }
        }
        i += 1;
    }
    proof {
        assert forall|v: Window| #[trigger] wins(grid, v) implies v.scan_rank() >= line.base()
            + GAME_SIZE * GAME_SIZE by {
            if v.scan_rank() < line.base() + GAME_SIZE * GAME_SIZE {
                assert(v == line.window(v.row, v.col));
            }
        }
    }
    None
}

/// Looks for a line of `WIN_LENGTH` pieces of one colour. Horizontal
/// windows are examined first, from the top row down and in each row from
/// the left; then vertical ones, then diagonals, then anti-diagonals. The
/// first window that one colour fills decides: its colour is returned and
/// its cells are marked `Win`. Without such a window the board is left as
/// it was.
pub fn calculate_winner(squares: &mut Squares) -> (winner: Option<Colour>)
    requires
        well_formed(grid_of(old(squares))),
    ensures
        winner == winner_of(grid_of(old(squares))),
        grid_of(final(squares)) == marked_board(grid_of(old(squares))),
{
    let ghost grid = grid_of(squares);
    proof {
        assert forall|v: Window| #[trigger] wins(grid, v) implies v.scan_rank() >= 0 by {
            lemma_rank_range(v);
        }
    }
    if let Some(winner) = scan_lines(squares, Line::Horizontal) {
        return Some(winner);
    }
    if let Some(winner) = scan_lines(squares, Line::Vertical) {
        return Some(winner);
    }
    if let Some(winner) = scan_lines(squares, Line::Diagonal) {
        return Some(winner);
    }
    if let Some(winner) = scan_lines(squares, Line::AntiDiagonal) {
        return Some(winner);
    }
    proof {
        lemma_no_win(grid);
    }
    None
}

/// Who moves after the mover's push turned the board `before` into the
/// board `after`, where nobody has won: the mover again where the push
/// changed nothing; nobody where the board is now full; else the mover's
/// opponent.
pub open spec fn turn_after(before: Grid, after: Grid, mover: Option<Colour>) -> Option<Colour> {
    if after == before {
        mover
    } else if pieces(after) == GAME_SIZE * GAME_SIZE {
        None
    } else {
        match mover {
            Some(colour) => Some(colour.spec_opponent()),
            None => None,
        }
    }
}

/// The counts of a board that two players filled in turn, `Red` first:
/// `Red` has as many pieces as `Black`, or one more.
pub open spec fn balanced(grid: Grid) -> bool {
    let red = grid_count(grid, Colour::Red);
    let black = grid_count(grid, Colour::Black);
    red == black || red == black + 1
}

/// Whose turn it is on a board with `n` pieces that was filled in turn:
/// `Red` on even counts, `Black` on odd ones, nobody on a full board.
pub open spec fn turn_by_parity(n: nat) -> Option<Colour> {
    if n >= GAME_SIZE * GAME_SIZE {
        None
    } else if n % 2 == 0 {
        Some(Colour::Red)
    } else {
        Some(Colour::Black)
    }
}

/// The move lands: its row is on the board and the push finds an empty
/// cell.
pub open spec fn lands(grid: Grid, play: Play) -> bool {
    &&& play.row < GAME_SIZE
    &&& target_slot(grid[play.row as int], play.direction) is Some
}

/// The grid after the player to move makes `play`.
pub open spec fn after_move(grid: Grid, play: Play) -> Grid {
    placed(grid, current_player(grid), play.row as int, play.direction)
}

/// The grid after the moves are made in order, each by the player whose
/// turn it then is.
pub open spec fn replay(grid: Grid, moves: Seq<Play>) -> Grid
    decreases moves.len(),
{
    if moves.len() == 0 {
        grid
    } else {
        after_move(replay(grid, moves.drop_last()), moves.last())
    }
}

/// Every one of the moves lands when they are made in order.
pub open spec fn all_land(grid: Grid, moves: Seq<Play>) -> bool
    decreases moves.len(),
{
    moves.len() == 0 || (all_land(grid, moves.drop_last()) && lands(
        replay(grid, moves.drop_last()),
        moves.last(),
    ))
}

/// A game starts on a board that is filled in turn: the empty board holds
/// no piece, has no winner, and gives `Red` the first move.
pub proof fn lemma_empty_board_starts(grid: Grid)
    requires
        grid == empty_grid(),
    ensures
        well_formed(grid),
        balanced(grid),
        pieces(grid) == 0,
        current_player(grid) == Some(Colour::Red),
        winner_of(grid) is None,
{
    lemma_empty_grid_count(grid, Colour::Red);
    lemma_empty_grid_count(grid, Colour::Black);
    if has_win(grid) {
        let w = choose|w: Window| wins(grid, w);
        lemma_in_scan_on_board(w);
        assert(w.cell_on_board(0));
        assert(grid[w.row][w.col] is None);
    }
}

/// On a board that was filled in turn, the turn goes by the parity of the
/// number of pieces.
pub proof fn lemma_turn_is_parity(grid: Grid)
    requires
        well_formed(grid),
        balanced(grid),
    ensures
        current_player(grid) == turn_by_parity(pieces(grid)),
{
    lemma_grid_count_bound(grid);
    lemma_well_formed_cells(grid);
}

/// A push by `colour` that finds an empty cell adds one piece to the board.
pub proof fn lemma_landing_adds_one(grid: Grid, colour: Colour, play: Play)
    requires
        lands(grid, play),
        play.row < grid.len(),
    ensures
        pieces(placed(grid, Some(colour), play.row as int, play.direction)) == pieces(grid) + 1,
{
    let row = grid[play.row as int];
    let j = target_slot(row, play.direction)->0;
    lemma_target_slot(row, play.direction);
    let square = Square { value: colour, direction: play.direction };
    lemma_row_count_fill(row, j, square, Colour::Red);
    lemma_row_count_fill(row, j, square, Colour::Black);
    lemma_grid_count_replace_row(grid, play.row as int, row.update(j, Some(square)), Colour::Red);
    lemma_grid_count_replace_row(grid, play.row as int, row.update(j, Some(square)), Colour::Black);
}

/// A move that lands adds one piece of the mover's colour, keeps the
/// counts balanced, and hands the turn to the mover's opponent, or to
/// nobody when it fills the board.
pub proof fn lemma_move_alternates(grid: Grid, play: Play)
    requires
        well_formed(grid),
        balanced(grid),
        lands(grid, play),
    ensures
        current_player(grid) is Some,
        well_formed(after_move(grid, play)),
        balanced(after_move(grid, play)),
        pieces(after_move(grid, play)) == pieces(grid) + 1,
        current_player(after_move(grid, play)) == (if pieces(grid) + 1 == GAME_SIZE * GAME_SIZE {
            None
        } else {
            Some(current_player(grid)->0.spec_opponent())
        }),
{
    let row = grid[play.row as int];
    let j = target_slot(row, play.direction)->0;
    lemma_target_slot(row, play.direction);
    // Filling the cell with either colour shows that the board was not full.
    let probe = Square { value: Colour::Red, direction: play.direction };
    let probed = grid.update(play.row as int, row.update(j, Some(probe)));
    lemma_row_count_fill(row, j, probe, Colour::Red);
    lemma_row_count_fill(row, j, probe, Colour::Black);
    lemma_grid_count_replace_row(grid, play.row as int, row.update(j, Some(probe)), Colour::Red);
    lemma_grid_count_replace_row(grid, play.row as int, row.update(j, Some(probe)), Colour::Black);
    assert(well_formed(probed)) by {
        assert forall|i: int| 0 <= i < GAME_SIZE implies (#[trigger] probed[i]).len()
            == GAME_SIZE by {
            assert(grid[i].len() == GAME_SIZE);
        }
    }
    lemma_grid_count_bound(probed);
    lemma_well_formed_cells(probed);
    assert(pieces(grid) < GAME_SIZE * GAME_SIZE);
    let mover = current_player(grid)->0;
    let square = Square { value: mover, direction: play.direction };
    lemma_row_count_fill(row, j, square, Colour::Red);
    lemma_row_count_fill(row, j, square, Colour::Black);
    lemma_grid_count_replace_row(grid, play.row as int, row.update(j, Some(square)), Colour::Red);
    lemma_grid_count_replace_row(grid, play.row as int, row.update(j, Some(square)), Colour::Black);
    lemma_placed_well_formed(grid, current_player(grid), play.row as int, play.direction);
}

/// Whatever cells a sequence of landing moves fills, the turn alternates
/// between `Red` and `Black` by the running number of pieces: after the
/// moves, on a board that was filled in turn, it is the turn that the
/// parity of the number of pieces gives.
pub proof fn lemma_turns_alternate(grid: Grid, moves: Seq<Play>)
    requires
        well_formed(grid),
        balanced(grid),
        all_land(grid, moves),
    ensures
        well_formed(replay(grid, moves)),
        balanced(replay(grid, moves)),
        pieces(replay(grid, moves)) == pieces(grid) + moves.len(),
        current_player(replay(grid, moves)) == turn_by_parity(pieces(grid) + moves.len()),
    decreases moves.len(),
{
    if moves.len() > 0 {
        lemma_turns_alternate(grid, moves.drop_last());
        lemma_move_alternates(replay(grid, moves.drop_last()), moves.last());
    }
    lemma_turn_is_parity(replay(grid, moves));
}

/// A move into a full row, or one whose direction is no end of a row,
/// changes nothing, so the turn stays where it was.
pub proof fn lemma_dropped_move(grid: Grid, play: Play)
    requires
        !lands(grid, play),
        play.row < GAME_SIZE,
    ensures
        after_move(grid, play) == grid,
        current_player(after_move(grid, play)) == current_player(grid),
{
}

} // verus!
