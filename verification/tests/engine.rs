use stackedfour::board::{
    copy_board, empty_board, is_well_formed, Colour, Direction, Square, Squares,
};
use stackedfour::game::{
    calculate_current_player, calculate_winner, can_land, check_win, mark_win, place,
    place_piece, EngineError,
};
use stackedfour::ws::Play;
use stackedfour::{GAME_SIZE, WIN_LENGTH};

fn piece(value: Colour, direction: Direction) -> Option<Square> {
    Some(Square { value, direction })
}

fn count(squares: &Squares) -> usize {
    squares.iter().flatten().flatten().count()
}

#[test]
fn constants_are_seven_and_four() {
    assert_eq!(GAME_SIZE, 7);
    assert_eq!(WIN_LENGTH, 4);
}

#[test]
fn empty_board_is_a_full_grid_of_empty_cells() {
    let board = empty_board();
    assert!(is_well_formed(&board));
    assert_eq!(board.len(), 7);
    for row in board.iter() {
        assert_eq!(row.len(), 7);
        for cell in row.iter() {
            assert_eq!(*cell, None);
        }
    }
}

#[test]
fn ill_shaped_boards_are_told_apart() {
    let mut board = empty_board();
    board[3].pop();
    assert!(!is_well_formed(&board));
    let mut short = empty_board();
    short.pop();
    assert!(!is_well_formed(&short));
}

#[test]
fn copy_board_keeps_every_cell() {
    let mut board = empty_board();
    board[2][5] = piece(Colour::Black, Direction::Right);
    let copy = copy_board(&board);
    assert_eq!(copy, board);
}

#[test]
fn opponent_swaps_the_colours() {
    assert_eq!(Colour::Red.opponent(), Colour::Black);
    assert_eq!(Colour::Black.opponent(), Colour::Red);
}

#[test]
fn left_push_rests_in_first_empty_cell_from_the_left() {
    let mut board = empty_board();
    place_piece(
        Some(Colour::Red),
        Play { row: 2, direction: Direction::Left },
        &mut board,
    );
    assert_eq!(board[2][0], piece(Colour::Red, Direction::Left));
    place_piece(
        Some(Colour::Black),
        Play { row: 2, direction: Direction::Left },
        &mut board,
    );
    assert_eq!(board[2][1], piece(Colour::Black, Direction::Left));
    assert_eq!(count(&board), 2);
}

#[test]
fn right_push_rests_in_first_empty_cell_from_the_right() {
    let mut board = empty_board();
    place_piece(
        Some(Colour::Red),
        Play { row: 0, direction: Direction::Right },
        &mut board,
    );
    assert_eq!(board[0][6], piece(Colour::Red, Direction::Right));
    place_piece(
        Some(Colour::Black),
        Play { row: 0, direction: Direction::Right },
        &mut board,
    );
    assert_eq!(board[0][5], piece(Colour::Black, Direction::Right));
    assert_eq!(count(&board), 2);
}

#[test]
fn pushes_from_both_ends_meet_in_the_middle() {
    let mut board = empty_board();
    for _ in 0..3 {
        place_piece(
            Some(Colour::Red),
            Play { row: 4, direction: Direction::Left },
            &mut board,
        );
    }
    for _ in 0..3 {
        place_piece(
            Some(Colour::Black),
            Play { row: 4, direction: Direction::Right },
            &mut board,
        );
    }
    assert_eq!(board[4][3], None);
    place_piece(
        Some(Colour::Black),
        Play { row: 4, direction: Direction::Left },
        &mut board,
    );
    assert_eq!(board[4][3], piece(Colour::Black, Direction::Left));
    assert_eq!(count(&board), 7);
}

#[test]
fn push_into_a_full_row_is_dropped() {
    let mut board = empty_board();
    for _ in 0..7 {
        place_piece(
            Some(Colour::Red),
            Play { row: 1, direction: Direction::Left },
            &mut board,
        );
    }
    let before = copy_board(&board);
    place_piece(
        Some(Colour::Black),
        Play { row: 1, direction: Direction::Left },
        &mut board,
    );
    assert_eq!(board, before);
    place_piece(
        Some(Colour::Black),
        Play { row: 1, direction: Direction::Right },
        &mut board,
    );
    assert_eq!(board, before);
    assert_eq!(place(Colour::Black, 1, Direction::Right, &mut board), Ok(()));
    assert_eq!(board, before);
}

#[test]
fn push_by_nobody_or_from_no_end_changes_nothing() {
    let mut board = empty_board();
    place_piece(None, Play { row: 0, direction: Direction::Left }, &mut board);
    assert_eq!(board, empty_board());
    place_piece(
        Some(Colour::Red),
        Play { row: 0, direction: Direction::Win },
        &mut board,
    );
    assert_eq!(board, empty_board());
}

#[test]
fn place_refuses_rows_off_the_board_and_the_win_marker() {
    let mut board = empty_board();
    assert_eq!(
        place(Colour::Red, 7, Direction::Left, &mut board),
        Err(EngineError::InvalidInput)
    );
    assert_eq!(
        place(Colour::Red, usize::MAX, Direction::Right, &mut board),
        Err(EngineError::InvalidInput)
    );
    assert_eq!(
        place(Colour::Red, 0, Direction::Win, &mut board),
        Err(EngineError::InvalidInput)
    );
    assert_eq!(board, empty_board());
    assert_eq!(place(Colour::Red, 6, Direction::Right, &mut board), Ok(()));
    assert_eq!(board[6][6], piece(Colour::Red, Direction::Right));
}

#[test]
fn turn_alternates_with_the_number_of_pieces() {
    let mut board = empty_board();
    let rows = [0usize, 3, 3, 6, 1, 0, 2, 5, 5, 4];
    let sides = [
        Direction::Left,
        Direction::Right,
        Direction::Left,
        Direction::Right,
        Direction::Right,
        Direction::Left,
        Direction::Left,
        Direction::Right,
        Direction::Right,
        Direction::Left,
    ];
    for n in 0..rows.len() {
        let expected = if n % 2 == 0 { Colour::Red } else { Colour::Black };
        let mover = calculate_current_player(&board);
        assert_eq!(mover, Some(expected));
        place_piece(mover, Play { row: rows[n], direction: sides[n] }, &mut board);
        assert_eq!(count(&board), n + 1);
    }
    assert_eq!(calculate_current_player(&board), Some(Colour::Red));
}

#[test]
fn turn_stays_after_a_dropped_move() {
    let mut board = empty_board();
    for _ in 0..7 {
        let mover = calculate_current_player(&board);
        place_piece(mover, Play { row: 0, direction: Direction::Left }, &mut board);
    }
    let mover = calculate_current_player(&board);
    assert_eq!(mover, Some(Colour::Black));
    place_piece(mover, Play { row: 0, direction: Direction::Right }, &mut board);
    assert_eq!(calculate_current_player(&board), Some(Colour::Black));
}

#[test]
fn more_black_than_red_still_gives_red_the_turn() {
    let mut board = empty_board();
    board[0][0] = piece(Colour::Black, Direction::Left);
    board[0][1] = piece(Colour::Black, Direction::Left);
    assert_eq!(calculate_current_player(&board), Some(Colour::Red));
    board[0][2] = piece(Colour::Red, Direction::Left);
    assert_eq!(calculate_current_player(&board), Some(Colour::Red));
}

#[test]
fn current_player_counts_boards_of_any_shape() {
    let ragged: Squares = vec![vec![piece(Colour::Red, Direction::Left)], vec![]];
    assert_eq!(calculate_current_player(&ragged), Some(Colour::Black));
    let none: Squares = Vec::new();
    assert_eq!(calculate_current_player(&none), Some(Colour::Red));
}

#[test]
fn four_black_from_the_left_win_row_one() {
    let mut board = empty_board();
    for _ in 0..4 {
        place_piece(
            Some(Colour::Black),
            Play { row: 1, direction: Direction::Left },
            &mut board,
        );
    }
    for _ in 0..4 {
        place_piece(
            Some(Colour::Red),
            Play { row: 6, direction: Direction::Left },
            &mut board,
        );
    }
    assert_eq!(calculate_winner(&mut board), Some(Colour::Black));
    for col in 0..7 {
        if col < 4 {
            assert_eq!(board[1][col], piece(Colour::Black, Direction::Win));
            assert_eq!(board[6][col], piece(Colour::Red, Direction::Left));
        } else {
            assert_eq!(board[1][col], None);
            assert_eq!(board[6][col], None);
        }
    }
    assert_eq!(count(&board), 8);
}

#[test]
fn horizontal_line_is_reported_before_vertical_one() {
    let b = piece(Colour::Black, Direction::Left);
    let r = piece(Colour::Red, Direction::Right);
    let u: Option<Square> = None;
    let mut board: Squares = vec![
        vec![b, u, u, u, u, u, u],
        vec![b, u, u, u, u, u, u],
        vec![b, u, u, u, u, u, u],
        vec![b, u, u, u, u, u, u],
        vec![u, u, u, u, u, u, u],
        vec![u, u, u, u, u, u, u],
        vec![u, u, u, r, r, r, r],
    ];
    assert_eq!(calculate_winner(&mut board), Some(Colour::Red));
    assert_eq!(board[6][3], piece(Colour::Red, Direction::Win));
    assert_eq!(board[6][6], piece(Colour::Red, Direction::Win));
    assert_eq!(board[0][0], b);
    assert_eq!(board[3][0], b);
}

#[test]
fn upper_row_is_reported_before_lower_row() {
    let b = piece(Colour::Black, Direction::Left);
    let r = piece(Colour::Red, Direction::Right);
    let u: Option<Square> = None;
    let mut board: Squares = vec![
        vec![u, u, u, u, u, u, u],
        vec![u, u, u, u, u, u, u],
        vec![u, u, u, b, b, b, b],
        vec![u, u, u, u, u, u, u],
        vec![r, r, r, r, u, u, u],
        vec![u, u, u, u, u, u, u],
        vec![u, u, u, u, u, u, u],
    ];
    assert_eq!(calculate_winner(&mut board), Some(Colour::Black));
    assert_eq!(board[2][3], piece(Colour::Black, Direction::Win));
    assert_eq!(board[4][0], r);
}

#[test]
fn vertical_line_is_reported_before_diagonal_one() {
    let b = piece(Colour::Black, Direction::Left);
    let r = piece(Colour::Red, Direction::Right);
    let u: Option<Square> = None;
    let mut board: Squares = vec![
        vec![r, u, u, u, u, u, u],
        vec![u, r, u, u, u, u, u],
        vec![u, u, r, u, u, u, b],
        vec![u, u, u, r, u, u, b],
        vec![u, u, u, u, u, u, b],
        vec![u, u, u, u, u, u, b],
        vec![u, u, u, u, u, u, u],
    ];
    assert_eq!(calculate_winner(&mut board), Some(Colour::Black));
    assert_eq!(board[2][6], piece(Colour::Black, Direction::Win));
    assert_eq!(board[0][0], r);
}

#[test]
fn diagonal_line_is_reported_before_anti_diagonal_one() {
    let b = piece(Colour::Black, Direction::Left);
    let r = piece(Colour::Red, Direction::Right);
    let u: Option<Square> = None;
    let mut board: Squares = vec![
        vec![u, u, u, u, u, u, b],
        vec![u, u, u, u, u, b, u],
        vec![u, u, u, u, b, u, u],
        vec![r, u, u, b, u, u, u],
        vec![u, r, u, u, u, u, u],
        vec![u, u, r, u, u, u, u],
        vec![u, u, u, r, u, u, u],
    ];
    assert_eq!(calculate_winner(&mut board), Some(Colour::Red));
    assert_eq!(board[3][0], piece(Colour::Red, Direction::Win));
    assert_eq!(board[0][6], b);
}

#[test]
fn five_in_a_row_marks_the_first_four() {
    let r = piece(Colour::Red, Direction::Right);
    let mut board = empty_board();
    for col in 1..6 {
        board[5][col] = r;
    }
    assert_eq!(calculate_winner(&mut board), Some(Colour::Red));
    for col in 1..5 {
        assert_eq!(board[5][col], piece(Colour::Red, Direction::Win));
    }
    assert_eq!(board[5][5], r);
}

#[test]
fn detection_twice_gives_the_same_result() {
    let b = piece(Colour::Black, Direction::Left);
    let mut board = empty_board();
    for row in 2..6 {
        board[row][4] = b;
    }
    let mut again = copy_board(&board);
    let first = calculate_winner(&mut board);
    assert_eq!(first, Some(Colour::Black));
    assert_eq!(calculate_winner(&mut again), first);
    assert_eq!(again, board);
    let marked = copy_board(&board);
    assert_eq!(calculate_winner(&mut board), first);
    assert_eq!(board, marked);
}

#[test]
fn mixed_window_does_not_win() {
    let b = piece(Colour::Black, Direction::Left);
    let r = piece(Colour::Red, Direction::Right);
    let mut board = empty_board();
    board[0][0] = b;
    board[0][1] = b;
    board[0][2] = r;
    board[0][3] = b;
    board[0][4] = b;
    board[0][5] = b;
    let before = copy_board(&board);
    assert_eq!(check_win(&mut board, 0, 0, 0, 1), None);
    assert_eq!(check_win(&mut board, 0, 2, 0, 1), None);
    assert_eq!(calculate_winner(&mut board), None);
    assert_eq!(board, before);
}

#[test]
fn check_win_marks_the_window_it_is_given() {
    let b = piece(Colour::Black, Direction::Right);
    let mut board = empty_board();
    for k in 0..4 {
        board[3 + k][5 - k] = b;
    }
    assert_eq!(check_win(&mut board, 3, 4, 1, -1), None);
    assert_eq!(check_win(&mut board, 3, 5, 1, -1), Some(Colour::Black));
    for k in 0..4 {
        assert_eq!(board[3 + k][5 - k], piece(Colour::Black, Direction::Win));
    }
    assert_eq!(count(&board), 4);
}

#[test]
fn mark_win_overwrites_markers_of_pieces_only() {
    let mut board = empty_board();
    board[2][2] = piece(Colour::Red, Direction::Left);
    board[3][3] = piece(Colour::Black, Direction::Right);
    board[6][6] = piece(Colour::Black, Direction::Right);
    mark_win(&mut board, 1, 1, 1, 1);
    assert_eq!(board[1][1], None);
    assert_eq!(board[2][2], piece(Colour::Red, Direction::Win));
    assert_eq!(board[3][3], piece(Colour::Black, Direction::Win));
    assert_eq!(board[4][4], None);
    assert_eq!(board[6][6], piece(Colour::Black, Direction::Right));
    assert_eq!(count(&board), 3);
}

#[test]
fn push_lands_where_the_row_has_room_and_comes_from_an_end() {
    let mut board = empty_board();
    assert!(can_land(&board, Play { row: 0, direction: Direction::Left }));
    assert!(can_land(&board, Play { row: 0, direction: Direction::Right }));
    assert!(!can_land(&board, Play { row: 0, direction: Direction::Win }));
    for _ in 0..6 {
        place_piece(
            Some(Colour::Red),
            Play { row: 0, direction: Direction::Left },
            &mut board,
        );
    }
    assert!(can_land(&board, Play { row: 0, direction: Direction::Left }));
    place_piece(
        Some(Colour::Black),
        Play { row: 0, direction: Direction::Right },
        &mut board,
    );
    assert!(!can_land(&board, Play { row: 0, direction: Direction::Left }));
    assert!(!can_land(&board, Play { row: 0, direction: Direction::Right }));
    assert!(can_land(&board, Play { row: 1, direction: Direction::Right }));
}
