use stackedfour::board::{Colour, Direction, Square, Squares};
use stackedfour::game::{calculate_current_player, calculate_winner};

const B: Option<Square> = Some(Square {
    value: Colour::Black,
    direction: Direction::Left,
});
const R: Option<Square> = Some(Square {
    value: Colour::Red,
    direction: Direction::Left,
});

#[test]
fn test_calculate_current_player() {
    let u: Option<Square> = None;

    let empty: Squares = vec![
        vec![u, u, u, u, u, u, u],
        vec![u, u, u, u, u, u, u],
        vec![u, u, u, u, u, u, u],
        vec![u, u, u, u, u, u, u],
        vec![u, u, u, u, u, u, u],
        vec![u, u, u, u, u, u, u],
        vec![u, u, u, u, u, u, u],
    ];
    assert_eq!(calculate_current_player(&empty), Some(Colour::Red));

    let draw: Squares = vec![
        vec![R, B, R, B, R, B, R],
        vec![B, R, B, R, B, R, B],
        vec![R, R, B, B, R, R, R],
        vec![B, B, R, B, R, B, B],
        vec![B, R, R, B, B, R, R],
        vec![B, B, B, R, B, R, R],
        vec![R, B, B, B, R, R, R],
    ];
    assert_eq!(calculate_current_player(&draw), None);
}

#[test]
fn test_calculate_win() {
    let u: Option<Square> = None;

    let mut empty: Squares = vec![
        vec![u, u, u, u, u, u, u],
        vec![u, u, u, u, u, u, u],
        vec![u, u, u, u, u, u, u],
        vec![u, u, u, u, u, u, u],
        vec![u, u, u, u, u, u, u],
        vec![u, u, u, u, u, u, u],
        vec![u, u, u, u, u, u, u],
    ];
    assert_eq!(calculate_winner(&mut empty), None);

    let mut no_win: Squares = vec![
        vec![u, u, u, u, u, u, u],
        vec![u, u, u, u, u, u, u],
        vec![u, R, u, u, u, u, u],
        vec![u, R, R, R, u, u, u],
        vec![u, u, u, u, u, u, u],
        vec![u, u, u, u, u, u, B],
        vec![u, u, u, u, B, B, B],
    ];
    assert_eq!(calculate_winner(&mut no_win), None);

    let mut vert: Squares = vec![
        vec![u, u, u, u, u, u, u],
        vec![u, u, B, u, u, u, u],
        vec![u, u, B, u, u, u, u],
        vec![u, u, B, u, u, u, u],
        vec![u, u, B, u, u, u, u],
        vec![u, u, u, u, u, u, u],
        vec![u, u, u, u, R, R, R],
    ];
    assert_eq!(calculate_winner(&mut vert), Some(Colour::Black));
    assert_eq!(vert[4][2].unwrap().direction, Direction::Win);
    assert_eq!(vert[6][6].unwrap().direction, Direction::Left);

    let mut horz: Squares = vec![
        vec![u, u, u, u, u, u, u],
        vec![u, u, B, u, u, u, u],
        vec![u, u, B, u, u, u, u],
        vec![u, u, B, u, u, u, u],
        vec![u, u, u, u, u, u, u],
        vec![u, u, u, u, u, u, u],
        vec![u, u, u, R, R, R, R],
    ];
    assert_eq!(calculate_winner(&mut horz), Some(Colour::Red));
    assert_eq!(horz[6][6].unwrap().direction, Direction::Win);
    assert_eq!(horz[1][2].unwrap().direction, Direction::Left);

    let mut diag1: Squares = vec![
        vec![u, u, u, u, u, u, u],
        vec![u, u, B, u, u, u, u],
        vec![u, u, B, u, u, u, u],
        vec![u, u, B, R, u, u, u],
        vec![u, u, u, u, R, u, u],
        vec![u, u, u, u, u, R, u],
        vec![u, u, u, u, u, u, R],
    ];
    assert_eq!(calculate_winner(&mut diag1), Some(Colour::Red));
    assert_eq!(diag1[3][3].unwrap().direction, Direction::Win);
    assert_eq!(diag1[2][2].unwrap().direction, Direction::Left);

    let mut diag2: Squares = vec![
        vec![u, u, u, u, u, u, B],
        vec![u, u, u, u, u, B, u],
        vec![u, u, u, u, B, u, u],
        vec![u, u, u, B, u, u, u],
        vec![u, u, u, u, u, u, u],
        vec![u, u, u, u, u, u, u],
        vec![u, u, u, u, R, R, R],
    ];
    assert_eq!(calculate_winner(&mut diag2), Some(Colour::Black));
    assert_eq!(diag2[2][4].unwrap().direction, Direction::Win);
    assert_eq!(diag2[6][5].unwrap().direction, Direction::Left);

    let mut diag3: Squares = vec![
        vec![u, u, u, u, u, u, u],
        vec![u, u, u, u, u, u, u],
        vec![u, u, u, u, u, u, u],
        vec![u, u, u, B, u, u, u],
        vec![u, u, B, u, u, u, u],
        vec![u, B, u, u, u, u, u],
        vec![B, u, u, u, R, R, R],
    ];
    assert_eq!(calculate_winner(&mut diag3), Some(Colour::Black));
    assert_eq!(diag3[6][0].unwrap().direction, Direction::Win);
    assert_eq!(diag3[6][5].unwrap().direction, Direction::Left);
}
