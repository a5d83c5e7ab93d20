use chess_moves::board::{Board, Field, Position};
use chess_moves::moves::get_moves;
use chess_moves::piece::Type::{Bishop, King, Pawn, Queen, Rook};

fn assert_moves(expected: &Vec<Position>, actual: &Vec<Position>) {
    assert_eq!(expected.len(), actual.len());
    for expected_pos in expected {
        assert!(actual.iter().find(|pos| &expected_pos == pos).is_some());
    }
}

#[test]
fn test_rook_moves_open_board() {
    let rook_pos = Position { x: 3, y: 3 };
    let board = Board::new_from(vec![(Field::new_white(Rook), rook_pos.clone())]);

    let mut moves = Vec::new();
    get_moves(&board, &rook_pos, &mut moves);

    let mut expected = Vec::new();
    for i in 0..8usize {
        if i != 3 {
            expected.push(Position { x: i, y: 3 });
            expected.push(Position { x: 3, y: i });
        }
    }
    assert_eq!(expected.len(), 14);
    assert_moves(&expected, &moves);
}

#[test]
fn test_rook_stops_before_friendly_piece() {
    let rook_pos = Position { x: 0, y: 0 };
    let board = Board::new_from(vec![
        (Field::new_white(Rook), rook_pos.clone()),
        (Field::new_white(Pawn), Position { x: 0, y: 3 }),
    ]);

    let mut moves = Vec::new();
    get_moves(&board, &rook_pos, &mut moves);

    let mut expected = vec![Position { x: 0, y: 1 }, Position { x: 0, y: 2 }];
    for i in 1..8usize {
        expected.push(Position { x: i, y: 0 });
    }
    assert_moves(&expected, &moves);
}

#[test]
fn test_rook_captures_enemy_and_stops() {
    let rook_pos = Position { x: 0, y: 0 };
    let board = Board::new_from(vec![
        (Field::new_white(Rook), rook_pos.clone()),
        (Field::new_black(Pawn), Position { x: 0, y: 3 }),
    ]);

    let mut moves = Vec::new();
    get_moves(&board, &rook_pos, &mut moves);

    let mut expected = vec![
        Position { x: 0, y: 1 },
        Position { x: 0, y: 2 },
        Position { x: 0, y: 3 },
    ];
    for i in 1..8usize {
        expected.push(Position { x: i, y: 0 });
    }
    assert_moves(&expected, &moves);
    assert!(moves.iter().find(|pos| pos.x == 0 && pos.y == 4).is_none());
}

#[test]
fn test_bishop_moves_open_board() {
    let bishop_pos = Position { x: 4, y: 4 };
    let board = Board::new_from(vec![(Field::new_white(Bishop), bishop_pos.clone())]);

    let mut moves = Vec::new();
    get_moves(&board, &bishop_pos, &mut moves);

    let expected = vec![
        Position { x: 3, y: 5 },
        Position { x: 2, y: 6 },
        Position { x: 1, y: 7 },
        Position { x: 5, y: 5 },
        Position { x: 6, y: 6 },
        Position { x: 7, y: 7 },
        Position { x: 3, y: 3 },
        Position { x: 2, y: 2 },
        Position { x: 1, y: 1 },
        Position { x: 0, y: 0 },
        Position { x: 5, y: 3 },
        Position { x: 6, y: 2 },
        Position { x: 7, y: 1 },
    ];
    assert_moves(&expected, &moves);
}

#[test]
fn test_queen_moves_blocked_and_capturing() {
    let queen_pos = Position { x: 0, y: 0 };
    let board = Board::new_from(vec![
        (Field::new_white(Queen), queen_pos.clone()),
        (Field::new_white(Pawn), Position { x: 0, y: 2 }),
        (Field::new_black(Pawn), Position { x: 2, y: 2 }),
    ]);

    let mut moves = Vec::new();
    get_moves(&board, &queen_pos, &mut moves);

    let mut expected = vec![Position { x: 0, y: 1 }, Position { x: 1, y: 1 }, Position {
        x: 2,
        y: 2,
    }];
    for i in 1..8usize {
        expected.push(Position { x: i, y: 0 });
    }
    assert_moves(&expected, &moves);
}

#[test]
fn test_king_moves_center() {
    let king_pos = Position { x: 4, y: 4 };
    let board = Board::new_from(vec![(Field::new_white(King), king_pos.clone())]);

    let mut moves = Vec::new();
    get_moves(&board, &king_pos, &mut moves);

    let expected = vec![
        Position { x: 3, y: 3 },
        Position { x: 3, y: 4 },
        Position { x: 3, y: 5 },
        Position { x: 4, y: 3 },
        Position { x: 4, y: 5 },
        Position { x: 5, y: 3 },
        Position { x: 5, y: 4 },
        Position { x: 5, y: 5 },
    ];
    assert_moves(&expected, &moves);
}

#[test]
fn test_king_moves_corner() {
    let king_pos = Position { x: 0, y: 0 };
    let board = Board::new_from(vec![(Field::new_white(King), king_pos.clone())]);

    let mut moves = Vec::new();
    get_moves(&board, &king_pos, &mut moves);

    let expected = vec![
        Position { x: 1, y: 0 },
        Position { x: 0, y: 1 },
        Position { x: 1, y: 1 },
    ];
    assert_moves(&expected, &moves);
}

#[test]
fn test_king_skips_friend_captures_enemy() {
    let king_pos = Position { x: 4, y: 4 };
    let board = Board::new_from(vec![
        (Field::new_white(King), king_pos.clone()),
        (Field::new_white(Pawn), Position { x: 4, y: 5 }),
        (Field::new_black(Pawn), Position { x: 5, y: 5 }),
    ]);

    let mut moves = Vec::new();
    get_moves(&board, &king_pos, &mut moves);

    let expected = vec![
        Position { x: 3, y: 3 },
        Position { x: 3, y: 4 },
        Position { x: 3, y: 5 },
        Position { x: 4, y: 3 },
        Position { x: 5, y: 3 },
        Position { x: 5, y: 4 },
        Position { x: 5, y: 5 },
    ];
    assert_moves(&expected, &moves);
}
