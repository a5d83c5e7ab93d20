use chess_moves::board::{Board, Field, Position};
use chess_moves::moves::get_moves;
use chess_moves::piece::Type::{Knight, Pawn};

fn assert_moves(expected: &Vec<Position>, actual: &Vec<Position>) {
    assert_eq!(expected.len(), actual.len());
    for expected_pos in expected {
        assert!(actual.iter().find(|pos| &expected_pos == pos).is_some());
    }
}

#[test]
fn test_knight_moves() {
    let tested_knight_pos = Position { x: 1, y: 1 };
    let board = Board::new_from(vec![
        (Field::new_white(Knight), tested_knight_pos.clone()),
    ]);

    let mut moves = Vec::new();
    get_moves(&board, &tested_knight_pos, &mut moves);
    assert_moves(
        &vec![
            Position { x: 0, y: 3 },
            Position { x: 2, y: 3 },
            Position { x: 3, y: 2 },
            Position { x: 3, y: 0 },
        ],
        &moves,
    );
}

#[test]
fn test_knight_moves_2() {
    let tested_knight_pos = Position { x: 4, y: 4 };
    let board = Board::new_from(vec![
        (Field::new_white(Knight), tested_knight_pos.clone()),
    ]);

    let mut moves = Vec::new();
    get_moves(&board, &tested_knight_pos, &mut moves);
    assert_moves(
        &vec![
            Position { x: 6, y: 5 },
            Position { x: 6, y: 3 },
            Position { x: 5, y: 6 },
            Position { x: 5, y: 2 },
            Position { x: 3, y: 6 },
            Position { x: 3, y: 2 },
            Position { x: 2, y: 5 },
            Position { x: 2, y: 3 },
        ],
        &moves,
    );
}

#[test]
fn test_knight_moves_3() {
    let tested_knight_pos = Position { x: 4, y: 4 };
    let board = Board::new_from(vec![
        (Field::new_white(Knight), tested_knight_pos.clone()),
        (Field::new_white(Pawn), Position { x: 6, y: 5 }),
        (Field::new_white(Pawn), Position { x: 2, y: 3 }),
        (Field::new_black(Pawn), Position { x: 6, y: 3 }),
    ]);

    let mut moves = Vec::new();
    get_moves(&board, &tested_knight_pos, &mut moves);
    assert_moves(
        &vec![
            Position { x: 6, y: 3 },
            Position { x: 5, y: 6 },
            Position { x: 5, y: 2 },
            Position { x: 3, y: 6 },
            Position { x: 3, y: 2 },
            Position { x: 2, y: 5 },
        ],
        &moves,
    );
}
