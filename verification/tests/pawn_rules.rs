use chess_moves::board::{Board, Field, Position};
use chess_moves::moves::get_moves;
use chess_moves::piece::Color::White;
use chess_moves::piece::Type::Pawn;
use chess_moves::piece::{PieceMoved, PieceState};

fn assert_moves(expected: &Vec<Position>, actual: &Vec<Position>) {
    assert_eq!(expected.len(), actual.len());
    for expected_pos in expected {
        assert!(actual.iter().find(|pos| &expected_pos == pos).is_some());
    }
}

#[test]
fn test_black_pawn_moves_down() {
    let pawn_pos = Position { x: 1, y: 6 };
    let board = Board::new_from(vec![
        (Field::new_black(Pawn), pawn_pos.clone()),
        (Field::new_white(Pawn), Position { x: 0, y: 5 }),
    ]);

    let mut moves = Vec::new();
    get_moves(&board, &pawn_pos, &mut moves);
    assert_moves(
        &vec![
            Position { x: 1, y: 5 },
            Position { x: 1, y: 4 },
            Position { x: 0, y: 5 },
        ],
        &moves,
    );
}

#[test]
fn test_pawn_double_step_needs_far_square_empty() {
    let pawn_pos = Position { x: 1, y: 1 };
    let board = Board::new_from(vec![
        (Field::new_white(Pawn), pawn_pos.clone()),
        (Field::new_black(Pawn), Position { x: 1, y: 3 }),
    ]);

    let mut moves = Vec::new();
    get_moves(&board, &pawn_pos, &mut moves);
    assert_moves(&vec![Position { x: 1, y: 2 }], &moves);
}

#[test]
fn test_pawn_cannot_skip_over_occupant() {
    let pawn_pos = Position { x: 1, y: 1 };
    let board = Board::new_from(vec![
        (Field::new_white(Pawn), pawn_pos.clone()),
        (Field::new_black(Pawn), Position { x: 1, y: 2 }),
    ]);

    let mut moves = Vec::new();
    get_moves(&board, &pawn_pos, &mut moves);
    assert!(moves.is_empty());
}

#[test]
fn test_pawn_moved_last_turn_has_no_double_step() {
    let pawn_pos = Position { x: 1, y: 2 };
    let board = Board::new_from(vec![
        (
            Field::Piece(PieceState {
                piece_type: Pawn,
                color: White,
                moved: PieceMoved::LastTurn,
            }),
            pawn_pos.clone(),
        ),
    ]);

    let mut moves = Vec::new();
    get_moves(&board, &pawn_pos, &mut moves);
    assert_moves(&vec![Position { x: 1, y: 3 }], &moves);
}

#[test]
fn test_pawn_never_captures_friendly_diagonal() {
    let pawn_pos = Position { x: 1, y: 1 };
    let board = Board::new_from(vec![
        (Field::new_white(Pawn), pawn_pos.clone()),
        (Field::new_white(Pawn), Position { x: 0, y: 2 }),
    ]);

    let mut moves = Vec::new();
    get_moves(&board, &pawn_pos, &mut moves);
    assert_moves(&vec![Position { x: 1, y: 2 }, Position { x: 1, y: 3 }], &moves);
}

#[test]
fn test_pawn_at_file_edges_skips_off_board_diagonals() {
    let left_pawn = Position { x: 0, y: 4 };
    let right_pawn = Position { x: 7, y: 4 };
    let board = Board::new_from(vec![
        (
            Field::Piece(PieceState { piece_type: Pawn, color: White, moved: PieceMoved::Yes }),
            left_pawn.clone(),
        ),
        (
            Field::Piece(PieceState { piece_type: Pawn, color: White, moved: PieceMoved::Yes }),
            right_pawn.clone(),
        ),
        (Field::new_black(Pawn), Position { x: 1, y: 5 }),
        (Field::new_black(Pawn), Position { x: 6, y: 5 }),
    ]);

    let mut moves = Vec::new();
    get_moves(&board, &left_pawn, &mut moves);
    assert_moves(&vec![Position { x: 0, y: 5 }, Position { x: 1, y: 5 }], &moves);

    moves.clear();
    get_moves(&board, &right_pawn, &mut moves);
    assert_moves(&vec![Position { x: 7, y: 5 }, Position { x: 6, y: 5 }], &moves);
}
