use chess_moves::board::{Board, Field, Position};
use chess_moves::errors::ErrorKind;
use chess_moves::moves::get_moves;
use chess_moves::piece::Color::{Black, White};
use chess_moves::piece::Type::{Bishop, King, Knight, Pawn, Queen, Rook};
use chess_moves::piece::{PieceMoved, PieceState};

#[test]
fn test_initial_layout() {
    let board = Board::new();
    let back_rank = [Rook, Knight, Bishop, Queen, King, Bishop, Knight, Rook];
    for x in 0..8usize {
        assert_eq!(
            *board.value_at(&Position { x, y: 0 }),
            Field::new_white(back_rank[x])
        );
        assert_eq!(*board.value_at(&Position { x, y: 1 }), Field::new_white(Pawn));
        assert_eq!(*board.value_at(&Position { x, y: 6 }), Field::new_black(Pawn));
        assert_eq!(
            *board.value_at(&Position { x, y: 7 }),
            Field::new_black(back_rank[x])
        );
        for y in 2..6usize {
            assert_eq!(*board.value_at(&Position { x, y }), Field::Empty);
        }
    }
}

#[test]
fn test_empty_square_generates_nothing() {
    let board = Board::new();
    let mut moves = Vec::new();
    get_moves(&board, &Position { x: 4, y: 4 }, &mut moves);
    assert!(moves.is_empty());

    let bare = Board::new_from(vec![]);
    get_moves(&bare, &Position { x: 0, y: 0 }, &mut moves);
    assert!(moves.is_empty());
}

#[test]
fn test_move_piece_round_trip() {
    let mut board = Board::new();
    let p1 = Position { x: 1, y: 0 };
    let p2 = Position { x: 2, y: 2 };
    let original = *board.value_at(&p1);
    assert_eq!(original, Field::new_white(Knight));
    assert!(board.is_empty(&p2));

    board.move_piece(&p1, &p2);
    assert!(board.is_empty(&p1));
    assert_eq!(*board.value_at(&p2), original);

    board.move_piece(&p2, &p1);
    assert_eq!(*board.value_at(&p1), original);
    assert!(board.is_empty(&p2));
}

#[test]
fn test_move_piece_capture_overwrites_destination() {
    let mut board = Board::new();
    let from = Position { x: 0, y: 1 };
    let to = Position { x: 0, y: 6 };
    let attacker = *board.value_at(&from);
    assert_eq!(*board.value_at(&to), Field::new_black(Pawn));

    board.move_piece(&from, &to);
    assert_eq!(*board.value_at(&to), attacker);
    assert!(board.is_empty(&from));
}

#[test]
fn test_board_queries() {
    let board = Board::new_from(vec![
        (Field::new_white(Rook), Position { x: 3, y: 3 }),
        (Field::new_black(Pawn), Position { x: 4, y: 4 }),
    ]);

    assert!(board.is_color(&Position { x: 3, y: 3 }, &White));
    assert!(!board.is_color(&Position { x: 3, y: 3 }, &Black));
    assert!(board.is_color(&Position { x: 4, y: 4 }, &Black));
    assert!(!board.is_color(&Position { x: 0, y: 0 }, &White));

    assert!(board.is_empty(&Position { x: 0, y: 0 }));
    assert!(!board.is_empty(&Position { x: 3, y: 3 }));

    assert!(board.is_empty_or_color(&Position { x: 0, y: 0 }, &White));
    assert!(board.is_empty_or_color(&Position { x: 3, y: 3 }, &White));
    assert!(!board.is_empty_or_color(&Position { x: 3, y: 3 }, &Black));
}

#[test]
fn test_new_from_later_placement_wins() {
    let pos = Position { x: 2, y: 2 };
    let board = Board::new_from(vec![
        (Field::new_white(Rook), pos.clone()),
        (Field::new_black(Queen), pos.clone()),
    ]);
    assert_eq!(*board.value_at(&pos), Field::new_black(Queen));
}

#[test]
fn test_delta_offsets() {
    let pos = Position { x: 3, y: 4 };
    assert_eq!(pos.delta(2, -1), Position { x: 5, y: 3 });
    assert_eq!(pos.delta_x(-3), Position { x: 0, y: 4 });
    assert_eq!(pos.delta_y(3), Position { x: 3, y: 7 });
    assert_eq!(pos.as_board_index(), 4 * 8 + 3);
}

#[test]
fn test_delta_if_valid() {
    let pos = Position { x: 6, y: 6 };
    assert_eq!(pos.delta_if_valid(1, 1), Ok(Position { x: 7, y: 7 }));
    assert_eq!(pos.delta_if_valid(2, 0), Err(ErrorKind::CoordinatesOutsideBoard));
    assert_eq!(
        Position { x: 0, y: 0 }.delta_if_valid(-1, 0),
        Err(ErrorKind::CoordinatesOutsideBoard)
    );
}

#[test]
fn test_color_opposite() {
    assert_eq!(White.opposite(), Black);
    assert_eq!(Black.opposite(), White);
}

#[test]
fn test_error_message() {
    let err = ErrorKind::CoordinatesOutsideBoard;
    assert_eq!(err.to_str(), "coordinates are outside legal board boundaries");
}

#[test]
fn test_field_constructors() {
    assert_eq!(
        Field::new_white(Knight),
        Field::Piece(PieceState { piece_type: Knight, color: White, moved: PieceMoved::No })
    );
    assert_eq!(
        Field::new_black(Queen),
        Field::Piece(PieceState { piece_type: Queen, color: Black, moved: PieceMoved::No })
    );
    assert_eq!(Field::default(), Field::Empty);
}

#[test]
fn test_fmt_utf8_glyphs() {
    let white_king = PieceState { piece_type: King, color: White, moved: PieceMoved::No };
    assert_eq!(white_king.fmt_utf8(), "\x1B[38;2;0;0;0m\u{2654}\x1B[0m");
    let black_pawn = PieceState { piece_type: Pawn, color: Black, moved: PieceMoved::No };
    assert_eq!(black_pawn.fmt_utf8(), "\x1B[38;2;0;0;0m\u{265F}\u{FE0E}\x1B[0m");
}
