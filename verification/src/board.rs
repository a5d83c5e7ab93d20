//! The 8x8 board: positions, squares, queries, and the one mutation.

use vstd::prelude::*;

use crate::errors::ErrorKind;
use crate::piece::{Color, PieceMoved, PieceState, Type};

verus! {

/// Squares per rank and per file.
pub const BOARD_WIDTH: usize = 8;

/// Total number of squares.
pub const BOARD_SIZE: usize = BOARD_WIDTH * BOARD_WIDTH;

/// Rank holding White's back-rank pieces in the initial layout.
pub const WHITE_START_ROW: usize = 0;

/// Rank holding White's pawns in the initial layout.
pub const WHITE_PAWN_ROW: usize = 1;

/// Rank holding Black's pawns in the initial layout.
pub const BLACK_PAWN_ROW: usize = 6;

/// Rank holding Black's back-rank pieces in the initial layout.
pub const BLACK_START_ROW: usize = 7;

/// True iff (x, y) lies on the 8x8 grid.
pub open spec fn on_board(x: int, y: int) -> bool {
    &&& 0 <= x < 8
    &&& 0 <= y < 8
}

/// A square coordinate: x is the file, y is the rank, each in [0, 7]
/// for any position that reaches a board lookup.
#[derive(Copy, Clone, Debug, PartialEq, Eq, Structural)]
pub struct Position {
    pub x: usize,
    pub y: usize,
}

impl Position {
    /// True iff this position lies on the board.
    pub open spec fn in_bounds(self) -> bool {
        on_board(self.x as int, self.y as int)
    }

    /// The index of this position in the board's flat square array.
    pub open spec fn spec_board_index(self) -> int {
        self.y * 8 + self.x
    }

    /// Unchecked offset: the caller guarantees the result stays on the board.
    pub fn delta(&self, x: isize, y: isize) -> (r: Position)
        requires
            self.in_bounds(),
            on_board(self.x as int + x as int, self.y as int + y as int),
        ensures
            r.x as int == self.x as int + x as int,
            r.y as int == self.y as int + y as int,
            r.in_bounds(),
    {
        Position { x: (self.x as isize + x) as usize, y: (self.y as isize + y) as usize }
    }

    /// Checked offset: `Ok` with the offset position exactly when the result
    /// stays on the board, the bounds error otherwise.
    pub fn delta_if_valid(&self, x: isize, y: isize) -> (r: Result<Position, ErrorKind>)
        requires
            self.in_bounds(),
            self.x as int + x as int <= isize::MAX as int,
            self.y as int + y as int <= isize::MAX as int,
        ensures
            match r {
                Ok(p) => on_board(self.x as int + x as int, self.y as int + y as int)
                    && p.x as int == self.x as int + x as int
                    && p.y as int == self.y as int + y as int,
                Err(e) => !on_board(self.x as int + x as int, self.y as int + y as int)
                    && e == ErrorKind::CoordinatesOutsideBoard,
            },
    {
        let new_x = self.x as isize + x;
        let new_y = self.y as isize + y;
        if new_x >= 0 && new_x < BOARD_WIDTH as isize && new_y >= 0 && new_y < BOARD_WIDTH as isize {
            Ok(Position { x: new_x as usize, y: new_y as usize })
        } else {
            Err(ErrorKind::CoordinatesOutsideBoard)
        }
    }

    /// Unchecked offset along the file axis.
    pub fn delta_x(&self, x: isize) -> (r: Position)
        requires
            self.in_bounds(),
            on_board(self.x as int + x as int, self.y as int),
        ensures
            r.x as int == self.x as int + x as int,
            r.y == self.y,
            r.in_bounds(),
    {
        Position { x: (self.x as isize + x) as usize, y: self.y }
    }

    /// Unchecked offset along the rank axis.
    pub fn delta_y(&self, y: isize) -> (r: Position)
        requires
            self.in_bounds(),
            on_board(self.x as int, self.y as int + y as int),
        ensures
            r.x == self.x,
            r.y as int == self.y as int + y as int,
            r.in_bounds(),
    {
        Position { x: self.x, y: (self.y as isize + y) as usize }
    }

    /// The index of this position in the board's flat square array.
    pub fn as_board_index(&self) -> (i: usize)
        requires
            self.in_bounds(),
        ensures
            i == self.spec_board_index(),
            i < 64,
    {
        self.y * BOARD_WIDTH + self.x
    }
}

/// One cell of the board: empty, or occupied by a piece.
#[derive(Copy, Clone, Debug, PartialEq, Eq, Structural)]
pub enum Field {
    Piece(PieceState),
    Empty,
}

impl Field {
    /// A black piece of the given kind that has not moved.
    pub fn new_black(piece_type: Type) -> (f: Field)
        ensures
            f == (Field::Piece(PieceState {
                piece_type,
                color: Color::Black,
                moved: PieceMoved::No,
            })),
    {
        Field::Piece(PieceState { piece_type, color: Color::Black, moved: PieceMoved::No })
    }

    /// A white piece of the given kind that has not moved.
    pub fn new_white(piece_type: Type) -> (f: Field)
        ensures
            f == (Field::Piece(PieceState {
                piece_type,
                color: Color::White,
                moved: PieceMoved::No,
            })),
    {
        Field::Piece(PieceState { piece_type, color: Color::White, moved: PieceMoved::No })
    }
}

impl Default for Field {
    /// An empty square.
    fn default() -> (f: Self)
        ensures
            f == Field::Empty,
    {
        Field::Empty
    }
}

/// The piece kind at file x of either back rank in the initial layout.
pub open spec fn back_rank(x: int) -> Type {
    if x == 0 || x == 7 {
        Type::Rook
    } else if x == 1 || x == 6 {
        Type::Knight
    } else if x == 2 || x == 5 {
        Type::Bishop
    } else if x == 3 {
        Type::Queen
    } else {
        Type::King
    }
}

/// The square contents at (x, y) in the initial layout.
pub open spec fn initial_field(x: int, y: int) -> Field {
    if y == 0 {
        Field::Piece(PieceState { piece_type: back_rank(x), color: Color::White, moved: PieceMoved::No })
    } else if y == 1 {
        Field::Piece(PieceState { piece_type: Type::Pawn, color: Color::White, moved: PieceMoved::No })
    } else if y == 6 {
        Field::Piece(PieceState { piece_type: Type::Pawn, color: Color::Black, moved: PieceMoved::No })
    } else if y == 7 {
        Field::Piece(PieceState { piece_type: back_rank(x), color: Color::Black, moved: PieceMoved::No })
    } else {
        Field::Empty
    }
}

/// The square contents at (x, y) after applying a placement list in order,
/// later placements overriding earlier ones; squares never placed are empty.
pub open spec fn placed_at(fields: Seq<(Field, Position)>, x: int, y: int) -> Field
    decreases fields.len(),
{
    if fields.len() == 0 {
        Field::Empty
    } else if fields.last().1.x as int == x && fields.last().1.y as int == y {
        fields.last().0
    } else {
        placed_at(fields.drop_last(), x, y)
    }
}

/// How one relocation changes a board: the destination takes the source's
/// contents, the source is cleared (unless source and destination coincide),
/// and every other square keeps its contents.
pub open spec fn relocated(pre: Board, post: Board, from: Position, to: Position) -> bool {
    &&& post.spec_at(to.x as int, to.y as int) == pre.spec_at(from.x as int, from.y as int)
    &&& (from != to ==> post.spec_at(from.x as int, from.y as int) == Field::Empty)
    &&& forall|x: int, y: int|
        on_board(x, y) && !(x == from.x as int && y == from.y as int) && !(x == to.x as int
            && y == to.y as int) ==> #[trigger] post.spec_at(x, y) == pre.spec_at(x, y)
}

/// The board: a flat array of 64 squares, addressed as y * 8 + x.
pub struct Board {
    board: [Field; 64],
}

impl Board {
    /// The square contents at (x, y).
    pub closed spec fn spec_at(self, x: int, y: int) -> Field {
        self.board@[y * 8 + x]
    }

    /// True iff the square at (x, y) is empty.
    pub open spec fn spec_empty(self, x: int, y: int) -> bool {
        self.spec_at(x, y) == Field::Empty
    }

    /// True iff the square at (x, y) holds a piece of exactly this color.
    pub open spec fn spec_color(self, x: int, y: int, color: Color) -> bool {
        match self.spec_at(x, y) {
            Field::Piece(state) => state.color == color,
            Field::Empty => false,
        }
    }

    /// True iff a piece of `color` may land at (x, y): the square is empty
    /// (a quiet move) or holds a piece of that color (a capture, when called
    /// with the opposite color of the mover).
    pub open spec fn spec_empty_or_color(self, x: int, y: int, color: Color) -> bool {
        self.spec_empty(x, y) || self.spec_color(x, y, color)
    }

    /// The square's contents at a position.
    pub fn value_at(&self, pos: &Position) -> (f: &Field)
        requires
            pos.in_bounds(),
        ensures
            *f == self.spec_at(pos.x as int, pos.y as int),
    {
        &self.board[pos.y * BOARD_WIDTH + pos.x]
    }

    /// True iff the square at `pos` holds a piece of exactly `color`.
    pub fn is_color(&self, pos: &Position, color: &Color) -> (r: bool)
        requires
            pos.in_bounds(),
        ensures
            r == self.spec_color(pos.x as int, pos.y as int, *color),
    {
        match self.value_at(pos) {
            Field::Empty => false,
            Field::Piece(state) => state.color == *color,
        }
    }

    /// True iff the square at `pos` is empty.
    pub fn is_empty(&self, pos: &Position) -> (r: bool)
        requires
            pos.in_bounds(),
        ensures
            r == self.spec_empty(pos.x as int, pos.y as int),
    {
        match self.value_at(pos) {
            Field::Empty => true,
            Field::Piece(_) => false,
        }
    }

    /// True iff the square at `pos` is empty or holds a piece of `color`.
    pub fn is_empty_or_color(&self, pos: &Position, color: &Color) -> (r: bool)
        requires
            pos.in_bounds(),
        ensures
            r == self.spec_empty_or_color(pos.x as int, pos.y as int, *color),
    {
        match self.value_at(pos) {
            Field::Empty => true,
            Field::Piece(state) => state.color == *color,
        }
    }

    /// Moves whatever occupies `from` into `to` (overwriting any capture
    /// victim there) and clears `from`. No legality check is performed.
    pub fn move_piece(&mut self, from: &Position, to: &Position)
        requires
            from.in_bounds(),
            to.in_bounds(),
        ensures
            relocated(*old(self), *final(self), *from, *to),
    {
        let from_index = from.as_board_index();
        let to_index = to.as_board_index();
        let source = self.board[from_index];
        self.board[from_index] = Field::Empty;
        self.board[to_index] = source;
    }
}

impl Board {
    /// A board in the initial layout: back-rank pieces on ranks 0 and 7,
    /// pawns on ranks 1 and 6, everything else empty, nothing moved yet.
    pub fn new() -> (b: Board)
        ensures
            forall|x: int, y: int| on_board(x, y) ==> #[trigger] b.spec_at(x, y) == initial_field(x, y),
    {
        let mut board: [Field; 64] = [Field::Empty; 64];
        Board::init_white_row(
            &mut board,
            WHITE_START_ROW,
            [Type::Rook, Type::Knight, Type::Bishop, Type::Queen, Type::King, Type::Bishop, Type::Knight, Type::Rook],
        );
        Board::init_white_row(
            &mut board,
            WHITE_PAWN_ROW,
            [Type::Pawn, Type::Pawn, Type::Pawn, Type::Pawn, Type::Pawn, Type::Pawn, Type::Pawn, Type::Pawn],
        );
        Board::init_black_row(
            &mut board,
            BLACK_PAWN_ROW,
            [Type::Pawn, Type::Pawn, Type::Pawn, Type::Pawn, Type::Pawn, Type::Pawn, Type::Pawn, Type::Pawn],
        );
        Board::init_black_row(
            &mut board,
            BLACK_START_ROW,
            [Type::Rook, Type::Knight, Type::Bishop, Type::Queen, Type::King, Type::Bishop, Type::Knight, Type::Rook],
        );
        let b = Board { board };
        proof {
            assert forall|x: int, y: int| on_board(x, y) implies #[trigger] b.spec_at(x, y)
                == initial_field(x, y) by {
                assert(b.spec_at(x, y) == b.board@[y * 8 + x]);
            }
        }
        b
    }

    /// A board holding exactly the given placements, applied in order, with
    /// every other square empty. Used to stage arbitrary scenarios.
    pub fn new_from(fields: Vec<(Field, Position)>) -> (b: Board)
        requires
            forall|i: int| 0 <= i < fields@.len() ==> (#[trigger] fields@[i]).1.in_bounds(),
        ensures
            forall|x: int, y: int|
                on_board(x, y) ==> #[trigger] b.spec_at(x, y) == placed_at(fields@, x, y),
    {
        let mut board: [Field; 64] = [Field::Empty; 64];
        let n = fields.len();
        let mut i: usize = 0;
        while i < n
            invariant
                n == fields@.len(),
                i <= n,
                forall|j: int| 0 <= j < fields@.len() ==> (#[trigger] fields@[j]).1.in_bounds(),
                forall|x: int, y: int|
                    on_board(x, y) ==> board@[y * 8 + x] == #[trigger] placed_at(
                        fields@.take(i as int),
                        x,
                        y,
                    ),
            decreases n - i,
        {
            let placement = &fields[i];
            let index = placement.1.as_board_index();
            let ghost prev = board@;
            board[index] = placement.0;
            proof {
                let taken = fields@.take(i + 1 as int);
                assert(taken.drop_last() =~= fields@.take(i as int));
                assert(taken.last() == fields@[i as int]);
                assert forall|x: int, y: int| on_board(x, y) implies board@[y * 8 + x]
                    == #[trigger] placed_at(taken, x, y) by {
                    let p = fields@[i as int].1;
                    if x == p.x as int && y == p.y as int {
                        assert(board@[y * 8 + x] == fields@[i as int].0);
                    } else {
                        assert(y * 8 + x != p.spec_board_index());
                        assert(board@[y * 8 + x] == prev[y * 8 + x]);
                        assert(placed_at(taken, x, y) == placed_at(fields@.take(i as int), x, y));
                    }
                }
            }
            i = i + 1;
        }
        proof {
            assert(fields@.take(n as int) =~= fields@);
        }
        Board { board }
    }

    /// Fills `row` with black pieces of the given kinds, one per file.
    fn init_black_row(board: &mut [Field; 64], row: usize, types: [Type; 8])
        requires
            row < 8,
        ensures
            forall|j: int|
                0 <= j < 64 && !(row * 8 <= j < row * 8 + 8) ==> final(board)@[j] == old(board)@[j],
            forall|j: int|
                0 <= j < 8 ==> final(board)@[row * 8 + j] == (Field::Piece(PieceState {
                    piece_type: #[trigger] types@[j],
                    color: Color::Black,
                    moved: PieceMoved::No,
                })),
    {
        let start = row * BOARD_WIDTH;
        let mut i: usize = 0;
        while i < 8
            invariant
                row < 8,
                start == row * 8,
                i <= 8,
                forall|j: int|
                    0 <= j < 64 && !(row * 8 <= j < row * 8 + i) ==> board@[j] == old(board)@[j],
                forall|j: int|
                    0 <= j < i ==> board@[row * 8 + j] == (Field::Piece(PieceState {
                        piece_type: #[trigger] types@[j],
                        color: Color::Black,
                        moved: PieceMoved::No,
                    })),
            decreases 8 - i,
        {
            board[start + i] = Field::new_black(types[i]);
            i = i + 1;
        }
    }

    /// Fills `row` with white pieces of the given kinds, one per file.
    fn init_white_row(board: &mut [Field; 64], row: usize, types: [Type; 8])
        requires
            row < 8,
        ensures
            forall|j: int|
                0 <= j < 64 && !(row * 8 <= j < row * 8 + 8) ==> final(board)@[j] == old(board)@[j],
            forall|j: int|
                0 <= j < 8 ==> final(board)@[row * 8 + j] == (Field::Piece(PieceState {
                    piece_type: #[trigger] types@[j],
                    color: Color::White,
                    moved: PieceMoved::No,
                })),
    {
        let start = row * BOARD_WIDTH;
        let mut i: usize = 0;
        while i < 8
            invariant
                row < 8,
                start == row * 8,
                i <= 8,
                forall|j: int|
                    0 <= j < 64 && !(row * 8 <= j < row * 8 + i) ==> board@[j] == old(board)@[j],
                forall|j: int|
                    0 <= j < i ==> board@[row * 8 + j] == (Field::Piece(PieceState {
                        piece_type: #[trigger] types@[j],
                        color: Color::White,
                        moved: PieceMoved::No,
                    })),
            decreases 8 - i,
        {
            board[start + i] = Field::new_white(types[i]);
            i = i + 1;
        }
    }
}

/// A second relocation that sends a piece back where it came from restores
/// the origin square, and leaves the way station empty, whenever the way
/// station was empty to begin with.
pub proof fn lemma_relocate_round_trip(b0: Board, b1: Board, b2: Board, p1: Position, p2: Position)
    requires
        p1.in_bounds(),
        p2.in_bounds(),
        b0.spec_empty(p2.x as int, p2.y as int),
        relocated(b0, b1, p1, p2),
        relocated(b1, b2, p2, p1),
    ensures
        b2.spec_at(p1.x as int, p1.y as int) == b0.spec_at(p1.x as int, p1.y as int),
        b2.spec_empty(p2.x as int, p2.y as int),
{
}

} // verus!
