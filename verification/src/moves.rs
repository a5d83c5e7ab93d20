//! Pseudo-legal move generation: which squares the piece on a given square
//! could move to, ignoring check legality.

use vstd::prelude::*;

use crate::board::{on_board, Board, Field, Position, BOARD_WIDTH};
use crate::errors::ErrorKind;
use crate::piece::{Color, PieceMoved, PieceState, Type};

verus! {

/// The rank direction a pawn of this color advances: +1 for White, -1 for
/// Black.
pub open spec fn forward_of(color: Color) -> int {
    match color {
        Color::White => 1,
        Color::Black => -1,
    }
}

/// True iff the square `i` steps along direction (dx, dy) from (fx, fy) is
/// on the board and empty.
pub open spec fn ray_step_ok(b: Board, fx: int, fy: int, dx: int, dy: int, i: int) -> bool {
    &&& on_board(fx + i * dx, fy + i * dy)
    &&& b.spec_empty(fx + i * dx, fy + i * dy)
}

/// True iff (x, y) is exactly `k` steps along direction (dx, dy) from
/// (fx, fy), every strictly earlier step lands on an empty board square, and
/// (x, y) itself is on the board and empty or holds a piece of `capture`.
pub open spec fn ray_dest_at(
    b: Board,
    fx: int,
    fy: int,
    dx: int,
    dy: int,
    capture: Color,
    x: int,
    y: int,
    k: int,
) -> bool {
    &&& 1 <= k
    &&& x == fx + k * dx
    &&& y == fy + k * dy
    &&& on_board(x, y)
    &&& forall|i: int| 1 <= i < k ==> #[trigger] ray_step_ok(b, fx, fy, dx, dy, i)
    &&& b.spec_empty_or_color(x, y, capture)
}

/// True iff (x, y) is reachable by sliding from (fx, fy) along direction
/// (dx, dy): some number of steps away, with nothing in between, landing on
/// an empty square or capturing a piece of `capture`.
pub open spec fn ray_dest(
    b: Board,
    fx: int,
    fy: int,
    dx: int,
    dy: int,
    capture: Color,
    x: int,
    y: int,
) -> bool {
    exists|k: int| #[trigger] ray_dest_at(b, fx, fy, dx, dy, capture, x, y, k)
}

/// True iff (x, y) is a knight's jump away from `from`.
pub open spec fn knight_offset(fx: int, fy: int, x: int, y: int) -> bool {
    ||| (x == fx - 2 && y == fy + 1)
    ||| (x == fx - 2 && y == fy - 1)
    ||| (x == fx - 1 && y == fy - 2)
    ||| (x == fx + 1 && y == fy - 2)
    ||| (x == fx + 2 && y == fy - 1)
    ||| (x == fx + 2 && y == fy + 1)
    ||| (x == fx + 1 && y == fy + 2)
    ||| (x == fx - 1 && y == fy + 2)
}

/// True iff (x, y) is one king's step away from (fx, fy): at most one square
/// along each axis, and not the origin itself.
pub open spec fn king_offset(fx: int, fy: int, x: int, y: int) -> bool {
    &&& -1 <= x - fx <= 1
    &&& -1 <= y - fy <= 1
    &&& !(x == fx && y == fy)
}

/// A knight on `from` may move to (x, y): a knight's jump landing on the
/// board, on an empty square or on a piece of `capture`.
pub open spec fn knight_dest(b: Board, from: Position, capture: Color, x: int, y: int) -> bool {
    &&& on_board(x, y)
    &&& knight_offset(from.x as int, from.y as int, x, y)
    &&& b.spec_empty_or_color(x, y, capture)
}

/// A king on `from` may move to (x, y): one step in any direction landing on
/// the board, on an empty square or on a piece of `capture`.
pub open spec fn king_dest(b: Board, from: Position, capture: Color, x: int, y: int) -> bool {
    &&& on_board(x, y)
    &&& king_offset(from.x as int, from.y as int, x, y)
    &&& b.spec_empty_or_color(x, y, capture)
}

/// A rook on `from` may move to (x, y): a slide along one of the four
/// orthogonal directions.
pub open spec fn rook_dest(b: Board, from: Position, capture: Color, x: int, y: int) -> bool {
    ||| ray_dest(b, from.x as int, from.y as int, 1, 0, capture, x, y)
    ||| ray_dest(b, from.x as int, from.y as int, -1, 0, capture, x, y)
    ||| ray_dest(b, from.x as int, from.y as int, 0, 1, capture, x, y)
    ||| ray_dest(b, from.x as int, from.y as int, 0, -1, capture, x, y)
}

/// A bishop on `from` may move to (x, y): a slide along one of the four
/// diagonal directions.
pub open spec fn bishop_dest(b: Board, from: Position, capture: Color, x: int, y: int) -> bool {
    ||| ray_dest(b, from.x as int, from.y as int, -1, -1, capture, x, y)
    ||| ray_dest(b, from.x as int, from.y as int, -1, 1, capture, x, y)
    ||| ray_dest(b, from.x as int, from.y as int, 1, -1, capture, x, y)
    ||| ray_dest(b, from.x as int, from.y as int, 1, 1, capture, x, y)
}

/// A queen on `from` may move to (x, y): a rook's or a bishop's slide.
pub open spec fn queen_dest(b: Board, from: Position, capture: Color, x: int, y: int) -> bool {
    ||| rook_dest(b, from, capture, x, y)
    ||| bishop_dest(b, from, capture, x, y)
}

/// A pawn on `from` in `state` may move to (x, y): one square forward onto
/// an empty square; two squares forward onto an empty square, over an empty
/// square, if it has never moved; or one square diagonally forward onto a
/// piece of the opposite color.
pub open spec fn pawn_dest(b: Board, from: Position, state: PieceState, x: int, y: int) -> bool {
    let f = forward_of(state.color);
    let fx = from.x as int;
    let fy = from.y as int;
    ||| (x == fx && y == fy + f && on_board(x, y) && b.spec_empty(x, y))
    ||| (x == fx && y == fy + 2 * f && state.moved == PieceMoved::No && on_board(x, y)
        && b.spec_empty(fx, fy + f) && b.spec_empty(x, y))
    ||| ((x == fx - 1 || x == fx + 1) && y == fy + f && on_board(x, y)
        && b.spec_color(x, y, state.color.spec_opposite()))
}

/// A piece in `state` on `from` may move to (x, y), by the rule of its kind.
pub open spec fn piece_dest(b: Board, from: Position, state: PieceState, x: int, y: int) -> bool {
    match state.piece_type {
        Type::Pawn => pawn_dest(b, from, state, x, y),
        Type::Knight => knight_dest(b, from, state.color.spec_opposite(), x, y),
        Type::Bishop => bishop_dest(b, from, state.color.spec_opposite(), x, y),
        Type::Queen => queen_dest(b, from, state.color.spec_opposite(), x, y),
        Type::Rook => rook_dest(b, from, state.color.spec_opposite(), x, y),
        Type::King => king_dest(b, from, state.color.spec_opposite(), x, y),
    }
}

/// The piece on `from` (if any) may move to (x, y). On an empty square no
/// destination is allowed.
pub open spec fn move_dest(b: Board, from: Position, x: int, y: int) -> bool {
    match b.spec_at(from.x as int, from.y as int) {
        Field::Empty => false,
        Field::Piece(state) => piece_dest(b, from, state, x, y),
    }
}

/// True iff `post` keeps every element of `pre`, in place, and only appends.
pub open spec fn extends(pre: Seq<Position>, post: Seq<Position>) -> bool {
    &&& post.len() >= pre.len()
    &&& forall|i: int| 0 <= i < pre.len() ==> post[i] == pre[i]
}

/// True iff the element of `s` at index `i` exists at or past `lo` and has
/// coordinates (x, y).
pub open spec fn pos_found_at(s: Seq<Position>, lo: int, x: int, y: int, i: int) -> bool {
    &&& lo <= i < s.len()
    &&& s[i].x as int == x
    &&& s[i].y as int == y
}

/// True iff some element of `s` at an index at or past `lo` has coordinates
/// (x, y).
pub open spec fn seq_has_pos(s: Seq<Position>, lo: int, x: int, y: int) -> bool {
    exists|i: int| #[trigger] pos_found_at(s, lo, x, y, i)
}

proof fn lemma_extends_trans(a: Seq<Position>, b: Seq<Position>, c: Seq<Position>)
    requires
        extends(a, b),
        extends(b, c),
    ensures
        extends(a, c),
{
}

proof fn lemma_has_pos_extends(s1: Seq<Position>, s2: Seq<Position>, lo: int, x: int, y: int)
    requires
        0 <= lo,
        seq_has_pos(s1, lo, x, y),
        extends(s1, s2),
    ensures
        seq_has_pos(s2, lo, x, y),
{
    let i0 = choose|i: int| #[trigger] pos_found_at(s1, lo, x, y, i);
    assert(s2[i0] == s1[i0]);
    assert(pos_found_at(s2, lo, x, y, i0));
}

proof fn lemma_has_pos_widen(s: Seq<Position>, lo1: int, lo2: int, x: int, y: int)
    requires
        seq_has_pos(s, lo1, x, y),
        lo2 <= lo1,
    ensures
        seq_has_pos(s, lo2, x, y),
{
    let i0 = choose|i: int| #[trigger] pos_found_at(s, lo1, x, y, i);
    assert(pos_found_at(s, lo2, x, y, i0));
}

/// The forward squares a pawn's rule inspects stay on the board: one rank
/// ahead always, two ranks ahead if the pawn has never moved. Pieces other
/// than pawns ask nothing. A pawn staged on its own last rank (impossible in
/// a game, where it would have promoted) is a caller contract violation.
pub open spec fn pawn_steps_on_board(state: PieceState, pos: Position) -> bool {
    state.piece_type == Type::Pawn ==> {
        let f = forward_of(state.color);
        &&& 0 <= pos.y as int + f < 8
        &&& (state.moved == PieceMoved::No ==> 0 <= pos.y as int + 2 * f < 8)
    }
}

/// `pawn_steps_on_board` for whatever piece occupies `pos`: what `get_moves`
/// asks of its caller.
pub open spec fn pawn_rank_ok(b: Board, pos: Position) -> bool {
    match b.spec_at(pos.x as int, pos.y as int) {
        Field::Empty => true,
        Field::Piece(state) => pawn_steps_on_board(state, pos),
    }
}

/// True iff the elements of `s` at indexes at or past `lo` are pairwise
/// distinct.
pub open spec fn distinct_from(s: Seq<Position>, lo: int) -> bool {
    forall|i: int, j: int| lo <= i < j < s.len() ==> s[i] != s[j]
}

proof fn lemma_ray_region(
    b: Board,
    fx: int,
    fy: int,
    dx: int,
    dy: int,
    capture: Color,
    x: int,
    y: int,
)
    requires
        -1 <= dx <= 1,
        -1 <= dy <= 1,
        !(dx == 0 && dy == 0),
        ray_dest(b, fx, fy, dx, dy, capture, x, y),
    ensures
        dx == 1 ==> x > fx,
        dx == 0 ==> x == fx,
        dx == -1 ==> x < fx,
        dy == 1 ==> y > fy,
        dy == 0 ==> y == fy,
        dy == -1 ==> y < fy,
{
    let k = choose|k: int| #[trigger] ray_dest_at(b, fx, fy, dx, dy, capture, x, y, k);
    assert((dx == 1 ==> k * dx == k) && (dx == 0 ==> k * dx == 0) && (dx == -1 ==> k * dx == -k)
        && (dy == 1 ==> k * dy == k) && (dy == 0 ==> k * dy == 0) && (dy == -1 ==> k * dy == -k))
        by (nonlinear_arith);
}

proof fn lemma_mul_step(k: int, d: int)
    by (nonlinear_arith)
    ensures
        (k + 1) * d == k * d + d,
{
}

proof fn lemma_step_bound(fx: int, fy: int, dx: int, dy: int, k: int)
    by (nonlinear_arith)
    requires
        0 <= fx < 8,
        0 <= fy < 8,
        -1 <= dx <= 1,
        -1 <= dy <= 1,
        !(dx == 0 && dy == 0),
        0 <= k,
        0 <= fx + k * dx < 8,
        0 <= fy + k * dy < 8,
    ensures
        k <= 7,
{
}

proof fn lemma_ray_index_unique(dx: int, dy: int, k1: int, k2: int)
    by (nonlinear_arith)
    requires
        !(dx == 0 && dy == 0),
        k1 * dx == k2 * dx,
        k1 * dy == k2 * dy,
    ensures
        k1 == k2,
{
}

/// Walks outward from `piece_pos` one (delta_x, delta_y) step at a time,
/// appending every empty square passed and, if the walk ends on a piece of
/// `opposite_color`, that capture square; it stops at the board edge or at
/// the first occupied square. The appended positions are exactly the sliding
/// destinations along this direction.
fn get_moves_loop(
    board: &Board,
    piece_pos: &Position,
    opposite_color: Color,
    delta_x: isize,
    delta_y: isize,
    moves: &mut Vec<Position>,
)
    requires
        piece_pos.in_bounds(),
        -1 <= delta_x <= 1,
        -1 <= delta_y <= 1,
        !(delta_x == 0 && delta_y == 0),
    ensures
        extends(old(moves)@, final(moves)@),
        forall|i: int|
            old(moves)@.len() <= i < final(moves)@.len() ==> (#[trigger] final(moves)@[i]).in_bounds()
                && ray_dest(
                *board,
                piece_pos.x as int,
                piece_pos.y as int,
                delta_x as int,
                delta_y as int,
                opposite_color,
                final(moves)@[i].x as int,
                final(moves)@[i].y as int,
            ),
        forall|x: int, y: int|
            #[trigger] ray_dest(
                *board,
                piece_pos.x as int,
                piece_pos.y as int,
                delta_x as int,
                delta_y as int,
                opposite_color,
                x,
                y,
            ) ==> seq_has_pos(final(moves)@, old(moves)@.len() as int, x, y),
        distinct_from(final(moves)@, old(moves)@.len() as int),
{
    let ghost fx = piece_pos.x as int;
    let ghost fy = piece_pos.y as int;
    let ghost dx = delta_x as int;
    let ghost dy = delta_y as int;
    let ghost orig = moves@;
    let mut previous_pos: Position = piece_pos.clone();
    let mut k: usize = 0;
    loop
        invariant_except_break
            fx == piece_pos.x as int,
            fy == piece_pos.y as int,
            dx == delta_x as int,
            dy == delta_y as int,
            on_board(fx, fy),
            -1 <= dx <= 1,
            -1 <= dy <= 1,
            !(dx == 0 && dy == 0),
            previous_pos.in_bounds(),
            k <= 7,
            previous_pos.x as int == fx + (k as int) * dx,
            previous_pos.y as int == fy + (k as int) * dy,
            moves@.len() == orig.len() + k,
            forall|i: int| 0 <= i < orig.len() ==> #[trigger] moves@[i] == orig[i],
            forall|idx: int|
                orig.len() <= idx < moves@.len() ==> (#[trigger] moves@[idx]).in_bounds()
                    && ray_dest(
                    *board,
                    fx,
                    fy,
                    dx,
                    dy,
                    opposite_color,
                    moves@[idx].x as int,
                    moves@[idx].y as int,
                ),
            forall|j: int| 1 <= j <= k as int ==> #[trigger] ray_step_ok(*board, fx, fy, dx, dy, j),
            forall|idx: int|
                orig.len() <= idx < orig.len() + k ==> (#[trigger] moves@[idx]).x as int == fx + (
                idx - orig.len() + 1) * dx && moves@[idx].y as int == fy + (idx - orig.len() + 1)
                    * dy,
        ensures
            k <= 7,
            forall|i: int| 0 <= i < orig.len() ==> #[trigger] moves@[i] == orig[i],
            forall|idx: int|
                orig.len() <= idx < moves@.len() ==> (#[trigger] moves@[idx]).in_bounds()
                    && ray_dest(
                    *board,
                    fx,
                    fy,
                    dx,
                    dy,
                    opposite_color,
                    moves@[idx].x as int,
                    moves@[idx].y as int,
                ),
            forall|j: int| 1 <= j <= k as int ==> #[trigger] ray_step_ok(*board, fx, fy, dx, dy, j),
            forall|idx: int|
                orig.len() <= idx < orig.len() + k ==> (#[trigger] moves@[idx]).x as int == fx + (
                idx - orig.len() + 1) * dx && moves@[idx].y as int == fy + (idx - orig.len() + 1)
                    * dy,
            ({
                ||| (!on_board(fx + (k as int + 1) * dx, fy + (k as int + 1) * dy) && moves@.len()
                    == orig.len() + k)
                ||| (on_board(fx + (k as int + 1) * dx, fy + (k as int + 1) * dy)
                    && !board.spec_empty(fx + (k as int + 1) * dx, fy + (k as int + 1) * dy)
                    && !board.spec_empty_or_color(
                    fx + (k as int + 1) * dx,
                    fy + (k as int + 1) * dy,
                    opposite_color,
                ) && moves@.len() == orig.len() + k)
                ||| (on_board(fx + (k as int + 1) * dx, fy + (k as int + 1) * dy)
                    && board.spec_color(
                    fx + (k as int + 1) * dx,
                    fy + (k as int + 1) * dy,
                    opposite_color,
                ) && moves@.len() == orig.len() + k + 1 && moves@.last().x as int == fx + (
                k as int + 1) * dx && moves@.last().y as int == fy + (k as int + 1) * dy)
            }),
        decreases 8 - k,
    {
        proof {
            lemma_mul_step(k as int, dx);
            lemma_mul_step(k as int, dy);
        }
        let new_pos_result = previous_pos.delta_if_valid(delta_x, delta_y);
        match new_pos_result {
            Err(_) => {
                break;
            },
            Ok(new_pos) => {
                if board.is_empty(&new_pos) {
                    moves.push(new_pos);
                    proof {
                        lemma_step_bound(fx, fy, dx, dy, k as int + 1);
                        assert(ray_step_ok(*board, fx, fy, dx, dy, k as int + 1));
                        assert(ray_dest_at(
                            *board,
                            fx,
                            fy,
                            dx,
                            dy,
                            opposite_color,
                            new_pos.x as int,
                            new_pos.y as int,
                            k as int + 1,
                        ));
                    }
                    previous_pos = new_pos;
                    k = k + 1;
                } else if board.is_color(&new_pos, &opposite_color) {
                    moves.push(new_pos);
                    proof {
                        assert(ray_dest_at(
                            *board,
                            fx,
                            fy,
                            dx,
                            dy,
                            opposite_color,
                            new_pos.x as int,
                            new_pos.y as int,
                            k as int + 1,
                        ));
                    }
                    break;
                } else {
                    break;
                }
            },
        }
    }
    proof {
        assert forall|x: int, y: int|
            #[trigger] ray_dest(*board, fx, fy, dx, dy, opposite_color, x, y) implies seq_has_pos(
            moves@,
            orig.len() as int,
            x,
            y,
        ) by {
            let k0 = choose|k0: int| ray_dest_at(*board, fx, fy, dx, dy, opposite_color, x, y, k0);
            if k0 <= k as int {
                let widx = orig.len() as int + k0 - 1;
                assert(moves@[widx].x as int == fx + (widx - orig.len() + 1) * dx);
                assert(widx - orig.len() + 1 == k0);
                assert(moves@[widx].x as int == fx + k0 * dx && moves@[widx].y as int == fy + k0
                    * dy);
                assert(pos_found_at(moves@, orig.len() as int, x, y, widx));
            } else if k0 == k as int + 1 {
                assert(moves@.len() == orig.len() + k + 1);
                assert(moves@[moves@.len() - 1].x as int == x && moves@[moves@.len() - 1].y as int
                    == y);
                assert(pos_found_at(moves@, orig.len() as int, x, y, moves@.len() - 1));
            } else {
                assert(ray_step_ok(*board, fx, fy, dx, dy, k as int + 1));
                assert(false);
            }
        }
        assert forall|i: int, j: int|
            orig.len() <= i < j < moves@.len() implies moves@[i] != moves@[j] by {
            let si = i - orig.len() as int + 1;
            let sj = j - orig.len() as int + 1;
            assert(moves@[i].x as int == fx + si * dx && moves@[i].y as int == fy + si * dy);
            assert(moves@[j].x as int == fx + sj * dx && moves@[j].y as int == fy + sj * dy);
            if moves@[i] == moves@[j] {
                lemma_ray_index_unique(dx, dy, si, sj);
                assert(false);
            }
        }
    }
}

/// Appends the sliding destinations along the two vertical directions.
fn get_moves_vertical(
    board: &Board,
    piece_pos: &Position,
    opposite_color: Color,
    moves: &mut Vec<Position>,
)
    requires
        piece_pos.in_bounds(),
    ensures
        extends(old(moves)@, final(moves)@),
        forall|i: int|
            old(moves)@.len() <= i < final(moves)@.len() ==> (#[trigger] final(moves)@[i]).in_bounds() && (ray_dest(
                *board,
                piece_pos.x as int,
                piece_pos.y as int,
                0,
                1,
                opposite_color,
                final(moves)@[i].x as int,
                final(moves)@[i].y as int,
            ) || ray_dest(
                *board,
                piece_pos.x as int,
                piece_pos.y as int,
                0,
                -1,
                opposite_color,
                final(moves)@[i].x as int,
                final(moves)@[i].y as int,
            )),
        forall|x: int, y: int|
            #![trigger ray_dest(*board, piece_pos.x as int, piece_pos.y as int, 0, 1, opposite_color, x, y)]
            #![trigger ray_dest(*board, piece_pos.x as int, piece_pos.y as int, 0, -1, opposite_color, x, y)]
            (ray_dest(*board, piece_pos.x as int, piece_pos.y as int, 0, 1, opposite_color, x, y)
                || ray_dest(
                *board,
                piece_pos.x as int,
                piece_pos.y as int,
                0,
                -1,
                opposite_color,
                x,
                y,
            )) ==> seq_has_pos(final(moves)@, old(moves)@.len() as int, x, y),
        distinct_from(final(moves)@, old(moves)@.len() as int),
{
    let ghost orig = moves@;
    get_moves_loop(board, piece_pos, opposite_color, 0, 1, moves);
    let ghost mid = moves@;
    get_moves_loop(board, piece_pos, opposite_color, 0, -1, moves);
    proof {
        let fx = piece_pos.x as int;
        let fy = piece_pos.y as int;
        assert forall|x: int, y: int|
            (ray_dest(*board, fx, fy, 0, 1, opposite_color, x, y) || ray_dest(
                *board,
                fx,
                fy,
                0,
                -1,
                opposite_color,
                x,
                y,
            )) implies seq_has_pos(moves@, orig.len() as int, x, y) by {
            if ray_dest(*board, fx, fy, 0, 1, opposite_color, x, y) {
                lemma_has_pos_extends(mid, moves@, orig.len() as int, x, y);
            } else {
                lemma_has_pos_widen(moves@, mid.len() as int, orig.len() as int, x, y);
            }
        }
        assert forall|i: int, j: int|
            orig.len() <= i < j < moves@.len() implies moves@[i] != moves@[j] by {
            if j < mid.len() {
                assert(moves@[i] == mid[i] && moves@[j] == mid[j]);
            } else if i < mid.len() && moves@[i] == moves@[j] {
                assert(moves@[i] == mid[i]);
                lemma_ray_region(*board, fx, fy, 0, 1, opposite_color, mid[i].x as int, mid[i].y as int);
                lemma_ray_region(*board, fx, fy, 0, -1, opposite_color, moves@[j].x as int, moves@[j].y as int);
                assert(false);
            }
        }
    }
}

/// Appends the sliding destinations along the two horizontal directions.
fn get_moves_horizontal(
    board: &Board,
    piece_pos: &Position,
    opposite_color: Color,
    moves: &mut Vec<Position>,
)
    requires
        piece_pos.in_bounds(),
    ensures
        extends(old(moves)@, final(moves)@),
        forall|i: int|
            old(moves)@.len() <= i < final(moves)@.len() ==> (#[trigger] final(moves)@[i]).in_bounds() && (ray_dest(
                *board,
                piece_pos.x as int,
                piece_pos.y as int,
                1,
                0,
                opposite_color,
                final(moves)@[i].x as int,
                final(moves)@[i].y as int,
            ) || ray_dest(
                *board,
                piece_pos.x as int,
                piece_pos.y as int,
                -1,
                0,
                opposite_color,
                final(moves)@[i].x as int,
                final(moves)@[i].y as int,
            )),
        forall|x: int, y: int|
            #![trigger ray_dest(*board, piece_pos.x as int, piece_pos.y as int, 1, 0, opposite_color, x, y)]
            #![trigger ray_dest(*board, piece_pos.x as int, piece_pos.y as int, -1, 0, opposite_color, x, y)]
            (ray_dest(*board, piece_pos.x as int, piece_pos.y as int, 1, 0, opposite_color, x, y)
                || ray_dest(
                *board,
                piece_pos.x as int,
                piece_pos.y as int,
                -1,
                0,
                opposite_color,
                x,
                y,
            )) ==> seq_has_pos(final(moves)@, old(moves)@.len() as int, x, y),
        distinct_from(final(moves)@, old(moves)@.len() as int),
{
    let ghost orig = moves@;
    get_moves_loop(board, piece_pos, opposite_color, 1, 0, moves);
    let ghost mid = moves@;
    get_moves_loop(board, piece_pos, opposite_color, -1, 0, moves);
    proof {
        let fx = piece_pos.x as int;
        let fy = piece_pos.y as int;
        assert forall|x: int, y: int|
            (ray_dest(*board, fx, fy, 1, 0, opposite_color, x, y) || ray_dest(
                *board,
                fx,
                fy,
                -1,
                0,
                opposite_color,
                x,
                y,
            )) implies seq_has_pos(moves@, orig.len() as int, x, y) by {
            if ray_dest(*board, fx, fy, 1, 0, opposite_color, x, y) {
                lemma_has_pos_extends(mid, moves@, orig.len() as int, x, y);
            } else {
                lemma_has_pos_widen(moves@, mid.len() as int, orig.len() as int, x, y);
            }
        }
        assert forall|i: int, j: int|
            orig.len() <= i < j < moves@.len() implies moves@[i] != moves@[j] by {
            if j < mid.len() {
                assert(moves@[i] == mid[i] && moves@[j] == mid[j]);
            } else if i < mid.len() && moves@[i] == moves@[j] {
                assert(moves@[i] == mid[i]);
                lemma_ray_region(*board, fx, fy, 1, 0, opposite_color, mid[i].x as int, mid[i].y as int);
                lemma_ray_region(*board, fx, fy, -1, 0, opposite_color, moves@[j].x as int, moves@[j].y as int);
                assert(false);
            }
        }
    }
}

/// Appends the sliding destinations along the four diagonal directions.
fn get_moves_diagonal(
    board: &Board,
    piece_pos: &Position,
    opposite_color: Color,
    moves: &mut Vec<Position>,
)
    requires
        piece_pos.in_bounds(),
    ensures
        extends(old(moves)@, final(moves)@),
        forall|i: int|
            old(moves)@.len() <= i < final(moves)@.len() ==> (#[trigger] final(moves)@[i]).in_bounds()
                && bishop_dest(
                *board,
                *piece_pos,
                opposite_color,
                final(moves)@[i].x as int,
                final(moves)@[i].y as int,
            ),
        forall|x: int, y: int|
            #[trigger] bishop_dest(*board, *piece_pos, opposite_color, x, y) ==> seq_has_pos(
                final(moves)@,
                old(moves)@.len() as int,
                x,
                y,
            ),
        distinct_from(final(moves)@, old(moves)@.len() as int),
{
    let ghost orig = moves@;
    get_moves_loop(board, piece_pos, opposite_color, -1, -1, moves);
    let ghost s1 = moves@;
    get_moves_loop(board, piece_pos, opposite_color, -1, 1, moves);
    let ghost s2 = moves@;
    get_moves_loop(board, piece_pos, opposite_color, 1, -1, moves);
    let ghost s3 = moves@;
    get_moves_loop(board, piece_pos, opposite_color, 1, 1, moves);
    proof {
        let fx = piece_pos.x as int;
        let fy = piece_pos.y as int;
        let lo = orig.len() as int;
        assert forall|x: int, y: int|
            #[trigger] bishop_dest(*board, *piece_pos, opposite_color, x, y) implies seq_has_pos(
            moves@,
            lo,
            x,
            y,
        ) by {
            if ray_dest(*board, fx, fy, -1, -1, opposite_color, x, y) {
                lemma_has_pos_extends(s1, s2, lo, x, y);
                lemma_has_pos_extends(s2, s3, lo, x, y);
                lemma_has_pos_extends(s3, moves@, lo, x, y);
            } else if ray_dest(*board, fx, fy, -1, 1, opposite_color, x, y) {
                lemma_has_pos_widen(s2, s1.len() as int, lo, x, y);
                lemma_has_pos_extends(s2, s3, lo, x, y);
                lemma_has_pos_extends(s3, moves@, lo, x, y);
            } else if ray_dest(*board, fx, fy, 1, -1, opposite_color, x, y) {
                lemma_has_pos_widen(s3, s2.len() as int, lo, x, y);
                lemma_has_pos_extends(s3, moves@, lo, x, y);
            } else {
                lemma_has_pos_widen(moves@, s3.len() as int, lo, x, y);
            }
        }
        lemma_extends_trans(s2, s3, moves@);
        lemma_extends_trans(s1, s2, moves@);
        assert forall|i: int, j: int|
            orig.len() <= i < j < moves@.len() implies moves@[i] != moves@[j] by {
            if j < s1.len() {
                assert(moves@[i] == s1[i] && moves@[j] == s1[j]);
            } else if s1.len() <= i && j < s2.len() {
                assert(moves@[i] == s2[i] && moves@[j] == s2[j]);
            } else if s2.len() <= i && j < s3.len() {
                assert(moves@[i] == s3[i] && moves@[j] == s3[j]);
            } else if s3.len() <= i {
            } else if moves@[i] == moves@[j] {
                let px = moves@[i].x as int;
                let py = moves@[i].y as int;
                if i < s1.len() {
                    assert(moves@[i] == s1[i]);
                    lemma_ray_region(*board, fx, fy, -1, -1, opposite_color, px, py);
                } else if i < s2.len() {
                    assert(moves@[i] == s2[i]);
                    lemma_ray_region(*board, fx, fy, -1, 1, opposite_color, px, py);
                } else {
                    assert(moves@[i] == s3[i]);
                    lemma_ray_region(*board, fx, fy, 1, -1, opposite_color, px, py);
                }
                if j < s2.len() {
                    assert(moves@[j] == s2[j]);
                    lemma_ray_region(*board, fx, fy, -1, 1, opposite_color, px, py);
                } else if j < s3.len() {
                    assert(moves@[j] == s3[j]);
                    lemma_ray_region(*board, fx, fy, 1, -1, opposite_color, px, py);
                } else {
                    lemma_ray_region(*board, fx, fy, 1, 1, opposite_color, px, py);
                }
                assert(false);
            }
        }
    }
}

/// Appends a rook's destinations: every slide along the four orthogonal
/// directions.
fn get_moves_rook(board: &Board, piece_pos: &Position, opposite_color: Color, moves: &mut Vec<Position>)
    requires
        piece_pos.in_bounds(),
    ensures
        extends(old(moves)@, final(moves)@),
        forall|i: int|
            old(moves)@.len() <= i < final(moves)@.len() ==> (#[trigger] final(moves)@[i]).in_bounds()
                && rook_dest(
                *board,
                *piece_pos,
                opposite_color,
                final(moves)@[i].x as int,
                final(moves)@[i].y as int,
            ),
        forall|x: int, y: int|
            #[trigger] rook_dest(*board, *piece_pos, opposite_color, x, y) ==> seq_has_pos(
                final(moves)@,
                old(moves)@.len() as int,
                x,
                y,
            ),
        distinct_from(final(moves)@, old(moves)@.len() as int),
{
    let ghost orig = moves@;
    get_moves_horizontal(board, piece_pos, opposite_color, moves);
    let ghost s1 = moves@;
    get_moves_vertical(board, piece_pos, opposite_color, moves);
    proof {
        let fx = piece_pos.x as int;
        let fy = piece_pos.y as int;
        let lo = orig.len() as int;
        assert forall|x: int, y: int|
            #[trigger] rook_dest(*board, *piece_pos, opposite_color, x, y) implies seq_has_pos(
            moves@,
            lo,
            x,
            y,
        ) by {
            if ray_dest(*board, fx, fy, 1, 0, opposite_color, x, y) || ray_dest(
                *board,
                fx,
                fy,
                -1,
                0,
                opposite_color,
                x,
                y,
            ) {
                lemma_has_pos_extends(s1, moves@, lo, x, y);
            } else {
                lemma_has_pos_widen(moves@, s1.len() as int, lo, x, y);
            }
        }
        assert forall|i: int, j: int|
            orig.len() <= i < j < moves@.len() implies moves@[i] != moves@[j] by {
            if j < s1.len() {
                assert(moves@[i] == s1[i] && moves@[j] == s1[j]);
            } else if i < s1.len() && moves@[i] == moves@[j] {
                assert(moves@[i] == s1[i]);
                let px = moves@[i].x as int;
                let py = moves@[i].y as int;
                if ray_dest(*board, fx, fy, 1, 0, opposite_color, px, py) {
                    lemma_ray_region(*board, fx, fy, 1, 0, opposite_color, px, py);
                } else {
                    lemma_ray_region(*board, fx, fy, -1, 0, opposite_color, px, py);
                }
                if ray_dest(*board, fx, fy, 0, 1, opposite_color, px, py) {
                    lemma_ray_region(*board, fx, fy, 0, 1, opposite_color, px, py);
                } else {
                    lemma_ray_region(*board, fx, fy, 0, -1, opposite_color, px, py);
                }
                assert(false);
            }
        }
    }
}

/// Appends a bishop's destinations: every slide along the four diagonal
/// directions.
fn get_moves_bishop(board: &Board, piece_pos: &Position, opposite_color: Color, moves: &mut Vec<Position>)
    requires
        piece_pos.in_bounds(),
    ensures
        extends(old(moves)@, final(moves)@),
        forall|i: int|
            old(moves)@.len() <= i < final(moves)@.len() ==> (#[trigger] final(moves)@[i]).in_bounds()
                && bishop_dest(
                *board,
                *piece_pos,
                opposite_color,
                final(moves)@[i].x as int,
                final(moves)@[i].y as int,
            ),
        forall|x: int, y: int|
            #[trigger] bishop_dest(*board, *piece_pos, opposite_color, x, y) ==> seq_has_pos(
                final(moves)@,
                old(moves)@.len() as int,
                x,
                y,
            ),
        distinct_from(final(moves)@, old(moves)@.len() as int),
{
    get_moves_diagonal(board, piece_pos, opposite_color, moves);
}

/// Appends a queen's destinations: every rook and every bishop slide.
fn get_moves_queen(board: &Board, piece_pos: &Position, opposite_color: Color, moves: &mut Vec<Position>)
    requires
        piece_pos.in_bounds(),
    ensures
        extends(old(moves)@, final(moves)@),
        forall|i: int|
            old(moves)@.len() <= i < final(moves)@.len() ==> (#[trigger] final(moves)@[i]).in_bounds()
                && queen_dest(
                *board,
                *piece_pos,
                opposite_color,
                final(moves)@[i].x as int,
                final(moves)@[i].y as int,
            ),
        forall|x: int, y: int|
            #[trigger] queen_dest(*board, *piece_pos, opposite_color, x, y) ==> seq_has_pos(
                final(moves)@,
                old(moves)@.len() as int,
                x,
                y,
            ),
        distinct_from(final(moves)@, old(moves)@.len() as int),
{
    let ghost orig = moves@;
    get_moves_rook(board, piece_pos, opposite_color, moves);
    let ghost s1 = moves@;
    get_moves_bishop(board, piece_pos, opposite_color, moves);
    proof {
        let lo = orig.len() as int;
        assert forall|x: int, y: int|
            #[trigger] queen_dest(*board, *piece_pos, opposite_color, x, y) implies seq_has_pos(
            moves@,
            lo,
            x,
            y,
        ) by {
            if rook_dest(*board, *piece_pos, opposite_color, x, y) {
                lemma_has_pos_extends(s1, moves@, lo, x, y);
            } else {
                lemma_has_pos_widen(moves@, s1.len() as int, lo, x, y);
            }
        }
        let fx = piece_pos.x as int;
        let fy = piece_pos.y as int;
        assert forall|i: int, j: int|
            orig.len() <= i < j < moves@.len() implies moves@[i] != moves@[j] by {
            if j < s1.len() {
                assert(moves@[i] == s1[i] && moves@[j] == s1[j]);
            } else if i < s1.len() && moves@[i] == moves@[j] {
                assert(moves@[i] == s1[i]);
                let px = moves@[i].x as int;
                let py = moves@[i].y as int;
                if ray_dest(*board, fx, fy, 1, 0, opposite_color, px, py) {
                    lemma_ray_region(*board, fx, fy, 1, 0, opposite_color, px, py);
                } else if ray_dest(*board, fx, fy, -1, 0, opposite_color, px, py) {
                    lemma_ray_region(*board, fx, fy, -1, 0, opposite_color, px, py);
                } else if ray_dest(*board, fx, fy, 0, 1, opposite_color, px, py) {
                    lemma_ray_region(*board, fx, fy, 0, 1, opposite_color, px, py);
                } else {
                    lemma_ray_region(*board, fx, fy, 0, -1, opposite_color, px, py);
                }
                if ray_dest(*board, fx, fy, -1, -1, opposite_color, px, py) {
                    lemma_ray_region(*board, fx, fy, -1, -1, opposite_color, px, py);
                } else if ray_dest(*board, fx, fy, -1, 1, opposite_color, px, py) {
                    lemma_ray_region(*board, fx, fy, -1, 1, opposite_color, px, py);
                } else if ray_dest(*board, fx, fy, 1, -1, opposite_color, px, py) {
                    lemma_ray_region(*board, fx, fy, 1, -1, opposite_color, px, py);
                } else {
                    lemma_ray_region(*board, fx, fy, 1, 1, opposite_color, px, py);
                }
                assert(false);
            }
        }
    }
}

/// Appends a knight's destinations: each of the eight jumps that lands on
/// the board, on an empty square or on an enemy piece.
#[verifier::rlimit(50)]
fn get_moves_knight(board: &Board, piece_pos: &Position, opposite_color: Color, moves: &mut Vec<Position>)
    requires
        piece_pos.in_bounds(),
    ensures
        extends(old(moves)@, final(moves)@),
        forall|i: int|
            old(moves)@.len() <= i < final(moves)@.len() ==> (#[trigger] final(moves)@[i]).in_bounds()
                && knight_dest(
                *board,
                *piece_pos,
                opposite_color,
                final(moves)@[i].x as int,
                final(moves)@[i].y as int,
            ),
        forall|x: int, y: int|
            #[trigger] knight_dest(*board, *piece_pos, opposite_color, x, y) ==> seq_has_pos(
                final(moves)@,
                old(moves)@.len() as int,
                x,
                y,
            ),
        distinct_from(final(moves)@, old(moves)@.len() as int),
{
    let ghost orig = moves@;
    let ghost fx = piece_pos.x as int;
    let ghost fy = piece_pos.y as int;
    let ghost lo = orig.len() as int;
    try_add_pos_if_empty_or_enemy(board, opposite_color, piece_pos.delta_if_valid(-2, 1), moves);
    let ghost s1 = moves@;
    proof {
        assert(extends(orig, s1));
        assert forall|i: int| lo <= i < s1.len() implies (#[trigger] s1[i]).in_bounds()
            && knight_dest(*board, *piece_pos, opposite_color, s1[i].x as int, s1[i].y as int) by {}
        assert forall|i: int| lo <= i < s1.len() implies ((#[trigger] s1[i]).x as int == fx - 2 && s1[i].y as int == fy + 1) by {}
        assert forall|i1: int, j1: int| lo <= i1 < j1 < s1.len() implies s1[i1] != s1[j1] by {
        }
    }
    try_add_pos_if_empty_or_enemy(board, opposite_color, piece_pos.delta_if_valid(-2, -1), moves);
    let ghost s2 = moves@;
    proof {
        assert(extends(s1, s2));
        assert forall|i: int| lo <= i < s2.len() implies (#[trigger] s2[i]).in_bounds()
            && knight_dest(*board, *piece_pos, opposite_color, s2[i].x as int, s2[i].y as int) by {}
        assert forall|i: int| lo <= i < s2.len() implies ((#[trigger] s2[i]).x as int == fx - 2 && s2[i].y as int == fy + 1) || ((#[trigger] s2[i]).x as int == fx - 2 && s2[i].y as int == fy - 1) by {}
        assert forall|i1: int, j1: int| lo <= i1 < j1 < s2.len() implies s2[i1] != s2[j1] by {
            if j1 < s1.len() {
                assert(s2[i1] == s1[i1] && s2[j1] == s1[j1]);
            } else {
                assert(s2[i1] == s1[i1]);
            }
        }
    }
    try_add_pos_if_empty_or_enemy(board, opposite_color, piece_pos.delta_if_valid(-1, -2), moves);
    let ghost s3 = moves@;
    proof {
        assert(extends(s2, s3));
        assert forall|i: int| lo <= i < s3.len() implies (#[trigger] s3[i]).in_bounds()
            && knight_dest(*board, *piece_pos, opposite_color, s3[i].x as int, s3[i].y as int) by {}
        assert forall|i: int| lo <= i < s3.len() implies ((#[trigger] s3[i]).x as int == fx - 2 && s3[i].y as int == fy + 1) || ((#[trigger] s3[i]).x as int == fx - 2 && s3[i].y as int == fy - 1) || ((#[trigger] s3[i]).x as int == fx - 1 && s3[i].y as int == fy - 2) by {}
        assert forall|i1: int, j1: int| lo <= i1 < j1 < s3.len() implies s3[i1] != s3[j1] by {
            if j1 < s2.len() {
                assert(s3[i1] == s2[i1] && s3[j1] == s2[j1]);
            } else {
                assert(s3[i1] == s2[i1]);
            }
        }
    }
    try_add_pos_if_empty_or_enemy(board, opposite_color, piece_pos.delta_if_valid(1, -2), moves);
    let ghost s4 = moves@;
    proof {
        assert(extends(s3, s4));
        assert forall|i: int| lo <= i < s4.len() implies (#[trigger] s4[i]).in_bounds()
            && knight_dest(*board, *piece_pos, opposite_color, s4[i].x as int, s4[i].y as int) by {}
        assert forall|i: int| lo <= i < s4.len() implies ((#[trigger] s4[i]).x as int == fx - 2 && s4[i].y as int == fy + 1) || ((#[trigger] s4[i]).x as int == fx - 2 && s4[i].y as int == fy - 1) || ((#[trigger] s4[i]).x as int == fx - 1 && s4[i].y as int == fy - 2) || ((#[trigger] s4[i]).x as int == fx + 1 && s4[i].y as int == fy - 2) by {}
        assert forall|i1: int, j1: int| lo <= i1 < j1 < s4.len() implies s4[i1] != s4[j1] by {
            if j1 < s3.len() {
                assert(s4[i1] == s3[i1] && s4[j1] == s3[j1]);
            } else {
                assert(s4[i1] == s3[i1]);
            }
        }
    }
    try_add_pos_if_empty_or_enemy(board, opposite_color, piece_pos.delta_if_valid(2, -1), moves);
    let ghost s5 = moves@;
    proof {
        assert(extends(s4, s5));
        assert forall|i: int| lo <= i < s5.len() implies (#[trigger] s5[i]).in_bounds()
            && knight_dest(*board, *piece_pos, opposite_color, s5[i].x as int, s5[i].y as int) by {}
        assert forall|i: int| lo <= i < s5.len() implies ((#[trigger] s5[i]).x as int == fx - 2 && s5[i].y as int == fy + 1) || ((#[trigger] s5[i]).x as int == fx - 2 && s5[i].y as int == fy - 1) || ((#[trigger] s5[i]).x as int == fx - 1 && s5[i].y as int == fy - 2) || ((#[trigger] s5[i]).x as int == fx + 1 && s5[i].y as int == fy - 2) || ((#[trigger] s5[i]).x as int == fx + 2 && s5[i].y as int == fy - 1) by {}
        assert forall|i1: int, j1: int| lo <= i1 < j1 < s5.len() implies s5[i1] != s5[j1] by {
            if j1 < s4.len() {
                assert(s5[i1] == s4[i1] && s5[j1] == s4[j1]);
            } else {
                assert(s5[i1] == s4[i1]);
            }
        }
    }
    try_add_pos_if_empty_or_enemy(board, opposite_color, piece_pos.delta_if_valid(2, 1), moves);
    let ghost s6 = moves@;
    proof {
        assert(extends(s5, s6));
        assert forall|i: int| lo <= i < s6.len() implies (#[trigger] s6[i]).in_bounds()
            && knight_dest(*board, *piece_pos, opposite_color, s6[i].x as int, s6[i].y as int) by {}
        assert forall|i: int| lo <= i < s6.len() implies ((#[trigger] s6[i]).x as int == fx - 2 && s6[i].y as int == fy + 1) || ((#[trigger] s6[i]).x as int == fx - 2 && s6[i].y as int == fy - 1) || ((#[trigger] s6[i]).x as int == fx - 1 && s6[i].y as int == fy - 2) || ((#[trigger] s6[i]).x as int == fx + 1 && s6[i].y as int == fy - 2) || ((#[trigger] s6[i]).x as int == fx + 2 && s6[i].y as int == fy - 1) || ((#[trigger] s6[i]).x as int == fx + 2 && s6[i].y as int == fy + 1) by {}
        assert forall|i1: int, j1: int| lo <= i1 < j1 < s6.len() implies s6[i1] != s6[j1] by {
            if j1 < s5.len() {
                assert(s6[i1] == s5[i1] && s6[j1] == s5[j1]);
            } else {
                assert(s6[i1] == s5[i1]);
            }
        }
    }
    try_add_pos_if_empty_or_enemy(board, opposite_color, piece_pos.delta_if_valid(1, 2), moves);
    let ghost s7 = moves@;
    proof {
        assert(extends(s6, s7));
        assert forall|i: int| lo <= i < s7.len() implies (#[trigger] s7[i]).in_bounds()
            && knight_dest(*board, *piece_pos, opposite_color, s7[i].x as int, s7[i].y as int) by {}
        assert forall|i: int| lo <= i < s7.len() implies ((#[trigger] s7[i]).x as int == fx - 2 && s7[i].y as int == fy + 1) || ((#[trigger] s7[i]).x as int == fx - 2 && s7[i].y as int == fy - 1) || ((#[trigger] s7[i]).x as int == fx - 1 && s7[i].y as int == fy - 2) || ((#[trigger] s7[i]).x as int == fx + 1 && s7[i].y as int == fy - 2) || ((#[trigger] s7[i]).x as int == fx + 2 && s7[i].y as int == fy - 1) || ((#[trigger] s7[i]).x as int == fx + 2 && s7[i].y as int == fy + 1) || ((#[trigger] s7[i]).x as int == fx + 1 && s7[i].y as int == fy + 2) by {}
        assert forall|i1: int, j1: int| lo <= i1 < j1 < s7.len() implies s7[i1] != s7[j1] by {
            if j1 < s6.len() {
                assert(s7[i1] == s6[i1] && s7[j1] == s6[j1]);
            } else {
                assert(s7[i1] == s6[i1]);
            }
        }
    }
    try_add_pos_if_empty_or_enemy(board, opposite_color, piece_pos.delta_if_valid(-1, 2), moves);
    let ghost s8 = moves@;
    proof {
        assert(extends(s7, s8));
        assert forall|i: int| lo <= i < s8.len() implies (#[trigger] s8[i]).in_bounds()
            && knight_dest(*board, *piece_pos, opposite_color, s8[i].x as int, s8[i].y as int) by {}
        assert forall|i: int| lo <= i < s8.len() implies ((#[trigger] s8[i]).x as int == fx - 2 && s8[i].y as int == fy + 1) || ((#[trigger] s8[i]).x as int == fx - 2 && s8[i].y as int == fy - 1) || ((#[trigger] s8[i]).x as int == fx - 1 && s8[i].y as int == fy - 2) || ((#[trigger] s8[i]).x as int == fx + 1 && s8[i].y as int == fy - 2) || ((#[trigger] s8[i]).x as int == fx + 2 && s8[i].y as int == fy - 1) || ((#[trigger] s8[i]).x as int == fx + 2 && s8[i].y as int == fy + 1) || ((#[trigger] s8[i]).x as int == fx + 1 && s8[i].y as int == fy + 2) || ((#[trigger] s8[i]).x as int == fx - 1 && s8[i].y as int == fy + 2) by {}
        assert forall|i1: int, j1: int| lo <= i1 < j1 < s8.len() implies s8[i1] != s8[j1] by {
            if j1 < s7.len() {
                assert(s8[i1] == s7[i1] && s8[j1] == s7[j1]);
            } else {
                assert(s8[i1] == s7[i1]);
            }
        }
    }
    proof {
        lemma_extends_trans(s6, s7, s8);
        lemma_extends_trans(s5, s6, s8);
        lemma_extends_trans(s4, s5, s8);
        lemma_extends_trans(s3, s4, s8);
        lemma_extends_trans(s2, s3, s8);
        lemma_extends_trans(s1, s2, s8);
        lemma_extends_trans(orig, s1, s8);
        assert forall|x: int, y: int|
            #[trigger] knight_dest(*board, *piece_pos, opposite_color, x, y) implies seq_has_pos(
            moves@,
            lo,
            x,
            y,
        ) by {
            if x == fx - 2 && y == fy + 1 {
                assert(pos_found_at(s1, lo, x, y, orig.len() as int));
                lemma_has_pos_extends(s1, s8, lo, x, y);
            } else if x == fx - 2 && y == fy - 1 {
                assert(pos_found_at(s2, lo, x, y, s1.len() as int));
                lemma_has_pos_extends(s2, s8, lo, x, y);
            } else if x == fx - 1 && y == fy - 2 {
                assert(pos_found_at(s3, lo, x, y, s2.len() as int));
                lemma_has_pos_extends(s3, s8, lo, x, y);
            } else if x == fx + 1 && y == fy - 2 {
                assert(pos_found_at(s4, lo, x, y, s3.len() as int));
                lemma_has_pos_extends(s4, s8, lo, x, y);
            } else if x == fx + 2 && y == fy - 1 {
                assert(pos_found_at(s5, lo, x, y, s4.len() as int));
                lemma_has_pos_extends(s5, s8, lo, x, y);
            } else if x == fx + 2 && y == fy + 1 {
                assert(pos_found_at(s6, lo, x, y, s5.len() as int));
                lemma_has_pos_extends(s6, s8, lo, x, y);
            } else if x == fx + 1 && y == fy + 2 {
                assert(pos_found_at(s7, lo, x, y, s6.len() as int));
                lemma_has_pos_extends(s7, s8, lo, x, y);
            } else {
                assert(x == fx - 1 && y == fy + 2);
                assert(pos_found_at(s8, lo, x, y, s7.len() as int));
            }
        }
    }
}

/// Appends a king's destinations: each of the eight single steps that lands
/// on the board, on an empty square or on an enemy piece.
#[verifier::rlimit(50)]
fn get_moves_king(board: &Board, piece_pos: &Position, opposite_color: Color, moves: &mut Vec<Position>)
    requires
        piece_pos.in_bounds(),
    ensures
        extends(old(moves)@, final(moves)@),
        forall|i: int|
            old(moves)@.len() <= i < final(moves)@.len() ==> (#[trigger] final(moves)@[i]).in_bounds()
                && king_dest(
                *board,
                *piece_pos,
                opposite_color,
                final(moves)@[i].x as int,
                final(moves)@[i].y as int,
            ),
        forall|x: int, y: int|
            #[trigger] king_dest(*board, *piece_pos, opposite_color, x, y) ==> seq_has_pos(
                final(moves)@,
                old(moves)@.len() as int,
                x,
                y,
            ),
        distinct_from(final(moves)@, old(moves)@.len() as int),
{
    let ghost orig = moves@;
    let ghost fx = piece_pos.x as int;
    let ghost fy = piece_pos.y as int;
    let ghost lo = orig.len() as int;
    try_add_pos_if_empty_or_enemy(board, opposite_color, piece_pos.delta_if_valid(-1, 0), moves);
    let ghost s1 = moves@;
    proof {
        assert(extends(orig, s1));
        assert forall|i: int| lo <= i < s1.len() implies (#[trigger] s1[i]).in_bounds()
            && king_dest(*board, *piece_pos, opposite_color, s1[i].x as int, s1[i].y as int) by {}
        assert forall|i: int| lo <= i < s1.len() implies ((#[trigger] s1[i]).x as int == fx - 1 && s1[i].y as int == fy + 0) by {}
        assert forall|i1: int, j1: int| lo <= i1 < j1 < s1.len() implies s1[i1] != s1[j1] by {
        }
    }
    try_add_pos_if_empty_or_enemy(board, opposite_color, piece_pos.delta_if_valid(-1, -1), moves);
    let ghost s2 = moves@;
    proof {
        assert(extends(s1, s2));
        assert forall|i: int| lo <= i < s2.len() implies (#[trigger] s2[i]).in_bounds()
            && king_dest(*board, *piece_pos, opposite_color, s2[i].x as int, s2[i].y as int) by {}
        assert forall|i: int| lo <= i < s2.len() implies ((#[trigger] s2[i]).x as int == fx - 1 && s2[i].y as int == fy + 0) || ((#[trigger] s2[i]).x as int == fx - 1 && s2[i].y as int == fy - 1) by {}
        assert forall|i1: int, j1: int| lo <= i1 < j1 < s2.len() implies s2[i1] != s2[j1] by {
            if j1 < s1.len() {
                assert(s2[i1] == s1[i1] && s2[j1] == s1[j1]);
            } else {
                assert(s2[i1] == s1[i1]);
            }
        }
    }
    try_add_pos_if_empty_or_enemy(board, opposite_color, piece_pos.delta_if_valid(0, -1), moves);
    let ghost s3 = moves@;
    proof {
        assert(extends(s2, s3));
        assert forall|i: int| lo <= i < s3.len() implies (#[trigger] s3[i]).in_bounds()
            && king_dest(*board, *piece_pos, opposite_color, s3[i].x as int, s3[i].y as int) by {}
        assert forall|i: int| lo <= i < s3.len() implies ((#[trigger] s3[i]).x as int == fx - 1 && s3[i].y as int == fy + 0) || ((#[trigger] s3[i]).x as int == fx - 1 && s3[i].y as int == fy - 1) || ((#[trigger] s3[i]).x as int == fx + 0 && s3[i].y as int == fy - 1) by {}
        assert forall|i1: int, j1: int| lo <= i1 < j1 < s3.len() implies s3[i1] != s3[j1] by {
            if j1 < s2.len() {
                assert(s3[i1] == s2[i1] && s3[j1] == s2[j1]);
            } else {
                assert(s3[i1] == s2[i1]);
            }
        }
    }
    try_add_pos_if_empty_or_enemy(board, opposite_color, piece_pos.delta_if_valid(-1, 1), moves);
    let ghost s4 = moves@;
    proof {
        assert(extends(s3, s4));
        assert forall|i: int| lo <= i < s4.len() implies (#[trigger] s4[i]).in_bounds()
            && king_dest(*board, *piece_pos, opposite_color, s4[i].x as int, s4[i].y as int) by {}
        assert forall|i: int| lo <= i < s4.len() implies ((#[trigger] s4[i]).x as int == fx - 1 && s4[i].y as int == fy + 0) || ((#[trigger] s4[i]).x as int == fx - 1 && s4[i].y as int == fy - 1) || ((#[trigger] s4[i]).x as int == fx + 0 && s4[i].y as int == fy - 1) || ((#[trigger] s4[i]).x as int == fx - 1 && s4[i].y as int == fy + 1) by {}
        assert forall|i1: int, j1: int| lo <= i1 < j1 < s4.len() implies s4[i1] != s4[j1] by {
            if j1 < s3.len() {
                assert(s4[i1] == s3[i1] && s4[j1] == s3[j1]);
            } else {
                assert(s4[i1] == s3[i1]);
            }
        }
    }
    try_add_pos_if_empty_or_enemy(board, opposite_color, piece_pos.delta_if_valid(0, 1), moves);
    let ghost s5 = moves@;
    proof {
        assert(extends(s4, s5));
        assert forall|i: int| lo <= i < s5.len() implies (#[trigger] s5[i]).in_bounds()
            && king_dest(*board, *piece_pos, opposite_color, s5[i].x as int, s5[i].y as int) by {}
        assert forall|i: int| lo <= i < s5.len() implies ((#[trigger] s5[i]).x as int == fx - 1 && s5[i].y as int == fy + 0) || ((#[trigger] s5[i]).x as int == fx - 1 && s5[i].y as int == fy - 1) || ((#[trigger] s5[i]).x as int == fx + 0 && s5[i].y as int == fy - 1) || ((#[trigger] s5[i]).x as int == fx - 1 && s5[i].y as int == fy + 1) || ((#[trigger] s5[i]).x as int == fx + 0 && s5[i].y as int == fy + 1) by {}
        assert forall|i1: int, j1: int| lo <= i1 < j1 < s5.len() implies s5[i1] != s5[j1] by {
            if j1 < s4.len() {
                assert(s5[i1] == s4[i1] && s5[j1] == s4[j1]);
            } else {
                assert(s5[i1] == s4[i1]);
            }
        }
    }
    try_add_pos_if_empty_or_enemy(board, opposite_color, piece_pos.delta_if_valid(1, 0), moves);
    let ghost s6 = moves@;
    proof {
        assert(extends(s5, s6));
        assert forall|i: int| lo <= i < s6.len() implies (#[trigger] s6[i]).in_bounds()
            && king_dest(*board, *piece_pos, opposite_color, s6[i].x as int, s6[i].y as int) by {}
        assert forall|i: int| lo <= i < s6.len() implies ((#[trigger] s6[i]).x as int == fx - 1 && s6[i].y as int == fy + 0) || ((#[trigger] s6[i]).x as int == fx - 1 && s6[i].y as int == fy - 1) || ((#[trigger] s6[i]).x as int == fx + 0 && s6[i].y as int == fy - 1) || ((#[trigger] s6[i]).x as int == fx - 1 && s6[i].y as int == fy + 1) || ((#[trigger] s6[i]).x as int == fx + 0 && s6[i].y as int == fy + 1) || ((#[trigger] s6[i]).x as int == fx + 1 && s6[i].y as int == fy + 0) by {}
        assert forall|i1: int, j1: int| lo <= i1 < j1 < s6.len() implies s6[i1] != s6[j1] by {
            if j1 < s5.len() {
                assert(s6[i1] == s5[i1] && s6[j1] == s5[j1]);
            } else {
                assert(s6[i1] == s5[i1]);
            }
        }
    }
    try_add_pos_if_empty_or_enemy(board, opposite_color, piece_pos.delta_if_valid(1, -1), moves);
    let ghost s7 = moves@;
    proof {
        assert(extends(s6, s7));
        assert forall|i: int| lo <= i < s7.len() implies (#[trigger] s7[i]).in_bounds()
            && king_dest(*board, *piece_pos, opposite_color, s7[i].x as int, s7[i].y as int) by {}
        assert forall|i: int| lo <= i < s7.len() implies ((#[trigger] s7[i]).x as int == fx - 1 && s7[i].y as int == fy + 0) || ((#[trigger] s7[i]).x as int == fx - 1 && s7[i].y as int == fy - 1) || ((#[trigger] s7[i]).x as int == fx + 0 && s7[i].y as int == fy - 1) || ((#[trigger] s7[i]).x as int == fx - 1 && s7[i].y as int == fy + 1) || ((#[trigger] s7[i]).x as int == fx + 0 && s7[i].y as int == fy + 1) || ((#[trigger] s7[i]).x as int == fx + 1 && s7[i].y as int == fy + 0) || ((#[trigger] s7[i]).x as int == fx + 1 && s7[i].y as int == fy - 1) by {}
        assert forall|i1: int, j1: int| lo <= i1 < j1 < s7.len() implies s7[i1] != s7[j1] by {
            if j1 < s6.len() {
                assert(s7[i1] == s6[i1] && s7[j1] == s6[j1]);
            } else {
                assert(s7[i1] == s6[i1]);
            }
        }
    }
    try_add_pos_if_empty_or_enemy(board, opposite_color, piece_pos.delta_if_valid(1, 1), moves);
    let ghost s8 = moves@;
    proof {
        assert(extends(s7, s8));
        assert forall|i: int| lo <= i < s8.len() implies (#[trigger] s8[i]).in_bounds()
            && king_dest(*board, *piece_pos, opposite_color, s8[i].x as int, s8[i].y as int) by {}
        assert forall|i: int| lo <= i < s8.len() implies ((#[trigger] s8[i]).x as int == fx - 1 && s8[i].y as int == fy + 0) || ((#[trigger] s8[i]).x as int == fx - 1 && s8[i].y as int == fy - 1) || ((#[trigger] s8[i]).x as int == fx + 0 && s8[i].y as int == fy - 1) || ((#[trigger] s8[i]).x as int == fx - 1 && s8[i].y as int == fy + 1) || ((#[trigger] s8[i]).x as int == fx + 0 && s8[i].y as int == fy + 1) || ((#[trigger] s8[i]).x as int == fx + 1 && s8[i].y as int == fy + 0) || ((#[trigger] s8[i]).x as int == fx + 1 && s8[i].y as int == fy - 1) || ((#[trigger] s8[i]).x as int == fx + 1 && s8[i].y as int == fy + 1) by {}
        assert forall|i1: int, j1: int| lo <= i1 < j1 < s8.len() implies s8[i1] != s8[j1] by {
            if j1 < s7.len() {
                assert(s8[i1] == s7[i1] && s8[j1] == s7[j1]);
            } else {
                assert(s8[i1] == s7[i1]);
            }
        }
    }
    proof {
        lemma_extends_trans(s6, s7, s8);
        lemma_extends_trans(s5, s6, s8);
        lemma_extends_trans(s4, s5, s8);
        lemma_extends_trans(s3, s4, s8);
        lemma_extends_trans(s2, s3, s8);
        lemma_extends_trans(s1, s2, s8);
        lemma_extends_trans(orig, s1, s8);
        assert forall|x: int, y: int|
            #[trigger] king_dest(*board, *piece_pos, opposite_color, x, y) implies seq_has_pos(
            moves@,
            lo,
            x,
            y,
        ) by {
            if x == fx - 1 && y == fy + 0 {
                assert(pos_found_at(s1, lo, x, y, orig.len() as int));
                lemma_has_pos_extends(s1, s8, lo, x, y);
            } else if x == fx - 1 && y == fy - 1 {
                assert(pos_found_at(s2, lo, x, y, s1.len() as int));
                lemma_has_pos_extends(s2, s8, lo, x, y);
            } else if x == fx + 0 && y == fy - 1 {
                assert(pos_found_at(s3, lo, x, y, s2.len() as int));
                lemma_has_pos_extends(s3, s8, lo, x, y);
            } else if x == fx - 1 && y == fy + 1 {
                assert(pos_found_at(s4, lo, x, y, s3.len() as int));
                lemma_has_pos_extends(s4, s8, lo, x, y);
            } else if x == fx + 0 && y == fy + 1 {
                assert(pos_found_at(s5, lo, x, y, s4.len() as int));
                lemma_has_pos_extends(s5, s8, lo, x, y);
            } else if x == fx + 1 && y == fy + 0 {
                assert(pos_found_at(s6, lo, x, y, s5.len() as int));
                lemma_has_pos_extends(s6, s8, lo, x, y);
            } else if x == fx + 1 && y == fy - 1 {
                assert(pos_found_at(s7, lo, x, y, s6.len() as int));
                lemma_has_pos_extends(s7, s8, lo, x, y);
            } else {
                assert(x == fx + 1 && y == fy + 1);
                assert(pos_found_at(s8, lo, x, y, s7.len() as int));
            }
        }
    }
}

/// Appends `pos` to `moves` iff it is empty or holds a piece of
/// `opposite_color`.
fn add_pos_if_empty_or_enemy(
    board: &Board,
    opposite_color: Color,
    pos: Position,
    moves: &mut Vec<Position>,
)
    requires
        pos.in_bounds(),
    ensures
        board.spec_empty_or_color(pos.x as int, pos.y as int, opposite_color) ==> final(moves)@
            == old(moves)@.push(pos),
        !board.spec_empty_or_color(pos.x as int, pos.y as int, opposite_color) ==> final(moves)@
            == old(moves)@,
{
    if board.is_empty_or_color(&pos, &opposite_color) {
        moves.push(pos);
    }
}

/// Appends the position inside `pos_result` iff the offset stayed on the
/// board and the square is empty or holds a piece of `opposite_color`.
fn try_add_pos_if_empty_or_enemy(
    board: &Board,
    opposite_color: Color,
    pos_result: Result<Position, ErrorKind>,
    moves: &mut Vec<Position>,
)
    requires
        pos_result matches Ok(p) ==> p.in_bounds(),
    ensures
        match pos_result {
            Ok(p) => {
                &&& board.spec_empty_or_color(p.x as int, p.y as int, opposite_color)
                    ==> final(moves)@ == old(moves)@.push(p)
                &&& !board.spec_empty_or_color(p.x as int, p.y as int, opposite_color)
                    ==> final(moves)@ == old(moves)@
            },
            Err(_) => final(moves)@ == old(moves)@,
        },
{
    match pos_result {
        Err(_) => {},
        Ok(pos) => add_pos_if_empty_or_enemy(board, opposite_color, pos, moves),
    }
}


/// Appends a pawn's destinations: the single forward step onto an empty
/// square, the double step (over and onto empty squares, only if the pawn
/// has never moved), and each diagonal-forward capture of an enemy piece.
fn get_moves_pawn(
    board: &Board,
    piece_pos: &Position,
    piece_state: &PieceState,
    opposite_color: Color,
    forward_y: isize,
    moves: &mut Vec<Position>,
)
    requires
        piece_pos.in_bounds(),
        opposite_color == piece_state.color.spec_opposite(),
        forward_y as int == forward_of(piece_state.color),
        0 <= piece_pos.y as int + forward_of(piece_state.color) < 8,
        piece_state.moved == PieceMoved::No ==> 0 <= piece_pos.y as int + 2 * forward_of(
            piece_state.color,
        ) < 8,
    ensures
        extends(old(moves)@, final(moves)@),
        forall|i: int|
            old(moves)@.len() <= i < final(moves)@.len() ==> (#[trigger] final(moves)@[i]).in_bounds()
                && pawn_dest(
                *board,
                *piece_pos,
                *piece_state,
                final(moves)@[i].x as int,
                final(moves)@[i].y as int,
            ),
        forall|x: int, y: int|
            #[trigger] pawn_dest(*board, *piece_pos, *piece_state, x, y) ==> seq_has_pos(
                final(moves)@,
                old(moves)@.len() as int,
                x,
                y,
            ),
        distinct_from(final(moves)@, old(moves)@.len() as int),
{
    let ghost orig = moves@;
    let ghost fx = piece_pos.x as int;
    let ghost fy = piece_pos.y as int;
    let ghost f = forward_of(piece_state.color);
    let ghost lo = orig.len() as int;
    let pos_forward = piece_pos.delta_y(forward_y);
    if board.is_empty(&pos_forward) {
        moves.push(pos_forward);
        if piece_state.moved == PieceMoved::No {
            let pos_forward2 = piece_pos.delta_y(forward_y + forward_y);
            if board.is_empty(&pos_forward2) {
                moves.push(pos_forward2);
            }
        }
    }
    let ghost t1 = moves@;
    if piece_pos.x > 0 {
        let left = piece_pos.delta(-1, forward_y);
        if board.is_color(&left, &opposite_color) {
            moves.push(left);
        }
    }
    let ghost t2 = moves@;
    if piece_pos.x < BOARD_WIDTH - 1 {
        let right = piece_pos.delta(1, forward_y);
        if board.is_color(&right, &opposite_color) {
            moves.push(right);
        }
    }
    proof {
        lemma_extends_trans(orig, t1, t2);
        lemma_extends_trans(t1, t2, moves@);
        assert forall|x: int, y: int|
            #[trigger] pawn_dest(*board, *piece_pos, *piece_state, x, y) implies seq_has_pos(
            moves@,
            lo,
            x,
            y,
        ) by {
            if x == fx && y == fy + f {
                assert(pos_found_at(t1, lo, x, y, lo));
                lemma_has_pos_extends(t1, moves@, lo, x, y);
            } else if x == fx && y == fy + 2 * f {
                assert(pos_found_at(t1, lo, x, y, lo + 1));
                lemma_has_pos_extends(t1, moves@, lo, x, y);
            } else if x == fx - 1 {
                assert(pos_found_at(t2, lo, x, y, t1.len() as int));
                lemma_has_pos_extends(t2, moves@, lo, x, y);
            } else {
                assert(x == fx + 1 && y == fy + f);
                assert(pos_found_at(moves@, lo, x, y, t2.len() as int));
            }
        }
        assert(distinct_from(moves@, lo));
    }
}

/// Appends every destination of the piece in `piece_state` on `piece_pos`,
/// dispatching on the piece kind.
fn get_piece_moves(
    board: &Board,
    piece_pos: &Position,
    piece_state: &PieceState,
    moves: &mut Vec<Position>,
)
    requires
        piece_pos.in_bounds(),
        pawn_steps_on_board(*piece_state, *piece_pos),
    ensures
        extends(old(moves)@, final(moves)@),
        forall|i: int|
            old(moves)@.len() <= i < final(moves)@.len() ==> (#[trigger] final(moves)@[i]).in_bounds()
                && piece_dest(
                *board,
                *piece_pos,
                *piece_state,
                final(moves)@[i].x as int,
                final(moves)@[i].y as int,
            ),
        forall|x: int, y: int|
            #[trigger] piece_dest(*board, *piece_pos, *piece_state, x, y) ==> seq_has_pos(
                final(moves)@,
                old(moves)@.len() as int,
                x,
                y,
            ),
        distinct_from(final(moves)@, old(moves)@.len() as int),
{
    let opposite_color = piece_state.color.opposite();
    match piece_state.piece_type {
        Type::Pawn => {
            let forward_y: isize = match piece_state.color {
                Color::White => 1,
                Color::Black => -1,
            };
            get_moves_pawn(board, piece_pos, piece_state, opposite_color, forward_y, moves);
        },
        Type::Knight => get_moves_knight(board, piece_pos, opposite_color, moves),
        Type::Bishop => get_moves_bishop(board, piece_pos, opposite_color, moves),
        Type::Queen => get_moves_queen(board, piece_pos, opposite_color, moves),
        Type::Rook => get_moves_rook(board, piece_pos, opposite_color, moves),
        Type::King => get_moves_king(board, piece_pos, opposite_color, moves),
    }
}

/// Appends to `moves` every pseudo-legal destination of the piece occupying
/// `pos`: exactly the squares satisfying `move_dest`, each exactly once, and
/// nothing at all if the square is empty.
pub fn get_moves(board: &Board, pos: &Position, moves: &mut Vec<Position>)
    requires
        pos.in_bounds(),
        pawn_rank_ok(*board, *pos),
    ensures
        extends(old(moves)@, final(moves)@),
        forall|i: int|
            old(moves)@.len() <= i < final(moves)@.len() ==> (#[trigger] final(moves)@[i]).in_bounds()
                && move_dest(*board, *pos, final(moves)@[i].x as int, final(moves)@[i].y as int),
        forall|x: int, y: int|
            #[trigger] move_dest(*board, *pos, x, y) ==> seq_has_pos(
                final(moves)@,
                old(moves)@.len() as int,
                x,
                y,
            ),
        distinct_from(final(moves)@, old(moves)@.len() as int),
        board.spec_empty(pos.x as int, pos.y as int) ==> final(moves)@ == old(moves)@,
{
    let piece = board.value_at(pos);
    match piece {
        Field::Empty => {},
        Field::Piece(state) => {
            get_piece_moves(board, pos, state, moves);
        },
    }
}


/// Blocking: a slide can never reach past the first occupied square. When
/// the square `j` steps out along a direction is occupied, the square `k`
/// steps out, for any `k` beyond `j`, is not a sliding destination.
pub proof fn lemma_sliding_blocked(
    b: Board,
    fx: int,
    fy: int,
    dx: int,
    dy: int,
    capture: Color,
    j: int,
    k: int,
)
    requires
        -1 <= dx <= 1,
        -1 <= dy <= 1,
        !(dx == 0 && dy == 0),
        1 <= j < k,
        !b.spec_empty(fx + j * dx, fy + j * dy),
    ensures
        !ray_dest(b, fx, fy, dx, dy, capture, fx + k * dx, fy + k * dy),
{
    if ray_dest(b, fx, fy, dx, dy, capture, fx + k * dx, fy + k * dy) {
        let k0 = choose|k0: int|
            #[trigger] ray_dest_at(b, fx, fy, dx, dy, capture, fx + k * dx, fy + k * dy, k0);
        lemma_ray_index_unique(dx, dy, k0, k);
        assert(ray_step_ok(b, fx, fy, dx, dy, j));
        assert(false);
    }
}

/// A leaper's (knight's or king's) destination is always an empty square or
/// an enemy square, and never the origin square itself.
pub proof fn lemma_leaper_dest_empty_or_enemy(
    b: Board,
    from: Position,
    capture: Color,
    x: int,
    y: int,
)
    requires
        knight_dest(b, from, capture, x, y) || king_dest(b, from, capture, x, y),
    ensures
        b.spec_empty_or_color(x, y, capture),
        !(x == from.x as int && y == from.y as int),
{
}

/// The pawn double-step square is a destination exactly when the pawn has
/// never moved and both the one-step and the two-step forward squares are
/// empty; in particular it is no destination when only the far square is
/// empty.
pub proof fn lemma_pawn_double_step_iff(b: Board, from: Position, state: PieceState, x: int, y: int)
    requires
        from.in_bounds(),
        x == from.x as int,
        y == from.y as int + 2 * forward_of(state.color),
        on_board(x, y),
    ensures
        pawn_dest(b, from, state, x, y) <==> (state.moved == PieceMoved::No && b.spec_empty(
            from.x as int,
            from.y as int + forward_of(state.color),
        ) && b.spec_empty(x, y)),
{
}

/// A diagonal-forward square is a pawn destination exactly when a piece of
/// the opposite color stands on it; an empty diagonal is never one.
pub proof fn lemma_pawn_diagonal_iff(b: Board, from: Position, state: PieceState, x: int, y: int)
    requires
        from.in_bounds(),
        x == from.x as int - 1 || x == from.x as int + 1,
        y == from.y as int + forward_of(state.color),
    ensures
        pawn_dest(b, from, state, x, y) <==> (on_board(x, y) && b.spec_color(
            x,
            y,
            state.color.spec_opposite(),
        )),
{
}

/// An empty square allows no destination at all, on any board.
pub proof fn lemma_empty_square_no_dest(b: Board, from: Position, x: int, y: int)
    requires
        b.spec_empty(from.x as int, from.y as int),
    ensures
        !move_dest(b, from, x, y),
{
}

} // verus!
