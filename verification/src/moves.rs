//! White's pseudo-legal moves, and whether one of them gives check.
//!
//! A move is pseudo-legal when it follows the way the piece moves and
//! captures and stays on the board, whether or not it leaves White's own king
//! attacked.

use vstd::prelude::*;
use crate::attack::{
    attacks, black_king_in_check, diagonal, get_white_king, in_check, path_clear, ray_cell,
    ray_coord, reach, sign, straight, white_king_in_check,
};
use crate::board::{enemy_at, get_piece_at, is_empty, is_enemy, on_board, piece_at, Board};
use crate::piece::{Color, Piece, PieceType};

verus! {

broadcast use {
    vstd::seq_lib::lemma_seq_contains_after_push,
    vstd::seq_lib::lemma_seq_concat_contains_all_elements,
    vstd::seq_lib::lemma_seq_empty_contains_nothing,
};

/// A piece going from one square to another. Squares are a file and a row,
/// both counted from 0.
#[derive(Clone, Copy, Debug, PartialEq, Eq)]
pub struct Move {
    pub from: (i32, i32),
    pub to: (i32, i32),
    pub piece: Piece,
}

/// Whether `piece` may end a move on `(x, y)`: the square lies on the board
/// and holds no piece of its own side.
pub open spec fn can_land(cells: Seq<Option<Piece>>, x: int, y: int, piece: Piece) -> bool {
    on_board(x, y) && match piece_at(cells, x, y) {
        Some(p) => p.color != piece.color,
        None => true,
    }
}

/// Whether a white pawn on `(fx, fy)` may advance to `(tx, ty)`: one square
/// straight ahead onto an empty square, or two from the second rank over two
/// empty squares.
pub open spec fn pawn_advance(cells: Seq<Option<Piece>>, fx: int, fy: int, tx: int, ty: int) -> bool {
    &&& tx == fx
    &&& on_board(tx, ty)
    &&& piece_at(cells, tx, ty) is None
    &&& (ty == fy + 1 || (ty == fy + 2 && fy == 1 && piece_at(cells, fx, fy + 1) is None))
}

/// Whether the white piece `piece`, standing on `(fx, fy)`, may go to
/// `(tx, ty)`.
///
/// A pawn advances or captures diagonally ahead; any other piece goes where
/// it attacks, unless a piece of its own side stands there. No black piece
/// has a move.
pub open spec fn pseudo_legal(
    cells: Seq<Option<Piece>>,
    fx: int,
    fy: int,
    piece: Piece,
    tx: int,
    ty: int,
) -> bool {
    piece.color == Color::White && if piece.kind == PieceType::Pawn {
        pawn_advance(cells, fx, fy, tx, ty) || (attacks(cells, fx, fy, tx, ty, piece) && enemy_at(
            cells,
            tx,
            ty,
            piece,
        ))
    } else {
        attacks(cells, fx, fy, tx, ty, piece) && can_land(cells, tx, ty, piece)
    }
}

/// Whether `m` is a pseudo-legal move of a white piece that stands on the
/// board.
pub open spec fn is_white_move(cells: Seq<Option<Piece>>, m: Move) -> bool {
    &&& on_board(m.from.0 as int, m.from.1 as int)
    &&& cells[m.from.1 * 8 + m.from.0] == Some(m.piece)
    &&& pseudo_legal(
        cells,
        m.from.0 as int,
        m.from.1 as int,
        m.piece,
        m.to.0 as int,
        m.to.1 as int,
    )
}

/// The cells after a move: the square left is empty, the square reached holds
/// the piece, whatever stood there before.
pub open spec fn apply_move(cells: Seq<Option<Piece>>, m: Move) -> Seq<Option<Piece>> {
    cells.update(m.from.1 * 8 + m.from.0, None).update(m.to.1 * 8 + m.to.0, Some(m.piece))
}

/// Whether the move is legal for White and leaves Black's king attacked.
pub open spec fn gives_check(cells: Seq<Option<Piece>>, m: Move) -> bool {
    let after = apply_move(cells, m);
    !in_check(after, Color::White) && in_check(after, Color::Black)
}

/// Whether White has a pseudo-legal move that does not leave its own king
/// attacked and that attacks Black's king.
pub open spec fn check_deliverable(cells: Seq<Option<Piece>>) -> bool {
    exists|m: Move| is_white_move(cells, m) && #[trigger] gives_check(cells, m)
}

/// Whether `(tx, ty)` can be reached from `(fx, fy)` by sliding in the
/// direction `(dx, dy)` over empty squares.
pub open spec fn slide_target(
    cells: Seq<Option<Piece>>,
    fx: int,
    fy: int,
    dx: int,
    dy: int,
    piece: Piece,
    tx: int,
    ty: int,
) -> bool {
    &&& sign(tx - fx) == dx
    &&& sign(ty - fy) == dy
    &&& diagonal(tx - fx, ty - fy) || straight(tx - fx, ty - fy)
    &&& path_clear(cells, fx, fy, tx, ty)
    &&& can_land(cells, tx, ty, piece)
}

/// The move of `piece` from `(x, y)` to `(tx, ty)`.
pub open spec fn move_to(x: int, y: int, piece: Piece, tx: int, ty: int) -> Move {
    Move { from: (x as i32, y as i32), to: (tx as i32, ty as i32), piece }
}

/// The move by `(dx, dy)`, if the piece may land there.
pub open spec fn step_moves(
    cells: Seq<Option<Piece>>,
    x: int,
    y: int,
    dx: int,
    dy: int,
    piece: Piece,
) -> Seq<Move> {
    if can_land(cells, x + dx, y + dy, piece) {
        seq![move_to(x, y, piece, x + dx, y + dy)]
    } else {
        Seq::empty()
    }
}

/// The moves along the ray in direction `(dx, dy)` from its `k`-th square on,
/// nearest square first: onto every empty square up to the first occupied
/// one, and onto that one if it holds a piece of the other side.
pub open spec fn ray_moves(
    cells: Seq<Option<Piece>>,
    x: int,
    y: int,
    dx: int,
    dy: int,
    piece: Piece,
    k: int,
) -> Seq<Move>
    decreases 8 - k,
{
    let tx = ray_coord(x, dx, k);
    let ty = ray_coord(y, dy, k);
    if k < 1 || k >= 8 || !on_board(tx, ty) {
        Seq::empty()
    } else {
        match piece_at(cells, tx, ty) {
            None => seq![move_to(x, y, piece, tx, ty)] + ray_moves(cells, x, y, dx, dy, piece, k + 1),
            Some(p) => if p.color != piece.color {
                seq![move_to(x, y, piece, tx, ty)]
            } else {
                Seq::empty()
            },
        }
    }
}

/// The moves of a white pawn on `(x, y)`: one square ahead, two squares
/// ahead, the capture towards the a-file, the capture towards the h-file,
/// each where it is possible.
pub open spec fn pawn_moves(cells: Seq<Option<Piece>>, x: int, y: int, piece: Piece) -> Seq<Move> {
    let one = if pawn_advance(cells, x, y, x, y + 1) {
        seq![move_to(x, y, piece, x, y + 1)]
    } else {
        Seq::empty()
    };
    let two = if pawn_advance(cells, x, y, x, y + 2) {
        seq![move_to(x, y, piece, x, y + 2)]
    } else {
        Seq::empty()
    };
    let left = if enemy_at(cells, x - 1, y + 1, piece) {
        seq![move_to(x, y, piece, x - 1, y + 1)]
    } else {
        Seq::empty()
    };
    let right = if enemy_at(cells, x + 1, y + 1, piece) {
        seq![move_to(x, y, piece, x + 1, y + 1)]
    } else {
        Seq::empty()
    };
    one + two + left + right
}

/// The list of the pseudo-legal moves of `piece` standing on `(x, y)`.
///
/// A knight's jumps and a king's steps come in a fixed order of their
/// offsets; a sliding piece's rays come one after the other, each from the
/// nearest square outwards.
pub open spec fn piece_moves(cells: Seq<Option<Piece>>, x: int, y: int, piece: Piece) -> Seq<Move> {
    if piece.color == Color::Black {
        Seq::empty()
    } else {
        match piece.kind {
            PieceType::Pawn => pawn_moves(cells, x, y, piece),
            PieceType::Knight => step_moves(cells, x, y, 2, 1, piece) + step_moves(
                cells,
                x,
                y,
                1,
                2,
                piece,
            ) + step_moves(cells, x, y, -1, 2, piece) + step_moves(cells, x, y, -2, 1, piece)
                + step_moves(cells, x, y, -2, -1, piece) + step_moves(cells, x, y, -1, -2, piece)
                + step_moves(cells, x, y, 1, -2, piece) + step_moves(cells, x, y, 2, -1, piece),
            PieceType::Bishop => ray_moves(cells, x, y, 1, 1, piece, 1) + ray_moves(
                cells,
                x,
                y,
                1,
                -1,
                piece,
                1,
            ) + ray_moves(cells, x, y, -1, 1, piece, 1) + ray_moves(cells, x, y, -1, -1, piece, 1),
            PieceType::Rook => ray_moves(cells, x, y, 1, 0, piece, 1) + ray_moves(
                cells,
                x,
                y,
                -1,
                0,
                piece,
                1,
            ) + ray_moves(cells, x, y, 0, 1, piece, 1) + ray_moves(cells, x, y, 0, -1, piece, 1),
            PieceType::Queen => ray_moves(cells, x, y, 1, 0, piece, 1) + ray_moves(
                cells,
                x,
                y,
                -1,
                0,
                piece,
                1,
            ) + ray_moves(cells, x, y, 0, 1, piece, 1) + ray_moves(cells, x, y, 0, -1, piece, 1)
                + ray_moves(cells, x, y, 1, 1, piece, 1) + ray_moves(cells, x, y, 1, -1, piece, 1)
                + ray_moves(cells, x, y, -1, 1, piece, 1) + ray_moves(cells, x, y, -1, -1, piece, 1),
            PieceType::King => step_moves(cells, x, y, -1, -1, piece) + step_moves(
                cells,
                x,
                y,
                -1,
                0,
                piece,
            ) + step_moves(cells, x, y, -1, 1, piece) + step_moves(cells, x, y, 0, -1, piece)
                + step_moves(cells, x, y, 0, 1, piece) + step_moves(cells, x, y, 1, -1, piece)
                + step_moves(cells, x, y, 1, 0, piece) + step_moves(cells, x, y, 1, 1, piece),
        }
    }
}

/// The moves of the white piece on cell `s`, if one stands there.
pub open spec fn moves_from(cells: Seq<Option<Piece>>, s: int) -> Seq<Move> {
    match cells[s] {
        Some(p) => if p.color == Color::White {
            piece_moves(cells, s % 8, s / 8, p)
        } else {
            Seq::empty()
        },
        None => Seq::empty(),
    }
}

/// The list of the pseudo-legal moves of the white pieces on the cells before
/// `n`, cell by cell.
pub open spec fn white_moves_before(cells: Seq<Option<Piece>>, n: int) -> Seq<Move>
    decreases n,
{
    if n <= 0 {
        Seq::empty()
    } else {
        white_moves_before(cells, n - 1) + moves_from(cells, n - 1)
    }
}

/// The list of all pseudo-legal moves of White: those of each white piece,
/// the pieces taken from a1 along the first rank, then along the second, and
/// so on.
pub open spec fn white_moves(cells: Seq<Option<Piece>>) -> Seq<Move> {
    white_moves_before(cells, 64)
}

/// Adds the move by `(dx, dy)` if the piece may land there.
fn push_step(board: &Board, x: i32, y: i32, dx: i32, dy: i32, piece: Piece, moves: &mut Vec<Move>)
    requires
        on_board(x as int, y as int),
        -2 <= dx <= 2,
        -2 <= dy <= 2,
    ensures
        final(moves)@ == old(moves)@ + step_moves(
            board@,
            x as int,
            y as int,
            dx as int,
            dy as int,
            piece,
        ),
        forall|m: Move|
            final(moves)@.contains(m) <==> old(moves)@.contains(m) || (m == (Move {
                from: (x, y),
                to: ((x + dx) as i32, (y + dy) as i32),
                piece,
            }) && can_land(board@, x + dx, y + dy, piece)),
{
    let ghost added = step_moves(board@, x as int, y as int, dx as int, dy as int, piece);
    let nx = x + dx;
    let ny = y + dy;
    if nx >= 0 && nx < 8 && ny >= 0 && ny < 8 {
        if get_piece_at(board, nx, ny).is_none() || is_enemy(board, nx, ny, piece) {
            moves.push(Move { from: (x, y), to: (nx, ny), piece });
        }
    }
    assert(moves@ =~= old(moves)@ + added);
}

/// Adds the moves along one ray: every empty square up to the first occupied
/// one, and that one too if it holds a piece of the other side.
fn push_ray(board: &Board, x: i32, y: i32, dx: i32, dy: i32, piece: Piece, moves: &mut Vec<Move>)
    requires
        on_board(x as int, y as int),
        -1 <= dx <= 1,
        -1 <= dy <= 1,
        dx != 0 || dy != 0,
    ensures
        final(moves)@ == old(moves)@ + ray_moves(
            board@,
            x as int,
            y as int,
            dx as int,
            dy as int,
            piece,
            1,
        ),
        forall|m: Move|
            final(moves)@.contains(m) <==> old(moves)@.contains(m) || (m.from == (x, y) && m.piece
                == piece && slide_target(
                board@,
                x as int,
                y as int,
                dx as int,
                dy as int,
                piece,
                m.to.0 as int,
                m.to.1 as int,
            )),
{
    let mut nx = x + dx;
    let mut ny = y + dy;
    let mut blocked = false;
    let ghost mut k: int = 1;
    while !blocked && nx >= 0 && nx < 8 && ny >= 0 && ny < 8
        invariant
            on_board(x as int, y as int),
            -1 <= dx <= 1,
            -1 <= dy <= 1,
            dx != 0 || dy != 0,
            1 <= k <= 8,
            -1 <= nx <= 8,
            -1 <= ny <= 8,
            nx == ray_coord(x as int, dx as int, k),
            ny == ray_coord(y as int, dy as int, k),
            !blocked ==> moves@ + ray_moves(
                board@,
                x as int,
                y as int,
                dx as int,
                dy as int,
                piece,
                k,
            ) == old(moves)@ + ray_moves(board@, x as int, y as int, dx as int, dy as int, piece, 1),
            blocked ==> moves@ == old(moves)@ + ray_moves(
                board@,
                x as int,
                y as int,
                dx as int,
                dy as int,
                piece,
                1,
            ),
            !blocked ==> forall|j: int|
                1 <= j < k ==> (#[trigger] ray_cell(
                    board@,
                    x as int,
                    y as int,
                    dx as int,
                    dy as int,
                    j,
                )) is None,
            !blocked ==> forall|m: Move|
                moves@.contains(m) <==> old(moves)@.contains(m) || (m.from == (x, y) && m.piece
                    == piece && slide_target(
                    board@,
                    x as int,
                    y as int,
                    dx as int,
                    dy as int,
                    piece,
                    m.to.0 as int,
                    m.to.1 as int,
                ) && reach(m.to.0 - x, m.to.1 - y) < k),
            blocked ==> forall|m: Move|
                moves@.contains(m) <==> old(moves)@.contains(m) || (m.from == (x, y) && m.piece
                    == piece && slide_target(
                    board@,
                    x as int,
                    y as int,
                    dx as int,
                    dy as int,
                    piece,
                    m.to.0 as int,
                    m.to.1 as int,
                )),
        decreases (if blocked { 0int } else { 1int }), 8 - k,
    {
        let there = get_piece_at(board, nx, ny);
        assert(ray_cell(board@, x as int, y as int, dx as int, dy as int, k) == there);
        let ghost so_far = moves@;
        let ghost rest = ray_moves(board@, x as int, y as int, dx as int, dy as int, piece, k);
        if there.is_none() {
            moves.push(Move { from: (x, y), to: (nx, ny), piece });
            assert(moves@ + ray_moves(
                board@,
                x as int,
                y as int,
                dx as int,
                dy as int,
                piece,
                k + 1,
            ) =~= so_far + rest);
            nx = nx + dx;
            ny = ny + dy;
            proof {
                k = k + 1;
            }
        } else {
            if is_enemy(board, nx, ny, piece) {
                moves.push(Move { from: (x, y), to: (nx, ny), piece });
            }
            assert(moves@ =~= so_far + rest);
            blocked = true;
        }
    }
    assert(!blocked ==> moves@ + Seq::<Move>::empty() =~= moves@);
}

/// The moves of a white pawn.
fn pawn_list(board: &Board, x: i32, y: i32, piece: Piece) -> (moves: Vec<Move>)
    requires
        on_board(x as int, y as int),
        piece.kind == PieceType::Pawn,
        piece.color == Color::White,
    ensures
        moves@ == piece_moves(board@, x as int, y as int, piece),
        forall|m: Move|
            moves@.contains(m) <==> (m.from == (x, y) && m.piece == piece && pseudo_legal(
                board@,
                x as int,
                y as int,
                piece,
                m.to.0 as int,
                m.to.1 as int,
            )),
{
    let mut moves: Vec<Move> = Vec::new();
    if y + 1 < 8 && is_empty(board, x, y + 1) {
        moves.push(Move { from: (x, y), to: (x, y + 1), piece });
        if y == 1 && is_empty(board, x, y + 2) {
            moves.push(Move { from: (x, y), to: (x, y + 2), piece });
        }
    }
    if x - 1 >= 0 && y + 1 < 8 && is_enemy(board, x - 1, y + 1, piece) {
        moves.push(Move { from: (x, y), to: (x - 1, y + 1), piece });
    }
    if x + 1 < 8 && y + 1 < 8 && is_enemy(board, x + 1, y + 1, piece) {
        moves.push(Move { from: (x, y), to: (x + 1, y + 1), piece });
    }
    assert(moves@ =~= pawn_moves(board@, x as int, y as int, piece));
    moves
}

/// The moves of a white knight.
fn knight_list(board: &Board, x: i32, y: i32, piece: Piece) -> (moves: Vec<Move>)
    requires
        on_board(x as int, y as int),
        piece.kind == PieceType::Knight,
        piece.color == Color::White,
    ensures
        moves@ == piece_moves(board@, x as int, y as int, piece),
        forall|m: Move|
            moves@.contains(m) <==> (m.from == (x, y) && m.piece == piece && pseudo_legal(
                board@,
                x as int,
                y as int,
                piece,
                m.to.0 as int,
                m.to.1 as int,
            )),
{
    let mut moves: Vec<Move> = Vec::new();
    push_step(board, x, y, 2, 1, piece, &mut moves);
    push_step(board, x, y, 1, 2, piece, &mut moves);
    push_step(board, x, y, -1, 2, piece, &mut moves);
    push_step(board, x, y, -2, 1, piece, &mut moves);
    push_step(board, x, y, -2, -1, piece, &mut moves);
    push_step(board, x, y, -1, -2, piece, &mut moves);
    push_step(board, x, y, 1, -2, piece, &mut moves);
    push_step(board, x, y, 2, -1, piece, &mut moves);
    assert(moves@ =~= piece_moves(board@, x as int, y as int, piece));
    moves
}

/// The moves of a white king.
fn king_list(board: &Board, x: i32, y: i32, piece: Piece) -> (moves: Vec<Move>)
    requires
        on_board(x as int, y as int),
        piece.kind == PieceType::King,
        piece.color == Color::White,
    ensures
        moves@ == piece_moves(board@, x as int, y as int, piece),
        forall|m: Move|
            moves@.contains(m) <==> (m.from == (x, y) && m.piece == piece && pseudo_legal(
                board@,
                x as int,
                y as int,
                piece,
                m.to.0 as int,
                m.to.1 as int,
            )),
{
    let mut moves: Vec<Move> = Vec::new();
    push_step(board, x, y, -1, -1, piece, &mut moves);
    push_step(board, x, y, -1, 0, piece, &mut moves);
    push_step(board, x, y, -1, 1, piece, &mut moves);
    push_step(board, x, y, 0, -1, piece, &mut moves);
    push_step(board, x, y, 0, 1, piece, &mut moves);
    push_step(board, x, y, 1, -1, piece, &mut moves);
    push_step(board, x, y, 1, 0, piece, &mut moves);
    push_step(board, x, y, 1, 1, piece, &mut moves);
    assert(moves@ =~= piece_moves(board@, x as int, y as int, piece));
    moves
}

/// Adds the moves along the four diagonals.
fn push_diagonals(board: &Board, x: i32, y: i32, piece: Piece, moves: &mut Vec<Move>)
    requires
        on_board(x as int, y as int),
    ensures
        final(moves)@ == old(moves)@ + ray_moves(board@, x as int, y as int, 1, 1, piece, 1)
            + ray_moves(board@, x as int, y as int, 1, -1, piece, 1) + ray_moves(
            board@,
            x as int,
            y as int,
            -1,
            1,
            piece,
            1,
        ) + ray_moves(board@, x as int, y as int, -1, -1, piece, 1),
        forall|m: Move|
            final(moves)@.contains(m) <==> old(moves)@.contains(m) || (m.from == (x, y) && m.piece
                == piece && diagonal(m.to.0 - x, m.to.1 - y) && path_clear(
                board@,
                x as int,
                y as int,
                m.to.0 as int,
                m.to.1 as int,
            ) && can_land(board@, m.to.0 as int, m.to.1 as int, piece)),
{
    push_ray(board, x, y, 1, 1, piece, moves);
    push_ray(board, x, y, 1, -1, piece, moves);
    push_ray(board, x, y, -1, 1, piece, moves);
    push_ray(board, x, y, -1, -1, piece, moves);
}

/// Adds the moves along the rank and the file.
fn push_straights(board: &Board, x: i32, y: i32, piece: Piece, moves: &mut Vec<Move>)
    requires
        on_board(x as int, y as int),
    ensures
        final(moves)@ == old(moves)@ + ray_moves(board@, x as int, y as int, 1, 0, piece, 1)
            + ray_moves(board@, x as int, y as int, -1, 0, piece, 1) + ray_moves(
            board@,
            x as int,
            y as int,
            0,
            1,
            piece,
            1,
        ) + ray_moves(board@, x as int, y as int, 0, -1, piece, 1),
        forall|m: Move|
            final(moves)@.contains(m) <==> old(moves)@.contains(m) || (m.from == (x, y) && m.piece
                == piece && straight(m.to.0 - x, m.to.1 - y) && path_clear(
                board@,
                x as int,
                y as int,
                m.to.0 as int,
                m.to.1 as int,
            ) && can_land(board@, m.to.0 as int, m.to.1 as int, piece)),
{
    push_ray(board, x, y, 1, 0, piece, moves);
    push_ray(board, x, y, -1, 0, piece, moves);
    push_ray(board, x, y, 0, 1, piece, moves);
    push_ray(board, x, y, 0, -1, piece, moves);
}

/// The moves of a white bishop, rook or queen.
fn slider_list(board: &Board, x: i32, y: i32, piece: Piece) -> (moves: Vec<Move>)
    requires
        on_board(x as int, y as int),
        piece.kind == PieceType::Bishop || piece.kind == PieceType::Rook || piece.kind
            == PieceType::Queen,
        piece.color == Color::White,
    ensures
        moves@ == piece_moves(board@, x as int, y as int, piece),
        forall|m: Move|
            moves@.contains(m) <==> (m.from == (x, y) && m.piece == piece && pseudo_legal(
                board@,
                x as int,
                y as int,
                piece,
                m.to.0 as int,
                m.to.1 as int,
            )),
{
    let mut moves: Vec<Move> = Vec::new();
    match piece.kind {
        PieceType::Bishop => {
            push_diagonals(board, x, y, piece, &mut moves);
        },
        PieceType::Rook => {
            push_straights(board, x, y, piece, &mut moves);
        },
        _ => {
            push_straights(board, x, y, piece, &mut moves);
            push_diagonals(board, x, y, piece, &mut moves);
        },
    }
    assert(moves@ =~= piece_moves(board@, x as int, y as int, piece));
    moves
}

/// The pseudo-legal moves of the white piece `piece` standing at file `x`,
/// row `y`, each once. A black piece gets no move.
pub fn generate_moves_for_piece(board: &Board, x: i32, y: i32, piece: Piece) -> (moves: Vec<Move>)
    requires
        on_board(x as int, y as int),
    ensures
        moves@ == piece_moves(board@, x as int, y as int, piece),
        forall|m: Move|
            moves@.contains(m) <==> (m.from == (x, y) && m.piece == piece && pseudo_legal(
                board@,
                x as int,
                y as int,
                piece,
                m.to.0 as int,
                m.to.1 as int,
            )),
{
    if piece.color == Color::Black {
        return Vec::new();
    }
    match piece.kind {
        PieceType::Pawn => pawn_list(board, x, y, piece),
        PieceType::Knight => knight_list(board, x, y, piece),
        PieceType::King => king_list(board, x, y, piece),
        _ => slider_list(board, x, y, piece),
    }
}

/// All pseudo-legal moves of the white pieces on the board, piece by piece
/// from a1 along the first rank, then along the second, and so on.
pub fn generate_white_moves(board: &Board) -> (moves: Vec<Move>)
    ensures
        moves@ == white_moves(board@),
        forall|m: Move| moves@.contains(m) <==> is_white_move(board@, m),
{
    let mut moves: Vec<Move> = Vec::new();
    let mut s: usize = 0;
    while s < 64
        invariant
            s <= 64,
            moves@ == white_moves_before(board@, s as int),
            forall|m: Move|
                moves@.contains(m) <==> (is_white_move(board@, m) && m.from.1 * 8 + m.from.0 < s),
        decreases 64 - s,
    {
        let x = (s % 8) as i32;
        let y = (s / 8) as i32;
        let ghost so_far = moves@;
        if let Some(piece) = get_piece_at(board, x, y) {
            if piece.color == Color::White {
                let mut found = generate_moves_for_piece(board, x, y, piece);
                moves.append(&mut found);
            }
        }
        assert(moves@ =~= so_far + moves_from(board@, s as int));
        s = s + 1;
    }
    moves
}

/// The board after a move: the piece leaves `from` and stands on `to`,
/// replacing what stood there.
pub fn make_move(board: &Board, mv: Move) -> (after: Board)
    requires
        on_board(mv.from.0 as int, mv.from.1 as int),
        on_board(mv.to.0 as int, mv.to.1 as int),
    ensures
        after@ == apply_move(board@, mv),
{
    let mut new_board: Board = *board;
    let from_index = (mv.from.1 as usize) * 8 + (mv.from.0 as usize);
    let to_index = (mv.to.1 as usize) * 8 + (mv.to.0 as usize);
    new_board[from_index] = None;
    new_board[to_index] = Some(mv.piece);
    new_board
}

/// Whether White has a pseudo-legal move that does not leave its own king
/// attacked and after which Black's king is attacked.
pub fn can_deliver_check(board: &Board) -> (r: bool)
    ensures
        r == check_deliverable(board@),
{
    let moves = generate_white_moves(board);
    let n = moves.len();
    let mut i: usize = 0;
    while i < n
        invariant
            i <= n,
            n == moves.len(),
            forall|m: Move| moves@.contains(m) <==> is_white_move(board@, m),
            forall|j: int| 0 <= j < i ==> !gives_check(board@, #[trigger] moves[j]),
        decreases n - i,
    {
        let mv = moves[i];
        assert(moves@.contains(mv));
        let new_board = make_move(board, mv);
        let mut own_king_attacked = false;
        if let Some(_) = get_white_king(&new_board) {
            if white_king_in_check(&new_board) {
                own_king_attacked = true;
            }
        }
        if !own_king_attacked && black_king_in_check(&new_board) {
            assert(gives_check(board@, mv));
            return true;
        }
        i = i + 1;
    }
    assert forall|m: Move| is_white_move(board@, m) implies !#[trigger] gives_check(board@, m) by {
        assert(moves@.contains(m));
    }
    false
}

} // verus!
