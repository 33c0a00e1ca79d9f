//! Which squares a piece attacks, and whether any piece on a board stands
//! attacked.
//!
//! Coordinates are a file `x` and a row `y`, both counted from 0.

use vstd::prelude::*;
use crate::board::{get_piece_at, on_board, piece_at, Board};
use crate::piece::{Color, Piece, PieceType};

verus! {

/// The absolute value of `v`.
pub open spec fn magnitude(v: int) -> int {
    if v < 0 {
        -v
    } else {
        v
    }
}

/// The sign of `v`: -1, 0 or 1.
pub open spec fn sign(v: int) -> int {
    if v < 0 {
        -1
    } else if v > 0 {
        1
    } else {
        0
    }
}

/// A displacement along a diagonal.
pub open spec fn diagonal(dx: int, dy: int) -> bool {
    magnitude(dx) == magnitude(dy) && dx != 0
}

/// A displacement along a file or a rank.
pub open spec fn straight(dx: int, dy: int) -> bool {
    (dx == 0 && dy != 0) || (dy == 0 && dx != 0)
}

/// The number of single steps that a displacement along a line takes.
pub open spec fn reach(dx: int, dy: int) -> int {
    if magnitude(dx) >= magnitude(dy) {
        magnitude(dx)
    } else {
        magnitude(dy)
    }
}

/// The coordinate reached from `start` after `k` steps of `step`, which is -1,
/// 0 or 1.
pub open spec fn ray_coord(start: int, step: int, k: int) -> int {
    if step > 0 {
        start + k
    } else if step < 0 {
        start - k
    } else {
        start
    }
}

/// What stands `k` steps of `(sx, sy)` away from `(fx, fy)`.
pub open spec fn ray_cell(
    cells: Seq<Option<Piece>>,
    fx: int,
    fy: int,
    sx: int,
    sy: int,
    k: int,
) -> Option<Piece> {
    piece_at(cells, ray_coord(fx, sx, k), ray_coord(fy, sy, k))
}

/// Every square strictly between `(fx, fy)` and `(tx, ty)` is empty. Meant for
/// two squares on a common rank, file or diagonal.
pub open spec fn path_clear(cells: Seq<Option<Piece>>, fx: int, fy: int, tx: int, ty: int) -> bool {
    forall|k: int|
        1 <= k < reach(tx - fx, ty - fy) ==> (#[trigger] ray_cell(
            cells,
            fx,
            fy,
            sign(tx - fx),
            sign(ty - fy),
            k,
        )) is None
}

/// Whether `piece`, standing on `(fx, fy)`, attacks the square `(tx, ty)`.
///
/// A pawn attacks the two squares diagonally ahead of it, a knight its eight
/// jumps, a king the eight squares around it. A bishop attacks along
/// diagonals, a rook along ranks and files, a queen along both, each as far as
/// the first occupied square, whichever side's piece stands there.
pub open spec fn attacks(
    cells: Seq<Option<Piece>>,
    fx: int,
    fy: int,
    tx: int,
    ty: int,
    piece: Piece,
) -> bool {
    let dx = tx - fx;
    let dy = ty - fy;
    match piece.kind {
        PieceType::Pawn => magnitude(dx) == 1 && dy == (if piece.color == Color::White {
            1int
        } else {
            -1int
        }),
        PieceType::Knight => (magnitude(dx) == 2 && magnitude(dy) == 1) || (magnitude(dx) == 1
            && magnitude(dy) == 2),
        PieceType::King => magnitude(dx) <= 1 && magnitude(dy) <= 1 && (dx != 0 || dy != 0),
        PieceType::Bishop => diagonal(dx, dy) && path_clear(cells, fx, fy, tx, ty),
        PieceType::Rook => straight(dx, dy) && path_clear(cells, fx, fy, tx, ty),
        PieceType::Queen => (diagonal(dx, dy) || straight(dx, dy)) && path_clear(
            cells,
            fx,
            fy,
            tx,
            ty,
        ),
    }
}

/// Whether the piece on cell `s` is of side `by` and attacks `(x, y)`.
pub open spec fn attacker_at(cells: Seq<Option<Piece>>, s: int, x: int, y: int, by: Color) -> bool {
    match cells[s] {
        Some(p) => p.color == by && attacks(cells, s % 8, s / 8, x, y, p),
        None => false,
    }
}

/// Whether some piece of side `by` attacks the square `(x, y)`.
pub open spec fn attacked_by(cells: Seq<Option<Piece>>, x: int, y: int, by: Color) -> bool {
    exists|s: int| 0 <= s < 64 && #[trigger] attacker_at(cells, s, x, y, by)
}

/// Whether cell `t` holds a piece that a piece of the other side attacks.
pub open spec fn target_attacked(cells: Seq<Option<Piece>>, t: int) -> bool {
    match cells[t] {
        Some(p) => attacked_by(cells, t % 8, t / 8, p.color.spec_opposite()),
        None => false,
    }
}

/// Whether any piece on the board is attacked by a piece of the other side.
pub open spec fn any_piece_attacked(cells: Seq<Option<Piece>>) -> bool {
    exists|t: int| 0 <= t < 64 && #[trigger] target_attacked(cells, t)
}

/// The king of a side.
pub open spec fn king_of(color: Color) -> Piece {
    Piece { kind: PieceType::King, color }
}

/// The cell of the king of a side: where several stand on the board, the one
/// with the lowest index; `None` where there is none.
pub open spec fn king_square(cells: Seq<Option<Piece>>, color: Color) -> Option<int> {
    cells.index_of_first(Some(king_of(color)))
}

/// Whether the king of a side is attacked by a piece of the other side. A side
/// without a king is never in check.
pub open spec fn in_check(cells: Seq<Option<Piece>>, color: Color) -> bool {
    match king_square(cells, color) {
        Some(k) => attacked_by(cells, k % 8, k / 8, color.spec_opposite()),
        None => false,
    }
}

/// The number of cells among the first `n` that hold `piece`.
pub open spec fn count_of(cells: Seq<Option<Piece>>, piece: Piece, n: int) -> int
    decreases n,
{
    if n <= 0 {
        0
    } else {
        count_of(cells, piece, n - 1) + if cells[n - 1] == Some(piece) {
            1int
        } else {
            0int
        }
    }
}

fn signum(v: i32) -> (r: i32)
    ensures
        r == sign(v as int),
{
    if v < 0 {
        -1
    } else if v > 0 {
        1
    } else {
        0
    }
}

fn abs_of(v: i32) -> (r: i32)
    requires
        -8 < v < 8,
    ensures
        r == magnitude(v as int),
{
    if v < 0 {
        -v
    } else {
        v
    }
}

/// Whether every square strictly between two squares of a common line is
/// empty.
fn path_is_clear(board: &Board, from: (i32, i32), to: (i32, i32)) -> (r: bool)
    requires
        on_board(from.0 as int, from.1 as int),
        on_board(to.0 as int, to.1 as int),
        diagonal(to.0 - from.0, to.1 - from.1) || straight(to.0 - from.0, to.1 - from.1),
    ensures
        r == path_clear(board@, from.0 as int, from.1 as int, to.0 as int, to.1 as int),
{
    let step_x = signum(to.0 - from.0);
    let step_y = signum(to.1 - from.1);
    let mut x = from.0 + step_x;
    let mut y = from.1 + step_y;
    let ghost dx = to.0 - from.0;
    let ghost dy = to.1 - from.1;
    let ghost n = reach(dx, dy);
    let ghost mut k: int = 1;
    while x != to.0 || y != to.1
        invariant
            on_board(from.0 as int, from.1 as int),
            on_board(to.0 as int, to.1 as int),
            diagonal(dx, dy) || straight(dx, dy),
            dx == to.0 - from.0,
            dy == to.1 - from.1,
            n == reach(dx, dy),
            step_x == sign(dx),
            step_y == sign(dy),
            1 <= k <= n,
            x == ray_coord(from.0 as int, step_x as int, k),
            y == ray_coord(from.1 as int, step_y as int, k),
            forall|j: int|
                1 <= j < k ==> (#[trigger] ray_cell(
                    board@,
                    from.0 as int,
                    from.1 as int,
                    step_x as int,
                    step_y as int,
                    j,
                )) is None,
        decreases n - k,
    {
        if get_piece_at(board, x, y).is_some() {
            assert(ray_cell(board@, from.0 as int, from.1 as int, step_x as int, step_y as int, k)
                is Some);
            return false;
        }
        assert(ray_cell(board@, from.0 as int, from.1 as int, step_x as int, step_y as int, k)
            is None);
        x = x + step_x;
        y = y + step_y;
        proof {
            k = k + 1;
        }
    }
    true
}

/// Whether `piece`, standing on `from`, attacks the square `to`. A sliding
/// piece attacks `to` only if every square in between is empty.
pub fn piece_attacks(board: &Board, from: (i32, i32), to: (i32, i32), piece: Piece) -> (r: bool)
    requires
        on_board(from.0 as int, from.1 as int),
        on_board(to.0 as int, to.1 as int),
    ensures
        r == attacks(
            board@,
            from.0 as int,
            from.1 as int,
            to.0 as int,
            to.1 as int,
            piece,
        ),
{
    let dx = to.0 - from.0;
    let dy = to.1 - from.1;
    let ax = abs_of(dx);
    let ay = abs_of(dy);
    match piece.kind {
        PieceType::Pawn => {
            match piece.color {
                Color::White => ax == 1 && dy == 1,
                Color::Black => ax == 1 && dy == -1,
            }
        },
        PieceType::Knight => (ax == 2 && ay == 1) || (ax == 1 && ay == 2),
        PieceType::King => ax <= 1 && ay <= 1 && (dx != 0 || dy != 0),
        PieceType::Bishop => {
            if ax == ay && dx != 0 {
                path_is_clear(board, from, to)
            } else {
                false
            }
        },
        PieceType::Rook => {
            if (dx == 0 && dy != 0) || (dy == 0 && dx != 0) {
                path_is_clear(board, from, to)
            } else {
                false
            }
        },
        PieceType::Queen => {
            if ax == ay && dx != 0 {
                path_is_clear(board, from, to)
            } else if (dx == 0 && dy != 0) || (dy == 0 && dx != 0) {
                path_is_clear(board, from, to)
            } else {
                false
            }
        },
    }
}

/// Whether some piece of side `by` attacks the square at file `x`, row `y`.
pub fn is_attacked_by(board: &Board, x: i32, y: i32, by: Color) -> (r: bool)
    requires
        on_board(x as int, y as int),
    ensures
        r == attacked_by(board@, x as int, y as int, by),
{
    let mut s: usize = 0;
    while s < 64
        invariant
            s <= 64,
            on_board(x as int, y as int),
            forall|j: int| 0 <= j < s ==> !#[trigger] attacker_at(board@, j, x as int, y as int, by),
        decreases 64 - s,
    {
        if let Some(p) = board[s] {
            if p.color == by {
                let from = ((s % 8) as i32, (s / 8) as i32);
                if piece_attacks(board, from, (x, y), p) {
                    assert(attacker_at(board@, s as int, x as int, y as int, by));
                    return true;
                }
            }
        }
        s = s + 1;
    }
    false
}

/// Finds the king of a side: its file and row, both counted from 0. Where
/// several stand on the board, the one on the lowest rank, and on that rank the
/// one nearest the a-file.
pub fn find_king(board: &Board, color: Color) -> (r: Option<(i32, i32)>)
    ensures
        match r {
            Some(pos) => on_board(pos.0 as int, pos.1 as int) && king_square(board@, color)
                == Some(pos.1 * 8 + pos.0),
            None => king_square(board@, color) is None,
        },
{
    let ghost needle = Some(king_of(color));
    let mut s: usize = 0;
    while s < 64
        invariant
            s <= 64,
            needle == Some(king_of(color)),
            forall|j: int| 0 <= j < s ==> board@[j] != needle,
        decreases 64 - s,
    {
        if let Some(piece) = board[s] {
            if piece.kind == PieceType::King && piece.color == color {
                proof {
                    assert(board@[s as int] == needle);
                    assert(board@.contains(needle));
                    board@.index_of_first_ensures(needle);
                }
                return Some(((s % 8) as i32, (s / 8) as i32));
            }
        }
        s = s + 1;
    }
    proof {
        assert(!board@.contains(needle));
        board@.index_of_first_ensures(needle);
    }
    None
}

/// Finds White's king, if there is one.
pub fn get_white_king(board: &Board) -> (r: Option<(i32, i32)>)
    ensures
        match r {
            Some(pos) => on_board(pos.0 as int, pos.1 as int) && king_square(board@, Color::White)
                == Some(pos.1 * 8 + pos.0),
            None => king_square(board@, Color::White) is None,
        },
{
    find_king(board, Color::White)
}

/// Whether White's king is attacked by a black piece.
pub fn white_king_in_check(board: &Board) -> (r: bool)
    ensures
        r == in_check(board@, Color::White),
{
    match get_white_king(board) {
        Some(pos) => is_attacked_by(board, pos.0, pos.1, Color::Black),
        None => false,
    }
}

/// Whether Black's king is attacked by a white piece.
pub fn black_king_in_check(board: &Board) -> (r: bool)
    ensures
        r == in_check(board@, Color::Black),
{
    match find_king(board, Color::Black) {
        Some(pos) => is_attacked_by(board, pos.0, pos.1, Color::White),
        None => false,
    }
}

/// The number of cells that hold `piece`.
pub fn count_pieces(board: &Board, piece: Piece) -> (n: usize)
    ensures
        n == count_of(board@, piece, 64),
{
    let mut n: usize = 0;
    let mut s: usize = 0;
    while s < 64
        invariant
            s <= 64,
            n <= s,
            n == count_of(board@, piece, s as int),
        decreases 64 - s,
    {
        if let Some(p) = board[s] {
            if p.kind == piece.kind && p.color == piece.color {
                n = n + 1;
            }
        }
        s = s + 1;
    }
    n
}

/// Whether any piece on the board is attacked by a piece of the other side.
pub fn is_piece_under_attack(board: &Board) -> (r: bool)
    ensures
        r == any_piece_attacked(board@),
{
    let mut t: usize = 0;
    while t < 64
        invariant
            t <= 64,
            forall|j: int| 0 <= j < t ==> !#[trigger] target_attacked(board@, j),
        decreases 64 - t,
    {
        if let Some(piece) = board[t] {
            if is_attacked_by(board, (t % 8) as i32, (t / 8) as i32, piece.color.opposite()) {
                assert(target_attacked(board@, t as int));
                return true;
            }
        }
        t = t + 1;
    }
    false
}

} // verus!
