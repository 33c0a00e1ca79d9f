//! Pawn structure: passed pawns and White's pawn islands.
//!
//! Coordinates are a file `x` and a row `y`, both counted from 0.

use vstd::prelude::*;
use crate::board::{get_piece_at, on_board, piece_at, Board};
use crate::piece::{Color, Piece, PieceType};

verus! {

/// The pawn of a side.
pub open spec fn pawn_of(color: Color) -> Piece {
    Piece { kind: PieceType::Pawn, color }
}

/// Whether `(nx, ny)` lies ahead of a pawn of side `color` on `(x, y)`: on its
/// own file or a neighbouring one, on a rank that it has yet to reach.
pub open spec fn ahead_of(x: int, y: int, color: Color, nx: int, ny: int) -> bool {
    &&& on_board(nx, ny)
    &&& x - 1 <= nx <= x + 1
    &&& if color == Color::White {
        ny > y
    } else {
        ny < y
    }
}

/// Whether a pawn of the other side stands on `(nx, ny)`, ahead of a pawn of
/// side `color` on `(x, y)`.
pub open spec fn opposed_from(
    cells: Seq<Option<Piece>>,
    x: int,
    y: int,
    color: Color,
    nx: int,
    ny: int,
) -> bool {
    ahead_of(x, y, color, nx, ny) && piece_at(cells, nx, ny) == Some(
        pawn_of(color.spec_opposite()),
    )
}

/// Whether a pawn of side `color` on `(x, y)` is passed: no pawn of the other
/// side stands ahead of it on its own file or a neighbouring one.
pub open spec fn passed(cells: Seq<Option<Piece>>, x: int, y: int, color: Color) -> bool {
    forall|nx: int, ny: int| !#[trigger] opposed_from(cells, x, y, color, nx, ny)
}

/// Whether cell `s` holds a passed pawn.
pub open spec fn passed_pawn_at(cells: Seq<Option<Piece>>, s: int) -> bool {
    match cells[s] {
        Some(p) => p.kind == PieceType::Pawn && passed(cells, s % 8, s / 8, p.color),
        None => false,
    }
}

/// Whether a pawn of either side is passed.
pub open spec fn any_passed_pawn(cells: Seq<Option<Piece>>) -> bool {
    exists|s: int| 0 <= s < 64 && #[trigger] passed_pawn_at(cells, s)
}

/// Whether a white pawn stands on file `f`, row `r`.
pub open spec fn white_pawn_at(cells: Seq<Option<Piece>>, f: int, r: int) -> bool {
    piece_at(cells, f, r) == Some(pawn_of(Color::White))
}

/// Whether a white pawn stands somewhere on file `f`.
pub open spec fn white_pawn_on_file(cells: Seq<Option<Piece>>, f: int) -> bool {
    exists|r: int| 0 <= r < 8 && #[trigger] white_pawn_at(cells, f, r)
}

/// Whether an island of white pawns begins on file `f`: the file holds a
/// white pawn and the file to its left, if there is one, holds none.
pub open spec fn island_start(cells: Seq<Option<Piece>>, f: int) -> bool {
    white_pawn_on_file(cells, f) && (f == 0 || !white_pawn_on_file(cells, f - 1))
}

/// The number of islands of white pawns that begin on the files before `n`.
pub open spec fn islands_before(cells: Seq<Option<Piece>>, n: int) -> int
    decreases n,
{
    if n <= 0 {
        0
    } else {
        islands_before(cells, n - 1) + if island_start(cells, n - 1) {
            1int
        } else {
            0int
        }
    }
}

/// The number of islands of white pawns: maximal runs of neighbouring files
/// that each hold a white pawn.
pub open spec fn white_pawn_islands(cells: Seq<Option<Piece>>) -> int {
    islands_before(cells, 8)
}

/// Whether a pawn of side `piece.color` at file `x`, row `y` is passed.
pub fn is_passed_pawn(board: &Board, x: i32, y: i32, piece: Piece) -> (r: bool)
    requires
        on_board(x as int, y as int),
    ensures
        r == passed(board@, x as int, y as int, piece.color),
{
    let lo_x = if x - 1 > 0 {
        x - 1
    } else {
        0
    };
    let hi_x = if x + 1 < 7 {
        x + 1
    } else {
        7
    };
    let white = piece.color == Color::White;
    let first_row = if white {
        y + 1
    } else {
        0
    };
    let end_row = if white {
        8
    } else {
        y
    };
    let enemy = piece.color.opposite();
    let mut ny = first_row;
    while ny < end_row
        invariant
            on_board(x as int, y as int),
            lo_x == (if x - 1 > 0 { x - 1 } else { 0 }),
            hi_x == (if x + 1 < 7 { x + 1 } else { 7 }),
            white == (piece.color == Color::White),
            first_row == (if white { y + 1 } else { 0 }),
            end_row == (if white { 8 } else { y as int }),
            enemy == piece.color.spec_opposite(),
            first_row <= ny,
            forall|px: int, py: int|
                py < ny ==> !#[trigger] opposed_from(board@, x as int, y as int, piece.color, px, py),
        decreases end_row - ny,
    {
        let mut nx = lo_x;
        while nx <= hi_x
            invariant
                on_board(x as int, y as int),
                lo_x == (if x - 1 > 0 { x - 1 } else { 0 }),
                hi_x == (if x + 1 < 7 { x + 1 } else { 7 }),
                white == (piece.color == Color::White),
                first_row == (if white { y + 1 } else { 0 }),
                end_row == (if white { 8 } else { y as int }),
                enemy == piece.color.spec_opposite(),
                first_row <= ny < end_row,
                lo_x <= nx <= hi_x + 1,
                forall|px: int, py: int|
                    py < ny ==> !#[trigger] opposed_from(
                        board@,
                        x as int,
                        y as int,
                        piece.color,
                        px,
                        py,
                    ),
                forall|px: int|
                    px < nx ==> !#[trigger] opposed_from(
                        board@,
                        x as int,
                        y as int,
                        piece.color,
                        px,
                        ny as int,
                    ),
            decreases hi_x + 1 - nx,
        {
            if let Some(p) = get_piece_at(board, nx, ny) {
                if p.kind == PieceType::Pawn && p.color == enemy {
                    assert(opposed_from(
                        board@,
                        x as int,
                        y as int,
                        piece.color,
                        nx as int,
                        ny as int,
                    ));
                    return false;
                }
            }
            nx = nx + 1;
        }
        ny = ny + 1;
    }
    true
}

/// Whether at least one pawn, of either side, is passed.
pub fn has_passed_pawn(board: &Board) -> (r: bool)
    ensures
        r == any_passed_pawn(board@),
{
    let mut s: usize = 0;
    while s < 64
        invariant
            s <= 64,
            forall|j: int| 0 <= j < s ==> !#[trigger] passed_pawn_at(board@, j),
        decreases 64 - s,
    {
        if let Some(piece) = board[s] {
            if piece.kind == PieceType::Pawn {
                if is_passed_pawn(board, (s % 8) as i32, (s / 8) as i32, piece) {
                    assert(passed_pawn_at(board@, s as int));
                    return true;
                }
            }
        }
        s = s + 1;
    }
    false
}

/// Whether a white pawn stands somewhere on file `file`.
fn file_has_white_pawn(board: &Board, file: usize) -> (r: bool)
    requires
        file < 8,
    ensures
        r == white_pawn_on_file(board@, file as int),
{
    let mut rank: usize = 0;
    while rank < 8
        invariant
            rank <= 8,
            file < 8,
            forall|j: int| 0 <= j < rank ==> !#[trigger] white_pawn_at(board@, file as int, j),
        decreases 8 - rank,
    {
        if let Some(p) = board[rank * 8 + file] {
            if p.kind == PieceType::Pawn && p.color == Color::White {
                assert(white_pawn_at(board@, file as int, rank as int));
                return true;
            }
        }
        rank = rank + 1;
    }
    false
}

/// The number of islands of white pawns: maximal runs of neighbouring files
/// that each hold at least one white pawn.
pub fn count_white_pawn_islands(board: &Board) -> (islands: u32)
    ensures
        islands == white_pawn_islands(board@),
{
    let mut islands: u32 = 0;
    let mut in_island = false;
    let mut file: usize = 0;
    while file < 8
        invariant
            file <= 8,
            islands <= file,
            islands == islands_before(board@, file as int),
            in_island == (file > 0 && white_pawn_on_file(board@, file - 1)),
        decreases 8 - file,
    {
        if file_has_white_pawn(board, file) {
            if !in_island {
                islands = islands + 1;
                in_island = true;
            }
        } else {
            in_island = false;
        }
        file = file + 1;
    }
    islands
}

} // verus!
