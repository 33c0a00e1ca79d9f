//! The 64-cell board, its coordinates, and boards built from mirrored pairs.
//!
//! A cell is addressed either by its index `0..64` or by a file `x` and a row
//! `y`, both counted from 0, with `index = y * 8 + x`. A placement names its
//! squares by file (from 0) and rank (from 1), as chess notation does.

use vstd::prelude::*;
use crate::piece::Piece;

verus! {

/// A board: 64 cells, each empty or holding a piece. Cell `y * 8 + x` is file
/// `x` (0 is the a-file) of rank `y + 1`.
pub type Board = [Option<Piece>; 64];

/// One mirrored pair: a white piece on one square and a black piece on another.
/// Files count from 0, ranks from 1.
#[derive(Clone, Copy, Debug, PartialEq, Eq, Structural)]
pub struct Placement {
    pub white_x: u8,
    pub white_y: u8,
    pub white: Piece,
    pub black_x: u8,
    pub black_y: u8,
    pub black: Piece,
}

/// Whether file `x` and row `y`, both counted from 0, name a cell of the board.
pub open spec fn on_board(x: int, y: int) -> bool {
    0 <= x < 8 && 0 <= y < 8
}

/// What the cell at file `x`, row `y` holds; nothing outside the board.
pub open spec fn piece_at(cells: Seq<Option<Piece>>, x: int, y: int) -> Option<Piece> {
    if on_board(x, y) {
        cells[y * 8 + x]
    } else {
        None
    }
}

/// The index of the cell at file `x` (from 0) of rank `y` (from 1).
pub open spec fn square_index(x: int, y: int) -> int {
    (y - 1) * 8 + x
}

/// The board with no piece on it.
pub open spec fn empty_cells() -> Seq<Option<Piece>> {
    Seq::new(64, |i: int| None)
}

impl Placement {
    /// Both squares lie on the board.
    pub open spec fn on_board(self) -> bool {
        &&& self.white_x < 8
        &&& 1 <= self.white_y <= 8
        &&& self.black_x < 8
        &&& 1 <= self.black_y <= 8
    }

    /// Index of the white piece's cell.
    pub open spec fn white_square(self) -> int {
        square_index(self.white_x as int, self.white_y as int)
    }

    /// Index of the black piece's cell.
    pub open spec fn black_square(self) -> int {
        square_index(self.black_x as int, self.black_y as int)
    }

    /// Whether the pair stands on the cell with index `i`.
    pub open spec fn covers(self, i: int) -> bool {
        self.white_square() == i || self.black_square() == i
    }

    /// The cells after the pair is put down: the white piece first, then the
    /// black one.
    pub open spec fn put_on(self, cells: Seq<Option<Piece>>) -> Seq<Option<Piece>> {
        cells.update(self.white_square(), Some(self.white)).update(
            self.black_square(),
            Some(self.black),
        )
    }
}

/// The board that results from putting the pairs down in order on an empty
/// board.
pub open spec fn board_of(placements: Seq<Placement>) -> Seq<Option<Piece>>
    decreases placements.len(),
{
    if placements.len() == 0 {
        empty_cells()
    } else {
        placements.last().put_on(board_of(placements.drop_last()))
    }
}

/// Distinct squares have distinct indices, and every index below 64 belongs
/// to a square.
pub proof fn lemma_square_index_bijective(x1: int, y1: int, x2: int, y2: int, i: int)
    requires
        0 <= x1 < 8,
        1 <= y1 <= 8,
        0 <= x2 < 8,
        1 <= y2 <= 8,
        0 <= i < 64,
    ensures
        0 <= square_index(x1, y1) < 64,
        square_index(x1, y1) == square_index(x2, y2) ==> x1 == x2 && y1 == y2,
        square_index(i % 8, i / 8 + 1) == i,
        0 <= i % 8 < 8,
        1 <= i / 8 + 1 <= 8,
{
}

/// A board built from pairs that lie on the board has 64 cells.
pub proof fn lemma_board_of_len(placements: Seq<Placement>)
    requires
        forall|i: int| 0 <= i < placements.len() ==> (#[trigger] placements[i]).on_board(),
    ensures
        board_of(placements).len() == 64,
    decreases placements.len(),
{
    if placements.len() > 0 {
        lemma_board_of_len(placements.drop_last());
    }
}

/// Index of the cell at file `x` (from 0) of rank `y` (from 1).
pub fn pos_to_index(x: u8, y: u8) -> (i: usize)
    requires
        x < 8,
        1 <= y <= 8,
    ensures
        i == square_index(x as int, y as int),
        i < 64,
{
    ((y - 1) as usize) * 8 + (x as usize)
}

/// The piece at file `x`, row `y` (both from 0), or `None` where the cell is
/// empty or the coordinates lie outside the board.
pub fn get_piece_at(board: &Board, x: i32, y: i32) -> (r: Option<Piece>)
    ensures
        r == piece_at(board@, x as int, y as int),
{
    if x < 0 || x >= 8 || y < 0 || y >= 8 {
        return None;
    }
    board[(y as usize) * 8 + (x as usize)]
}

/// Whether the cell at file `x`, row `y` lies on the board and is empty.
pub fn is_empty(board: &Board, x: i32, y: i32) -> (r: bool)
    ensures
        r == (on_board(x as int, y as int) && piece_at(board@, x as int, y as int) is None),
{
    if x < 0 || x >= 8 || y < 0 || y >= 8 {
        false
    } else {
        get_piece_at(board, x, y).is_none()
    }
}

/// Whether a piece of the other side than `piece` stands at file `x`, row `y`.
pub open spec fn enemy_at(cells: Seq<Option<Piece>>, x: int, y: int, piece: Piece) -> bool {
    match piece_at(cells, x, y) {
        Some(p) => p.color != piece.color,
        None => false,
    }
}

/// Whether the cell at file `x`, row `y` holds a piece of the other side than
/// `piece`.
pub fn is_enemy(board: &Board, x: i32, y: i32, piece: Piece) -> (r: bool)
    ensures
        r == enemy_at(board@, x as int, y as int, piece),
{
    match get_piece_at(board, x, y) {
        Some(p) => p.color != piece.color,
        None => false,
    }
}

/// Puts the pairs down in order on an empty board. Where two pieces are given
/// the same square the later one stays.
pub fn build_board(placements: &Vec<Placement>) -> (board: Board)
    requires
        forall|i: int| 0 <= i < placements.len() ==> (#[trigger] placements[i]).on_board(),
    ensures
        board@ == board_of(placements@),
{
    let mut board: Board = [None; 64];
    assert(board@ =~= empty_cells());
    let n = placements.len();
    let mut i: usize = 0;
    while i < n
        invariant
            i <= n,
            n == placements.len(),
            forall|j: int| 0 <= j < placements.len() ==> (#[trigger] placements[j]).on_board(),
            board@ == board_of(placements@.take(i as int)),
        decreases n - i,
    {
        let placement = placements[i];
        let w_index = pos_to_index(placement.white_x, placement.white_y);
        let b_index = pos_to_index(placement.black_x, placement.black_y);
        board[w_index] = Some(placement.white);
        board[b_index] = Some(placement.black);
        proof {
            let next = placements@.take(i + 1);
            assert(next.drop_last() =~= placements@.take(i as int));
            assert(next.last() == placement);
        }
        i = i + 1;
    }
    assert(placements@.take(n as int) =~= placements@);
    board
}

} // verus!
