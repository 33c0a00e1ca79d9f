//! Board notation: the compact text form of a board, and reading it back.
//!
//! A record lists the ranks from 8 down to 1, separated by `/`. Within a rank
//! the files go from a to h; a piece is written as its letter, a run of empty
//! squares as their number. The record ends with ` w - - 0 1`: White to move,
//! no castling right, no en-passant square, move counters at their start.

use vstd::prelude::*;
use vstd::string::StringExecFns;
use crate::board::{empty_cells, Board};
use crate::piece::Piece;
use vstd::string::StrSliceExecFns;

verus! {

/// The digit that stands for a run of `n` empty squares, `n` from 1 to 8.
pub open spec fn run_digit(n: int) -> char {
    if n <= 1 {
        '1'
    } else if n == 2 {
        '2'
    } else if n == 3 {
        '3'
    } else if n == 4 {
        '4'
    } else if n == 5 {
        '5'
    } else if n == 6 {
        '6'
    } else if n == 7 {
        '7'
    } else {
        '8'
    }
}

/// The text for a run of `n` empty squares: nothing for an empty run.
pub open spec fn run_text(n: int) -> Seq<char> {
    if n <= 0 {
        Seq::empty()
    } else {
        seq![run_digit(n)]
    }
}

/// The text for the squares `row`, which follow a run of `pending` empty
/// squares that is not yet written.
pub open spec fn row_text(row: Seq<Option<Piece>>, pending: int) -> Seq<char>
    decreases row.len(),
{
    if row.len() == 0 {
        run_text(pending)
    } else {
        match row[0] {
            Some(p) => run_text(pending) + seq![p.spec_symbol()] + row_text(row.skip(1), 0),
            None => row_text(row.skip(1), pending + 1),
        }
    }
}

/// The eight squares of row `r` (counted from 0), from the a-file on.
pub open spec fn row_of(cells: Seq<Option<Piece>>, r: int) -> Seq<Option<Piece>> {
    cells.subrange(r * 8, r * 8 + 8)
}

/// The text for the rows from `r` down to 0, separated by `/`.
pub open spec fn rows_text(cells: Seq<Option<Piece>>, r: int) -> Seq<char>
    decreases r,
{
    if r <= 0 {
        row_text(row_of(cells, 0), 0)
    } else {
        row_text(row_of(cells, r), 0) + seq!['/'] + rows_text(cells, r - 1)
    }
}

/// The end of every record: White to move, no castling right, no en-passant
/// square, and the move counters 0 and 1.
pub open spec fn record_suffix() -> Seq<char> {
    seq![' ', 'w', ' ', '-', ' ', '-', ' ', '0', ' ', '1']
}

/// The record of a board.
pub open spec fn fen_of(cells: Seq<Option<Piece>>) -> Seq<char> {
    rows_text(cells, 7) + record_suffix()
}

/// The one-letter text of a piece.
fn symbol_str(piece: Piece) -> (s: &'static str)
    ensures
        s@ == seq![piece.spec_symbol()],
{
    let c = piece.symbol();
    proof {
        reveal_strlit("P");
        reveal_strlit("N");
        reveal_strlit("B");
        reveal_strlit("R");
        reveal_strlit("Q");
        reveal_strlit("K");
        reveal_strlit("p");
        reveal_strlit("n");
        reveal_strlit("b");
        reveal_strlit("r");
        reveal_strlit("q");
        reveal_strlit("k");
    }
    let s = match c {
        'P' => "P",
        'N' => "N",
        'B' => "B",
        'R' => "R",
        'Q' => "Q",
        'K' => "K",
        'p' => "p",
        'n' => "n",
        'b' => "b",
        'r' => "r",
        'q' => "q",
        _ => "k",
    };
    assert(s@ =~= seq![piece.spec_symbol()]);
    s
}

/// The text of a run of `n` empty squares.
fn run_str(n: u8) -> (s: &'static str)
    requires
        n <= 8,
    ensures
        s@ == run_text(n as int),
{
    proof {
        reveal_strlit("");
        reveal_strlit("1");
        reveal_strlit("2");
        reveal_strlit("3");
        reveal_strlit("4");
        reveal_strlit("5");
        reveal_strlit("6");
        reveal_strlit("7");
        reveal_strlit("8");
    }
    let s = match n {
        0 => "",
        1 => "1",
        2 => "2",
        3 => "3",
        4 => "4",
        5 => "5",
        6 => "6",
        7 => "7",
        _ => "8",
    };
    assert(s@ =~= run_text(n as int));
    s
}

/// Writes the board as a record: the ranks from 8 down to 1 separated by `/`,
/// runs of empty squares as digits, then ` w - - 0 1`.
pub fn board_to_fen(board: &Board) -> (fen: String)
    ensures
        fen@ == fen_of(board@),
{
    let mut fen = String::new();
    let mut rank: usize = 8;
    while rank > 0
        invariant
            rank <= 8,
            rank > 0 ==> fen@ + rows_text(board@, rank - 1) == rows_text(board@, 7),
            rank == 0 ==> fen@ == rows_text(board@, 7),
        decreases rank,
    {
        let r = rank - 1;
        let ghost row = row_of(board@, r as int);
        let ghost start = fen@;
        let mut empty_count: u8 = 0;
        let mut file: usize = 0;
        assert(row.skip(0) =~= row);
        while file < 8
            invariant
                file <= 8,
                r < 8,
                empty_count <= file,
                row == row_of(board@, r as int),
                fen@ + row_text(row.skip(file as int), empty_count as int) == start + row_text(
                    row,
                    0,
                ),
            decreases 8 - file,
        {
            let ghost rest = row.skip(file as int);
            assert(rest.len() == 8 - file);
            assert(rest[0] == board@[r * 8 + file]);
            assert(rest.skip(1) =~= row.skip(file + 1));
            if let Some(piece) = board[r * 8 + file] {
                let ghost before = fen@;
                fen.append(run_str(empty_count));
                fen.append(symbol_str(piece));
                assert(fen@ + row_text(rest.skip(1), 0) =~= before + row_text(
                    rest,
                    empty_count as int,
                ));
                empty_count = 0;
            } else {
                empty_count = empty_count + 1;
            }
            file = file + 1;
        }
        assert(row.skip(8).len() == 0);
        fen.append(run_str(empty_count));
        assert(fen@ == start + row_text(row, 0));
        if r > 0 {
            proof {
                reveal_strlit("/");
            }
            fen.append("/");
            assert("/"@ =~= seq!['/']);
            assert(fen@ + rows_text(board@, r - 1) =~= start + rows_text(board@, r as int));
        }
        rank = r;
    }
    proof {
        reveal_strlit(" w - - 0 1");
        assert(" w - - 0 1"@ =~= record_suffix());
    }
    fen.append(" w - - 0 1");
    fen
}

/// The number of empty squares that a digit from 1 to 8 stands for; 0 for
/// any other character.
pub open spec fn spec_run_length(c: char) -> int {
    if c == '1' {
        1
    } else if c == '2' {
        2
    } else if c == '3' {
        3
    } else if c == '4' {
        4
    } else if c == '5' {
        5
    } else if c == '6' {
        6
    } else if c == '7' {
        7
    } else if c == '8' {
        8
    } else {
        0
    }
}

/// Reads the rest `s` of a placement text. The reader stands on row `r`
/// (counted from 0) before file `f`, and `cells` holds the pieces read so far.
///
/// A `/` ends a complete row that is not the last and goes to the start of
/// the row below. A digit skips that many squares and a piece letter fills
/// one square, neither beyond the end of the row. The text must end with the
/// last row complete. Anything else makes the text invalid.
pub open spec fn read_placement(
    s: Seq<char>,
    r: int,
    f: int,
    cells: Seq<Option<Piece>>,
) -> Option<Seq<Option<Piece>>>
    decreases s.len(),
{
    if s.len() == 0 {
        if r == 0 && f == 8 {
            Some(cells)
        } else {
            None
        }
    } else if s[0] == '/' {
        if f == 8 && r > 0 {
            read_placement(s.skip(1), r - 1, 0, cells)
        } else {
            None
        }
    } else if spec_run_length(s[0]) > 0 {
        if f + spec_run_length(s[0]) <= 8 {
            read_placement(s.skip(1), r, f + spec_run_length(s[0]), cells)
        } else {
            None
        }
    } else {
        match Piece::spec_from_symbol(s[0]) {
            Some(p) => if f < 8 {
                read_placement(s.skip(1), r, f + 1, cells.update(r * 8 + f, Some(p)))
            } else {
                None
            },
            None => None,
        }
    }
}

/// The board that a record describes: `None` unless the text is a valid
/// placement of eight rows of eight squares followed by ` w - - 0 1`.
pub open spec fn decode_fen(s: Seq<char>) -> Option<Seq<Option<Piece>>> {
    let n = s.len() - record_suffix().len();
    if n >= 0 && s.skip(n) == record_suffix() {
        read_placement(s.take(n), 7, 0, empty_cells())
    } else {
        None
    }
}

/// The cells that the reader holds when it has read a board down to row `r`,
/// file `f`: the rows above `r`, and row `r` before file `f`.
pub open spec fn read_so_far(cells: Seq<Option<Piece>>, r: int, f: int) -> Seq<Option<Piece>> {
    Seq::new(
        64,
        |i: int|
            if i >= r * 8 + 8 || (r * 8 <= i < r * 8 + f) {
                cells[i]
            } else {
                None
            },
    )
}

proof fn lemma_read_run(tail: Seq<char>, r: int, f: int, e: int, acc: Seq<Option<Piece>>)
    requires
        0 <= e <= f <= 8,
    ensures
        read_placement(run_text(e) + tail, r, f - e, acc) == read_placement(tail, r, f, acc),
{
    if e == 0 {
        assert(run_text(e) + tail =~= tail);
    } else {
        let text = run_text(e) + tail;
        assert(text[0] == run_digit(e));
        assert(text.skip(1) =~= tail);
        assert(spec_run_length(run_digit(e)) == e);
    }
}

proof fn lemma_read_row(
    cells: Seq<Option<Piece>>,
    r: int,
    f: int,
    e: int,
    tail: Seq<char>,
)
    requires
        cells.len() == 64,
        0 <= r < 8,
        0 <= e <= f <= 8,
    ensures
        read_placement(
            row_text(row_of(cells, r).skip(f), e) + tail,
            r,
            f - e,
            read_so_far(cells, r, f),
        ) == read_placement(tail, r, 8, read_so_far(cells, r, 8)),
    decreases 8 - f,
{
    let row = row_of(cells, r);
    let rest = row.skip(f);
    let acc = read_so_far(cells, r, f);
    if f == 8 {
        assert(rest.len() == 0);
        lemma_read_run(tail, r, f, e, acc);
    } else {
        assert(rest[0] == cells[r * 8 + f]);
        assert(rest.skip(1) =~= row.skip(f + 1));
        match cells[r * 8 + f] {
            None => {
                assert(read_so_far(cells, r, f + 1) =~= acc);
                lemma_read_row(cells, r, f + 1, e + 1, tail);
            },
            Some(p) => {
                let after = seq![p.spec_symbol()] + (row_text(row.skip(f + 1), 0) + tail);
                assert(row_text(rest, e) + tail =~= run_text(e) + after);
                lemma_read_run(after, r, f, e, acc);
                assert(after[0] == p.spec_symbol());
                assert(after.skip(1) =~= row_text(row.skip(f + 1), 0) + tail);
                assert(spec_run_length(p.spec_symbol()) == 0);
                assert(Piece::spec_from_symbol(p.spec_symbol()) == Some(p));
                assert(acc.update(r * 8 + f, Some(p)) =~= read_so_far(cells, r, f + 1));
                lemma_read_row(cells, r, f + 1, 0, tail);
            },
        }
    }
}

proof fn lemma_read_rows(cells: Seq<Option<Piece>>, r: int)
    requires
        cells.len() == 64,
        0 <= r < 8,
    ensures
        read_placement(rows_text(cells, r), r, 0, read_so_far(cells, r, 0)) == Some(cells),
    decreases r,
{
    let row = row_of(cells, r);
    assert(row.skip(0) =~= row);
    if r == 0 {
        let tail = Seq::<char>::empty();
        assert(rows_text(cells, r) =~= row_text(row.skip(0), 0) + tail);
        lemma_read_row(cells, r, 0, 0, tail);
        assert(read_so_far(cells, 0, 8) =~= cells);
    } else {
        let tail = seq!['/'] + rows_text(cells, r - 1);
        assert(rows_text(cells, r) =~= row_text(row.skip(0), 0) + tail);
        lemma_read_row(cells, r, 0, 0, tail);
        assert(tail[0] == '/');
        assert(tail.skip(1) =~= rows_text(cells, r - 1));
        assert(read_so_far(cells, r, 8) =~= read_so_far(cells, r - 1, 0));
        lemma_read_rows(cells, r - 1);
    }
}

/// Reading back the record of a board gives that board, piece for piece.
pub proof fn lemma_fen_round_trip(cells: Seq<Option<Piece>>)
    requires
        cells.len() == 64,
    ensures
        decode_fen(fen_of(cells)) == Some(cells),
{
    let text = fen_of(cells);
    let n = text.len() - record_suffix().len();
    assert(text.skip(n) =~= record_suffix());
    assert(text.take(n) =~= rows_text(cells, 7));
    assert(read_so_far(cells, 7, 0) =~= empty_cells());
    lemma_read_rows(cells, 7);
}

/// Two boards with the same record are the same board.
pub proof fn lemma_fen_injective(a: Seq<Option<Piece>>, b: Seq<Option<Piece>>)
    requires
        a.len() == 64,
        b.len() == 64,
        fen_of(a) == fen_of(b),
    ensures
        a == b,
{
    lemma_fen_round_trip(a);
    lemma_fen_round_trip(b);
}

/// The number of empty squares that a digit from 1 to 8 stands for; 0 for
/// any other character.
fn run_length(c: char) -> (n: usize)
    ensures
        n == spec_run_length(c),
{
    match c {
        '1' => 1,
        '2' => 2,
        '3' => 3,
        '4' => 4,
        '5' => 5,
        '6' => 6,
        '7' => 7,
        '8' => 8,
        _ => 0,
    }
}

/// Reads a record back into a board. Returns `None` unless the text is a
/// valid placement of eight rows of eight squares followed by ` w - - 0 1`.
pub fn board_from_fen(s: &str) -> (r: Option<Board>)
    ensures
        match r {
            Some(board) => decode_fen(s@) == Some(board@),
            None => decode_fen(s@) is None,
        },
{
    let suffix = " w - - 0 1";
    proof {
        reveal_strlit(" w - - 0 1");
        assert(suffix@ =~= record_suffix());
    }
    let len = s.unicode_len();
    if len < 10 {
        return None;
    }
    let n = len - 10;
    let ghost placement = s@.take(n as int);
    let mut board: Board = [None; 64];
    assert(board@ =~= empty_cells());
    assert(placement.skip(0) =~= placement);
    let mut rank: usize = 7;
    let mut file: usize = 0;
    let mut i: usize = 0;
    for c in it: s.chars()
        invariant
            it.seq() == s@,
            i == it.index(),
            len == s@.len(),
            n == len - 10,
            placement == s@.take(n as int),
            suffix@ == record_suffix(),
            rank < 8,
            file <= 8,
            i <= n ==> read_placement(placement, 7, 0, empty_cells()) == read_placement(
                placement.skip(i as int),
                rank as int,
                file as int,
                board@,
            ),
            i > n ==> read_placement(placement, 7, 0, empty_cells()) == Some(board@),
            forall|j: int| n <= j < i ==> s@[j] == record_suffix()[j - n],
    {
        assert(c == s@[i as int]);
        if i < n {
            let ghost rest = placement.skip(i as int);
            assert(rest[0] == c);
            assert(rest.skip(1) =~= placement.skip(i + 1));
            let run = run_length(c);
            if c == '/' {
                if file == 8 && rank > 0 {
                    rank = rank - 1;
                    file = 0;
                } else {
                    return None;
                }
            } else if run > 0 {
                if file + run <= 8 {
                    file = file + run;
                } else {
                    return None;
                }
            } else {
                match Piece::from_symbol(c) {
                    Some(piece) => {
                        if file < 8 {
                            board[rank * 8 + file] = Some(piece);
                            file = file + 1;
                        } else {
                            return None;
                        }
                    },
                    None => {
                        return None;
                    },
                }
            }
        } else {
            if i == n {
                assert(placement.skip(i as int).len() == 0);
                if !(rank == 0 && file == 8) {
                    return None;
                }
            }
            if c != suffix.get_char(i - n) {
                assert(s@.skip(n as int)[i - n] != record_suffix()[i - n]);
                return None;
            }
        }
        i = i + 1;
    }
    assert(s@.skip(n as int) =~= record_suffix());
    Some(board)
}

} // verus!
