use critical_boards::board::Board;
use critical_boards::fen::{board_from_fen, board_to_fen};
use critical_boards::piece::Piece;

fn fen_board(pieces: &[(usize, usize, char)]) -> Board {
    let mut board: Board = [None; 64];
    for (x, y, symbol) in pieces {
        board[*y * 8 + *x] = Piece::from_symbol(*symbol);
    }
    board
}

fn starting_position() -> Board {
    let mut board: Board = [None; 64];
    let back = ['R', 'N', 'B', 'Q', 'K', 'B', 'N', 'R'];
    for x in 0..8 {
        board[x] = Piece::from_symbol(back[x]);
        board[8 + x] = Piece::from_symbol('P');
        board[48 + x] = Piece::from_symbol('p');
        board[56 + x] = Piece::from_symbol(back[x].to_ascii_lowercase());
    }
    board
}

#[test]
fn empty_board_record() {
    let board: Board = [None; 64];
    assert_eq!(board_to_fen(&board), "8/8/8/8/8/8/8/8 w - - 0 1");
}

#[test]
fn starting_position_record() {
    assert_eq!(
        board_to_fen(&starting_position()),
        "rnbqkbnr/pppppppp/8/8/8/8/PPPPPPPP/RNBQKBNR w - - 0 1"
    );
}

#[test]
fn kings_in_the_corners_record() {
    let board = fen_board(&[(0, 0, 'K'), (0, 7, 'k')]);
    assert_eq!(board_to_fen(&board), "k7/8/8/8/8/8/8/K7 w - - 0 1");
    let board = fen_board(&[(7, 0, 'K'), (7, 7, 'k')]);
    assert_eq!(board_to_fen(&board), "7k/8/8/8/8/8/8/7K w - - 0 1");
}

#[test]
fn runs_between_pieces_record() {
    let board = fen_board(&[
        (1, 3, 'P'),
        (7, 3, 'p'),
        (0, 4, 'r'),
        (1, 4, 'n'),
        (4, 4, 'Q'),
        (3, 1, 'B'),
        (5, 1, 'b'),
    ]);
    assert_eq!(board_to_fen(&board), "8/8/8/rn2Q3/1P5p/8/3B1b2/8 w - - 0 1");
}

#[test]
fn reading_a_record() {
    let board = match board_from_fen("8/8/8/rn2Q3/1P5p/8/3B1b2/8 w - - 0 1") {
        Some(b) => b,
        None => panic!("the record is valid"),
    };
    let expected = fen_board(&[
        (1, 3, 'P'),
        (7, 3, 'p'),
        (0, 4, 'r'),
        (1, 4, 'n'),
        (4, 4, 'Q'),
        (3, 1, 'B'),
        (5, 1, 'b'),
    ]);
    assert_eq!(board, expected);
}

#[test]
fn records_read_back_as_the_same_board() {
    let boards = vec![
        [None; 64],
        starting_position(),
        fen_board(&[(0, 0, 'K'), (0, 7, 'k')]),
        fen_board(&[(7, 0, 'K'), (7, 7, 'k'), (3, 3, 'P'), (4, 3, 'p'), (5, 3, 'N')]),
        fen_board(&[(0, 0, 'q'), (2, 0, 'q'), (4, 0, 'q'), (6, 0, 'q'), (7, 0, 'Q')]),
    ];
    for board in boards {
        let text = board_to_fen(&board);
        assert_eq!(board_from_fen(&text), Some(board));
    }
}

#[test]
fn split_runs_are_read_as_one() {
    let read = board_from_fen("44/8/8/8/8/8/8/K322 w - - 0 1");
    assert_eq!(read, Some(fen_board(&[(0, 0, 'K')])));
    let board = match read {
        Some(b) => b,
        None => panic!("the record is valid"),
    };
    assert_eq!(board_to_fen(&board), "8/8/8/8/8/8/8/K7 w - - 0 1");
}

#[test]
fn records_without_the_suffix_are_refused() {
    assert_eq!(board_from_fen(""), None);
    assert_eq!(board_from_fen(" w - - 0 1"), None);
    assert_eq!(board_from_fen("8/8/8/8/8/8/8/8"), None);
    assert_eq!(board_from_fen("8/8/8/8/8/8/8/8 w - - 0"), None);
    assert_eq!(board_from_fen("8/8/8/8/8/8/8/8 b - - 0 1"), None);
    assert_eq!(board_from_fen("8/8/8/8/8/8/8/8 w KQkq - 0 1"), None);
    assert_eq!(board_from_fen("8/8/8/8/8/8/8/8 w - - 0 1 "), None);
    assert_eq!(board_from_fen("8/8/8/8/8/8/8/8  w - - 0 1"), None);
}

#[test]
fn wrong_number_of_rows_is_refused() {
    assert_eq!(board_from_fen("8/8/8/8/8/8/8 w - - 0 1"), None);
    assert_eq!(board_from_fen("8/8/8/8/8/8/8/8/8 w - - 0 1"), None);
    assert_eq!(board_from_fen("8/8/8/8/8/8/8/8/ w - - 0 1"), None);
    assert_eq!(board_from_fen("/8/8/8/8/8/8/8/8 w - - 0 1"), None);
    assert_eq!(board_from_fen("8//8/8/8/8/8/8 w - - 0 1"), None);
}

#[test]
fn rows_of_wrong_length_are_refused() {
    assert_eq!(board_from_fen("7/8/8/8/8/8/8/8 w - - 0 1"), None);
    assert_eq!(board_from_fen("8/8/8/8/8/8/8/7 w - - 0 1"), None);
    assert_eq!(board_from_fen("8/8/8/8/8/8/8/8P w - - 0 1"), None);
    assert_eq!(board_from_fen("8/8/8/8/8/8/8/P8 w - - 0 1"), None);
    assert_eq!(board_from_fen("8/8/8/8/8/8/8/54 w - - 0 1"), None);
    assert_eq!(board_from_fen("8/8/8/8/8/8/8/PPPPPPPPP w - - 0 1"), None);
}

#[test]
fn unknown_characters_are_refused() {
    assert_eq!(board_from_fen("8/8/8/8/8/8/8/7x w - - 0 1"), None);
    assert_eq!(board_from_fen("8/8/8/8/8/8/8/9 w - - 0 1"), None);
    assert_eq!(board_from_fen("8/8/8/8/8/8/8/08 w - - 0 1"), None);
    assert_eq!(board_from_fen("8/8/8/8/8/8/8/7\u{265A} w - - 0 1"), None);
    assert_eq!(board_from_fen("8/8/8/8/8/8/8/7 1 w - - 0 1"), None);
}
