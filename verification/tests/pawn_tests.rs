use critical_boards::board::Board;
use critical_boards::pawns::{count_white_pawn_islands, has_passed_pawn, is_passed_pawn};
use critical_boards::piece::Piece;

fn pawn_piece(symbol: char) -> Piece {
    match Piece::from_symbol(symbol) {
        Some(p) => p,
        None => panic!("not a piece symbol"),
    }
}

fn pawn_board(pieces: &[(i32, i32, char)]) -> Board {
    let mut board: Board = [None; 64];
    for (x, y, symbol) in pieces {
        board[(*y as usize) * 8 + (*x as usize)] = Some(pawn_piece(*symbol));
    }
    board
}

#[test]
fn lone_pawn_is_passed() {
    let board = pawn_board(&[(3, 1, 'P')]);
    assert!(is_passed_pawn(&board, 3, 1, pawn_piece('P')));
    assert!(has_passed_pawn(&board));
    let board = pawn_board(&[(3, 6, 'p')]);
    assert!(is_passed_pawn(&board, 3, 6, pawn_piece('p')));
    assert!(has_passed_pawn(&board));
}

#[test]
fn pawn_facing_a_pawn_is_not_passed() {
    let board = pawn_board(&[(3, 1, 'P'), (3, 6, 'p')]);
    assert!(!is_passed_pawn(&board, 3, 1, pawn_piece('P')));
    assert!(!is_passed_pawn(&board, 3, 6, pawn_piece('p')));
    assert!(!has_passed_pawn(&board));
}

#[test]
fn pawn_on_neighbouring_file_guards() {
    let board = pawn_board(&[(3, 1, 'P'), (4, 6, 'p')]);
    assert!(!is_passed_pawn(&board, 3, 1, pawn_piece('P')));
    assert!(!is_passed_pawn(&board, 4, 6, pawn_piece('p')));
    let board = pawn_board(&[(3, 1, 'P'), (5, 6, 'p')]);
    assert!(is_passed_pawn(&board, 3, 1, pawn_piece('P')));
    assert!(is_passed_pawn(&board, 5, 6, pawn_piece('p')));
    assert!(has_passed_pawn(&board));
}

#[test]
fn pawn_behind_or_beside_does_not_guard() {
    let board = pawn_board(&[(3, 4, 'P'), (3, 2, 'p')]);
    assert!(is_passed_pawn(&board, 3, 4, pawn_piece('P')));
    assert!(is_passed_pawn(&board, 3, 2, pawn_piece('p')));
    let board = pawn_board(&[(3, 4, 'P'), (4, 4, 'p')]);
    assert!(is_passed_pawn(&board, 3, 4, pawn_piece('P')));
    assert!(is_passed_pawn(&board, 4, 4, pawn_piece('p')));
}

#[test]
fn own_pawns_and_other_pieces_do_not_guard() {
    let board = pawn_board(&[(3, 1, 'P'), (3, 3, 'P'), (4, 5, 'r'), (2, 6, 'k')]);
    assert!(is_passed_pawn(&board, 3, 1, pawn_piece('P')));
    assert!(is_passed_pawn(&board, 3, 3, pawn_piece('P')));
    assert!(has_passed_pawn(&board));
}

#[test]
fn edge_files_look_at_two_files() {
    let board = pawn_board(&[(0, 1, 'P'), (1, 6, 'p')]);
    assert!(!is_passed_pawn(&board, 0, 1, pawn_piece('P')));
    let board = pawn_board(&[(7, 1, 'P'), (6, 6, 'p')]);
    assert!(!is_passed_pawn(&board, 7, 1, pawn_piece('P')));
    let board = pawn_board(&[(7, 1, 'P'), (0, 6, 'p')]);
    assert!(is_passed_pawn(&board, 7, 1, pawn_piece('P')));
}

#[test]
fn board_without_pawns_has_no_passed_pawn() {
    let board = pawn_board(&[(4, 0, 'K'), (4, 7, 'k'), (0, 0, 'R')]);
    assert!(!has_passed_pawn(&board));
    assert_eq!(count_white_pawn_islands(&board), 0);
}

#[test]
fn one_passed_pawn_is_enough() {
    let board = pawn_board(&[(0, 1, 'P'), (0, 6, 'p'), (5, 2, 'P')]);
    assert!(!is_passed_pawn(&board, 0, 1, pawn_piece('P')));
    assert!(is_passed_pawn(&board, 5, 2, pawn_piece('P')));
    assert!(has_passed_pawn(&board));
}

#[test]
fn pawns_on_files_a_b_e_make_two_islands() {
    let board = pawn_board(&[(0, 1, 'P'), (1, 2, 'P'), (4, 1, 'P')]);
    assert_eq!(count_white_pawn_islands(&board), 2);
}

#[test]
fn island_counts() {
    let empty: Board = [None; 64];
    assert_eq!(count_white_pawn_islands(&empty), 0);
    let board = pawn_board(&[(0, 1, 'P')]);
    assert_eq!(count_white_pawn_islands(&board), 1);
    let board = pawn_board(&[(2, 1, 'P'), (3, 3, 'P'), (4, 2, 'P')]);
    assert_eq!(count_white_pawn_islands(&board), 1);
    let board = pawn_board(&[(0, 1, 'P'), (2, 1, 'P'), (4, 1, 'P'), (6, 1, 'P')]);
    assert_eq!(count_white_pawn_islands(&board), 4);
    let board = pawn_board(&[(7, 1, 'P'), (0, 1, 'P')]);
    assert_eq!(count_white_pawn_islands(&board), 2);
    let all_files: Vec<(i32, i32, char)> = (0..8).map(|x| (x, 1, 'P')).collect();
    assert_eq!(count_white_pawn_islands(&pawn_board(&all_files)), 1);
}

#[test]
fn islands_count_white_pawns_only() {
    let board = pawn_board(&[(0, 1, 'P'), (1, 6, 'p'), (2, 1, 'P'), (1, 1, 'N')]);
    assert_eq!(count_white_pawn_islands(&board), 2);
    let board = pawn_board(&[(1, 6, 'p'), (4, 6, 'p')]);
    assert_eq!(count_white_pawn_islands(&board), 0);
}

#[test]
fn two_pawns_on_one_file_are_one_island() {
    let board = pawn_board(&[(3, 1, 'P'), (3, 2, 'P')]);
    assert_eq!(count_white_pawn_islands(&board), 1);
}
