use critical_boards::attack::{count_pieces, is_piece_under_attack};
use critical_boards::board::{Board, Placement};
use critical_boards::catalog::generate_placements;
use critical_boards::fen::{board_from_fen, board_to_fen};
use critical_boards::moves::can_deliver_check;
use critical_boards::pawns::{count_white_pawn_islands, has_passed_pawn};
use critical_boards::piece::{Color, Piece, PieceType};
use critical_boards::search::{passes_filters, process_combination, search};

fn man(symbol: char) -> Piece {
    match Piece::from_symbol(symbol) {
        Some(p) => p,
        None => panic!("not a piece symbol"),
    }
}

fn setup(pieces: &[(usize, usize, char)]) -> Board {
    let mut board: Board = [None; 64];
    for (x, y, symbol) in pieces {
        board[*y * 8 + *x] = Some(man(*symbol));
    }
    board
}

fn mirrored_pair(kind: PieceType, file: u8, white_rank: u8, black_rank: u8) -> Placement {
    Placement {
        white_x: file,
        white_y: white_rank,
        white: Piece { kind, color: Color::White },
        black_x: file,
        black_y: black_rank,
        black: Piece { kind, color: Color::Black },
    }
}

fn read(record: &str) -> Board {
    match board_from_fen(record) {
        Some(b) => b,
        None => panic!("an emitted record must read back"),
    }
}

fn black_king() -> Piece {
    Piece { kind: PieceType::King, color: Color::Black }
}

#[test]
fn lone_kings_pass_every_filter() {
    let board = setup(&[(4, 0, 'K'), (4, 7, 'k')]);
    assert!(passes_filters(&board));
    let records = process_combination(&[PieceType::King]);
    assert!(records.contains(&board_to_fen(&board)));
    assert!(records.contains(&String::from("4k3/8/8/8/8/8/8/4K3 w - - 0 1")));
}

#[test]
fn rook_facing_the_black_king_is_rejected() {
    let board = setup(&[(4, 0, 'R'), (4, 7, 'k'), (0, 0, 'K')]);
    assert!(is_piece_under_attack(&board));
    assert!(!has_passed_pawn(&board));
    assert!(count_white_pawn_islands(&board) <= 1);
    assert!(!passes_filters(&board));
}

#[test]
fn two_pawn_islands_are_rejected() {
    let split = setup(&[
        (0, 1, 'P'),
        (1, 1, 'P'),
        (4, 1, 'P'),
        (0, 6, 'p'),
        (1, 6, 'p'),
        (4, 6, 'p'),
        (6, 0, 'K'),
        (6, 7, 'k'),
    ]);
    assert_eq!(count_pieces(&split, black_king()), 1);
    assert!(!is_piece_under_attack(&split));
    assert!(!can_deliver_check(&split));
    assert!(!has_passed_pawn(&split));
    assert_eq!(count_white_pawn_islands(&split), 2);
    assert!(!passes_filters(&split));
    let joined = setup(&[
        (0, 1, 'P'),
        (1, 1, 'P'),
        (2, 1, 'P'),
        (3, 1, 'P'),
        (4, 1, 'P'),
        (0, 6, 'p'),
        (1, 6, 'p'),
        (4, 6, 'p'),
        (6, 0, 'K'),
        (6, 7, 'k'),
    ]);
    assert_eq!(count_white_pawn_islands(&joined), 1);
    assert!(passes_filters(&joined));
}

#[test]
fn each_filter_rejects_on_its_own() {
    let no_black_king = setup(&[(4, 0, 'K')]);
    assert!(!passes_filters(&no_black_king));
    let two_black_kings = setup(&[(4, 0, 'K'), (0, 7, 'k'), (7, 7, 'k')]);
    assert!(!is_piece_under_attack(&two_black_kings));
    assert!(!passes_filters(&two_black_kings));
    let attacked = setup(&[(4, 0, 'K'), (4, 7, 'k'), (2, 2, 'N'), (3, 4, 'p')]);
    assert!(is_piece_under_attack(&attacked));
    assert!(!passes_filters(&attacked));
    let check_at_hand = setup(&[(4, 0, 'K'), (7, 7, 'k'), (0, 0, 'R')]);
    assert!(!is_piece_under_attack(&check_at_hand));
    assert!(can_deliver_check(&check_at_hand));
    assert!(!passes_filters(&check_at_hand));
    let passed = setup(&[(4, 0, 'K'), (4, 7, 'k'), (0, 1, 'P')]);
    assert!(!is_piece_under_attack(&passed));
    assert!(!can_deliver_check(&passed));
    assert!(has_passed_pawn(&passed));
    assert!(!passes_filters(&passed));
    let empty: Board = [None; 64];
    assert!(!passes_filters(&empty));
}

#[test]
fn records_of_the_king_combination() {
    let records = process_combination(&[PieceType::King]);
    assert_eq!(records.len(), 24);
    assert_eq!(records[0], "k7/8/8/8/8/8/8/K7 w - - 0 1");
    assert_eq!(records[1], "8/k7/8/8/8/8/K7/8 w - - 0 1");
    assert_eq!(records[2], "8/8/k7/8/8/K7/8/8 w - - 0 1");
    assert_eq!(records[3], "1k6/8/8/8/8/8/8/1K6 w - - 0 1");
    assert_eq!(records[23], "8/8/7k/8/8/7K/8/8 w - - 0 1");
    assert!(!records.contains(&String::from("8/8/8/k7/K7/8/8/8 w - - 0 1")));
}

#[test]
fn combinations_without_exactly_one_black_king_give_nothing() {
    assert!(process_combination(&[]).is_empty());
    assert!(process_combination(&[PieceType::Pawn]).is_empty());
    assert!(process_combination(&[PieceType::Queen]).is_empty());
    assert!(process_combination(&[PieceType::King, PieceType::King]).is_empty());
}

#[test]
fn pawn_and_king_records() {
    let records = process_combination(&[PieceType::Pawn, PieceType::King]);
    assert!(!records.is_empty());
    assert!(records.contains(&String::from("6k1/4p3/8/8/8/8/4P3/6K1 w - - 0 1")));
    assert!(records.contains(&String::from("k7/8/8/7p/7P/8/8/K7 w - - 0 1")));
    assert!(!records.contains(&String::from("8/4p3/8/3k4/3K4/8/4P3/8 w - - 0 1")));
    assert!(!records.contains(&String::from("4k3/4p3/8/8/8/8/4P3/4K3 b - - 0 1")));
}

#[test]
fn every_record_has_exactly_one_black_king() {
    for combination in [
        vec![PieceType::King],
        vec![PieceType::Pawn, PieceType::King],
        vec![PieceType::Knight, PieceType::King],
        vec![PieceType::Rook, PieceType::King],
    ] {
        for record in process_combination(&combination) {
            let board = read(&record);
            assert_eq!(count_pieces(&board, black_king()), 1);
            assert_eq!(record.chars().filter(|c| *c == 'k').count(), 1);
        }
    }
}

#[test]
fn no_piece_is_attacked_on_an_emitted_board() {
    for combination in [
        vec![PieceType::King],
        vec![PieceType::Pawn, PieceType::King],
        vec![PieceType::Bishop, PieceType::King],
        vec![PieceType::Queen, PieceType::King],
    ] {
        for record in process_combination(&combination) {
            let board = read(&record);
            assert!(!is_piece_under_attack(&board));
            assert!(passes_filters(&board));
        }
    }
}

#[test]
fn emitted_records_read_back_and_write_again() {
    for combination in [
        vec![PieceType::King],
        vec![PieceType::Pawn, PieceType::King],
        vec![PieceType::Knight, PieceType::King],
    ] {
        for record in process_combination(&combination) {
            let board = read(&record);
            assert_eq!(board_to_fen(&board), record);
            assert!(record.ends_with(" w - - 0 1"));
        }
    }
}

#[test]
fn every_pair_keeps_its_own_squares() {
    for combination in [
        vec![PieceType::Rook, PieceType::King],
        vec![PieceType::King, PieceType::King],
        vec![PieceType::Pawn, PieceType::Pawn, PieceType::King],
    ] {
        for record in process_combination(&combination) {
            let board = read(&record);
            let pieces = board.iter().filter(|c| c.is_some()).count();
            assert_eq!(pieces, 2 * combination.len());
        }
    }
}

#[test]
fn every_critical_board_of_the_catalogs_is_emitted() {
    let combination = [PieceType::Pawn, PieceType::King];
    let records = process_combination(&combination);
    let pawns = generate_placements(PieceType::Pawn);
    let kings = generate_placements(PieceType::King);
    let mut expected = Vec::new();
    for p in &pawns {
        for k in &kings {
            if p.white_x == k.white_x && (p.white_y == k.white_y || p.black_y == k.black_y) {
                continue;
            }
            let board = critical_boards::board::build_board(&vec![*p, *k]);
            if passes_filters(&board) {
                expected.push(board_to_fen(&board));
            }
        }
    }
    assert_eq!(records, expected);
}

#[test]
fn search_skips_pairs_on_taken_squares() {
    let options = vec![
        vec![mirrored_pair(PieceType::King, 0, 1, 8), mirrored_pair(PieceType::King, 1, 1, 8)],
        vec![mirrored_pair(PieceType::Knight, 0, 1, 8), mirrored_pair(PieceType::Knight, 7, 1, 8)],
    ];
    let mut occupied = [false; 64];
    let mut current = Vec::new();
    let mut found = Vec::new();
    search(0, &options, &mut occupied, &mut current, &mut found);
    assert_eq!(
        found,
        vec![
            String::from("k6n/8/8/8/8/8/8/K6N w - - 0 1"),
            String::from("nk6/8/8/8/8/8/8/NK6 w - - 0 1"),
            String::from("1k5n/8/8/8/8/8/8/1K5N w - - 0 1"),
        ]
    );
    assert!(occupied.iter().all(|taken| !*taken));
    assert!(current.is_empty());
}

#[test]
fn search_respects_squares_taken_beforehand() {
    let options =
        vec![vec![mirrored_pair(PieceType::King, 0, 1, 8), mirrored_pair(PieceType::King, 1, 1, 8)]];
    let mut occupied = [false; 64];
    occupied[56] = true;
    let mut current = Vec::new();
    let mut found = vec![String::from("kept")];
    search(0, &options, &mut occupied, &mut current, &mut found);
    assert_eq!(
        found,
        vec![String::from("kept"), String::from("1k6/8/8/8/8/8/8/1K6 w - - 0 1")]
    );
    let taken: Vec<usize> = (0..64).filter(|i| occupied[*i]).collect();
    assert_eq!(taken, vec![56]);
}

#[test]
fn search_from_the_last_slot_emits_the_current_board() {
    let options = vec![vec![mirrored_pair(PieceType::King, 4, 1, 8)]];
    let mut occupied = [false; 64];
    occupied[4] = true;
    occupied[60] = true;
    let mut current = vec![mirrored_pair(PieceType::King, 4, 1, 8)];
    let mut found = Vec::new();
    search(1, &options, &mut occupied, &mut current, &mut found);
    assert_eq!(found, vec![String::from("4k3/8/8/8/8/8/8/4K3 w - - 0 1")]);
    assert_eq!(current, vec![mirrored_pair(PieceType::King, 4, 1, 8)]);
}

#[test]
fn search_without_slots_holds_the_empty_board_against_the_filters() {
    let options: Vec<Vec<Placement>> = Vec::new();
    let mut occupied = [false; 64];
    let mut current = Vec::new();
    let mut found = Vec::new();
    search(0, &options, &mut occupied, &mut current, &mut found);
    assert!(found.is_empty());
}
