use critical_boards::board::{
    build_board, get_piece_at, is_empty, is_enemy, pos_to_index, Board, Placement,
};
use critical_boards::piece::{Color, Piece, PieceType};

fn piece_for(symbol: char) -> Piece {
    match Piece::from_symbol(symbol) {
        Some(p) => p,
        None => panic!("not a piece symbol"),
    }
}

fn pair(kind: PieceType, wx: u8, wy: u8, bx: u8, by: u8) -> Placement {
    Placement {
        white_x: wx,
        white_y: wy,
        white: Piece { kind, color: Color::White },
        black_x: bx,
        black_y: by,
        black: Piece { kind, color: Color::Black },
    }
}

#[test]
fn square_indices() {
    assert_eq!(pos_to_index(0, 1), 0);
    assert_eq!(pos_to_index(7, 1), 7);
    assert_eq!(pos_to_index(0, 2), 8);
    assert_eq!(pos_to_index(4, 2), 12);
    assert_eq!(pos_to_index(7, 8), 63);
}

#[test]
fn square_indices_are_all_different() {
    let mut seen = [false; 64];
    for y in 1..=8u8 {
        for x in 0..8u8 {
            let i = pos_to_index(x, y);
            assert!(i < 64);
            assert!(!seen[i]);
            seen[i] = true;
        }
    }
    assert!(seen.iter().all(|s| *s));
}

#[test]
fn symbols_round_trip() {
    let symbols = ['P', 'N', 'B', 'R', 'Q', 'K', 'p', 'n', 'b', 'r', 'q', 'k'];
    for c in symbols {
        assert_eq!(piece_for(c).symbol(), c);
    }
    assert_eq!(
        Piece::from_symbol('Q'),
        Some(Piece { kind: PieceType::Queen, color: Color::White })
    );
    assert_eq!(
        Piece::from_symbol('n'),
        Some(Piece { kind: PieceType::Knight, color: Color::Black })
    );
    assert_eq!(Piece::from_symbol('x'), None);
    assert_eq!(Piece::from_symbol('1'), None);
    assert_eq!(Piece::from_symbol('/'), None);
}

#[test]
fn opposite_sides() {
    assert_eq!(Color::White.opposite(), Color::Black);
    assert_eq!(Color::Black.opposite(), Color::White);
}

#[test]
fn piece_lookup_inside_and_outside() {
    let mut board: Board = [None; 64];
    board[12] = Some(piece_for('Q'));
    assert_eq!(get_piece_at(&board, 4, 1), Some(piece_for('Q')));
    assert_eq!(get_piece_at(&board, 1, 4), None);
    assert_eq!(get_piece_at(&board, -1, 1), None);
    assert_eq!(get_piece_at(&board, 8, 1), None);
    assert_eq!(get_piece_at(&board, 4, -1), None);
    assert_eq!(get_piece_at(&board, 4, 8), None);
}

#[test]
fn empty_means_on_board_and_free() {
    let mut board: Board = [None; 64];
    board[0] = Some(piece_for('r'));
    assert!(!is_empty(&board, 0, 0));
    assert!(is_empty(&board, 1, 0));
    assert!(is_empty(&board, 7, 7));
    assert!(!is_empty(&board, -1, 0));
    assert!(!is_empty(&board, 0, 8));
    assert!(!is_empty(&board, 8, 8));
}

#[test]
fn enemy_is_a_piece_of_the_other_side() {
    let mut board: Board = [None; 64];
    board[0] = Some(piece_for('r'));
    board[1] = Some(piece_for('R'));
    assert!(is_enemy(&board, 0, 0, piece_for('P')));
    assert!(!is_enemy(&board, 0, 0, piece_for('p')));
    assert!(!is_enemy(&board, 1, 0, piece_for('P')));
    assert!(is_enemy(&board, 1, 0, piece_for('k')));
    assert!(!is_enemy(&board, 2, 0, piece_for('P')));
    assert!(!is_enemy(&board, -1, 0, piece_for('P')));
    assert!(!is_enemy(&board, 0, 9, piece_for('p')));
}

#[test]
fn board_from_no_pair_is_empty() {
    let board = build_board(&Vec::new());
    assert!(board.iter().all(|c| c.is_none()));
}

#[test]
fn board_from_pairs() {
    let placements =
        vec![pair(PieceType::Rook, 0, 2, 0, 7), pair(PieceType::King, 4, 1, 4, 8)];
    let board = build_board(&placements);
    assert_eq!(board[8], Some(piece_for('R')));
    assert_eq!(board[48], Some(piece_for('r')));
    assert_eq!(board[4], Some(piece_for('K')));
    assert_eq!(board[60], Some(piece_for('k')));
    assert_eq!(board.iter().filter(|c| c.is_some()).count(), 4);
}

#[test]
fn later_pair_stays_on_a_shared_square() {
    let placements =
        vec![pair(PieceType::Rook, 0, 2, 0, 7), pair(PieceType::Queen, 0, 2, 3, 7)];
    let board = build_board(&placements);
    assert_eq!(board[8], Some(piece_for('Q')));
    assert_eq!(board[48], Some(piece_for('r')));
    assert_eq!(board[51], Some(piece_for('q')));
    let same_square = vec![pair(PieceType::Bishop, 2, 3, 2, 3)];
    let board = build_board(&same_square);
    assert_eq!(board[18], Some(piece_for('b')));
}
