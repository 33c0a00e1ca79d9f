use critical_boards::board::Placement;
use critical_boards::catalog::generate_placements;
use critical_boards::combination::generate_combinations;
use critical_boards::piece::{Color, Piece, PieceType};

const ALL_TYPES: [PieceType; 6] = [
    PieceType::Pawn,
    PieceType::Knight,
    PieceType::Bishop,
    PieceType::Rook,
    PieceType::Queen,
    PieceType::King,
];

fn rank_distance(rank: u8, home: u8) -> u8 {
    if rank >= home {
        rank - home
    } else {
        home - rank
    }
}

#[test]
fn rook_catalog_holds_a2_a7() {
    let placements = generate_placements(PieceType::Rook);
    let expected = Placement {
        white_x: 0,
        white_y: 2,
        white: Piece { kind: PieceType::Rook, color: Color::White },
        black_x: 0,
        black_y: 7,
        black: Piece { kind: PieceType::Rook, color: Color::Black },
    };
    assert!(placements.contains(&expected));
    let on_a2: Vec<&Placement> =
        placements.iter().filter(|p| p.white_x == 0 && p.white_y == 2).collect();
    assert_eq!(on_a2.len(), 1);
    assert_eq!(on_a2[0].black_y, 7);
    assert_eq!(on_a2[0].black_x, 0);
}

#[test]
fn rook_catalog_in_order() {
    let placements = generate_placements(PieceType::Rook);
    assert_eq!(placements.len(), 32);
    let ranks: Vec<(u8, u8, u8)> =
        placements.iter().take(5).map(|p| (p.white_x, p.white_y, p.black_y)).collect();
    assert_eq!(ranks, vec![(0, 1, 8), (0, 2, 7), (0, 3, 6), (0, 4, 5), (1, 1, 8)]);
    let last = placements[31];
    assert_eq!((last.white_x, last.white_y, last.black_x, last.black_y), (7, 4, 7, 5));
}

#[test]
fn pawn_catalog_in_order() {
    let placements = generate_placements(PieceType::Pawn);
    assert_eq!(placements.len(), 24);
    let ranks: Vec<(u8, u8, u8)> =
        placements.iter().take(4).map(|p| (p.white_x, p.white_y, p.black_y)).collect();
    assert_eq!(ranks, vec![(0, 2, 7), (0, 3, 6), (0, 4, 5), (1, 2, 7)]);
}

#[test]
fn catalog_sizes() {
    assert_eq!(generate_placements(PieceType::Pawn).len(), 24);
    assert_eq!(generate_placements(PieceType::Knight).len(), 32);
    assert_eq!(generate_placements(PieceType::Bishop).len(), 32);
    assert_eq!(generate_placements(PieceType::Rook).len(), 32);
    assert_eq!(generate_placements(PieceType::Queen).len(), 32);
    assert_eq!(generate_placements(PieceType::King).len(), 32);
}

#[test]
fn catalog_pieces_carry_type_and_side() {
    for kind in ALL_TYPES {
        for p in generate_placements(kind) {
            assert_eq!(p.white, Piece { kind, color: Color::White });
            assert_eq!(p.black, Piece { kind, color: Color::Black });
        }
    }
}

#[test]
fn mirror_distance_is_equal_for_every_placement() {
    for kind in ALL_TYPES {
        for p in generate_placements(kind) {
            assert_eq!(
                rank_distance(p.white_y, kind.white_home_rank()),
                rank_distance(p.black_y, kind.black_home_rank())
            );
        }
    }
}

#[test]
fn placements_stay_on_one_file_and_in_their_half() {
    for kind in ALL_TYPES {
        for p in generate_placements(kind) {
            assert_eq!(p.white_x, p.black_x);
            assert!(p.white_x < 8);
            assert!(1 <= p.white_y && p.white_y <= 4);
            assert!(5 <= p.black_y && p.black_y <= 8);
        }
    }
}

#[test]
fn pawns_never_stand_on_back_ranks() {
    for p in generate_placements(PieceType::Pawn) {
        assert_ne!(p.white_y, 1);
        assert_ne!(p.black_y, 1);
        assert_ne!(p.black_y, 8);
    }
}

#[test]
fn catalog_has_no_duplicates() {
    for kind in ALL_TYPES {
        let placements = generate_placements(kind);
        for i in 0..placements.len() {
            for j in (i + 1)..placements.len() {
                assert_ne!(placements[i], placements[j]);
            }
        }
    }
}

#[test]
fn home_ranks() {
    assert_eq!(PieceType::Pawn.white_home_rank(), 2);
    assert_eq!(PieceType::Pawn.black_home_rank(), 7);
    for kind in [
        PieceType::Knight,
        PieceType::Bishop,
        PieceType::Rook,
        PieceType::Queen,
        PieceType::King,
    ] {
        assert_eq!(kind.white_home_rank(), 1);
        assert_eq!(kind.black_home_rank(), 8);
    }
}

#[test]
fn ordinals_follow_the_canonical_list() {
    for (i, kind) in ALL_TYPES.iter().enumerate() {
        assert_eq!(kind.ordinal(), i);
        assert_eq!(PieceType::from_ordinal(i), *kind);
    }
}

#[test]
fn combinations_of_no_pair() {
    let combinations = generate_combinations(0);
    assert_eq!(combinations, vec![Vec::<PieceType>::new()]);
}

#[test]
fn combinations_of_one_pair() {
    let combinations = generate_combinations(1);
    let expected: Vec<Vec<PieceType>> = ALL_TYPES.iter().map(|k| vec![*k]).collect();
    assert_eq!(combinations, expected);
}

#[test]
fn combinations_of_two_pairs() {
    let combinations = generate_combinations(2);
    assert_eq!(combinations.len(), 21);
    assert_eq!(combinations[0], vec![PieceType::Pawn, PieceType::Pawn]);
    assert_eq!(combinations[1], vec![PieceType::Pawn, PieceType::Knight]);
    assert_eq!(combinations[6], vec![PieceType::Knight, PieceType::Knight]);
    assert_eq!(combinations[20], vec![PieceType::King, PieceType::King]);
    assert!(!combinations.contains(&vec![PieceType::Knight, PieceType::Pawn]));
}

#[test]
fn combinations_of_six_pairs() {
    let combinations = generate_combinations(6);
    assert_eq!(combinations.len(), 462);
    for c in &combinations {
        assert_eq!(c.len(), 6);
        for i in 1..c.len() {
            assert!(c[i - 1].ordinal() <= c[i].ordinal());
        }
    }
    for i in 0..combinations.len() {
        for j in (i + 1)..combinations.len() {
            assert_ne!(combinations[i], combinations[j]);
        }
    }
}
