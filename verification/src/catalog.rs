//! The mirrored placements of each piece type.
//!
//! A mirrored pair puts a white piece and a black piece of one type on one
//! file, the white one in White's half of the board, the black one in Black's
//! half, both as far from the rank on which their side starts the game.

use vstd::prelude::*;
use crate::attack::magnitude;
use crate::board::Placement;
use crate::piece::{Color, Piece, PieceType};

verus! {

broadcast use vstd::seq_lib::lemma_seq_contains_after_push;

/// Whether `p` is a mirrored pair of pieces of type `kind`.
///
/// Both pieces stand on one file. The white piece stands on ranks 1 to 4, the
/// black one on ranks 5 to 8, and each is as many ranks away from its home
/// rank as the other. No pawn stands on rank 1 or rank 8.
pub open spec fn mirrored(kind: PieceType, p: Placement) -> bool {
    &&& p.white == Piece::white(kind)
    &&& p.black == Piece::black(kind)
    &&& p.white_x == p.black_x
    &&& p.white_x < 8
    &&& 1 <= p.white_y <= 4
    &&& 5 <= p.black_y <= 8
    &&& kind == PieceType::Pawn ==> p.white_y != 1 && p.black_y != 8
    &&& magnitude(p.white_y - kind.spec_white_home_rank()) == magnitude(
        p.black_y - kind.spec_black_home_rank(),
    )
}

/// The order in which the catalog lists pairs: by file, then by the white
/// piece's rank, then from the higher black rank to the lower.
pub open spec fn listed_before(a: Placement, b: Placement) -> bool {
    ||| a.white_x < b.white_x
    ||| a.white_x == b.white_x && a.white_y < b.white_y
    ||| a.white_x == b.white_x && a.white_y == b.white_y && a.black_y > b.black_y
}

/// Whether the white piece of `p` stands before file `file`, or on it below
/// rank `rank`.
pub open spec fn white_before(p: Placement, file: int, rank: int) -> bool {
    p.white_x < file || (p.white_x == file && p.white_y < rank)
}

/// The pair of pieces of type `kind` on file `file`, the white one on rank
/// `white_rank`, the black one on rank `black_rank`.
pub open spec fn pair_on(kind: PieceType, file: int, white_rank: int, black_rank: int) -> Placement {
    Placement {
        white_x: file as u8,
        white_y: white_rank as u8,
        white: Piece::white(kind),
        black_x: file as u8,
        black_y: black_rank as u8,
        black: Piece::black(kind),
    }
}

/// Whether a black piece of type `kind` may stand on rank `black_rank` as the
/// mirror of a white one: in Black's half of the board, and no pawn on rank 8.
pub open spec fn mirror_rank_allowed(kind: PieceType, black_rank: int) -> bool {
    5 <= black_rank <= 8 && !(kind == PieceType::Pawn && black_rank == 8)
}

/// The mirrored pairs of type `kind` on file `file` whose white piece stands
/// on rank `white_rank`: at most two, the one with the higher black rank
/// first.
pub open spec fn pairs_at(kind: PieceType, file: int, white_rank: int) -> Seq<Placement> {
    let distance = magnitude(white_rank - kind.spec_white_home_rank());
    let upper = kind.spec_black_home_rank() + distance;
    let lower = kind.spec_black_home_rank() - distance;
    let first = if mirror_rank_allowed(kind, upper) {
        seq![pair_on(kind, file, white_rank, upper)]
    } else {
        Seq::empty()
    };
    let second = if distance != 0 && mirror_rank_allowed(kind, lower) {
        seq![pair_on(kind, file, white_rank, lower)]
    } else {
        Seq::empty()
    };
    if kind == PieceType::Pawn && white_rank == 1 {
        Seq::empty()
    } else {
        first + second
    }
}

/// The catalog up to its `n`-th cell, where the cells are the white piece's
/// squares in the order a1, a2, a3, a4, b1, and so on to h4.
pub open spec fn catalog_before(kind: PieceType, n: int) -> Seq<Placement>
    decreases n,
{
    if n <= 0 {
        Seq::empty()
    } else {
        catalog_before(kind, n - 1) + pairs_at(kind, (n - 1) / 4, (n - 1) % 4 + 1)
    }
}

/// The catalog of a piece type: all its mirrored pairs, ordered by file, then
/// by the white piece's rank, then from the higher black rank to the lower.
pub open spec fn catalog(kind: PieceType) -> Seq<Placement> {
    catalog_before(kind, 32)
}

/// The first `n` cells of the catalog hold exactly the mirrored pairs whose
/// white piece stands on one of these cells.
proof fn lemma_catalog_before(kind: PieceType, n: int, p: Placement)
    requires
        0 <= n <= 32,
    ensures
        catalog_before(kind, n).contains(p) <==> mirrored(kind, p) && p.white_x * 4 + p.white_y - 1
            < n,
    decreases n,
{
    if n > 0 {
        lemma_catalog_before(kind, n - 1, p);
        let earlier = catalog_before(kind, n - 1);
        let here = pairs_at(kind, (n - 1) / 4, (n - 1) % 4 + 1);
        vstd::seq_lib::lemma_seq_concat_contains_all_elements(earlier, here, p);
        if here.contains(p) {
            let i = choose|i: int| 0 <= i < here.len() && here[i] == p;
            assert(here[i] == p);
        }
        if mirrored(kind, p) && p.white_x * 4 + p.white_y - 1 == n - 1 {
            let distance = magnitude(p.white_y - kind.spec_white_home_rank());
            let upper = kind.spec_black_home_rank() + distance;
            let lower = kind.spec_black_home_rank() - distance;
            if p.black_y == upper {
                assert(p == pair_on(kind, (n - 1) / 4, (n - 1) % 4 + 1, upper));
                assert(here[0] == p);
            } else {
                assert(p == pair_on(kind, (n - 1) / 4, (n - 1) % 4 + 1, lower));
                assert(here[here.len() - 1] == p);
            }
        }
    }
}

/// The catalog of a piece type holds exactly its mirrored pairs.
pub proof fn lemma_catalog_holds_mirrored_pairs(kind: PieceType, p: Placement)
    ensures
        catalog(kind).contains(p) <==> mirrored(kind, p),
{
    lemma_catalog_before(kind, 32, p);
}

/// All mirrored pairs of pieces of type `kind`, each once, ordered by file,
/// then by the white piece's rank, then from the higher black rank to the
/// lower.
pub fn generate_placements(kind: PieceType) -> (placements: Vec<Placement>)
    ensures
        placements@ == catalog(kind),
        forall|i: int| 0 <= i < placements.len() ==> mirrored(kind, #[trigger] placements[i]),
        forall|p: Placement| mirrored(kind, p) ==> placements@.contains(p),
        forall|i: int, j: int|
            0 <= i < j < placements.len() ==> listed_before(
                #[trigger] placements[i],
                #[trigger] placements[j],
            ),
        forall|i: int|
            0 <= i < placements.len() ==> magnitude(
                (#[trigger] placements[i]).white_y - kind.spec_white_home_rank(),
            ) == magnitude(placements[i].black_y - kind.spec_black_home_rank()),
        kind == PieceType::Pawn ==> forall|i: int|
            0 <= i < placements.len() ==> (#[trigger] placements[i]).white_y != 1
                && placements[i].black_y != 1 && placements[i].black_y != 8,
{
    let srw = kind.white_home_rank();
    let srb = kind.black_home_rank();
    let is_pawn = kind == PieceType::Pawn;
    let white = Piece { kind, color: Color::White };
    let black = Piece { kind, color: Color::Black };
    let mut placements: Vec<Placement> = Vec::new();
    let mut file: u8 = 0;
    while file < 8
        invariant
            file <= 8,
            srw == kind.spec_white_home_rank(),
            srb == kind.spec_black_home_rank(),
            is_pawn == (kind == PieceType::Pawn),
            white == Piece::white(kind),
            black == Piece::black(kind),
            placements@ == catalog_before(kind, file * 4),
            forall|i: int|
                0 <= i < placements.len() ==> mirrored(kind, #[trigger] placements[i])
                    && white_before(placements[i], file as int, 1),
            forall|p: Placement|
                mirrored(kind, p) && white_before(p, file as int, 1) ==> placements@.contains(p),
            forall|i: int, j: int|
                0 <= i < j < placements.len() ==> listed_before(
                    #[trigger] placements[i],
                    #[trigger] placements[j],
                ),
        decreases 8 - file,
    {
        let mut white_rank: u8 = 1;
        while white_rank <= 4
            invariant
                file < 8,
                1 <= white_rank <= 5,
                srw == kind.spec_white_home_rank(),
                srb == kind.spec_black_home_rank(),
                is_pawn == (kind == PieceType::Pawn),
                white == Piece::white(kind),
                black == Piece::black(kind),
                placements@ == catalog_before(kind, file * 4 + white_rank - 1),
                forall|i: int|
                    0 <= i < placements.len() ==> mirrored(kind, #[trigger] placements[i])
                        && white_before(placements[i], file as int, white_rank as int),
                forall|p: Placement|
                    mirrored(kind, p) && white_before(p, file as int, white_rank as int)
                        ==> placements@.contains(p),
                forall|i: int, j: int|
                    0 <= i < j < placements.len() ==> listed_before(
                        #[trigger] placements[i],
                        #[trigger] placements[j],
                    ),
            decreases 5 - white_rank,
        {
            let ghost earlier = placements@;
            if !(is_pawn && white_rank == 1) {
                let distance = if white_rank >= srw {
                    white_rank - srw
                } else {
                    srw - white_rank
                };
                let upper = srb + distance;
                if 5 <= upper && upper <= 8 && !(is_pawn && upper == 8) {
                    placements.push(
                        Placement {
                            white_x: file,
                            white_y: white_rank,
                            white,
                            black_x: file,
                            black_y: upper,
                            black,
                        },
                    );
                }
                if distance != 0 && srb >= distance {
                    let lower = srb - distance;
                    if 5 <= lower && lower <= 8 && !(is_pawn && lower == 8) {
                        placements.push(
                            Placement {
                                white_x: file,
                                white_y: white_rank,
                                white,
                                black_x: file,
                                black_y: lower,
                                black,
                            },
                        );
                    }
                }
            }
            assert(placements@ =~= earlier + pairs_at(kind, file as int, white_rank as int));
            white_rank = white_rank + 1;
        }
        file = file + 1;
    }
    placements
}

} // verus!
