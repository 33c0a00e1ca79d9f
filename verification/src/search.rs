//! The search for critical boards: one mirrored pair per slot, no square used
//! twice, and every complete board held against the filters.

use vstd::prelude::*;
use crate::attack::{any_piece_attacked, count_of, count_pieces, is_piece_under_attack, king_of};
use crate::board::{board_of, build_board, lemma_board_of_len, pos_to_index, Board, Placement};
use crate::catalog::{catalog, generate_placements, lemma_catalog_holds_mirrored_pairs, mirrored};
use crate::fen::{board_to_fen, decode_fen, fen_of, lemma_fen_round_trip};
use crate::moves::{can_deliver_check, check_deliverable};
use crate::pawns::{any_passed_pawn, count_white_pawn_islands, has_passed_pawn, white_pawn_islands};
use crate::piece::{Color, Piece, PieceType};

verus! {

broadcast use {
    vstd::seq_lib::lemma_seq_concat_contains_all_elements,
    vstd::seq_lib::lemma_seq_empty_contains_nothing,
};

/// Whether a board is critical: it holds exactly one black king, no piece on
/// it is attacked, White cannot give check, no pawn is passed, and White's
/// pawns form at most one island.
pub open spec fn qualifies(cells: Seq<Option<Piece>>) -> bool {
    &&& count_of(cells, king_of(Color::Black), 64) == 1
    &&& !any_piece_attacked(cells)
    &&& !check_deliverable(cells)
    &&& !any_passed_pawn(cells)
    &&& white_pawn_islands(cells) <= 1
}

/// Whether neither square of `p` is taken.
pub open spec fn fits(occupied: Seq<bool>, p: Placement) -> bool {
    !occupied[p.white_square()] && !occupied[p.black_square()]
}

/// The squares taken once `p` is put down.
pub open spec fn mark(occupied: Seq<bool>, p: Placement) -> Seq<bool> {
    occupied.update(p.white_square(), true).update(p.black_square(), true)
}

/// Every pair of the list lies on the board.
pub open spec fn all_on_board(placements: Seq<Placement>) -> bool {
    forall|i: int| 0 <= i < placements.len() ==> (#[trigger] placements[i]).on_board()
}

/// The candidate pairs of each slot, as sequences.
pub open spec fn lists(options: Seq<Vec<Placement>>) -> Seq<Seq<Placement>> {
    options.map_values(|slot: Vec<Placement>| slot@)
}

/// Every candidate pair of every slot lies on the board.
pub open spec fn options_on_board(options: Seq<Seq<Placement>>) -> bool {
    forall|i: int| 0 <= i < options.len() ==> all_on_board(#[trigger] options[i])
}

/// The complete assignments that the search reaches from slot `index` on,
/// in the order in which it reaches them. `chosen` holds the pairs of the
/// slots before `index`, `occupied` the squares that are taken.
///
/// An assignment takes one candidate pair for each slot; a pair is passed
/// over when one of its squares is taken.
pub open spec fn assignments(
    options: Seq<Seq<Placement>>,
    index: int,
    occupied: Seq<bool>,
    chosen: Seq<Placement>,
) -> Seq<Seq<Placement>>
    decreases options.len() - index, 1int, 0int,
{
    if index >= options.len() {
        seq![chosen]
    } else {
        slot_assignments(options, index, 0, occupied, chosen)
    }
}

/// The complete assignments that take for slot `index` one of its candidates
/// from position `from` on.
pub open spec fn slot_assignments(
    options: Seq<Seq<Placement>>,
    index: int,
    from: int,
    occupied: Seq<bool>,
    chosen: Seq<Placement>,
) -> Seq<Seq<Placement>>
    decreases options.len() - index, 0int, options[index].len() - from,
{
    if index >= options.len() || from < 0 || from >= options[index].len() {
        Seq::empty()
    } else {
        let p = options[index][from];
        let with_p = if fits(occupied, p) {
            assignments(options, index + 1, mark(occupied, p), chosen.push(p))
        } else {
            Seq::empty()
        };
        with_p + slot_assignments(options, index, from + 1, occupied, chosen)
    }
}

/// The test that keeps the assignments whose board is critical.
pub open spec fn critical() -> spec_fn(Seq<Placement>) -> bool {
    |a: Seq<Placement>| qualifies(board_of(a))
}

/// The record of the board of an assignment.
pub open spec fn record() -> spec_fn(Seq<Placement>) -> Seq<char> {
    |a: Seq<Placement>| fen_of(board_of(a))
}

/// The records that the search emits for the assignments it reaches: those of
/// the critical boards, in the same order.
pub open spec fn records(found: Seq<Seq<Placement>>) -> Seq<Seq<char>> {
    found.filter(critical()).map_values(record())
}

/// The texts of a list of strings.
pub open spec fn texts(found: Seq<String>) -> Seq<Seq<char>> {
    found.map_values(|s: String| s@)
}

/// No square is taken.
pub open spec fn all_free() -> Seq<bool> {
    Seq::new(64, |i: int| false)
}

/// Whether two pairs share a square.
pub open spec fn overlap(p: Placement, q: Placement) -> bool {
    p.covers(q.white_square()) || p.covers(q.black_square())
}

/// Whether the pairs `picks` can all be put down: none of them needs a taken
/// square, and no two of them share a square.
pub open spec fn compatible(occupied: Seq<bool>, picks: Seq<Placement>) -> bool {
    &&& forall|k: int| 0 <= k < picks.len() ==> fits(occupied, #[trigger] picks[k])
    &&& forall|a: int, b: int|
        0 <= a < b < picks.len() ==> !overlap(#[trigger] picks[a], #[trigger] picks[b])
}

/// Whether `picks` takes one candidate pair for each slot from `index` on.
pub open spec fn selection_of(
    options: Seq<Seq<Placement>>,
    index: int,
    picks: Seq<Placement>,
) -> bool {
    &&& picks.len() == options.len() - index
    &&& forall|k: int| 0 <= k < picks.len() ==> options[index + k].contains(#[trigger] picks[k])
}

/// Whether `a` continues `chosen` by one compatible candidate pair for each
/// slot from `index` on.
pub open spec fn reached(
    options: Seq<Seq<Placement>>,
    index: int,
    occupied: Seq<bool>,
    chosen: Seq<Placement>,
    a: Seq<Placement>,
) -> bool {
    &&& a.len() == chosen.len() + options.len() - index
    &&& a.take(chosen.len() as int) == chosen
    &&& selection_of(options, index, a.skip(chosen.len() as int))
    &&& compatible(occupied, a.skip(chosen.len() as int))
}

/// The squares of the pairs of an assignment: for each pair in turn the white
/// piece's square, then the black one's.
pub open spec fn squares(a: Seq<Placement>) -> Seq<int> {
    Seq::new(
        2 * a.len(),
        |k: int|
            if k % 2 == 0 {
                a[k / 2].white_square()
            } else {
                a[k / 2].black_square()
            },
    )
}

/// Every candidate pair lies on the board and has its two pieces on
/// different squares.
pub open spec fn proper(options: Seq<Seq<Placement>>) -> bool {
    forall|i: int, j: int|
        0 <= i < options.len() && 0 <= j < options[i].len() ==> (#[trigger] options[i][j]).on_board()
            && options[i][j].white_square() != options[i][j].black_square()
}

/// Whether `picks` takes one mirrored pair for each type of the combination,
/// no two of them sharing a square.
pub open spec fn is_selection(combination: Seq<PieceType>, picks: Seq<Placement>) -> bool {
    &&& picks.len() == combination.len()
    &&& forall|k: int| 0 <= k < picks.len() ==> mirrored(combination[k], #[trigger] picks[k])
    &&& forall|a: int, b: int|
        0 <= a < b < picks.len() ==> !overlap(#[trigger] picks[a], #[trigger] picks[b])
}

/// Whether `s` is the record of a critical board made of one mirrored pair
/// for each type of the combination.
pub open spec fn is_critical_record(combination: Seq<PieceType>, s: Seq<char>) -> bool {
    exists|picks: Seq<Placement>|
        #[trigger] is_selection(combination, picks) && qualifies(board_of(picks)) && s == fen_of(
            board_of(picks),
        )
}

/// The catalogs of the types of a combination, one for each slot.
pub open spec fn catalogs(combination: Seq<PieceType>) -> Seq<Seq<Placement>> {
    Seq::new(combination.len(), |k: int| catalog(combination[k]))
}

/// The records that the search emits for a combination, in the order in
/// which it finds them.
pub open spec fn combination_records(combination: Seq<PieceType>) -> Seq<Seq<char>> {
    records(assignments(catalogs(combination), 0, all_free(), Seq::empty()))
}

/// The records of two runs of assignments, one after the other.
proof fn lemma_records_add(a: Seq<Seq<Placement>>, b: Seq<Seq<Placement>>)
    ensures
        records(a + b) == records(a) + records(b),
{
    Seq::filter_distributes_over_add(a, b, critical());
    assert(records(a + b) =~= records(a) + records(b));
}

/// The records of no assignment, and of a single one.
proof fn lemma_records_small(a: Seq<Placement>)
    ensures
        records(Seq::empty()) == Seq::<Seq<char>>::empty(),
        records(seq![a]) == if qualifies(board_of(a)) {
            seq![fen_of(board_of(a))]
        } else {
            Seq::<Seq<char>>::empty()
        },
{
    let none = Seq::<Seq<Placement>>::empty();
    none.lemma_filter_len(critical());
    assert(none.filter(critical()) =~= none);
    assert(records(none) =~= Seq::<Seq<char>>::empty());
    none.lemma_filter_push(a, critical());
    assert(seq![a] =~= none.push(a));
    if qualifies(board_of(a)) {
        assert(critical()(a));
        assert(records(seq![a]) =~= seq![fen_of(board_of(a))]);
    } else {
        assert(!critical()(a));
        assert(records(seq![a]) =~= Seq::<Seq<char>>::empty());
    }
}

/// Holds a board against the five filters, in order: exactly one black king,
/// no piece attacked, no check that White can give, no passed pawn, at most
/// one island of white pawns.
pub fn passes_filters(board: &Board) -> (r: bool)
    ensures
        r == qualifies(board@),
{
    let black_king = Piece { kind: PieceType::King, color: Color::Black };
    if count_pieces(board, black_king) != 1 {
        return false;
    }
    if is_piece_under_attack(board) {
        return false;
    }
    if can_deliver_check(board) {
        return false;
    }
    if has_passed_pawn(board) {
        return false;
    }
    if count_white_pawn_islands(board) > 1 {
        return false;
    }
    true
}

/// Backtracking search from slot `index` on. Takes for each slot each
/// candidate pair whose squares are free, and appends to `found` the record
/// of every complete board that passes the filters. `occupied` and `current`
/// are left as they were.
pub fn search(
    index: usize,
    options: &Vec<Vec<Placement>>,
    occupied: &mut [bool; 64],
    current: &mut Vec<Placement>,
    found: &mut Vec<String>,
)
    requires
        index <= options.len(),
        options_on_board(lists(options@)),
        all_on_board(old(current)@),
    ensures
        final(occupied)@ == old(occupied)@,
        final(current)@ == old(current)@,
        texts(final(found)@) == texts(old(found)@) + records(
            assignments(lists(options@), index as int, old(occupied)@, old(current)@),
        ),
    decreases options.len() - index,
{
    let ghost opts = lists(options@);
    let ghost occ0 = occupied@;
    let ghost cur0 = current@;
    let ghost found0 = found@;
    if index == options.len() {
        proof {
            lemma_records_small(cur0);
        }
        let board = build_board(current);
        if passes_filters(&board) {
            let fen = board_to_fen(&board);
            found.push(fen);
            assert(texts(found@) =~= texts(found0) + seq![fen_of(board_of(cur0))]);
        } else {
            assert(texts(found@) =~= texts(found0) + Seq::<Seq<char>>::empty());
        }
        return ;
    }
    let slot = &options[index];
    assert(slot@ == opts[index as int]);
    let n = slot.len();
    let mut j: usize = 0;
    while j < n
        invariant
            j <= n,
            n == slot@.len(),
            index < options.len(),
            opts == lists(options@),
            slot@ == opts[index as int],
            options_on_board(opts),
            all_on_board(cur0),
            occupied@ == occ0,
            current@ == cur0,
            texts(found@) + records(slot_assignments(opts, index as int, j as int, occ0, cur0))
                == texts(found0) + records(assignments(opts, index as int, occ0, cur0)),
        decreases n - j,
    {
        let placement = slot[j];
        assert(opts[index as int][j as int] == placement);
        assert(placement.on_board());
        let white_index = pos_to_index(placement.white_x, placement.white_y);
        let black_index = pos_to_index(placement.black_x, placement.black_y);
        let ghost with_p = if fits(occ0, placement) {
            assignments(opts, index + 1, mark(occ0, placement), cur0.push(placement))
        } else {
            Seq::empty()
        };
        let ghost later = slot_assignments(opts, index as int, j + 1, occ0, cur0);
        let ghost before = texts(found@);
        proof {
            assert(slot_assignments(opts, index as int, j as int, occ0, cur0) == with_p + later);
            lemma_records_add(with_p, later);
        }
        if !(occupied[white_index] || occupied[black_index]) {
            occupied[white_index] = true;
            occupied[black_index] = true;
            current.push(placement);
            search(index + 1, options, occupied, current, found);
            current.pop();
            occupied[white_index] = false;
            occupied[black_index] = false;
            assert(occupied@ =~= occ0);
            assert(current@ =~= cur0);
        } else {
            proof {
                lemma_records_small(cur0);
            }
        }
        assert(texts(found@) =~= before + records(with_p));
        assert(texts(found@) + records(later) =~= before + (records(with_p) + records(later)));
        j = j + 1;
    }
    proof {
        lemma_records_small(cur0);
        assert(texts(found@) + Seq::<Seq<char>>::empty() =~= texts(found@));
    }
}

proof fn lemma_marked(occupied: Seq<bool>, p: Placement, q: Placement)
    requires
        occupied.len() == 64,
        p.on_board(),
        q.on_board(),
    ensures
        fits(mark(occupied, p), q) <==> fits(occupied, q) && !overlap(p, q),
        mark(occupied, p).len() == 64,
{
}

/// Every assignment that the search reaches continues `chosen` by one
/// compatible candidate pair for each remaining slot.
pub proof fn lemma_assignment_sound(
    options: Seq<Seq<Placement>>,
    index: int,
    occupied: Seq<bool>,
    chosen: Seq<Placement>,
    a: Seq<Placement>,
)
    requires
        0 <= index <= options.len(),
        occupied.len() == 64,
        options_on_board(options),
        assignments(options, index, occupied, chosen).contains(a),
    ensures
        reached(options, index, occupied, chosen, a),
    decreases options.len() - index, 1int, 0int,
{
    if index >= options.len() {
        assert(seq![chosen][0] == chosen);
        assert(a == chosen);
        assert(a.take(chosen.len() as int) =~= chosen);
    } else {
        lemma_slot_sound(options, index, 0, occupied, chosen, a);
    }
}

proof fn lemma_slot_sound(
    options: Seq<Seq<Placement>>,
    index: int,
    from: int,
    occupied: Seq<bool>,
    chosen: Seq<Placement>,
    a: Seq<Placement>,
)
    requires
        0 <= index < options.len(),
        0 <= from,
        occupied.len() == 64,
        options_on_board(options),
        slot_assignments(options, index, from, occupied, chosen).contains(a),
    ensures
        reached(options, index, occupied, chosen, a),
    decreases options.len() - index, 0int, options[index].len() - from,
{
    if from < options[index].len() {
        let p = options[index][from];
        let with_p = if fits(occupied, p) {
            assignments(options, index + 1, mark(occupied, p), chosen.push(p))
        } else {
            Seq::empty()
        };
        let later = slot_assignments(options, index, from + 1, occupied, chosen);
        assert(slot_assignments(options, index, from, occupied, chosen) == with_p + later);
        if with_p.contains(a) {
            assert(p.on_board());
            let n = chosen.len() as int;
            let longer = chosen.push(p);
            lemma_assignment_sound(options, index + 1, mark(occupied, p), longer, a);
            let picks = a.skip(n);
            let tail = a.skip(n + 1);
            assert(a.take(n + 1)[n] == longer[n]);
            assert(picks[0] == p);
            assert(a.take(n) =~= chosen) by {
                assert forall|k: int| 0 <= k < n implies a.take(n)[k] == chosen[k] by {
                    assert(a.take(n + 1)[k] == longer[k]);
                }
            }
            assert forall|k: int| 0 <= k < picks.len() implies options[index + k].contains(
                #[trigger] picks[k],
            ) by {
                if k > 0 {
                    assert(picks[k] == tail[k - 1]);
                    assert(options[index + 1 + (k - 1)].contains(tail[k - 1]));
                }
            }
            assert forall|k: int| 0 <= k < picks.len() implies picks[k].on_board() by {
                let slot = options[index + k];
                let at = choose|at: int| 0 <= at < slot.len() && slot[at] == picks[k];
                assert(slot[at].on_board());
            }
            assert forall|k: int| 0 <= k < picks.len() implies fits(occupied, #[trigger] picks[k]) by {
                if k > 0 {
                    assert(picks[k] == tail[k - 1]);
                    assert(fits(mark(occupied, p), tail[k - 1]));
                    lemma_marked(occupied, p, picks[k]);
                }
            }
            assert forall|x: int, y: int| 0 <= x < y < picks.len() implies !overlap(
                #[trigger] picks[x],
                #[trigger] picks[y],
            ) by {
                assert(picks[y] == tail[y - 1]);
                if x == 0 {
                    assert(fits(mark(occupied, p), tail[y - 1]));
                    lemma_marked(occupied, p, picks[y]);
                } else {
                    assert(picks[x] == tail[x - 1]);
                }
            }
        } else {
            lemma_slot_sound(options, index, from + 1, occupied, chosen, a);
        }
    }
}

/// The search reaches every way to continue `chosen` by one compatible
/// candidate pair for each remaining slot.
pub proof fn lemma_assignment_complete(
    options: Seq<Seq<Placement>>,
    index: int,
    occupied: Seq<bool>,
    chosen: Seq<Placement>,
    picks: Seq<Placement>,
)
    requires
        0 <= index <= options.len(),
        occupied.len() == 64,
        options_on_board(options),
        selection_of(options, index, picks),
        compatible(occupied, picks),
    ensures
        assignments(options, index, occupied, chosen).contains(chosen + picks),
    decreases options.len() - index, 1int, 0int,
{
    if index >= options.len() {
        assert(chosen + picks =~= chosen);
        assert(seq![chosen][0] == chosen);
    } else {
        let slot = options[index];
        assert(slot.contains(picks[0]));
        let at = choose|at: int| 0 <= at < slot.len() && slot[at] == picks[0];
        lemma_slot_complete(options, index, 0, at, occupied, chosen, picks);
    }
}

proof fn lemma_slot_complete(
    options: Seq<Seq<Placement>>,
    index: int,
    from: int,
    at: int,
    occupied: Seq<bool>,
    chosen: Seq<Placement>,
    picks: Seq<Placement>,
)
    requires
        0 <= index < options.len(),
        0 <= from <= at < options[index].len(),
        options[index][at] == picks[0],
        occupied.len() == 64,
        options_on_board(options),
        selection_of(options, index, picks),
        compatible(occupied, picks),
    ensures
        slot_assignments(options, index, from, occupied, chosen).contains(chosen + picks),
    decreases options.len() - index, 0int, options[index].len() - from,
{
    let p = options[index][from];
    let with_p = if fits(occupied, p) {
        assignments(options, index + 1, mark(occupied, p), chosen.push(p))
    } else {
        Seq::empty()
    };
    let later = slot_assignments(options, index, from + 1, occupied, chosen);
    assert(slot_assignments(options, index, from, occupied, chosen) == with_p + later);
    if from == at {
        let tail = picks.skip(1);
        assert(p.on_board());
        assert(fits(occupied, picks[0]));
        assert forall|k: int| 0 <= k < tail.len() implies options[index + 1 + k].contains(
            #[trigger] tail[k],
        ) by {
            assert(tail[k] == picks[k + 1]);
            assert(options[index + (k + 1)].contains(picks[k + 1]));
        }
        assert forall|k: int| 0 <= k < tail.len() implies fits(
            mark(occupied, p),
            #[trigger] tail[k],
        ) by {
            assert(tail[k] == picks[k + 1]);
            let slot = options[index + 1 + k];
            let w = choose|w: int| 0 <= w < slot.len() && slot[w] == tail[k];
            assert(slot[w].on_board());
            assert(!overlap(picks[0], picks[k + 1]));
            lemma_marked(occupied, p, tail[k]);
        }
        assert forall|x: int, y: int| 0 <= x < y < tail.len() implies !overlap(
            #[trigger] tail[x],
            #[trigger] tail[y],
        ) by {
            assert(tail[x] == picks[x + 1]);
            assert(tail[y] == picks[y + 1]);
        }
        lemma_marked(occupied, p, p);
        lemma_assignment_complete(options, index + 1, mark(occupied, p), chosen.push(p), tail);
        assert(chosen.push(p) + tail =~= chosen + picks);
    } else {
        lemma_slot_complete(options, index, from + 1, at, occupied, chosen, picks);
    }
}

/// In an assignment that the search reaches from an empty board, no square is
/// used twice: the squares of its pairs, two for each pair, are all
/// different.
pub proof fn lemma_assignment_squares_distinct(options: Seq<Seq<Placement>>, a: Seq<Placement>)
    requires
        proper(options),
        assignments(options, 0, all_free(), Seq::empty()).contains(a),
    ensures
        a.len() == options.len(),
        squares(a).no_duplicates(),
{
    assert(options_on_board(options)) by {
        assert forall|i: int| 0 <= i < options.len() implies all_on_board(
            #[trigger] options[i],
        ) by {
            assert forall|j: int| 0 <= j < options[i].len() implies (
            #[trigger] options[i][j]).on_board() by {}
        }
    }
    lemma_assignment_sound(options, 0, all_free(), Seq::empty(), a);
    assert(a.skip(0) =~= a);
    let sq = squares(a);
    assert forall|x: int, y: int| 0 <= x < sq.len() && 0 <= y < sq.len() && x != y implies sq[x]
        != sq[y] by {
        let i = x / 2;
        let j = y / 2;
        assert(options[0 + i].contains(a[i]));
        let slot = options[i];
        let w = choose|w: int| 0 <= w < slot.len() && slot[w] == a[i];
        assert(options[i][w].white_square() != options[i][w].black_square());
        if i < j {
            assert(!overlap(a[i], a[j]));
        } else if j < i {
            assert(!overlap(a[j], a[i]));
        }
    }
}

/// A record is emitted exactly for the critical boards among the
/// assignments.
pub proof fn lemma_records_contain(found: Seq<Seq<Placement>>, s: Seq<char>)
    ensures
        records(found).contains(s) <==> exists|a: Seq<Placement>|
            #[trigger] found.contains(a) && qualifies(board_of(a)) && s == fen_of(board_of(a)),
{
    let kept = found.filter(critical());
    if records(found).contains(s) {
        let i = choose|i: int| 0 <= i < records(found).len() && records(found)[i] == s;
        let a = kept[i];
        found.lemma_filter_pred(critical(), i);
        assert(kept.contains(a));
        found.lemma_filter_contains_rev(critical(), a);
        assert(found.contains(a) && qualifies(board_of(a)) && s == fen_of(board_of(a)));
    }
    if exists|a: Seq<Placement>|
        #[trigger] found.contains(a) && qualifies(board_of(a)) && s == fen_of(board_of(a)) {
        let a = choose|a: Seq<Placement>|
            #[trigger] found.contains(a) && qualifies(board_of(a)) && s == fen_of(board_of(a));
        let i = choose|i: int| 0 <= i < found.len() && found[i] == a;
        assert(critical()(found[i]));
        found.lemma_filter_contains(critical(), i);
        let k = choose|k: int| 0 <= k < kept.len() && kept[k] == a;
        assert(records(found)[k] == s);
    }
}

/// The search emits a record for a combination exactly when it is the record
/// of a critical board made of one mirrored pair for each type of the
/// combination, no two pairs sharing a square.
pub proof fn lemma_combination_records(combination: Seq<PieceType>, s: Seq<char>)
    ensures
        combination_records(combination).contains(s) <==> is_critical_record(combination, s),
{
    let opts = catalogs(combination);
    let reachable = assignments(opts, 0, all_free(), Seq::empty());
    assert forall|k: int| 0 <= k < opts.len() implies all_on_board(#[trigger] opts[k]) by {
        assert forall|j: int| 0 <= j < opts[k].len() implies (#[trigger] opts[k][j]).on_board() by {
            assert(opts[k].contains(opts[k][j]));
            lemma_catalog_holds_mirrored_pairs(combination[k], opts[k][j]);
        }
    }
    lemma_records_contain(reachable, s);
    if combination_records(combination).contains(s) {
        let a = choose|a: Seq<Placement>|
            #[trigger] reachable.contains(a) && qualifies(board_of(a)) && s == fen_of(board_of(a));
        lemma_assignment_sound(opts, 0, all_free(), Seq::empty(), a);
        assert(a.skip(0) =~= a);
        assert forall|k: int| 0 <= k < a.len() implies mirrored(combination[k], #[trigger] a[k]) by {
            assert(opts[0 + k].contains(a[k]));
            lemma_catalog_holds_mirrored_pairs(combination[k], a[k]);
        }
        assert(is_selection(combination, a));
    }
    if is_critical_record(combination, s) {
        let picks = choose|picks: Seq<Placement>|
            #[trigger] is_selection(combination, picks) && qualifies(board_of(picks)) && s
                == fen_of(board_of(picks));
        assert forall|k: int| 0 <= k < picks.len() implies opts[0 + k].contains(
            #[trigger] picks[k],
        ) by {
            assert(mirrored(combination[k], picks[k]));
            lemma_catalog_holds_mirrored_pairs(combination[k], picks[k]);
        }
        assert forall|k: int| 0 <= k < picks.len() implies fits(all_free(), #[trigger] picks[k]) by {
            assert(mirrored(combination[k], picks[k]));
        }
        lemma_assignment_complete(opts, 0, all_free(), Seq::empty(), picks);
        assert(Seq::<Placement>::empty() + picks =~= picks);
        assert(reachable.contains(picks));
    }
}

/// The catalogs of a combination hold only pairs that lie on the board and
/// whose two pieces stand on different squares.
pub proof fn lemma_catalogs_proper(combination: Seq<PieceType>)
    ensures
        proper(catalogs(combination)),
{
    let opts = catalogs(combination);
    assert forall|i: int, j: int| 0 <= i < opts.len() && 0 <= j < opts[i].len() implies (
    #[trigger] opts[i][j]).on_board() && opts[i][j].white_square() != opts[i][j].black_square() by {
        assert(opts[i].contains(opts[i][j]));
        lemma_catalog_holds_mirrored_pairs(combination[i], opts[i][j]);
    }
}

/// Every board that the search for a combination completes, before any
/// filter is applied, uses no square twice: it takes one pair for each type,
/// and the squares of these pairs, two for each pair, are all different.
pub proof fn lemma_completed_boards_use_no_square_twice(
    combination: Seq<PieceType>,
    a: Seq<Placement>,
)
    requires
        assignments(catalogs(combination), 0, all_free(), Seq::empty()).contains(a),
    ensures
        a.len() == combination.len(),
        squares(a).no_duplicates(),
{
    lemma_catalogs_proper(combination);
    lemma_assignment_squares_distinct(catalogs(combination), a);
}

proof fn lemma_emitted_record_is_critical(combination: Seq<PieceType>, s: Seq<char>)
    requires
        combination_records(combination).contains(s),
    ensures
        decode_fen(s) is Some,
        fen_of(decode_fen(s)->0) == s,
        qualifies(decode_fen(s)->0),
{
    lemma_combination_records(combination, s);
    let picks = choose|picks: Seq<Placement>|
        #[trigger] is_selection(combination, picks) && qualifies(board_of(picks)) && s == fen_of(
            board_of(picks),
        );
    assert forall|i: int| 0 <= i < picks.len() implies (#[trigger] picks[i]).on_board() by {
        assert(mirrored(combination[i], picks[i]));
    }
    lemma_board_of_len(picks);
    lemma_fen_round_trip(board_of(picks));
}

/// Every record that the search emits for a combination reads back as a
/// board, and that board is written as the same record.
pub proof fn lemma_emitted_record_reads_back(combination: Seq<PieceType>, s: Seq<char>)
    requires
        combination_records(combination).contains(s),
    ensures
        decode_fen(s) is Some,
        fen_of(decode_fen(s)->0) == s,
{
    lemma_emitted_record_is_critical(combination, s);
}

/// Every board that the search emits for a combination holds exactly one
/// black king.
pub proof fn lemma_emitted_board_has_one_black_king(combination: Seq<PieceType>, s: Seq<char>)
    requires
        combination_records(combination).contains(s),
    ensures
        decode_fen(s) is Some,
        count_of(decode_fen(s)->0, king_of(Color::Black), 64) == 1,
{
    lemma_emitted_record_is_critical(combination, s);
}

/// On every board that the search emits for a combination no piece is
/// attacked by a piece of the other side: the attack filter, run again on
/// the board, finds nothing.
pub proof fn lemma_emitted_board_has_no_attack(combination: Seq<PieceType>, s: Seq<char>)
    requires
        combination_records(combination).contains(s),
    ensures
        decode_fen(s) is Some,
        !any_piece_attacked(decode_fen(s)->0),
{
    lemma_emitted_record_is_critical(combination, s);
}

/// Every board that the search emits for a combination passes all five
/// filters.
pub proof fn lemma_emitted_board_is_critical(combination: Seq<PieceType>, s: Seq<char>)
    requires
        combination_records(combination).contains(s),
    ensures
        decode_fen(s) is Some,
        qualifies(decode_fen(s)->0),
{
    lemma_emitted_record_is_critical(combination, s);
}

/// Runs the search for one combination of piece types: builds the catalog of
/// mirrored pairs of each type and returns the records of the critical boards
/// that take one pair from each catalog, in the order in which the search
/// finds them.
pub fn process_combination(combination: &[PieceType]) -> (found: Vec<String>)
    ensures
        texts(found@) == combination_records(combination@),
        forall|s: Seq<char>| texts(found@).contains(s) <==> is_critical_record(combination@, s),
{
    let mut options: Vec<Vec<Placement>> = Vec::new();
    let n = combination.len();
    let mut i: usize = 0;
    while i < n
        invariant
            i <= n,
            n == combination@.len(),
            options@.len() == i,
            forall|k: int| 0 <= k < i ==> (#[trigger] options@[k])@ == catalog(combination@[k]),
        decreases n - i,
    {
        let placements = generate_placements(combination[i]);
        options.push(placements);
        i = i + 1;
    }
    let mut occupied: [bool; 64] = [false; 64];
    let mut current: Vec<Placement> = Vec::new();
    let mut found: Vec<String> = Vec::new();
    let ghost opts = lists(options@);
    proof {
        assert(occupied@ =~= all_free());
        assert(opts =~= catalogs(combination@));
        assert forall|k: int| 0 <= k < opts.len() implies all_on_board(#[trigger] opts[k]) by {
            assert forall|j: int| 0 <= j < opts[k].len() implies (#[trigger] opts[k][j]).on_board() by {
                assert(opts[k].contains(opts[k][j]));
                lemma_catalog_holds_mirrored_pairs(combination@[k], opts[k][j]);
            }
        }
    }
    search(0, &options, &mut occupied, &mut current, &mut found);
    proof {
        assert(texts(found@) =~= combination_records(combination@));
        assert forall|s: Seq<char>| texts(found@).contains(s) <==> is_critical_record(
            combination@,
            s,
        ) by {
            lemma_combination_records(combination@, s);
        }
    }
    found
}

} // verus!
