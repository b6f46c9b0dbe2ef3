//! Bishop, rook and queen move generation.
use vstd::prelude::*;
use crate::board::bitboard::{in_bb, pop_lsb, group_bitboard, lemma_zero_iff_empty};
use crate::board::board::Board;
use crate::board::piece::{Color, PieceType};
use crate::board::moves::Move;
use crate::magic::{get_bishop_attacks, get_rook_attacks, get_queen_attacks};
use crate::movegen::GenType;
use crate::movegen::move_list::{MoveList, extends, added_satisfy, added_distinct, lemma_distinct_join, lemma_extends_trans};
use crate::movegen::targets::{push_targets, targets_move};
use crate::movegen::rules::{slider_move, slider_kind_move, slider_kind_type, slider_kind_attack, gen_target};

verus! {

broadcast use group_bitboard, crate::board::moves::lemma_move_fields_range;

/// Generates the moves of the side's sliders of one kind (0 bishops,
/// 1 rooks, 2 queens).
fn generate_slider_kind(board: &Board, moves: &mut MoveList, gen_type: GenType, kind: u8)
    requires
        board.wf(),
        kind < 3,
    ensures
        extends(old(moves)@, final(moves)@),
        added_satisfy(old(moves)@, final(moves)@, |m: Move| slider_kind_move(*board, m, gen_type, kind as int)),
        final(moves)@.len() < 256 ==> forall|m: Move| #[trigger] slider_kind_move(*board, m, gen_type, kind as int) ==> final(moves)@.contains(m),
        final(moves)@.len() <= 256,
        added_distinct(old(moves)@, final(moves)@),
{
    proof {
        board.lemma_wf_bbs();
    }
    let ghost old_moves = moves@;
    let _ = moves.len();
    assert(old_moves.take(old_moves.len() as int) =~= old_moves);
    let side = board.side_to_move;
    let ci = side.idx();
    let own_occ = board.occupancy[ci];
    let enemy_occ = board.occupancy[side.opposite().idx()];
    let occ = board.all_occupancy;
    let all_pieces = if kind == 0 {
        board.bishops[ci]
    } else if kind == 1 {
        board.rooks[ci]
    } else {
        board.queens[ci]
    };
    assert forall|s: int| #[trigger] in_bb(all_pieces, s) <==> (0 <= s < 64
        && board.pieces[s] == slider_kind_type(kind as int) && board.colors[s] == board.side_to_move) by {}
    let mut pieces = all_pieces;
    while pieces != 0
        invariant
            board.wf(),
            kind < 3,
            ci as int == board.side_to_move.spec_idx(),
            own_occ == board.occupancy[ci as int],
            occ == board.all_occupancy,
            enemy_occ == board.occupancy[board.side_to_move.spec_opposite().spec_idx() as int],
            forall|s: int| #[trigger] in_bb(all_pieces, s) <==> (0 <= s < 64
                && board.pieces[s] == slider_kind_type(kind as int) && board.colors[s] == board.side_to_move),
            forall|s: int| #[trigger] in_bb(pieces, s) ==> in_bb(all_pieces, s),
            extends(old_moves, moves@),
            moves@.len() <= 256,
            added_satisfy(old_moves, moves@, |m: Move| slider_kind_move(*board, m, gen_type, kind as int)),
            moves@.len() < 256 ==> forall|m: Move| #[trigger] slider_kind_move(*board, m, gen_type, kind as int)
                && !in_bb(pieces, m.spec_from() as int) ==> moves@.contains(m),
            added_distinct(old_moves, moves@),
            forall|i: int| old_moves.len() <= i < moves@.len() ==> !in_bb(pieces, #[trigger] moves@[i].spec_from() as int),
        decreases pieces,
    {
        let ghost before = moves@;
        let ghost p_before = pieces;
        assert(board.side_to_move == Color::from_idx(ci as int));
        assert(board.side_to_move.spec_opposite() == Color::from_idx(board.side_to_move.spec_opposite().spec_idx() as int));
        let from = pop_lsb(&mut pieces);
        let attacks = if kind == 0 {
            get_bishop_attacks(from, occ)
        } else if kind == 1 {
            get_rook_attacks(from, occ)
        } else {
            get_queen_attacks(from, occ)
        };
        let filter: u64 = match gen_type {
            GenType::All => !0u64,
            GenType::Captures => enemy_occ,
            GenType::Quiets => !enemy_occ,
        };
        let bb = attacks & !own_occ & filter;
        assert forall|t: int| #[trigger] in_bb(bb, t) <==> slider_kind_attack(kind as int, from as int, occ, t) && gen_target(*board, t, gen_type) by {
            assert(in_bb(bb, t) <==> in_bb(attacks, t) && in_bb(!own_occ, t) && in_bb(filter, t));
            if 0 <= t < 64 {
                assert(in_bb(!0u64, t));
                assert(in_bb(own_occ, t) <==> board.colors[t] == board.side_to_move);
                assert(in_bb(enemy_occ, t) <==> board.colors[t] == board.side_to_move.spec_opposite());
            }
        }
        push_targets(moves, from, bb, enemy_occ);
        proof {
            lemma_distinct_join(old_moves, before, moves@, |m: Move| !in_bb(p_before, m.spec_from() as int),
                |m: Move| targets_move(from as int, bb, enemy_occ, m));
            assert forall|i: int| old_moves.len() <= i < moves@.len() implies !in_bb(pieces, #[trigger] moves@[i].spec_from() as int) by {
                if i < before.len() {
                    assert(moves@[i] == moves@.take(before.len() as int)[i]);
                    assert(!in_bb(p_before, before[i].spec_from() as int));
                } else {
                    assert(targets_move(from as int, bb, enemy_occ, moves@[i]));
                }
            }
            assert(in_bb(all_pieces, from as int));
            assert forall|m: Move| #[trigger] targets_move(from as int, bb, enemy_occ, m) implies slider_kind_move(*board, m, gen_type, kind as int) by {
                let t = m.spec_to() as int;
                assert(in_bb(enemy_occ, t) <==> board.colors[t] == board.side_to_move.spec_opposite());
            }
            lemma_extends_trans(old_moves, before, moves@, |m: Move| slider_kind_move(*board, m, gen_type, kind as int),
                |m: Move| targets_move(from as int, bb, enemy_occ, m));
            assert forall|m: Move| moves@.len() < 256 && #[trigger] slider_kind_move(*board, m, gen_type, kind as int)
                && !in_bb(pieces, m.spec_from() as int) implies moves@.contains(m) by {
                if m.spec_from() == from {
                    let t = m.spec_to() as int;
                    assert(in_bb(enemy_occ, t) <==> board.colors[t] == board.side_to_move.spec_opposite());
                    assert(targets_move(from as int, bb, enemy_occ, m));
                } else {
                    assert(in_bb(all_pieces, m.spec_from() as int));
                    assert(!in_bb(p_before, m.spec_from() as int));
                    assert(before.contains(m));
                }
            }
        }
    }
    proof {
        lemma_zero_iff_empty(pieces);
        assert forall|m: Move| moves@.len() < 256 && #[trigger] slider_kind_move(*board, m, gen_type, kind as int) implies moves@.contains(m) by {
            assert(!in_bb(pieces, m.spec_from() as int));
        }
    }
}

/// Generates the bishop, rook and queen moves of the side to move.
pub fn generate_sliding_moves(board: &Board, moves: &mut MoveList, gen_type: GenType)
    requires
        board.wf(),
    ensures
        extends(old(moves)@, final(moves)@),
        added_satisfy(old(moves)@, final(moves)@, |m: Move| slider_move(*board, m, gen_type)),
        final(moves)@.len() < 256 ==> forall|m: Move| #[trigger] slider_move(*board, m, gen_type) ==> final(moves)@.contains(m),
        final(moves)@.len() <= 256,
        added_distinct(old(moves)@, final(moves)@),
{
    let ghost m0 = moves@;
    let _ = moves.len();
    assert(m0.take(m0.len() as int) =~= m0);
    assert(added_satisfy(m0, m0, |m: Move| slider_move(*board, m, gen_type)));
    generate_slider_kind(board, moves, gen_type, 0);
    let ghost m1 = moves@;
    proof {
        lemma_extends_trans(m0, m0, m1, |m: Move| slider_move(*board, m, gen_type),
            |m: Move| slider_kind_move(*board, m, gen_type, 0));
    }
    generate_slider_kind(board, moves, gen_type, 1);
    let ghost m2 = moves@;
    proof {
        lemma_extends_trans(m0, m1, m2, |m: Move| slider_move(*board, m, gen_type),
            |m: Move| slider_kind_move(*board, m, gen_type, 1));
    }
    generate_slider_kind(board, moves, gen_type, 2);
    proof {
        lemma_extends_trans(m0, m2, moves@, |m: Move| slider_move(*board, m, gen_type),
            |m: Move| slider_kind_move(*board, m, gen_type, 2));
        lemma_extends_trans(m1, m2, moves@, |m: Move| true, |m: Move| slider_kind_move(*board, m, gen_type, 2));
        let k0 = |m: Move| slider_kind_move(*board, m, gen_type, 0);
        let k1 = |m: Move| slider_kind_move(*board, m, gen_type, 1);
        let k01 = |m: Move| board.pieces[m.spec_from() as int] == PieceType::Bishop || board.pieces[m.spec_from() as int]
            == PieceType::Rook;
        lemma_extends_trans(m0, m1, m2, k01, k1);
        assert(added_satisfy(m0, m1, k01));
        lemma_distinct_join(m0, m1, m2, k0, k1);
        lemma_extends_trans(m0, m1, m2, k01, k1);
        lemma_distinct_join(m0, m2, moves@, k01, |m: Move| slider_kind_move(*board, m, gen_type, 2));
        assert forall|m: Move| moves@.len() < 256 && #[trigger] slider_move(*board, m, gen_type) implies moves@.contains(m) by {
            let pt = board.pieces[m.spec_from() as int];
            if pt == PieceType::Bishop {
                assert(slider_kind_move(*board, m, gen_type, 0));
                assert(m1.contains(m));
            } else if pt == PieceType::Rook {
                assert(slider_kind_move(*board, m, gen_type, 1));
                assert(m2.contains(m));
            } else {
                assert(slider_kind_move(*board, m, gen_type, 2));
            }
        }
    }
}

} // verus!
