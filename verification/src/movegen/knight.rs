//! Knight attacks and knight move generation.
use vstd::prelude::*;
use crate::board::bitboard::in_bb;
use crate::geometry::knight_step;
use crate::board::bitboard::{pop_lsb, group_bitboard, lemma_zero_iff_empty};
use crate::board::board::Board;
use crate::board::piece::{Color, PieceType};
use crate::board::moves::Move;
use crate::movegen::GenType;
use crate::movegen::move_list::{MoveList, extends, added_satisfy, added_distinct, lemma_distinct_join, lemma_extends_trans};
use crate::movegen::targets::{push_targets, targets_move};
use crate::movegen::rules::{knight_move, gen_target, plain_flag};

verus! {

/// Sets up the knight attack sets. They are computed on demand, so there is nothing to
/// prepare.
pub fn init_knight_attacks() {
}

broadcast use group_bitboard, crate::board::moves::lemma_move_fields_range;

/// The knight attack mask of a bitboard, by shifts with wrap-around masks.
pub open spec fn knight_mask_bits(bb: u64) -> u64 {
    ((bb << 17u64) & 0xfefefefefefefefeu64) | ((bb << 15u64) & 0x7f7f7f7f7f7f7f7fu64) | ((bb
        << 10u64) & 0xfcfcfcfcfcfcfcfcu64) | ((bb << 6u64) & 0x3f3f3f3f3f3f3f3fu64) | ((bb >> 17u64)
        & 0x7f7f7f7f7f7f7f7fu64) | ((bb >> 15u64) & 0xfefefefefefefefeu64) | ((bb >> 10u64)
        & 0x3f3f3f3f3f3f3f3fu64) | ((bb >> 6u64) & 0xfcfcfcfcfcfcfcfcu64)
}

proof fn lemma_knight_mask(sq: u64, t: u64)
    requires
        sq < 64,
        t < 64,
    ensures
        ((knight_mask_bits(1u64 << sq) >> t) & 1u64 == 1u64) <==> ({
            let df = if sq % 8 >= t % 8 { sq % 8 - t % 8 } else { t % 8 - sq % 8 };
            let dr = if sq / 8 >= t / 8 { sq / 8 - t / 8 } else { t / 8 - sq / 8 };
            (df == 1 && dr == 2) || (df == 2 && dr == 1)
        }),
{
    assert(((knight_mask_bits(1u64 << sq) >> t) & 1u64 == 1u64) <==> ({
        let df = if sq % 8 >= t % 8 { sq % 8 - t % 8 } else { t % 8 - sq % 8 };
        let dr = if sq / 8 >= t / 8 { sq / 8 - t / 8 } else { t / 8 - sq / 8 };
        (df == 1 && dr == 2) || (df == 2 && dr == 1)
    })) by (bit_vector)
        requires
            sq < 64,
            t < 64,
    ;
}

/// The squares attacked by a knight on `square`.
pub fn mask_knight_attacks(square: u8) -> (r: u64)
    requires
        square < 64,
    ensures
        r == knight_mask_bits(1u64 << square),
        forall|s: int| #[trigger] in_bb(r, s) <==> knight_step(square as int, s),
{
    let bb: u64 = 1u64 << square;
    // Shifts by 17, 15, 10 and 6 in both directions, masking off the files
    // that a jump from the other edge of the board would wrap onto.
    let attacks: u64 = ((bb << 17) & 0xfefefefefefefefe) | ((bb << 15) & 0x7f7f7f7f7f7f7f7f) | ((bb
        << 10) & 0xfcfcfcfcfcfcfcfc) | ((bb << 6) & 0x3f3f3f3f3f3f3f3f) | ((bb >> 17)
        & 0x7f7f7f7f7f7f7f7f) | ((bb >> 15) & 0xfefefefefefefefe) | ((bb >> 10) & 0x3f3f3f3f3f3f3f3f)
        | ((bb >> 6) & 0xfcfcfcfcfcfcfcfc);
    proof {
        assert forall|s: int| #[trigger] in_bb(attacks, s) <==> knight_step(square as int, s) by {
            if 0 <= s < 64 {
                lemma_knight_mask(square as u64, s as u64);
            }
        }
    }
    attacks
}

/// The squares attacked by a knight on `square`.
pub fn get_knight_attacks(square: u8) -> (r: u64)
    requires
        square < 64,
    ensures
        forall|s: int| #[trigger] in_bb(r, s) <==> knight_step(square as int, s),
{
    mask_knight_attacks(square)
}

/// Generates the knight moves of the side to move.
pub fn generate_knight_moves(board: &Board, moves: &mut MoveList, gen_type: GenType)
    requires
        board.wf(),
    ensures
        extends(old(moves)@, final(moves)@),
        added_satisfy(old(moves)@, final(moves)@, |m: Move| knight_move(*board, m, gen_type)),
        final(moves)@.len() < 256 ==> forall|m: Move| #[trigger] knight_move(*board, m, gen_type) ==> final(moves)@.contains(m),
        final(moves)@.len() <= 256,
        added_distinct(old(moves)@, final(moves)@),
{
    proof {
        board.lemma_wf_bbs();
    }
    let ghost old_moves = moves@;
    let _ = moves.len();
    assert(old_moves.take(old_moves.len() as int) =~= old_moves);
    let side = board.side_to_move;
    let ci = side.idx();
    let own_occ = board.occupancy[ci];
    let enemy_occ = board.occupancy[side.opposite().idx()];
    assert(side == Color::from_idx(ci as int));
    assert(side.spec_opposite() == Color::from_idx(side.spec_opposite().spec_idx() as int));
    let all_knights = board.knights[ci];
    let mut knights = all_knights;
    assert forall|m: Move| #[trigger] knight_move(*board, m, gen_type) implies in_bb(all_knights, m.spec_from() as int) by {}
    while knights != 0
        invariant
            board.wf(),
            ci as int == board.side_to_move.spec_idx(),
            all_knights == board.knights[ci as int],
            own_occ == board.occupancy[ci as int],
            enemy_occ == board.occupancy[board.side_to_move.spec_opposite().spec_idx() as int],
            forall|s: int| #[trigger] in_bb(knights, s) ==> in_bb(all_knights, s),
            extends(old_moves, moves@),
            moves@.len() <= 256,
            added_satisfy(old_moves, moves@, |m: Move| knight_move(*board, m, gen_type)),
            moves@.len() < 256 ==> forall|m: Move| #[trigger] knight_move(*board, m, gen_type)
                && !in_bb(knights, m.spec_from() as int) ==> moves@.contains(m),
            added_distinct(old_moves, moves@),
            forall|i: int| old_moves.len() <= i < moves@.len() ==> !in_bb(knights, #[trigger] moves@[i].spec_from() as int),
        decreases knights,
    {
        let ghost before = moves@;
        let ghost kn_before = knights;
        proof {
            board.lemma_wf_bbs();
        }
        assert(board.side_to_move == Color::from_idx(ci as int));
        assert(board.side_to_move.spec_opposite() == Color::from_idx(board.side_to_move.spec_opposite().spec_idx() as int));
        let from = pop_lsb(&mut knights);
        let attacks = get_knight_attacks(from);
        let filter: u64 = match gen_type {
            GenType::All => !0u64,
            GenType::Captures => enemy_occ,
            GenType::Quiets => !enemy_occ,
        };
        let bb = attacks & !own_occ & filter;
        assert forall|t: int| #[trigger] in_bb(bb, t) <==> knight_step(from as int, t) && gen_target(*board, t, gen_type) by {
            assert(in_bb(bb, t) <==> in_bb(attacks, t) && in_bb(!own_occ, t) && in_bb(filter, t));
            if 0 <= t < 64 {
                assert(in_bb(!0u64, t));
                assert(in_bb(own_occ, t) <==> board.colors[t] == board.side_to_move);
                assert(in_bb(enemy_occ, t) <==> board.colors[t] == board.side_to_move.spec_opposite());
            }
        }
        push_targets(moves, from, bb, enemy_occ);
        proof {
            lemma_distinct_join(old_moves, before, moves@, |m: Move| !in_bb(kn_before, m.spec_from() as int),
                |m: Move| targets_move(from as int, bb, enemy_occ, m));
            assert forall|i: int| old_moves.len() <= i < moves@.len() implies !in_bb(knights, #[trigger] moves@[i].spec_from() as int) by {
                if i < before.len() {
                    assert(moves@[i] == moves@.take(before.len() as int)[i]);
                    assert(!in_bb(kn_before, before[i].spec_from() as int));
                } else {
                    assert(targets_move(from as int, bb, enemy_occ, moves@[i]));
                }
            }
            assert(in_bb(all_knights, from as int));
            assert forall|m: Move| #[trigger] targets_move(from as int, bb, enemy_occ, m) implies knight_move(*board, m, gen_type) by {
                let t = m.spec_to() as int;
                assert(in_bb(enemy_occ, t) <==> board.colors[t] == board.side_to_move.spec_opposite());
            }
            lemma_extends_trans(old_moves, before, moves@, |m: Move| knight_move(*board, m, gen_type),
                |m: Move| targets_move(from as int, bb, enemy_occ, m));
            assert forall|m: Move| moves@.len() < 256 && #[trigger] knight_move(*board, m, gen_type)
                && !in_bb(knights, m.spec_from() as int) implies moves@.contains(m) by {
                if m.spec_from() == from {
                    let t = m.spec_to() as int;
                    assert(in_bb(enemy_occ, t) <==> board.colors[t] == board.side_to_move.spec_opposite());
                    assert(targets_move(from as int, bb, enemy_occ, m));
                } else {
                    assert(!in_bb(kn_before, m.spec_from() as int));
                    assert(before.contains(m));
                }
            }
        }
    }
    proof {
        lemma_zero_iff_empty(knights);
        assert forall|m: Move| moves@.len() < 256 && #[trigger] knight_move(*board, m, gen_type) implies moves@.contains(m) by {
            assert(!in_bb(knights, m.spec_from() as int));
        }
    }
}

} // verus!
