//! King attacks, king moves and castling.
use vstd::prelude::*;
use crate::board::bitboard::in_bb;
use crate::geometry::king_step;
use crate::board::bitboard::{bit, group_bitboard, lemma_lsb, intersects, lemma_zero_iff_empty};
use crate::board::board::Board;
use crate::board::castling;
use crate::board::piece::{Color, PieceType};
use crate::board::moves::{Move, flags, lemma_pack_fields};
use crate::movegen::GenType;
use crate::movegen::move_list::{MoveList, extends, added_satisfy, added_distinct, lemma_distinct_join, lemma_extends_trans, push_if};
use crate::movegen::targets::{push_targets, targets_move};
use crate::movegen::rules::{king_move, castle_move, king_gen_move, gen_target};

verus! {

/// Sets up the king attack sets. They are computed on demand, so there is nothing to
/// prepare.
pub fn init_king_attacks() {
}

broadcast use group_bitboard, crate::board::moves::lemma_move_fields_range;

/// The king attack mask of a bitboard, by shifts with wrap-around masks.
pub open spec fn king_mask_bits(bb: u64) -> u64 {
    (bb << 8u64) | (bb >> 8u64) | ((bb << 1u64) & 0xfefefefefefefefeu64) | ((bb >> 1u64)
        & 0x7f7f7f7f7f7f7f7fu64) | ((bb << 7u64) & 0x7f7f7f7f7f7f7f7fu64) | ((bb << 9u64)
        & 0xfefefefefefefefeu64) | ((bb >> 7u64) & 0xfefefefefefefefeu64) | ((bb >> 9u64)
        & 0x7f7f7f7f7f7f7f7fu64)
}

proof fn lemma_king_mask(sq: u64, t: u64)
    requires
        sq < 64,
        t < 64,
    ensures
        ((king_mask_bits(1u64 << sq) >> t) & 1u64 == 1u64) <==> ({
            let df = if sq % 8 >= t % 8 { sq % 8 - t % 8 } else { t % 8 - sq % 8 };
            let dr = if sq / 8 >= t / 8 { sq / 8 - t / 8 } else { t / 8 - sq / 8 };
            df <= 1 && dr <= 1 && !(df == 0 && dr == 0)
        }),
{
    assert(((king_mask_bits(1u64 << sq) >> t) & 1u64 == 1u64) <==> ({
        let df = if sq % 8 >= t % 8 { sq % 8 - t % 8 } else { t % 8 - sq % 8 };
        let dr = if sq / 8 >= t / 8 { sq / 8 - t / 8 } else { t / 8 - sq / 8 };
        df <= 1 && dr <= 1 && !(df == 0 && dr == 0)
    })) by (bit_vector)
        requires
            sq < 64,
            t < 64,
    ;
}

/// The squares attacked by a king on `square`.
pub fn mask_king_attacks(square: u8) -> (r: u64)
    requires
        square < 64,
    ensures
        forall|s: int| #[trigger] in_bb(r, s) <==> king_step(square as int, s),
{
    let bb: u64 = 1u64 << square;
    let attacks: u64 = (bb << 8) | (bb >> 8) | ((bb << 1) & 0xfefefefefefefefe) | ((bb >> 1)
        & 0x7f7f7f7f7f7f7f7f) | ((bb << 7) & 0x7f7f7f7f7f7f7f7f) | ((bb << 9) & 0xfefefefefefefefe)
        | ((bb >> 7) & 0xfefefefefefefefe) | ((bb >> 9) & 0x7f7f7f7f7f7f7f7f);
    proof {
        assert forall|s: int| #[trigger] in_bb(attacks, s) <==> king_step(square as int, s) by {
            if 0 <= s < 64 {
                lemma_king_mask(square as u64, s as u64);
            }
        }
    }
    attacks
}

/// The squares attacked by a king on `square`.
pub fn get_king_attacks(square: u8) -> (r: u64)
    requires
        square < 64,
    ensures
        forall|s: int| #[trigger] in_bb(r, s) <==> king_step(square as int, s),
{
    mask_king_attacks(square)
}

/// Whether none of the squares `a`, `b`, `c` is attacked by `by`.
fn safe3(board: &Board, a: u8, b: u8, c: u8, by: Color) -> (r: bool)
    requires
        board.wf(),
        a < 64,
        b < 64,
        c < 64,
        by != Color::NoColor,
    ensures
        r == (!board.attacked_with_occ(a as int, by, board.all_occupancy)
            && !board.attacked_with_occ(b as int, by, board.all_occupancy)
            && !board.attacked_with_occ(c as int, by, board.all_occupancy)),
{
    !board.is_square_attacked(a, by) && !board.is_square_attacked(b, by) && !board.is_square_attacked(c, by)
}

/// Generates the castling moves of the side to move.
fn generate_castling_moves(board: &Board, moves: &mut MoveList)
    requires
        board.wf(),
    ensures
        extends(old(moves)@, final(moves)@),
        added_satisfy(old(moves)@, final(moves)@, |m: Move| castle_move(*board, m)),
        final(moves)@.len() < 256 ==> forall|m: Move| #[trigger] castle_move(*board, m) ==> final(moves)@.contains(m),
        final(moves)@.len() <= 256,
        added_distinct(old(moves)@, final(moves)@),
        forall|i: int| old(moves)@.len() <= i < final(moves)@.len() ==> (#[trigger] final(moves)@[i]).spec_flags()
            == flags::KING_CASTLE || final(moves)@[i].spec_flags() == flags::QUEEN_CASTLE,
{
    let side = board.side_to_move;
    let occ = board.all_occupancy;
    let cr = board.castling_rights;
    let ghost m0 = moves@;
    let _ = moves.len();
    assert(m0.take(m0.len() as int) =~= m0);
    let (k_from, k_to, q_to, k_right, q_right, enemy) = if side == Color::White {
        (4u8, 6u8, 2u8, castling::WHITE_KING, castling::WHITE_QUEEN, Color::Black)
    } else {
        (60u8, 62u8, 58u8, castling::BLACK_KING, castling::BLACK_QUEEN, Color::White)
    };
    // King side: the two squares towards the rook are empty and not attacked.
    let k_cond = (cr & k_right) != 0 && !intersects(occ, bit(k_from + 1) | bit(k_from + 2))
        && safe3(board, k_from, k_from + 1, k_from + 2, enemy);
    let km = Move::new(k_from, k_to, flags::KING_CASTLE);
    push_if(moves, k_cond, km);
    let ghost m1 = moves@;
    // Queen side: the three squares towards the rook are empty, the king's
    // start, passage and target squares not attacked.
    let q_cond = (cr & q_right) != 0 && !intersects(occ, bit(k_from - 3) | bit(k_from - 2) | bit(k_from - 1))
        && safe3(board, k_from, k_from - 1, k_from - 2, enemy);
    let qm = Move::new(k_from, q_to, flags::QUEEN_CASTLE);
    push_if(moves, q_cond, qm);
    proof {
        assert(k_cond ==> castle_move(*board, km));
        assert(q_cond ==> castle_move(*board, qm));
        lemma_extends_trans(m0, m0, m1, |m: Move| castle_move(*board, m), |m: Move| k_cond && m == km);
        lemma_extends_trans(m0, m1, moves@, |m: Move| castle_move(*board, m), |m: Move| q_cond && m == qm);
        assert(km.spec_to() != qm.spec_to());
        lemma_distinct_join(m0, m1, moves@, |m: Move| k_cond && m == km, |m: Move| q_cond && m == qm);
        lemma_extends_trans(m0, m1, moves@, |m: Move| m == km || m == qm, |m: Move| q_cond && m == qm);
        assert forall|i: int| m0.len() <= i < moves@.len() implies (#[trigger] moves@[i]).spec_flags()
            == flags::KING_CASTLE || moves@[i].spec_flags() == flags::QUEEN_CASTLE by {
            assert(moves@[i] == km || moves@[i] == qm);
        }
        assert forall|m: Move| moves@.len() < 256 && #[trigger] castle_move(*board, m) implies moves@.contains(m) by {
            lemma_pack_fields(m);
            if m.spec_to() == k_to {
                Move::lemma_raw_injective(m, km);
                assert(k_cond);
            } else {
                Move::lemma_raw_injective(m, qm);
                assert(q_cond);
            }
        }
    }
}

/// Generates the king moves of the side to move, castling included except
/// for capture generation.
pub fn generate_king_moves(board: &Board, moves: &mut MoveList, gen_type: GenType)
    requires
        board.wf(),
    ensures
        extends(old(moves)@, final(moves)@),
        added_satisfy(old(moves)@, final(moves)@, |m: Move| king_gen_move(*board, m, gen_type)),
        final(moves)@.len() < 256 ==> forall|m: Move| #[trigger] king_gen_move(*board, m, gen_type) ==> final(moves)@.contains(m),
        final(moves)@.len() <= 256,
        added_distinct(old(moves)@, final(moves)@),
{
    proof {
        board.lemma_wf_bbs();
    }
    let ghost m0 = moves@;
    let _ = moves.len();
    assert(m0.take(m0.len() as int) =~= m0);
    let side = board.side_to_move;
    let ci = side.idx();
    let own_occ = board.occupancy[ci];
    let enemy_occ = board.occupancy[side.opposite().idx()];
    assert(side == Color::from_idx(ci as int));
    assert(side.spec_opposite() == Color::from_idx(side.spec_opposite().spec_idx() as int));
    let king_bb = board.kings[ci];
    if king_bb == 0 {
        return;
    }
    proof {
        lemma_lsb(king_bb);
    }
    let from = king_bb.trailing_zeros() as u8;
    let attacks = get_king_attacks(from);
    let filter: u64 = match gen_type {
        GenType::All => !0u64,
        GenType::Captures => enemy_occ,
        GenType::Quiets => !enemy_occ,
    };
    let bb = attacks & !own_occ & filter;
    assert forall|t: int| #[trigger] in_bb(bb, t) <==> king_step(from as int, t) && gen_target(*board, t, gen_type) by {
        assert(in_bb(bb, t) <==> in_bb(attacks, t) && in_bb(!own_occ, t) && in_bb(filter, t));
        if 0 <= t < 64 {
            assert(in_bb(!0u64, t));
            assert(in_bb(own_occ, t) <==> board.colors[t] == board.side_to_move);
            assert(in_bb(enemy_occ, t) <==> board.colors[t] == board.side_to_move.spec_opposite());
        }
    }
    push_targets(moves, from, bb, enemy_occ);
    let ghost m1 = moves@;
    proof {
        assert forall|m: Move| #[trigger] targets_move(from as int, bb, enemy_occ, m) implies king_gen_move(*board, m, gen_type) by {
            let t = m.spec_to() as int;
            assert(in_bb(enemy_occ, t) <==> board.colors[t] == board.side_to_move.spec_opposite());
        }
        lemma_extends_trans(m0, m0, m1, |m: Move| king_gen_move(*board, m, gen_type),
            |m: Move| targets_move(from as int, bb, enemy_occ, m));
    }
    if gen_type != GenType::Captures {
        generate_castling_moves(board, moves);
        proof {
            lemma_extends_trans(m0, m1, moves@, |m: Move| king_gen_move(*board, m, gen_type),
                |m: Move| castle_move(*board, m));
            lemma_distinct_join(m0, m1, moves@, |m: Move| targets_move(from as int, bb, enemy_occ, m),
                |m: Move| m.spec_flags() == flags::KING_CASTLE || m.spec_flags() == flags::QUEEN_CASTLE);
        }
    }
    proof {
        assert forall|m: Move| moves@.len() < 256 && #[trigger] king_gen_move(*board, m, gen_type) implies moves@.contains(m) by {
            if king_move(*board, m, gen_type) {
                let t = m.spec_to() as int;
                assert(in_bb(enemy_occ, t) <==> board.colors[t] == board.side_to_move.spec_opposite());
                assert(targets_move(from as int, bb, enemy_occ, m));
                assert(m1.contains(m));
            }
        }
    }
}

} // verus!
