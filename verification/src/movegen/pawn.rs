//! Pawn attacks and pawn move generation.
use vstd::prelude::*;
use crate::board::bitboard::{in_bb, pop_lsb, bit, intersects, lemma_in_bb_shl, lemma_in_bb_shr, lemma_zero_iff_empty, lemma_masks, group_bitboard};
use crate::board::board::Board;
use crate::board::piece::Color;
use crate::board::moves::{Move, flags, lemma_pack_fields};
use crate::geometry::{pawn_step, file_of, rank_of};
use crate::movegen::GenType;
use crate::movegen::move_list::{MoveList, extends, added_satisfy, added_distinct, complete_for, lemma_push_contains, lemma_push_distinct, lemma_join_stage, lemma_added_weaken, lemma_stage, lemma_stage_covered};
use crate::movegen::rules::{ahead, own_pawn, empty_square, enemy_square, last_rank, start_rank, pawn_push, pawn_double, pawn_capture, pawn_en_passant, push_promotion_flag, capture_promotion_flag, pawn_gen_move};

verus! {

/// Sets up the pawn attack sets. They are computed on demand, so there is nothing to
/// prepare.
pub fn init_pawn_attacks() {
}

broadcast use group_bitboard, crate::board::moves::lemma_move_fields_range;

/// Pawn attack masks of a bitboard for each side.
pub open spec fn pawn_mask_bits(white: bool, b: u64) -> u64 {
    if white {
        ((b & !0x0101010101010101u64) << 7u64) | ((b & !0x8080808080808080u64) << 9u64)
    } else {
        ((b & !0x0101010101010101u64) >> 9u64) | ((b & !0x8080808080808080u64) >> 7u64)
    }
}

proof fn lemma_pawn_mask(white: bool, sq: u64, t: u64)
    requires
        sq < 64,
        t < 64,
    ensures
        ((pawn_mask_bits(white, 1u64 << sq) >> t) & 1u64 == 1u64) <==> ({
            let df = if sq % 8 >= t % 8 { sq % 8 - t % 8 } else { t % 8 - sq % 8 };
            df == 1 && (if white { t / 8 == sq / 8 + 1 } else { t / 8 + 1 == sq / 8 })
        }),
{
    assert(((pawn_mask_bits(white, 1u64 << sq) >> t) & 1u64 == 1u64) <==> ({
        let df = if sq % 8 >= t % 8 { sq % 8 - t % 8 } else { t % 8 - sq % 8 };
        df == 1 && (if white { t / 8 == sq / 8 + 1 } else { t / 8 + 1 == sq / 8 })
    })) by (bit_vector)
        requires
            sq < 64,
            t < 64,
    ;
}

/// The squares attacked by a pawn of `color` on `sq`; empty for `NoColor`.
pub fn get_pawn_attacks(sq: u8, color: Color) -> (r: u64)
    requires
        sq < 64,
    ensures
        forall|s: int| #[trigger]
            in_bb(r, s) <==> color != Color::NoColor && pawn_step(color == Color::White, sq as int, s),
{
    let b: u64 = 1u64 << sq;
    let r: u64 = match color {
        Color::White => ((b & !0x0101010101010101u64) << 7) | ((b & !0x8080808080808080u64) << 9),
        Color::Black => ((b & !0x0101010101010101u64) >> 9) | ((b & !0x8080808080808080u64) >> 7),
        Color::NoColor => 0,
    };
    proof {
        assert forall|s: int| #[trigger]
            in_bb(r, s) <==> color != Color::NoColor && pawn_step(color == Color::White, sq as int, s) by {
            if 0 <= s < 64 {
                if color == Color::NoColor {
                    crate::board::bitboard::lemma_in_bb_zero(s);
                } else {
                    lemma_pawn_mask(color == Color::White, sq as u64, s as u64);
                }
            }
        }
    }
    r
}

/// Shifts a bitboard `n` squares forward for the given side.
fn shift_forward(x: u64, white: bool, n: u64) -> (r: u64)
    requires
        n < 64,
    ensures
        forall|t: int| #[trigger] in_bb(r, t) <==> (0 <= t < 64 && in_bb(x, ahead(white, t, -n))),
{
    proof {
        broadcast use lemma_in_bb_shl, lemma_in_bb_shr;
    }
    if white {
        x << n
    } else {
        x >> n
    }
}

/// Shifts a bitboard `n` squares backward for the given side.
fn shift_backward(x: u64, white: bool, n: u64) -> (r: u64)
    requires
        n < 64,
    ensures
        forall|t: int| #[trigger] in_bb(r, t) <==> (0 <= t < 64 && in_bb(x, ahead(white, t, n as int))),
{
    proof {
        broadcast use lemma_in_bb_shl, lemma_in_bb_shr;
    }
    if white {
        x >> n
    } else {
        x << n
    }
}

/// A move to a square of `targets` from the square `d` behind it, with one
/// of the flags `fl`.
pub open spec fn shifted_move(targets: u64, white: bool, d: int, fl: Seq<u8>, m: Move) -> bool {
    let to = m.spec_to() as int;
    &&& in_bb(targets, to)
    &&& m.spec_from() as int == ahead(white, to, -d)
    &&& fl.contains(m.spec_flags())
}

/// For every square of `targets`, pushes one move per flag of `fl` (in
/// that order) from the square `d` behind it.
fn push_shifted(moves: &mut MoveList, targets: u64, white: bool, d: u8, fl: &[u8])
    requires
        d < 64,
        forall|k: int| 0 <= k < fl@.len() ==> fl@[k] < 16,
        forall|t: int| #[trigger] in_bb(targets, t) ==> 0 <= ahead(white, t, -d) < 64,
        fl@.no_duplicates(),
    ensures
        extends(old(moves)@, final(moves)@),
        added_satisfy(old(moves)@, final(moves)@, |m: Move| shifted_move(targets, white, d as int, fl@, m)),
        final(moves)@.len() < 256 ==> forall|m: Move| #[trigger] shifted_move(targets, white, d as int, fl@, m)
            ==> final(moves)@.contains(m),
        final(moves)@.len() <= 256,
        added_distinct(old(moves)@, final(moves)@),
{
    let ghost m0 = moves@;
    let _ = moves.len();
    assert(m0.take(m0.len() as int) =~= m0);
    let ghost q = |m: Move| shifted_move(targets, white, d as int, fl@, m);
    let mut bb = targets;
    while bb != 0
        invariant
            d < 64,
            forall|k: int| 0 <= k < fl@.len() ==> fl@[k] < 16,
            forall|t: int| #[trigger] in_bb(targets, t) ==> 0 <= ahead(white, t, -d) < 64,
            q == (|m: Move| shifted_move(targets, white, d as int, fl@, m)),
            forall|t: int| #[trigger] in_bb(bb, t) ==> in_bb(targets, t),
            extends(m0, moves@),
            moves@.len() <= 256,
            added_satisfy(m0, moves@, q),
            moves@.len() < 256 ==> forall|m: Move| #[trigger] q(m) && !in_bb(bb, m.spec_to() as int)
                ==> moves@.contains(m),
            fl@.no_duplicates(),
            added_distinct(m0, moves@),
            forall|i: int| m0.len() <= i < moves@.len() ==> !in_bb(bb, #[trigger] moves@[i].spec_to() as int),
        decreases bb,
    {
        let ghost bb_before = bb;
        let to = pop_lsb(&mut bb);
        assert(in_bb(targets, to as int));
        let from: u8 = if white { to - d } else { to + d };
        let mut j: usize = 0;
        while j < fl.len()
            invariant
                d < 64,
                forall|k: int| 0 <= k < fl@.len() ==> fl@[k] < 16,
                q == (|m: Move| shifted_move(targets, white, d as int, fl@, m)),
                to < 64,
                from < 64,
                from as int == ahead(white, to as int, -d),
                in_bb(targets, to as int),
                j <= fl@.len(),
                extends(m0, moves@),
                moves@.len() <= 256,
                added_satisfy(m0, moves@, q),
                moves@.len() < 256 ==> forall|m: Move| #[trigger] q(m) && !in_bb(bb_before, m.spec_to() as int)
                    ==> moves@.contains(m),
                moves@.len() < 256 ==> forall|m: Move| #[trigger] q(m) && m.spec_to() == to
                    && fl@.take(j as int).contains(m.spec_flags()) ==> moves@.contains(m),
                fl@.no_duplicates(),
                in_bb(bb_before, to as int),
                forall|t: int| #[trigger] in_bb(bb, t) <==> in_bb(bb_before, t) && t != to,
                added_distinct(m0, moves@),
                forall|i: int| m0.len() <= i < moves@.len() ==> !in_bb(bb_before, #[trigger] moves@[i].spec_to() as int)
                    || (moves@[i].spec_to() == to && exists|k: int| 0 <= k < j && fl@[k] == moves@[i].spec_flags()),
            decreases fl@.len() - j,
        {
            let ghost before = moves@;
            let f = fl[j];
            let mv = Move::new(from, to, f);
            moves.push(mv);
            proof {
                assert(mv.spec_to() == to && mv.spec_flags() == fl@[j as int]);
                assert forall|i: int| m0.len() <= i < before.len() implies #[trigger] before[i] != mv by {
                    if before[i] == mv {
                        if in_bb(bb_before, before[i].spec_to() as int) {
                            let k = choose|k: int| 0 <= k < j && fl@[k] == before[i].spec_flags();
                            assert(fl@[k] == fl@[j as int]);
                            assert(false);
                        }
                    }
                }
                lemma_push_distinct(m0, before, moves@, mv);
                assert forall|i: int| m0.len() <= i < moves@.len() implies !in_bb(bb_before, #[trigger] moves@[i].spec_to() as int)
                    || (moves@[i].spec_to() == to && exists|k: int| 0 <= k < j + 1 && fl@[k] == moves@[i].spec_flags()) by {
                    if i < before.len() {
                        assert(moves@[i] == before[i]);
                        if in_bb(bb_before, before[i].spec_to() as int) {
                            let k = choose|k: int| 0 <= k < j && fl@[k] == before[i].spec_flags();
                            assert(0 <= k < j + 1 && fl@[k] == moves@[i].spec_flags());
                        }
                    } else {
                        assert(moves@[i] == mv);
                        assert(fl@[j as int] == mv.spec_flags());
                    }
                }
                lemma_push_contains(before, moves@, mv);
                assert(fl@.contains(f)) by {
                    assert(fl@[j as int] == f);
                }
                assert(q(mv));
                assert(moves@.take(m0.len() as int) =~= m0) by {
                    assert(before.take(m0.len() as int) == m0);
                    if before.len() < 256 {
                        assert(moves@.take(m0.len() as int) =~= before.take(m0.len() as int));
                    }
                }
                assert forall|i: int| m0.len() <= i < moves@.len() implies q(#[trigger] moves@[i]) by {
                    if i < before.len() {
                        assert(moves@[i] == before[i]);
                    }
                }
                assert forall|m: Move| moves@.len() < 256 && #[trigger] q(m) && m.spec_to() == to
                    && fl@.take(j + 1).contains(m.spec_flags()) implies moves@.contains(m) by {
                    let k = choose|k: int| 0 <= k < j + 1 && #[trigger] fl@.take(j + 1)[k] == m.spec_flags();
                    if k < j {
                        assert(fl@.take(j as int)[k] == m.spec_flags());
                        assert(before.contains(m));
                    } else {
                        lemma_pack_fields(m);
                        Move::lemma_raw_injective(m, mv);
                    }
                }
            }
            j = j + 1;
        }
        proof {
            assert forall|i: int| m0.len() <= i < moves@.len() implies !in_bb(bb, #[trigger] moves@[i].spec_to() as int) by {
                if in_bb(bb_before, moves@[i].spec_to() as int) {
                    assert(moves@[i].spec_to() == to);
                }
            }
            assert(fl@.take(fl@.len() as int) =~= fl@);
            assert forall|m: Move| moves@.len() < 256 && #[trigger] q(m) && !in_bb(bb, m.spec_to() as int)
                implies moves@.contains(m) by {
                if m.spec_to() != to {
                    assert(!in_bb(bb_before, m.spec_to() as int));
                }
            }
        }
    }
    proof {
        lemma_zero_iff_empty(bb);
        assert forall|m: Move| moves@.len() < 256 && #[trigger] shifted_move(targets, white, d as int, fl@, m)
            implies moves@.contains(m) by {
            assert(q(m));
            assert(!in_bb(bb, m.spec_to() as int));
        }
    }
}

/// An en passant move to `to` from the square `d` behind it, when that
/// square is in `origins`.
pub open spec fn ep_from_move(origins: u64, to: int, white: bool, d: int, m: Move) -> bool {
    &&& m.spec_to() as int == to
    &&& m.spec_from() as int == ahead(white, to, -d)
    &&& in_bb(origins, ahead(white, to, -d))
    &&& m.spec_flags() == flags::EN_PASSANT
}

/// Pushes the en passant capture onto `to` from the square `d` behind it
/// when a pawn of `origins` stands there.
fn push_en_passant_from(moves: &mut MoveList, origins: u64, to: u8, white: bool, d: u8)
    requires
        to < 64,
        d < 64,
    ensures
        extends(old(moves)@, final(moves)@),
        added_satisfy(old(moves)@, final(moves)@, |m: Move| ep_from_move(origins, to as int, white, d as int, m)),
        complete_for(final(moves)@, |m: Move| ep_from_move(origins, to as int, white, d as int, m)),
        final(moves)@.len() <= 256,
        added_distinct(old(moves)@, final(moves)@),
{
    let ghost m0 = moves@;
    let _ = moves.len();
    assert(m0.take(m0.len() as int) =~= m0);
    let b = bit(to);
    let from_bb = shift_backward(b, white, d as u64);
    if intersects(from_bb, origins) {
        let ghost s = choose|a: int| #[trigger] in_bb(from_bb, a) && in_bb(origins, a);
        assert(ahead(white, s, d as int) == to);
        let from: u8 = if white { to - d } else { to + d };
        let mv = Move::new(from, to, flags::EN_PASSANT);
        moves.push(mv);
        proof {
            lemma_push_contains(m0, moves@, mv);
            assert forall|m: Move| moves@.len() < 256 && #[trigger] ep_from_move(origins, to as int, white, d as int, m)
                implies moves@.contains(m) by {
                lemma_pack_fields(m);
                Move::lemma_raw_injective(m, mv);
            }
            assert forall|i: int| m0.len() <= i < moves@.len() implies
                ep_from_move(origins, to as int, white, d as int, #[trigger] moves@[i]) by {
                assert(moves@[i] == mv);
            }
        }
    } else {
        proof {
            assert forall|m: Move| #[trigger] ep_from_move(origins, to as int, white, d as int, m) implies false by {
                assert(in_bb(from_bb, ahead(white, to as int, -d)));
            }
        }
    }
}

/// The index of the side's arrays: 0 for white, 1 for black.
pub open spec fn side_index(white: bool) -> int {
    if white {
        0
    } else {
        1
    }
}

/// The promotion rank of the side.
pub open spec fn last_mask(white: bool) -> u64 {
    if white {
        0xFF00000000000000u64
    } else {
        0x00000000000000FFu64
    }
}

/// The rank the side's pawns start on.
pub open spec fn start_mask(white: bool) -> u64 {
    if white {
        0x000000000000FF00u64
    } else {
        0x00FF000000000000u64
    }
}

/// The side's pawns, the empty squares and the enemy pieces, and the
/// members of the masks the generator uses.
proof fn lemma_side_sets(b: Board, white: bool)
    requires
        b.wf(),
        white == (b.side_to_move == Color::White),
    ensures
        forall|t: int| #![auto] in_bb(b.pawns[side_index(white)], t) <==> own_pawn(b, t),
        forall|t: int| #![auto] in_bb(!b.all_occupancy, t) <==> empty_square(b, t),
        forall|t: int| #![auto] in_bb(b.occupancy[side_index(!white)], t) <==> enemy_square(b, t),
        forall|t: int| #![auto] in_bb(last_mask(white), t) <==> (0 <= t < 64 && last_rank(white, t)),
        forall|t: int| #![auto] in_bb(start_mask(white), t) <==> (0 <= t < 64 && start_rank(white, t)),
        forall|t: int| #![auto] in_bb(0x0101010101010101u64, t) <==> (0 <= t < 64 && file_of(t) == 0),
        forall|t: int| #![auto] in_bb(0x8080808080808080u64, t) <==> (0 <= t < 64 && file_of(t) == 7),
{
    b.lemma_wf_bbs();
    assert(Color::from_idx(side_index(white)) == b.side_to_move);
    assert(Color::from_idx(side_index(!white)) == b.side_to_move.spec_opposite());
    assert forall|t: int| #![auto] in_bb(last_mask(white), t) <==> (0 <= t < 64 && last_rank(white, t)) by {
        lemma_masks(t);
    }
    assert forall|t: int| #![auto] in_bb(start_mask(white), t) <==> (0 <= t < 64 && start_rank(white, t)) by {
        lemma_masks(t);
    }
    assert forall|t: int| #![auto] in_bb(0x0101010101010101u64, t) <==> (0 <= t < 64 && file_of(t) == 0) by {
        lemma_masks(t);
    }
    assert forall|t: int| #![auto] in_bb(0x8080808080808080u64, t) <==> (0 <= t < 64 && file_of(t) == 7) by {
        lemma_masks(t);
    }
}

/// Single pushes (promotions excepted) and double pushes.
pub open spec fn push_stage_move(b: Board, gen: GenType, white: bool, m: Move) -> bool {
    let from = m.spec_from() as int;
    let to = m.spec_to() as int;
    let f = m.spec_flags();
    ||| gen != GenType::Captures && pawn_push(b, from, to) && !last_rank(white, to) && f == flags::QUIET
    ||| gen != GenType::Captures && pawn_double(b, from, to) && f == flags::DOUBLE_PAWN
}

/// Promotions by a push.
pub open spec fn promotion_stage_move(b: Board, gen: GenType, white: bool, m: Move) -> bool {
    let from = m.spec_from() as int;
    let to = m.spec_to() as int;
    pawn_push(b, from, to) && last_rank(white, to) && push_promotion_flag(m.spec_flags(), gen)
}

/// Captures, promotions included, towards the a-file (`left`) or the h-file.
pub open spec fn capture_stage_move(b: Board, gen: GenType, white: bool, left: bool, m: Move) -> bool {
    let from = m.spec_from() as int;
    let to = m.spec_to() as int;
    let f = m.spec_flags();
    &&& gen != GenType::Quiets
    &&& pawn_capture(b, from, to)
    &&& file_of(to) == file_of(from) + (if left { -1int } else { 1int })
    &&& (if last_rank(white, to) { capture_promotion_flag(f) } else { f == flags::CAPTURE })
}

/// A capture flag, on a move one file towards the a-file (`left`) or the
/// h-file.
pub open spec fn capture_tag(m: Move, left: bool) -> bool {
    &&& (m.spec_flags() == flags::CAPTURE || flags::PROMOTE_KNIGHT_CAPTURE <= m.spec_flags())
    &&& file_of(m.spec_to() as int) == file_of(m.spec_from() as int) + (if left { -1int } else { 1int })
}

/// En passant captures.
pub open spec fn en_passant_stage_move(b: Board, gen: GenType, m: Move) -> bool {
    gen != GenType::Quiets && pawn_en_passant(b, m.spec_from() as int, m.spec_to() as int)
        && m.spec_flags() == flags::EN_PASSANT
}

/// Generates the pawn moves of the side to move.
pub fn generate_pawn_moves(board: &Board, moves: &mut MoveList, gen_type: GenType)
    requires
        board.wf(),
    ensures
        extends(old(moves)@, final(moves)@),
        added_satisfy(old(moves)@, final(moves)@, |m: Move| pawn_gen_move(*board, m, gen_type)),
        complete_for(final(moves)@, |m: Move| pawn_gen_move(*board, m, gen_type)),
        final(moves)@.len() <= 256,
        added_distinct(old(moves)@, final(moves)@),
{
    match board.side_to_move {
        Color::White => generate_side_pawns(board, moves, gen_type, true),
        Color::Black => generate_side_pawns(board, moves, gen_type, false),
        Color::NoColor => {},
    }
}

/// Generates the pawn moves of the side to move, `white` telling which
/// side that is: pushes, promotions, captures towards either file, en passant.
fn generate_side_pawns(board: &Board, moves: &mut MoveList, gen_type: GenType, white: bool)
    requires
        board.wf(),
        white == (board.side_to_move == Color::White),
    ensures
        extends(old(moves)@, final(moves)@),
        added_satisfy(old(moves)@, final(moves)@, |m: Move| pawn_gen_move(*board, m, gen_type)),
        complete_for(final(moves)@, |m: Move| pawn_gen_move(*board, m, gen_type)),
        final(moves)@.len() <= 256,
        added_distinct(old(moves)@, final(moves)@),
{
    let ghost b = *board;
    let ghost p = |m: Move| pawn_gen_move(b, m, gen_type);
    let ghost m0 = moves@;
    let _ = moves.len();
    assert(m0.take(m0.len() as int) =~= m0);
    let ghost r1 = |m: Move| push_stage_move(b, gen_type, white, m);
    let ghost r2 = |m: Move| promotion_stage_move(b, gen_type, white, m);
    let ghost r3 = |m: Move| capture_stage_move(b, gen_type, white, true, m);
    let ghost r4 = |m: Move| capture_stage_move(b, gen_type, white, false, m);
    let ghost r5 = |m: Move| en_passant_stage_move(b, gen_type, m);
    let ghost m1 = moves@;
    generate_pushes(board, moves, gen_type, white);
    proof {
        lemma_stage_covered(m0, m1, moves@, p, |m: Move| false, r1);
    }
    let ghost a1 = |m: Move| false || r1(m);
    let ghost m2 = moves@;
    let ghost ta = |m: Move| m.spec_flags() == flags::QUIET || m.spec_flags() == flags::DOUBLE_PAWN;
    let ghost tb = |m: Move| flags::PROMOTE_KNIGHT <= m.spec_flags() <= flags::PROMOTE_QUEEN;
    let ghost tc = |m: Move| capture_tag(m, true);
    let ghost td = |m: Move| capture_tag(m, false);
    let ghost te = |m: Move| m.spec_flags() == flags::EN_PASSANT;
    generate_push_promotions(board, moves, gen_type, white);
    proof {
        lemma_stage_covered(m0, m2, moves@, p, a1, r2);
        lemma_join_stage(m0, m2, moves@, ta, tb);
    }
    let ghost a2 = |m: Move| a1(m) || r2(m);
    let ghost d2 = |m: Move| ta(m) || tb(m);
    if gen_type != GenType::Quiets {
        let ghost m3 = moves@;
        generate_captures(board, moves, gen_type, white, true);
        proof {
            lemma_stage_covered(m0, m3, moves@, p, a2, r3);
            lemma_join_stage(m0, m3, moves@, d2, tc);
        }
        let ghost a3 = |m: Move| a2(m) || r3(m);
        let ghost d3 = |m: Move| d2(m) || tc(m);
        let ghost m4 = moves@;
        generate_captures(board, moves, gen_type, white, false);
        proof {
            lemma_stage_covered(m0, m4, moves@, p, a3, r4);
            lemma_join_stage(m0, m4, moves@, d3, td);
        }
        let ghost a4 = |m: Move| a3(m) || r4(m);
        let ghost d4 = |m: Move| d3(m) || td(m);
        let ghost m5 = moves@;
        generate_en_passant(board, moves, gen_type, white);
        proof {
            lemma_stage_covered(m0, m5, moves@, p, a4, r5);
            lemma_join_stage(m0, m5, moves@, d4, te);
        }
        let ghost a5 = |m: Move| a4(m) || r5(m);
        proof {
            assert forall|m: Move| moves@.len() < 256 && #[trigger] p(m) implies moves@.contains(m) by {
                let from = m.spec_from() as int;
                let to = m.spec_to() as int;
                if pawn_capture(b, from, to) {
                    assert(file_of(to) == file_of(from) - 1 || file_of(to) == file_of(from) + 1);
                }
                assert(a5(m));
            }
        }
    } else {
        proof {
            assert forall|m: Move| moves@.len() < 256 && #[trigger] p(m) implies moves@.contains(m) by {
                assert(a2(m));
            }
        }
    }
}

/// Single and double pushes, unless only captures are wanted.
fn generate_pushes(board: &Board, moves: &mut MoveList, gen_type: GenType, white: bool)
    requires
        board.wf(),
        white == (board.side_to_move == Color::White),
    ensures
        extends(old(moves)@, final(moves)@),
        added_satisfy(old(moves)@, final(moves)@, |m: Move| pawn_gen_move(*board, m, gen_type)),
        complete_for(final(moves)@, |m: Move| push_stage_move(*board, gen_type, white, m)),
        final(moves)@.len() <= 256,
        added_satisfy(old(moves)@, final(moves)@, |m: Move| m.spec_flags() == flags::QUIET || m.spec_flags() == flags::DOUBLE_PAWN),
        added_distinct(old(moves)@, final(moves)@),
{
    let ghost b = *board;
    let ghost p = |m: Move| pawn_gen_move(b, m, gen_type);
    let ghost m0 = moves@;
    let _ = moves.len();
    assert(m0.take(m0.len() as int) =~= m0);
    proof {
        lemma_side_sets(b, white);
    }
    let ghost r1 = |m: Move| gen_type != GenType::Captures && pawn_push(b, m.spec_from() as int, m.spec_to() as int)
        && !last_rank(white, m.spec_to() as int) && m.spec_flags() == flags::QUIET;
    let ghost r2 = |m: Move| gen_type != GenType::Captures && pawn_double(b, m.spec_from() as int, m.spec_to() as int)
        && m.spec_flags() == flags::DOUBLE_PAWN;
    if gen_type != GenType::Captures {
        let us: usize = if white { 0 } else { 1 };
        let pawns = board.pawns[us];
        let empty = !board.all_occupancy;
        let last: u64 = if white { 0xFF00000000000000 } else { 0x00000000000000FF };
        let start: u64 = if white { 0x000000000000FF00 } else { 0x00FF000000000000 };
        let single = shift_forward(pawns, white, 8) & empty;
        let t1 = single & !last;
        let fl1: [u8; 1] = [flags::QUIET];
        assert(fl1@ =~= seq![flags::QUIET]);
        push_shifted(moves, t1, white, 8, &fl1);
        let ghost m1 = moves@;
        proof {
            let q = |m: Move| shifted_move(t1, white, 8, fl1@, m);
            assert forall|m: Move| #[trigger] q(m) implies p(m) by {}
            assert forall|m: Move| #[trigger] r1(m) implies q(m) by {
                assert(fl1@[0] == flags::QUIET);
            }
            lemma_stage(m0, m0, m1, p, q, |m: Move| false, r1);
        }
        let double = shift_forward(pawns & start, white, 16) & empty & shift_forward(empty, white, 8);
        let fl2: [u8; 1] = [flags::DOUBLE_PAWN];
        assert(fl2@ =~= seq![flags::DOUBLE_PAWN]);
        push_shifted(moves, double, white, 16, &fl2);
        proof {
            let q1 = |m: Move| shifted_move(t1, white, 8, fl1@, m);
            let q = |m: Move| shifted_move(double, white, 16, fl2@, m);
            lemma_join_stage(m0, m1, moves@, q1, q);
            lemma_added_weaken(m0, moves@, |m: Move| q1(m) || q(m),
                |m: Move| m.spec_flags() == flags::QUIET || m.spec_flags() == flags::DOUBLE_PAWN);
            assert forall|m: Move| #[trigger] q(m) implies p(m) by {}
            assert forall|m: Move| #[trigger] r2(m) implies q(m) by {
                assert(fl2@[0] == flags::DOUBLE_PAWN);
            }
            lemma_stage(m0, m1, moves@, p, q, |m: Move| false || r1(m), r2);
            assert forall|m: Move| moves@.len() < 256 && #[trigger] push_stage_move(b, gen_type, white, m)
                implies moves@.contains(m) by {
                assert(r1(m) || r2(m));
            }
        }
    }
}

/// Promotions by a push: the queen always, the other pieces unless only
/// captures are wanted.
fn generate_push_promotions(board: &Board, moves: &mut MoveList, gen_type: GenType, white: bool)
    requires
        board.wf(),
        white == (board.side_to_move == Color::White),
    ensures
        extends(old(moves)@, final(moves)@),
        added_satisfy(old(moves)@, final(moves)@, |m: Move| pawn_gen_move(*board, m, gen_type)),
        complete_for(final(moves)@, |m: Move| promotion_stage_move(*board, gen_type, white, m)),
        final(moves)@.len() <= 256,
        added_satisfy(old(moves)@, final(moves)@, |m: Move| flags::PROMOTE_KNIGHT <= m.spec_flags() <= flags::PROMOTE_QUEEN),
        added_distinct(old(moves)@, final(moves)@),
{
    let ghost b = *board;
    let ghost p = |m: Move| pawn_gen_move(b, m, gen_type);
    let ghost m0 = moves@;
    let _ = moves.len();
    assert(m0.take(m0.len() as int) =~= m0);
    proof {
        lemma_side_sets(b, white);
    }
    let ghost r = |m: Move| promotion_stage_move(b, gen_type, white, m);
    let us: usize = if white { 0 } else { 1 };
    let pawns = board.pawns[us];
    let empty = !board.all_occupancy;
    let last: u64 = if white { 0xFF00000000000000 } else { 0x00000000000000FF };
    let t = shift_forward(pawns, white, 8) & empty & last;
    if gen_type != GenType::Captures {
        let fl: [u8; 4] = [flags::PROMOTE_QUEEN, flags::PROMOTE_KNIGHT, flags::PROMOTE_BISHOP, flags::PROMOTE_ROOK];
        assert(fl@ =~= seq![flags::PROMOTE_QUEEN, flags::PROMOTE_KNIGHT, flags::PROMOTE_BISHOP, flags::PROMOTE_ROOK]);
        assert(fl@.no_duplicates());
        push_shifted(moves, t, white, 8, &fl);
        proof {
            let q = |m: Move| shifted_move(t, white, 8, fl@, m);
            lemma_added_weaken(m0, moves@, q, |m: Move| flags::PROMOTE_KNIGHT <= m.spec_flags() <= flags::PROMOTE_QUEEN);
            assert forall|m: Move| #[trigger] q(m) implies p(m) by {}
            assert forall|m: Move| #[trigger] r(m) implies q(m) by {
                let f = m.spec_flags();
                if f == flags::PROMOTE_QUEEN { assert(fl@[0] == f); }
                else if f == flags::PROMOTE_KNIGHT { assert(fl@[1] == f); }
                else if f == flags::PROMOTE_BISHOP { assert(fl@[2] == f); }
                else { assert(fl@[3] == f); }
            }
            lemma_stage(m0, m0, moves@, p, q, |m: Move| false, r);
        }
    } else {
        let fl: [u8; 1] = [flags::PROMOTE_QUEEN];
        assert(fl@ =~= seq![flags::PROMOTE_QUEEN]);
        push_shifted(moves, t, white, 8, &fl);
        proof {
            let q = |m: Move| shifted_move(t, white, 8, fl@, m);
            lemma_added_weaken(m0, moves@, q, |m: Move| flags::PROMOTE_KNIGHT <= m.spec_flags() <= flags::PROMOTE_QUEEN);
            assert forall|m: Move| #[trigger] q(m) implies p(m) by {}
            assert forall|m: Move| #[trigger] r(m) implies q(m) by {
                assert(fl@[0] == flags::PROMOTE_QUEEN);
            }
            lemma_stage(m0, m0, moves@, p, q, |m: Move| false, r);
        }
    }
}

/// Captures towards the a-file (`left`) or the h-file, promotions
/// included.
fn generate_captures(board: &Board, moves: &mut MoveList, gen_type: GenType, white: bool, left: bool)
    requires
        board.wf(),
        white == (board.side_to_move == Color::White),
        gen_type != GenType::Quiets,
    ensures
        extends(old(moves)@, final(moves)@),
        added_satisfy(old(moves)@, final(moves)@, |m: Move| pawn_gen_move(*board, m, gen_type)),
        complete_for(final(moves)@, |m: Move| capture_stage_move(*board, gen_type, white, left, m)),
        final(moves)@.len() <= 256,
        added_satisfy(old(moves)@, final(moves)@, |m: Move| capture_tag(m, left)),
        added_distinct(old(moves)@, final(moves)@),
{
    let ghost b = *board;
    let ghost p = |m: Move| pawn_gen_move(b, m, gen_type);
    let ghost m0 = moves@;
    let _ = moves.len();
    assert(m0.take(m0.len() as int) =~= m0);
    proof {
        lemma_side_sets(b, white);
    }
    let us: usize = if white { 0 } else { 1 };
    let them: usize = if white { 1 } else { 0 };
    let pawns = board.pawns[us];
    let enemy = board.occupancy[them];
    let last: u64 = if white { 0xFF00000000000000 } else { 0x00000000000000FF };
    // Towards the a-file a white pawn moves 7 squares up, a black pawn 9
    // down; a target on the far edge file came from the wrong side.
    let d: u8 = if white == left { 7 } else { 9 };
    let edge: u64 = if left { 0x8080808080808080 } else { 0x0101010101010101 };
    let ghost dir: int = if left { -1int } else { 1int };
    let c = shift_forward(pawns, white, d as u64) & enemy & !edge;
    proof {
        assert forall|t: int| #![auto] in_bb(c, t) ==> 0 <= ahead(white, t, -d) < 64
            && file_of(t) == file_of(ahead(white, t, -d)) + dir
            && pawn_step(white, ahead(white, t, -d), t) by {}
        assert forall|from: int, to: int| #![auto] pawn_step(white, from, to) && file_of(to) == file_of(from) + dir
            && 0 <= from < 64 ==> from == ahead(white, to, -d) && !in_bb(edge, to) by {}
    }
    let ghost r1 = |m: Move| capture_stage_move(b, gen_type, white, left, m) && !last_rank(white, m.spec_to() as int);
    let ghost r2 = |m: Move| capture_stage_move(b, gen_type, white, left, m) && last_rank(white, m.spec_to() as int);
    let t1 = c & !last;
    let fl1: [u8; 1] = [flags::CAPTURE];
    assert(fl1@ =~= seq![flags::CAPTURE]);
    push_shifted(moves, t1, white, d, &fl1);
    let ghost m1 = moves@;
    proof {
        let q = |m: Move| shifted_move(t1, white, d as int, fl1@, m);
        assert forall|m: Move| #[trigger] q(m) implies p(m) by {}
        assert forall|m: Move| #[trigger] r1(m) implies q(m) by {
            assert(fl1@[0] == flags::CAPTURE);
        }
        lemma_stage(m0, m0, m1, p, q, |m: Move| false, r1);
    }
    let t2 = c & last;
    let fl2: [u8; 4] = [flags::PROMOTE_KNIGHT_CAPTURE, flags::PROMOTE_BISHOP_CAPTURE,
        flags::PROMOTE_ROOK_CAPTURE, flags::PROMOTE_QUEEN_CAPTURE];
    assert(fl2@ =~= seq![flags::PROMOTE_KNIGHT_CAPTURE, flags::PROMOTE_BISHOP_CAPTURE,
        flags::PROMOTE_ROOK_CAPTURE, flags::PROMOTE_QUEEN_CAPTURE]);
    assert(fl2@.no_duplicates());
    push_shifted(moves, t2, white, d, &fl2);
    proof {
        let q1 = |m: Move| shifted_move(t1, white, d as int, fl1@, m);
        let q = |m: Move| shifted_move(t2, white, d as int, fl2@, m);
        lemma_join_stage(m0, m1, moves@, q1, q);
        assert forall|m: Move| #[trigger] q1(m) || q(m) implies capture_tag(m, left) by {
            assert(in_bb(c, m.spec_to() as int));
        }
        lemma_added_weaken(m0, moves@, |m: Move| q1(m) || q(m), |m: Move| capture_tag(m, left));
        assert forall|m: Move| #[trigger] q(m) implies p(m) by {}
        assert forall|m: Move| #[trigger] r2(m) implies q(m) by {
            let f = m.spec_flags();
            if f == flags::PROMOTE_KNIGHT_CAPTURE { assert(fl2@[0] == f); }
            else if f == flags::PROMOTE_BISHOP_CAPTURE { assert(fl2@[1] == f); }
            else if f == flags::PROMOTE_ROOK_CAPTURE { assert(fl2@[2] == f); }
            else { assert(fl2@[3] == f); }
        }
        lemma_stage(m0, m1, moves@, p, q, |m: Move| false || r1(m), r2);
        assert forall|m: Move| moves@.len() < 256 && #[trigger] capture_stage_move(b, gen_type, white, left, m)
            implies moves@.contains(m) by {
            assert(r1(m) || r2(m));
        }
    }
}

/// En passant captures from either side of the en passant square.
#[verifier::spinoff_prover]
fn generate_en_passant(board: &Board, moves: &mut MoveList, gen_type: GenType, white: bool)
    requires
        board.wf(),
        white == (board.side_to_move == Color::White),
        gen_type != GenType::Quiets,
    ensures
        extends(old(moves)@, final(moves)@),
        added_satisfy(old(moves)@, final(moves)@, |m: Move| pawn_gen_move(*board, m, gen_type)),
        complete_for(final(moves)@, |m: Move| en_passant_stage_move(*board, gen_type, m)),
        final(moves)@.len() <= 256,
        added_satisfy(old(moves)@, final(moves)@, |m: Move| m.spec_flags() == flags::EN_PASSANT),
        added_distinct(old(moves)@, final(moves)@),
{
    let ghost b = *board;
    let ghost p = |m: Move| pawn_gen_move(b, m, gen_type);
    let ghost m0 = moves@;
    let _ = moves.len();
    assert(m0.take(m0.len() as int) =~= m0);
    proof {
        lemma_side_sets(b, white);
    }
    let us: usize = if white { 0 } else { 1 };
    let pawns = board.pawns[us];
    if let Some(to) = board.en_passant_square {
        // From the square towards the h-file (not on the a-file), then from
        // the square towards the a-file (not on the h-file).
        let dl: u8 = if white { 7 } else { 9 };
        let dr: u8 = if white { 9 } else { 7 };
        let from_a = pawns & !0x0101010101010101u64;
        let from_h = pawns & !0x8080808080808080u64;
        let ghost r1 = |m: Move| en_passant_stage_move(b, gen_type, m)
            && file_of(m.spec_to() as int) == file_of(m.spec_from() as int) - 1;
        let ghost r2 = |m: Move| en_passant_stage_move(b, gen_type, m)
            && file_of(m.spec_to() as int) == file_of(m.spec_from() as int) + 1;
        proof {
            let t = to as int;
            assert(in_bb(from_a, ahead(white, t, -dl)) ==> pawn_step(white, ahead(white, t, -dl), t)
                && file_of(t) == file_of(ahead(white, t, -dl)) - 1);
            assert(in_bb(from_h, ahead(white, t, -dr)) ==> pawn_step(white, ahead(white, t, -dr), t)
                && file_of(t) == file_of(ahead(white, t, -dr)) + 1);
            assert forall|from: int| #![auto] pawn_step(white, from, t) && file_of(t) == file_of(from) - 1
                && 0 <= from < 64 ==> from == ahead(white, t, -dl) && file_of(from) != 0 by {}
            assert forall|from: int| #![auto] pawn_step(white, from, t) && file_of(t) == file_of(from) + 1
                && 0 <= from < 64 ==> from == ahead(white, t, -dr) && file_of(from) != 7 by {}
        }
        push_en_passant_from(moves, from_a, to, white, dl);
        let ghost m1 = moves@;
        proof {
            let q = |m: Move| ep_from_move(from_a, to as int, white, dl as int, m);
            assert forall|m: Move| #[trigger] q(m) implies p(m) by {}
            assert forall|m: Move| #[trigger] r1(m) implies q(m) by {}
            lemma_stage(m0, m0, m1, p, q, |m: Move| false, r1);
        }
        push_en_passant_from(moves, from_h, to, white, dr);
        proof {
            let q = |m: Move| ep_from_move(from_h, to as int, white, dr as int, m);
            assert forall|m: Move| #[trigger] q(m) implies p(m) by {}
            assert forall|m: Move| #[trigger] r2(m) implies q(m) by {}
            lemma_stage(m0, m1, moves@, p, q, |m: Move| false || r1(m), r2);
            assert forall|m: Move| moves@.len() < 256 && #[trigger] en_passant_stage_move(b, gen_type, m)
                implies moves@.contains(m) by {
                assert(r1(m) || r2(m));
            }
            let q1 = |m: Move| ep_from_move(from_a, to as int, white, dl as int, m);
            lemma_join_stage(m0, m1, moves@, q1, q);
            lemma_added_weaken(m0, moves@, |m: Move| q1(m) || q(m), |m: Move| m.spec_flags() == flags::EN_PASSANT);
        }
    }
}

} // verus!
