//! Turning a bitboard of target squares into moves.
use vstd::prelude::*;
use crate::board::bitboard::{in_bb, bit, pop_lsb, intersects, lemma_zero_iff_empty};
use crate::board::moves::{Move, flags, lemma_pack_fields};
use crate::movegen::move_list::{MoveList, extends, added_satisfy, added_distinct, complete_for, lemma_push_distinct};

verus! {

/// The move from `from` to `to` with the quiet or capture flag, by whether
/// `to` is in `enemy`.
pub open spec fn target_move(from: int, to: int, enemy: u64, m: Move) -> bool {
    &&& m.spec_from() == from
    &&& m.spec_to() == to
    &&& m.spec_flags() == (if in_bb(enemy, to) { flags::CAPTURE } else { flags::QUIET })
}

/// A move from `from` to a square of `targets`, flagged by `enemy`.
pub open spec fn targets_move(from: int, targets: u64, enemy: u64, m: Move) -> bool {
    in_bb(targets, m.spec_to() as int) && target_move(from, m.spec_to() as int, enemy, m)
}

/// Pushes one move from `from` to every square of `targets`, flagged as a
/// capture where the square holds an enemy piece.
pub fn push_targets(moves: &mut MoveList, from: u8, targets: u64, enemy_occ: u64)
    requires
        from < 64,
    ensures
        extends(old(moves)@, final(moves)@),
        added_satisfy(old(moves)@, final(moves)@, |m: Move| targets_move(from as int, targets, enemy_occ, m)),
        final(moves)@.len() < 256 ==> forall|m: Move| #[trigger] targets_move(from as int, targets, enemy_occ, m) ==> final(moves)@.contains(m),
        final(moves)@.len() <= 256,
        added_distinct(old(moves)@, final(moves)@),
{
    let ghost old_moves = moves@;
    let n0 = moves.len();
    assert(old_moves.take(old_moves.len() as int) =~= old_moves);
    let mut bb = targets;
    while bb != 0
        invariant
            from < 64,
            forall|t: int| #[trigger] in_bb(bb, t) ==> in_bb(targets, t),
            extends(old_moves, moves@),
            moves@.len() <= 256,
            added_satisfy(old_moves, moves@, |m: Move| targets_move(from as int, targets, enemy_occ, m)),
            moves@.len() < 256 ==> forall|m: Move| #[trigger] targets_move(from as int, targets, enemy_occ, m)
                && !in_bb(bb, m.spec_to() as int) ==> moves@.contains(m),
            added_distinct(old_moves, moves@),
            forall|i: int| old_moves.len() <= i < moves@.len() ==> !in_bb(bb, #[trigger] moves@[i].spec_to() as int),
        decreases bb,
    {
        let ghost before = moves@;
        let ghost bb_before = bb;
        let to = pop_lsb(&mut bb);
        let tb = bit(to);
        let hit = intersects(tb, enemy_occ);
        assert(hit <==> in_bb(enemy_occ, to as int)) by {
            if hit {
                let a = choose|a: int| #[trigger] in_bb(tb, a) && in_bb(enemy_occ, a);
            }
            assert(in_bb(tb, to as int));
        }
        let flag = if hit { flags::CAPTURE } else { flags::QUIET };
        let mv = Move::new(from, to, flag);
        moves.push(mv);
        proof {
            assert forall|i: int| old_moves.len() <= i < before.len() implies #[trigger] before[i] != mv by {
                assert(!in_bb(bb_before, before[i].spec_to() as int));
            }
            lemma_push_distinct(old_moves, before, moves@, mv);
            assert forall|i: int| old_moves.len() <= i < moves@.len() implies !in_bb(bb, #[trigger] moves@[i].spec_to() as int) by {
                if i < before.len() {
                    assert(moves@[i] == before[i]);
                    assert(!in_bb(bb_before, before[i].spec_to() as int));
                } else {
                    assert(moves@[i] == mv);
                }
            }
        }
        assert(targets_move(from as int, targets, enemy_occ, mv));
        assert forall|i: int| old_moves.len() <= i < moves@.len() implies targets_move(from as int, targets, enemy_occ, #[trigger] moves@[i]) by {
            if i < before.len() {
                assert(moves@[i] == before[i]);
            }
        }
        assert(moves@.take(old_moves.len() as int) =~= old_moves) by {
            if before.len() < 256 {
                assert(before.take(old_moves.len() as int) == old_moves);
            }
        }
        assert forall|m: Move| moves@.len() < 256 && #[trigger] targets_move(from as int, targets, enemy_occ, m)
            && !in_bb(bb, m.spec_to() as int) implies moves@.contains(m) by {
            if m.spec_to() == to {
                lemma_pack_fields(m);
                Move::lemma_raw_injective(m, mv);
                assert(m == mv);
                assert(moves@[moves@.len() - 1] == mv);
            } else {
                assert(!in_bb(bb_before, m.spec_to() as int));
                assert(before.contains(m));
                let j = choose|j: int| 0 <= j < before.len() && before[j] == m;
                assert(moves@[j] == m);
            }
        }
    }
    proof {
        lemma_zero_iff_empty(bb);
    }
}

} // verus!
