//! Move generation.
pub mod knight;
pub mod king;
pub mod pawn;
pub mod sliding;
pub mod move_list;
pub mod targets;
pub mod rules;

use vstd::prelude::*;
use crate::board::bitboard::{in_bb, bit, spec_bit, count_bits, popcount, lsb, group_bitboard, intersects, lemma_lsb, lemma_popcount_one, only_square};
use crate::board::board::Board;
use crate::board::moves::{Move, flags};
use crate::board::piece::Color;
use crate::geometry::strictly_between;
use crate::movegen::move_list::{MoveList, extends, added_satisfy, added_distinct, complete_for, lemma_stage, lemma_push_contains, lemma_extends_trans, lemma_join_stage, lemma_distinct_from_empty, lemma_filter_no_duplicates};
use crate::movegen::rules::{pseudo_move, non_king_move, pawn_gen_move, knight_move, slider_move, king_gen_move};

verus! {

broadcast use group_bitboard, crate::board::moves::lemma_move_fields_range;

/// Which moves a generator produces.
#[derive(PartialEq, Eq, Clone, Copy, Structural)]
pub enum GenType {
    All,
    Captures,
    Quiets,
}

/// Sets up move generation. The attack sets are computed on demand, so
/// there is nothing to prepare.
pub fn init_all() {
}

/// A buffer of generated moves: at most 256, each pseudo-legal under
/// `gen` and listed once, and, unless it is full, all of them.
pub open spec fn pseudo_buffer(b: Board, gen: GenType, ps: Seq<Move>) -> bool {
    &&& ps.len() <= 256
    &&& ps.no_duplicates()
    &&& forall|i: int| 0 <= i < ps.len() ==> pseudo_move(b, #[trigger] ps[i], gen)
    &&& ps.len() < 256 ==> forall|m: Move| #[trigger] pseudo_move(b, m, gen) ==> ps.contains(m)
}

/// No move is produced by two of the pawn, knight, slider and king
/// generators: each moves a different piece, and castling has flags of its
/// own.
proof fn lemma_generators_disjoint(b: Board, gen: GenType)
    requires
        b.wf(),
    ensures
        forall|m: Move| #[trigger] pawn_gen_move(b, m, gen) ==> !knight_move(b, m, gen),
        forall|m: Move| #[trigger] slider_move(b, m, gen) ==> !pawn_gen_move(b, m, gen) && !knight_move(b, m, gen),
        forall|m: Move| #[trigger] king_gen_move(b, m, gen) ==> !pawn_gen_move(b, m, gen)
            && !knight_move(b, m, gen) && !slider_move(b, m, gen),
{
    b.lemma_wf_bbs();
    let c = b.side_to_move.spec_idx() as int;
    if b.kings[c] != 0 {
        lemma_lsb(b.kings[c]);
        assert(b.pieces[b.king_square(c)] == crate::board::piece::PieceType::King);
    }
}

/// The side to move has at least 256 different pseudo-legal moves, more
/// than a move list holds.
pub open spec fn crowded(b: Board) -> bool {
    exists|ps: Seq<Move>| #![trigger ps.len()] ps.len() == 256 && ps.no_duplicates() && forall|i: int|
        0 <= i < ps.len() ==> pseudo_move(b, #[trigger] ps[i], GenType::All)
}

/// Law: unless the side to move has 256 or more different pseudo-legal
/// moves, a generated buffer holds exactly the pseudo-legal moves of its
/// kind.
pub proof fn law_buffer_complete(b: Board, gen: GenType, ps: Seq<Move>)
    requires
        pseudo_buffer(b, gen, ps),
        !crowded(b),
    ensures
        ps.len() < 256,
        forall|m: Move| #[trigger] ps.contains(m) <==> pseudo_move(b, m, gen),
{
    if ps.len() == 256 {
        assert forall|i: int| 0 <= i < ps.len() implies pseudo_move(b, #[trigger] ps[i], GenType::All) by {
            lemma_pseudo_all(b, ps[i], gen);
        }
        assert(crowded(b));
    }
    assert forall|m: Move| #[trigger] ps.contains(m) implies pseudo_move(b, m, gen) by {
        let i = choose|i: int| 0 <= i < ps.len() && ps[i] == m;
        assert(pseudo_move(b, ps[i], gen));
    }
}

/// Generates the pseudo-legal moves of the given kind: pawn, knight,
/// slider and king moves, in that order.
fn generate_kind(board: &Board, gen_type: GenType) -> (moves: MoveList)
    requires
        board.wf(),
    ensures
        pseudo_buffer(*board, gen_type, moves@),
{
    let ghost p = |m: Move| pseudo_move(*board, m, gen_type);
    let mut moves = MoveList::new();
    let ghost m0 = moves@;
    assert(m0.take(0) =~= m0);
    pawn::generate_pawn_moves(board, &mut moves, gen_type);
    let ghost r1 = |m: Move| pawn_gen_move(*board, m, gen_type);
    proof {
        lemma_stage(m0, m0, moves@, p, r1, |m: Move| false, r1);
    }
    let ghost m1 = moves@;
    knight::generate_knight_moves(board, &mut moves, gen_type);
    let ghost r2 = |m: Move| knight_move(*board, m, gen_type);
    proof {
        lemma_stage(m0, m1, moves@, p, r2, |m: Move| false || r1(m), r2);
    }
    let ghost m2 = moves@;
    sliding::generate_sliding_moves(board, &mut moves, gen_type);
    let ghost r3 = |m: Move| slider_move(*board, m, gen_type);
    proof {
        lemma_stage(m0, m2, moves@, p, r3, |m: Move| (false || r1(m)) || r2(m), r3);
    }
    let ghost m3 = moves@;
    king::generate_king_moves(board, &mut moves, gen_type);
    let ghost r4 = |m: Move| king_gen_move(*board, m, gen_type);
    proof {
        lemma_stage(m0, m3, moves@, p, r4, |m: Move| ((false || r1(m)) || r2(m)) || r3(m), r4);
        lemma_generators_disjoint(*board, gen_type);
        lemma_join_stage(m0, m1, m2, r1, r2);
        lemma_join_stage(m0, m2, m3, |m: Move| r1(m) || r2(m), r3);
        lemma_join_stage(m0, m3, moves@, |m: Move| (r1(m) || r2(m)) || r3(m), r4);
        lemma_distinct_from_empty(moves@);
        assert forall|i: int| 0 <= i < moves@.len() implies pseudo_move(*board, #[trigger] moves@[i], gen_type) by {
            assert(p(moves@[i]));
        }
        assert forall|m: Move| moves@.len() < 256 && #[trigger] pseudo_move(*board, m, gen_type) implies moves@.contains(m) by {
            assert(p(m));
        }
    }
    moves
}

/// All pseudo-legal moves of the side to move.
pub fn generate_pseudo_legal_moves(board: &Board) -> (moves: MoveList)
    requires
        board.wf(),
    ensures
        pseudo_buffer(*board, GenType::All, moves@),
{
    generate_kind(board, GenType::All)
}

/// The pseudo-legal captures (and capture promotions, en passant and
/// queen promotions) of the side to move.
pub fn generate_captures(board: &Board) -> (moves: MoveList)
    requires
        board.wf(),
    ensures
        pseudo_buffer(*board, GenType::Captures, moves@),
{
    generate_kind(board, GenType::Captures)
}

/// The pseudo-legal quiet moves (and all push promotions) of the side to move.
pub fn generate_quiets(board: &Board) -> (moves: MoveList)
    requires
        board.wf(),
    ensures
        pseudo_buffer(*board, GenType::Quiets, moves@),
{
    generate_kind(board, GenType::Quiets)
}

/// A buffer of non-king pseudo-legal moves: at most 256, each a pawn,
/// knight or slider move listed once, and, unless it is full, all of them.
pub open spec fn non_king_buffer(b: Board, ps: Seq<Move>) -> bool {
    &&& ps.len() <= 256
    &&& ps.no_duplicates()
    &&& forall|i: int| 0 <= i < ps.len() ==> non_king_move(b, #[trigger] ps[i])
    &&& ps.len() < 256 ==> forall|m: Move| #[trigger] non_king_move(b, m) ==> ps.contains(m)
}

/// Whether a non-king move answers a single check: it lands on the checker
/// or between it and the king, or it is an en passant capture.
pub open spec fn answers_check(b: Board, m: Move) -> bool {
    let checkers = b.checker_bb(b.side_to_move);
    let c = lsb(checkers);
    let to = m.spec_to() as int;
    &&& b.kings[b.us()] != 0
    &&& popcount(checkers) == 1
    &&& (to == c || strictly_between(b.our_king(), c, to) || m.spec_flags() == flags::EN_PASSANT)
}

/// A move the evasion generator may produce.
pub open spec fn evasion_move(b: Board, m: Move) -> bool {
    king_gen_move(b, m, GenType::All) || (non_king_move(b, m) && answers_check(b, m))
}

/// The pawn, knight and slider moves of the side to move.
fn generate_non_king(board: &Board) -> (moves: MoveList)
    requires
        board.wf(),
    ensures
        non_king_buffer(*board, moves@),
{
    let ghost p = |m: Move| non_king_move(*board, m);
    let mut moves = MoveList::new();
    let ghost m0 = moves@;
    assert(m0.take(0) =~= m0);
    pawn::generate_pawn_moves(board, &mut moves, GenType::All);
    let ghost r1 = |m: Move| pawn_gen_move(*board, m, GenType::All);
    proof {
        lemma_stage(m0, m0, moves@, p, r1, |m: Move| false, r1);
    }
    let ghost m1 = moves@;
    knight::generate_knight_moves(board, &mut moves, GenType::All);
    let ghost r2 = |m: Move| knight_move(*board, m, GenType::All);
    proof {
        lemma_stage(m0, m1, moves@, p, r2, |m: Move| false || r1(m), r2);
    }
    let ghost m2 = moves@;
    sliding::generate_sliding_moves(board, &mut moves, GenType::All);
    let ghost r3 = |m: Move| slider_move(*board, m, GenType::All);
    proof {
        lemma_stage(m0, m2, moves@, p, r3, |m: Move| (false || r1(m)) || r2(m), r3);
        lemma_generators_disjoint(*board, GenType::All);
        lemma_join_stage(m0, m1, m2, r1, r2);
        lemma_join_stage(m0, m2, moves@, |m: Move| r1(m) || r2(m), r3);
        lemma_distinct_from_empty(moves@);
        assert forall|i: int| 0 <= i < moves@.len() implies non_king_move(*board, #[trigger] moves@[i]) by {
            assert(p(moves@[i]));
        }
        assert forall|m: Move| moves@.len() < 256 && #[trigger] non_king_move(*board, m) implies moves@.contains(m) by {
            assert(p(m));
        }
    }
    moves
}

/// The moves that may answer a check: king moves, and under a single
/// check the pawn, knight and slider moves that capture the checker, block
/// it, or capture en passant.
pub fn generate_evasions(board: &Board) -> (moves: MoveList)
    requires
        board.wf(),
    ensures
        forall|i: int| 0 <= i < moves@.len() ==> evasion_move(*board, #[trigger] moves@[i]),
        moves@.len() < 256 ==> forall|m: Move| #[trigger] king_gen_move(*board, m, GenType::All) ==> moves@.contains(m),
        exists|ps: Seq<Move>| #[trigger] non_king_buffer(*board, ps) && (moves@.len() < 256 ==> forall|m: Move|
            ps.contains(m) && #[trigger] answers_check(*board, m) ==> moves@.contains(m)),
        moves@.len() <= 256,
        moves@.no_duplicates(),
{
    let mut moves = MoveList::new();
    let side = board.side_to_move;
    let king_bb = board.kings[side.idx()];
    let (_, checkers) = board.pins_and_checkers(side);
    let num_checkers = count_bits(checkers);
    let ghost m0 = moves@;
    assert(m0.take(0) =~= m0);
    king::generate_king_moves(board, &mut moves, GenType::All);
    let ghost mk = moves@;
    assert(mk.take(mk.len() as int) =~= mk);
    proof {
        lemma_distinct_from_empty(mk);
        lemma_generators_disjoint(*board, GenType::All);
    }
    assert forall|i: int| 0 <= i < moves@.len() implies evasion_move(*board, #[trigger] moves@[i]) by {
        assert(king_gen_move(*board, moves@[i], GenType::All));
    }
    if num_checkers == 1 {
        proof {
            lemma_popcount_one(checkers);
            let a = choose|a: int| #[trigger] only_square(checkers, a);
            assert(in_bb(checkers, a));
            assert(checkers != 0);
            board.lemma_checker_bb(side, checkers);
            lemma_lsb(king_bb);
            lemma_lsb(checkers);
        }
        let king_sq = king_bb.trailing_zeros() as u8;
        let checker_sq = checkers.trailing_zeros() as u8;
        let target_mask = bit(checker_sq) | board.between(king_sq, checker_sq);
        let all_pseudo = generate_non_king(board);
        let ghost ps = all_pseudo@;
        let n = all_pseudo.len();
        let mut i: usize = 0;
        while i < n
            invariant
                board.wf(),
                n == ps.len(),
                ps == all_pseudo@,
                non_king_buffer(*board, ps),
                i <= n,
                board.kings[board.us()] != 0,
                popcount(board.checker_bb(side)) == 1,
                side == board.side_to_move,
                checker_sq as int == lsb(board.checker_bb(side)),
                king_sq as int == board.our_king(),
                forall|t: int| #[trigger] in_bb(target_mask, t) <==> (t == checker_sq || strictly_between(king_sq as int, checker_sq as int, t)),
                extends(mk, moves@),
                moves@.len() <= 256,
                forall|j: int| 0 <= j < moves@.len() ==> evasion_move(*board, #[trigger] moves@[j]),
                moves@.len() < 256 ==> forall|j: int| 0 <= j < i && #[trigger] answers_check(*board, ps[j]) ==> moves@.contains(ps[j]),
                moves@.len() < 256 ==> forall|m: Move| #[trigger] king_gen_move(*board, m, GenType::All) ==> moves@.contains(m),
                moves@.no_duplicates(),
                forall|k: int| 0 <= k < mk.len() ==> king_gen_move(*board, #[trigger] mk[k], GenType::All),
                forall|k: int| mk.len() <= k < moves@.len() ==> exists|j: int| 0 <= j < i && ps[j] == #[trigger] moves@[k],
            decreases n - i,
        {
            let m = all_pseudo.get(i);
            let ghost before = moves@;
            let hit = intersects(bit(m.to()), target_mask);
            assert(hit <==> in_bb(target_mask, m.spec_to() as int)) by {
                assert(in_bb(spec_bit(m.spec_to() as int), m.spec_to() as int));
            }
            if hit || m.flags() == flags::EN_PASSANT {
                proof {
                    lemma_generators_disjoint(*board, GenType::All);
                    assert forall|k: int| 0 <= k < before.len() implies #[trigger] before[k] != m by {
                        assert(m == ps[i as int]);
                        if k < mk.len() {
                            assert(before[k] == before.take(mk.len() as int)[k]);
                            assert(before[k] == mk[k]);
                            assert(king_gen_move(*board, mk[k], GenType::All));
                            assert(non_king_move(*board, ps[i as int]));
                        } else {
                            let j = choose|j: int| 0 <= j < i && ps[j] == before[k];
                            assert(ps[j] != ps[i as int]);
                        }
                    }
                }
                moves.push(m);
                proof {
                    lemma_push_contains(before, moves@, m);
                    assert forall|k: int| mk.len() <= k < moves@.len() implies exists|j: int| 0 <= j < i + 1 && ps[j] == #[trigger] moves@[k] by {
                        if k < before.len() {
                            assert(moves@[k] == before[k]);
                            let j = choose|j: int| 0 <= j < i && ps[j] == before[k];
                            assert(0 <= j < i + 1 && ps[j] == moves@[k]);
                        } else {
                            assert(moves@[k] == ps[i as int]);
                        }
                    }
                    assert(answers_check(*board, m));
                    assert forall|j: int| 0 <= j < moves@.len() implies evasion_move(*board, #[trigger] moves@[j]) by {
                        if j < before.len() {
                            assert(moves@[j] == before[j]);
                        }
                    }
                    lemma_extends_trans(mk, before, moves@, |x: Move| true, |x: Move| true);
                }
            }
            proof {
                assert forall|j: int| moves@.len() < 256 && 0 <= j < i + 1 && #[trigger] answers_check(*board, ps[j]) implies moves@.contains(ps[j]) by {
                    if j < i {
                        assert(before.contains(ps[j]));
                    }
                }
            }
            i = i + 1;
        }
        proof {
            assert forall|m: Move| moves@.len() < 256 && ps.contains(m) && #[trigger] answers_check(*board, m) implies moves@.contains(m) by {
                let j = choose|j: int| 0 <= j < ps.len() && ps[j] == m;
                assert(answers_check(*board, ps[j]));
            }
            assert(non_king_buffer(*board, ps));
        }
    } else {
        let all_pseudo = generate_non_king(board);
        proof {
            if board.kings[board.us()] != 0 {
                board.lemma_checker_bb(side, checkers);
            }
            assert forall|m: Move| !#[trigger] answers_check(*board, m) by {}
            assert(non_king_buffer(*board, all_pseudo@));
        }
    }
    moves
}

/// The en passant test can be carried out for every pseudo-legal move.
pub open spec fn ep_checkable(b: Board) -> bool {
    forall|m: Move| #[trigger] pseudo_move(b, m, GenType::All) ==> b.en_passant_checkable(m)
}

/// Whether the side to move has a pseudo-legal move that passes the
/// legality test.
pub open spec fn has_legal_move(b: Board) -> bool {
    exists|m: Move| #[trigger] pseudo_move(b, m, GenType::All) && b.legal(m)
}

/// The legal moves of the side to move: the pseudo-legal moves, in
/// generation order, that pass [`Board::is_legal`].
pub fn generate_legal_moves(board: &Board) -> (moves: MoveList)
    requires
        board.wf(),
        ep_checkable(*board),
    ensures
        exists|ps: Seq<Move>| #[trigger] pseudo_buffer(*board, GenType::All, ps)
            && moves@ == ps.filter(|m: Move| board.legal(m)),
        !has_legal_move(*board) ==> moves@.len() == 0,
        moves@.no_duplicates(),
        !crowded(*board) ==> forall|m: Move| #[trigger] moves@.contains(m) <==> pseudo_move(*board, m, GenType::All)
            && board.legal(m),
{
    let ghost lg = |m: Move| board.legal(m);
    let mut legal_moves = MoveList::new();
    let pseudo_moves = generate_pseudo_legal_moves(board);
    let ghost ps = pseudo_moves@;
    let n = pseudo_moves.len();
    let mut i: usize = 0;
    assert(ps.take(0) =~= Seq::<Move>::empty());
    proof {
        reveal(Seq::filter);
    }
    while i < n
        invariant
            board.wf(),
            ep_checkable(*board),
            pseudo_buffer(*board, GenType::All, ps),
            ps == pseudo_moves@,
            n == ps.len(),
            i <= n,
            lg == (|m: Move| board.legal(m)),
            legal_moves@ == ps.take(i as int).filter(lg),
        decreases n - i,
    {
        let m = pseudo_moves.get(i);
        proof {
            ps.take(i as int).lemma_filter_len(lg);
            ps.take(i as int).lemma_filter_push(m, lg);
            assert(ps.take(i as int + 1) =~= ps.take(i as int).push(m));
            assert(pseudo_move(*board, ps[i as int], GenType::All));
        }
        if board.is_legal(m) {
            legal_moves.push(m);
        }
        i = i + 1;
    }
    proof {
        assert(ps.take(n as int) =~= ps);
        lemma_filter_no_duplicates(ps, lg);
        if !crowded(*board) {
            law_buffer_complete(*board, GenType::All, ps);
            assert forall|m: Move| #[trigger] legal_moves@.contains(m) <==> pseudo_move(*board, m, GenType::All)
                && board.legal(m) by {
                if legal_moves@.contains(m) {
                    ps.lemma_filter_contains_rev(lg, m);
                    let k = choose|k: int| 0 <= k < legal_moves@.len() && legal_moves@[k] == m;
                    ps.lemma_filter_pred(lg, k);
                }
                if pseudo_move(*board, m, GenType::All) && board.legal(m) {
                    assert(ps.contains(m));
                    let i = choose|i: int| 0 <= i < ps.len() && ps[i] == m;
                    ps.lemma_filter_contains(lg, i);
                }
            }
        }
        if !has_legal_move(*board) {
            assert forall|j: int| 0 <= j < ps.len() implies !lg(#[trigger] ps[j]) by {
                assert(pseudo_move(*board, ps[j], GenType::All));
            }
            ps.lemma_all_neg_filter_empty(lg);
        }
    }
    legal_moves
}

/// Whether the side to move is in check.
pub fn is_check(board: &Board) -> (r: bool)
    requires
        board.wf(),
    ensures
        r == board.in_check(board.side_to_move),
{
    let side = board.side_to_move;
    let king_bb = board.kings[side.idx()];
    if king_bb == 0 {
        return false;
    }
    proof {
        lemma_lsb(king_bb);
    }
    let king_sq = king_bb.trailing_zeros() as u8;
    board.is_square_attacked(king_sq, side.opposite())
}

/// The state of a game.
#[derive(Debug, PartialEq, Eq, Clone, Copy, Structural)]
pub enum GameState {
    Ongoing,
    Checkmate,
    Stalemate,
    DrawInsufficientMaterial,
    DrawFiftyMoveRule,
}

/// Too little material for a simple mate: at most four pieces, and either
/// the two kings alone or three pieces one of which is a knight or bishop.
pub open spec fn insufficient_material(b: Board) -> bool {
    let n = popcount(b.all_occupancy);
    n <= 4 && (n == 2 || (n == 3 && (b.knights[0] != 0 || b.knights[1] != 0 || b.bishops[0] != 0
        || b.bishops[1] != 0)))
}

/// The state of the game given whether the side to move has no legal move.
pub open spec fn state_of(b: Board, no_moves: bool) -> GameState {
    if no_moves {
        if b.in_check(b.side_to_move) {
            GameState::Checkmate
        } else {
            GameState::Stalemate
        }
    } else if insufficient_material(b) {
        GameState::DrawInsufficientMaterial
    } else if b.halfmove_clock >= 100 {
        GameState::DrawFiftyMoveRule
    } else {
        GameState::Ongoing
    }
}

/// Law: the fifty-move draw is declared only once the halfmove clock
/// reaches 100 (fifty moves by each side); with legal moves, enough
/// material and a clock below 100 the game goes on, and with the clock at
/// 100 or more it is drawn. With legal moves, the material draw is
/// declared exactly for the two kings alone, or three pieces one of which
/// is a knight or bishop. Mate and stalemate need an empty move list, mate
/// a king in check.
pub proof fn law_game_state(b: Board, no_moves: bool)
    ensures
        state_of(b, no_moves) == GameState::DrawFiftyMoveRule ==> b.halfmove_clock >= 100,
        !no_moves && !insufficient_material(b) && b.halfmove_clock < 100 ==> state_of(b, no_moves)
            == GameState::Ongoing,
        !no_moves && !insufficient_material(b) && b.halfmove_clock >= 100 ==> state_of(b, no_moves)
            == GameState::DrawFiftyMoveRule,
        !no_moves ==> (state_of(b, no_moves) == GameState::DrawInsufficientMaterial <==> (popcount(b.all_occupancy)
            == 2 || (popcount(b.all_occupancy) == 3 && (b.knights[0] != 0 || b.knights[1] != 0 || b.bishops[0] != 0
            || b.bishops[1] != 0)))),
        state_of(b, no_moves) == GameState::Checkmate <==> no_moves && b.in_check(b.side_to_move),
        state_of(b, no_moves) == GameState::Stalemate <==> no_moves && !b.in_check(b.side_to_move),
{
}

/// The state of the game: mate or stalemate when the legal move list is
/// empty, else a draw by material or by the fifty-move rule, else ongoing.
pub fn get_game_state(board: &Board) -> (r: GameState)
    requires
        board.wf(),
        ep_checkable(*board),
    ensures
        exists|ps: Seq<Move>| #[trigger] pseudo_buffer(*board, GenType::All, ps)
            && r == state_of(*board, ps.filter(|m: Move| board.legal(m)).len() == 0),
        !has_legal_move(*board) ==> r == state_of(*board, true),
        !crowded(*board) ==> r == state_of(*board, !has_legal_move(*board)),
        r == GameState::DrawFiftyMoveRule ==> board.halfmove_clock >= 100,
        board.halfmove_clock < 100 ==> r != GameState::DrawFiftyMoveRule,
        !crowded(*board) && has_legal_move(*board) && !insufficient_material(*board) && board.halfmove_clock < 100
            ==> r == GameState::Ongoing,
{
    let moves = generate_legal_moves(board);
    proof {
        if !crowded(*board) && has_legal_move(*board) {
            let ps = choose|ps: Seq<Move>| #[trigger] pseudo_buffer(*board, GenType::All, ps)
                && moves@ == ps.filter(|m: Move| board.legal(m));
            law_buffer_complete(*board, GenType::All, ps);
            let m = choose|m: Move| #[trigger] pseudo_move(*board, m, GenType::All) && board.legal(m);
            assert(ps.contains(m));
            let i = choose|i: int| 0 <= i < ps.len() && ps[i] == m;
            ps.lemma_filter_contains(|m: Move| board.legal(m), i);
            assert(moves@.len() > 0);
        }
        law_game_state(*board, moves@.len() == 0);
        law_game_state(*board, !has_legal_move(*board));
    }
    if moves.is_empty() {
        if is_check(board) {
            return GameState::Checkmate;
        } else {
            return GameState::Stalemate;
        }
    }
    if is_insufficient_material(board) {
        return GameState::DrawInsufficientMaterial;
    }
    if board.halfmove_clock >= 100 {
        return GameState::DrawFiftyMoveRule;
    }
    GameState::Ongoing
}

/// Whether the material left is too little for a simple mate.
fn is_insufficient_material(board: &Board) -> (r: bool)
    ensures
        r == insufficient_material(*board),
{
    let total_pieces = board.piece_count();
    if total_pieces > 4 {
        return false;
    }
    if total_pieces == 2 {
        return true;
    }
    if total_pieces == 3 {
        if board.knights[0] != 0 || board.knights[1] != 0 || board.bishops[0] != 0 || board.bishops[1] != 0 {
            return true;
        }
    }
    false
}

/// A move generated for captures or quiets is a move of the full generation.
pub proof fn lemma_pseudo_all(b: Board, m: Move, gen: GenType)
    requires
        pseudo_move(b, m, gen),
    ensures
        pseudo_move(b, m, GenType::All),
{
}

/// Every pseudo-legal move is a capture or a quiet move in the sense of
/// the generation modes.
pub proof fn lemma_pseudo_split(b: Board, m: Move)
    requires
        pseudo_move(b, m, GenType::All),
    ensures
        pseudo_move(b, m, GenType::Captures) || pseudo_move(b, m, GenType::Quiets),
{
}

/// A move the evasion generator produces is a pseudo-legal move.
pub proof fn lemma_evasion_pseudo(b: Board, m: Move)
    requires
        evasion_move(b, m),
    ensures
        pseudo_move(b, m, GenType::All),
{
}

/// A generated capture is made by a piece of the side to move.
pub proof fn lemma_capture_mover(b: Board, m: Move)
    requires
        b.wf(),
        pseudo_move(b, m, GenType::Captures),
    ensures
        b.colors[m.spec_from() as int] == b.side_to_move,
        m.spec_from() != m.spec_to(),
{
    b.lemma_wf_bbs();
    if crate::movegen::rules::king_move(b, m, GenType::Captures) {
        let c = b.side_to_move.spec_idx() as int;
        crate::board::bitboard::lemma_lsb(b.kings[c]);
        assert(in_bb(b.kings[c], b.king_square(c)));
    }
}

/// A generated move with the capture bit is made by a piece of the side to
/// move.
pub proof fn lemma_capture_flag_mover(b: Board, m: Move)
    requires
        b.wf(),
        pseudo_move(b, m, GenType::All),
        m.spec_flags() & flags::CAPTURE != 0,
    ensures
        b.colors[m.spec_from() as int] == b.side_to_move,
{
    b.lemma_wf_bbs();
    if crate::movegen::rules::king_move(b, m, GenType::All) {
        let c = b.side_to_move.spec_idx() as int;
        crate::board::bitboard::lemma_lsb(b.kings[c]);
        assert(in_bb(b.kings[c], b.king_square(c)));
    }
    assert(flags::KING_CASTLE & flags::CAPTURE == 0) by (bit_vector);
    assert(flags::QUEEN_CASTLE & flags::CAPTURE == 0) by (bit_vector);
}

impl Board {
    /// Whether `m` is among the generated pseudo-legal moves of the side to
    /// move.
    pub fn is_pseudo_legal(&self, m: Move) -> (r: bool)
        requires
            self.wf(),
        ensures
            exists|ps: Seq<Move>| #[trigger] pseudo_buffer(*self, GenType::All, ps) && r == ps.contains(m),
            r ==> pseudo_move(*self, m, GenType::All),
            !crowded(*self) ==> r == pseudo_move(*self, m, GenType::All),
    {
        let moves = generate_pseudo_legal_moves(self);
        let n = moves.len();
        let mut i: usize = 0;
        while i < n
            invariant
                i <= n,
                n == moves@.len(),
                pseudo_buffer(*self, GenType::All, moves@),
                forall|j: int| 0 <= j < i ==> moves@[j] != m,
            decreases n - i,
        {
            if moves.get(i) == m {
                assert(moves@.contains(m));
                return true;
            }
            i = i + 1;
        }
        assert(!moves@.contains(m));
        proof {
            if !crowded(*self) {
                law_buffer_complete(*self, GenType::All, moves@);
            }
        }
        false
    }
}

/// Boards with the same squares, side, rights and en passant square
/// generate the same moves.
pub proof fn lemma_pseudo_restored(b1: Board, b0: Board, m: Move, gen: GenType)
    requires
        crate::board::make_move::restores(b1, b0),
    ensures
        pseudo_move(b1, m, gen) == pseudo_move(b0, m, gen),
{
    assert(b1.pieces =~= b0.pieces);
    assert(b1.colors =~= b0.colors);
    assert forall|t: int, c: Color, occ: u64| b1.attacked_with_occ(t, c, occ) == b0.attacked_with_occ(t, c, occ) by {
        assert forall|a: int| b1.attacks_from(a, t, c, occ) == #[trigger] b0.attacks_from(a, t, c, occ) by {}
        if b1.attacked_with_occ(t, c, occ) {
            let a = choose|a: int| #[trigger] b1.attacks_from(a, t, c, occ);
            assert(b0.attacks_from(a, t, c, occ));
        }
        if b0.attacked_with_occ(t, c, occ) {
            let a = choose|a: int| #[trigger] b0.attacks_from(a, t, c, occ);
            assert(b1.attacks_from(a, t, c, occ));
        }
    }
}

/// Boards with the same squares and state test moves for legality alike,
/// and can play and test the same moves.
pub proof fn lemma_legal_with_restored(b1: Board, b0: Board, m: Move, pinned: u64, checkers: u64)
    requires
        crate::board::make_move::restores(b1, b0),
    ensures
        b1.legal_with(m, pinned, checkers) == b0.legal_with(m, pinned, checkers),
        b1.en_passant_checkable(m) == b0.en_passant_checkable(m),
        crate::board::make_move::move_reversible(b1, m) == crate::board::make_move::move_reversible(b0, m),
{
    assert(b1.pieces =~= b0.pieces);
    assert(b1.colors =~= b0.colors);
    assert forall|a: int, t: int, c: Color, occ: u64| #[trigger] b1.attacks_from(a, t, c, occ) == b0.attacks_from(a, t, c, occ) by {}
    assert forall|t: int, c: Color, occ: u64| #[trigger] b1.attacked_with_occ(t, c, occ) == b0.attacked_with_occ(t, c, occ) by {
        if b1.attacked_with_occ(t, c, occ) {
            let a = choose|a: int| #[trigger] b1.attacks_from(a, t, c, occ);
            assert(b0.attacks_from(a, t, c, occ));
        }
        if b0.attacked_with_occ(t, c, occ) {
            let a = choose|a: int| #[trigger] b0.attacks_from(a, t, c, occ);
            assert(b1.attacks_from(a, t, c, occ));
        }
    }
    assert(b1.our_king() == b0.our_king());
    assert(b1.in_check(b1.side_to_move) == b0.in_check(b0.side_to_move));
    assert(b1.castle_legal(m) == b0.castle_legal(m));
    assert(b1.ep_legal(m) == b0.ep_legal(m)) by {
        let from = m.spec_from() as int;
        let to = m.spec_to() as int;
        let v = b0.ep_victim(to);
        let occ = ((b0.all_occupancy ^ spec_bit(from)) ^ spec_bit(v)) | spec_bit(to);
        let k = b0.our_king();
        let e = b0.side_to_move.spec_opposite();
        assert(b1.ep_victim(to) == v);
        if b0.ep_legal(m) {
            assert forall|a: int| a != v implies !#[trigger] b1.attacks_from(a, k, e, occ) by {
                assert(!b0.attacks_from(a, k, e, occ));
            }
        }
        if b1.ep_legal(m) {
            assert forall|a: int| a != v implies !#[trigger] b0.attacks_from(a, k, e, occ) by {
                assert(!b1.attacks_from(a, k, e, occ));
            }
        }
    }
}

/// When the side to move has a king, the en passant test can be carried
/// out for every pseudo-legal move.
pub proof fn lemma_king_ep_checkable(b: Board)
    requires
        b.wf(),
        b.kings[b.us()] != 0,
    ensures
        ep_checkable(b),
{
    assert forall|m: Move| #[trigger] pseudo_move(b, m, GenType::All) implies b.en_passant_checkable(m) by {
        if b.reaches_en_passant(m) {
            let from = m.spec_from() as int;
            let to = m.spec_to() as int;
            assert(m.spec_flags() == flags::EN_PASSANT);
            assert(crate::movegen::rules::pawn_en_passant(b, from, to));
        }
    }
}

} // verus!
