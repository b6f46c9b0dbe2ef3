//! Syzygy endgame tablebases: the engine's attack generators for the
//! prober, the position in the prober's terms, the scores of probe results
//! and the choice of a root move from a DTZ probe. Loading the tables and
//! probing them is done by the caller, which hands the results in.
use vstd::prelude::*;
use crate::board::board::Board;
use crate::board::piece::Color;
use crate::board::moves::{Move, flags};
use crate::board::bitboard::{in_bb, count_bits, popcount};
use crate::geometry::{knight_step, king_step, bishop_attack, rook_attack, pawn_step};
use crate::movegen::king::get_king_attacks;
use crate::movegen::knight::get_knight_attacks;
use crate::movegen::pawn::get_pawn_attacks;
use crate::movegen::{generate_legal_moves, ep_checkable, pseudo_buffer, GenType};
use crate::magic::{get_bishop_attacks, get_rook_attacks};

verus! {

broadcast use crate::board::bitboard::group_bitboard;

/// The score of a tablebase win (less the distance to the root).
pub const TB_VALUE: i32 = 20000;

/// The attack generators the tablebase prober calls, on squares 0 (a1) to
/// 63 (h8).
#[derive(Clone, Copy)]
pub struct RedlineTbAdapter;

impl RedlineTbAdapter {
    /// The squares a pawn of the given color on `sq` attacks.
    pub fn pawn_attacks(white: bool, sq: u64) -> (r: u64)
        requires
            sq < 64,
        ensures
            forall|s: int| #[trigger] in_bb(r, s) <==> pawn_step(white, sq as int, s),
    {
        let c = if white { Color::White } else { Color::Black };
        get_pawn_attacks(sq as u8, c)
    }

    /// The squares a knight on `sq` attacks.
    pub fn knight_attacks(sq: u64) -> (r: u64)
        requires
            sq < 64,
        ensures
            forall|s: int| #[trigger] in_bb(r, s) <==> knight_step(sq as int, s),
    {
        get_knight_attacks(sq as u8)
    }

    /// The squares a bishop on `sq` attacks through the occupancy.
    pub fn bishop_attacks(sq: u64, occupied: u64) -> (r: u64)
        requires
            sq < 64,
        ensures
            forall|s: int| #[trigger] in_bb(r, s) <==> bishop_attack(sq as int, occupied, s),
    {
        get_bishop_attacks(sq as u8, occupied)
    }

    /// The squares a rook on `sq` attacks through the occupancy.
    pub fn rook_attacks(sq: u64, occupied: u64) -> (r: u64)
        requires
            sq < 64,
        ensures
            forall|s: int| #[trigger] in_bb(r, s) <==> rook_attack(sq as int, occupied, s),
    {
        get_rook_attacks(sq as u8, occupied)
    }

    /// The squares a queen on `sq` attacks through the occupancy.
    pub fn queen_attacks(sq: u64, occupied: u64) -> (r: u64)
        requires
            sq < 64,
        ensures
            forall|s: int| #[trigger] in_bb(r, s) <==> bishop_attack(sq as int, occupied, s) || rook_attack(
                sq as int,
                occupied,
                s,
            ),
    {
        get_bishop_attacks(sq as u8, occupied) | get_rook_attacks(sq as u8, occupied)
    }

    /// The squares a king on `sq` attacks.
    pub fn king_attacks(sq: u64) -> (r: u64)
        requires
            sq < 64,
        ensures
            forall|s: int| #[trigger] in_bb(r, s) <==> king_step(sq as int, s),
    {
        get_king_attacks(sq as u8)
    }
}

/// A win/draw/loss result, for the side to move.
#[derive(Clone, Copy, PartialEq, Eq, Debug, Structural)]
pub enum Wdl {
    Loss,
    /// A loss the fifty-move rule saves.
    BlessedLoss,
    Draw,
    /// A win the fifty-move rule spoils.
    CursedWin,
    Win,
}

/// The piece a tablebase move promotes to (`Pawn` for none).
#[derive(Clone, Copy, PartialEq, Eq, Debug, Structural)]
pub enum TbPiece {
    Pawn,
    Knight,
    Bishop,
    Rook,
    Queen,
    King,
}

/// A root move with its DTZ probe result.
#[derive(Clone, Copy)]
pub struct DtzMove {
    pub wdl: Wdl,
    pub from_square: u8,
    pub to_square: u8,
    pub promotion: TbPiece,
    pub ep: bool,
    pub dtz: u16,
}

/// The DTZ probe value of a position or a root move.
#[derive(Clone, Copy)]
pub enum DtzValue {
    Checkmate,
    Stalemate,
    Failed,
    Result(DtzMove),
}

/// A root DTZ probe: the value of the position and of its moves (the first
/// `num_moves`, at most 256, are meaningful).
pub struct DtzProbeResult {
    pub root: DtzValue,
    pub moves: Vec<DtzValue>,
    pub num_moves: usize,
}

/// The position in the prober's terms: white and black occupancy, kings,
/// queens, rooks, bishops, knights and pawns of both colors, the en passant
/// square (0 for none) and whether White is to move.
pub struct TbArgs {
    pub white: u64,
    pub black: u64,
    pub kings: u64,
    pub queens: u64,
    pub rooks: u64,
    pub bishops: u64,
    pub knights: u64,
    pub pawns: u64,
    pub ep: u32,
    pub turn: bool,
}

/// The position in the prober's terms.
pub fn board_tb_args(board: &Board) -> (a: TbArgs)
    ensures
        a.white == board.occupancy[0],
        a.black == board.occupancy[1],
        a.kings == board.kings[0] | board.kings[1],
        a.queens == board.queens[0] | board.queens[1],
        a.rooks == board.rooks[0] | board.rooks[1],
        a.bishops == board.bishops[0] | board.bishops[1],
        a.knights == board.knights[0] | board.knights[1],
        a.pawns == board.pawns[0] | board.pawns[1],
        a.ep == (match board.en_passant_square {
            Some(s) => s as u32,
            None => 0,
        }),
        a.turn == (board.side_to_move == Color::White),
{
    let ep: u32 = match board.en_passant_square {
        Some(s) => s as u32,
        None => 0,
    };
    TbArgs {
        white: board.occupancy[0],
        black: board.occupancy[1],
        kings: board.kings[0] | board.kings[1],
        queens: board.queens[0] | board.queens[1],
        rooks: board.rooks[0] | board.rooks[1],
        bishops: board.bishops[0] | board.bishops[1],
        knights: board.knights[0] | board.knights[1],
        pawns: board.pawns[0] | board.pawns[1],
        ep,
        turn: board.side_to_move == Color::White,
    }
}

/// Whether a position can be probed, given the largest number of pieces
/// the loaded tables cover (`None` when no tables are loaded): no castling
/// rights and few enough pieces.
pub fn can_probe(board: &Board, max_pieces: Option<u32>) -> (r: bool)
    ensures
        r == (match max_pieces {
            Some(n) => board.castling_rights == 0 && popcount(board.all_occupancy) <= n,
            None => false,
        }),
{
    match max_pieces {
        None => false,
        Some(n) => {
            if board.castling_rights != 0 {
                return false;
            }
            count_bits(board.all_occupancy) <= n
        },
    }
}

/// The order of results from worst to best for the side to move.
pub open spec fn wdl_rank_spec(wdl: Wdl) -> int {
    match wdl {
        Wdl::Loss => 0,
        Wdl::BlessedLoss => 1,
        Wdl::Draw => 2,
        Wdl::CursedWin => 3,
        Wdl::Win => 4,
    }
}

/// The order of results from worst to best for the side to move.
pub fn wdl_rank(wdl: Wdl) -> (r: i32)
    ensures
        r == wdl_rank_spec(wdl),
{
    match wdl {
        Wdl::Loss => 0,
        Wdl::BlessedLoss => 1,
        Wdl::Draw => 2,
        Wdl::CursedWin => 3,
        Wdl::Win => 4,
    }
}

/// The score of a result at `ply`: a win (loss) is worth `TB_VALUE` less
/// (more) the distance from the root; a cursed win or blessed loss is
/// two short of that, undiminished; a draw is 0.
pub open spec fn wdl_score(wdl: Wdl, ply: int) -> int {
    match wdl {
        Wdl::Loss => -TB_VALUE + ply,
        Wdl::BlessedLoss => -TB_VALUE + 2 + ply,
        Wdl::Draw => 0,
        Wdl::CursedWin => TB_VALUE - 2 - ply,
        Wdl::Win => TB_VALUE - ply,
    }
}

/// The score of a result at `ply` (see [`wdl_score`]).
pub fn wdl_to_score(wdl: Wdl, ply: u32) -> (r: i32)
    requires
        ply <= i32::MAX,
    ensures
        r == wdl_score(wdl, ply as int),
{
    let base: i32 = match wdl {
        Wdl::Loss => -TB_VALUE,
        Wdl::BlessedLoss => -TB_VALUE + 2,
        Wdl::Draw => 0,
        Wdl::CursedWin => TB_VALUE - 2,
        Wdl::Win => TB_VALUE,
    };
    let magnitude = if base < 0 { -base } else { base };
    if magnitude >= TB_VALUE - 100 {
        if base > 0 {
            base - ply as i32
        } else {
            base + ply as i32
        }
    } else {
        base
    }
}

/// The score of a WDL probe at `ply`, if the probe succeeded.
pub fn probe_wdl_score(wdl: Option<Wdl>, ply: u32) -> (r: Option<i32>)
    requires
        ply <= i32::MAX,
    ensures
        r == (match wdl {
            Some(w) => Some(wdl_score(w, ply as int) as i32),
            None => None,
        }),
{
    match wdl {
        Some(w) => Some(wdl_to_score(w, ply)),
        None => None,
    }
}

/// The promotion flag for a piece (with the capture bit when capturing);
/// the quiet flag for a pawn or king.
pub open spec fn promo_flag(p: TbPiece, capture: bool) -> u8 {
    let base: u8 = match p {
        TbPiece::Knight => flags::PROMOTE_KNIGHT,
        TbPiece::Bishop => flags::PROMOTE_BISHOP,
        TbPiece::Rook => flags::PROMOTE_ROOK,
        TbPiece::Queen => flags::PROMOTE_QUEEN,
        _ => flags::QUIET,
    };
    if base == flags::QUIET {
        flags::QUIET
    } else if capture {
        base | flags::CAPTURE
    } else {
        base
    }
}

/// The promotion flag for a piece (see [`promo_flag`]).
fn tb_piece_to_promo_flag(p: TbPiece, capture: bool) -> (r: u8)
    ensures
        r == promo_flag(p, capture),
{
    let base = match p {
        TbPiece::Knight => flags::PROMOTE_KNIGHT,
        TbPiece::Bishop => flags::PROMOTE_BISHOP,
        TbPiece::Rook => flags::PROMOTE_ROOK,
        TbPiece::Queen => flags::PROMOTE_QUEEN,
        _ => {
            return flags::QUIET;
        },
    };
    if capture {
        base | flags::CAPTURE
    } else {
        base
    }
}

/// Whether a move is the tablebase move from `from` to `to` promoting to
/// `promo`: without promotion, an en passant capture (when `ep`) or any
/// move that is not a promotion; with one, the promotion to that piece.
pub open spec fn dtz_match(m: Move, from: u8, to: u8, promo: TbPiece, ep: bool) -> bool {
    &&& m.spec_from() == from
    &&& m.spec_to() == to
    &&& if promo == TbPiece::Pawn {
        (ep && m.spec_flags() == flags::EN_PASSANT) || m.spec_flags() < flags::PROMOTE_KNIGHT
    } else {
        m.spec_flags() == promo_flag(promo, m.spec_flags() & flags::CAPTURE != 0)
    }
}

/// The first move of a list that is the tablebase move.
pub open spec fn first_dtz_match(ms: Seq<Move>, from: u8, to: u8, promo: TbPiece, ep: bool) -> Option<Move>
    decreases ms.len(),
{
    if ms.len() == 0 {
        None
    } else if dtz_match(ms[0], from, to, promo, ep) {
        Some(ms[0])
    } else {
        first_dtz_match(ms.drop_first(), from, to, promo, ep)
    }
}

/// The first move of a list that is the tablebase move.
fn match_in(list: &crate::movegen::move_list::MoveList, from: u8, to: u8, promo: TbPiece, ep: bool) -> (r: Option<Move>)
    ensures
        r == first_dtz_match(list@, from, to, promo, ep),
{
    let ghost ls = list@;
    let n = list.len();
    let mut i: usize = 0;
    assert(ls.skip(0) =~= ls);
    while i < n
        invariant
            i <= n,
            n == ls.len(),
            ls == list@,
            first_dtz_match(ls, from, to, promo, ep) == first_dtz_match(ls.skip(i as int), from, to, promo, ep),
        decreases n - i,
    {
        let m = list.get(i);
        assert(ls.skip(i as int)[0] == m);
        assert(ls.skip(i as int).drop_first() =~= ls.skip(i + 1));
        if m.from() == from && m.to() == to {
            if promo == TbPiece::Pawn {
                if ep && m.flags() == flags::EN_PASSANT {
                    assert(dtz_match(m, from, to, promo, ep));
                    return Some(m);
                }
                if m.flags() < flags::PROMOTE_KNIGHT {
                    assert(dtz_match(m, from, to, promo, ep));
                    return Some(m);
                }
            } else {
                let want = tb_piece_to_promo_flag(promo, (m.flags() & flags::CAPTURE) != 0);
                if m.flags() == want {
                    assert(dtz_match(m, from, to, promo, ep));
                    return Some(m);
                }
            }
        }
        i = i + 1;
    }
    assert(ls.skip(n as int) =~= Seq::<Move>::empty());
    None
}

/// The legal move that is the tablebase move (see [`dtz_match`]), the
/// first in generation order, if any.
pub fn dtz_to_move(board: &Board, from: u8, to: u8, promo: TbPiece, ep: bool) -> (r: Option<Move>)
    requires
        board.wf(),
        ep_checkable(*board),
    ensures
        exists|ps: Seq<Move>| #[trigger] pseudo_buffer(*board, GenType::All, ps)
            && r == first_dtz_match(ps.filter(|m: Move| board.legal(m)), from, to, promo, ep),
{
    let legal = generate_legal_moves(board);
    match_in(&legal, from, to, promo, ep)
}

/// Whether a root move with the given rank and DTZ beats the best so far:
/// a better result, or the same result reached sooner when not losing
/// (later when losing).
pub open spec fn dtz_better(rank: int, dtz: int, best_rank: int, best_dtz: int) -> bool {
    ||| rank > best_rank
    ||| (rank == best_rank && rank >= 2 && dtz < best_dtz)
    ||| (rank == best_rank && rank < 2 && dtz > best_dtz)
}

/// The best (move, rank, DTZ) after considering the first `k` probed root
/// moves that are legal moves of `legal`, starting from `init`.
pub open spec fn best_after(legal: Seq<Move>, moves: Seq<DtzValue>, k: int, init: (Move, int, int)) -> (Move, int, int)
    decreases k,
{
    if k <= 0 {
        init
    } else {
        let prev = best_after(legal, moves, k - 1, init);
        match moves[k - 1] {
            DtzValue::Result(mv) => match first_dtz_match(legal, mv.from_square, mv.to_square, mv.promotion, mv.ep) {
                Some(c) => if dtz_better(wdl_rank_spec(mv.wdl), mv.dtz as int, prev.1, prev.2) {
                    (c, wdl_rank_spec(mv.wdl), mv.dtz as int)
                } else {
                    prev
                },
                None => prev,
            },
            _ => prev,
        }
    }
}

/// The root move chosen from a DTZ probe over the legal moves `legal`:
/// none for a failed probe; the null move scoring 0 (stalemate) or
/// `-TB_VALUE` (checkmate); else the best probed move that is legal (see
/// [`dtz_better`]), starting from the position's own result, scored by the
/// position's result.
pub open spec fn pick_spec(legal: Seq<Move>, root: DtzValue, moves: Seq<DtzValue>, num_moves: int) -> Option<(Move, int)> {
    match root {
        DtzValue::Stalemate => Some((Move::spec_from_raw(0), 0)),
        DtzValue::Checkmate => Some((Move::spec_from_raw(0), -TB_VALUE as int)),
        DtzValue::Failed => None,
        DtzValue::Result(r) => match first_dtz_match(legal, r.from_square, r.to_square, r.promotion, r.ep) {
            Some(m) => {
                let n = if num_moves < 256 { num_moves } else { 256 };
                let best = best_after(legal, moves, n, (m, wdl_rank_spec(r.wdl), r.dtz as int));
                Some((best.0, wdl_score(r.wdl, 0)))
            },
            None => None,
        },
    }
}

/// The root move to play from a DTZ probe (see [`pick_spec`]).
pub fn pick_best_dtz_move(board: &Board, result: &DtzProbeResult) -> (r: Option<(Move, i32)>)
    requires
        board.wf(),
        ep_checkable(*board),
        result.moves@.len() == 256,
    ensures
        exists|ps: Seq<Move>| #[trigger] pseudo_buffer(*board, GenType::All, ps)
            && r == (match pick_spec(ps.filter(|m: Move| board.legal(m)), result.root, result.moves@, result.num_moves as int) {
                Some(x) => Some((x.0, x.1 as i32)),
                None => None,
            }),
{
    let legal = generate_legal_moves(board);
    let ghost ls = legal@;
    match result.root {
        DtzValue::Stalemate => {
            return Some((Move::from_raw(0), 0));
        },
        DtzValue::Checkmate => {
            return Some((Move::from_raw(0), -TB_VALUE));
        },
        DtzValue::Failed => {
            return None;
        },
        DtzValue::Result(root) => {
            let first = match_in(&legal, root.from_square, root.to_square, root.promotion, root.ep);
            let mut best_move = match first {
                Some(m) => m,
                None => {
                    return None;
                },
            };
            let mut best_rank = wdl_rank(root.wdl);
            let mut best_dtz = root.dtz;
            let ghost init = (best_move, wdl_rank_spec(root.wdl), root.dtz as int);
            let n = if result.num_moves < 256 { result.num_moves } else { 256 };
            let mut i: usize = 0;
            while i < n
                invariant
                    i <= n,
                    n <= 256,
                    n == (if result.num_moves < 256 { result.num_moves } else { 256 }),
                    result.moves@.len() == 256,
                    ls == legal@,
                    best_after(ls, result.moves@, i as int, init) == (best_move, best_rank as int, best_dtz as int),
                decreases n - i,
            {
                match result.moves[i] {
                    DtzValue::Result(mv) => {
                        let candidate = match_in(&legal, mv.from_square, mv.to_square, mv.promotion, mv.ep);
                        if let Some(c) = candidate {
                            let rank = wdl_rank(mv.wdl);
                            let better = rank > best_rank || (rank == best_rank && rank >= 2 && mv.dtz < best_dtz) || (rank
                                == best_rank && rank < 2 && mv.dtz > best_dtz);
                            if better {
                                best_rank = rank;
                                best_dtz = mv.dtz;
                                best_move = c;
                            }
                        }
                    },
                    _ => {},
                }
                i = i + 1;
            }
            let score = wdl_to_score(root.wdl, 0);
            Some((best_move, score))
        },
    }
}

} // verus!
