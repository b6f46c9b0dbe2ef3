//! The move rules the generators follow, stated over the board's squares.
use vstd::prelude::*;
use crate::board::board::Board;
use crate::board::piece::{Color, PieceType};
use crate::board::moves::{Move, flags};
use crate::board::castling;
use crate::board::bitboard::in_bb;
use crate::geometry::{knight_step, king_step, bishop_attack, rook_attack, pawn_step, rank_of};
use crate::movegen::GenType;

verus! {

/// Whether a move may land on `to` under the generation mode: never on an
/// own piece; only on enemy pieces for captures; never on them for quiets.
pub open spec fn gen_target(b: Board, to: int, gen: GenType) -> bool {
    let side = b.side_to_move;
    let enemy = side.spec_opposite();
    &&& 0 <= to < 64
    &&& b.colors[to] != side
    &&& (gen == GenType::Captures ==> b.colors[to] == enemy)
    &&& (gen == GenType::Quiets ==> b.colors[to] != enemy)
}

/// The flag of a non-special move to `to`: capture when an enemy stands there.
pub open spec fn plain_flag(b: Board, to: int) -> u8 {
    if b.colors[to] == b.side_to_move.spec_opposite() {
        flags::CAPTURE
    } else {
        flags::QUIET
    }
}

/// A knight move of the side to move.
pub open spec fn knight_move(b: Board, m: Move, gen: GenType) -> bool {
    let from = m.spec_from() as int;
    let to = m.spec_to() as int;
    &&& b.pieces[from] == PieceType::Knight
    &&& b.colors[from] == b.side_to_move
    &&& knight_step(from, to)
    &&& gen_target(b, to, gen)
    &&& m.spec_flags() == plain_flag(b, to)
}

/// A bishop, rook or queen move of the side to move.
pub open spec fn slider_move(b: Board, m: Move, gen: GenType) -> bool {
    let from = m.spec_from() as int;
    let to = m.spec_to() as int;
    let pt = b.pieces[from];
    let occ = b.all_occupancy;
    &&& b.colors[from] == b.side_to_move
    &&& ((pt == PieceType::Bishop && bishop_attack(from, occ, to)) || (pt == PieceType::Rook
        && rook_attack(from, occ, to)) || (pt == PieceType::Queen && (bishop_attack(from, occ, to)
        || rook_attack(from, occ, to))))
    &&& gen_target(b, to, gen)
    &&& m.spec_flags() == plain_flag(b, to)
}

/// The piece type of a slider kind: 0 bishop, 1 rook, 2 queen.
pub open spec fn slider_kind_type(kind: int) -> PieceType {
    if kind == 0 {
        PieceType::Bishop
    } else if kind == 1 {
        PieceType::Rook
    } else {
        PieceType::Queen
    }
}

/// Whether a slider of the given kind on `from` reaches `to`.
pub open spec fn slider_kind_attack(kind: int, from: int, occ: u64, to: int) -> bool {
    if kind == 0 {
        bishop_attack(from, occ, to)
    } else if kind == 1 {
        rook_attack(from, occ, to)
    } else {
        bishop_attack(from, occ, to) || rook_attack(from, occ, to)
    }
}

/// A move of a slider of the given kind of the side to move.
pub open spec fn slider_kind_move(b: Board, m: Move, gen: GenType, kind: int) -> bool {
    let from = m.spec_from() as int;
    let to = m.spec_to() as int;
    &&& b.pieces[from] == slider_kind_type(kind)
    &&& b.colors[from] == b.side_to_move
    &&& slider_kind_attack(kind, from, b.all_occupancy, to)
    &&& gen_target(b, to, gen)
    &&& m.spec_flags() == plain_flag(b, to)
}

/// A one-step king move of the side to move (from its king square).
pub open spec fn king_move(b: Board, m: Move, gen: GenType) -> bool {
    let from = m.spec_from() as int;
    let to = m.spec_to() as int;
    let c = b.side_to_move.spec_idx() as int;
    &&& b.kings[c] != 0
    &&& from == b.king_square(c)
    &&& king_step(from, to)
    &&& gen_target(b, to, gen)
    &&& m.spec_flags() == plain_flag(b, to)
}

/// A castling move of the side to move: the right is held, the squares
/// between king and rook are empty, and the king's start, passage and
/// target squares are not attacked.
pub open spec fn castle_move(b: Board, m: Move) -> bool {
    let from = m.spec_from() as int;
    let to = m.spec_to() as int;
    let f = m.spec_flags();
    let occ = b.all_occupancy;
    let cr = b.castling_rights;
    if b.side_to_move == Color::White {
        ||| (from == 4 && to == 6 && f == flags::KING_CASTLE && cr & castling::WHITE_KING != 0
            && !in_bb(occ, 5) && !in_bb(occ, 6) && !b.attacked_with_occ(4, Color::Black, occ)
            && !b.attacked_with_occ(5, Color::Black, occ) && !b.attacked_with_occ(6, Color::Black, occ))
        ||| (from == 4 && to == 2 && f == flags::QUEEN_CASTLE && cr & castling::WHITE_QUEEN != 0
            && !in_bb(occ, 1) && !in_bb(occ, 2) && !in_bb(occ, 3) && !b.attacked_with_occ(4, Color::Black, occ)
            && !b.attacked_with_occ(3, Color::Black, occ) && !b.attacked_with_occ(2, Color::Black, occ))
    } else {
        ||| (from == 60 && to == 62 && f == flags::KING_CASTLE && cr & castling::BLACK_KING != 0
            && !in_bb(occ, 61) && !in_bb(occ, 62) && !b.attacked_with_occ(60, Color::White, occ)
            && !b.attacked_with_occ(61, Color::White, occ) && !b.attacked_with_occ(62, Color::White, occ))
        ||| (from == 60 && to == 58 && f == flags::QUEEN_CASTLE && cr & castling::BLACK_QUEEN != 0
            && !in_bb(occ, 57) && !in_bb(occ, 58) && !in_bb(occ, 59) && !b.attacked_with_occ(60, Color::White, occ)
            && !b.attacked_with_occ(59, Color::White, occ) && !b.attacked_with_occ(58, Color::White, occ))
    }
}

/// The moves the king generator produces: one-step king moves and, except
/// for capture generation, castling when the side has a king.
pub open spec fn king_gen_move(b: Board, m: Move, gen: GenType) -> bool {
    king_move(b, m, gen) || (gen != GenType::Captures && b.kings[b.side_to_move.spec_idx() as int] != 0
        && castle_move(b, m))
}

/// The square `n` steps ahead of `s` for the given side (white moves up the board).
pub open spec fn ahead(white: bool, s: int, n: int) -> int {
    if white {
        s + n
    } else {
        s - n
    }
}

/// A pawn of the side to move stands on `s`.
pub open spec fn own_pawn(b: Board, s: int) -> bool {
    0 <= s < 64 && b.pieces[s] == PieceType::Pawn && b.colors[s] == b.side_to_move
}

/// Square `s` is empty.
pub open spec fn empty_square(b: Board, s: int) -> bool {
    0 <= s < 64 && b.colors[s] == Color::NoColor
}

/// Square `s` holds a piece of the opponent of the side to move.
pub open spec fn enemy_square(b: Board, s: int) -> bool {
    0 <= s < 64 && b.colors[s] == b.side_to_move.spec_opposite()
}

/// The rank on which the side's pawns promote.
pub open spec fn last_rank(white: bool, s: int) -> bool {
    rank_of(s) == (if white { 7int } else { 0int })
}

/// The rank from which the side's pawns may advance two squares.
pub open spec fn start_rank(white: bool, s: int) -> bool {
    rank_of(s) == (if white { 1int } else { 6int })
}

/// A one-square pawn advance to an empty square.
pub open spec fn pawn_push(b: Board, from: int, to: int) -> bool {
    let white = b.side_to_move == Color::White;
    own_pawn(b, from) && to == ahead(white, from, 8) && empty_square(b, to)
}

/// A two-square pawn advance from the start rank over an empty square.
pub open spec fn pawn_double(b: Board, from: int, to: int) -> bool {
    let white = b.side_to_move == Color::White;
    &&& own_pawn(b, from)
    &&& start_rank(white, from)
    &&& empty_square(b, ahead(white, from, 8))
    &&& to == ahead(white, from, 16)
    &&& empty_square(b, to)
}

/// A diagonal pawn capture of an enemy piece.
pub open spec fn pawn_capture(b: Board, from: int, to: int) -> bool {
    own_pawn(b, from) && pawn_step(b.side_to_move == Color::White, from, to) && enemy_square(b, to)
}

/// A diagonal pawn step to the en passant square.
pub open spec fn pawn_en_passant(b: Board, from: int, to: int) -> bool {
    &&& own_pawn(b, from)
    &&& pawn_step(b.side_to_move == Color::White, from, to)
    &&& b.en_passant_square == Some(to as u8)
}

/// The flags of the promotions by a push: the queen always, the other
/// pieces except for capture generation.
pub open spec fn push_promotion_flag(f: u8, gen: GenType) -> bool {
    f == flags::PROMOTE_QUEEN || (gen != GenType::Captures && (f == flags::PROMOTE_KNIGHT || f
        == flags::PROMOTE_BISHOP || f == flags::PROMOTE_ROOK))
}

/// The flags of the promotions by a capture.
pub open spec fn capture_promotion_flag(f: u8) -> bool {
    f == flags::PROMOTE_KNIGHT_CAPTURE || f == flags::PROMOTE_BISHOP_CAPTURE || f
        == flags::PROMOTE_ROOK_CAPTURE || f == flags::PROMOTE_QUEEN_CAPTURE
}

/// The moves the pawn generator produces. Pushes and double pushes are
/// left out of capture generation; captures and en passant out of quiet
/// generation; promotions by a push always include the queen.
pub open spec fn pawn_gen_move(b: Board, m: Move, gen: GenType) -> bool {
    let white = b.side_to_move == Color::White;
    let from = m.spec_from() as int;
    let to = m.spec_to() as int;
    let f = m.spec_flags();
    ||| gen != GenType::Captures && pawn_push(b, from, to) && !last_rank(white, to) && f == flags::QUIET
    ||| gen != GenType::Captures && pawn_double(b, from, to) && f == flags::DOUBLE_PAWN
    ||| pawn_push(b, from, to) && last_rank(white, to) && push_promotion_flag(f, gen)
    ||| gen != GenType::Quiets && pawn_capture(b, from, to) && !last_rank(white, to) && f == flags::CAPTURE
    ||| gen != GenType::Quiets && pawn_capture(b, from, to) && last_rank(white, to) && capture_promotion_flag(f)
    ||| gen != GenType::Quiets && pawn_en_passant(b, from, to) && f == flags::EN_PASSANT
}

/// A pseudo-legal move of the side to move under the generation mode.
pub open spec fn pseudo_move(b: Board, m: Move, gen: GenType) -> bool {
    ||| pawn_gen_move(b, m, gen)
    ||| knight_move(b, m, gen)
    ||| slider_move(b, m, gen)
    ||| king_gen_move(b, m, gen)
}

/// A pseudo-legal move of a piece other than the king.
pub open spec fn non_king_move(b: Board, m: Move) -> bool {
    ||| pawn_gen_move(b, m, GenType::All)
    ||| knight_move(b, m, GenType::All)
    ||| slider_move(b, m, GenType::All)
}

} // verus!
