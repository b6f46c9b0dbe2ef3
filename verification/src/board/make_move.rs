//! Making and unmaking moves.
use vstd::prelude::*;
use crate::board::bitboard::{in_bb, group_bitboard, lemma_bitboard_ext};
use crate::board::piece::{Color, PieceType};
use crate::board::moves::{Move, flags};
use crate::board::castling;
use crate::board::board::Board;

verus! {

broadcast use group_bitboard;

/// What `make_move` saves so that `unmake_move` can restore the position.
#[derive(Copy, Clone)]
pub struct UndoState {
    pub castling_rights: u8,
    pub en_passant_square: Option<u8>,
    pub halfmove_clock: u16,
    pub captured_piece: PieceType,
    pub last_move: Option<Move>,
    pub hash: u64,
    pub mg_pst: i32,
    pub eg_pst: i32,
    pub pawn_hash: u64,
}

pub open spec fn is_castle_flag(f: u8) -> bool {
    f == flags::KING_CASTLE || f == flags::QUEEN_CASTLE
}

/// The square the castling rook starts from.
pub open spec fn castle_rook_from(side: Color, f: u8) -> int {
    if f == flags::KING_CASTLE {
        if side == Color::White { 7 } else { 63 }
    } else {
        if side == Color::White { 0 } else { 56 }
    }
}

/// The square the castling rook ends on.
pub open spec fn castle_rook_to(side: Color, f: u8) -> int {
    if f == flags::KING_CASTLE {
        if side == Color::White { 5 } else { 61 }
    } else {
        if side == Color::White { 3 } else { 59 }
    }
}

/// The square of the pawn captured en passant on `to`.
pub open spec fn ep_capture_square(side: Color, to: int) -> int {
    if side == Color::White { to - 8 } else { to + 8 }
}

/// The square skipped by a double pawn push from `from`.
pub open spec fn double_push_ep_square(side: Color, from: int) -> int {
    if side == Color::White { from + 8 } else { from - 8 }
}

/// The piece type that lands on the target square.
pub open spec fn landing_type(f: u8, pt: PieceType) -> PieceType {
    if f == flags::PROMOTE_KNIGHT || f == flags::PROMOTE_KNIGHT_CAPTURE {
        PieceType::Knight
    } else if f == flags::PROMOTE_BISHOP || f == flags::PROMOTE_BISHOP_CAPTURE {
        PieceType::Bishop
    } else if f == flags::PROMOTE_ROOK || f == flags::PROMOTE_ROOK_CAPTURE {
        PieceType::Rook
    } else if f == flags::PROMOTE_QUEEN || f == flags::PROMOTE_QUEEN_CAPTURE {
        PieceType::Queen
    } else {
        pt
    }
}

pub open spec fn is_capture_flag(f: u8) -> bool {
    f & flags::CAPTURE != 0
}

/// Castling rights left after a piece leaves `from`: a king move loses
/// both rights of its side, a rook move from a corner loses that right.
pub open spec fn rights_after_from(cr: u8, from: int) -> u8 {
    if from == 4 {
        cr & !(castling::WHITE_KING | castling::WHITE_QUEEN)
    } else if from == 60 {
        cr & !(castling::BLACK_KING | castling::BLACK_QUEEN)
    } else if from == 0 {
        cr & !castling::WHITE_QUEEN
    } else if from == 7 {
        cr & !castling::WHITE_KING
    } else if from == 56 {
        cr & !castling::BLACK_QUEEN
    } else if from == 63 {
        cr & !castling::BLACK_KING
    } else {
        cr
    }
}

/// Castling rights left after a move lands on `to`: capturing on a rook's
/// corner loses that right.
pub open spec fn rights_after_to(cr: u8, to: int) -> u8 {
    if to == 0 {
        cr & !castling::WHITE_QUEEN
    } else if to == 7 {
        cr & !castling::WHITE_KING
    } else if to == 56 {
        cr & !castling::BLACK_QUEEN
    } else if to == 63 {
        cr & !castling::BLACK_KING
    } else {
        cr
    }
}

pub open spec fn castle_update(cr: u8, from: int, to: int) -> u8 {
    rights_after_to(rights_after_from(cr, from), to)
}

/// A move that `make_move` can play without breaking the board: the mover
/// belongs to the side to move, captures only enemy pieces, lands quiet
/// moves on empty squares, and castling and en passant find their pieces.
pub open spec fn move_ok(b: Board, m: Move) -> bool {
    let from = m.spec_from() as int;
    let to = m.spec_to() as int;
    let f = m.spec_flags();
    let side = b.side_to_move;
    let enemy = side.spec_opposite();
    &&& from != to
    &&& b.colors[from] == side
    &&& f == flags::EN_PASSANT ==> {
        let cap = ep_capture_square(side, to);
        &&& 0 <= cap < 64
        &&& b.pieces[cap] == PieceType::Pawn
        &&& b.colors[cap] == enemy
        &&& b.pieces[to] == PieceType::Empty
    }
    &&& is_capture_flag(f) ==> b.colors[to] != side
    &&& !is_capture_flag(f) ==> b.pieces[to] == PieceType::Empty
    &&& is_castle_flag(f) ==> {
        let rf = castle_rook_from(side, f);
        let rt = castle_rook_to(side, f);
        &&& b.pieces[rf] == PieceType::Rook
        &&& b.colors[rf] == side
        &&& rf != from
        &&& rf != to
        &&& b.pieces[rt] == PieceType::Empty
        &&& rt != to
    }
    &&& f == flags::DOUBLE_PAWN ==> 0 <= double_push_ep_square(side, from) < 64
    &&& b.halfmove_clock < 0xFFFF
    &&& b.fullmove_number < 0xFFFF
}

/// A move that `unmake_move` undoes exactly: in addition, promotions are
/// made by pawns (unmaking a promotion puts a pawn back).
pub open spec fn move_reversible(b: Board, m: Move) -> bool {
    move_ok(b, m) && (m.spec_flags() & 8u8 != 0 ==> b.pieces[m.spec_from() as int] == PieceType::Pawn)
}

/// The squares' piece types after the move.
pub open spec fn move_pieces(b: Board, m: Move) -> Seq<PieceType> {
    let from = m.spec_from() as int;
    let to = m.spec_to() as int;
    let f = m.spec_flags();
    let side = b.side_to_move;
    let p0 = b.pieces@;
    let p1 = if f == flags::EN_PASSANT {
        p0.update(ep_capture_square(side, to), PieceType::Empty)
    } else {
        p0
    };
    let p2 = p1.update(from, PieceType::Empty).update(to, landing_type(f, p0[from]));
    if is_castle_flag(f) {
        p2.update(castle_rook_from(side, f), PieceType::Empty).update(
            castle_rook_to(side, f),
            PieceType::Rook,
        )
    } else {
        p2
    }
}

/// The squares' colors after the move.
pub open spec fn move_colors(b: Board, m: Move) -> Seq<Color> {
    let from = m.spec_from() as int;
    let to = m.spec_to() as int;
    let f = m.spec_flags();
    let side = b.side_to_move;
    let c0 = b.colors@;
    let c1 = if f == flags::EN_PASSANT {
        c0.update(ep_capture_square(side, to), Color::NoColor)
    } else {
        c0
    };
    let c2 = c1.update(from, Color::NoColor).update(to, side);
    if is_castle_flag(f) {
        c2.update(castle_rook_from(side, f), Color::NoColor).update(castle_rook_to(side, f), side)
    } else {
        c2
    }
}

/// The undo record `make_move` returns for `m` on `b`.
pub open spec fn undo_record(b: Board, m: Move, st: UndoState) -> bool {
    &&& st.castling_rights == b.castling_rights
    &&& st.en_passant_square == b.en_passant_square
    &&& st.halfmove_clock == b.halfmove_clock
    &&& st.captured_piece == b.pieces[m.spec_to() as int]
    &&& st.last_move == b.last_move
    &&& st.hash == b.hash
    &&& st.mg_pst == b.mg_pst
    &&& st.eg_pst == b.eg_pst
    &&& st.pawn_hash == b.pawn_hash
}

/// `b1` is the board after playing `m` on `b0`, and `st` is the undo record.
pub open spec fn made_from(b0: Board, m: Move, st: UndoState, b1: Board) -> bool {
    let from = m.spec_from() as int;
    let to = m.spec_to() as int;
    let f = m.spec_flags();
    &&& b0.wf()
    &&& b1.wf()
    &&& undo_record(b0, m, st)
    &&& b1.pieces@ == move_pieces(b0, m)
    &&& b1.colors@ == move_colors(b0, m)
    &&& b1.side_to_move == b0.side_to_move.spec_opposite()
    &&& b1.castling_rights == castle_update(b0.castling_rights, from, to)
    &&& b1.en_passant_square == (if f == flags::DOUBLE_PAWN {
        Some(double_push_ep_square(b0.side_to_move, from) as u8)
    } else {
        None
    })
    &&& b1.halfmove_clock == (if b0.pieces[from] == PieceType::Pawn || is_capture_flag(f) {
        0int
    } else {
        b0.halfmove_clock + 1
    })
    &&& b1.fullmove_number == (if b0.side_to_move == Color::Black {
        b0.fullmove_number + 1
    } else {
        b0.fullmove_number as int
    })
    &&& b1.last_move == Some(m)
    &&& b1.history@ == b0.history@.push(b0.hash)
    &&& b1.keys == b0.keys
}

/// Law: after a move the other side is to move, the move number grows by
/// one after Black's move only, the en passant square is the square a
/// double pawn push skipped (none after any other move), and the move
/// played is recorded with the previous position's hash in the history.
pub proof fn law_move_bookkeeping(b0: Board, m: Move, st: UndoState, b1: Board)
    requires
        made_from(b0, m, st, b1),
    ensures
        b0.side_to_move == Color::White ==> b1.side_to_move == Color::Black,
        b0.side_to_move == Color::Black ==> b1.side_to_move == Color::White,
        b0.side_to_move == Color::Black ==> b1.fullmove_number == b0.fullmove_number + 1,
        b0.side_to_move == Color::White ==> b1.fullmove_number == b0.fullmove_number,
        m.spec_flags() == 1 && b0.side_to_move == Color::White ==> b1.en_passant_square == Some(
            (m.spec_from() + 8) as u8,
        ),
        m.spec_flags() == 1 && b0.side_to_move == Color::Black ==> b1.en_passant_square == Some(
            (m.spec_from() - 8) as u8,
        ),
        m.spec_flags() != 1 ==> b1.en_passant_square is None,
        b1.last_move == Some(m),
        b1.history@.len() == b0.history@.len() + 1,
        b1.history@.last() == b0.hash,
{
}

/// Law: a move with the capture bit in its flag, a pawn move, and a move
/// that takes an enemy piece off its square reset the halfmove clock to
/// 0; any other move adds one to it.
pub proof fn law_halfmove_clock(b0: Board, m: Move, st: UndoState, b1: Board)
    requires
        made_from(b0, m, st, b1),
        move_ok(b0, m),
    ensures
        m.spec_flags() & flags::CAPTURE != 0 ==> b1.halfmove_clock == 0,
        b0.pieces[m.spec_from() as int] == PieceType::Pawn ==> b1.halfmove_clock == 0,
        (exists|s: int|
            0 <= s < 64 && b0.colors[s] == b0.side_to_move.spec_opposite() && #[trigger] b1.colors[s]
                != b0.colors[s]) ==> b1.halfmove_clock == 0,
        m.spec_flags() & flags::CAPTURE == 0 && b0.pieces[m.spec_from() as int] != PieceType::Pawn
            ==> b1.halfmove_clock == b0.halfmove_clock + 1,
{
    let f = m.spec_flags();
    let side = b0.side_to_move;
    let enemy = side.spec_opposite();
    let from = m.spec_from() as int;
    let to = m.spec_to() as int;
    assert(side == Color::White || side == Color::Black);
    assert(enemy != side && enemy != Color::NoColor);
    if exists|s: int| 0 <= s < 64 && b0.colors[s] == enemy && #[trigger] b1.colors[s] != b0.colors[s] {
        let s = choose|s: int| 0 <= s < 64 && b0.colors[s] == enemy && #[trigger] b1.colors[s] != b0.colors[s];
        if !is_capture_flag(f) {
            crate::board::moves::lemma_move_fields_range(m);
            assert(0 <= to < 64);
            assert(b0.pieces[to] == PieceType::Empty);
            assert(b0.colors[to] == Color::NoColor);
            assert(f != flags::EN_PASSANT) by {
                assert(flags::EN_PASSANT & flags::CAPTURE != 0) by (bit_vector);
            }
            assert(s != from && s != to);
            let c2 = b0.colors@.update(from, Color::NoColor).update(to, side);
            assert(c2[s] == b0.colors@[s]);
            if is_castle_flag(f) {
                assert(s != castle_rook_from(side, f) && s != castle_rook_to(side, f));
                assert(move_colors(b0, m) == c2.update(castle_rook_from(side, f), Color::NoColor).update(castle_rook_to(side, f), side));
            } else {
                assert(move_colors(b0, m) == c2);
            }
            assert(b1.colors@[s] == b0.colors@[s]);
            assert(b1.colors[s] == b0.colors[s]);
        }
    }
}

pub proof fn lemma_castle_update_range(cr: u8, from: int, to: int)
    requires
        cr < 16,
    ensures
        castle_update(cr, from, to) < 16,
{
    assert(forall|x: u8, y: u8| #![trigger x & y] x < 16 ==> x & y < 16) by (bit_vector);
}


impl Board {
    /// The castling rights after a piece moves from `from` to `to`.
    fn update_castling_rights(&mut self, from: u8, to: u8)
        requires
            old(self).wf(),
        ensures
            final(self).wf(),
            final(self).castling_rights == castle_update(old(self).castling_rights, from as int, to as int),
            final(self).same_squares(*old(self)),
            final(self).pieces == old(self).pieces,
            final(self).colors == old(self).colors,
            final(self).side_to_move == old(self).side_to_move,
            final(self).en_passant_square == old(self).en_passant_square,
            final(self).halfmove_clock == old(self).halfmove_clock,
            final(self).fullmove_number == old(self).fullmove_number,
            final(self).last_move == old(self).last_move,
            final(self).history@ == old(self).history@,
            final(self).keys == old(self).keys,
            final(self).hash == old(self).hash,
            final(self).pawn_hash == old(self).pawn_hash,
            final(self).mg_pst == old(self).mg_pst,
            final(self).eg_pst == old(self).eg_pst,
    {
        let ghost before = *self;
        proof {
            lemma_castle_update_range(self.castling_rights, from as int, to as int);
        }
        let mut cr = self.castling_rights;
        if from == 4 {
            cr = cr & !(castling::WHITE_KING | castling::WHITE_QUEEN);
        } else if from == 60 {
            cr = cr & !(castling::BLACK_KING | castling::BLACK_QUEEN);
        } else if from == 0 {
            cr = cr & !castling::WHITE_QUEEN;
        } else if from == 7 {
            cr = cr & !castling::WHITE_KING;
        } else if from == 56 {
            cr = cr & !castling::BLACK_QUEEN;
        } else if from == 63 {
            cr = cr & !castling::BLACK_KING;
        }
        if to == 0 {
            cr = cr & !castling::WHITE_QUEEN;
        } else if to == 7 {
            cr = cr & !castling::WHITE_KING;
        } else if to == 56 {
            cr = cr & !castling::BLACK_QUEEN;
        } else if to == 63 {
            cr = cr & !castling::BLACK_KING;
        }
        self.castling_rights = cr;
        proof {
            Board::lemma_wf_transfer(before, *self);
        }
    }

    /// Plays a move and returns what is needed to take it back.
    pub fn make_move(&mut self, m: Move) -> (state: UndoState)
        requires
            old(self).wf(),
            move_ok(*old(self), m),
        ensures
            made_from(*old(self), m, state, *final(self)),
            old(self).hash == old(self).hash_spec() ==> final(self).hash == final(self).hash_spec(),
            m.spec_flags() & flags::CAPTURE != 0 ==> final(self).halfmove_clock == 0,
            old(self).pieces[m.spec_from() as int] == PieceType::Pawn ==> final(self).halfmove_clock == 0,
            (exists|s: int|
                0 <= s < 64 && old(self).colors[s] == old(self).side_to_move.spec_opposite()
                    && #[trigger] final(self).colors[s] != old(self).colors[s]) ==> final(self).halfmove_clock == 0,
    {
        let ghost b0 = *self;
        let from = m.from();
        let to = m.to();
        let f = m.flags();
        let side = self.side_to_move;
        let enemy = side.opposite();
        let state = UndoState {
            castling_rights: self.castling_rights,
            en_passant_square: self.en_passant_square,
            halfmove_clock: self.halfmove_clock,
            captured_piece: self.pieces[to as usize],
            last_move: self.last_move,
            hash: self.hash,
            mg_pst: self.mg_pst,
            eg_pst: self.eg_pst,
            pawn_hash: self.pawn_hash,
        };
        let ghost before_last = *self;
        self.last_move = Some(m);
        proof {
            Board::lemma_wf_transfer(before_last, *self);
        }
        let pt = self.pieces[from as usize];
        let ghost p0 = self.pieces@;
        let ghost c0 = self.colors@;
        assert(pt != PieceType::Empty);

        // Captures.
        if f == flags::EN_PASSANT {
            let cap_sq = if side == Color::White { to - 8 } else { to + 8 };
            self.remove_piece(cap_sq, PieceType::Pawn, enemy);
        } else if (f & flags::CAPTURE) != 0 {
            if state.captured_piece != PieceType::Empty {
                self.remove_piece(to, state.captured_piece, enemy);
            }
        }
        let ghost p1 = self.pieces@;
        let ghost c1 = self.colors@;

        // Move the piece.
        self.remove_piece(from, pt, side);
        let mut new_pt = pt;
        if (f & 0x8) != 0 {
            new_pt = if f == flags::PROMOTE_KNIGHT || f == flags::PROMOTE_KNIGHT_CAPTURE {
                PieceType::Knight
            } else if f == flags::PROMOTE_BISHOP || f == flags::PROMOTE_BISHOP_CAPTURE {
                PieceType::Bishop
            } else if f == flags::PROMOTE_ROOK || f == flags::PROMOTE_ROOK_CAPTURE {
                PieceType::Rook
            } else if f == flags::PROMOTE_QUEEN || f == flags::PROMOTE_QUEEN_CAPTURE {
                PieceType::Queen
            } else {
                pt
            };
        }
        proof {
            lemma_low_flags(f);
        }
        assert(new_pt == landing_type(f, pt));
        self.put_piece(to, new_pt, side);
        let ghost p2 = self.pieces@;
        let ghost c2 = self.colors@;

        // Castling moves the rook too.
        if f == flags::KING_CASTLE {
            if side == Color::White {
                self.remove_piece(7, PieceType::Rook, Color::White);
                self.put_piece(5, PieceType::Rook, Color::White);
            } else {
                self.remove_piece(63, PieceType::Rook, Color::Black);
                self.put_piece(61, PieceType::Rook, Color::Black);
            }
        } else if f == flags::QUEEN_CASTLE {
            if side == Color::White {
                self.remove_piece(0, PieceType::Rook, Color::White);
                self.put_piece(3, PieceType::Rook, Color::White);
            } else {
                self.remove_piece(56, PieceType::Rook, Color::Black);
                self.put_piece(59, PieceType::Rook, Color::Black);
            }
        }
        assert(self.pieces@ =~= move_pieces(b0, m));
        assert(self.colors@ =~= move_colors(b0, m));

        // Metadata.
        proof {
            lemma_castle_update_range(self.castling_rights, from as int, to as int);
        }
        let ghost hm = self.hash;
        let ghost sq1 = self.squares_hash();
        assert(hm ^ sq1 == b0.hash ^ b0.squares_hash());
        let mut h = self.hash;
        h = h ^ self.keys.hash_castling(self.castling_rights);
        self.update_castling_rights(from, to);
        h = h ^ self.keys.hash_castling(self.castling_rights);

        h = h ^ self.keys.hash_en_passant(self.en_passant_square);
        let ghost before_ep = *self;
        if f == flags::DOUBLE_PAWN {
            self.en_passant_square = Some(if side == Color::White { from + 8 } else { from - 8 });
        } else {
            self.en_passant_square = None;
        }
        proof {
            Board::lemma_wf_transfer(before_ep, *self);
        }
        h = h ^ self.keys.hash_en_passant(self.en_passant_square);

        let ghost before_clock = *self;
        if pt == PieceType::Pawn || (f & flags::CAPTURE) != 0 {
            self.halfmove_clock = 0;
        } else {
            self.halfmove_clock = self.halfmove_clock + 1;
        }
        if side == Color::Black {
            self.fullmove_number = self.fullmove_number + 1;
        }
        self.side_to_move = enemy;
        h = h ^ self.keys.hash_side();
        self.hash = h;
        self.history.push(state.hash);
        proof {
            Board::lemma_wf_transfer(before_clock, *self);
            assert(self.squares_hash() == sq1);
            lemma_side_key_flip(b0.keys.side_to_move, b0.side_to_move, self.side_to_move);
            if b0.hash == b0.hash_spec() {
                lemma_rehash(
                    hm,
                    sq1,
                    b0.hash,
                    b0.squares_hash(),
                    side_key(b0),
                    side_key(*self),
                    b0.keys.castling[b0.castling_rights as int],
                    self.keys.castling[self.castling_rights as int],
                    b0.keys.spec_hash_en_passant(b0.en_passant_square),
                    self.keys.spec_hash_en_passant(self.en_passant_square),
                    b0.keys.side_to_move,
                );
            }
            law_halfmove_clock(b0, m, state, *self);
        }
        state
    }

    /// Takes back a move played by `make_move`, given its undo record.
    ///
    /// The position before the move is restored: the squares, bitboards,
    /// side to move, castling rights, en passant square, clocks, last move,
    /// history, hashes and scores.
    #[verifier::rlimit(40)]
    pub fn unmake_move(&mut self, m: Move, state: UndoState)
        requires
            exists|b0: Board| move_reversible(b0, m) && #[trigger] made_from(b0, m, state, *old(self)),
        ensures
            final(self).wf(),
            forall|b0: Board| move_reversible(b0, m) && #[trigger] made_from(b0, m, state, *old(self))
                ==> restores(*final(self), b0),
    {
        let ghost b0 = choose|b0: Board| move_reversible(b0, m) && #[trigger] made_from(b0, m, state, *self);
        let ghost b1 = *self;
        self.castling_rights = state.castling_rights;
        self.en_passant_square = state.en_passant_square;
        self.halfmove_clock = state.halfmove_clock;
        self.hash = state.hash;
        self.mg_pst = state.mg_pst;
        self.eg_pst = state.eg_pst;
        self.pawn_hash = state.pawn_hash;
        if self.side_to_move == Color::White {
            self.fullmove_number = self.fullmove_number - 1;
        }
        self.side_to_move = self.side_to_move.opposite();
        self.last_move = state.last_move;
        self.history.pop();
        proof {
            Board::lemma_wf_squares_transfer(b1, *self);
        }

        let side = self.side_to_move;
        let enemy = side.opposite();
        let from = m.from();
        let to = m.to();
        let f = m.flags();

        let pt = self.pieces[to as usize];
        self.remove_piece_no_hash(to, pt, side);
        let original_pt = if (f & 0x8) != 0 { PieceType::Pawn } else { pt };
        proof {
            lemma_low_flags(f);
        }
        assert(original_pt == b0.pieces[from as int]);
        self.put_piece_no_hash(from, original_pt, side);

        if f == flags::EN_PASSANT {
            let cap_sq = if side == Color::White { to - 8 } else { to + 8 };
            self.put_piece_no_hash(cap_sq, PieceType::Pawn, enemy);
        } else if state.captured_piece != PieceType::Empty {
            self.put_piece_no_hash(to, state.captured_piece, enemy);
        }

        if f == flags::KING_CASTLE {
            if side == Color::White {
                self.remove_piece_no_hash(5, PieceType::Rook, Color::White);
                self.put_piece_no_hash(7, PieceType::Rook, Color::White);
            } else {
                self.remove_piece_no_hash(61, PieceType::Rook, Color::Black);
                self.put_piece_no_hash(63, PieceType::Rook, Color::Black);
            }
        } else if f == flags::QUEEN_CASTLE {
            if side == Color::White {
                self.remove_piece_no_hash(3, PieceType::Rook, Color::White);
                self.put_piece_no_hash(0, PieceType::Rook, Color::White);
            } else {
                self.remove_piece_no_hash(59, PieceType::Rook, Color::Black);
                self.put_piece_no_hash(56, PieceType::Rook, Color::Black);
            }
        }
        proof {
            assert(self.pieces@ =~= b0.pieces@);
            assert(self.colors@ =~= b0.colors@);
            lemma_wf_squares_unique(*self, b0);
            assert forall|b: Board| move_reversible(b, m) && #[trigger] made_from(b, m, state, b1)
                implies restores(*self, b) by {
                assert(original_pt == b.pieces[from as int]);
                assert(b.side_to_move == side);
                assert(state.captured_piece == b.pieces[to as int]);
                assert(self.pieces@ =~= b.pieces@);
                assert(self.colors@ =~= b.colors@);
                lemma_wf_squares_unique(*self, b);
                assert(self.side_to_move == b.side_to_move);
                assert(self.castling_rights == b.castling_rights);
                assert(self.en_passant_square == b.en_passant_square);
                assert(self.halfmove_clock == b.halfmove_clock);
                assert(self.fullmove_number == b.fullmove_number);
                assert(self.last_move == b.last_move);
                assert(self.history@ == b.history@);
                assert(self.hash == b.hash);
                assert(self.keys == b.keys);
            }
        }
    }
}

/// `b1` is the board after passing the turn on `b0`, and `st` the undo record.
pub open spec fn null_made_from(b0: Board, st: UndoState, b1: Board) -> bool {
    &&& b0.wf()
    &&& b1.wf()
    &&& st.castling_rights == b0.castling_rights
    &&& st.en_passant_square == b0.en_passant_square
    &&& st.halfmove_clock == b0.halfmove_clock
    &&& st.captured_piece == PieceType::Empty
    &&& st.last_move == b0.last_move
    &&& st.hash == b0.hash
    &&& st.mg_pst == b0.mg_pst
    &&& st.eg_pst == b0.eg_pst
    &&& st.pawn_hash == b0.pawn_hash
    &&& b1.pieces@ == b0.pieces@
    &&& b1.colors@ == b0.colors@
    &&& b1.same_squares(b0)
    &&& b1.side_to_move == b0.side_to_move.spec_opposite()
    &&& b1.castling_rights == b0.castling_rights
    &&& b1.en_passant_square.is_none()
    &&& b1.halfmove_clock == b0.halfmove_clock
    &&& b1.fullmove_number == (if b0.side_to_move == Color::Black {
        b0.fullmove_number + 1
    } else {
        b0.fullmove_number as int
    })
    &&& b1.last_move.is_none()
    &&& b1.history@ == b0.history@.push(b0.hash)
    &&& b1.hash == b0.hash ^ b0.keys.spec_hash_en_passant(b0.en_passant_square)
        ^ b0.keys.spec_hash_en_passant(None) ^ b0.keys.side_to_move
    &&& b1.pawn_hash == b0.pawn_hash
    &&& b1.mg_pst == b0.mg_pst
    &&& b1.eg_pst == b0.eg_pst
    &&& b1.keys == b0.keys
}

/// Flag values without the promotion bit are below 8.
pub proof fn lemma_low_flags(f: u8)
    ensures
        f < 16 && f & 0x8u8 == 0 ==> f < 8,
        f < 16 && f & 0x8u8 != 0 ==> 8 <= f,
        f & 4u8 != 0 <==> (f % 8 >= 4),
{
    assert(f < 16 && f & 0x8u8 == 0 ==> f < 8) by (bit_vector);
    assert(f < 16 && f & 0x8u8 != 0 ==> 8 <= f) by (bit_vector);
    assert(f & 4u8 != 0 <==> (f % 8 >= 4)) by (bit_vector);
}

/// `b` has the contents of `b0`: squares, bitboards and every scalar field.
pub open spec fn restores(b: Board, b0: Board) -> bool {
    &&& b.pieces@ == b0.pieces@
    &&& b.colors@ == b0.colors@
    &&& b.same_squares(b0)
    &&& b.side_to_move == b0.side_to_move
    &&& b.castling_rights == b0.castling_rights
    &&& b.en_passant_square == b0.en_passant_square
    &&& b.halfmove_clock == b0.halfmove_clock
    &&& b.fullmove_number == b0.fullmove_number
    &&& b.last_move == b0.last_move
    &&& b.history@ == b0.history@
    &&& b.hash == b0.hash
    &&& b.pawn_hash == b0.pawn_hash
    &&& b.mg_pst == b0.mg_pst
    &&& b.eg_pst == b0.eg_pst
    &&& b.keys == b0.keys
}

/// Consistent boards with the same squares have the same bitboards.
pub proof fn lemma_wf_squares_unique(a: Board, b: Board)
    requires
        a.wf_squares(),
        b.wf_squares(),
        a.pieces@ == b.pieces@,
        a.colors@ == b.colors@,
    ensures
        a.same_squares(b),
{
    a.lemma_wf_bbs();
    b.lemma_wf_bbs();
    assert forall|c: int| 0 <= c < 2 implies a.pawns[c] == b.pawns[c] && a.knights[c] == b.knights[c]
        && a.bishops[c] == b.bishops[c] && a.rooks[c] == b.rooks[c] && a.queens[c] == b.queens[c]
        && a.kings[c] == b.kings[c] && a.occupancy[c] == b.occupancy[c] by {
        assert forall|s: int| 0 <= s < 64 implies #[trigger] in_bb(a.pawns[c], s) == in_bb(b.pawns[c], s) by {
            assert(a.pieces[s] == a.pieces@[s] && b.pieces[s] == b.pieces@[s]);
            assert(a.colors[s] == a.colors@[s] && b.colors[s] == b.colors@[s]);
        }
        lemma_bitboard_ext(a.pawns[c], b.pawns[c]);
        assert forall|s: int| 0 <= s < 64 implies #[trigger] in_bb(a.knights[c], s) == in_bb(b.knights[c], s) by {
            assert(a.pieces[s] == a.pieces@[s] && b.pieces[s] == b.pieces@[s]);
            assert(a.colors[s] == a.colors@[s] && b.colors[s] == b.colors@[s]);
        }
        lemma_bitboard_ext(a.knights[c], b.knights[c]);
        assert forall|s: int| 0 <= s < 64 implies #[trigger] in_bb(a.bishops[c], s) == in_bb(b.bishops[c], s) by {
            assert(a.pieces[s] == a.pieces@[s] && b.pieces[s] == b.pieces@[s]);
            assert(a.colors[s] == a.colors@[s] && b.colors[s] == b.colors@[s]);
        }
        lemma_bitboard_ext(a.bishops[c], b.bishops[c]);
        assert forall|s: int| 0 <= s < 64 implies #[trigger] in_bb(a.rooks[c], s) == in_bb(b.rooks[c], s) by {
            assert(a.pieces[s] == a.pieces@[s] && b.pieces[s] == b.pieces@[s]);
            assert(a.colors[s] == a.colors@[s] && b.colors[s] == b.colors@[s]);
        }
        lemma_bitboard_ext(a.rooks[c], b.rooks[c]);
        assert forall|s: int| 0 <= s < 64 implies #[trigger] in_bb(a.queens[c], s) == in_bb(b.queens[c], s) by {
            assert(a.pieces[s] == a.pieces@[s] && b.pieces[s] == b.pieces@[s]);
            assert(a.colors[s] == a.colors@[s] && b.colors[s] == b.colors@[s]);
        }
        lemma_bitboard_ext(a.queens[c], b.queens[c]);
        assert forall|s: int| 0 <= s < 64 implies #[trigger] in_bb(a.kings[c], s) == in_bb(b.kings[c], s) by {
            assert(a.pieces[s] == a.pieces@[s] && b.pieces[s] == b.pieces@[s]);
            assert(a.colors[s] == a.colors@[s] && b.colors[s] == b.colors@[s]);
        }
        lemma_bitboard_ext(a.kings[c], b.kings[c]);
        assert forall|s: int| 0 <= s < 64 implies #[trigger] in_bb(a.occupancy[c], s) == in_bb(b.occupancy[c], s) by {
            assert(a.colors[s] == a.colors@[s] && b.colors[s] == b.colors@[s]);
        }
        lemma_bitboard_ext(a.occupancy[c], b.occupancy[c]);
    }
    assert(a.pawns =~= b.pawns);
    assert(a.knights =~= b.knights);
    assert(a.bishops =~= b.bishops);
    assert(a.rooks =~= b.rooks);
    assert(a.queens =~= b.queens);
    assert(a.kings =~= b.kings);
    assert(a.occupancy =~= b.occupancy);
    assert forall|s: int| 0 <= s < 64 implies #[trigger] in_bb(a.all_occupancy, s) == in_bb(b.all_occupancy, s) by {
        assert(a.colors[s] == a.colors@[s] && b.colors[s] == b.colors@[s]);
    }
    lemma_bitboard_ext(a.all_occupancy, b.all_occupancy);
    assert(a.pieces =~= b.pieces);
    assert(a.colors =~= b.colors);
}


/// The side-to-move part of a position's hash.
pub open spec fn side_key(b: Board) -> u64 {
    if b.side_to_move == Color::Black {
        b.keys.side_to_move
    } else {
        0
    }
}

proof fn lemma_side_key_flip(k: u64, s0: Color, s1: Color)
    requires
        s0 != Color::NoColor,
        s1 == s0.spec_opposite(),
    ensures
        (if s1 == Color::Black { k } else { 0u64 }) == (if s0 == Color::Black { k } else { 0u64 }) ^ k,
{
    assert(0u64 ^ k == k && k ^ k == 0u64) by (bit_vector);
}

/// Updating the hash of a position whose squares changed (`hm` against
/// `sq1`, as `h0` against `sq0`), with the castling, en passant and side
/// keys swapped, gives the hash from scratch.
proof fn lemma_rehash(hm: u64, sq1: u64, h0: u64, sq0: u64, s0: u64, s1: u64, c0: u64, c1: u64, e0: u64, e1: u64, k: u64)
    by (bit_vector)
    requires
        hm ^ sq1 == h0 ^ sq0,
        h0 == sq0 ^ s0 ^ c0 ^ e0,
        s1 == s0 ^ k,
    ensures
        hm ^ c0 ^ c1 ^ e0 ^ e1 ^ k == sq1 ^ s1 ^ c1 ^ e1,
{
}

/// Passing the turn swaps the en passant and side keys of a hash from
/// scratch.
proof fn lemma_null_rehash(h0: u64, sq0: u64, s0: u64, s1: u64, c0: u64, e0: u64, e1: u64, k: u64)
    by (bit_vector)
    requires
        h0 == sq0 ^ s0 ^ c0 ^ e0,
        s1 == s0 ^ k,
    ensures
        h0 ^ e0 ^ e1 ^ k == sq0 ^ s1 ^ c0 ^ e1,
{
}

impl Board {
    /// Passes the turn (a null move) and returns what is needed to take it back.
    pub fn make_null_move(&mut self) -> (state: UndoState)
        requires
            old(self).wf(),
            old(self).fullmove_number < 0xFFFF,
        ensures
            null_made_from(*old(self), state, *final(self)),
            old(self).hash == old(self).hash_spec() ==> final(self).hash == final(self).hash_spec(),
    {
        let ghost b0 = *self;
        let state = UndoState {
            castling_rights: self.castling_rights,
            en_passant_square: self.en_passant_square,
            halfmove_clock: self.halfmove_clock,
            captured_piece: PieceType::Empty,
            last_move: self.last_move,
            hash: self.hash,
            mg_pst: self.mg_pst,
            eg_pst: self.eg_pst,
            pawn_hash: self.pawn_hash,
        };
        self.last_move = None;
        self.history.push(self.hash);
        let mut h = self.hash ^ self.keys.hash_en_passant(self.en_passant_square);
        self.en_passant_square = None;
        h = h ^ self.keys.hash_en_passant(self.en_passant_square);
        if self.side_to_move == Color::Black {
            self.fullmove_number = self.fullmove_number + 1;
        }
        self.side_to_move = self.side_to_move.opposite();
        h = h ^ self.keys.hash_side();
        self.hash = h;
        proof {
            Board::lemma_wf_transfer(b0, *self);
            lemma_side_key_flip(b0.keys.side_to_move, b0.side_to_move, self.side_to_move);
            if b0.hash == b0.hash_spec() {
                lemma_null_rehash(
                    b0.hash,
                    b0.squares_hash(),
                    side_key(b0),
                    side_key(*self),
                    b0.keys.castling[b0.castling_rights as int],
                    b0.keys.spec_hash_en_passant(b0.en_passant_square),
                    self.keys.spec_hash_en_passant(self.en_passant_square),
                    b0.keys.side_to_move,
                );
            }
        }
        state
    }

    /// Takes back a null move, given its undo record.
    pub fn unmake_null_move(&mut self, state: UndoState)
        requires
            exists|b0: Board| #[trigger] null_made_from(b0, state, *old(self)),
        ensures
            final(self).wf(),
            forall|b0: Board| #[trigger] null_made_from(b0, state, *old(self)) ==> restores(*final(self), b0),
    {
        let ghost b1 = *self;
        self.castling_rights = state.castling_rights;
        self.en_passant_square = state.en_passant_square;
        self.halfmove_clock = state.halfmove_clock;
        self.hash = state.hash;
        self.mg_pst = state.mg_pst;
        self.eg_pst = state.eg_pst;
        if self.side_to_move == Color::White {
            self.fullmove_number = self.fullmove_number - 1;
        }
        self.side_to_move = self.side_to_move.opposite();
        self.last_move = state.last_move;
        self.history.pop();
        proof {
            Board::lemma_wf_transfer(b1, *self);
            assert forall|b0: Board| #[trigger] null_made_from(b0, state, b1) implies restores(*self, b0) by {
                assert(self.pieces@ == b0.pieces@);
                assert(self.colors@ == b0.colors@);
                assert(self.same_squares(b0));
                assert(self.side_to_move == b0.side_to_move);
                assert(self.fullmove_number == b0.fullmove_number);
                assert(self.history@ == b0.history@);
                assert(self.pawn_hash == b0.pawn_hash);
                assert(self.keys == b0.keys);
            }
        }
    }

    /// Whether the current position occurred before within the reach of
    /// the halfmove clock: among the last `halfmove_clock` entries of the
    /// history.
    pub fn is_repetition(&self) -> (r: bool)
        ensures
            r <==> exists|i: int|
                self.history@.len() - self.halfmove_clock <= i < self.history@.len() && 0 <= i
                    && #[trigger] self.history@[i] == self.hash,
    {
        if self.history.len() == 0 {
            return false;
        }
        let len = self.history.len();
        let start = len.saturating_sub(self.halfmove_clock as usize);
        let mut i = len;
        while i > start
            invariant
                start <= i <= len,
                len == self.history@.len(),
                start as int == (if len >= self.halfmove_clock { len - self.halfmove_clock } else { 0 }),
                forall|j: int| i <= j < len ==> #[trigger] self.history@[j] != self.hash,
            decreases i,
        {
            i = i - 1;
            if self.history[i] == self.hash {
                return true;
            }
        }
        false
    }
}

/// Restoring is transitive.
pub proof fn lemma_restores_trans(a: Board, b: Board, c: Board)
    requires
        restores(a, b),
        restores(b, c),
    ensures
        restores(a, c),
{
}

/// Every board restores itself.
pub proof fn lemma_restores_refl(a: Board)
    ensures
        restores(a, a),
{
}

/// A board that restores the board after a move is also the board after
/// that move.
pub proof fn lemma_made_from_restored(b0: Board, m: Move, st: UndoState, b1: Board, b2: Board)
    requires
        made_from(b0, m, st, b1),
        restores(b2, b1),
        b2.wf(),
    ensures
        made_from(b0, m, st, b2),
{
}

/// A board that restores the board after a null move is also the board
/// after that null move.
pub proof fn lemma_null_made_from_restored(b0: Board, st: UndoState, b1: Board, b2: Board)
    requires
        null_made_from(b0, st, b1),
        restores(b2, b1),
        b2.wf(),
    ensures
        null_made_from(b0, st, b2),
{
}

} // verus!
