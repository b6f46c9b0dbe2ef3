//! Legality checks for pseudo-legal moves.
use vstd::prelude::*;
use crate::board::bitboard::{in_bb, bit, spec_bit, count_bits, popcount, lsb, group_bitboard, intersects, lemma_lsb, lemma_popcount_one, lemma_bitboard_ext, only_square};
use crate::board::board::Board;
use crate::board::castling;
use crate::board::moves::{Move, flags};
use crate::board::piece::{Color, PieceType};
use crate::geometry::{pawn_step, knight_step, king_step, bishop_attack, rook_attack, strictly_between, on_line};
use crate::magic::{get_bishop_attacks, get_rook_attacks, aligned};
use crate::movegen::knight::get_knight_attacks;
use crate::movegen::king::get_king_attacks;
use crate::movegen::pawn::get_pawn_attacks;

verus! {

broadcast use group_bitboard, crate::board::moves::lemma_move_fields_range;

impl Board {
    /// The color index of the side to move.
    pub open spec fn us(self) -> int {
        self.side_to_move.spec_idx() as int
    }

    /// The square of the king of the side to move.
    pub open spec fn our_king(self) -> int {
        self.king_square(self.us())
    }

    /// Whether the members of `x` are exactly the pieces checking the king
    /// of `color`.
    pub open spec fn holds_checkers(self, color: Color, x: u64) -> bool {
        forall|a: int| #[trigger]
            in_bb(x, a) <==> self.is_checker(self.king_square(color.spec_idx() as int), color, a)
    }

    /// The pieces giving check to the king of `color`, as a bitboard.
    pub open spec fn checker_bb(self, color: Color) -> u64 {
        choose|x: u64| #[trigger] self.holds_checkers(color, x)
    }

    /// A bitboard with exactly the checkers as members is the checker bitboard.
    pub proof fn lemma_checker_bb(self, color: Color, x: u64)
        requires
            forall|a: int| #[trigger]
                in_bb(x, a) <==> self.is_checker(self.king_square(color.spec_idx() as int), color, a),
        ensures
            self.checker_bb(color) == x,
    {
        assert(self.holds_checkers(color, x));
        let y = self.checker_bb(color);
        assert forall|a: int| 0 <= a < 64 implies #[trigger] in_bb(x, a) == in_bb(y, a) by {}
        lemma_bitboard_ext(x, y);
    }

    /// The square of the pawn an en passant capture onto `to` removes.
    pub open spec fn ep_victim(self, to: int) -> int {
        if self.side_to_move == Color::White {
            to - 8
        } else {
            to + 8
        }
    }

    /// Whether checking `m` reaches the en passant test: an en passant move
    /// of a piece of the side to move onto the en passant square.
    pub open spec fn reaches_en_passant(self, m: Move) -> bool {
        &&& m.spec_flags() == flags::EN_PASSANT
        &&& self.colors[m.spec_from() as int] == self.side_to_move
        &&& self.colors[m.spec_to() as int] != self.side_to_move
        &&& self.en_passant_square == Some(m.spec_to())
    }

    /// The en passant test can be carried out for `m`: the captured square
    /// is on the board and, when a pawn stands there, the side has a king.
    pub open spec fn en_passant_checkable(self, m: Move) -> bool {
        self.reaches_en_passant(m) ==> {
            let v = self.ep_victim(m.spec_to() as int);
            &&& 0 <= v < 64
            &&& self.pieces[v] == PieceType::Pawn ==> self.kings[self.us()] != 0
        }
    }

    /// Legality of a castling move: the king on its start square, not in
    /// check, the right held, the squares between king and rook empty, and
    /// the king's start, passage and target squares not attacked.
    pub open spec fn castle_legal(self, m: Move) -> bool {
        let white = self.side_to_move == Color::White;
        let e = self.side_to_move.spec_opposite();
        let occ = self.all_occupancy;
        let kingside = m.spec_flags() == flags::KING_CASTLE;
        let kf: int = if white { 4 } else { 60 };
        let kt: int = if kingside { kf + 2 } else { kf - 2 };
        let pass: int = if kingside { kf + 1 } else { kf - 1 };
        let right: u8 = if kingside {
            if white { castling::WHITE_KING } else { castling::BLACK_KING }
        } else {
            if white { castling::WHITE_QUEEN } else { castling::BLACK_QUEEN }
        };
        let empty_between = if kingside {
            !in_bb(occ, kf + 1) && !in_bb(occ, kf + 2)
        } else {
            !in_bb(occ, kf - 1) && !in_bb(occ, kf - 2) && !in_bb(occ, kf - 3)
        };
        &&& self.kings[self.us()] == spec_bit(kf)
        &&& !self.in_check(self.side_to_move)
        &&& self.castling_rights & right != 0
        &&& empty_between
        &&& !self.attacked_with_occ(kf, e, occ)
        &&& !self.attacked_with_occ(pass, e, occ)
        &&& !self.attacked_with_occ(kt, e, occ)
    }

    /// Legality of an en passant move: `to` is the en passant square, a pawn
    /// stands on the captured square, and with the capturing pawn moved and
    /// the captured one gone no enemy piece but the captured pawn attacks
    /// the king.
    pub open spec fn ep_legal(self, m: Move) -> bool {
        let from = m.spec_from() as int;
        let to = m.spec_to() as int;
        let v = self.ep_victim(to);
        let occ = ((self.all_occupancy ^ spec_bit(from)) ^ spec_bit(v)) | spec_bit(to);
        &&& self.en_passant_square == Some(m.spec_to())
        &&& self.pieces[v] == PieceType::Pawn
        &&& forall|a: int| a != v ==> !#[trigger] self.attacks_from(a, self.our_king(), self.side_to_move.spec_opposite(), occ)
    }

    /// A king step to `to` is safe: `to` is not attacked once the king has
    /// left its square.
    pub open spec fn king_step_safe(self, from: int, to: int) -> bool {
        !self.attacked_with_occ(to, self.side_to_move.spec_opposite(), self.all_occupancy ^ spec_bit(from))
    }

    /// A move of a piece in `pinned` must stay on the line through the king.
    pub open spec fn pin_ok(self, from: int, to: int, pinned: u64) -> bool {
        !in_bb(pinned, from) || on_line(from, to, self.our_king())
    }

    /// A piece on `from` moving to `to` keeps the king covered from a pin:
    /// it is not pinned, or it stays on its line through the king.
    pub open spec fn pin_free(self, from: int, to: int) -> bool {
        self.kings[self.us()] == 0 || !self.is_pinned(self.our_king(), self.side_to_move, from) || on_line(
            from,
            to,
            self.our_king(),
        )
    }

    /// Legality while in check: a king step to a safe square; with one
    /// checker, capturing it or blocking a sliding checker, by a piece that
    /// is not pinned away from its line through the king.
    pub open spec fn check_evasion_legal(self, m: Move) -> bool {
        let from = m.spec_from() as int;
        let to = m.spec_to() as int;
        let checkers = self.checker_bb(self.side_to_move);
        let c = lsb(checkers);
        if popcount(checkers) == 0 {
            true
        } else if self.pieces[from] == PieceType::King {
            self.king_step_safe(from, to)
        } else if popcount(checkers) > 1 {
            false
        } else if to == c {
            self.pin_free(from, to)
        } else if self.pieces[c] == PieceType::Knight || self.pieces[c] == PieceType::Pawn {
            false
        } else {
            strictly_between(c, self.our_king(), to) && self.pin_free(from, to)
        }
    }

    /// The legality test of a move of the side to move.
    pub open spec fn legal(self, m: Move) -> bool {
        let from = m.spec_from() as int;
        let to = m.spec_to() as int;
        let f = m.spec_flags();
        let side = self.side_to_move;
        if self.colors[from] != side {
            false
        } else if self.colors[to] == side {
            false
        } else if f == flags::KING_CASTLE || f == flags::QUEEN_CASTLE {
            self.castle_legal(m)
        } else if f == flags::EN_PASSANT {
            self.ep_legal(m)
        } else if !self.in_check(side) {
            if self.pieces[from] == PieceType::King {
                self.king_step_safe(from, to)
            } else {
                self.pin_free(from, to)
            }
        } else {
            self.check_evasion_legal(m)
        }
    }

    /// Legality while in check, given the pinned pieces and the checkers.
    pub open spec fn check_evasion_legal_with(self, m: Move, pinned: u64, checkers: u64) -> bool {
        let from = m.spec_from() as int;
        let to = m.spec_to() as int;
        let c = lsb(checkers);
        if self.pieces[from] == PieceType::King {
            self.king_step_safe(from, to)
        } else if popcount(checkers) > 1 {
            false
        } else if to == c {
            self.pin_ok(from, to, pinned)
        } else if self.pieces[c] == PieceType::Knight || self.pieces[c] == PieceType::Pawn {
            false
        } else {
            strictly_between(c, self.our_king(), to) && self.pin_ok(from, to, pinned)
        }
    }

    /// The legality test of a move, given the pinned pieces and the checkers.
    pub open spec fn legal_with(self, m: Move, pinned: u64, checkers: u64) -> bool {
        let from = m.spec_from() as int;
        let to = m.spec_to() as int;
        let f = m.spec_flags();
        let side = self.side_to_move;
        if self.colors[from] != side {
            false
        } else if self.colors[to] == side {
            false
        } else if f == flags::KING_CASTLE || f == flags::QUEEN_CASTLE {
            self.castle_legal(m)
        } else if f == flags::EN_PASSANT {
            self.ep_legal(m)
        } else if checkers == 0 {
            if self.pieces[from] == PieceType::King {
                self.king_step_safe(from, to)
            } else {
                self.pin_ok(from, to, pinned)
            }
        } else {
            self.check_evasion_legal_with(m, pinned, checkers)
        }
    }

    /// Whether the test of `m` with the given masks looks for the king: for
    /// a pinned piece's move, or for blocking a check.
    pub open spec fn needs_king_with(self, m: Move, pinned: u64, checkers: u64) -> bool {
        let from = m.spec_from() as int;
        let to = m.spec_to() as int;
        let f = m.spec_flags();
        &&& self.colors[from] == self.side_to_move
        &&& self.colors[to] != self.side_to_move
        &&& f != flags::KING_CASTLE && f != flags::QUEEN_CASTLE && f != flags::EN_PASSANT
        &&& self.pieces[from] != PieceType::King
        &&& if checkers == 0 {
            in_bb(pinned, from)
        } else {
            popcount(checkers) <= 1 && (to == lsb(checkers) ==> in_bb(pinned, from))
                && (to != lsb(checkers) ==> self.pieces[lsb(checkers)] != PieceType::Knight
                && self.pieces[lsb(checkers)] != PieceType::Pawn)
        }
    }
}

impl Board {
    /// Whether a piece of the side to move on `from` may move to `to` given
    /// the pinned pieces: a pinned piece must stay on its line through the king.
    fn is_pinned_move_legal(&self, from: u8, to: u8, pinned: u64) -> (r: bool)
        requires
            self.wf(),
            from < 64,
            to < 64,
            in_bb(pinned, from as int) ==> self.kings[self.us()] != 0,
        ensures
            r == self.pin_ok(from as int, to as int, pinned),
    {
        if !intersects(pinned, bit(from)) {
            return true;
        }
        let king_bb = self.kings[self.side_to_move.idx()];
        proof {
            lemma_lsb(king_bb);
        }
        let king_sq = king_bb.trailing_zeros() as u8;
        aligned(from, to, king_sq)
    }

    /// Whether castling move `m` is legal.
    fn is_legal_castling(&self, m: Move) -> (r: bool)
        requires
            self.wf(),
        ensures
            r == self.castle_legal(m),
    {
        let side = self.side_to_move;
        let white = side == Color::White;
        let king_from: u8 = if white { 4 } else { 60 };
        let f = m.flags();
        let kingside = f == flags::KING_CASTLE;
        if self.kings[side.idx()] != bit(king_from) || self.is_in_check(side) {
            return false;
        }
        let king_to: u8 = if kingside { king_from + 2 } else { king_from - 2 };
        let required_right: u8 = if kingside {
            if white { castling::WHITE_KING } else { castling::BLACK_KING }
        } else {
            if white { castling::WHITE_QUEEN } else { castling::BLACK_QUEEN }
        };
        if (self.castling_rights & required_right) == 0 {
            return false;
        }
        let between_mask: u64 = if kingside {
            bit(king_from + 1) | bit(king_from + 2)
        } else {
            bit(king_from - 1) | bit(king_from - 2) | bit(king_from - 3)
        };
        if intersects(self.all_occupancy, between_mask) {
            return false;
        }
        let passing_sq: u8 = if kingside { king_from + 1 } else { king_from - 1 };
        let enemy = side.opposite();
        !self.is_square_attacked(king_from, enemy) && !self.is_square_attacked(passing_sq, enemy)
            && !self.is_square_attacked(king_to, enemy)
    }

    /// Whether en passant move `m` is legal.
    fn is_legal_en_passant(&self, m: Move) -> (r: bool)
        requires
            self.wf(),
            self.en_passant_checkable(m),
            m.spec_flags() == flags::EN_PASSANT,
            self.colors[m.spec_from() as int] == self.side_to_move,
            self.colors[m.spec_to() as int] != self.side_to_move,
        ensures
            r == self.ep_legal(m),
    {
        proof {
            self.lemma_wf_bbs();
        }
        let side = self.side_to_move;
        let to = m.to();
        let from = m.from();
        if self.en_passant_square != Some(to) {
            return false;
        }
        let cap_sq: u8 = if side == Color::White { to - 8 } else { to + 8 };
        if self.pieces[cap_sq as usize] != PieceType::Pawn {
            return false;
        }
        let king_bb = self.kings[side.idx()];
        proof {
            lemma_lsb(king_bb);
        }
        let king_sq = king_bb.trailing_zeros() as u8;
        let ghost k = king_sq as int;
        let ghost v = cap_sq as int;
        let occ = self.all_occupancy ^ bit(from) ^ bit(cap_sq) | bit(to);
        let enemy = side.opposite();
        let e_idx = enemy.idx();
        let ghost ei = e_idx as int;
        assert(enemy == Color::from_idx(ei));
        let ghost e = enemy;
        assert(k == self.our_king());
        assert(v == self.ep_victim(to as int));
        assert(occ == ((self.all_occupancy ^ spec_bit(from as int)) ^ spec_bit(v)) | spec_bit(to as int));
        // Sliders see the king through the new occupancy.
        let rooks_queens = self.rooks[e_idx] | self.queens[e_idx];
        let bishops_queens = self.bishops[e_idx] | self.queens[e_idx];
        let ra = get_rook_attacks(king_sq, occ);
        if intersects(ra, rooks_queens) {
            let ghost a = choose|a: int| #[trigger] in_bb(ra, a) && in_bb(rooks_queens, a);
            assert(self.attacks_from(a, k, e, occ) && a != v);
            return false;
        }
        let ba = get_bishop_attacks(king_sq, occ);
        if intersects(ba, bishops_queens) {
            let ghost a = choose|a: int| #[trigger] in_bb(ba, a) && in_bb(bishops_queens, a);
            assert(self.attacks_from(a, k, e, occ) && a != v);
            return false;
        }
        let na = get_knight_attacks(king_sq);
        if intersects(na, self.knights[e_idx]) {
            let ghost a = choose|a: int| #[trigger] in_bb(na, a) && in_bb(self.knights[ei], a);
            assert(self.attacks_from(a, k, e, occ) && a != v);
            return false;
        }
        // Enemy pawns, the captured one excepted.
        let enemy_pawns = self.pawns[e_idx] & !bit(cap_sq);
        let pa = get_pawn_attacks(king_sq, side);
        if intersects(pa, enemy_pawns) {
            let ghost a = choose|a: int| #[trigger] in_bb(pa, a) && in_bb(enemy_pawns, a);
            assert(pawn_step(side == Color::White, k, a) <==> pawn_step(e == Color::White, a, k));
            assert(self.attacks_from(a, k, e, occ) && a != v);
            return false;
        }
        let ka = get_king_attacks(king_sq);
        if intersects(ka, self.kings[e_idx]) {
            let ghost a = choose|a: int| #[trigger] in_bb(ka, a) && in_bb(self.kings[ei], a);
            assert(self.attacks_from(a, k, e, occ) && a != v);
            return false;
        }
        assert forall|a: int| a != v implies !#[trigger] self.attacks_from(a, k, e, occ) by {
            if 0 <= a < 64 && self.colors[a] == e {
                let p = self.pieces[a];
                if p == PieceType::Pawn && pawn_step(e == Color::White, a, k) {
                    assert(pawn_step(side == Color::White, k, a));
                    assert(in_bb(pa, a) && in_bb(enemy_pawns, a));
                }
                if p == PieceType::Knight && knight_step(k, a) {
                    assert(in_bb(na, a) && in_bb(self.knights[ei], a));
                }
                if p == PieceType::King && king_step(k, a) {
                    assert(in_bb(ka, a) && in_bb(self.kings[ei], a));
                }
                if (p == PieceType::Bishop || p == PieceType::Queen) && bishop_attack(k, occ, a) {
                    assert(in_bb(ba, a) && in_bb(bishops_queens, a));
                }
                if (p == PieceType::Rook || p == PieceType::Queen) && rook_attack(k, occ, a) {
                    assert(in_bb(ra, a) && in_bb(rooks_queens, a));
                }
            }
        }
        true
    }
}

impl Board {
    /// No piece attacking the king of the side to move is the enemy king.
    pub open spec fn kings_apart(self) -> bool {
        forall|a: int| #[trigger] self.attacks_from(a, self.our_king(), self.side_to_move.spec_opposite(), self.all_occupancy)
            ==> self.pieces[a] != PieceType::King
    }

    /// Law: with the pinned pieces and the checkers of the side to move
    /// (see [`Board::pins_and_checkers`]), the legality test given those
    /// masks is the legality test itself, when the side has a king and the
    /// kings are not next to each other.
    pub proof fn law_legal_with_masks(self, m: Move, pinned: u64, checkers: u64)
        requires
            self.wf(),
            self.kings[self.us()] != 0,
            self.kings_apart(),
            forall|x: int| #[trigger] in_bb(pinned, x) <==> self.is_pinned(self.our_king(), self.side_to_move, x),
            forall|a: int| #[trigger] in_bb(checkers, a) <==> self.is_checker(self.our_king(), self.side_to_move, a),
        ensures
            self.legal_with(m, pinned, checkers) == self.legal(m),
    {
        let side = self.side_to_move;
        assert(side.spec_opposite().spec_opposite() == side) by {
            assert(side != Color::NoColor);
        }
        self.lemma_checker_bb(side, checkers);
        assert(self.checker_bb(side) == checkers);
        crate::board::bitboard::lemma_zero_iff_empty(checkers);
        crate::board::bitboard::lemma_popcount_zero_upto(checkers, 64);
        if self.in_check(side) {
            let a = choose|a: int| #[trigger] self.attacks_from(a, self.our_king(), side.spec_opposite(), self.all_occupancy);
            assert(self.is_checker(self.our_king(), side, a));
            assert(in_bb(checkers, a));
            assert(checkers != 0);
            assert(popcount(checkers) != 0) by {
                assert(!crate::board::bitboard::none_below(checkers, 64));
            }
        } else {
            assert forall|a: int| 0 <= a < 64 implies !#[trigger] in_bb(checkers, a) by {
                if in_bb(checkers, a) {
                    assert(self.is_checker(self.our_king(), side, a));
                    assert(self.attacked_with_occ(self.our_king(), side.spec_opposite(), self.all_occupancy));
                }
            }
            assert(checkers == 0);
        }
    }

    /// Whether the pseudo-legal move `m` of the side to move is legal, by
    /// the tests of [`Board::legal`].
    pub fn is_legal(&self, m: Move) -> (r: bool)
        requires
            self.wf(),
            self.en_passant_checkable(m),
        ensures
            r == self.legal(m),
    {
        let from = m.from();
        let to = m.to();
        let f = m.flags();
        let moving_color = self.side_to_move;
        if self.colors[from as usize] != moving_color {
            return false;
        }
        let color = self.colors[to as usize];
        if color != Color::NoColor {
            if color == moving_color {
                return false;
            }
        }
        let pt = self.pieces[from as usize];
        if f == flags::KING_CASTLE || f == flags::QUEEN_CASTLE {
            return self.is_legal_castling(m);
        }
        if f == flags::EN_PASSANT {
            return self.is_legal_en_passant(m);
        }
        if !self.is_in_check(moving_color) {
            let (pinned, _) = self.pins_and_checkers(moving_color);
            if pt == PieceType::King {
                let occ = self.all_occupancy ^ bit(from);
                return !self.is_square_attacked_with_occ(to, moving_color.opposite(), occ);
            }
            if !intersects(pinned, bit(from)) {
                assert(in_bb(spec_bit(from as int), from as int));
                assert(!in_bb(pinned, from as int));
                return true;
            }
            return self.is_pinned_move_legal(from, to, pinned);
        }
        self.is_legal_when_in_check(m)
    }

    /// Whether `m` is legal while the side to move is in check.
    fn is_legal_when_in_check(&self, m: Move) -> (r: bool)
        requires
            self.wf(),
            self.in_check(self.side_to_move),
        ensures
            r == self.check_evasion_legal(m),
    {
        let side = self.side_to_move;
        let (pinned, checkers) = self.pins_and_checkers(side);
        proof {
            self.lemma_checker_bb(side, checkers);
        }
        let num_checkers = count_bits(checkers);
        if num_checkers == 0 {
            return true;
        }
        let from = m.from();
        let to = m.to();
        let pt = self.pieces[from as usize];
        if pt == PieceType::King {
            let occ = self.all_occupancy ^ bit(from);
            return !self.is_square_attacked_with_occ(to, side.opposite(), occ);
        }
        if num_checkers > 1 {
            return false;
        }
        proof {
            lemma_popcount_one(checkers);
            lemma_lsb(checkers);
            lemma_lsb(self.kings[self.us()]);
        }
        let checker_sq = checkers.trailing_zeros() as u8;
        let checker_pt = self.pieces[checker_sq as usize];
        if to == checker_sq {
            return self.is_pinned_move_legal(from, to, pinned);
        }
        if checker_pt == PieceType::Knight || checker_pt == PieceType::Pawn {
            return false;
        }
        let king_sq = self.kings[side.idx()].trailing_zeros() as u8;
        let block_mask = self.between(checker_sq, king_sq);
        assert(in_bb(spec_bit(to as int), to as int));
        assert(in_bb(block_mask, to as int) <==> strictly_between(checker_sq as int, king_sq as int, to as int));
        intersects(block_mask, bit(to)) && self.is_pinned_move_legal(from, to, pinned)
    }

    /// Whether the pseudo-legal move `m` is legal, given the pinned pieces
    /// and the checkers of the side to move, by the tests of
    /// [`Board::legal_with`].
    pub fn is_legal_fast(&self, m: Move, pinned: u64, checkers: u64) -> (r: bool)
        requires
            self.wf(),
            self.en_passant_checkable(m),
            self.needs_king_with(m, pinned, checkers) ==> self.kings[self.us()] != 0,
        ensures
            r == self.legal_with(m, pinned, checkers),
    {
        let from = m.from();
        let to = m.to();
        let f = m.flags();
        let moving_color = self.side_to_move;
        if self.colors[from as usize] != moving_color {
            return false;
        }
        if self.colors[to as usize] == moving_color {
            return false;
        }
        let pt = self.pieces[from as usize];
        if f == flags::KING_CASTLE || f == flags::QUEEN_CASTLE {
            return self.is_legal_castling(m);
        }
        if f == flags::EN_PASSANT {
            return self.is_legal_en_passant(m);
        }
        if checkers == 0 {
            if pt == PieceType::King {
                let occ = self.all_occupancy ^ bit(from);
                return !self.is_square_attacked_with_occ(to, moving_color.opposite(), occ);
            }
            if !intersects(pinned, bit(from)) {
                return true;
            }
            return self.is_pinned_move_legal(from, to, pinned);
        }
        self.is_legal_when_in_check_fast(m, pinned, checkers)
    }

    /// Whether `m` is legal while in check, given the pinned pieces and the
    /// (non-empty) checkers.
    fn is_legal_when_in_check_fast(&self, m: Move, pinned: u64, checkers: u64) -> (r: bool)
        requires
            self.wf(),
            checkers != 0,
            self.colors[m.spec_from() as int] == self.side_to_move,
            self.colors[m.spec_to() as int] != self.side_to_move,
            m.spec_flags() != flags::KING_CASTLE && m.spec_flags() != flags::QUEEN_CASTLE
                && m.spec_flags() != flags::EN_PASSANT,
            self.needs_king_with(m, pinned, checkers) ==> self.kings[self.us()] != 0,
        ensures
            r == self.check_evasion_legal_with(m, pinned, checkers),
    {
        let side = self.side_to_move;
        let num_checkers = count_bits(checkers);
        let from = m.from();
        let to = m.to();
        let pt = self.pieces[from as usize];
        if pt == PieceType::King {
            let occ = self.all_occupancy ^ bit(from);
            return !self.is_square_attacked_with_occ(to, side.opposite(), occ);
        }
        if num_checkers > 1 {
            return false;
        }
        proof {
            lemma_lsb(checkers);
        }
        let checker_sq = checkers.trailing_zeros() as u8;
        if to == checker_sq {
            return self.is_pinned_move_legal(from, to, pinned);
        }
        let checker_pt = self.pieces[checker_sq as usize];
        if checker_pt == PieceType::Knight || checker_pt == PieceType::Pawn {
            return false;
        }
        proof {
            lemma_lsb(self.kings[self.us()]);
        }
        let king_sq = self.kings[side.idx()].trailing_zeros() as u8;
        let block_mask = self.between(checker_sq, king_sq);
        assert(in_bb(spec_bit(to as int), to as int));
        assert(in_bb(block_mask, to as int) <==> strictly_between(checker_sq as int, king_sq as int, to as int));
        if intersects(block_mask, bit(to)) {
            return self.is_pinned_move_legal(from, to, pinned);
        }
        false
    }
}

} // verus!
