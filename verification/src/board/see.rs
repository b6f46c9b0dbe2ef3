//! Static exchange evaluation: the material outcome of the captures on one square.
use vstd::prelude::*;
use crate::board::bitboard::{in_bb, bit, spec_bit, popcount, lsb, group_bitboard, intersects, lemma_lsb, holds_exactly, bb_of_squares, lemma_bb_of_squares, lemma_popcount_remove, lemma_popcount_subset};
use crate::board::board::Board;
use crate::board::moves::Move;
use crate::board::piece::{Color, PieceType};
use crate::geometry::{pawn_step, knight_step, king_step, bishop_attack, rook_attack};
use crate::magic::{get_bishop_attacks, get_rook_attacks};
use crate::movegen::knight::get_knight_attacks;
use crate::movegen::king::get_king_attacks;
use crate::movegen::pawn::get_pawn_attacks;

verus! {

broadcast use group_bitboard, crate::board::moves::lemma_move_fields_range;

/// The value of a piece in an exchange.
pub open spec fn exchange_value(pt: PieceType) -> int {
    match pt {
        PieceType::Pawn => 100,
        PieceType::Knight => 320,
        PieceType::Bishop => 330,
        PieceType::Rook => 500,
        PieceType::Queen => 900,
        PieceType::King => 20000,
        PieceType::Empty => 0,
    }
}

/// The order in which attackers join an exchange, least valuable first.
pub open spec fn attacker_rank(pt: PieceType) -> int {
    match pt {
        PieceType::Pawn => 0,
        PieceType::Knight => 1,
        PieceType::Bishop => 2,
        PieceType::Rook => 3,
        PieceType::Queen => 4,
        PieceType::King => 5,
        PieceType::Empty => 6,
    }
}

/// The larger of two integers.
pub open spec fn max_int(a: int, b: int) -> int {
    if a >= b {
        a
    } else {
        b
    }
}

/// Resolves an exchange from its last capture back: at each step the side
/// to capture may stop, so its gain is the better of stopping and going on.
pub open spec fn exchange_result(g: Seq<int>) -> int
    decreases g.len(),
{
    if g.len() == 0 {
        0
    } else if g.len() == 1 {
        g[0]
    } else {
        let n = g.len() as int;
        exchange_result(g.drop_last().update(n - 2, -max_int(-g[n - 2], g[n - 1])))
    }
}

impl Board {
    /// A piece of either color on `a` attacks `sq`, sliders seeing through `occ`.
    pub open spec fn attacks_square(self, a: int, sq: int, occ: u64) -> bool {
        self.attacks_from(a, sq, Color::White, occ) || self.attacks_from(a, sq, Color::Black, occ)
    }

    /// A bishop or queen stands on `a`.
    pub open spec fn diagonal_slider(self, a: int) -> bool {
        self.pieces[a] == PieceType::Bishop || self.pieces[a] == PieceType::Queen
    }

    /// A rook or queen stands on `a`.
    pub open spec fn straight_slider(self, a: int) -> bool {
        self.pieces[a] == PieceType::Rook || self.pieces[a] == PieceType::Queen
    }

    /// A slider of either color on `a` sees `target` through `occ`.
    pub open spec fn sees_target(self, target: int, occ: u64, a: int) -> bool {
        0 <= a < 64 && ((self.diagonal_slider(a) && bishop_attack(target, occ, a)) || (self.straight_slider(a)
            && rook_attack(target, occ, a)))
    }

    /// `a` is the attacker of `side` among `attackers` that joins the
    /// exchange next: the least valuable, the least square among equals.
    pub open spec fn is_next_attacker(self, attackers: u64, side: Color, a: int) -> bool {
        &&& in_bb(attackers, a)
        &&& self.colors[a] == side
        &&& forall|x: int|
            #![trigger in_bb(attackers, x)]
            in_bb(attackers, x) && self.colors[x] == side ==> attacker_rank(self.pieces[a]) < attacker_rank(
                self.pieces[x],
            ) || (attacker_rank(self.pieces[a]) == attacker_rank(self.pieces[x]) && a <= x)
    }

    /// The next attacker of `side` among `attackers`, or 64 when it has none.
    pub open spec fn next_attacker(self, attackers: u64, side: Color) -> int {
        if exists|a: int| #[trigger] self.is_next_attacker(attackers, side, a) {
            choose|a: int| #[trigger] self.is_next_attacker(attackers, side, a)
        } else {
            64
        }
    }

    /// The attackers once the piece on `a` has captured and left: those
    /// already known but `a`, and the sliders now seeing `to` through `occ`
    /// along the lines the departed piece could open.
    pub open spec fn attackers_after(self, to: int, occ: u64, att: u64, a: int) -> u64 {
        bb_of_squares(|s: int| self.attacker_after(to, occ, att, a, s))
    }

    /// Whether `s` is among the attackers once the piece on `a` has left.
    pub open spec fn attacker_after(self, to: int, occ: u64, att: u64, a: int, s: int) -> bool {
        let pt = self.pieces[a];
        let diag = pt == PieceType::Pawn || pt == PieceType::Bishop || pt == PieceType::Queen;
        let straight = pt == PieceType::Rook || pt == PieceType::Queen;
        (in_bb(att, s) && s != a) || (diag && self.sees_target(to, occ, s) && self.diagonal_slider(s))
            || (straight && self.sees_target(to, occ, s) && self.straight_slider(s))
    }

    /// The gains of the exchange on `to` so far, continued: the other side
    /// captures with its next attacker (a gain of 0 is recorded when it
    /// has none) until the attackers are exhausted or neither side can gain.
    pub open spec fn exchange_gains(self, to: int, occ: u64, att: u64, side: Color, gains: Seq<int>) -> Seq<int>
        decreases 64 - gains.len(),
    {
        if att == 0 || gains.len() >= 64 || gains.len() == 0 {
            gains
        } else {
            let s = side.spec_opposite();
            let a = self.next_attacker(att, s);
            if a == 64 {
                gains.push(0)
            } else {
                let prev = gains.last();
                let g = exchange_value(self.pieces[a]) - prev;
                let gains2 = gains.push(g);
                if max_int(g, prev) < 0 {
                    gains2
                } else {
                    let occ2 = occ & !spec_bit(a);
                    let att2 = self.attackers_after(to, occ2, att, a) & occ2;
                    self.exchange_gains(to, occ2, att2, s, gains2)
                }
            }
        }
    }

    /// The static exchange evaluation of `m`.
    pub open spec fn see_spec(self, m: Move) -> int {
        let to = m.spec_to() as int;
        let from = m.spec_from() as int;
        let all = self.all_occupancy;
        let occ = all & !spec_bit(from);
        let att0 = bb_of_squares(|a: int| self.attacks_square(a, to, all));
        let att1 = self.attackers_after(to, occ, att0, from);
        exchange_result(self.exchange_gains(to, occ, att1, self.side_to_move, seq![exchange_value(self.pieces[to])]))
    }
}

/// Resolving an exchange never gives more than its first gain: the side
/// that captured first cannot gain more than the captured piece.
proof fn lemma_exchange_result_le_first(g: Seq<int>)
    requires
        g.len() >= 1,
    ensures
        exchange_result(g) <= g[0],
    decreases g.len(),
{
    if g.len() > 1 {
        let n = g.len() as int;
        let g2 = g.drop_last().update(n - 2, -max_int(-g[n - 2], g[n - 1]));
        lemma_exchange_result_le_first(g2);
    }
}

impl Board {
    /// Continuing an exchange keeps the gains recorded so far.
    proof fn lemma_exchange_gains_first(self, to: int, occ: u64, att: u64, side: Color, gains: Seq<int>)
        requires
            gains.len() >= 1,
        ensures
            self.exchange_gains(to, occ, att, side, gains).len() >= 1,
            self.exchange_gains(to, occ, att, side, gains)[0] == gains[0],
        decreases 64 - gains.len(),
    {
        if !(att == 0 || gains.len() >= 64) {
            let s = side.spec_opposite();
            let a = self.next_attacker(att, s);
            if a != 64 {
                let prev = gains.last();
                let g = exchange_value(self.pieces[a]) - prev;
                let gains2 = gains.push(g);
                if max_int(g, prev) >= 0 {
                    let occ2 = occ & !spec_bit(a);
                    let att2 = self.attackers_after(to, occ2, att, a) & occ2;
                    self.lemma_exchange_gains_first(to, occ2, att2, s, gains2);
                }
            }
        }
    }

    /// Law: the static exchange evaluation of a move never exceeds the
    /// exchange value of the piece standing on its target square.
    pub proof fn law_see_at_most_captured(self, m: Move)
        ensures
            self.see_spec(m) <= exchange_value(self.pieces[m.spec_to() as int]),
    {
        let to = m.spec_to() as int;
        let from = m.spec_from() as int;
        let all = self.all_occupancy;
        let occ = all & !spec_bit(from);
        let att0 = bb_of_squares(|a: int| self.attacks_square(a, to, all));
        let att1 = self.attackers_after(to, occ, att0, from);
        let g0 = seq![exchange_value(self.pieces[to])];
        self.lemma_exchange_gains_first(to, occ, att1, self.side_to_move, g0);
        lemma_exchange_result_le_first(self.exchange_gains(to, occ, att1, self.side_to_move, g0));
    }

    /// Law: a capture by a pawn, knight or king of a piece that nothing
    /// else attacks, even once the mover has left its square, is worth
    /// exactly the exchange value of the captured piece.
    pub proof fn law_see_undefended(self, m: Move)
        requires
            self.wf(),
            self.pieces[m.spec_from() as int] == PieceType::Pawn || self.pieces[m.spec_from() as int]
                == PieceType::Knight || self.pieces[m.spec_from() as int] == PieceType::King,
            forall|a: int| a != m.spec_from() ==> !#[trigger] self.attacks_square(a, m.spec_to() as int, self.all_occupancy),
            forall|a: int| a != m.spec_from() ==> !#[trigger] self.attacks_square(
                a,
                m.spec_to() as int,
                self.all_occupancy & !spec_bit(m.spec_from() as int),
            ),
        ensures
            self.see_spec(m) == exchange_value(self.pieces[m.spec_to() as int]),
    {
        let to = m.spec_to() as int;
        let from = m.spec_from() as int;
        let all = self.all_occupancy;
        let occ = all & !spec_bit(from);
        let p0 = |a: int| self.attacks_square(a, to, all);
        crate::board::bitboard::lemma_bb_upto(p0, 64);
        let x0 = crate::board::bitboard::bb_upto(p0, 64);
        lemma_bb_of_squares(x0, p0);
        let att0 = bb_of_squares(p0);
        let p1 = |s: int| self.attacker_after(to, occ, att0, from, s);
        assert forall|s: int| !#[trigger] p1(s) by {
            if in_bb(att0, s) && s != from {
                assert(in_bb(x0, s));
                assert(p0(s));
                assert(false);
            }
            if self.sees_target(to, occ, s) {
                assert(0 <= s < 64);
                assert(self.pieces[s] != PieceType::Empty);
                assert(self.colors[s] != Color::NoColor);
                assert(s != from);
                if self.colors[s] == Color::White {
                    assert(self.attacks_from(s, to, Color::White, occ));
                } else {
                    assert(self.attacks_from(s, to, Color::Black, occ));
                }
                assert(self.attacks_square(s, to, occ));
                assert(false);
            }
        }
        crate::board::bitboard::lemma_bb_upto(p1, 64);
        let x1 = crate::board::bitboard::bb_upto(p1, 64);
        lemma_bb_of_squares(x1, p1);
        let att1 = self.attackers_after(to, occ, att0, from);
        assert(att1 == x1);
        crate::board::bitboard::lemma_zero_iff_empty(x1);
        assert(att1 == 0);
    }
}

impl Board {
    /// The value of a piece in an exchange.
    fn see_value(&self, pt: PieceType) -> (v: i32)
        ensures
            v == exchange_value(pt),
    {
        match pt {
            PieceType::Pawn => 100,
            PieceType::Knight => 320,
            PieceType::Bishop => 330,
            PieceType::Rook => 500,
            PieceType::Queen => 900,
            PieceType::King => 20000,
            PieceType::Empty => 0,
        }
    }

    /// The pieces of both colors attacking `sq`, sliders seeing through `occ`.
    fn all_attackers_to(&self, sq: u8, occ: u64) -> (r: u64)
        requires
            self.wf(),
            sq < 64,
        ensures
            holds_exactly(r, |a: int| self.attacks_square(a, sq as int, occ)),
    {
        proof {
            self.lemma_wf_bbs();
        }
        let ghost t = sq as int;
        let pw = get_pawn_attacks(sq, Color::Black) & self.pawns[0];
        let pb = get_pawn_attacks(sq, Color::White) & self.pawns[1];
        let n = get_knight_attacks(sq) & (self.knights[0] | self.knights[1]);
        let k = get_king_attacks(sq) & (self.kings[0] | self.kings[1]);
        let b = get_bishop_attacks(sq, occ) & (self.bishops[0] | self.bishops[1] | self.queens[0] | self.queens[1]);
        let r = get_rook_attacks(sq, occ) & (self.rooks[0] | self.rooks[1] | self.queens[0] | self.queens[1]);
        let attackers = pw | pb | n | k | b | r;
        assert forall|a: int| #[trigger] in_bb(attackers, a) <==> (0 <= a < 64 && self.attacks_square(a, t, occ)) by {
            if 0 <= a < 64 {
                assert(pawn_step(false, t, a) <==> pawn_step(true, a, t));
                assert(pawn_step(true, t, a) <==> pawn_step(false, a, t));
                assert(Color::from_idx(0) == Color::White && Color::from_idx(1) == Color::Black);
            }
        }
        attackers
    }

    /// The next attacker of `side` among `attackers` (see
    /// [`Board::is_next_attacker`]), or 64 when it has none.
    fn least_valuable_attacker(&self, attackers: u64, side: Color) -> (r: u8)
        requires
            self.wf(),
            side != Color::NoColor,
        ensures
            r as int == self.next_attacker(attackers, side),
            r < 64 ==> self.is_next_attacker(attackers, side, r as int),
            r == 64 <==> forall|a: int| in_bb(attackers, a) ==> #[trigger] self.colors[a] != side,
    {
        proof {
            self.lemma_wf_bbs();
        }
        let c = side.idx();
        assert(side == Color::from_idx(c as int));
        let my = attackers & self.occupancy[c];
        let ghost ci = c as int;
        let ghost own = |x: int| in_bb(attackers, x) && self.colors[x] == side;
        assert forall|x: int| #[trigger] in_bb(my, x) <==> own(x) by {}
        if my == 0 {
            proof {
                crate::board::bitboard::lemma_zero_iff_empty(my);
                assert forall|a: int| in_bb(attackers, a) implies #[trigger] self.colors[a] != side by {
                    assert(!in_bb(my, a));
                }
                assert(!exists|a: int| #[trigger] self.is_next_attacker(attackers, side, a));
            }
            return 64;
        }
        let bbs: [u64; 6] = [self.pawns[c], self.knights[c], self.bishops[c], self.rooks[c], self.queens[c], self.kings[c]];
        let mut i: usize = 0;
        while i < 6
            invariant
                self.wf(),
                i <= 6,
                my != 0,
                side == Color::from_idx(ci),
                ci == c as int,
                0 <= ci < 2,
                forall|x: int| #[trigger] in_bb(my, x) <==> own(x),
                own == (|x: int| in_bb(attackers, x) && self.colors[x] == side),
                forall|j: int| 0 <= j < 6 ==> #[trigger] bbs[j] == self.bb_of(ci, j),
                forall|x: int| own(x) ==> attacker_rank(#[trigger] self.pieces[x]) >= i,
            decreases 6 - i,
        {
            let sel = my & bbs[i];
            if sel != 0 {
                proof {
                    lemma_lsb(sel);
                    let a = lsb(sel);
                    assert(in_bb(my, a) && in_bb(self.bb_of(ci, i as int), a));
                    assert(self.pieces[a] == PieceType::from_idx(i as int));
                    assert(self.is_next_attacker(attackers, side, a)) by {
                        assert forall|x: int| #![trigger in_bb(attackers, x)] in_bb(attackers, x) && self.colors[x] == side
                            implies attacker_rank(self.pieces[a]) < attacker_rank(self.pieces[x])
                            || (attacker_rank(self.pieces[a]) == attacker_rank(self.pieces[x]) && a <= x) by {
                            assert(own(x));
                            assert(in_bb(my, x));
                            if attacker_rank(self.pieces[x]) == i {
                                assert(self.pieces[x] == PieceType::from_idx(i as int));
                                assert(in_bb(self.bb_of(ci, i as int), x));
                                assert(in_bb(sel, x));
                            }
                        }
                    }
                    self.lemma_next_attacker_unique(attackers, side, a);
                }
                return sel.trailing_zeros() as u8;
            }
            proof {
                assert forall|x: int| own(x) implies attacker_rank(#[trigger] self.pieces[x]) >= i + 1 by {
                    assert(in_bb(my, x));
                    if attacker_rank(self.pieces[x]) == i {
                        assert(self.pieces[x] == PieceType::from_idx(i as int));
                        assert(in_bb(self.bb_of(ci, i as int), x));
                        assert(in_bb(sel, x));
                    }
                }
            }
            i = i + 1;
        }
        proof {
            lemma_lsb(my);
            let x = lsb(my);
            assert(own(x));
            assert(self.pieces[x] != PieceType::Empty);
        }
        64
    }

    /// The next attacker is the only square satisfying its description.
    proof fn lemma_next_attacker_unique(self, attackers: u64, side: Color, a: int)
        requires
            self.is_next_attacker(attackers, side, a),
        ensures
            self.next_attacker(attackers, side) == a,
    {
        let b = choose|b: int| #[trigger] self.is_next_attacker(attackers, side, b);
        assert(self.is_next_attacker(attackers, side, b));
        assert(in_bb(attackers, a) && in_bb(attackers, b));
    }

    /// The sliders of both colors that see `target_sq` through `occ`.
    fn get_revealed_attackers(&self, target_sq: u8, _from_sq: u8, occ: u64) -> (r: u64)
        requires
            self.wf(),
            target_sq < 64,
        ensures
            holds_exactly(r, |a: int| self.sees_target(target_sq as int, occ, a)),
    {
        proof {
            self.lemma_wf_bbs();
        }
        let r = (get_bishop_attacks(target_sq, occ) & (self.bishops[0] | self.bishops[1] | self.queens[0] | self.queens[1]))
            | (get_rook_attacks(target_sq, occ) & (self.rooks[0] | self.rooks[1] | self.queens[0] | self.queens[1]));
        assert forall|a: int| #[trigger] in_bb(r, a) <==> (0 <= a < 64 && self.sees_target(target_sq as int, occ, a)) by {
            if 0 <= a < 64 {
                assert(Color::from_idx(0) == Color::White && Color::from_idx(1) == Color::Black);
            }
        }
        r
    }
}

/// The first `n` gains held in the array, as integers.
pub open spec fn gains_of(gain: [i32; 32], n: int) -> Seq<int> {
    Seq::new(n as nat, |k: int| gain[k] as int)
}

impl Board {
    /// The attackers once the piece on `a` has left, computed from the
    /// bitboards.
    fn remove_attacker(&self, attackers: u64, to: u8, a: u8, occ: u64) -> (r: u64)
        requires
            self.wf(),
            to < 64,
            a < 64,
        ensures
            r == self.attackers_after(to as int, occ, attackers, a as int),
            forall|x: int| #[trigger] in_bb(r, x) ==> (in_bb(attackers, x) && x != a) || self.colors[x] != Color::NoColor,
    {
        proof {
            self.lemma_wf_bbs();
        }
        let pt = self.pieces[a as usize];
        let bq = self.bishops[0] | self.bishops[1] | self.queens[0] | self.queens[1];
        let rq = self.rooks[0] | self.rooks[1] | self.queens[0] | self.queens[1];
        let rev = self.get_revealed_attackers(to, a, occ);
        let base = attackers & !bit(a);
        let diag = pt == PieceType::Pawn || pt == PieceType::Bishop || pt == PieceType::Queen;
        let straight = pt == PieceType::Rook || pt == PieceType::Queen;
        let with_diag = if diag { base | (rev & bq) } else { base };
        let att = if straight { with_diag | (rev & rq) } else { with_diag };
        proof {
            let p = |s: int| self.attacker_after(to as int, occ, attackers, a as int, s);
            assert(Color::from_idx(0) == Color::White && Color::from_idx(1) == Color::Black);
            assert forall|x: int| #[trigger] in_bb(att, x) <==> (0 <= x < 64 && p(x)) by {
                if 0 <= x < 64 {
                    assert(in_bb(bq, x) <==> self.diagonal_slider(x));
                    assert(in_bb(rq, x) <==> self.straight_slider(x));
                    assert(in_bb(rev, x) <==> self.sees_target(to as int, occ, x));
                }
            }
            lemma_bb_of_squares(att, p);
        }
        att
    }

    /// The static exchange evaluation of `m`: the material the side to move
    /// wins or loses on the target square when both sides recapture with
    /// their least valuable attacker while it pays (see [`Board::see_spec`]).
    pub fn see(&self, m: Move) -> (v: i32)
        requires
            self.wf(),
            self.colors[m.spec_from() as int] == self.side_to_move,
            popcount(self.all_occupancy) <= 32,
        ensures
            v == self.see_spec(m),
            -640000 <= v <= 640000,
            v <= exchange_value(self.pieces[m.spec_to() as int]),
    {
        proof {
            self.lemma_wf_bbs();
        }
        let to = m.to();
        let from = m.from();
        let mut gain = [0i32; 32];
        let mut d: usize = 0;
        gain[0] = self.see_value(self.pieces[to as usize]);
        let all = self.all_occupancy;
        let mut occ = all;
        let att0 = self.all_attackers_to(to, occ);
        proof {
            lemma_bb_of_squares(att0, |a: int| self.attacks_square(a, to as int, all));
        }
        let side0 = self.side_to_move;
        let mut side = side0;
        occ = occ & !bit(from);
        let mut attackers = self.remove_attacker(att0, to, from, occ);
        let ghost final_gains = self.exchange_gains(to as int, occ, attackers, side, seq![exchange_value(self.pieces[to as int])]);
        assert(gains_of(gain, 1) =~= seq![exchange_value(self.pieces[to as int])]);
        proof {
            assert(in_bb(all, from as int));
            lemma_popcount_remove(all, occ, from as int);
            assert forall|x: int| #[trigger] in_bb(attackers, x) implies in_bb(occ, x) || x == from by {
                if x != from {
                    assert(self.colors[x] != Color::NoColor);
                }
            }
        }
        while attackers != 0
            invariant_except_break
                self.exchange_gains(to as int, occ, attackers, side, gains_of(gain, d + 1)) == final_gains,
                popcount(occ) + d <= 31,
                forall|x: int| #[trigger] in_bb(attackers, x) ==> in_bb(occ, x) || (d == 0 && x == from),
                forall|k: int| d < k < 32 ==> gain[k] == 0,
                d == 0 ==> side == side0,
                !in_bb(occ, from as int),
            invariant
                self.wf(),
                to < 64,
                from < 64,
                d < 32,
                side0 == self.side_to_move,
                side0 != Color::NoColor,
                self.colors[from as int] == side0,
                side != Color::NoColor,
                forall|k: int| 0 <= k <= d ==> -20000 * (k + 1) <= #[trigger] gain[k] <= 20000 * (k + 1),
            ensures
                d < 32,
                gains_of(gain, d + 1) == final_gains,
                forall|k: int| 0 <= k <= d ==> -20000 * (k + 1) <= #[trigger] gain[k] <= 20000 * (k + 1),
            decreases 32 - d,
        {
            let ghost g_before = gains_of(gain, d + 1);
            let ghost occ_before = occ;
            let ghost att_before = attackers;
            let ghost side_before = side;
            proof {
                if popcount(occ) == 0 {
                    crate::board::bitboard::lemma_popcount_zero_upto(occ, 64);
                    crate::board::bitboard::lemma_zero_iff_empty(attackers);
                    let x = choose|x: int| 0 <= x < 64 && in_bb(attackers, x);
                }
            }
            d = d + 1;
            side = side.opposite();
            let attacker_sq = self.least_valuable_attacker(attackers, side);
            if attacker_sq == 64 {
                assert(gains_of(gain, d + 1) =~= g_before.push(0));
                break;
            }
            let ghost a = attacker_sq as int;
            assert(in_bb(attackers, a) && self.colors[a] == side);
            assert(a != from) by {
                if d == 1 {
                    assert(side_before == side0);
                    assert(side == side0.spec_opposite());
                } else {
                    assert(in_bb(occ_before, a));
                }
            }
            let attacker_pt = self.pieces[attacker_sq as usize];
            gain[d] = self.see_value(attacker_pt) - gain[d - 1];
            assert(gains_of(gain, d + 1) =~= g_before.push(gain[d as int] as int));
            let hi = if gain[d] >= gain[d - 1] { gain[d] } else { gain[d - 1] };
            if hi < 0 {
                break;
            }
            occ = occ & !bit(attacker_sq);
            proof {
                lemma_popcount_remove(occ_before, occ, a);
            }
            attackers = self.remove_attacker(attackers, to, attacker_sq, occ);
            attackers = attackers & occ;
        }
        assert(gains_of(gain, d + 1) == final_gains);
        while d > 0
            invariant
                d < 32,
                exchange_result(gains_of(gain, d + 1)) == exchange_result(final_gains),
                forall|k: int| 0 <= k <= d ==> -20000 * 32 <= #[trigger] gain[k] <= 20000 * 32,
            decreases d,
        {
            let a = gain[d - 1];
            let b = gain[d];
            let ghost g = gains_of(gain, d + 1);
            let nb = if -a >= b { -a } else { b };
            gain[d - 1] = -nb;
            assert(gains_of(gain, d as int) =~= g.drop_last().update(d - 1, -max_int(-g[d - 1], g[d as int])));
            d = d - 1;
        }
        assert(gains_of(gain, 1) =~= seq![gain[0] as int]);
        proof {
            self.law_see_at_most_captured(m);
        }
        gain[0]
    }
}

} // verus!
