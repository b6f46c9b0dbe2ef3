//! What a move does to the attacks on the mover's king: the legality test
//! against the position after the move.
use vstd::prelude::*;
use crate::board::bitboard::{in_bb, spec_bit, lsb, popcount, bb_upto, lemma_bb_upto, lemma_lsb, lemma_bitboard_ext, lemma_popcount_zero_upto, group_bitboard};
use crate::board::board::Board;
use crate::board::make_move::{made_from, move_ok, move_reversible, lemma_low_flags, UndoState, is_capture_flag, is_castle_flag, landing_type, castle_rook_from, castle_rook_to};
use crate::board::moves::{Move, flags};
use crate::board::piece::{Color, PieceType};
use crate::geometry::{is_direction, ray_sq, ray_clear, ray_valid, ray_dist, ray_attack, on_ray, on_board, rank_of, file_of, step, sign, squares_aligned, strictly_between, on_line, rook_attack, bishop_attack};
use crate::movegen::{GenType, evasion_move, answers_check};
use crate::movegen::rules::{king_move, knight_move, slider_move, pawn_gen_move, pawn_double, pawn_push, pawn_capture, pawn_en_passant, castle_move, ahead, non_king_move, king_gen_move, pseudo_move};

verus! {

broadcast use group_bitboard, crate::board::moves::lemma_move_fields_range;

/// A square `j >= 1` steps along a direction is another square.
proof fn lemma_ray_sq_moves(t: int, dr: int, dc: int, j: int)
    requires
        0 <= t < 64,
        is_direction(dr, dc),
        j >= 1,
    ensures
        ray_sq(t, dr, dc, j) != t,
{
    assert(t == rank_of(t) * 8 + file_of(t));
    assert(0 <= file_of(t) < 8);
    if dr == 0 {
        assert(step(dc, j) != 0);
    } else if dr > 0 {
        assert(step(dr, j) == j);
    } else {
        assert(step(dr, j) == -j);
    }
}

/// A ray from `t` does not look at `t` itself: occupancies that differ at
/// most on `t` clear the same rays from `t`.
proof fn lemma_ray_clear_same(t: int, dr: int, dc: int, occ1: u64, occ2: u64, k: int)
    requires
        0 <= t < 64,
        is_direction(dr, dc),
        forall|y: int| y != t ==> #[trigger] in_bb(occ1, y) == in_bb(occ2, y),
    ensures
        ray_clear(t, dr, dc, occ1, k) == ray_clear(t, dr, dc, occ2, k),
{
    assert forall|j: int| 1 <= j < k implies #[trigger] in_bb(occ1, ray_sq(t, dr, dc, j)) == in_bb(
        occ2,
        ray_sq(t, dr, dc, j),
    ) by {
        lemma_ray_sq_moves(t, dr, dc, j);
    }
    if ray_clear(t, dr, dc, occ1, k) {
        assert forall|j: int| 1 <= j < k implies !#[trigger] in_bb(occ2, ray_sq(t, dr, dc, j)) by {
            assert(!in_bb(occ1, ray_sq(t, dr, dc, j)));
        }
    }
    if ray_clear(t, dr, dc, occ2, k) {
        assert forall|j: int| 1 <= j < k implies !#[trigger] in_bb(occ1, ray_sq(t, dr, dc, j)) by {
            assert(!in_bb(occ2, ray_sq(t, dr, dc, j)));
        }
    }
}

/// Attacks on `t` do not depend on whether `t` itself is occupied.
proof fn lemma_attack_ignores_target(b: Board, a: int, t: int, c: Color, occ1: u64, occ2: u64)
    requires
        0 <= t < 64,
        forall|y: int| y != t ==> #[trigger] in_bb(occ1, y) == in_bb(occ2, y),
    ensures
        b.attacks_from(a, t, c, occ1) == b.attacks_from(a, t, c, occ2),
{
    lemma_ray_clear_same(t, 1, 0, occ1, occ2, crate::geometry::ray_dist(t, 1, 0, a));
    lemma_ray_clear_same(t, -1, 0, occ1, occ2, crate::geometry::ray_dist(t, -1, 0, a));
    lemma_ray_clear_same(t, 0, 1, occ1, occ2, crate::geometry::ray_dist(t, 0, 1, a));
    lemma_ray_clear_same(t, 0, -1, occ1, occ2, crate::geometry::ray_dist(t, 0, -1, a));
    lemma_ray_clear_same(t, 1, 1, occ1, occ2, crate::geometry::ray_dist(t, 1, 1, a));
    lemma_ray_clear_same(t, 1, -1, occ1, occ2, crate::geometry::ray_dist(t, 1, -1, a));
    lemma_ray_clear_same(t, -1, 1, occ1, occ2, crate::geometry::ray_dist(t, -1, 1, a));
    lemma_ray_clear_same(t, -1, -1, occ1, occ2, crate::geometry::ray_dist(t, -1, -1, a));
}

/// The single-square bitboard of `s` has `s` as its least square.
proof fn lemma_lsb_bit(s: int)
    requires
        0 <= s < 64,
    ensures
        spec_bit(s) != 0,
        lsb(spec_bit(s)) == s,
{
    assert(in_bb(spec_bit(s), s));
    lemma_lsb(spec_bit(s));
}

impl Board {
    /// When the king of the side to move is attacked by a piece other than
    /// the enemy king, the checker bitboard is not empty.
    proof fn lemma_checkers_not_empty(self, a: int)
        requires
            self.is_checker(self.our_king(), self.side_to_move, a),
        ensures
            popcount(self.checker_bb(self.side_to_move)) != 0,
    {
        let side = self.side_to_move;
        let k = self.our_king();
        let p = |s: int| self.is_checker(k, side, s);
        lemma_bb_upto(p, 64);
        let x = bb_upto(p, 64);
        assert forall|s: int| #[trigger] in_bb(x, s) <==> self.is_checker(self.king_square(side.spec_idx() as int), side, s) by {
            if self.is_checker(k, side, s) {
                assert(0 <= s < 64);
            }
        }
        self.lemma_checker_bb(side, x);
        assert(in_bb(x, a));
        lemma_popcount_zero_upto(x, 64);
    }
}

/// Law: a one-step king move (not castling) of a side with a single king,
/// whose king is not touched by the enemy king, passes the legality test
/// exactly when the king is not in check once the move is made.
pub proof fn law_king_step_legal(b: Board, m: Move, st: UndoState, b1: Board)
    requires
        king_move(b, m, GenType::All),
        b.kings[b.us()] == spec_bit(m.spec_from() as int),
        b.kings_apart(),
        made_from(b, m, st, b1),
    ensures
        b.legal(m) <==> !b1.in_check(b.side_to_move),
{
    let side = b.side_to_move;
    let e = side.spec_opposite();
    let us = b.us();
    let from = m.spec_from() as int;
    let to = m.spec_to() as int;
    let f = m.spec_flags();
    let occ = b.all_occupancy;
    let occ0 = occ ^ spec_bit(from);
    let occ1 = b1.all_occupancy;
    assert(side == Color::White || side == Color::Black);
    assert(us == 0 || us == 1);
    assert(Color::from_idx(us) == side);
    assert(e != side && e != Color::NoColor);
    // The king stands on `from`.
    assert(in_bb(b.bb_of(us, 5), from));
    assert(b.pieces[from] == PieceType::King && b.colors[from] == side);
    assert(f == flags::QUIET || f == flags::CAPTURE);
    assert(b1.pieces@ == b.pieces@.update(from, PieceType::Empty).update(to, PieceType::King));
    assert(b1.colors@ == b.colors@.update(from, Color::NoColor).update(to, side));
    assert(from != to);
    // After the move the king stands on `to` alone.
    assert forall|s: int| 0 <= s < 64 implies #[trigger] in_bb(b1.kings[us], s) == in_bb(spec_bit(to), s) by {
        assert(in_bb(b1.bb_of(us, 5), s) <==> (b1.pieces[s] == PieceType::King && b1.colors[s] == side));
        assert(in_bb(b.bb_of(us, 5), s) <==> (b.pieces[s] == PieceType::King && b.colors[s] == side));
    }
    lemma_bitboard_ext(b1.kings[us], spec_bit(to));
    lemma_lsb_bit(to);
    assert(b1.king_square(us) == to);
    // The occupancies differ at most on `to`.
    assert forall|y: int| y != to implies #[trigger] in_bb(occ1, y) == in_bb(occ0, y) by {
        if 0 <= y < 64 {
            assert(in_bb(occ1, y) <==> b1.colors[y] != Color::NoColor);
            assert(in_bb(occ, y) <==> b.colors[y] != Color::NoColor);
        }
    }
    // The enemy attacks on `to` are the same before and after.
    assert forall|a: int| #[trigger] b1.attacks_from(a, to, e, occ1) == b.attacks_from(a, to, e, occ0) by {
        lemma_attack_ignores_target(b, a, to, e, occ1, occ0);
        if a != from && a != to && 0 <= a < 64 {
            assert(b1.pieces[a] == b.pieces[a]);
            assert(b1.colors[a] == b.colors[a]);
        }
    }
    if b1.attacked_with_occ(to, e, occ1) {
        let a = choose|a: int| #[trigger] b1.attacks_from(a, to, e, occ1);
        assert(b.attacks_from(a, to, e, occ0));
    }
    if b.attacked_with_occ(to, e, occ0) {
        let a = choose|a: int| #[trigger] b.attacks_from(a, to, e, occ0);
        assert(b1.attacks_from(a, to, e, occ1));
    }
    assert(b1.in_check(side) == b1.attacked_with_occ(to, e, occ1));
    assert(b.king_step_safe(from, to) == !b.attacked_with_occ(to, e, occ0));
    // The legality test asks exactly whether `to` is safe.
    if b.in_check(side) {
        let a = choose|a: int| #[trigger] b.attacks_from(a, b.king_square(us), e, occ);
        assert(b.is_checker(b.our_king(), side, a));
        b.lemma_checkers_not_empty(a);
    }
}

/// The coordinates of a square reached along a ray.
proof fn lemma_ray_sq_coords(s: int, dr: int, dc: int, j: int)
    requires
        on_board(s),
        ray_valid(s, dr, dc, j),
    ensures
        on_board(ray_sq(s, dr, dc, j)),
        rank_of(ray_sq(s, dr, dc, j)) == rank_of(s) + step(dr, j),
        file_of(ray_sq(s, dr, dc, j)) == file_of(s) + step(dc, j),
{
    let r = rank_of(s) + step(dr, j);
    let f = file_of(s) + step(dc, j);
    assert(ray_sq(s, dr, dc, j) == r * 8 + f);
}

/// Two squares with the same rank and file are the same square.
proof fn lemma_same_coords(x: int, y: int)
    requires
        on_board(x),
        on_board(y),
        rank_of(x) == rank_of(y),
        file_of(x) == file_of(y),
    ensures
        x == y,
{
    assert(x == rank_of(x) * 8 + file_of(x));
    assert(y == rank_of(y) * 8 + file_of(y));
}

/// Facts about a square `p` on the ray from `k`: the ray's direction is the
/// sign of the offset, the ray is on the board up to `p`, and the squares
/// strictly between `k` and `p` are those before `p` on the ray, each at
/// its own distance.
proof fn lemma_ray_to(k: int, dr: int, dc: int, p: int)
    requires
        on_board(k),
        is_direction(dr, dc),
        on_ray(k, dr, dc, p),
    ensures
        sign(rank_of(p) - rank_of(k)) == dr,
        sign(file_of(p) - file_of(k)) == dc,
        squares_aligned(k, p),
        p == ray_sq(k, dr, dc, ray_dist(k, dr, dc, p)),
        forall|j: int| 0 <= j <= ray_dist(k, dr, dc, p) ==> #[trigger] ray_valid(k, dr, dc, j),
        forall|j: int|
            #![trigger ray_sq(k, dr, dc, j)]
            1 <= j < ray_dist(k, dr, dc, p) ==> strictly_between(k, p, ray_sq(k, dr, dc, j))
                && ray_dist(k, dr, dc, ray_sq(k, dr, dc, j)) == j,
        forall|y: int|
            #[trigger] strictly_between(k, p, y) ==> 1 <= ray_dist(k, dr, dc, y) < ray_dist(k, dr, dc, p)
                && y == ray_sq(k, dr, dc, ray_dist(k, dr, dc, y)),
{
    let n = ray_dist(k, dr, dc, p);
    assert forall|j: int| 0 <= j <= n implies #[trigger] ray_valid(k, dr, dc, j) by {}
    lemma_ray_sq_coords(k, dr, dc, n);
    lemma_same_coords(p, ray_sq(k, dr, dc, n));
    assert forall|j: int| #![trigger ray_sq(k, dr, dc, j)] 1 <= j < n implies strictly_between(
        k,
        p,
        ray_sq(k, dr, dc, j),
    ) && ray_dist(k, dr, dc, ray_sq(k, dr, dc, j)) == j by {
        lemma_ray_sq_coords(k, dr, dc, j);
    }
    assert forall|y: int| #[trigger] strictly_between(k, p, y) implies 1 <= ray_dist(k, dr, dc, y) < n
        && y == ray_sq(k, dr, dc, ray_dist(k, dr, dc, y)) by {
        let jy = ray_dist(k, dr, dc, y);
        lemma_ray_sq_coords(k, dr, dc, jy);
        lemma_same_coords(y, ray_sq(k, dr, dc, jy));
    }
}

/// A rook or bishop on `s` reaches `t` only along the direction of the
/// offset from `s` to `t`.
proof fn lemma_slider_dir(s: int, occ: u64, t: int)
    requires
        on_board(s),
    ensures
        ({
            let dr = sign(rank_of(t) - rank_of(s));
            let dc = sign(file_of(t) - file_of(s));
            &&& rook_attack(s, occ, t) <==> ((dr == 0 || dc == 0) && ray_attack(s, dr, dc, occ, t))
            &&& bishop_attack(s, occ, t) <==> (dr != 0 && dc != 0 && ray_attack(s, dr, dc, occ, t))
        }),
{
    if on_ray(s, 1, 0, t) {
        lemma_ray_to(s, 1, 0, t);
    }
    if on_ray(s, -1, 0, t) {
        lemma_ray_to(s, -1, 0, t);
    }
    if on_ray(s, 0, 1, t) {
        lemma_ray_to(s, 0, 1, t);
    }
    if on_ray(s, 0, -1, t) {
        lemma_ray_to(s, 0, -1, t);
    }
    if on_ray(s, 1, 1, t) {
        lemma_ray_to(s, 1, 1, t);
    }
    if on_ray(s, 1, -1, t) {
        lemma_ray_to(s, 1, -1, t);
    }
    if on_ray(s, -1, 1, t) {
        lemma_ray_to(s, -1, 1, t);
    }
    if on_ray(s, -1, -1, t) {
        lemma_ray_to(s, -1, -1, t);
    }
}

/// Two squares at different steps `i` and `j` of the ray from `k` span a
/// line through `k`.
proof fn lemma_line_through(k: int, dr: int, dc: int, i: int, j: int)
    requires
        on_board(k),
        is_direction(dr, dc),
        1 <= i,
        1 <= j,
        i != j,
        ray_valid(k, dr, dc, i),
        ray_valid(k, dr, dc, j),
    ensures
        on_line(ray_sq(k, dr, dc, i), ray_sq(k, dr, dc, j), k),
{
    let x = ray_sq(k, dr, dc, i);
    let y = ray_sq(k, dr, dc, j);
    lemma_ray_sq_coords(k, dr, dc, i);
    lemma_ray_sq_coords(k, dr, dc, j);
    assert(x != y);
    let er = sign(rank_of(y) - rank_of(x));
    let ec = sign(file_of(y) - file_of(x));
    assert(squares_aligned(x, y));
    if j > i {
        assert(er == dr && ec == dc);
        assert(on_ray(x, -er, -ec, k));
    } else {
        assert(er == -dr && ec == -dc);
        assert(on_ray(x, er, ec, k));
    }
}

/// A square `to` on the line through `k` and the square at step `f` of the
/// ray from `k` lies on that ray's line, at step `ray_dist(k, dr, dc, to)`
/// (negative behind `k`), other than `f`.
proof fn lemma_line_pos(k: int, dr: int, dc: int, f: int, to: int)
    requires
        on_board(k),
        on_board(to),
        is_direction(dr, dc),
        1 <= f,
        ray_valid(k, dr, dc, f),
        on_line(ray_sq(k, dr, dc, f), to, k),
    ensures
        rank_of(to) == rank_of(k) + step(dr, ray_dist(k, dr, dc, to)),
        file_of(to) == file_of(k) + step(dc, ray_dist(k, dr, dc, to)),
        ray_dist(k, dr, dc, to) != f,
{
    let x = ray_sq(k, dr, dc, f);
    lemma_ray_sq_coords(k, dr, dc, f);
    let er = sign(rank_of(to) - rank_of(x));
    let ec = sign(file_of(to) - file_of(x));
    assert(x != k);
    if on_ray(x, er, ec, k) {
        let s = ray_dist(x, er, ec, k);
        assert(er == -dr && ec == -dc);
    } else {
        assert(on_ray(x, -er, -ec, k));
        let s = ray_dist(x, -er, -ec, k);
        assert(er == dr && ec == dc);
    }
}

/// A move of a pawn, knight or slider from the square at step `f` of the
/// ray from `k`, to the square at step `t` of the same line, stays between
/// step 0 and step `n`, when the squares at those steps are occupied and
/// those strictly between, but for the mover's, are empty.
proof fn lemma_move_on_segment(b: Board, m: Move, k: int, dr: int, dc: int, f: int, n: int, t: int)
    requires
        b.wf(),
        non_king_move(b, m),
        m.spec_flags() != flags::EN_PASSANT,
        on_board(k),
        is_direction(dr, dc),
        1 <= f < n,
        forall|j: int| 0 <= j <= n ==> #[trigger] ray_valid(k, dr, dc, j),
        m.spec_from() == ray_sq(k, dr, dc, f),
        rank_of(m.spec_to() as int) == rank_of(k) + step(dr, t),
        file_of(m.spec_to() as int) == file_of(k) + step(dc, t),
        b.colors[ray_sq(k, dr, dc, 0)] != Color::NoColor,
        b.colors[ray_sq(k, dr, dc, n)] != Color::NoColor,
        forall|j: int| 1 <= j < n && j != f ==> b.colors[#[trigger] ray_sq(k, dr, dc, j)] == Color::NoColor,
    ensures
        0 <= t <= n,
{
    let from = m.spec_from() as int;
    let to = m.spec_to() as int;
    let occ = b.all_occupancy;
    let white = b.side_to_move == Color::White;
    lemma_ray_sq_coords(k, dr, dc, f);
    assert(ray_valid(k, dr, dc, 0));
    assert(ray_valid(k, dr, dc, n));
    lemma_ray_sq_coords(k, dr, dc, 0);
    lemma_ray_sq_coords(k, dr, dc, n);
    assert(0 <= to < 64);
    if t < 0 || t > n {
        if knight_move(b, m, GenType::All) {
            assert(false);
        } else if slider_move(b, m, GenType::All) {
            let er = sign(rank_of(to) - rank_of(from));
            let ec = sign(file_of(to) - file_of(from));
            lemma_slider_dir(from, occ, to);
            assert(ray_attack(from, er, ec, occ, to));
            let u = ray_dist(from, er, ec, to);
            lemma_ray_to(from, er, ec, to);
            if t > n {
                assert(er == dr && ec == dc);
                let v = n - f;
                assert(ray_valid(from, er, ec, v));
                lemma_ray_sq_coords(from, er, ec, v);
                lemma_same_coords(ray_sq(from, er, ec, v), ray_sq(k, dr, dc, n));
                assert(!in_bb(occ, ray_sq(from, er, ec, v)));
                assert(false);
            } else {
                assert(er == -dr && ec == -dc);
                assert(ray_valid(from, er, ec, f));
                lemma_ray_sq_coords(from, er, ec, f);
                lemma_same_coords(ray_sq(from, er, ec, f), ray_sq(k, dr, dc, 0));
                assert(!in_bb(occ, ray_sq(from, er, ec, f)));
                assert(false);
            }
        } else {
            assert(pawn_gen_move(b, m, GenType::All));
            if pawn_double(b, from, to) {
                let mid = ahead(white, from, 8);
                assert(rank_of(to) == rank_of(from) + (if white { 2int } else { -2int }));
                assert(rank_of(mid) == rank_of(from) + (if white { 1int } else { -1int }));
                assert(file_of(mid) == file_of(from));
                if t > n {
                    lemma_same_coords(mid, ray_sq(k, dr, dc, n));
                } else {
                    lemma_same_coords(mid, ray_sq(k, dr, dc, 0));
                }
                assert(false);
            } else if pawn_push(b, from, to) {
                assert(rank_of(to) == rank_of(from) + (if white { 1int } else { -1int }));
                assert(false);
            } else {
                assert(pawn_capture(b, from, to));
                assert(false);
            }
        }
    }
}

/// `b1` has the squares of `b` but for `from`, now empty, and `to`, now
/// holding a piece of the side to move.
spec fn moved_squares(b: Board, b1: Board, from: int, to: int) -> bool {
    &&& (b.side_to_move == Color::White || b.side_to_move == Color::Black)
    &&& 0 <= from < 64
    &&& 0 <= to < 64
    &&& from != to
    &&& b.colors[from] == b.side_to_move
    &&& b.colors[to] != b.side_to_move
    &&& b1.colors[from] == Color::NoColor
    &&& b1.colors[to] == b.side_to_move
    &&& forall|y: int|
        #![trigger b1.colors[y]]
        #![trigger b1.pieces[y]]
        0 <= y < 64 && y != from && y != to ==> b1.colors[y] == b.colors[y] && b1.pieces[y] == b.pieces[y]
    &&& forall|y: int| #[trigger] in_bb(b1.all_occupancy, y) <==> (0 <= y < 64 && b1.colors[y] != Color::NoColor)
    &&& forall|y: int| #[trigger] in_bb(b.all_occupancy, y) <==> (0 <= y < 64 && b.colors[y] != Color::NoColor)
}

/// A piece pinned against the king on `k` that leaves the line through
/// the king uncovers its pinner.
proof fn lemma_pinned_uncovers(b: Board, b1: Board, from: int, to: int, k: int)
    requires
        moved_squares(b, b1, from, to),
        on_board(k),
        b.colors[k] == b.side_to_move,
        b.is_pinned(k, b.side_to_move, from),
        !on_line(from, to, k),
    ensures
        b1.attacked_with_occ(k, b.side_to_move.spec_opposite(), b1.all_occupancy),
{
    let side = b.side_to_move;
    let e = side.spec_opposite();
    let occ1 = b1.all_occupancy;
    let p = choose|p: int| #[trigger] b.is_pinner(k, side, p, from);
    assert(b.is_pinner(k, side, p, from));
    let dr = sign(rank_of(p) - rank_of(k));
    let dc = sign(file_of(p) - file_of(k));
    lemma_slider_dir(k, 0u64, p);
    lemma_slider_dir(k, occ1, p);
    assert(ray_attack(k, dr, dc, 0u64, p));
    lemma_ray_to(k, dr, dc, p);
    let n = ray_dist(k, dr, dc, p);
    let fi = ray_dist(k, dr, dc, from);
    assert(strictly_between(k, p, from));
    assert(1 <= fi < n && from == ray_sq(k, dr, dc, fi));
    assert(ray_valid(k, dr, dc, fi) && ray_valid(k, dr, dc, n));
    if to == p {
        lemma_line_through(k, dr, dc, fi, n);
        assert(false);
    }
    assert(p != from);
    assert forall|j: int| 1 <= j < n implies !#[trigger] in_bb(occ1, ray_sq(k, dr, dc, j)) by {
        let y = ray_sq(k, dr, dc, j);
        assert(strictly_between(k, p, y));
        assert(ray_valid(k, dr, dc, j));
        if y == to {
            assert(j != fi);
            lemma_line_through(k, dr, dc, fi, j);
            assert(false);
        }
        if y != from {
            assert(b.colors[y] == Color::NoColor);
        }
    }
    assert(ray_attack(k, dr, dc, occ1, p));
    assert(0 <= p < 64 && p != to && p != from);
    assert(b1.colors[p] == b.colors[p] && b1.pieces[p] == b.pieces[p]) by {
        assert(0 <= p < 64 && p != from && p != to ==> b1.colors[p] == b.colors[p] && b1.pieces[p] == b.pieces[p]);
    }
    if rook_attack(k, 0u64, p) {
        assert(rook_attack(k, occ1, p));
    }
    if bishop_attack(k, 0u64, p) {
        assert(bishop_attack(k, occ1, p));
    }
    assert(b1.attacks_from(p, k, e, occ1));
}

/// An enemy attack on the king on `k` that a move of a pawn, knight or
/// slider opens runs through the square the piece left: the piece was
/// pinned, and it left the line through the king.
proof fn lemma_opened_attack(b: Board, b1: Board, m: Move, k: int, a: int)
    requires
        b.wf(),
        non_king_move(b, m),
        m.spec_flags() != flags::EN_PASSANT,
        moved_squares(b, b1, m.spec_from() as int, m.spec_to() as int),
        on_board(k),
        b.colors[k] == b.side_to_move,
        k != m.spec_from(),
        k != m.spec_to(),
        b1.attacks_from(a, k, b.side_to_move.spec_opposite(), b1.all_occupancy),
        !b.attacks_from(a, k, b.side_to_move.spec_opposite(), b.all_occupancy),
    ensures
        b.is_pinned(k, b.side_to_move, m.spec_from() as int),
        !on_line(m.spec_from() as int, m.spec_to() as int, k),
{
    let side = b.side_to_move;
    let e = side.spec_opposite();
    let from = m.spec_from() as int;
    let to = m.spec_to() as int;
    let occ = b.all_occupancy;
    let occ1 = b1.all_occupancy;
    assert(e != side && e != Color::NoColor);
    assert(a != from && a != to);
    assert(b1.pieces[a] == b.pieces[a] && b1.colors[a] == b.colors[a]);
    let dr = sign(rank_of(a) - rank_of(k));
    let dc = sign(file_of(a) - file_of(k));
    lemma_slider_dir(k, 0u64, a);
    lemma_slider_dir(k, occ, a);
    lemma_slider_dir(k, occ1, a);
    assert(ray_attack(k, dr, dc, occ1, a));
    assert(!ray_attack(k, dr, dc, occ, a));
    lemma_ray_to(k, dr, dc, a);
    let n = ray_dist(k, dr, dc, a);
    let fi = choose|j: int| 1 <= j < n && #[trigger] in_bb(occ, ray_sq(k, dr, dc, j));
    assert(1 <= fi < n && in_bb(occ, ray_sq(k, dr, dc, fi)));
    assert(!in_bb(occ1, ray_sq(k, dr, dc, fi)));
    assert(ray_sq(k, dr, dc, fi) == from);
    assert(ray_attack(k, dr, dc, 0u64, a));
    assert(strictly_between(k, a, from));
    assert forall|y: int| #![trigger strictly_between(k, a, y)]
        strictly_between(k, a, y) && b.colors[y] != Color::NoColor implies y == from by {
        let jy = ray_dist(k, dr, dc, y);
        assert(!in_bb(occ1, ray_sq(k, dr, dc, jy)));
    }
    assert(b.is_pinner(k, side, a, from));
    if on_line(from, to, k) {
        assert(ray_valid(k, dr, dc, fi));
        lemma_line_pos(k, dr, dc, fi, to);
        let t = ray_dist(k, dr, dc, to);
        assert forall|j: int| 1 <= j < n && j != fi implies b.colors[#[trigger] ray_sq(k, dr, dc, j)]
            == Color::NoColor by {
            assert(strictly_between(k, a, ray_sq(k, dr, dc, j)));
            assert(ray_dist(k, dr, dc, ray_sq(k, dr, dc, j)) == j);
        }
        assert(ray_valid(k, dr, dc, 0));
        lemma_ray_sq_coords(k, dr, dc, 0);
        lemma_same_coords(ray_sq(k, dr, dc, 0), k);
        lemma_move_on_segment(b, m, k, dr, dc, fi, n, t);
        assert(ray_valid(k, dr, dc, t));
        lemma_ray_sq_coords(k, dr, dc, t);
        lemma_same_coords(ray_sq(k, dr, dc, t), to);
        if t == 0 {
            assert(false);
        } else if t == n {
            assert(false);
        } else {
            assert(!in_bb(occ1, ray_sq(k, dr, dc, t)));
            assert(false);
        }
    }
}

/// Law: while the side to move is not in check, a move of a pawn, knight,
/// bishop, rook or queen (not en passant) passes the legality test exactly
/// when the king is not in check once the move is made.
pub proof fn law_piece_move_legal(b: Board, m: Move, st: UndoState, b1: Board)
    requires
        non_king_move(b, m),
        m.spec_flags() != flags::EN_PASSANT,
        !b.in_check(b.side_to_move),
        made_from(b, m, st, b1),
    ensures
        b.legal(m) <==> !b1.in_check(b.side_to_move),
{
    let side = b.side_to_move;
    let e = side.spec_opposite();
    let us = b.us();
    let from = m.spec_from() as int;
    let to = m.spec_to() as int;
    let f = m.spec_flags();
    let occ = b.all_occupancy;
    let occ1 = b1.all_occupancy;
    assert(side == Color::White || side == Color::Black);
    assert(us == 0 || us == 1);
    assert(Color::from_idx(us) == side);
    assert(e != side && e != Color::NoColor);
    assert(b.colors[from] == side && b.pieces[from] != PieceType::King);
    assert(b.colors[to] != side);
    assert(from != to);
    assert(!is_castle_flag(f));
    let lt = landing_type(f, b.pieces[from]);
    assert(lt != PieceType::King);
    assert(b1.pieces@ == b.pieces@.update(from, PieceType::Empty).update(to, lt));
    assert(b1.colors@ == b.colors@.update(from, Color::NoColor).update(to, side));
    assert(moved_squares(b, b1, from, to));
    // The king has not moved.
    assert forall|s: int| 0 <= s < 64 implies #[trigger] in_bb(b1.kings[us], s) == in_bb(b.kings[us], s) by {
        assert(in_bb(b1.bb_of(us, 5), s) <==> (b1.pieces[s] == PieceType::King && b1.colors[s] == side));
        assert(in_bb(b.bb_of(us, 5), s) <==> (b.pieces[s] == PieceType::King && b.colors[s] == side));
    }
    lemma_bitboard_ext(b1.kings[us], b.kings[us]);
    if b.kings[us] != 0 {
        let k = b.our_king();
        lemma_lsb(b.kings[us]);
        assert(in_bb(b.bb_of(us, 5), k));
        assert(b.pieces[k] == PieceType::King && b.colors[k] == side);
        assert(k != from && k != to);
        assert(b.legal(m) == b.pin_free(from, to));
        assert(b1.king_square(us) == k);
        if !b.pin_free(from, to) {
            lemma_pinned_uncovers(b, b1, from, to, k);
        }
        if b1.in_check(side) {
            let a = choose|a: int| #[trigger] b1.attacks_from(a, k, e, occ1);
            assert(!b.attacks_from(a, k, e, occ));
            lemma_opened_attack(b, b1, m, k, a);
        }
    }
}

/// Being strictly between two squares does not depend on their order.
proof fn lemma_between_sym(s1: int, s2: int, x: int)
    requires
        on_board(s1),
        on_board(s2),
    ensures
        strictly_between(s1, s2, x) == strictly_between(s2, s1, x),
{
    if squares_aligned(s1, s2) {
        let dr = sign(rank_of(s2) - rank_of(s1));
        let dc = sign(file_of(s2) - file_of(s1));
        assert(squares_aligned(s2, s1));
        assert(sign(rank_of(s1) - rank_of(s2)) == -dr);
        assert(sign(file_of(s1) - file_of(s2)) == -dc);
        assert(on_ray(s1, dr, dc, s2));
        assert(on_ray(s2, -dr, -dc, s1));
        let n = ray_dist(s1, dr, dc, s2);
        assert(ray_dist(s2, -dr, -dc, s1) == n);
        if strictly_between(s1, s2, x) {
            let j = ray_dist(s1, dr, dc, x);
            assert(ray_dist(s2, -dr, -dc, x) == n - j);
        }
        if strictly_between(s2, s1, x) {
            let j = ray_dist(s2, -dr, -dc, x);
            assert(ray_dist(s1, dr, dc, x) == n - j);
        }
    }
}

impl Board {
    /// The checker bitboard holds exactly the pieces other than the enemy
    /// king that attack the king of the side to move.
    proof fn lemma_checker_members(self)
        ensures
            forall|a: int| #[trigger] in_bb(self.checker_bb(self.side_to_move), a)
                <==> self.is_checker(self.our_king(), self.side_to_move, a),
    {
        let side = self.side_to_move;
        let k = self.our_king();
        let p = |s: int| self.is_checker(k, side, s);
        lemma_bb_upto(p, 64);
        let x = bb_upto(p, 64);
        assert forall|s: int| #[trigger] in_bb(x, s) <==> self.is_checker(self.king_square(side.spec_idx() as int), side, s) by {
            if self.is_checker(k, side, s) {
                assert(0 <= s < 64);
            }
        }
        self.lemma_checker_bb(side, x);
    }
}

/// No square strictly between an attacker and the square it attacks is
/// occupied; a piece with a square strictly between it and its target is
/// a slider on the ray towards it.
proof fn lemma_attack_clear(b: Board, k: int, c: int, e: Color)
    requires
        on_board(k),
        b.attacks_from(c, k, e, b.all_occupancy),
    ensures
        forall|y: int| #[trigger] strictly_between(k, c, y) ==> !in_bb(b.all_occupancy, y),
        (exists|y: int| #[trigger] strictly_between(k, c, y)) ==> on_ray(
            k,
            sign(rank_of(c) - rank_of(k)),
            sign(file_of(c) - file_of(k)),
            c,
        ),
{
    let occ = b.all_occupancy;
    let dr = sign(rank_of(c) - rank_of(k));
    let dc = sign(file_of(c) - file_of(k));
    lemma_slider_dir(k, occ, c);
    let p = b.pieces[c];
    let slides = ((p == PieceType::Bishop || p == PieceType::Queen) && bishop_attack(k, occ, c)) || ((p
        == PieceType::Rook || p == PieceType::Queen) && rook_attack(k, occ, c));
    if slides {
        assert(ray_attack(k, dr, dc, occ, c));
        lemma_ray_to(k, dr, dc, c);
        assert forall|y: int| #[trigger] strictly_between(k, c, y) implies !in_bb(occ, y) by {
            let j = ray_dist(k, dr, dc, y);
            assert(!in_bb(occ, ray_sq(k, dr, dc, j)));
        }
    } else {
        assert forall|y: int| #[trigger] strictly_between(k, c, y) implies false by {
            if squares_aligned(k, c) {
                assert(ray_dist(k, dr, dc, c) == 1);
            }
        }
    }
}

/// An attack on `k` survives a move that neither lands on the attacker
/// nor strictly between it and `k`.
proof fn lemma_attack_survives(b: Board, b1: Board, from: int, to: int, k: int, c: int)
    requires
        moved_squares(b, b1, from, to),
        on_board(k),
        b.attacks_from(c, k, b.side_to_move.spec_opposite(), b.all_occupancy),
        c != to,
        !strictly_between(k, c, to),
    ensures
        b1.attacks_from(c, k, b.side_to_move.spec_opposite(), b1.all_occupancy),
{
    let side = b.side_to_move;
    let e = side.spec_opposite();
    let occ = b.all_occupancy;
    let occ1 = b1.all_occupancy;
    assert(side == Color::White || side == Color::Black);
    assert(c != from);
    assert(b1.colors[c] == b.colors[c] && b1.pieces[c] == b.pieces[c]);
    lemma_attack_clear(b, k, c, e);
    let dr = sign(rank_of(c) - rank_of(k));
    let dc = sign(file_of(c) - file_of(k));
    lemma_slider_dir(k, occ, c);
    lemma_slider_dir(k, occ1, c);
    if ray_attack(k, dr, dc, occ, c) {
        lemma_ray_to(k, dr, dc, c);
        let n = ray_dist(k, dr, dc, c);
        assert forall|j: int| 1 <= j < n implies !#[trigger] in_bb(occ1, ray_sq(k, dr, dc, j)) by {
            let y = ray_sq(k, dr, dc, j);
            assert(strictly_between(k, c, y));
            assert(!in_bb(occ, y));
        }
        assert(ray_attack(k, dr, dc, occ1, c));
    }
}

/// A move of a piece other than the king cannot answer two checks: one of
/// two pieces attacking the king on `k` still attacks it after the move.
proof fn lemma_two_checkers(b: Board, b1: Board, from: int, to: int, k: int, c1: int, c2: int)
    requires
        moved_squares(b, b1, from, to),
        on_board(k),
        c1 != c2,
        b.attacks_from(c1, k, b.side_to_move.spec_opposite(), b.all_occupancy),
        b.attacks_from(c2, k, b.side_to_move.spec_opposite(), b.all_occupancy),
    ensures
        b1.attacked_with_occ(k, b.side_to_move.spec_opposite(), b1.all_occupancy),
{
    let e = b.side_to_move.spec_opposite();
    let occ = b.all_occupancy;
    lemma_attack_clear(b, k, c1, e);
    lemma_attack_clear(b, k, c2, e);
    if c1 != to && !strictly_between(k, c1, to) {
        lemma_attack_survives(b, b1, from, to, k, c1);
        assert(b1.attacks_from(c1, k, e, b1.all_occupancy));
    } else if c2 != to && !strictly_between(k, c2, to) {
        lemma_attack_survives(b, b1, from, to, k, c2);
        assert(b1.attacks_from(c2, k, e, b1.all_occupancy));
    } else if c1 == to {
        assert(strictly_between(k, c2, to));
        assert(in_bb(occ, c1));
        assert(false);
    } else if c2 == to {
        assert(strictly_between(k, c1, to));
        assert(in_bb(occ, c2));
        assert(false);
    } else {
        let d1r = sign(rank_of(c1) - rank_of(k));
        let d1c = sign(file_of(c1) - file_of(k));
        let d2r = sign(rank_of(c2) - rank_of(k));
        let d2c = sign(file_of(c2) - file_of(k));
        lemma_ray_to(k, d1r, d1c, c1);
        lemma_ray_to(k, d2r, d2c, c2);
        lemma_ray_to(k, d1r, d1c, to);
        lemma_ray_to(k, d2r, d2c, to);
        assert(d1r == d2r && d1c == d2c);
        let n1 = ray_dist(k, d1r, d1c, c1);
        let n2 = ray_dist(k, d1r, d1c, c2);
        assert(n1 != n2);
        if n1 < n2 {
            assert(strictly_between(k, c2, ray_sq(k, d1r, d1c, n1)));
            assert(in_bb(occ, c1));
        } else {
            assert(strictly_between(k, c1, ray_sq(k, d1r, d1c, n2)));
            assert(in_bb(occ, c2));
        }
        assert(false);
    }
}

/// Law: while the side to move is in check and the kings do not touch, a
/// move of a pawn, knight, bishop, rook or queen (not en passant) passes
/// the legality test exactly when the king is not in check once the move
/// is made.
pub proof fn law_piece_evasion_legal(b: Board, m: Move, st: UndoState, b1: Board)
    requires
        non_king_move(b, m),
        m.spec_flags() != flags::EN_PASSANT,
        b.in_check(b.side_to_move),
        b.kings_apart(),
        made_from(b, m, st, b1),
    ensures
        b.legal(m) <==> !b1.in_check(b.side_to_move),
{
    let side = b.side_to_move;
    let e = side.spec_opposite();
    let us = b.us();
    let from = m.spec_from() as int;
    let to = m.spec_to() as int;
    let f = m.spec_flags();
    let occ = b.all_occupancy;
    let occ1 = b1.all_occupancy;
    assert(side == Color::White || side == Color::Black);
    assert(us == 0 || us == 1);
    assert(Color::from_idx(us) == side);
    assert(e != side && e != Color::NoColor && e.spec_opposite() == side);
    assert(b.colors[from] == side && b.pieces[from] != PieceType::King);
    assert(b.colors[to] != side);
    assert(from != to);
    assert(!is_castle_flag(f));
    let lt = landing_type(f, b.pieces[from]);
    assert(lt != PieceType::King);
    assert(b1.pieces@ == b.pieces@.update(from, PieceType::Empty).update(to, lt));
    assert(b1.colors@ == b.colors@.update(from, Color::NoColor).update(to, side));
    assert(moved_squares(b, b1, from, to));
    assert forall|s: int| 0 <= s < 64 implies #[trigger] in_bb(b1.kings[us], s) == in_bb(b.kings[us], s) by {
        assert(in_bb(b1.bb_of(us, 5), s) <==> (b1.pieces[s] == PieceType::King && b1.colors[s] == side));
        assert(in_bb(b.bb_of(us, 5), s) <==> (b.pieces[s] == PieceType::King && b.colors[s] == side));
    }
    lemma_bitboard_ext(b1.kings[us], b.kings[us]);
    let k = b.our_king();
    lemma_lsb(b.kings[us]);
    assert(in_bb(b.bb_of(us, 5), k));
    assert(b.pieces[k] == PieceType::King && b.colors[k] == side);
    assert(k != from && k != to);
    assert(b1.king_square(us) == k);
    assert(b.legal(m) == b.check_evasion_legal(m));
    // The checkers are the attackers of the king.
    b.lemma_checker_members();
    let x = b.checker_bb(side);
    assert forall|a: int| #[trigger] in_bb(x, a) <==> b.attacks_from(a, k, e, occ) by {}
    let a0 = choose|a: int| #[trigger] b.attacks_from(a, k, e, occ);
    assert(in_bb(x, a0));
    lemma_popcount_zero_upto(x, 64);
    assert(popcount(x) != 0);
    lemma_lsb(x);
    let c = lsb(x);
    assert(b.attacks_from(c, k, e, occ));
    // After the move, an attacker of the king that did not attack it
    // before was uncovered by a pinned piece leaving its line.
    assert forall|a: int| #[trigger] b1.attacks_from(a, k, e, occ1) && !b.attacks_from(a, k, e, occ)
        implies b.is_pinned(k, side, from) && !on_line(from, to, k) by {
        lemma_opened_attack(b, b1, m, k, a);
    }
    crate::board::bitboard::lemma_popcount_one(x);
    if popcount(x) > 1 {
        assert(!crate::board::bitboard::only_square(x, c));
        let c2 = choose|a: int| #[trigger] in_bb(x, a) && a != c;
        assert(in_bb(x, c2) && c2 != c);
        lemma_two_checkers(b, b1, from, to, k, c, c2);
    } else {
        assert(popcount(x) == 1);
        let c1 = choose|a: int| #[trigger] crate::board::bitboard::only_square(x, a);
        assert(c1 == c);
        assert forall|a: int| #[trigger] b.attacks_from(a, k, e, occ) implies a == c by {
            assert(in_bb(x, a));
        }
        lemma_between_sym(c, k, to);
        if to == c {
            if !b.pin_free(from, to) {
                lemma_pinned_uncovers(b, b1, from, to, k);
            }
            if b1.in_check(side) {
                let a = choose|a: int| #[trigger] b1.attacks_from(a, k, e, occ1);
                assert(a != c);
            }
        } else if !strictly_between(k, c, to) {
            lemma_attack_survives(b, b1, from, to, k, c);
            assert(b1.attacks_from(c, k, e, occ1));
        } else {
            if !b.pin_free(from, to) {
                lemma_pinned_uncovers(b, b1, from, to, k);
            }
            lemma_attack_clear(b, k, c, e);
            assert(b.pieces[c] != PieceType::Knight && b.pieces[c] != PieceType::Pawn);
            if b1.in_check(side) {
                let a = choose|a: int| #[trigger] b1.attacks_from(a, k, e, occ1);
                if a == c {
                    let dr = sign(rank_of(c) - rank_of(k));
                    let dc = sign(file_of(c) - file_of(k));
                    lemma_slider_dir(k, occ1, c);
                    lemma_ray_to(k, dr, dc, c);
                    let j = ray_dist(k, dr, dc, to);
                    assert(in_bb(occ1, ray_sq(k, dr, dc, j)));
                    assert(!ray_attack(k, dr, dc, occ1, c));
                    assert(false);
                }
            }
        }
    }
}

/// Law: an en passant capture of a side with a king, whose target square
/// is empty and whose captured square holds an enemy pawn, passes the
/// legality test exactly when the king is not in check once the move is
/// made.
pub proof fn law_en_passant_legal(b: Board, m: Move, st: UndoState, b1: Board)
    requires
        pawn_en_passant(b, m.spec_from() as int, m.spec_to() as int),
        m.spec_flags() == flags::EN_PASSANT,
        b.kings[b.us()] != 0,
        b.colors[m.spec_to() as int] == Color::NoColor,
        b.pieces[b.ep_victim(m.spec_to() as int)] == PieceType::Pawn,
        b.colors[b.ep_victim(m.spec_to() as int)] == b.side_to_move.spec_opposite(),
        made_from(b, m, st, b1),
    ensures
        b.legal(m) <==> !b1.in_check(b.side_to_move),
{
    let side = b.side_to_move;
    let e = side.spec_opposite();
    let us = b.us();
    let from = m.spec_from() as int;
    let to = m.spec_to() as int;
    let v = b.ep_victim(to);
    let occ = b.all_occupancy;
    let occ1 = b1.all_occupancy;
    let occe = ((occ ^ spec_bit(from)) ^ spec_bit(v)) | spec_bit(to);
    assert(side == Color::White || side == Color::Black);
    assert(us == 0 || us == 1);
    assert(Color::from_idx(us) == side);
    assert(e != side && e != Color::NoColor);
    assert(b.colors[from] == side && b.pieces[from] == PieceType::Pawn);
    assert(v == crate::board::make_move::ep_capture_square(side, to));
    assert(0 <= v < 64);
    assert(from != to && from != v && to != v);
    assert(b1.pieces@ == b.pieces@.update(v, PieceType::Empty).update(from, PieceType::Empty).update(
        to,
        PieceType::Pawn,
    ));
    assert(b1.colors@ == b.colors@.update(v, Color::NoColor).update(from, Color::NoColor).update(to, side));
    assert forall|s: int| 0 <= s < 64 implies #[trigger] in_bb(b1.kings[us], s) == in_bb(b.kings[us], s) by {
        assert(in_bb(b1.bb_of(us, 5), s) <==> (b1.pieces[s] == PieceType::King && b1.colors[s] == side));
        assert(in_bb(b.bb_of(us, 5), s) <==> (b.pieces[s] == PieceType::King && b.colors[s] == side));
    }
    lemma_bitboard_ext(b1.kings[us], b.kings[us]);
    let k = b.our_king();
    assert(b1.king_square(us) == k);
    assert(b.legal(m) == b.ep_legal(m));
    // The occupancy the test uses is the one after the move.
    assert forall|y: int| #[trigger] in_bb(occ1, y) == in_bb(occe, y) by {
        if 0 <= y < 64 {
            assert(in_bb(occ1, y) <==> b1.colors[y] != Color::NoColor);
            assert(in_bb(occ, y) <==> b.colors[y] != Color::NoColor);
        }
    }
    lemma_bitboard_ext(occ1, occe);
    assert forall|a: int| a != v implies #[trigger] b.attacks_from(a, k, e, occe) == b1.attacks_from(a, k, e, occ1) by {
        if 0 <= a < 64 && a != from && a != to {
            assert(b1.pieces[a] == b.pieces[a] && b1.colors[a] == b.colors[a]);
        }
    }
    if b1.in_check(side) {
        let a = choose|a: int| #[trigger] b1.attacks_from(a, k, e, occ1);
        assert(a != v);
        assert(b.attacks_from(a, k, e, occe));
    }
    if !b.ep_legal(m) {
        let a = choose|a: int| a != v && #[trigger] b.attacks_from(a, k, e, occe);
        assert(b1.attacks_from(a, k, e, occ1));
    }
}

/// No enemy slider reaches the castling king's target square through the
/// squares the king and the rook leave: a ray from the target that finds
/// one of them empty after castling passes the rook's new square first,
/// or leaves the board.
proof fn lemma_castle_rays(kt: int, kf: int, rf: int, rt: int, dr: int, dc: int, j: int, n: int)
    requires
        on_board(kt),
        is_direction(dr, dc),
        1 <= j < n,
        forall|i: int| 0 <= i <= n ==> #[trigger] ray_valid(kt, dr, dc, i),
        (kt == 6 && kf == 4 && rf == 7 && rt == 5) || (kt == 2 && kf == 4 && rf == 0 && rt == 3) || (kt
            == 62 && kf == 60 && rf == 63 && rt == 61) || (kt == 58 && kf == 60 && rf == 56 && rt == 59),
        ray_sq(kt, dr, dc, j) == kf || ray_sq(kt, dr, dc, j) == rf,
    ensures
        j >= 2 && ray_sq(kt, dr, dc, 1) == rt,
{
    lemma_ray_sq_coords(kt, dr, dc, j);
    lemma_ray_sq_coords(kt, dr, dc, 1);
    assert(ray_valid(kt, dr, dc, n));
    lemma_ray_sq_coords(kt, dr, dc, n);
    lemma_same_coords(ray_sq(kt, dr, dc, 1), rt);
}

/// Law: a castling move of a side whose only king stands on its start
/// square and whose rook stands in its corner passes the legality test,
/// and the king is not in check once it is made.
pub proof fn law_castle_legal(b: Board, m: Move, st: UndoState, b1: Board)
    requires
        castle_move(b, m),
        b.kings[b.us()] == spec_bit(m.spec_from() as int),
        b.pieces[castle_rook_from(b.side_to_move, m.spec_flags())] == PieceType::Rook,
        b.colors[castle_rook_from(b.side_to_move, m.spec_flags())] == b.side_to_move,
        made_from(b, m, st, b1),
    ensures
        b.legal(m),
        !b1.in_check(b.side_to_move),
{
    let side = b.side_to_move;
    let e = side.spec_opposite();
    let us = b.us();
    let from = m.spec_from() as int;
    let to = m.spec_to() as int;
    let f = m.spec_flags();
    let rf = castle_rook_from(side, f);
    let rt = castle_rook_to(side, f);
    let occ = b.all_occupancy;
    let occ1 = b1.all_occupancy;
    assert(side == Color::White || side == Color::Black);
    assert(us == 0 || us == 1);
    assert(Color::from_idx(us) == side);
    assert(e != side && e != Color::NoColor);
    assert(in_bb(b.bb_of(us, 5), from));
    assert(b.pieces[from] == PieceType::King && b.colors[from] == side);
    lemma_lsb_bit(from);
    assert(b.our_king() == from);
    assert(is_castle_flag(f));
    assert(b1.pieces@ == b.pieces@.update(from, PieceType::Empty).update(to, PieceType::King).update(
        rf,
        PieceType::Empty,
    ).update(rt, PieceType::Rook));
    assert(b1.colors@ == b.colors@.update(from, Color::NoColor).update(to, side).update(rf, Color::NoColor).update(
        rt,
        side,
    ));
    assert(!in_bb(occ, to) && !in_bb(occ, rt));
    assert(b.colors[to] == Color::NoColor && b.colors[rt] == Color::NoColor);
    assert(b.castle_legal(m));
    assert(b.legal(m));
    // After castling the king stands on `to` alone.
    assert forall|s: int| 0 <= s < 64 implies #[trigger] in_bb(b1.kings[us], s) == in_bb(spec_bit(to), s) by {
        assert(in_bb(b1.bb_of(us, 5), s) <==> (b1.pieces[s] == PieceType::King && b1.colors[s] == side));
        assert(in_bb(b.bb_of(us, 5), s) <==> (b.pieces[s] == PieceType::King && b.colors[s] == side));
    }
    lemma_bitboard_ext(b1.kings[us], spec_bit(to));
    lemma_lsb_bit(to);
    assert(b1.king_square(us) == to);
    assert forall|y: int| #[trigger] in_bb(occ1, y) <==> (0 <= y < 64 && b1.colors[y] != Color::NoColor) by {}
    assert forall|y: int| #[trigger] in_bb(occ, y) <==> (0 <= y < 64 && b.colors[y] != Color::NoColor) by {}
    if b1.in_check(side) {
        let a = choose|a: int| #[trigger] b1.attacks_from(a, to, e, occ1);
        assert(a != from && a != to && a != rf && a != rt);
        assert(b1.pieces[a] == b.pieces[a] && b1.colors[a] == b.colors[a]);
        let dr = sign(rank_of(a) - rank_of(to));
        let dc = sign(file_of(a) - file_of(to));
        lemma_slider_dir(to, occ, a);
        lemma_slider_dir(to, occ1, a);
        if ray_attack(to, dr, dc, occ1, a) && !ray_attack(to, dr, dc, occ, a) {
            lemma_ray_to(to, dr, dc, a);
            let n = ray_dist(to, dr, dc, a);
            let j = choose|j: int| 1 <= j < n && #[trigger] in_bb(occ, ray_sq(to, dr, dc, j));
            assert(1 <= j < n && in_bb(occ, ray_sq(to, dr, dc, j)));
            assert(!in_bb(occ1, ray_sq(to, dr, dc, j)));
            lemma_castle_rays(to, from, rf, rt, dr, dc, j, n);
            assert(!in_bb(occ1, ray_sq(to, dr, dc, 1)));
            assert(false);
        }
        assert(b.attacks_from(a, to, e, occ));
        assert(false);
    }
}

/// A bitboard with a single square is that square's bitboard.
proof fn lemma_single_square(x: u64)
    requires
        popcount(x) == 1,
    ensures
        x == spec_bit(lsb(x)),
        0 <= lsb(x) < 64,
{
    crate::board::bitboard::lemma_popcount_one(x);
    let a = choose|a: int| #[trigger] crate::board::bitboard::only_square(x, a);
    lemma_popcount_zero_upto(x, 64);
    assert(x != 0) by {
        if x == 0 {
            crate::board::bitboard::lemma_in_bb_zero(a);
        }
    }
    lemma_lsb(x);
    assert(lsb(x) == a);
    assert forall|s: int| 0 <= s < 64 implies #[trigger] in_bb(x, s) == in_bb(spec_bit(a), s) by {}
    lemma_bitboard_ext(x, spec_bit(a));
}

/// Law: a pseudo-legal move passes the legality test exactly when the
/// mover's king is not in check once the move is made. This holds for a
/// side with a single king that the enemy king does not touch, whose
/// castling moves start from the king's square with the rook in its
/// corner, and whose en passant captures land on an empty square and
/// take an enemy pawn.
pub proof fn law_legal_after_move(b: Board, m: Move, st: UndoState, b1: Board)
    requires
        pseudo_move(b, m, GenType::All),
        popcount(b.kings[b.us()]) == 1,
        b.kings_apart(),
        is_castle_flag(m.spec_flags()) ==> {
            &&& b.our_king() == m.spec_from()
            &&& b.pieces[castle_rook_from(b.side_to_move, m.spec_flags())] == PieceType::Rook
            &&& b.colors[castle_rook_from(b.side_to_move, m.spec_flags())] == b.side_to_move
        },
        m.spec_flags() == flags::EN_PASSANT ==> {
            &&& b.colors[m.spec_to() as int] == Color::NoColor
            &&& b.pieces[b.ep_victim(m.spec_to() as int)] == PieceType::Pawn
            &&& b.colors[b.ep_victim(m.spec_to() as int)] == b.side_to_move.spec_opposite()
        },
        made_from(b, m, st, b1),
    ensures
        b.legal(m) <==> !b1.in_check(b.side_to_move),
{
    let f = m.spec_flags();
    let from = m.spec_from() as int;
    let to = m.spec_to() as int;
    lemma_single_square(b.kings[b.us()]);
    if king_gen_move(b, m, GenType::All) {
        if king_move(b, m, GenType::All) {
            law_king_step_legal(b, m, st, b1);
        } else {
            law_castle_legal(b, m, st, b1);
        }
    } else if f == flags::EN_PASSANT {
        if pawn_gen_move(b, m, GenType::All) {
            assert(pawn_en_passant(b, from, to));
        }
        law_en_passant_legal(b, m, st, b1);
    } else if b.in_check(b.side_to_move) {
        law_piece_evasion_legal(b, m, st, b1);
    } else {
        law_piece_move_legal(b, m, st, b1);
    }
}

/// Law: a pseudo-legal move can be played and taken back exactly
/// (`move_reversible`, the condition of `make_move` and `unmake_move`)
/// when its castling starts from the king's square with the rook in its
/// corner, its en passant capture lands on an empty square and takes an
/// enemy pawn, and the move clocks are below their limit.
pub proof fn law_pseudo_move_reversible(b: Board, m: Move)
    requires
        b.wf(),
        pseudo_move(b, m, GenType::All),
        is_castle_flag(m.spec_flags()) ==> {
            &&& b.our_king() == m.spec_from()
            &&& b.kings[b.us()] != 0
            &&& b.pieces[castle_rook_from(b.side_to_move, m.spec_flags())] == PieceType::Rook
            &&& b.colors[castle_rook_from(b.side_to_move, m.spec_flags())] == b.side_to_move
        },
        m.spec_flags() == flags::EN_PASSANT ==> {
            &&& b.colors[m.spec_to() as int] == Color::NoColor
            &&& b.pieces[b.ep_victim(m.spec_to() as int)] == PieceType::Pawn
            &&& b.colors[b.ep_victim(m.spec_to() as int)] == b.side_to_move.spec_opposite()
        },
        b.halfmove_clock < 0xFFFF,
        b.fullmove_number < 0xFFFF,
    ensures
        move_reversible(b, m),
{
    let side = b.side_to_move;
    let us = b.us();
    let f = m.spec_flags();
    let from = m.spec_from() as int;
    let to = m.spec_to() as int;
    assert(side == Color::White || side == Color::Black);
    assert(us == 0 || us == 1);
    assert(Color::from_idx(us) == side);
    lemma_low_flags(f);
    assert(f < 16);
    assert(is_capture_flag(f) <==> (4 <= f < 8 || f >= 12));
    assert(f & 8u8 != 0 <==> f >= 8);
    if king_gen_move(b, m, GenType::All) {
        lemma_lsb(b.kings[us]);
        assert(in_bb(b.bb_of(us, 5), b.king_square(us)));
    }
    assert(b.colors[from] == side);
    assert(from != to);
    if f == flags::EN_PASSANT {
        assert(pawn_en_passant(b, from, to));
        assert(0 <= b.ep_victim(to) < 64);
    }
    assert(move_ok(b, m));
}

/// Law: while the side to move is in check and the kings do not touch,
/// every pseudo-legal move that passes the legality test is one the
/// evasion generator produces (see [`crate::movegen::generate_evasions`]):
/// a king move, or under a single check a move that captures the checker,
/// blocks it, or captures en passant. An en passant capture is covered
/// under a single check only: under a double check the generator leaves
/// it out.
pub proof fn law_legal_moves_are_evasions(b: Board, m: Move)
    requires
        b.wf(),
        b.in_check(b.side_to_move),
        b.kings_apart(),
        pseudo_move(b, m, GenType::All),
        b.legal(m),
        m.spec_flags() == flags::EN_PASSANT ==> popcount(b.checker_bb(b.side_to_move)) == 1,
    ensures
        evasion_move(b, m),
{
    let side = b.side_to_move;
    let e = side.spec_opposite();
    let us = b.us();
    let k = b.our_king();
    let from = m.spec_from() as int;
    let to = m.spec_to() as int;
    assert(side == Color::White || side == Color::Black);
    assert(e != side && e.spec_opposite() == side);
    if !king_gen_move(b, m, GenType::All) {
        assert(non_king_move(b, m));
        let a = choose|a: int| #[trigger] b.attacks_from(a, b.king_square(us), e, b.all_occupancy);
        assert(b.is_checker(k, side, a));
        b.lemma_checkers_not_empty(a);
        let x = b.checker_bb(side);
        lemma_popcount_zero_upto(x, 64);
        crate::board::bitboard::lemma_zero_iff_empty(x);
        lemma_lsb(x);
        lemma_lsb(b.kings[us]);
        lemma_between_sym(lsb(x), k, to);
        assert(b.pieces[from] != PieceType::King);
    }
}

} // verus!
