//! Board geometry: files, ranks and the moves of the leaping pieces.
use vstd::prelude::*;

verus! {

/// File (column) of a square, 0 for the a-file.
pub open spec fn file_of(s: int) -> int {
    s % 8
}

/// Rank (row) of a square, 0 for the first rank.
pub open spec fn rank_of(s: int) -> int {
    s / 8
}

pub open spec fn abs_diff(a: int, b: int) -> int {
    if a >= b {
        a - b
    } else {
        b - a
    }
}

/// Whether `s` names a square of the board.
pub open spec fn on_board(s: int) -> bool {
    0 <= s < 64
}

/// Whether a knight on `from` attacks `to`.
pub open spec fn knight_step(from: int, to: int) -> bool {
    let df = abs_diff(file_of(from), file_of(to));
    let dr = abs_diff(rank_of(from), rank_of(to));
    on_board(to) && ((df == 1 && dr == 2) || (df == 2 && dr == 1))
}

/// Whether a king on `from` attacks `to`.
pub open spec fn king_step(from: int, to: int) -> bool {
    let df = abs_diff(file_of(from), file_of(to));
    let dr = abs_diff(rank_of(from), rank_of(to));
    on_board(to) && df <= 1 && dr <= 1 && !(df == 0 && dr == 0)
}

/// Whether a pawn of the given side (`white`) on `from` attacks `to`:
/// one step forward diagonally.
pub open spec fn pawn_step(white: bool, from: int, to: int) -> bool {
    on_board(to) && abs_diff(file_of(from), file_of(to)) == 1 && (if white {
        rank_of(to) == rank_of(from) + 1
    } else {
        rank_of(to) == rank_of(from) - 1
    })
}

} // verus!

verus! {

/// `k` steps in direction `d` (one of -1, 0, 1).
pub open spec fn step(d: int, k: int) -> int {
    if d > 0 {
        k
    } else if d < 0 {
        -k
    } else {
        0
    }
}

/// Whether `(dr, dc)` is one of the eight directions.
pub open spec fn is_direction(dr: int, dc: int) -> bool {
    -1 <= dr <= 1 && -1 <= dc <= 1 && !(dr == 0 && dc == 0)
}

/// Whether the point `k` steps from `s` in direction `(dr, dc)` is on the board.
pub open spec fn ray_valid(s: int, dr: int, dc: int, k: int) -> bool {
    0 <= rank_of(s) + step(dr, k) < 8 && 0 <= file_of(s) + step(dc, k) < 8
}

/// The square `k` steps from `s` in direction `(dr, dc)`.
pub open spec fn ray_sq(s: int, dr: int, dc: int, k: int) -> int {
    (rank_of(s) + step(dr, k)) * 8 + file_of(s) + step(dc, k)
}

/// The number of steps from `s` to `t` along direction `(dr, dc)`, if `t`
/// lies on that ray.
pub open spec fn ray_dist(s: int, dr: int, dc: int, t: int) -> int {
    if dr != 0 {
        step(dr, rank_of(t) - rank_of(s))
    } else {
        step(dc, file_of(t) - file_of(s))
    }
}

/// Whether `t` lies on the ray from `s` in direction `(dr, dc)`, `s` excluded.
pub open spec fn on_ray(s: int, dr: int, dc: int, t: int) -> bool {
    let k = ray_dist(s, dr, dc, t);
    on_board(t) && k >= 1 && rank_of(t) == rank_of(s) + step(dr, k) && file_of(t) == file_of(s)
        + step(dc, k)
}

/// Whether `occupied` (a membership predicate) holds of no square strictly
/// before step `k` on the ray from `s`.
pub open spec fn ray_clear(s: int, dr: int, dc: int, occ: u64, k: int) -> bool {
    forall|j: int| 1 <= j < k ==> !#[trigger] crate::board::bitboard::in_bb(occ, ray_sq(s, dr, dc, j))
}

/// Whether a slider on `s` moving in direction `(dr, dc)` reaches `t` with
/// the squares of `occ` blocking: `t` is on the ray and nothing stands
/// strictly between.
pub open spec fn ray_attack(s: int, dr: int, dc: int, occ: u64, t: int) -> bool {
    on_ray(s, dr, dc, t) && ray_clear(s, dr, dc, occ, ray_dist(s, dr, dc, t))
}

/// Rook attacks: the four orthogonal rays.
pub open spec fn rook_attack(s: int, occ: u64, t: int) -> bool {
    ray_attack(s, 1, 0, occ, t) || ray_attack(s, -1, 0, occ, t) || ray_attack(s, 0, 1, occ, t)
        || ray_attack(s, 0, -1, occ, t)
}

/// Bishop attacks: the four diagonal rays.
pub open spec fn bishop_attack(s: int, occ: u64, t: int) -> bool {
    ray_attack(s, 1, 1, occ, t) || ray_attack(s, 1, -1, occ, t) || ray_attack(s, -1, 1, occ, t)
        || ray_attack(s, -1, -1, occ, t)
}

/// The direction from `s1` towards `s2` when they share a rank, file or
/// diagonal: (sign of rank difference, sign of file difference).
pub open spec fn sign(x: int) -> int {
    if x > 0 {
        1
    } else if x < 0 {
        -1
    } else {
        0
    }
}

/// Whether two distinct squares share a rank, file or diagonal.
pub open spec fn squares_aligned(s1: int, s2: int) -> bool {
    let dr = rank_of(s2) - rank_of(s1);
    let dc = file_of(s2) - file_of(s1);
    s1 != s2 && (dr == 0 || dc == 0 || abs_diff(dr, 0) == abs_diff(dc, 0))
}

/// Whether `x` lies strictly between the aligned squares `s1` and `s2`.
pub open spec fn strictly_between(s1: int, s2: int, x: int) -> bool {
    let dr = sign(rank_of(s2) - rank_of(s1));
    let dc = sign(file_of(s2) - file_of(s1));
    squares_aligned(s1, s2) && on_ray(s1, dr, dc, x) && ray_dist(s1, dr, dc, x) < ray_dist(
        s1,
        dr,
        dc,
        s2,
    )
}

/// Whether `x` lies on the full line through the aligned squares `s1` and `s2`.
pub open spec fn on_line(s1: int, s2: int, x: int) -> bool {
    let dr = sign(rank_of(s2) - rank_of(s1));
    let dc = sign(file_of(s2) - file_of(s1));
    squares_aligned(s1, s2) && (x == s1 || on_ray(s1, dr, dc, x) || on_ray(s1, -dr, -dc, x))
}

} // verus!
