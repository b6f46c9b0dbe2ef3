//! Sliding-piece attacks and line geometry.
//!
//! Rays are traced square by square from the origin until the board edge or
//! the first occupied square, which is included (it may be captured).
use vstd::prelude::*;
use crate::board::bitboard::{in_bb, bit, group_bitboard};
use crate::geometry::{
    rank_of, file_of, step, is_direction, ray_sq, ray_dist, on_ray, ray_clear, ray_attack,
    rook_attack, bishop_attack, on_board, sign, squares_aligned, strictly_between, on_line,
    abs_diff, ray_valid,
};

verus! {

/// Sets up the slider attack sets. They are computed on demand, so there is nothing to
/// prepare.
pub fn init_magics() {
}

broadcast use group_bitboard;

/// The squares a slider on `sq` reaches in direction `(dr, dc)`.
fn ray_attacks(sq: u8, occ: u64, dr: i8, dc: i8) -> (r: u64)
    requires
        sq < 64,
        is_direction(dr as int, dc as int),
    ensures
        forall|t: int| #[trigger] in_bb(r, t) <==> ray_attack(sq as int, dr as int, dc as int, occ, t),
{
    let ghost s = sq as int;
    let ghost d1 = dr as int;
    let ghost d2 = dc as int;
    let r0: i8 = (sq / 8) as i8;
    let c0: i8 = (sq % 8) as i8;
    let mut nr: i8 = r0 + dr;
    let mut nc: i8 = c0 + dc;
    let mut attacks: u64 = 0;
    let ghost mut k: int = 1;
    loop
        invariant_except_break
            1 <= k <= 8,
            s == sq as int,
            d1 == dr as int,
            d2 == dc as int,
            is_direction(d1, d2),
            r0 == rank_of(s),
            c0 == file_of(s),
            0 <= r0 < 8,
            0 <= c0 < 8,
            nr == r0 + step(d1, k),
            nc == c0 + step(d2, k),
            ray_clear(s, d1, d2, occ, k),
            forall|t: int| #[trigger] in_bb(attacks, t) <==> on_ray(s, d1, d2, t) && ray_dist(s, d1, d2, t) < k,
        ensures
            forall|t: int| #[trigger] in_bb(attacks, t) <==> ray_attack(s, d1, d2, occ, t),
        decreases 8 - k,
    {
        if !(nr >= 0 && nr < 8 && nc >= 0 && nc < 8) {
            assert forall|t: int| #[trigger] in_bb(attacks, t) <==> ray_attack(s, d1, d2, occ, t) by {
                if on_ray(s, d1, d2, t) {
                    assert(ray_dist(s, d1, d2, t) < k);
                }
            }
            break;
        }
        let nsq: u8 = (nr * 8 + nc) as u8;
        assert(nsq as int == ray_sq(s, d1, d2, k));
        assert(rank_of(nsq as int) == nr && file_of(nsq as int) == nc);
        assert(ray_dist(s, d1, d2, nsq as int) == k) by {
            if d1 != 0 {
                assert(rank_of(nsq as int) - rank_of(s) == step(d1, k));
            } else {
                assert(file_of(nsq as int) - file_of(s) == step(d2, k));
            }
        }
        assert(on_ray(s, d1, d2, nsq as int) && ray_dist(s, d1, d2, nsq as int) == k);
        let b = bit(nsq);
        let ghost old_attacks = attacks;
        attacks = attacks | b;
        assert forall|t: int| #[trigger] in_bb(attacks, t) <==> on_ray(s, d1, d2, t) && ray_dist(s, d1, d2, t) < k + 1 by {
            assert(in_bb(old_attacks, t) == (on_ray(s, d1, d2, t) && ray_dist(s, d1, d2, t) < k));
            if on_ray(s, d1, d2, t) && ray_dist(s, d1, d2, t) == k {
                assert(t == (t / 8) * 8 + t % 8);
            }
        }
        if (b & occ) != 0 {
            assert(in_bb(occ, nsq as int)) by {
                crate::board::bitboard::lemma_zero_iff_empty(b & occ);
            }
            assert forall|t: int| #[trigger] in_bb(attacks, t) <==> ray_attack(s, d1, d2, occ, t) by {
                if on_ray(s, d1, d2, t) && ray_dist(s, d1, d2, t) > k {
                    assert(in_bb(occ, ray_sq(s, d1, d2, k)));
                }
            }
            break;
        }
        assert(!in_bb(occ, nsq as int)) by {
            if in_bb(occ, nsq as int) {
                assert(in_bb(b & occ, nsq as int));
                crate::board::bitboard::lemma_zero_iff_empty(b & occ);
            }
        }
        nr = nr + dr;
        nc = nc + dc;
        proof {
            k = k + 1;
        }
    }
    attacks
}

/// Bishop attacks from `sq` with `occ` occupied.
pub fn get_bishop_attacks(sq: u8, occ: u64) -> (r: u64)
    requires
        sq < 64,
    ensures
        forall|t: int| #[trigger] in_bb(r, t) <==> bishop_attack(sq as int, occ, t),
{
    ray_attacks(sq, occ, 1, 1) | ray_attacks(sq, occ, 1, -1) | ray_attacks(sq, occ, -1, 1)
        | ray_attacks(sq, occ, -1, -1)
}

/// Rook attacks from `sq` with `occ` occupied.
pub fn get_rook_attacks(sq: u8, occ: u64) -> (r: u64)
    requires
        sq < 64,
    ensures
        forall|t: int| #[trigger] in_bb(r, t) <==> rook_attack(sq as int, occ, t),
{
    ray_attacks(sq, occ, 1, 0) | ray_attacks(sq, occ, -1, 0) | ray_attacks(sq, occ, 0, 1)
        | ray_attacks(sq, occ, 0, -1)
}

/// Queen attacks: the union of bishop and rook attacks.
pub fn get_queen_attacks(sq: u8, occ: u64) -> (r: u64)
    requires
        sq < 64,
    ensures
        forall|t: int| #[trigger]
            in_bb(r, t) <==> bishop_attack(sq as int, occ, t) || rook_attack(sq as int, occ, t),
{
    get_bishop_attacks(sq, occ) | get_rook_attacks(sq, occ)
}


/// The direction from `s1` to `s2` as a pair of signs.
fn direction(s1: u8, s2: u8) -> (d: (i8, i8))
    requires
        s1 < 64,
        s2 < 64,
    ensures
        d.0 as int == sign(rank_of(s2 as int) - rank_of(s1 as int)),
        d.1 as int == sign(file_of(s2 as int) - file_of(s1 as int)),
{
    let r1 = (s1 / 8) as i8;
    let c1 = (s1 % 8) as i8;
    let r2 = (s2 / 8) as i8;
    let c2 = (s2 % 8) as i8;
    let dr: i8 = if r2 > r1 { 1 } else if r2 < r1 { -1 } else { 0 };
    let dc: i8 = if c2 > c1 { 1 } else if c2 < c1 { -1 } else { 0 };
    (dr, dc)
}

/// Whether `s1` and `s2` are distinct and share a rank, file or diagonal.
fn is_aligned_pair(s1: u8, s2: u8) -> (b: bool)
    requires
        s1 < 64,
        s2 < 64,
    ensures
        b == squares_aligned(s1 as int, s2 as int),
{
    let r1 = (s1 / 8) as i8;
    let c1 = (s1 % 8) as i8;
    let r2 = (s2 / 8) as i8;
    let c2 = (s2 % 8) as i8;
    let dr = r2 - r1;
    let dc = c2 - c1;
    let adr = if dr >= 0 { dr } else { -dr };
    let adc = if dc >= 0 { dc } else { -dc };
    s1 != s2 && (dr == 0 || dc == 0 || adr == adc)
}

/// Facts about the ray from `s1` through an aligned `s2`.
proof fn lemma_aligned_ray(s1: int, s2: int)
    requires
        on_board(s1),
        on_board(s2),
        squares_aligned(s1, s2),
    ensures
        ({
            let dr = sign(rank_of(s2) - rank_of(s1));
            let dc = sign(file_of(s2) - file_of(s1));
            &&& is_direction(dr, dc)
            &&& on_ray(s1, dr, dc, s2)
            &&& forall|j: int|
                1 <= j <= ray_dist(s1, dr, dc, s2) ==> ray_valid(s1, dr, dc, j) && on_board(
                    #[trigger] ray_sq(s1, dr, dc, j),
                ) && (ray_sq(s1, dr, dc, j) == s2 <==> j == ray_dist(s1, dr, dc, s2))
        }),
{
    let dr = sign(rank_of(s2) - rank_of(s1));
    let dc = sign(file_of(s2) - file_of(s1));
    assert(s2 == rank_of(s2) * 8 + file_of(s2));
    assert forall|j: int| 1 <= j <= ray_dist(s1, dr, dc, s2) implies ray_valid(s1, dr, dc, j)
        && on_board(#[trigger] ray_sq(s1, dr, dc, j)) && (ray_sq(s1, dr, dc, j) == s2 <==> j
        == ray_dist(s1, dr, dc, s2)) by {
        let q = ray_sq(s1, dr, dc, j);
        if q == s2 {
            assert(rank_of(q) == rank_of(s1) + step(dr, j));
        }
    }
}

/// Within a ray, the squares before a reachable square are on the board and
/// distinct from it.
proof fn lemma_ray_prefix(s: int, dr: int, dc: int, x: int)
    requires
        on_board(s),
        is_direction(dr, dc),
        on_ray(s, dr, dc, x),
    ensures
        forall|j: int|
            1 <= j <= ray_dist(s, dr, dc, x) ==> ray_valid(s, dr, dc, j) && on_board(
                #[trigger] ray_sq(s, dr, dc, j),
            ) && (ray_sq(s, dr, dc, j) == x <==> j == ray_dist(s, dr, dc, x)),
{
    assert(x == rank_of(x) * 8 + file_of(x));
    assert forall|j: int| 1 <= j <= ray_dist(s, dr, dc, x) implies ray_valid(s, dr, dc, j)
        && on_board(#[trigger] ray_sq(s, dr, dc, j)) && (ray_sq(s, dr, dc, j) == x <==> j
        == ray_dist(s, dr, dc, x)) by {
        let q = ray_sq(s, dr, dc, j);
        if q == x {
            assert(rank_of(q) == rank_of(s) + step(dr, j));
        }
    }
}

/// The squares strictly between `s1` and `s2` when they share a rank, file or
/// diagonal; empty otherwise (and when they are equal).
pub fn between_bb(s1: u8, s2: u8) -> (r: u64)
    requires
        s1 < 64,
        s2 < 64,
    ensures
        forall|x: int| #[trigger] in_bb(r, x) <==> strictly_between(s1 as int, s2 as int, x),
{
    if !is_aligned_pair(s1, s2) {
        proof {
            crate::board::bitboard::lemma_in_bb_zero(0);
        }
        return 0;
    }
    let (dr, dc) = direction(s1, s2);
    proof {
        lemma_aligned_ray(s1 as int, s2 as int);
    }
    let b2 = bit(s2);
    let ray = ray_attacks(s1, b2, dr, dc);
    let r = ray & !b2;
    proof {
        let a = s1 as int;
        let z = s2 as int;
        let d1 = dr as int;
        let d2 = dc as int;
        assert forall|x: int| #[trigger] in_bb(r, x) <==> strictly_between(a, z, x) by {
            if on_ray(a, d1, d2, x) {
                lemma_ray_prefix(a, d1, d2, x);
                let kx = ray_dist(a, d1, d2, x);
                let kz = ray_dist(a, d1, d2, z);
                if kx < kz {
                    assert(x != z);
                    assert forall|j: int| 1 <= j < kx implies !#[trigger] in_bb(
                        b2,
                        ray_sq(a, d1, d2, j),
                    ) by {
                        assert(ray_sq(a, d1, d2, j) != z);
                    }
                } else if kx > kz {
                    assert(in_bb(b2, ray_sq(a, d1, d2, kz)));
                } else {
                    assert(x == z);
                }
            }
        }
    }
    r
}

/// The full line through `s1` and `s2` when they share a rank, file or
/// diagonal; empty otherwise (and when they are equal).
pub fn line_bb(s1: u8, s2: u8) -> (r: u64)
    requires
        s1 < 64,
        s2 < 64,
    ensures
        forall|x: int| #[trigger] in_bb(r, x) <==> on_line(s1 as int, s2 as int, x),
{
    if !is_aligned_pair(s1, s2) {
        proof {
            crate::board::bitboard::lemma_in_bb_zero(0);
        }
        return 0;
    }
    let (dr, dc) = direction(s1, s2);
    proof {
        lemma_aligned_ray(s1 as int, s2 as int);
    }
    let fwd = ray_attacks(s1, 0, dr, dc);
    let bwd = ray_attacks(s1, 0, -dr, -dc);
    let r = fwd | bwd | bit(s1);
    proof {
        assert forall|x: int| #[trigger] in_bb(r, x) <==> on_line(s1 as int, s2 as int, x) by {
            let a = s1 as int;
            assert forall|j: int| true implies !#[trigger] in_bb(0u64, ray_sq(a, dr as int, dc as int, j)) by {}
            assert forall|j: int| true implies !#[trigger] in_bb(0u64, ray_sq(a, -dr as int, -dc as int, j)) by {}
        }
    }
    r
}

/// Whether `s3` lies on the line through `s1` and `s2`.
pub fn aligned(s1: u8, s2: u8, s3: u8) -> (b: bool)
    requires
        s1 < 64,
        s2 < 64,
        s3 < 64,
    ensures
        b == on_line(s1 as int, s2 as int, s3 as int),
{
    let x = line_bb(s1, s2) & bit(s3);
    proof {
        crate::board::bitboard::lemma_zero_iff_empty(x);
        assert(in_bb(x, s3 as int) <==> on_line(s1 as int, s2 as int, s3 as int));
    }
    x != 0
}

} // verus!
