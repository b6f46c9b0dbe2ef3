//! Low-level bitboard utilities.
//!
//! A bitboard is a `u64` in which bit `s` (counting from the least
//! significant bit) stands for square `s` (a1 = 0, h1 = 7, a8 = 56, h8 = 63).
use vstd::prelude::*;
use vstd::std_specs::bits::u64_trailing_zeros;
use vstd::std_specs::bits::axiom_u64_trailing_zeros;

verus! {

/// Whether square `s` is a member of bitboard `bb`.
pub open spec fn in_bb(bb: u64, s: int) -> bool {
    0 <= s < 64 && ((bb >> (s as u64)) & 1u64) == 1u64
}

/// The bitboard holding the single square `s`.
pub open spec fn spec_bit(s: int) -> u64 {
    (1u64 << (s as u64))
}

/// Number of set bits among the lowest `k` bits of `x`.
pub open spec fn popcount_upto(x: u64, k: nat) -> nat
    decreases k,
{
    if k == 0 {
        0
    } else {
        popcount_upto(x, (k - 1) as nat) + (if in_bb(x, k - 1) { 1nat } else { 0nat })
    }
}

/// Number of squares in a bitboard.
pub open spec fn popcount(x: u64) -> nat {
    popcount_upto(x, 64)
}

/// The least square of a non-empty bitboard.
pub open spec fn lsb(x: u64) -> int {
    u64_trailing_zeros(x) as int
}

pub proof fn lemma_in_bb_bit(t: u64, s: u64)
    requires
        t < 64,
        s < 64,
    ensures
        ((1u64 << t) >> s) & 1u64 == 1u64 <==> t == s,
{
    assert(((1u64 << t) >> s) & 1u64 == 1u64 <==> t == s) by (bit_vector)
        requires
            t < 64,
            s < 64,
    ;
}

/// Membership in a single-square bitboard.
pub broadcast proof fn lemma_in_bb_spec_bit(t: int, s: int)
    requires
        0 <= t < 64,
    ensures
        #[trigger] in_bb(spec_bit(t), s) <==> t == s,
{
    if 0 <= s < 64 {
        lemma_in_bb_bit(t as u64, s as u64);
    }
}

/// Membership in a union.
pub broadcast proof fn lemma_in_bb_or(a: u64, b: u64, s: int)
    ensures
        #[trigger] in_bb(a | b, s) <==> in_bb(a, s) || in_bb(b, s),
{
    if 0 <= s < 64 {
        let t = s as u64;
        assert(((a | b) >> t) & 1u64 == 1u64 <==> ((a >> t) & 1u64 == 1u64 || (b >> t) & 1u64
            == 1u64)) by (bit_vector);
    }
}

/// Membership in an intersection.
pub broadcast proof fn lemma_in_bb_and(a: u64, b: u64, s: int)
    ensures
        #[trigger] in_bb(a & b, s) <==> in_bb(a, s) && in_bb(b, s),
{
    if 0 <= s < 64 {
        let t = s as u64;
        assert(((a & b) >> t) & 1u64 == 1u64 <==> ((a >> t) & 1u64 == 1u64 && (b >> t) & 1u64
            == 1u64)) by (bit_vector);
    }
}

/// Membership in a complement.
pub broadcast proof fn lemma_in_bb_not(a: u64, s: int)
    ensures
        #[trigger] in_bb(!a, s) <==> 0 <= s < 64 && !in_bb(a, s),
{
    if 0 <= s < 64 {
        let t = s as u64;
        assert(t < 64 ==> (((!a) >> t) & 1u64 == 1u64 <==> !((a >> t) & 1u64 == 1u64)))
            by (bit_vector);
    }
}

/// Membership in a symmetric difference.
pub broadcast proof fn lemma_in_bb_xor(a: u64, b: u64, s: int)
    ensures
        #[trigger] in_bb(a ^ b, s) <==> (in_bb(a, s) != in_bb(b, s)),
{
    if 0 <= s < 64 {
        let t = s as u64;
        assert(((a ^ b) >> t) & 1u64 == 1u64 <==> (((a >> t) & 1u64 == 1u64) != ((b >> t) & 1u64
            == 1u64))) by (bit_vector);
    }
}

/// The empty bitboard holds no square.
pub broadcast proof fn lemma_in_bb_zero(s: int)
    ensures
        !#[trigger] in_bb(0u64, s),
{
    if 0 <= s < 64 {
        let t = s as u64;
        assert((0u64 >> t) & 1u64 == 0u64) by (bit_vector);
    }
}

/// A bitboard with no member square is zero, and a zero bitboard has none.
pub proof fn lemma_zero_iff_empty(a: u64)
    ensures
        a == 0 <==> forall|s: int| 0 <= s < 64 ==> !#[trigger] in_bb(a, s),
{
    if a != 0 {
        axiom_u64_trailing_zeros(a);
        assert(in_bb(a, lsb(a)));
    }
    if a == 0 {
        assert forall|s: int| 0 <= s < 64 implies !#[trigger] in_bb(a, s) by {
            lemma_in_bb_zero(s);
        }
    }
}

/// Two bitboards with the same member squares are equal.
pub proof fn lemma_bitboard_ext(a: u64, b: u64)
    requires
        forall|s: int| 0 <= s < 64 ==> #[trigger] in_bb(a, s) == in_bb(b, s),
    ensures
        a == b,
{
    assert forall|s: int| 0 <= s < 64 implies !#[trigger] in_bb(a ^ b, s) by {
        lemma_in_bb_xor(a, b, s);
    }
    lemma_zero_iff_empty(a ^ b);
    assert((a ^ b) == 0u64 ==> a == b) by (bit_vector);
}


/// Membership after a left shift: square `t` comes from square `t - k`.
pub broadcast proof fn lemma_in_bb_shl(x: u64, k: u64, t: int)
    requires
        k < 64,
    ensures
        #[trigger] in_bb(x << k, t) <==> (k <= t < 64 && in_bb(x, t - k)),
{
    if 0 <= t < 64 {
        let u = t as u64;
        assert(((x << k) >> u) & 1u64 == 1u64 <==> (k <= u && ((x >> ((u - k) as u64)) & 1u64) == 1u64))
            by (bit_vector)
            requires
                k < 64,
                u < 64,
        ;
    }
}

/// Membership after a right shift: square `t` comes from square `t + k`.
pub broadcast proof fn lemma_in_bb_shr(x: u64, k: u64, t: int)
    requires
        k < 64,
    ensures
        #[trigger] in_bb(x >> k, t) <==> (0 <= t && t + k < 64 && in_bb(x, t + k)),
{
    if 0 <= t < 64 {
        let u = t as u64;
        assert(((x >> k) >> u) & 1u64 == 1u64 <==> (u + k < 64 && ((x >> ((u + k) as u64)) & 1u64) == 1u64))
            by (bit_vector)
            requires
                k < 64,
                u < 64,
        ;
    }
}

/// Members of the file and rank masks.
pub proof fn lemma_masks(t: int)
    ensures
        in_bb(0x0101010101010101u64, t) <==> (0 <= t < 64 && t % 8 == 0),
        in_bb(0x8080808080808080u64, t) <==> (0 <= t < 64 && t % 8 == 7),
        in_bb(0x00000000000000FFu64, t) <==> (0 <= t < 8),
        in_bb(0x000000000000FF00u64, t) <==> (8 <= t < 16),
        in_bb(0x00FF000000000000u64, t) <==> (48 <= t < 56),
        in_bb(0xFF00000000000000u64, t) <==> (56 <= t < 64),
{
    if 0 <= t < 64 {
        let u = t as u64;
        assert({
            &&& ((0x0101010101010101u64 >> u) & 1u64 == 1u64) <==> u % 8 == 0
            &&& ((0x8080808080808080u64 >> u) & 1u64 == 1u64) <==> u % 8 == 7
            &&& ((0x00000000000000FFu64 >> u) & 1u64 == 1u64) <==> u < 8
            &&& ((0x000000000000FF00u64 >> u) & 1u64 == 1u64) <==> (8 <= u && u < 16)
            &&& ((0x00FF000000000000u64 >> u) & 1u64 == 1u64) <==> (48 <= u && u < 56)
            &&& ((0xFF00000000000000u64 >> u) & 1u64 == 1u64) <==> 56 <= u
        }) by (bit_vector)
            requires
                u < 64,
        ;
    }
}

/// Removing one member square lowers the popcount by one.
pub proof fn lemma_popcount_remove(x: u64, y: u64, a: int)
    requires
        in_bb(x, a),
        forall|s: int| #[trigger] in_bb(y, s) <==> in_bb(x, s) && s != a,
    ensures
        popcount(y) + 1 == popcount(x),
{
    lemma_popcount_remove_upto(x, y, a, 64);
}

proof fn lemma_popcount_remove_upto(x: u64, y: u64, a: int, k: nat)
    requires
        in_bb(x, a),
        forall|s: int| #[trigger] in_bb(y, s) <==> in_bb(x, s) && s != a,
        k <= 64,
    ensures
        popcount_upto(y, k) + (if a < k { 1int } else { 0int }) == popcount_upto(x, k),
    decreases k,
{
    if k > 0 {
        lemma_popcount_remove_upto(x, y, a, (k - 1) as nat);
        assert(in_bb(y, k - 1) <==> in_bb(x, k - 1) && k - 1 != a);
    }
}

/// A bitboard whose members are among those of another has no larger popcount.
pub proof fn lemma_popcount_subset(x: u64, y: u64)
    requires
        forall|s: int| #[trigger] in_bb(y, s) ==> in_bb(x, s),
    ensures
        popcount(y) <= popcount(x),
{
    lemma_popcount_subset_upto(x, y, 64);
}

proof fn lemma_popcount_subset_upto(x: u64, y: u64, k: nat)
    requires
        forall|s: int| #[trigger] in_bb(y, s) ==> in_bb(x, s),
    ensures
        popcount_upto(y, k) <= popcount_upto(x, k),
    decreases k,
{
    if k > 0 {
        lemma_popcount_subset_upto(x, y, (k - 1) as nat);
        assert(in_bb(y, k - 1) ==> in_bb(x, k - 1));
    }
}

/// Whether `x` holds exactly the squares satisfying `p`.
pub open spec fn holds_exactly(x: u64, p: spec_fn(int) -> bool) -> bool {
    forall|s: int| #[trigger] in_bb(x, s) <==> (0 <= s < 64 && p(s))
}

/// The bitboard of the squares satisfying `p`.
pub open spec fn bb_of_squares(p: spec_fn(int) -> bool) -> u64 {
    choose|x: u64| #[trigger] holds_exactly(x, p)
}

/// A bitboard holding exactly the squares of `p` is the bitboard of `p`.
pub proof fn lemma_bb_of_squares(x: u64, p: spec_fn(int) -> bool)
    requires
        holds_exactly(x, p),
    ensures
        bb_of_squares(p) == x,
{
    let y = bb_of_squares(p);
    assert(holds_exactly(y, p));
    assert forall|s: int| 0 <= s < 64 implies #[trigger] in_bb(x, s) == in_bb(y, s) by {}
    lemma_bitboard_ext(x, y);
}

/// The bitboard of the squares below `n` satisfying `p`.
pub open spec fn bb_upto(p: spec_fn(int) -> bool, n: nat) -> u64
    decreases n,
{
    if n == 0 {
        0u64
    } else if p(n - 1) {
        bb_upto(p, (n - 1) as nat) | spec_bit(n - 1)
    } else {
        bb_upto(p, (n - 1) as nat)
    }
}

/// Every set of squares has a bitboard: `bb_upto(p, 64)` holds exactly
/// the squares satisfying `p`.
pub proof fn lemma_bb_upto(p: spec_fn(int) -> bool, n: nat)
    requires
        n <= 64,
    ensures
        forall|s: int| #[trigger] in_bb(bb_upto(p, n), s) <==> (0 <= s < n && p(s)),
    decreases n,
{
    if n == 0 {
        assert forall|s: int| #[trigger] in_bb(bb_upto(p, n), s) <==> (0 <= s < n && p(s)) by {
            lemma_in_bb_zero(s);
        }
    } else {
        lemma_bb_upto(p, (n - 1) as nat);
        let x = bb_upto(p, (n - 1) as nat);
        assert forall|s: int| #[trigger] in_bb(bb_upto(p, n), s) <==> (0 <= s < n && p(s)) by {
            assert(in_bb(x, s) <==> (0 <= s < n - 1 && p(s)));
            if p(n - 1) {
                lemma_in_bb_or(x, spec_bit(n - 1), s);
                lemma_in_bb_spec_bit(n - 1, s);
            }
        }
    }
}

pub broadcast group group_bitboard {
    lemma_in_bb_spec_bit,
    lemma_in_bb_or,
    lemma_in_bb_and,
    lemma_in_bb_not,
    lemma_in_bb_xor,
    lemma_in_bb_zero,
}

/// The least square of a non-empty bitboard is a member, and no smaller square is.
pub proof fn lemma_lsb(x: u64)
    requires
        x != 0,
    ensures
        0 <= lsb(x) < 64,
        in_bb(x, lsb(x)),
        forall|s: int| 0 <= s < lsb(x) ==> !#[trigger] in_bb(x, s),
{
    axiom_u64_trailing_zeros(x);
    assert forall|s: int| 0 <= s < lsb(x) implies !#[trigger] in_bb(x, s) by {
        let j = s as u64;
        assert((x >> j) & 1u64 == 0u64);
    }
}

/// Clearing the lowest set bit removes exactly the least square.
pub proof fn lemma_clear_lsb(x: u64)
    requires
        x != 0,
    ensures
        forall|s: int| #[trigger] in_bb(x & ((x - 1) as u64), s) <==> in_bb(x, s) && s != lsb(x),
        (x & ((x - 1) as u64)) < x,
{
    axiom_u64_trailing_zeros(x);
    let t = u64_trailing_zeros(x) as u64;
    let y = (x - 1) as u64;
    assert(t < 64);
    let z = (64 - t) as u64;
    assert(x << z == 0u64);
    assert((x >> t) & 1u64 == 1u64);
    assert(x & y == x ^ (1u64 << t)) by (bit_vector)
        requires
            x != 0,
            t < 64,
            z == 64 - t,
            y == x - 1,
            x << z == 0u64,
            (x >> t) & 1u64 == 1u64,
    ;
    assert((x & y) < x) by (bit_vector)
        requires
            x != 0,
            y == x - 1,
    ;
    assert forall|s: int| #[trigger] in_bb(x & y, s) <==> in_bb(x, s) && s != lsb(x) by {
        lemma_in_bb_xor(x, 1u64 << t, s);
        if 0 <= s < 64 {
            lemma_in_bb_bit(t, s as u64);
        }
    }
}

/// Popcount of a bitboard is at most 64.
pub proof fn lemma_popcount_upto_bound(x: u64, k: nat)
    ensures
        popcount_upto(x, k) <= k,
    decreases k,
{
    if k > 0 {
        lemma_popcount_upto_bound(x, (k - 1) as nat);
    }
}

/// No square of `x` lies below `k`.
pub open spec fn none_below(x: u64, k: int) -> bool {
    forall|b: int| 0 <= b < k ==> !#[trigger] in_bb(x, b)
}

/// `a` is the only square of `x` below `k`.
pub open spec fn only_below(x: u64, k: int, a: int) -> bool {
    0 <= a < k && in_bb(x, a) && forall|b: int| 0 <= b < k && #[trigger] in_bb(x, b) ==> b == a
}

pub proof fn lemma_popcount_zero_upto(x: u64, k: nat)
    ensures
        popcount_upto(x, k) == 0 <==> none_below(x, k as int),
    decreases k,
{
    if k > 0 {
        lemma_popcount_zero_upto(x, (k - 1) as nat);
    }
}

pub proof fn lemma_popcount_one_upto(x: u64, k: nat)
    ensures
        popcount_upto(x, k) == 1 <==> exists|a: int| #[trigger] only_below(x, k as int, a),
    decreases k,
{
    if k > 0 {
        let j = (k - 1) as nat;
        lemma_popcount_one_upto(x, j);
        lemma_popcount_zero_upto(x, j);
        if in_bb(x, j as int) {
            if popcount_upto(x, j) == 0 {
                assert(only_below(x, k as int, j as int));
            }
            if exists|a: int| #[trigger] only_below(x, k as int, a) {
                let a = choose|a: int| #[trigger] only_below(x, k as int, a);
                assert(a == j);
                assert(none_below(x, j as int));
            }
        } else {
            if exists|a: int| #[trigger] only_below(x, k as int, a) {
                let a = choose|a: int| #[trigger] only_below(x, k as int, a);
                assert(only_below(x, j as int, a));
            }
            if popcount_upto(x, j) == 1 {
                let a = choose|a: int| #[trigger] only_below(x, j as int, a);
                assert(only_below(x, k as int, a));
            }
        }
    }
}

/// `a` is the only square of `x`.
pub open spec fn only_square(x: u64, a: int) -> bool {
    in_bb(x, a) && forall|b: int| #[trigger] in_bb(x, b) ==> b == a
}

/// A bitboard has popcount one exactly when it holds a single square.
pub proof fn lemma_popcount_one(x: u64)
    ensures
        popcount(x) == 1 <==> exists|a: int| #[trigger] only_square(x, a),
{
    lemma_popcount_one_upto(x, 64);
    if popcount(x) == 1 {
        let a = choose|a: int| #[trigger] only_below(x, 64, a);
        assert(only_square(x, a));
    }
    if exists|a: int| #[trigger] only_square(x, a) {
        let a = choose|a: int| #[trigger] only_square(x, a);
        assert(only_below(x, 64, a));
    }
}

/// The bitboard holding only `square`.
/// For example `bit(7) == 128`.
pub fn bit(square: u8) -> (r: u64)
    requires
        square < 64,
    ensures
        r == spec_bit(square as int),
        forall|s: int| #[trigger] in_bb(r, s) <==> s == square,
{
    proof {
        broadcast use lemma_in_bb_spec_bit;
    }
    1u64 << square
}

/// Pops the least significant set bit and returns its index.
/// Example: for `bb == 0b101000` it returns 3 and leaves `0b100000`.
pub fn pop_lsb(bb: &mut u64) -> (sq: u8)
    requires
        *old(bb) != 0,
    ensures
        sq < 64,
        sq == lsb(*old(bb)),
        in_bb(*old(bb), sq as int),
        forall|s: int| 0 <= s < sq ==> !#[trigger] in_bb(*old(bb), s),
        *final(bb) == *old(bb) & ((*old(bb) - 1) as u64),
        *final(bb) < *old(bb),
        forall|s: int| #[trigger] in_bb(*final(bb), s) <==> in_bb(*old(bb), s) && s != sq,
{
    proof {
        lemma_lsb(*bb);
        lemma_clear_lsb(*bb);
    }
    let sq = bb.trailing_zeros() as u8;
    *bb &= *bb - 1;
    sq
}

/// Whether two bitboards share a square.
pub fn intersects(x: u64, y: u64) -> (b: bool)
    ensures
        b <==> exists|a: int| #[trigger] in_bb(x, a) && in_bb(y, a),
        b <==> (x & y) != 0,
{
    let z = x & y;
    proof {
        lemma_zero_iff_empty(z);
        if z != 0 {
            let a = choose|a: int| 0 <= a < 64 && in_bb(z, a);
            lemma_in_bb_and(x, y, a);
        } else {
            assert forall|a: int| #[trigger] in_bb(x, a) implies !in_bb(y, a) by {
                lemma_in_bb_and(x, y, a);
            }
        }
    }
    z != 0
}

/// Number of set bits (number of pieces) of a bitboard.
pub fn count_bits(bb: u64) -> (n: u32)
    ensures
        n == popcount(bb),
        n <= 64,
{
    let mut n: u32 = 0;
    let mut i: u64 = 0;
    while i < 64
        invariant
            i <= 64,
            n == popcount_upto(bb, i as nat),
            n <= i,
        decreases 64 - i,
    {
        proof {
            lemma_popcount_upto_bound(bb, (i + 1) as nat);
        }
        if (bb >> i) & 1 == 1 {
            n = n + 1;
        }
        i = i + 1;
    }
    n
}

} // verus!
