//! Static evaluation: material, pawn structure, king safety, piece activity.
use vstd::prelude::*;
use crate::board::bitboard::{in_bb, bit, spec_bit, count_bits, popcount, lsb, pop_lsb, group_bitboard, lemma_in_bb_shl, lemma_in_bb_shr, lemma_masks, lemma_lsb, lemma_zero_iff_empty, intersects};
use vstd::std_specs::bits::{u64_leading_zeros, axiom_u64_leading_zeros};
use crate::board::board::Board;
use crate::board::piece::Color;
use crate::geometry::{file_of, rank_of, abs_diff, knight_step, bishop_attack, rook_attack};

verus! {

broadcast use group_bitboard;

/// What the evaluation reads of a position: the bitboards, the material
/// scores and the pawn hash (not the side to move).
pub struct EvalView {
    pub pawns: [u64; 2],
    pub knights: [u64; 2],
    pub bishops: [u64; 2],
    pub rooks: [u64; 2],
    pub queens: [u64; 2],
    pub kings: [u64; 2],
    pub occupancy: [u64; 2],
    pub all_occupancy: u64,
    pub mg_pst: i32,
    pub eg_pst: i32,
    pub pawn_hash: u64,
}

/// The part of a position the evaluation reads.
pub open spec fn eval_view(b: Board) -> EvalView {
    EvalView {
        pawns: b.pawns,
        knights: b.knights,
        bishops: b.bishops,
        rooks: b.rooks,
        queens: b.queens,
        kings: b.kings,
        occupancy: b.occupancy,
        all_occupancy: b.all_occupancy,
        mg_pst: b.mg_pst,
        eg_pst: b.eg_pst,
        pawn_hash: b.pawn_hash,
    }
}

/// The view's pawn bitboards are the position's.
pub proof fn lemma_view_pawns(b: Board)
    ensures
        eval_view(b).pawns[0] == b.pawns[0],
        eval_view(b).pawns[1] == b.pawns[1],
        eval_view(b).kings[0] == b.kings[0],
        eval_view(b).kings[1] == b.kings[1],
{
}

/// The squares of file `f`.
pub open spec fn on_file(s: int, f: int) -> bool {
    0 <= s < 64 && s % 8 == f
}

/// The bitboard of file `f`.
pub open spec fn file_bb(f: int) -> u64 {
    0x0101010101010101u64 << (f as u64)
}

/// The bitboard of file `f`.
fn file_mask(f: u8) -> (r: u64)
    requires
        f < 8,
    ensures
        r == file_bb(f as int),
        forall|s: int| #[trigger] in_bb(r, s) <==> on_file(s, f as int),
{
    proof {
        broadcast use lemma_in_bb_shl;
        assert forall|s: int| #[trigger] in_bb(0x0101010101010101u64, s) <==> (0 <= s < 64 && s % 8 == 0) by {
            lemma_masks(s);
        }
    }
    0x0101010101010101u64 << (f as u64)
}

/// One rank up.
fn shift_up(bb: u64) -> (r: u64)
    ensures
        r == bb << 8u64,
        forall|s: int| #[trigger] in_bb(r, s) <==> (8 <= s < 64 && in_bb(bb, s - 8)),
{
    proof {
        broadcast use lemma_in_bb_shl;
    }
    bb << 8
}

/// One rank down.
fn shift_down(bb: u64) -> (r: u64)
    ensures
        r == bb >> 8u64,
        forall|s: int| #[trigger] in_bb(r, s) <==> (0 <= s < 56 && in_bb(bb, s + 8)),
{
    proof {
        broadcast use lemma_in_bb_shr;
    }
    bb >> 8
}

/// One rank up and one file towards the a-file.
fn shift_up_left(bb: u64) -> (r: u64)
    ensures
        forall|s: int| #[trigger] in_bb(r, s) <==> (0 <= s < 64 && s % 8 != 7 && s >= 7 && in_bb(bb, s - 7)),
{
    proof {
        broadcast use lemma_in_bb_shl;
        assert forall|s: int| #[trigger] in_bb(0x0101010101010101u64, s) <==> (0 <= s < 64 && s % 8 == 0) by {
            lemma_masks(s);
        }
    }
    (bb & !0x0101010101010101u64) << 7
}

/// One rank up and one file towards the h-file.
fn shift_up_right(bb: u64) -> (r: u64)
    ensures
        forall|s: int| #[trigger] in_bb(r, s) <==> (0 <= s < 64 && s % 8 != 0 && s >= 9 && in_bb(bb, s - 9)),
{
    proof {
        broadcast use lemma_in_bb_shl;
        assert forall|s: int| #[trigger] in_bb(0x8080808080808080u64, s) <==> (0 <= s < 64 && s % 8 == 7) by {
            lemma_masks(s);
        }
    }
    (bb & !0x8080808080808080u64) << 9
}

/// One rank down and one file towards the a-file.
fn shift_down_left(bb: u64) -> (r: u64)
    ensures
        forall|s: int| #[trigger] in_bb(r, s) <==> (0 <= s < 64 && s % 8 != 7 && s + 9 < 64 && in_bb(bb, s + 9)),
{
    proof {
        broadcast use lemma_in_bb_shr;
        assert forall|s: int| #[trigger] in_bb(0x0101010101010101u64, s) <==> (0 <= s < 64 && s % 8 == 0) by {
            lemma_masks(s);
        }
    }
    (bb & !0x0101010101010101u64) >> 9
}

/// One rank down and one file towards the h-file.
fn shift_down_right(bb: u64) -> (r: u64)
    ensures
        forall|s: int| #[trigger] in_bb(r, s) <==> (0 <= s < 64 && s % 8 != 0 && s + 7 < 64 && in_bb(bb, s + 7)),
{
    proof {
        broadcast use lemma_in_bb_shr;
        assert forall|s: int| #[trigger] in_bb(0x8080808080808080u64, s) <==> (0 <= s < 64 && s % 8 == 7) by {
            lemma_masks(s);
        }
    }
    (bb & !0x8080808080808080u64) >> 7
}

/// The king distance between two squares: the larger of the rank and file
/// distances.
pub open spec fn distance_spec(a: int, b: int) -> int {
    let dr = abs_diff(rank_of(a), rank_of(b));
    let df = abs_diff(file_of(a), file_of(b));
    if dr >= df {
        dr
    } else {
        df
    }
}

/// The king distance between two squares.
fn distance(sq1: u8, sq2: u8) -> (d: u8)
    ensures
        d == distance_spec(sq1 as int, sq2 as int),
        sq1 < 64 && sq2 < 64 ==> d <= 7,
{
    let r1 = sq1 / 8;
    let f1 = sq1 % 8;
    let r2 = sq2 / 8;
    let f2 = sq2 % 8;
    let dr = if r1 >= r2 { r1 - r2 } else { r2 - r1 };
    let df = if f1 >= f2 { f1 - f2 } else { f2 - f1 };
    if dr >= df { dr } else { df }
}

/// The squares within one rank and one file of `k`, `k` included.
pub open spec fn in_king_zone(k: int, s: int) -> bool {
    0 <= s < 64 && abs_diff(rank_of(k), rank_of(s)) <= 1 && abs_diff(file_of(k), file_of(s)) <= 1
}

/// The king zone of `king_sq`.
fn generate_king_zone(king_sq: u8) -> (zone: u64)
    requires
        king_sq < 64,
    ensures
        forall|s: int| #[trigger] in_bb(zone, s) <==> in_king_zone(king_sq as int, s),
{
    let rank = (king_sq / 8) as i32;
    let file = (king_sq % 8) as i32;
    let mut clean_zone: u64 = 0;
    let mut dr: i32 = -1;
    while dr <= 1
        invariant
            -1 <= dr <= 2,
            rank == king_sq as int / 8,
            file == king_sq as int % 8,
            forall|s: int| #[trigger] in_bb(clean_zone, s) <==> (in_king_zone(king_sq as int, s) && rank_of(s) < rank + dr),
        decreases 2 - dr,
    {
        let mut df: i32 = -1;
        while df <= 1
            invariant
                -1 <= dr <= 1,
                -1 <= df <= 2,
                rank == king_sq as int / 8,
                file == king_sq as int % 8,
                forall|s: int| #[trigger] in_bb(clean_zone, s) <==> (in_king_zone(king_sq as int, s) && (rank_of(s) < rank + dr
                    || (rank_of(s) == rank + dr && file_of(s) < file + df))),
            decreases 2 - df,
        {
            let r = rank + dr;
            let f = file + df;
            if r >= 0 && r < 8 && f >= 0 && f < 8 {
                clean_zone = clean_zone | bit((r * 8 + f) as u8);
            }
            df = df + 1;
        }
        dr = dr + 1;
    }
    clean_zone
}

/// The squares ahead of a pawn of the side (`white`) on `sq`, on its file
/// and the adjacent ones: no enemy pawn there makes it passed.
pub open spec fn in_passed_mask(white: bool, sq: int, s: int) -> bool {
    0 <= s < 64 && abs_diff(file_of(s), file_of(sq)) <= 1 && (if white {
        rank_of(s) > rank_of(sq)
    } else {
        rank_of(s) < rank_of(sq)
    })
}

/// The passed-pawn mask of a pawn of `color` on `sq`.
fn generate_passed_pawn_mask(color: Color, sq: u8) -> (mask: u64)
    requires
        sq < 64,
    ensures
        forall|s: int| #[trigger] in_bb(mask, s) <==> in_passed_mask(color == Color::White, sq as int, s),
{
    let file = sq % 8;
    let rank = sq / 8;
    let white = color == Color::White;
    let lo = if file > 0 { file - 1 } else { 0 };
    let hi = if file + 1 < 7 { file + 1 } else { 7 };
    let mut mask: u64 = 0;
    let mut f = lo;
    while f <= hi
        invariant
            file == sq % 8,
            rank == sq / 8,
            lo as int == (if file > 0 { file - 1 } else { 0 }),
            hi as int == (if file + 1 < 7 { file + 1 } else { 7 }),
            lo <= f <= hi + 1,
            hi <= 7,
            forall|s: int| #[trigger] in_bb(mask, s) <==> (in_passed_mask(white, sq as int, s) && file_of(s) < f),
        decreases hi + 1 - f,
    {
        let mut r: u8 = 0;
        while r < 8
            invariant
                file == sq % 8,
                rank == sq / 8,
                lo as int == (if file > 0 { file - 1 } else { 0 }),
                hi as int == (if file + 1 < 7 { file + 1 } else { 7 }),
                lo <= f <= hi,
                hi <= 7,
                r <= 8,
                forall|s: int| #[trigger] in_bb(mask, s) <==> (in_passed_mask(white, sq as int, s) && (file_of(s) < f
                    || (file_of(s) == f && rank_of(s) < r))),
            decreases 8 - r,
        {
            let ahead = if white { r > rank } else { r < rank };
            if ahead {
                mask = mask | bit(r * 8 + f);
            }
            r = r + 1;
        }
        f = f + 1;
    }
    mask
}

/// The files next to `file`.
pub open spec fn on_adjacent_file(file: int, s: int) -> bool {
    0 <= s < 64 && abs_diff(file_of(s), file) == 1
}

/// The bitboard of the files next to `file`.
fn generate_adjacent_files_mask(file: u8) -> (mask: u64)
    requires
        file < 8,
    ensures
        forall|s: int| #[trigger] in_bb(mask, s) <==> on_adjacent_file(file as int, s),
{
    let mut mask: u64 = 0;
    if file > 0 {
        mask = mask | file_mask(file - 1);
    }
    if file < 7 {
        mask = mask | file_mask(file + 1);
    }
    mask
}

/// The squares on the adjacent files not behind a piece of the side
/// (`white`) on `sq`: no enemy pawn there makes it an outpost.
pub open spec fn in_outpost_mask(white: bool, sq: int, s: int) -> bool {
    0 <= s < 64 && abs_diff(file_of(s), file_of(sq)) == 1 && (if white {
        rank_of(s) >= rank_of(sq)
    } else {
        rank_of(s) <= rank_of(sq)
    })
}

/// The outpost mask of a piece of `color` on `sq`.
fn generate_outpost_mask(color: Color, sq: u8) -> (mask: u64)
    requires
        sq < 64,
    ensures
        forall|s: int| #[trigger] in_bb(mask, s) <==> in_outpost_mask(color == Color::White, sq as int, s),
{
    let file = sq % 8;
    let rank = sq / 8;
    let white = color == Color::White;
    let lo = if file > 0 { file - 1 } else { 0 };
    let hi = if file + 1 < 7 { file + 1 } else { 7 };
    let mut mask: u64 = 0;
    let mut f = lo;
    while f <= hi
        invariant
            file == sq % 8,
            rank == sq / 8,
            lo as int == (if file > 0 { file - 1 } else { 0 }),
            hi as int == (if file + 1 < 7 { file + 1 } else { 7 }),
            lo <= f <= hi + 1,
            hi <= 7,
            forall|s: int| #[trigger] in_bb(mask, s) <==> (in_outpost_mask(white, sq as int, s) && file_of(s) < f),
        decreases hi + 1 - f,
    {
        if f != file {
            let mut r: u8 = 0;
            while r < 8
                invariant
                    file == sq % 8,
                    rank == sq / 8,
                    lo as int == (if file > 0 { file - 1 } else { 0 }),
                    hi as int == (if file + 1 < 7 { file + 1 } else { 7 }),
                    lo <= f <= hi,
                    f != file,
                    hi <= 7,
                    r <= 8,
                    forall|s: int| #[trigger] in_bb(mask, s) <==> (in_outpost_mask(white, sq as int, s) && (file_of(s) < f
                        || (file_of(s) == f && rank_of(s) < r))),
                decreases 8 - r,
            {
                let ahead = if white { r >= rank } else { r <= rank };
                if ahead {
                    mask = mask | bit(r * 8 + f);
                }
                r = r + 1;
            }
        }
        f = f + 1;
    }
    mask
}

/// The sum of `f` over the squares below `k`.
pub open spec fn sum_below(f: spec_fn(int) -> int, k: int) -> int
    decreases k,
{
    if k <= 0 {
        0
    } else {
        sum_below(f, k - 1) + f(k - 1)
    }
}

/// Squares where `f` is zero add nothing.
proof fn lemma_sum_skip(f: spec_fn(int) -> int, lo: int, hi: int)
    requires
        0 <= lo <= hi,
        forall|s: int| lo <= s < hi ==> #[trigger] f(s) == 0,
    ensures
        sum_below(f, hi) == sum_below(f, lo),
    decreases hi - lo,
{
    if lo < hi {
        lemma_sum_skip(f, lo, hi - 1);
    }
}

/// A sum of bounded terms is bounded.
proof fn lemma_sum_bound(f: spec_fn(int) -> int, k: int, lo: int, hi: int)
    requires
        0 <= k,
        lo <= 0 <= hi,
        forall|s: int| 0 <= s < k ==> lo <= #[trigger] f(s) <= hi,
    ensures
        lo * k <= sum_below(f, k) <= hi * k,
    decreases k,
{
    if k > 0 {
        lemma_sum_bound(f, k - 1, lo, hi);
        assert(lo * (k - 1) + lo == lo * k) by (nonlinear_arith);
        assert(hi * (k - 1) + hi == hi * k) by (nonlinear_arith);
    }
}

/// Middlegame and endgame score parts.
#[derive(Clone, Copy)]
pub struct EvalScore {
    pub mg: i32,
    pub eg: i32,
}

impl Default for EvalScore {
    fn default() -> (s: EvalScore)
        ensures
            s.mg == 0 && s.eg == 0,
    {
        EvalScore { mg: 0, eg: 0 }
    }
}

impl EvalScore {
    /// Adds to both parts.
    pub fn add(&mut self, mg: i32, eg: i32)
        requires
            i32::MIN <= old(self).mg + mg <= i32::MAX,
            i32::MIN <= old(self).eg + eg <= i32::MAX,
        ensures
            final(self).mg == old(self).mg + mg,
            final(self).eg == old(self).eg + eg,
    {
        self.mg = self.mg + mg;
        self.eg = self.eg + eg;
    }

    /// Subtracts from both parts.
    pub fn sub(&mut self, mg: i32, eg: i32)
        requires
            i32::MIN <= old(self).mg - mg <= i32::MAX,
            i32::MIN <= old(self).eg - eg <= i32::MAX,
        ensures
            final(self).mg == old(self).mg - mg,
            final(self).eg == old(self).eg - eg,
    {
        self.mg = self.mg - mg;
        self.eg = self.eg - eg;
    }
}

/// The pawn-structure part of an evaluation, cached by pawn hash.
#[derive(Clone, Copy)]
pub struct PawnEntry {
    pub key: u64,
    pub score: EvalScore,
    pub passed_pawns: [u64; 2],
    pub pawn_attacks: [u64; 2],
}

/// An entry whose scores are within the range evaluations produce.
pub open spec fn entry_bounded(e: PawnEntry) -> bool {
    -100000 <= e.score.mg <= 100000 && -100000 <= e.score.eg <= 100000
}

/// A cache of pawn-structure evaluations indexed by pawn hash.
pub struct PawnTable {
    pub table: Vec<PawnEntry>,
    pub mask: usize,
}

impl PawnTable {
    /// The slots of the table cover every masked index.
    pub open spec fn wf(self) -> bool {
        &&& self.mask < self.table@.len()
        &&& forall|i: int| 0 <= i < self.table@.len() ==> #[trigger] entry_bounded(self.table@[i])
    }

    /// An empty table of `size` entries rounded up to a power of two.
    pub fn new(size: usize) -> (t: PawnTable)
        requires
            size <= 0x4000_0000,
        ensures
            t.wf(),
            t.table@.len() == t.mask + 1,
            crate::engine::tt::is_pow2(t.table@.len() as int),
            t.table@.len() >= size,
            size <= 1 ==> t.table@.len() == 1,
            size >= 1 ==> t.table@.len() / 2 < size,
            forall|i: int| 0 <= i < t.table@.len() ==> #[trigger] t.table@[i].key == 0,
    {
        let n = if size == 0 { 1 } else { crate::engine::tt::next_power_of_two(size) };
        let empty = PawnEntry { key: 0, score: EvalScore { mg: 0, eg: 0 }, passed_pawns: [0; 2], pawn_attacks: [0; 2] };
        let table = vec![empty; n];
        PawnTable { table, mask: n - 1 }
    }

    /// The slot of `key`.
    pub open spec fn slot(self, key: u64) -> int {
        ((key as usize) & self.mask) as int
    }

    /// The cached entry for `key`, if its slot holds that key.
    pub open spec fn lookup(self, key: u64) -> Option<PawnEntry> {
        if self.table@[self.slot(key)].key == key {
            Some(self.table@[self.slot(key)])
        } else {
            None
        }
    }

    /// The cached entry for `key`, if its slot holds that key.
    pub fn probe(&self, key: u64) -> (r: Option<PawnEntry>)
        requires
            self.wf(),
        ensures
            r == self.lookup(key),
            r matches Some(e) ==> entry_bounded(e),
    {
        let k = key as usize;
        let m = self.mask;
        assert(k & m <= m) by (bit_vector);
        let entry = self.table[k & m];
        if entry.key == key {
            Some(entry)
        } else {
            None
        }
    }

    /// Caches `entry` in the slot of `key`.
    pub fn store(&mut self, key: u64, entry: PawnEntry)
        requires
            old(self).wf(),
            entry_bounded(entry),
        ensures
            final(self).wf(),
            final(self).mask == old(self).mask,
            final(self).table@ == old(self).table@.update(old(self).slot(key), entry),
    {
        let k = key as usize;
        let m = self.mask;
        assert(k & m <= m) by (bit_vector);
        self.table.set(k & m, entry);
    }
}

/// A table that stored an entry under its own key gives that entry back
/// for the key.
pub proof fn law_pawn_table_store_probe(t1: PawnTable, t2: PawnTable, key: u64, e: PawnEntry)
    requires
        t1.wf(),
        e.key == key,
        t2.mask == t1.mask,
        t2.table@ == t1.table@.update(t1.slot(key), e),
    ensures
        t2.lookup(key) == Some(e),
{
    let k = key as usize;
    let m = t1.mask;
    assert(k & m <= m) by (bit_vector);
}

/// The color index of a side.
pub open spec fn side_idx(white: bool) -> int {
    if white {
        0
    } else {
        1
    }
}

/// The color index of the side's opponent.
pub open spec fn other_idx(white: bool) -> int {
    if white {
        1
    } else {
        0
    }
}

/// A square's rank counted from the side's own back rank.
pub open spec fn relative_rank(white: bool, sq: int) -> int {
    if white {
        rank_of(sq)
    } else {
        7 - rank_of(sq)
    }
}

/// A pawn of the side (`white`) among `pawns` attacks `s`.
pub open spec fn pawn_attacked(pawns: u64, white: bool, s: int) -> bool {
    0 <= s < 64 && if white {
        (s % 8 != 7 && s >= 7 && in_bb(pawns, s - 7)) || (s % 8 != 0 && s >= 9 && in_bb(pawns, s - 9))
    } else {
        (s % 8 != 0 && s + 7 < 64 && in_bb(pawns, s + 7)) || (s % 8 != 7 && s + 9 < 64 && in_bb(pawns, s + 9))
    }
}

/// The squares attacked by the side's pawns.
fn pawn_attacks_of(pawns: u64, white: bool) -> (r: u64)
    ensures
        forall|s: int| #[trigger] in_bb(r, s) <==> pawn_attacked(pawns, white, s),
{
    let left = if white { shift_up_left(pawns) } else { shift_down_right(pawns) };
    let right = if white { shift_up_right(pawns) } else { shift_down_left(pawns) };
    left | right
}

/// Pawns never stand on the side's last rank.
pub open spec fn pawns_on_inner_ranks(b: EvalView) -> bool {
    &&& forall|s: int| #[trigger] in_bb(b.pawns[0], s) ==> rank_of(s) < 7
    &&& forall|s: int| #[trigger] in_bb(b.pawns[1], s) ==> rank_of(s) > 0
}

/// The middlegame bonus of a passed pawn on a relative rank.
pub open spec fn passed_bonus_mg(rel: int) -> int {
    if rel == 6 { 80 } else if rel == 5 { 40 } else if rel == 4 { 20 } else if rel == 3 { 10 } else if rel == 2 { 5 } else { 0 }
}

/// The endgame bonus of a passed pawn on a relative rank.
pub open spec fn passed_bonus_eg(rel: int) -> int {
    if rel == 6 { 120 } else if rel == 5 { 70 } else if rel == 4 { 35 } else if rel == 3 { 15 } else if rel == 2 { 5 } else { 0 }
}

/// The features of the side's pawn on `sq`.
pub open spec fn pawn_supported(b: EvalView, white: bool, sq: int) -> bool {
    pawn_attacked(b.pawns[side_idx(white)], white, sq)
}

pub open spec fn pawn_isolated(b: EvalView, white: bool, sq: int) -> bool {
    !exists|s: int| #[trigger] in_bb(b.pawns[side_idx(white)], s) && on_adjacent_file(file_of(sq), s)
}

pub open spec fn pawn_doubled(b: EvalView, white: bool, sq: int) -> bool {
    popcount(b.pawns[side_idx(white)] & file_bb(file_of(sq))) > 1
}

/// A neither isolated nor supported pawn with no own pawn behind it on the
/// adjacent files, whose stop square an enemy pawn attacks.
pub open spec fn pawn_backward(b: EvalView, white: bool, sq: int) -> bool {
    let own = b.pawns[side_idx(white)];
    let stop = if white { sq + 8 } else { sq - 8 };
    &&& !pawn_isolated(b, white, sq)
    &&& !pawn_supported(b, white, sq)
    &&& !exists|s: int| #[trigger] in_bb(own, s) && on_adjacent_file(file_of(sq), s) && (if white {
        rank_of(s) < rank_of(sq)
    } else {
        rank_of(s) > rank_of(sq)
    })
    &&& pawn_attacked(b.pawns[other_idx(white)], !white, stop)
}

pub open spec fn pawn_passed(b: EvalView, white: bool, sq: int) -> bool {
    !exists|s: int| #[trigger] in_bb(b.pawns[other_idx(white)], s) && in_passed_mask(white, sq, s)
}

/// The extra endgame bonus of an advanced passed pawn for king proximity:
/// the enemy king far from and the own king near its stop square.
pub open spec fn passed_king_bonus(b: EvalView, white: bool, sq: int) -> int {
    let rel = relative_rank(white, sq);
    let us = side_idx(white);
    let them = other_idx(white);
    let stop = if white { sq + 8 } else { sq - 8 };
    if rel >= 4 && b.kings[us] != 0 && b.kings[them] != 0 {
        (distance_spec(lsb(b.kings[them]), stop) * 4 - distance_spec(lsb(b.kings[us]), stop) * 2) * (rel * 5 - 13)
    } else {
        0
    }
}

/// The middlegame score of the side's pawn on `sq` (0 where it has none).
pub open spec fn pawn_term_mg(b: EvalView, white: bool, sq: int) -> int {
    if !in_bb(b.pawns[side_idx(white)], sq) {
        0
    } else {
        let rel = relative_rank(white, sq);
        (if pawn_supported(b, white, sq) { 5 + rel * 2 } else { 0 }) - (if pawn_isolated(b, white, sq) { 15int } else { 0 })
            - (if pawn_doubled(b, white, sq) { 10int } else { 0 }) - (if pawn_backward(b, white, sq) { 12int } else { 0 })
            + (if pawn_passed(b, white, sq) { passed_bonus_mg(rel) } else { 0 })
    }
}

/// The endgame score of the side's pawn on `sq` (0 where it has none).
pub open spec fn pawn_term_eg(b: EvalView, white: bool, sq: int) -> int {
    if !in_bb(b.pawns[side_idx(white)], sq) {
        0
    } else {
        let rel = relative_rank(white, sq);
        (if pawn_supported(b, white, sq) { 5 + rel * 2 } else { 0 }) - (if pawn_isolated(b, white, sq) { 20int } else { 0 })
            - (if pawn_doubled(b, white, sq) { 15int } else { 0 }) - (if pawn_backward(b, white, sq) { 16int } else { 0 })
            + (if pawn_passed(b, white, sq) { passed_bonus_eg(rel) + passed_king_bonus(b, white, sq) } else { 0 })
    }
}

/// The pawn-structure score of a side.
pub open spec fn pawn_score_mg(b: EvalView, white: bool) -> int {
    sum_below(|s: int| pawn_term_mg(b, white, s), 64)
}

pub open spec fn pawn_score_eg(b: EvalView, white: bool) -> int {
    sum_below(|s: int| pawn_term_eg(b, white, s), 64)
}

/// The least square of a non-empty bitboard, as a square.
fn lowest(x: u64) -> (s: u8)
    requires
        x != 0,
    ensures
        s == lsb(x),
        s < 64,
        in_bb(x, s as int),
{
    proof {
        lemma_lsb(x);
    }
    x.trailing_zeros() as u8
}

/// Whether the side's pawn on `sq` is backward, given that it is neither
/// isolated nor supported.
fn pawn_is_backward(board: &Board, white: bool, sq: u8) -> (r: bool)
    requires
        board.wf(),
        sq < 64,
        in_bb(board.pawns[side_idx(white)], sq as int),
        pawns_on_inner_ranks(eval_view(*board)),
        !pawn_isolated(eval_view(*board), white, sq as int),
        !pawn_supported(eval_view(*board), white, sq as int),
    ensures
        r == pawn_backward(eval_view(*board), white, sq as int),
{
    let us: usize = if white { 0 } else { 1 };
    let them: usize = if white { 1 } else { 0 };
    let our_pawns = board.pawns[us];
    let their_pawns = board.pawns[them];
    let file = sq % 8;
    let rank = sq / 8;
    let adj_mask = generate_adjacent_files_mask(file);
    let behind_and_same_rank: u64 = if white {
        !(0xFFFFFFFFFFFFFFFFu64 << (rank * 8))
    } else {
        !(0xFFFFFFFFFFFFFFFFu64 >> ((7 - rank) * 8))
    };
    proof {
        assert forall|s: int| #[trigger] in_bb(behind_and_same_rank, s) <==> (0 <= s < 64 && (if white {
            rank_of(s) < rank
        } else {
            rank_of(s) > rank
        })) by {
            broadcast use lemma_in_bb_shl, lemma_in_bb_shr;
            assert forall|t: int| 0 <= t < 64 implies #[trigger] in_bb(0xFFFFFFFFFFFFFFFFu64, t) by {
                let u = t as u64;
                assert((0xFFFFFFFFFFFFFFFFu64 >> u) & 1u64 == 1u64) by (bit_vector)
                    requires
                        u < 64,
                ;
            }
        }
    }
    let has_pawn_behind = intersects(our_pawns & adj_mask, behind_and_same_rank);
    if has_pawn_behind {
        proof {
            let a = choose|a: int| #[trigger] in_bb(our_pawns & adj_mask, a) && in_bb(behind_and_same_rank, a);
            assert(in_bb(our_pawns, a) && on_adjacent_file(file_of(sq as int), a));
        }
        return false;
    }
    proof {
        assert forall|t: int| #[trigger] in_bb(our_pawns, t) && on_adjacent_file(file_of(sq as int), t) implies !(if white {
            rank_of(t) < rank_of(sq as int)
        } else {
            rank_of(t) > rank_of(sq as int)
        }) by {
            assert(in_bb(our_pawns & adj_mask, t));
        }
    }
    let stop_sq: u8 = if white { sq + 8 } else { sq - 8 };
    let enemy_attacks = pawn_attacks_of(their_pawns, !white);
    assert(in_bb(spec_bit(stop_sq as int), stop_sq as int));
    let r = intersects(enemy_attacks, bit(stop_sq));
    assert(r == in_bb(enemy_attacks, stop_sq as int)) by {
        if r {
            let a = choose|a: int| #[trigger] in_bb(enemy_attacks, a) && in_bb(spec_bit(stop_sq as int), a);
        }
    }
    assert(their_pawns == board.pawns[other_idx(white)]);
    r
}

/// The passed-pawn bonus of the side's pawn on `sq`, middlegame and
/// endgame, and whether it is passed.
fn passed_terms(board: &Board, white: bool, sq: u8) -> (r: (i32, i32, bool))
    requires
        board.wf(),
        sq < 64,
        in_bb(board.pawns[side_idx(white)], sq as int),
        pawns_on_inner_ranks(eval_view(*board)),
    ensures
        r.2 == pawn_passed(eval_view(*board), white, sq as int),
        r.0 == (if r.2 { passed_bonus_mg(relative_rank(white, sq as int)) } else { 0 }),
        r.1 == (if r.2 { passed_bonus_eg(relative_rank(white, sq as int)) + passed_king_bonus(eval_view(*board), white, sq as int) } else { 0 }),
        0 <= r.0 <= 80,
        -400 <= r.1 <= 800,
{
    proof {
        lemma_view_pawns(*board);
    }
    let us: usize = if white { 0 } else { 1 };
    let them: usize = if white { 1 } else { 0 };
    let their_pawns = board.pawns[them];
    let rank = sq / 8;
    let relative_rank: u8 = if white { rank } else { 7 - rank };
    let color = if white { Color::White } else { Color::Black };
    let passed_mask = generate_passed_pawn_mask(color, sq);
    let passed = !intersects(their_pawns, passed_mask);
    assert((color == Color::White) == white);
    assert(their_pawns == board.pawns[other_idx(white)]);
    assert(passed == pawn_passed(eval_view(*board), white, sq as int)) by {
        if !passed {
            let a = choose|a: int| #[trigger] in_bb(their_pawns, a) && in_bb(passed_mask, a);
            assert(in_bb(their_pawns, a) && in_passed_mask(white, sq as int, a));
        }
    }
    if !passed {
        return (0, 0, false);
    }
    assert(white ==> rank < 7 && sq + 8 < 64);
    assert(!white ==> rank > 0 && sq >= 8);
    let block_sq: u8 = if white { sq + 8 } else { sq - 8 };
    let passed_mg: i32 = if relative_rank == 6 { 80 } else if relative_rank == 5 { 40 } else if relative_rank == 4 { 20 }
        else if relative_rank == 3 { 10 } else if relative_rank == 2 { 5 } else { 0 };
    let mut passed_eg: i32 = if relative_rank == 6 { 120 } else if relative_rank == 5 { 70 } else if relative_rank == 4 { 35 }
        else if relative_rank == 3 { 15 } else if relative_rank == 2 { 5 } else { 0 };
    if relative_rank >= 4 && board.kings[us] != 0 && board.kings[them] != 0 {
        let our_king_sq = lowest(board.kings[us]);
        let their_king_sq = lowest(board.kings[them]);
        let our_dist = distance(our_king_sq, block_sq) as i32;
        let their_dist = distance(their_king_sq, block_sq) as i32;
        let weight = (relative_rank as i32 * 5) - 13;
        assert(-14 <= their_dist * 4 - our_dist * 2 <= 28);
        assert(-14 * 22 <= (their_dist * 4 - our_dist * 2) * weight <= 28 * 22) by (nonlinear_arith)
            requires
                -14 <= their_dist * 4 - our_dist * 2 <= 28,
                7 <= weight <= 22,
        ;
        let bonus = (their_dist * 4 - our_dist * 2) * weight;
        passed_eg = passed_eg + bonus;
    }
    (passed_mg, passed_eg, true)
}

/// The score of the side's pawn on `sq`, middlegame and endgame, and
/// whether it is passed.
fn pawn_terms(board: &Board, white: bool, sq: u8, own_attacks: u64) -> (r: (i32, i32, bool))
    requires
        board.wf(),
        sq < 64,
        in_bb(board.pawns[side_idx(white)], sq as int),
        pawns_on_inner_ranks(eval_view(*board)),
        forall|s: int| #[trigger] in_bb(own_attacks, s) <==> pawn_attacked(board.pawns[side_idx(white)], white, s),
    ensures
        r.0 == pawn_term_mg(eval_view(*board), white, sq as int),
        r.1 == pawn_term_eg(eval_view(*board), white, sq as int),
        r.2 == pawn_passed(eval_view(*board), white, sq as int),
        -200 <= r.0 <= 200,
        -500 <= r.1 <= 900,
{
    proof {
        lemma_view_pawns(*board);
    }
    let us: usize = if white { 0 } else { 1 };
    let our_pawns = board.pawns[us];
    let file = sq % 8;
    let rank = sq / 8;
    let relative_rank: u8 = if white { rank } else { 7 - rank };
    let file_m = file_mask(file);
    let adj_mask = generate_adjacent_files_mask(file);
    let mut mg: i32 = 0;
    let mut eg: i32 = 0;
    let is_supported = intersects(own_attacks, bit(sq));
    assert(is_supported == in_bb(own_attacks, sq as int)) by {
        assert(in_bb(spec_bit(sq as int), sq as int));
    }
    if is_supported {
        let bonus = 5 + (relative_rank as i32 * 2);
        mg = mg + bonus;
        eg = eg + bonus;
    }
    let is_isolated = !intersects(our_pawns, adj_mask);
    assert(is_isolated == pawn_isolated(eval_view(*board), white, sq as int)) by {
        if !is_isolated {
            let a = choose|a: int| #[trigger] in_bb(our_pawns, a) && in_bb(adj_mask, a);
            assert(in_bb(our_pawns, a) && on_adjacent_file(file_of(sq as int), a));
        }
    }
    if is_isolated {
        mg = mg - 15;
        eg = eg - 20;
    }
    let is_doubled = count_bits(our_pawns & file_m) > 1;
    if is_doubled {
        mg = mg - 10;
        eg = eg - 15;
    }
    if !is_isolated && !is_supported {
        if pawn_is_backward(board, white, sq) {
            mg = mg - 12;
            eg = eg - 16;
        }
    }
    let (pm, pe, passed) = passed_terms(board, white, sq);
    mg = mg + pm;
    eg = eg + pe;
    (mg, eg, passed)
}

/// The pawn-structure scores of a side, its passed pawns and the squares
/// its pawns attack.
fn pawn_side(board: &Board, white: bool) -> (r: (i32, i32, u64, u64))
    requires
        board.wf(),
        pawns_on_inner_ranks(eval_view(*board)),
    ensures
        r.0 == pawn_score_mg(eval_view(*board), white),
        r.1 == pawn_score_eg(eval_view(*board), white),
        forall|s: int| #[trigger] in_bb(r.2, s) <==> in_bb(board.pawns[side_idx(white)], s) && pawn_passed(eval_view(*board), white, s),
        forall|s: int| #[trigger] in_bb(r.3, s) <==> pawn_attacked(board.pawns[side_idx(white)], white, s),
        -12800 <= r.0 <= 12800,
        -32000 <= r.1 <= 57600,
{
    let ghost b = eval_view(*board);
    let ghost fm = |s: int| pawn_term_mg(b, white, s);
    let ghost fe = |s: int| pawn_term_eg(b, white, s);
    let us: usize = if white { 0 } else { 1 };
    let our_pawns = board.pawns[us];
    let attacks = pawn_attacks_of(our_pawns, white);
    let mut passed: u64 = 0;
    let mut mg: i32 = 0;
    let mut eg: i32 = 0;
    let mut pawns = our_pawns;
    let ghost mut lo: int = 0;
    while pawns != 0
        invariant
            board.wf(),
            eval_view(*board) == b,
            pawns_on_inner_ranks(eval_view(*board)),
            our_pawns == board.pawns[side_idx(white)],
            forall|s: int| #[trigger] in_bb(attacks, s) <==> pawn_attacked(our_pawns, white, s),
            0 <= lo <= 64,
            forall|s: int| #[trigger] in_bb(pawns, s) <==> in_bb(our_pawns, s) && s >= lo,
            mg == sum_below(fm, lo),
            eg == sum_below(fe, lo),
            -200 * lo <= mg <= 200 * lo,
            -500 * lo <= eg <= 900 * lo,
            forall|s: int| #[trigger] in_bb(passed, s) <==> in_bb(our_pawns, s) && s < lo && pawn_passed(b, white, s),
            fm == (|s: int| pawn_term_mg(b, white, s)),
            fe == (|s: int| pawn_term_eg(b, white, s)),
        decreases pawns,
    {
        let ghost old_p = pawns;
        let sq = pop_lsb(&mut pawns);
        proof {
            assert forall|s: int| lo <= s < sq implies #[trigger] fm(s) == 0 by {
                assert(!in_bb(old_p, s));
            }
            lemma_sum_skip(fm, lo, sq as int);
            assert forall|s: int| lo <= s < sq implies #[trigger] fe(s) == 0 by {
                assert(!in_bb(old_p, s));
            }
            lemma_sum_skip(fe, lo, sq as int);
        }
        let (tm, te, is_passed) = pawn_terms(board, white, sq, attacks);
        mg = mg + tm;
        eg = eg + te;
        let ghost old_passed = passed;
        if is_passed {
            passed = passed | bit(sq);
        }
        proof {
            assert forall|s: int| #[trigger] in_bb(passed, s) <==> in_bb(our_pawns, s) && s < sq + 1 && pawn_passed(b, white, s) by {
                if lo <= s < sq {
                    assert(!in_bb(old_p, s));
                }
                if s == sq {
                    assert(in_bb(old_p, s));
                }
            }
            lo = sq + 1;
        }
    }
    proof {
        lemma_zero_iff_empty(pawns);
        assert forall|s: int| lo <= s < 64 implies #[trigger] fm(s) == 0 by {
            assert(!in_bb(pawns, s));
        }
        lemma_sum_skip(fm, lo, 64);
        assert forall|s: int| lo <= s < 64 implies #[trigger] fe(s) == 0 by {
            assert(!in_bb(pawns, s));
        }
        lemma_sum_skip(fe, lo, 64);
        assert forall|s: int| #[trigger] in_bb(passed, s) <==> in_bb(our_pawns, s) && pawn_passed(b, white, s) by {
            if in_bb(our_pawns, s) && s >= lo {
                assert(in_bb(pawns, s));
            }
        }
    }
    (mg, eg, passed, attacks)
}

/// The pawn-structure evaluation of a position.
pub open spec fn pawn_entry_valid(b: EvalView, e: PawnEntry) -> bool {
    &&& e.key == b.pawn_hash
    &&& e.score.mg == pawn_score_mg(b, true) - pawn_score_mg(b, false)
    &&& e.score.eg == pawn_score_eg(b, true) - pawn_score_eg(b, false)
    &&& forall|s: int| #[trigger] in_bb(e.passed_pawns[0], s) <==> in_bb(b.pawns[0], s) && pawn_passed(b, true, s)
    &&& forall|s: int| #[trigger] in_bb(e.passed_pawns[1], s) <==> in_bb(b.pawns[1], s) && pawn_passed(b, false, s)
    &&& forall|s: int| #[trigger] in_bb(e.pawn_attacks[0], s) <==> pawn_attacked(b.pawns[0], true, s)
    &&& forall|s: int| #[trigger] in_bb(e.pawn_attacks[1], s) <==> pawn_attacked(b.pawns[1], false, s)
}

/// Computes the pawn-structure evaluation.
fn compute_pawn_entry(board: &Board) -> (e: PawnEntry)
    requires
        board.wf(),
        pawns_on_inner_ranks(eval_view(*board)),
    ensures
        pawn_entry_valid(eval_view(*board), e),
        -100000 <= e.score.mg <= 100000,
        -100000 <= e.score.eg <= 100000,
{
    let (wm, we, wp, wa) = pawn_side(board, true);
    let (bm, be, bp, ba) = pawn_side(board, false);
    PawnEntry { key: board.pawn_hash, score: EvalScore { mg: wm - bm, eg: we - be }, passed_pawns: [wp, bp], pawn_attacks: [wa, ba] }
}

/// The pawn entry a table holds for the position's pawn hash, if any.
pub open spec fn cached_entry(t: PawnTable, b: EvalView) -> Option<PawnEntry> {
    if t.table@[t.slot(b.pawn_hash)].key == b.pawn_hash {
        Some(t.table@[t.slot(b.pawn_hash)])
    } else {
        None
    }
}

/// The pawn-structure evaluation: from the table when it holds an entry
/// for the pawn hash, else computed (and then stored in the table).
fn evaluate_pawns(board: &Board, pawn_table: Option<&mut PawnTable>) -> (e: PawnEntry)
    requires
        board.wf(),
        pawns_on_inner_ranks(eval_view(*board)),
        pawn_table matches Some(t) ==> t.wf(),
    ensures
        (match pawn_table {
            Some(t) => cached_entry(*t, eval_view(*board)),
            None => None,
        }) matches Some(c) ==> e == c,
        entry_bounded(e),
        (match pawn_table {
            Some(t) => cached_entry(*t, eval_view(*board)),
            None => None,
        }) is None ==> pawn_entry_valid(eval_view(*board), e) && -100000 <= e.score.mg <= 100000 && -100000 <= e.score.eg <= 100000,
        match pawn_table {
            Some(t) => {
                &&& final(t).wf()
                &&& final(t).mask == t.mask
                &&& final(t).table@ == (if cached_entry(*t, eval_view(*board)) is Some {
                    t.table@
                } else {
                    t.table@.update(t.slot(board.pawn_hash), e)
                })
            },
            None => true,
        },
{
    match pawn_table {
        Some(pt) => {
            if let Some(entry) = pt.probe(board.pawn_hash) {
                return entry;
            }
            let entry = compute_pawn_entry(board);
            pt.store(board.pawn_hash, entry);
            entry
        },
        None => compute_pawn_entry(board),
    }
}

/// The number of squares satisfying `p`.
pub open spec fn count_squares(p: spec_fn(int) -> bool) -> int {
    sum_below(|s: int| if p(s) { 1int } else { 0int }, 64)
}

proof fn lemma_popcount_count_upto(x: u64, p: spec_fn(int) -> bool, k: nat)
    requires
        k <= 64,
        forall|s: int| #[trigger] in_bb(x, s) <==> (0 <= s < 64 && p(s)),
    ensures
        crate::board::bitboard::popcount_upto(x, k) == sum_below(|s: int| if p(s) { 1int } else { 0int }, k as int),
    decreases k,
{
    if k > 0 {
        lemma_popcount_count_upto(x, p, (k - 1) as nat);
        assert(in_bb(x, k - 1) <==> p(k - 1));
    }
}

/// The popcount of a bitboard counts the squares of its description.
proof fn lemma_popcount_count(x: u64, p: spec_fn(int) -> bool)
    requires
        forall|s: int| #[trigger] in_bb(x, s) <==> (0 <= s < 64 && p(s)),
    ensures
        popcount(x) == count_squares(p),
{
    lemma_popcount_count_upto(x, p, 64);
}

/// The highest square of a non-empty bitboard.
pub open spec fn msb(x: u64) -> int {
    63 - u64_leading_zeros(x)
}

/// The highest square of a non-empty bitboard, as a square.
fn highest(x: u64) -> (s: u8)
    requires
        x != 0,
    ensures
        s == msb(x),
        s < 64,
        in_bb(x, s as int),
        forall|t: int| s < t < 64 ==> !#[trigger] in_bb(x, t),
{
    proof {
        axiom_u64_leading_zeros(x);
        let l = u64_leading_zeros(x);
        assert(l < 64);
        let sh = (63 - l) as u64;
        let y = x >> sh;
        assert((y & 1u64) != 0u64 ==> (y & 1u64) == 1u64) by (bit_vector);
        assert forall|t: int| (63 - l) < t < 64 implies !#[trigger] in_bb(x, t) by {
            let j = t as u64;
            assert(64 - l <= j < 64);
        }
    }
    (63 - x.leading_zeros()) as u8
}

/// The squares that a knight attacking the king zone of `k` stands on.
pub open spec fn knight_near_zone(k: int, a: int) -> bool {
    exists|z: int| #[trigger] in_king_zone(k, z) && knight_step(z, a)
}

/// The squares from which a bishop (`straight` false) or rook (`straight`
/// true) would see the king zone of `k` on an empty board.
pub open spec fn slider_ray_to_zone(k: int, straight: bool, a: int) -> bool {
    exists|z: int| #[trigger] in_king_zone(k, z) && (if straight { rook_attack(z, 0, a) } else { bishop_attack(z, 0, a) })
}

/// The union of the knight attacks and of the empty-board slider attacks
/// from the king zone of `k`.
fn zone_reach(zone: u64, k: u8) -> (r: (u64, u64, u64))
    requires
        k < 64,
        forall|s: int| #[trigger] in_bb(zone, s) <==> in_king_zone(k as int, s),
    ensures
        forall|a: int| #[trigger] in_bb(r.0, a) <==> 0 <= a < 64 && knight_near_zone(k as int, a),
        forall|a: int| #[trigger] in_bb(r.1, a) <==> 0 <= a < 64 && slider_ray_to_zone(k as int, false, a),
        forall|a: int| #[trigger] in_bb(r.2, a) <==> 0 <= a < 64 && slider_ray_to_zone(k as int, true, a),
{
    let mut knights: u64 = 0;
    let mut bishops: u64 = 0;
    let mut rooks: u64 = 0;
    let mut bb = zone;
    let ghost mut lo: int = 0;
    while bb != 0
        invariant
            k < 64,
            forall|s: int| #[trigger] in_bb(zone, s) <==> in_king_zone(k as int, s),
            0 <= lo <= 64,
            forall|s: int| #[trigger] in_bb(bb, s) <==> in_bb(zone, s) && s >= lo,
            forall|a: int| #[trigger] in_bb(knights, a) <==> 0 <= a < 64 && exists|z: int| #[trigger] in_king_zone(k as int, z) && z < lo && knight_step(z, a),
            forall|a: int| #[trigger] in_bb(bishops, a) <==> 0 <= a < 64 && exists|z: int| #[trigger] in_king_zone(k as int, z) && z < lo && bishop_attack(z, 0, a),
            forall|a: int| #[trigger] in_bb(rooks, a) <==> 0 <= a < 64 && exists|z: int| #[trigger] in_king_zone(k as int, z) && z < lo && rook_attack(z, 0, a),
        decreases bb,
    {
        let ghost old_bb = bb;
        let z = pop_lsb(&mut bb);
        let na = crate::movegen::knight::get_knight_attacks(z);
        let ba = crate::magic::get_bishop_attacks(z, 0);
        let ra = crate::magic::get_rook_attacks(z, 0);
        knights = knights | na;
        bishops = bishops | ba;
        rooks = rooks | ra;
        proof {
            assert forall|y: int| lo <= y < z implies !#[trigger] in_king_zone(k as int, y) by {
                assert(!in_bb(old_bb, y));
            }
            assert forall|a: int| #[trigger] in_bb(knights, a) <==> 0 <= a < 64 && exists|y: int| #[trigger] in_king_zone(k as int, y) && y < z + 1 && knight_step(y, a) by {
                if in_bb(na, a) {
                    assert(in_king_zone(k as int, z as int));
                }
                if 0 <= a < 64 && exists|y: int| #[trigger] in_king_zone(k as int, y) && y < z + 1 && knight_step(y, a) {
                    let y = choose|y: int| #[trigger] in_king_zone(k as int, y) && y < z + 1 && knight_step(y, a);
                    if y < z {
                        assert(y < lo);
                    }
                }
            }
            assert forall|a: int| #[trigger] in_bb(bishops, a) <==> 0 <= a < 64 && exists|y: int| #[trigger] in_king_zone(k as int, y) && y < z + 1 && bishop_attack(y, 0, a) by {
                if in_bb(ba, a) {
                    assert(in_king_zone(k as int, z as int));
                }
                if 0 <= a < 64 && exists|y: int| #[trigger] in_king_zone(k as int, y) && y < z + 1 && bishop_attack(y, 0, a) {
                    let y = choose|y: int| #[trigger] in_king_zone(k as int, y) && y < z + 1 && bishop_attack(y, 0, a);
                    if y < z {
                        assert(y < lo);
                    }
                }
            }
            assert forall|a: int| #[trigger] in_bb(rooks, a) <==> 0 <= a < 64 && exists|y: int| #[trigger] in_king_zone(k as int, y) && y < z + 1 && rook_attack(y, 0, a) by {
                if in_bb(ra, a) {
                    assert(in_king_zone(k as int, z as int));
                }
                if 0 <= a < 64 && exists|y: int| #[trigger] in_king_zone(k as int, y) && y < z + 1 && rook_attack(y, 0, a) {
                    let y = choose|y: int| #[trigger] in_king_zone(k as int, y) && y < z + 1 && rook_attack(y, 0, a);
                    if y < z {
                        assert(y < lo);
                    }
                }
            }
            lo = z + 1;
        }
    }
    proof {
        lemma_zero_iff_empty(bb);
        assert forall|y: int| #[trigger] in_king_zone(k as int, y) implies y < lo by {
            assert(in_bb(zone, y));
            assert(!in_bb(bb, y));
        }
    }
    (knights, bishops, rooks)
}

/// A slider of the kind (0 bishop, 1 rook, 2 queen) on `a` attacks a
/// square of the king zone of `k` through `occ`.
pub open spec fn slider_hits_zone(kind: int, a: int, occ: u64, k: int) -> bool {
    exists|z: int| #[trigger] in_king_zone(k, z) && (if kind == 0 {
        bishop_attack(a, occ, z)
    } else if kind == 1 {
        rook_attack(a, occ, z)
    } else {
        bishop_attack(a, occ, z) || rook_attack(a, occ, z)
    })
}

/// The number of sliders among `cands` that attack the king zone.
fn count_zone_attackers(cands: u64, ring: u64, occ: u64, kind: u8, k: u8) -> (n: i32)
    requires
        kind < 3,
        k < 64,
        forall|s: int| #[trigger] in_bb(ring, s) <==> in_king_zone(k as int, s),
    ensures
        n == count_squares(|a: int| in_bb(cands, a) && slider_hits_zone(kind as int, a, occ, k as int)),
        0 <= n <= 64,
{
    let ghost f = |a: int| if in_bb(cands, a) && slider_hits_zone(kind as int, a, occ, k as int) { 1int } else { 0int };
    let mut n: i32 = 0;
    let mut bb = cands;
    let ghost mut lo: int = 0;
    while bb != 0
        invariant
            kind < 3,
            k < 64,
            forall|s: int| #[trigger] in_bb(ring, s) <==> in_king_zone(k as int, s),
            0 <= lo <= 64,
            forall|s: int| #[trigger] in_bb(bb, s) <==> in_bb(cands, s) && s >= lo,
            n == sum_below(f, lo),
            0 <= n <= lo,
            f == (|a: int| if in_bb(cands, a) && slider_hits_zone(kind as int, a, occ, k as int) { 1int } else { 0int }),
        decreases bb,
    {
        let ghost old_bb = bb;
        let sq = pop_lsb(&mut bb);
        proof {
            assert forall|s: int| lo <= s < sq implies #[trigger] f(s) == 0 by {
                assert(!in_bb(old_bb, s));
            }
            lemma_sum_skip(f, lo, sq as int);
        }
        let atk = if kind == 0 {
            crate::magic::get_bishop_attacks(sq, occ)
        } else if kind == 1 {
            crate::magic::get_rook_attacks(sq, occ)
        } else {
            crate::magic::get_bishop_attacks(sq, occ) | crate::magic::get_rook_attacks(sq, occ)
        };
        let hit = intersects(atk, ring);
        proof {
            if hit {
                let z = choose|z: int| #[trigger] in_bb(atk, z) && in_bb(ring, z);
                assert(in_king_zone(k as int, z));
            } else {
                assert forall|z: int| #[trigger] in_king_zone(k as int, z) implies !(if kind == 0 {
                    bishop_attack(sq as int, occ, z)
                } else if kind == 1 {
                    rook_attack(sq as int, occ, z)
                } else {
                    bishop_attack(sq as int, occ, z) || rook_attack(sq as int, occ, z)
                }) by {
                    assert(in_bb(ring, z));
                    assert(!in_bb(atk, z));
                }
            }
        }
        if hit {
            n = n + 1;
        }
        proof {
            lo = sq + 1;
        }
    }
    proof {
        lemma_zero_iff_empty(bb);
        assert forall|s: int| lo <= s < 64 implies #[trigger] f(s) == 0 by {
            assert(!in_bb(bb, s));
        }
        lemma_sum_skip(f, lo, 64);
        let p = |a: int| in_bb(cands, a) && slider_hits_zone(kind as int, a, occ, k as int);
        assert(f =~= (|s: int| if p(s) { 1int } else { 0int }));
    }
    n
}

/// The king-danger penalty for an attack weight.
pub open spec fn danger_of(w: int) -> int {
    if w <= 1 {
        0
    } else {
        1 + (w - 2) * (w - 1) / 2
    }
}

/// The attacks on the zone of the side's king on `k`: the number of
/// attackers and their weight.
pub open spec fn zone_attack(b: EvalView, white: bool, k: int) -> (int, int) {
    let them = other_idx(white);
    let occ = b.all_occupancy;
    let kc = count_squares(|a: int| in_bb(b.knights[them], a) && knight_near_zone(k, a));
    let bc = count_squares(|a: int| in_bb(b.bishops[them], a) && slider_ray_to_zone(k, false, a) && slider_hits_zone(0, a, occ, k));
    let rc = count_squares(|a: int| in_bb(b.rooks[them], a) && slider_ray_to_zone(k, true, a) && slider_hits_zone(1, a, occ, k));
    let qc = count_squares(|a: int| in_bb(b.queens[them], a) && (slider_ray_to_zone(k, false, a) || slider_ray_to_zone(k, true, a))
        && slider_hits_zone(2, a, occ, k));
    (kc + bc + rc + qc, 2 * kc + 2 * bc + 3 * rc + 5 * qc)
}

/// The king danger of the side's king on `k`: by the attack weight once two
/// pieces attack its zone.
pub open spec fn king_danger(b: EvalView, white: bool, k: int) -> int {
    let (count, weight) = zone_attack(b, white, k);
    if count >= 2 {
        danger_of(if weight < 31 { weight } else { 31 })
    } else {
        0
    }
}

/// The shelter penalty from file `f` for the side's king on `k`: missing or
/// advanced own pawns, and enemy pawns storming close.
pub open spec fn shelter_file(b: EvalView, white: bool, k: int, f: int) -> int {
    let ours = b.pawns[side_idx(white)] & file_bb(f);
    let theirs = b.pawns[other_idx(white)] & file_bb(f);
    let own_part = if ours == 0 {
        if theirs == 0 { 20int } else { 10int }
    } else {
        let p = if white { lsb(ours) } else { msb(ours) };
        let rel = relative_rank(white, p);
        if rel > 2 { (rel - 2) * 5 } else { 0 }
    };
    let storm_part = if theirs != 0 {
        let p = if white { lsb(theirs) } else { msb(theirs) };
        let d = if white { rank_of(p) - rank_of(k) } else { rank_of(k) - rank_of(p) };
        if 0 < d <= 3 { (4 - d) * 10 } else { 0 }
    } else {
        0
    };
    own_part + storm_part
}

/// The shelter penalty over the king's file and its neighbours.
pub open spec fn shelter(b: EvalView, white: bool, k: int) -> int {
    let kf = file_of(k);
    sum_below(|f: int| if kf - 1 <= f <= kf + 1 { shelter_file(b, white, k, f) } else { 0 }, 8)
}

/// The middlegame king-safety penalty of a side (0 without a king).
pub open spec fn king_penalty(b: EvalView, white: bool) -> int {
    let kb = b.kings[side_idx(white)];
    if kb == 0 {
        0
    } else {
        king_danger(b, white, lsb(kb)) + shelter(b, white, lsb(kb))
    }
}

/// The endgame bonus of a side's king for its distance from the edges.
pub open spec fn king_activity(b: EvalView, white: bool) -> int {
    let kb = b.kings[side_idx(white)];
    if kb == 0 {
        0
    } else {
        let k = lsb(kb);
        let dx = if file_of(k) <= 7 - file_of(k) { file_of(k) } else { 7 - file_of(k) };
        let dy = if rank_of(k) <= 7 - rank_of(k) { rank_of(k) } else { 7 - rank_of(k) };
        (dx + dy) * 5
    }
}

/// The shelter penalty from file `f` for the side's king on `k`.
fn shelter_on_file(board: &Board, white: bool, k: u8, f: u8) -> (r: i32)
    requires
        k < 64,
        f < 8,
    ensures
        r == shelter_file(eval_view(*board), white, k as int, f as int),
        0 <= r <= 90,
{
    let us: usize = if white { 0 } else { 1 };
    let them: usize = if white { 1 } else { 0 };
    let fm = file_mask(f);
    let our_pawns = board.pawns[us] & fm;
    let their_pawns = board.pawns[them] & fm;
    let mut penalty: i32 = 0;
    if our_pawns == 0 {
        penalty = penalty + if their_pawns == 0 { 20 } else { 10 };
    } else {
        let pawn_sq = if white { lowest(our_pawns) } else { highest(our_pawns) };
        let p_rank = pawn_sq / 8;
        let rel_rank = if white { p_rank } else { 7 - p_rank };
        if rel_rank > 2 {
            penalty = penalty + (rel_rank as i32 - 2) * 5;
        }
    }
    if their_pawns != 0 {
        let pawn_sq = if white { lowest(their_pawns) } else { highest(their_pawns) };
        let p_rank = pawn_sq / 8;
        let k_rank = k / 8;
        let rel_dist: i32 = if white { p_rank as i32 - k_rank as i32 } else { k_rank as i32 - p_rank as i32 };
        if rel_dist > 0 && rel_dist <= 3 {
            penalty = penalty + (4 - rel_dist) * 10;
        }
    }
    penalty
}

/// The shelter penalty of the side's king on `k`.
fn shelter_of(board: &Board, white: bool, k: u8) -> (r: i32)
    requires
        k < 64,
    ensures
        r == shelter(eval_view(*board), white, k as int),
        0 <= r <= 270,
{
    let ghost g = |f: int| if file_of(k as int) - 1 <= f <= file_of(k as int) + 1 { shelter_file(eval_view(*board), white, k as int, f) } else { 0 };
    let file = k % 8;
    let lo = if file > 0 { file - 1 } else { 0 };
    let hi = if file + 1 < 7 { file + 1 } else { 7 };
    let mut total: i32 = 0;
    let mut f = lo;
    proof {
        assert forall|x: int| 0 <= x < lo implies #[trigger] g(x) == 0 by {}
        lemma_sum_skip(g, 0, lo as int);
    }
    while f <= hi
        invariant
            k < 64,
            file == k % 8,
            lo as int == (if file > 0 { file - 1 } else { 0 }),
            hi as int == (if file + 1 < 7 { file + 1 } else { 7 }),
            lo <= f <= hi + 1,
            hi <= 7,
            total == sum_below(g, f as int),
            0 <= total <= 90 * (f - lo),
            g == (|x: int| if file_of(k as int) - 1 <= x <= file_of(k as int) + 1 { shelter_file(eval_view(*board), white, k as int, x) } else { 0 }),
        decreases hi + 1 - f,
    {
        let p = shelter_on_file(board, white, k, f);
        total = total + p;
        f = f + 1;
    }
    proof {
        assert forall|x: int| f <= x < 8 implies #[trigger] g(x) == 0 by {}
        lemma_sum_skip(g, f as int, 8);
    }
    total
}

/// The king-safety penalty and the king-activity bonus of a side.
fn king_side(board: &Board, white: bool) -> (r: (i32, i32))
    requires
        board.wf(),
    ensures
        r.0 == king_penalty(eval_view(*board), white),
        r.1 == king_activity(eval_view(*board), white),
        0 <= r.0 <= 1000,
        0 <= r.1 <= 30,
{
    let ghost b = eval_view(*board);
    let us: usize = if white { 0 } else { 1 };
    let them: usize = if white { 1 } else { 0 };
    let king_bb = board.kings[us];
    if king_bb == 0 {
        return (0, 0);
    }
    let king_sq = lowest(king_bb);
    let ghost k = king_sq as int;
    let ring = generate_king_zone(king_sq);
    let (kn, br, rr) = zone_reach(ring, king_sq);
    let occ = board.all_occupancy;
    let knight_attackers = board.knights[them] & kn;
    let kc = count_bits(knight_attackers) as i32;
    proof {
        let p = |a: int| in_bb(b.knights[other_idx(white)], a) && knight_near_zone(k, a);
        lemma_popcount_count(knight_attackers, p);
    }
    let bc = count_zone_attackers(board.bishops[them] & br, ring, occ, 0, king_sq);
    let rc = count_zone_attackers(board.rooks[them] & rr, ring, occ, 1, king_sq);
    let qc = count_zone_attackers(board.queens[them] & (br | rr), ring, occ, 2, king_sq);
    proof {
        let pb1 = |a: int| in_bb(board.bishops[them as int] & br, a) && slider_hits_zone(0, a, occ, k);
        let pb2 = |a: int| in_bb(b.bishops[other_idx(white)], a) && slider_ray_to_zone(k, false, a) && slider_hits_zone(0, a, occ, k);
        assert((|s: int| if pb1(s) { 1int } else { 0int }) =~= (|s: int| if pb2(s) { 1int } else { 0int }));
        let pr1 = |a: int| in_bb(board.rooks[them as int] & rr, a) && slider_hits_zone(1, a, occ, k);
        let pr2 = |a: int| in_bb(b.rooks[other_idx(white)], a) && slider_ray_to_zone(k, true, a) && slider_hits_zone(1, a, occ, k);
        assert((|s: int| if pr1(s) { 1int } else { 0int }) =~= (|s: int| if pr2(s) { 1int } else { 0int }));
        let pq1 = |a: int| in_bb(board.queens[them as int] & (br | rr), a) && slider_hits_zone(2, a, occ, k);
        let pq2 = |a: int| in_bb(b.queens[other_idx(white)], a) && (slider_ray_to_zone(k, false, a) || slider_ray_to_zone(k, true, a))
            && slider_hits_zone(2, a, occ, k);
        assert((|s: int| if pq1(s) { 1int } else { 0int }) =~= (|s: int| if pq2(s) { 1int } else { 0int }));
        crate::board::bitboard::lemma_popcount_upto_bound(knight_attackers, 64);
    }
    let attackers_count = kc + bc + rc + qc;
    let attack_weight = kc * 2 + bc * 2 + rc * 3 + qc * 5;
    let mut king_danger: i32 = 0;
    if attackers_count >= 2 {
        let idx: i32 = if attack_weight < 31 { attack_weight } else { 31 };
        if idx > 1 {
            assert(0 <= (idx - 2) * (idx - 1) <= 29 * 30) by (nonlinear_arith)
                requires
                    2 <= idx <= 31,
            ;
            king_danger = 1 + (idx - 2) * (idx - 1) / 2;
        }
    }
    let shelter_penalty = shelter_of(board, white, king_sq);
    let total_mg_penalty = king_danger + shelter_penalty;
    let k_rank = king_sq / 8;
    let k_file = king_sq % 8;
    let dist_x = if k_file <= 7 - k_file { k_file } else { 7 - k_file };
    let dist_y = if k_rank <= 7 - k_rank { k_rank } else { 7 - k_rank };
    let eg_bonus = (dist_x as i32 + dist_y as i32) * 5;
    (total_mg_penalty, eg_bonus)
}

/// The squares a piece of the kind (0 knight, 1 bishop, 2 rook, 3 queen)
/// on `sq` attacks through `occ`.
pub open spec fn piece_attack(kind: int, sq: int, occ: u64, t: int) -> bool {
    if kind == 0 {
        knight_step(sq, t)
    } else if kind == 1 {
        bishop_attack(sq, occ, t)
    } else if kind == 2 {
        rook_attack(sq, occ, t)
    } else {
        bishop_attack(sq, occ, t) || rook_attack(sq, occ, t)
    }
}

/// The mobility bonus of a piece of the kind with `n` safe moves.
pub open spec fn mobility_bonus(kind: int, n: int) -> int {
    if kind == 0 {
        let m = if n < 8 { n } else { 8 };
        if m == 0 { -15 } else if m == 1 { -5 } else { 5 * (m - 2) }
    } else if kind == 1 {
        let m = if n < 13 { n } else { 13 };
        if m == 0 { -25 } else if m == 1 { -10 } else { 5 * (m - 2) }
    } else if kind == 2 {
        let m = if n < 14 { n } else { 14 };
        if m == 0 { -20 } else if m == 1 { -10 } else { 5 * (m - 2) }
    } else {
        let m = if n < 27 { n } else { 27 };
        if m <= 4 { -20 + 5 * m } else { 2 * (m - 4) }
    }
}

/// The side's bitboard of pieces of the kind.
pub open spec fn kind_bb(b: EvalView, white: bool, kind: int) -> u64 {
    let c = side_idx(white);
    if kind == 0 {
        b.knights[c]
    } else if kind == 1 {
        b.bishops[c]
    } else if kind == 2 {
        b.rooks[c]
    } else {
        b.queens[c]
    }
}

/// A minor piece on `sq` is an outpost: no enemy pawn can attack its
/// square from the adjacent files ahead, and an own pawn defends it.
pub open spec fn is_outpost(b: EvalView, white: bool, sq: int, own_attacks: u64) -> bool {
    &&& !exists|t: int| #[trigger] in_bb(b.pawns[other_idx(white)], t) && in_outpost_mask(white, sq, t)
    &&& in_bb(own_attacks, sq)
}

/// An own pawn stands directly in front of `sq`.
pub open spec fn pawn_in_front(b: EvalView, white: bool, sq: int) -> bool {
    let ahead = if white { sq + 8 } else { sq - 8 };
    0 <= ahead < 64 && in_bb(b.pawns[side_idx(white)], ahead)
}

/// The number of own pawns on the squares of the color a bishop on `sq`
/// counts: with `(rank + file)` odd it counts those with the sum even, and
/// the other way round.
pub open spec fn bishop_pawns(b: EvalView, white: bool, sq: int) -> int {
    let parity = (rank_of(sq) + file_of(sq)) % 2;
    count_squares(|t: int| in_bb(b.pawns[side_idx(white)], t) && (rank_of(t) + file_of(t)) % 2 != parity)
}

/// The number of safe squares a piece of the kind on `sq` attacks.
pub open spec fn safe_moves(b: EvalView, kind: int, sq: int, safe: u64) -> int {
    count_squares(|t: int| piece_attack(kind, sq, b.all_occupancy, t) && in_bb(safe, t))
}

/// The middlegame score of the side's piece of the kind on `sq` (0 where
/// it has none): mobility, outposts and pawn cover for minor pieces, and
/// the penalty for own pawns on the bishop's counted color.
pub open spec fn piece_term_mg(b: EvalView, white: bool, kind: int, safe: u64, own_attacks: u64, sq: int) -> int {
    if !in_bb(kind_bb(b, white, kind), sq) {
        0
    } else {
        let rel = relative_rank(white, sq);
        mobility_bonus(kind, safe_moves(b, kind, sq, safe)) + (if kind <= 1 && is_outpost(b, white, sq, own_attacks) && 3 <= rel
            <= 5 { (rel - 2) * (if kind == 0 { 15int } else { 10int }) } else { 0 }) + (if kind <= 1 && pawn_in_front(b, white, sq) {
            18int
        } else { 0 }) - (if kind == 1 { bishop_pawns(b, white, sq) * 3 } else { 0 })
    }
}

/// The endgame score of the side's piece of the kind on `sq`.
pub open spec fn piece_term_eg(b: EvalView, white: bool, kind: int, safe: u64, own_attacks: u64, sq: int) -> int {
    if !in_bb(kind_bb(b, white, kind), sq) {
        0
    } else {
        let rel = relative_rank(white, sq);
        mobility_bonus(kind, safe_moves(b, kind, sq, safe)) + (if kind <= 1 && is_outpost(b, white, sq, own_attacks) && 3 <= rel
            <= 5 { (rel - 2) * (if kind == 0 { 15int } else { 10int }) } else { 0 }) + (if kind <= 1 && pawn_in_front(b, white, sq) {
            3int
        } else { 0 }) - (if kind == 1 { bishop_pawns(b, white, sq) * 7 } else { 0 })
    }
}

proof fn lemma_parity_masks(t: int)
    ensures
        in_bb(0xAA55AA55AA55AA55u64, t) <==> (0 <= t < 64 && (rank_of(t) + file_of(t)) % 2 == 0),
        in_bb(0x55AA55AA55AA55AAu64, t) <==> (0 <= t < 64 && (rank_of(t) + file_of(t)) % 2 == 1),
{
    if 0 <= t < 64 {
        let u = t as u64;
        assert({
            &&& ((0xAA55AA55AA55AA55u64 >> u) & 1u64 == 1u64) <==> ((u / 8 + u % 8) % 2 == 0)
            &&& ((0x55AA55AA55AA55AAu64 >> u) & 1u64 == 1u64) <==> ((u / 8 + u % 8) % 2 == 1)
        }) by (bit_vector)
            requires
                u < 64,
        ;
    }
}

/// The score of the side's piece of the kind on `sq`.
fn piece_terms(board: &Board, white: bool, kind: u8, sq: u8, safe: u64, own_attacks: u64) -> (r: (i32, i32))
    requires
        board.wf(),
        kind < 4,
        sq < 64,
        in_bb(kind_bb(eval_view(*board), white, kind as int), sq as int),
    ensures
        r.0 == piece_term_mg(eval_view(*board), white, kind as int, safe, own_attacks, sq as int),
        r.1 == piece_term_eg(eval_view(*board), white, kind as int, safe, own_attacks, sq as int),
        -300 <= r.0 <= 200,
        -500 <= r.1 <= 200,
{
    let ghost b = eval_view(*board);
    let us: usize = if white { 0 } else { 1 };
    let them: usize = if white { 1 } else { 0 };
    let occ = board.all_occupancy;
    let attacks = if kind == 0 {
        crate::movegen::knight::get_knight_attacks(sq)
    } else if kind == 1 {
        crate::magic::get_bishop_attacks(sq, occ)
    } else if kind == 2 {
        crate::magic::get_rook_attacks(sq, occ)
    } else {
        crate::magic::get_bishop_attacks(sq, occ) | crate::magic::get_rook_attacks(sq, occ)
    };
    let safe_attacks = attacks & safe;
    let n = count_bits(safe_attacks);
    proof {
        lemma_popcount_count(safe_attacks, |t: int| piece_attack(kind as int, sq as int, occ, t) && in_bb(safe, t));
    }
    let mob: i32 = if kind == 0 {
        let m = if n < 8 { n as i32 } else { 8 };
        if m == 0 { -15 } else if m == 1 { -5 } else { 5 * (m - 2) }
    } else if kind == 1 {
        let m = if n < 13 { n as i32 } else { 13 };
        if m == 0 { -25 } else if m == 1 { -10 } else { 5 * (m - 2) }
    } else if kind == 2 {
        let m = if n < 14 { n as i32 } else { 14 };
        if m == 0 { -20 } else if m == 1 { -10 } else { 5 * (m - 2) }
    } else {
        let m = if n < 27 { n as i32 } else { 27 };
        if m <= 4 { -20 + 5 * m } else { 2 * (m - 4) }
    };
    let mut mg: i32 = mob;
    let mut eg: i32 = mob;
    if kind <= 1 {
        let color = if white { Color::White } else { Color::Black };
        let outpost_mask = generate_outpost_mask(color, sq);
        assert((color == Color::White) == white);
        assert(them as int == other_idx(white));
        let no_enemy = !intersects(outpost_mask, board.pawns[them]);
        let defended = intersects(own_attacks, bit(sq));
        proof {
            assert(in_bb(spec_bit(sq as int), sq as int));
            if defended {
                let a = choose|a: int| #[trigger] in_bb(own_attacks, a) && in_bb(spec_bit(sq as int), a);
            }
            if !no_enemy {
                let a = choose|a: int| #[trigger] in_bb(outpost_mask, a) && in_bb(board.pawns[them as int], a);
                assert(in_bb(b.pawns[other_idx(white)], a) && in_outpost_mask(white, sq as int, a));
            }
            assert(defended == in_bb(own_attacks, sq as int));
            if no_enemy {
                assert forall|t: int| #[trigger] in_bb(b.pawns[other_idx(white)], t) implies !in_outpost_mask(white, sq as int, t) by {
                    if in_outpost_mask(white, sq as int, t) {
                        assert(in_bb(outpost_mask, t));
                    }
                }
            }
            assert((no_enemy && defended) == is_outpost(b, white, sq as int, own_attacks));
        }
        if no_enemy && defended {
            let rank = sq / 8;
            let rel_rank = if white { rank } else { 7 - rank };
            if rel_rank >= 3 && rel_rank <= 5 {
                let bonus = (rel_rank as i32 - 2) * (if kind == 0 { 15 } else { 10 });
                mg = mg + bonus;
                eg = eg + bonus;
            }
        }
        let directly_ahead = if white { shift_up(bit(sq)) } else { shift_down(bit(sq)) };
        let covered = intersects(directly_ahead, board.pawns[us]);
        proof {
            if covered {
                let a = choose|a: int| #[trigger] in_bb(directly_ahead, a) && in_bb(board.pawns[us as int], a);
            }
            let ahead = if white { sq + 8 } else { sq - 8 };
            if 0 <= ahead < 64 {
                assert(in_bb(directly_ahead, ahead));
            }
            assert(covered == pawn_in_front(b, white, sq as int));
        }
        if covered {
            mg = mg + 18;
            eg = eg + 3;
        }
    }
    if kind == 1 {
        let is_light_square = ((sq / 8) + (sq % 8)) % 2 != 0;
        let same_color_pawns = if is_light_square {
            board.pawns[us] & 0xAA55AA55AA55AA55u64
        } else {
            board.pawns[us] & 0x55AA55AA55AA55AAu64
        };
        let p = count_bits(same_color_pawns) as i32;
        proof {
            assert forall|t: int| #[trigger] in_bb(same_color_pawns, t) <==> (0 <= t < 64 && (in_bb(b.pawns[side_idx(white)], t)
                && (rank_of(t) + file_of(t)) % 2 != (rank_of(sq as int) + file_of(sq as int)) % 2)) by {
                lemma_parity_masks(t);
            }
            lemma_popcount_count(same_color_pawns, |t: int| in_bb(b.pawns[side_idx(white)], t) && (rank_of(t) + file_of(t)) % 2
                != (rank_of(sq as int) + file_of(sq as int)) % 2);
            crate::board::bitboard::lemma_popcount_upto_bound(same_color_pawns, 64);
        }
        mg = mg - p * 3;
        eg = eg - p * 7;
    }
    (mg, eg)
}

/// The total score of the side's pieces of the kind.
pub open spec fn kind_score_mg(b: EvalView, white: bool, kind: int, safe: u64, own_attacks: u64) -> int {
    sum_below(|s: int| piece_term_mg(b, white, kind, safe, own_attacks, s), 64)
}

pub open spec fn kind_score_eg(b: EvalView, white: bool, kind: int, safe: u64, own_attacks: u64) -> int {
    sum_below(|s: int| piece_term_eg(b, white, kind, safe, own_attacks, s), 64)
}

/// The score of the side's pieces of the kind.
fn kind_side(board: &Board, white: bool, kind: u8, safe: u64, own_attacks: u64) -> (r: (i32, i32))
    requires
        board.wf(),
        kind < 4,
    ensures
        r.0 == kind_score_mg(eval_view(*board), white, kind as int, safe, own_attacks),
        r.1 == kind_score_eg(eval_view(*board), white, kind as int, safe, own_attacks),
        -300 * 64 <= r.0 <= 200 * 64,
        -500 * 64 <= r.1 <= 200 * 64,
{
    let ghost b = eval_view(*board);
    let ghost fm = |s: int| piece_term_mg(b, white, kind as int, safe, own_attacks, s);
    let ghost fe = |s: int| piece_term_eg(b, white, kind as int, safe, own_attacks, s);
    let us: usize = if white { 0 } else { 1 };
    let pieces = if kind == 0 {
        board.knights[us]
    } else if kind == 1 {
        board.bishops[us]
    } else if kind == 2 {
        board.rooks[us]
    } else {
        board.queens[us]
    };
    assert(pieces == kind_bb(b, white, kind as int));
    let mut mg: i32 = 0;
    let mut eg: i32 = 0;
    let mut bb = pieces;
    let ghost mut lo: int = 0;
    while bb != 0
        invariant
            board.wf(),
            eval_view(*board) == b,
            kind < 4,
            pieces == kind_bb(b, white, kind as int),
            0 <= lo <= 64,
            forall|s: int| #[trigger] in_bb(bb, s) <==> in_bb(pieces, s) && s >= lo,
            mg == sum_below(fm, lo),
            eg == sum_below(fe, lo),
            -300 * lo <= mg <= 200 * lo,
            -500 * lo <= eg <= 200 * lo,
            fm == (|s: int| piece_term_mg(b, white, kind as int, safe, own_attacks, s)),
            fe == (|s: int| piece_term_eg(b, white, kind as int, safe, own_attacks, s)),
        decreases bb,
    {
        let ghost old_bb = bb;
        let sq = pop_lsb(&mut bb);
        proof {
            assert forall|s: int| lo <= s < sq implies #[trigger] fm(s) == 0 by {
                assert(!in_bb(old_bb, s));
            }
            lemma_sum_skip(fm, lo, sq as int);
            assert forall|s: int| lo <= s < sq implies #[trigger] fe(s) == 0 by {
                assert(!in_bb(old_bb, s));
            }
            lemma_sum_skip(fe, lo, sq as int);
        }
        let (tm, te) = piece_terms(board, white, kind, sq, safe, own_attacks);
        mg = mg + tm;
        eg = eg + te;
        proof {
            lo = sq + 1;
        }
    }
    proof {
        lemma_zero_iff_empty(bb);
        assert forall|s: int| lo <= s < 64 implies #[trigger] fm(s) == 0 by {
            assert(!in_bb(bb, s));
        }
        lemma_sum_skip(fm, lo, 64);
        assert forall|s: int| lo <= s < 64 implies #[trigger] fe(s) == 0 by {
            assert(!in_bb(bb, s));
        }
        lemma_sum_skip(fe, lo, 64);
    }
    (mg, eg)
}

/// The squares safe for the side's pieces: not its own, not attacked by an
/// enemy pawn (by the pawn entry's attack sets).
pub open spec fn safe_squares(b: EvalView, white: bool, pe: PawnEntry) -> u64 {
    !b.occupancy[side_idx(white)] & !pe.pawn_attacks[other_idx(white)]
}

/// The enemy pieces other than pawns and king that the side's pawns attack
/// from safe squares.
pub open spec fn pawn_threats(b: EvalView, white: bool, pe: PawnEntry) -> int {
    let them = other_idx(white);
    popcount(pe.pawn_attacks[side_idx(white)] & safe_squares(b, white, pe) & (b.knights[them] | b.bishops[them]
        | b.rooks[them] | b.queens[them])) as int
}

/// The piece-activity score of a side.
pub open spec fn pieces_score_mg(b: EvalView, white: bool, pe: PawnEntry) -> int {
    let safe = safe_squares(b, white, pe);
    let own = pe.pawn_attacks[side_idx(white)];
    pawn_threats(b, white, pe) * 40 + kind_score_mg(b, white, 0, safe, own) + kind_score_mg(b, white, 1, safe, own)
        + kind_score_mg(b, white, 2, safe, own) + kind_score_mg(b, white, 3, safe, own)
}

pub open spec fn pieces_score_eg(b: EvalView, white: bool, pe: PawnEntry) -> int {
    let safe = safe_squares(b, white, pe);
    let own = pe.pawn_attacks[side_idx(white)];
    pawn_threats(b, white, pe) * 30 + kind_score_eg(b, white, 0, safe, own) + kind_score_eg(b, white, 1, safe, own)
        + kind_score_eg(b, white, 2, safe, own) + kind_score_eg(b, white, 3, safe, own)
}

/// The piece-activity score of a side.
fn pieces_side(board: &Board, white: bool, pe: &PawnEntry) -> (r: (i32, i32))
    requires
        board.wf(),
    ensures
        r.0 == pieces_score_mg(eval_view(*board), white, *pe),
        r.1 == pieces_score_eg(eval_view(*board), white, *pe),
        -100000 <= r.0 <= 100000,
        -150000 <= r.1 <= 100000,
{
    let us: usize = if white { 0 } else { 1 };
    let them: usize = if white { 1 } else { 0 };
    let own_occ = board.occupancy[us];
    let safe = !own_occ & !pe.pawn_attacks[them];
    let threats = pe.pawn_attacks[us] & safe & (board.knights[them] | board.bishops[them] | board.rooks[them] | board.queens[them]);
    let n = count_bits(threats) as i32;
    let (m0, e0) = kind_side(board, white, 0, safe, pe.pawn_attacks[us]);
    let (m1, e1) = kind_side(board, white, 1, safe, pe.pawn_attacks[us]);
    let (m2, e2) = kind_side(board, white, 2, safe, pe.pawn_attacks[us]);
    let (m3, e3) = kind_side(board, white, 3, safe, pe.pawn_attacks[us]);
    (n * 40 + m0 + m1 + m2 + m3, n * 30 + e0 + e1 + e2 + e3)
}

/// The bishop-pair and rook-file score, from White's side.
pub open spec fn asymmetry_mg(b: EvalView) -> int {
    (if popcount(b.bishops[0]) >= 2 { 30int } else { 0 }) - (if popcount(b.bishops[1]) >= 2 { 30int } else { 0 })
        + rook_files(b, true, true) - rook_files(b, false, true)
}

pub open spec fn asymmetry_eg(b: EvalView) -> int {
    (if popcount(b.bishops[0]) >= 2 { 40int } else { 0 }) - (if popcount(b.bishops[1]) >= 2 { 40int } else { 0 })
        + rook_files(b, true, false) - rook_files(b, false, false)
}

/// The bonus of a side's rook on `sq` for an open or half-open file.
pub open spec fn rook_file_term(b: EvalView, white: bool, mg: bool, sq: int) -> int {
    if !in_bb(b.rooks[side_idx(white)], sq) || (b.pawns[side_idx(white)] & file_bb(file_of(sq))) != 0 {
        0
    } else if (b.pawns[other_idx(white)] & file_bb(file_of(sq))) == 0 {
        if mg { 25 } else { 15 }
    } else {
        if mg { 10 } else { 5 }
    }
}

/// The open-file bonus of a side's rooks.
pub open spec fn rook_files(b: EvalView, white: bool, mg: bool) -> int {
    sum_below(|s: int| rook_file_term(b, white, mg, s), 64)
}

/// The open-file bonus of a side's rooks.
fn rook_files_side(board: &Board, white: bool) -> (r: (i32, i32))
    ensures
        r.0 == rook_files(eval_view(*board), white, true),
        r.1 == rook_files(eval_view(*board), white, false),
        0 <= r.0 <= 25 * 64,
        0 <= r.1 <= 15 * 64,
{
    let ghost b = eval_view(*board);
    let ghost fm = |s: int| rook_file_term(b, white, true, s);
    let ghost fe = |s: int| rook_file_term(b, white, false, s);
    let us: usize = if white { 0 } else { 1 };
    let them: usize = if white { 1 } else { 0 };
    let rooks = board.rooks[us];
    let mut mg: i32 = 0;
    let mut eg: i32 = 0;
    let mut bb = rooks;
    let ghost mut lo: int = 0;
    while bb != 0
        invariant
            eval_view(*board) == b,
            rooks == b.rooks[side_idx(white)],
            us as int == side_idx(white),
            them as int == other_idx(white),
            0 <= lo <= 64,
            forall|s: int| #[trigger] in_bb(bb, s) <==> in_bb(rooks, s) && s >= lo,
            mg == sum_below(fm, lo),
            eg == sum_below(fe, lo),
            0 <= mg <= 25 * lo,
            0 <= eg <= 15 * lo,
            fm == (|s: int| rook_file_term(b, white, true, s)),
            fe == (|s: int| rook_file_term(b, white, false, s)),
        decreases bb,
    {
        let ghost old_bb = bb;
        let sq = pop_lsb(&mut bb);
        proof {
            assert forall|s: int| lo <= s < sq implies #[trigger] fm(s) == 0 by {
                assert(!in_bb(old_bb, s));
            }
            lemma_sum_skip(fm, lo, sq as int);
            assert forall|s: int| lo <= s < sq implies #[trigger] fe(s) == 0 by {
                assert(!in_bb(old_bb, s));
            }
            lemma_sum_skip(fe, lo, sq as int);
        }
        let file_m = file_mask(sq % 8);
        if (board.pawns[us] & file_m) == 0 {
            if (board.pawns[them] & file_m) == 0 {
                mg = mg + 25;
                eg = eg + 15;
            } else {
                mg = mg + 10;
                eg = eg + 5;
            }
        }
        proof {
            lo = sq + 1;
        }
    }
    proof {
        lemma_zero_iff_empty(bb);
        assert forall|s: int| lo <= s < 64 implies #[trigger] fm(s) == 0 by {
            assert(!in_bb(bb, s));
        }
        lemma_sum_skip(fm, lo, 64);
        assert forall|s: int| lo <= s < 64 implies #[trigger] fe(s) == 0 by {
            assert(!in_bb(bb, s));
        }
        lemma_sum_skip(fe, lo, 64);
    }
    (mg, eg)
}

/// The bishop-pair and rook-file score, from White's side.
fn evaluate_asymmetries(board: &Board) -> (r: EvalScore)
    ensures
        r.mg == asymmetry_mg(eval_view(*board)),
        r.eg == asymmetry_eg(eval_view(*board)),
        -2000 <= r.mg <= 2000,
        -2000 <= r.eg <= 2000,
{
    let mut score = EvalScore { mg: 0, eg: 0 };
    if count_bits(board.bishops[0]) >= 2 {
        score.add(30, 40);
    }
    if count_bits(board.bishops[1]) >= 2 {
        score.sub(30, 40);
    }
    let (wm, we) = rook_files_side(board, true);
    let (bm, be) = rook_files_side(board, false);
    score.add(wm, we);
    score.sub(bm, be);
    score
}

} // verus!
verus! {

/// Division rounding toward zero, as integer division does.
pub open spec fn tdiv(a: int, b: int) -> int {
    if a >= 0 {
        a / b
    } else {
        -((-a) / b)
    }
}

/// The central squares behind the side's pawn chain that count as space.
pub open spec fn space_mask(white: bool) -> u64 {
    if white {
        0x0000003C3C3C0000u64
    } else {
        0x00003C3C3C000000u64
    }
}

/// The side's pawns and up to three squares behind each.
pub open spec fn pawns_and_behind(white: bool, p: u64) -> u64 {
    if white {
        p | (p >> 8u64) | ((p >> 8u64) >> 8u64) | (((p >> 8u64) >> 8u64) >> 8u64)
    } else {
        p | (p << 8u64) | ((p << 8u64) << 8u64) | (((p << 8u64) << 8u64) << 8u64)
    }
}

/// The space score of a side: safe central squares (counted twice behind
/// its pawns), weighted by the square of its piece count.
pub open spec fn space_score(b: EvalView, white: bool, pe: PawnEntry) -> int {
    let us = side_idx(white);
    let p = b.pawns[us];
    let safe = space_mask(white) & !p & !pe.pawn_attacks[other_idx(white)];
    let bonus = popcount(safe) + popcount(pawns_and_behind(white, p) & safe);
    let weight = popcount(b.occupancy[us] & !p & !b.kings[us]);
    ((bonus * weight * weight) / 16) as int
}

/// The space score from White's side, counted only with much material left.
pub open spec fn space_mg(b: EvalView, pe: PawnEntry, phase: int) -> int {
    if phase < 16 {
        0
    } else {
        space_score(b, true, pe) - space_score(b, false, pe)
    }
}

fn space_side(board: &Board, white: bool, pe: &PawnEntry) -> (r: i32)
    ensures
        r == space_score(eval_view(*board), white, *pe),
        0 <= r <= 128 * 64 * 64 / 16,
{
    let us: usize = if white { 0 } else { 1 };
    let them: usize = if white { 1 } else { 0 };
    let mask: u64 = if white { 0x0000003C3C3C0000u64 } else { 0x00003C3C3C000000u64 };
    let safe = mask & !board.pawns[us] & !pe.pawn_attacks[them];
    let p = board.pawns[us];
    let behind = if white {
        p | shift_down(p) | shift_down(shift_down(p)) | shift_down(shift_down(shift_down(p)))
    } else {
        p | shift_up(p) | shift_up(shift_up(p)) | shift_up(shift_up(shift_up(p)))
    };
    let bonus = count_bits(safe) as i32 + count_bits(behind & safe) as i32;
    let weight = count_bits(board.occupancy[us] & !board.pawns[us] & !board.kings[us]) as i32;
    assert(0 <= bonus * weight <= 128 * 64 && 0 <= bonus * weight * weight <= 128 * 64 * 64) by (nonlinear_arith)
        requires
            0 <= bonus <= 128,
            0 <= weight <= 64,
    ;
    (bonus * weight * weight) / 16
}

/// The space score, from White's side.
fn evaluate_space(board: &Board, pawn_entry: &PawnEntry, phase: i32) -> (r: EvalScore)
    ensures
        r.mg == space_mg(eval_view(*board), *pawn_entry, phase as int),
        r.eg == 0,
        -32768 <= r.mg <= 32768,
{
    let mut score = EvalScore { mg: 0, eg: 0 };
    if phase < 16 {
        return score;
    }
    let w = space_side(board, true, pawn_entry);
    let b = space_side(board, false, pawn_entry);
    score.add(w, 0);
    score.sub(b, 0);
    score
}

/// The game phase: minor pieces count one, rooks two, queens four.
pub open spec fn raw_phase(b: EvalView) -> int {
    (popcount(b.knights[0] | b.knights[1]) + popcount(b.bishops[0] | b.bishops[1]) + popcount(b.rooks[0] | b.rooks[1]) * 2
        + popcount(b.queens[0] | b.queens[1]) * 4) as int
}

/// Whether the square has `(rank + file)` odd.
pub open spec fn odd_square(s: int) -> bool {
    (rank_of(s) + file_of(s)) % 2 != 0
}

/// Halves the score in an endgame of one bishop each on opposite colors
/// and nothing but pawns besides.
pub open spec fn scale_spec(b: EvalView, score: int, phase: int) -> int {
    if phase <= 2 && b.knights[0] == 0 && b.knights[1] == 0 && b.rooks[0] == 0 && b.rooks[1] == 0 && b.queens[0] == 0
        && b.queens[1] == 0 && popcount(b.bishops[0]) == 1 && popcount(b.bishops[1]) == 1 && odd_square(lsb(b.bishops[0]))
        != odd_square(lsb(b.bishops[1])) {
        tdiv(score, 2)
    } else {
        score
    }
}

fn evaluate_scale(board: &Board, score: i32, phase: i32) -> (r: i32)
    ensures
        r == scale_spec(eval_view(*board), score as int, phase as int),
{
    let mut score = score;
    if phase <= 2 && board.knights[0] == 0 && board.knights[1] == 0 && board.rooks[0] == 0 && board.rooks[1] == 0
        && board.queens[0] == 0 && board.queens[1] == 0 {
        if count_bits(board.bishops[0]) == 1 && count_bits(board.bishops[1]) == 1 {
            proof {
                crate::board::bitboard::lemma_popcount_zero_upto(board.bishops[0], 64);
                crate::board::bitboard::lemma_popcount_zero_upto(board.bishops[1], 64);
                if board.bishops[0] == 0 {
                    crate::board::bitboard::lemma_in_bb_zero(0);
                }
            }
            let b0 = board.bishops[0];
            let b1 = board.bishops[1];
            assert(b0 != 0) by {
                if b0 == 0 {
                    assert forall|s: int| 0 <= s < 64 implies !#[trigger] in_bb(b0, s) by {
                        crate::board::bitboard::lemma_in_bb_zero(s);
                    }
                }
            }
            assert(b1 != 0) by {
                if b1 == 0 {
                    assert forall|s: int| 0 <= s < 64 implies !#[trigger] in_bb(b1, s) by {
                        crate::board::bitboard::lemma_in_bb_zero(s);
                    }
                }
            }
            let b0_sq = lowest(b0);
            let b1_sq = lowest(b1);
            let is_white_sq_0 = ((b0_sq / 8) + (b0_sq % 8)) % 2 != 0;
            let is_white_sq_1 = ((b1_sq / 8) + (b1_sq % 8)) % 2 != 0;
            if is_white_sq_0 != is_white_sq_1 {
                score = score / 2;
            }
        }
    }
    score
}

/// The static evaluation from the side to move's point of view: the
/// middlegame and endgame scores (material, pawn structure, king safety,
/// piece activity, bishop pair and rook files, space) blended by game
/// phase, scaled for opposite-colored bishops, plus a tempo bonus of 12.
pub open spec fn eval_spec(b: Board, pe: PawnEntry) -> int {
    let v = eval_view(b);
    let p = if raw_phase(v) < 24 { raw_phase(v) } else { 24 };
    let pw = (p * 256 + 12) / 24;
    let mg = v.mg_pst + pe.score.mg - king_penalty(v, true) + king_penalty(v, false) + pieces_score_mg(v, true, pe)
        - pieces_score_mg(v, false, pe) + asymmetry_mg(v) + space_mg(v, pe, p);
    let eg = v.eg_pst + pe.score.eg + king_activity(v, true) - king_activity(v, false) + pieces_score_eg(v, true, pe)
        - pieces_score_eg(v, false, pe) + asymmetry_eg(v);
    let total = scale_spec(v, tdiv(mg * pw + eg * (256 - pw), 256), p);
    if b.side_to_move == Color::White {
        total + 12
    } else {
        -total + 12
    }
}

/// The middlegame total from White's side: material, pawn structure, king
/// safety, piece activity, bishop pair and rook files, and space.
pub open spec fn eval_mg(b: Board, pe: PawnEntry) -> int {
    let v = eval_view(b);
    let p = if raw_phase(v) < 24 { raw_phase(v) } else { 24 };
    v.mg_pst + pe.score.mg - king_penalty(v, true) + king_penalty(v, false) + pieces_score_mg(v, true, pe)
        - pieces_score_mg(v, false, pe) + asymmetry_mg(v) + space_mg(v, pe, p)
}

/// The endgame total from White's side: material, pawn structure, king
/// activity, piece activity, bishop pair and rook files.
pub open spec fn eval_eg(b: Board, pe: PawnEntry) -> int {
    let v = eval_view(b);
    v.eg_pst + pe.score.eg + king_activity(v, true) - king_activity(v, false) + pieces_score_eg(v, true, pe)
        - pieces_score_eg(v, false, pe) + asymmetry_eg(v)
}

/// Truncating division by 256 keeps the order.
proof fn lemma_tdiv_monotone(a: int, b: int)
    requires
        a <= b,
    ensures
        tdiv(a, 256) <= tdiv(b, 256),
{
    if a >= 0 {
        assert(a / 256 <= b / 256) by (nonlinear_arith)
            requires
                0 <= a <= b,
        ;
    } else if b >= 0 {
        assert(-((-a) / 256) <= 0) by (nonlinear_arith)
            requires
                a < 0,
        ;
        assert(b / 256 >= 0) by (nonlinear_arith)
            requires
                b >= 0,
        ;
    } else {
        assert((-b) / 256 <= (-a) / 256) by (nonlinear_arith)
            requires
                0 < -b <= -a,
        ;
    }
}

/// Law: with every piece on the board (raw phase 24 or more) the
/// evaluation is the middlegame total, and with no knight, bishop, rook
/// or queen left (raw phase 0) it is the endgame total, each from the side
/// to move's point of view plus the tempo bonus of 12.
pub proof fn law_eval_phase_ends(b: Board, pe: PawnEntry)
    ensures
        raw_phase(eval_view(b)) >= 24 ==> eval_spec(b, pe) == (if b.side_to_move == Color::White {
            eval_mg(b, pe)
        } else {
            -eval_mg(b, pe)
        }) + 12,
        raw_phase(eval_view(b)) == 0 ==> eval_spec(b, pe) == (if b.side_to_move == Color::White {
            eval_eg(b, pe)
        } else {
            -eval_eg(b, pe)
        }) + 12,
{
    let v = eval_view(b);
    let mg = eval_mg(b, pe);
    let eg = eval_eg(b, pe);
    if raw_phase(v) >= 24 {
        assert((24 * 256 + 12) / 24 == 256);
        assert(tdiv(mg * 256 + eg * (256 - 256), 256) == mg) by (nonlinear_arith);
    }
    if raw_phase(v) == 0 {
        assert((0 * 256 + 12) / 24 == 0);
        assert(tdiv(mg * 0 + eg * (256 - 0), 256) == eg) by (nonlinear_arith);
        let bb = v.bishops[0] | v.bishops[1];
        crate::board::bitboard::lemma_popcount_zero_upto(bb, 64);
        crate::board::bitboard::lemma_popcount_zero_upto(v.bishops[0], 64);
        assert forall|s: int| 0 <= s < 64 implies !#[trigger] in_bb(v.bishops[0], s) by {
            crate::board::bitboard::lemma_in_bb_or(v.bishops[0], v.bishops[1], s);
            assert(!in_bb(bb, s));
        }
        assert(popcount(v.bishops[0]) == 0);
    }
}

/// Law: the middlegame total weighs more as the phase grows. For two
/// positions with White to move and the same middlegame and endgame totals,
/// the middlegame one the higher, the position with the higher phase
/// (above the phase where opposite-colored bishops halve the score)
/// evaluates at least as high.
pub proof fn law_eval_phase_monotone(b1: Board, pe1: PawnEntry, b2: Board, pe2: PawnEntry)
    requires
        b1.side_to_move == Color::White,
        b2.side_to_move == Color::White,
        eval_mg(b1, pe1) == eval_mg(b2, pe2),
        eval_eg(b1, pe1) == eval_eg(b2, pe2),
        eval_mg(b1, pe1) >= eval_eg(b1, pe1),
        2 < raw_phase(eval_view(b1)) <= raw_phase(eval_view(b2)),
    ensures
        eval_spec(b1, pe1) <= eval_spec(b2, pe2),
{
    let v1 = eval_view(b1);
    let v2 = eval_view(b2);
    let p1 = if raw_phase(v1) < 24 { raw_phase(v1) } else { 24 };
    let p2 = if raw_phase(v2) < 24 { raw_phase(v2) } else { 24 };
    let w1 = (p1 * 256 + 12) / 24;
    let w2 = (p2 * 256 + 12) / 24;
    assert(w1 <= w2) by (nonlinear_arith)
        requires
            p1 <= p2,
            w1 == (p1 * 256 + 12) / 24,
            w2 == (p2 * 256 + 12) / 24,
    ;
    let mg = eval_mg(b1, pe1);
    let eg = eval_eg(b1, pe1);
    let n1 = mg * w1 + eg * (256 - w1);
    let n2 = mg * w2 + eg * (256 - w2);
    assert(n1 <= n2) by (nonlinear_arith)
        requires
            w1 <= w2,
            mg >= eg,
            n1 == mg * w1 + eg * (256 - w1),
            n2 == mg * w2 + eg * (256 - w2),
    ;
    lemma_tdiv_monotone(n1, n2);
}

/// The tempo bonus: two positions that differ only in the side to move
/// score 24 together, each from its own side to move's point of view.
pub proof fn law_tempo(w: Board, bl: Board, pe: PawnEntry)
    requires
        w.side_to_move == Color::White,
        bl.side_to_move == Color::Black,
        eval_view(w) == eval_view(bl),
    ensures
        eval_spec(w, pe) + eval_spec(bl, pe) == 24,
{
}

/// King safety (middlegame) and king activity (endgame), from White's side.
fn evaluate_king(board: &Board, _pawn_entry: &PawnEntry) -> (r: EvalScore)
    requires
        board.wf(),
    ensures
        r.mg == king_penalty(eval_view(*board), false) - king_penalty(eval_view(*board), true),
        r.eg == king_activity(eval_view(*board), true) - king_activity(eval_view(*board), false),
        -1000 <= r.mg <= 1000,
        -30 <= r.eg <= 30,
{
    let mut score = EvalScore { mg: 0, eg: 0 };
    let (wp, wa) = king_side(board, true);
    let (bp, ba) = king_side(board, false);
    score.sub(wp, 0);
    score.add(bp, 0);
    score.add(0, wa);
    score.sub(0, ba);
    score
}

/// Piece activity (mobility, outposts, rook and bishop terms, pawn
/// threats), from White's side.
fn evaluate_pieces(board: &Board, pawn_entry: &PawnEntry) -> (r: EvalScore)
    requires
        board.wf(),
    ensures
        r.mg == pieces_score_mg(eval_view(*board), true, *pawn_entry) - pieces_score_mg(eval_view(*board), false, *pawn_entry),
        r.eg == pieces_score_eg(eval_view(*board), true, *pawn_entry) - pieces_score_eg(eval_view(*board), false, *pawn_entry),
        -200000 <= r.mg <= 200000,
        -250000 <= r.eg <= 250000,
{
    let mut score = EvalScore { mg: 0, eg: 0 };
    let (wm, we) = pieces_side(board, true, pawn_entry);
    let (bm, be) = pieces_side(board, false, pawn_entry);
    score.add(wm, we);
    score.sub(bm, be);
    score
}

/// The pawn-structure evaluation of the position: the one entry that
/// describes its pawns.
pub open spec fn pawn_eval(b: EvalView) -> PawnEntry {
    choose|e: PawnEntry| pawn_entry_valid(b, e)
}

/// A position's pawns determine its pawn entry.
pub proof fn lemma_pawn_entry_unique(b: EvalView, e1: PawnEntry, e2: PawnEntry)
    requires
        pawn_entry_valid(b, e1),
        pawn_entry_valid(b, e2),
    ensures
        e1 == e2,
{
    assert forall|i: int| 0 <= i < 2 implies e1.passed_pawns[i] == e2.passed_pawns[i] by {
        assert forall|s: int| 0 <= s < 64 implies #[trigger] in_bb(e1.passed_pawns[i], s) == in_bb(e2.passed_pawns[i], s) by {}
        crate::board::bitboard::lemma_bitboard_ext(e1.passed_pawns[i], e2.passed_pawns[i]);
    }
    assert forall|i: int| 0 <= i < 2 implies e1.pawn_attacks[i] == e2.pawn_attacks[i] by {
        assert forall|s: int| 0 <= s < 64 implies #[trigger] in_bb(e1.pawn_attacks[i], s) == in_bb(e2.pawn_attacks[i], s) by {}
        crate::board::bitboard::lemma_bitboard_ext(e1.pawn_attacks[i], e2.pawn_attacks[i]);
    }
    assert(e1.passed_pawns =~= e2.passed_pawns);
    assert(e1.pawn_attacks =~= e2.pawn_attacks);
}

/// A computed pawn entry is the pawn evaluation of the position.
proof fn lemma_pawn_eval(b: EvalView, e: PawnEntry)
    requires
        pawn_entry_valid(b, e),
    ensures
        pawn_eval(b) == e,
{
    lemma_pawn_entry_unique(b, e, pawn_eval(b));
}

/// The pawn entry an evaluation uses: the cached one if any, else the
/// pawn evaluation of the position.
pub open spec fn entry_in_use(cached: Option<PawnEntry>, b: EvalView) -> PawnEntry {
    match cached {
        Some(c) => c,
        None => pawn_eval(b),
    }
}

/// Sets up the evaluation tables. Every table the evaluation reads is a
/// closed form computed on demand, so there is nothing to prepare.
pub fn init_eval() {
}

/// The static evaluation of the position, from the side to move's point of
/// view. With a pawn table, a cached entry for the pawn hash is used as is
/// and a computed one is stored.
pub fn evaluate(board: &Board, pawn_table: Option<&mut PawnTable>) -> (r: i32)
    requires
        board.wf(),
        pawns_on_inner_ranks(eval_view(*board)),
        pawn_table matches Some(t) ==> t.wf(),
    ensures
        r == eval_spec(
            *board,
            entry_in_use(
                match pawn_table {
                    Some(t) => cached_entry(*t, eval_view(*board)),
                    None => None,
                },
                eval_view(*board),
            ),
        ),
        -500000 <= r <= 500000,
        match pawn_table {
            Some(t) => {
                &&& final(t).wf()
                &&& final(t).mask == t.mask
                &&& final(t).table@ == (if cached_entry(*t, eval_view(*board)) is Some {
                    t.table@
                } else {
                    t.table@.update(t.slot(board.pawn_hash), pawn_eval(eval_view(*board)))
                })
            },
            None => true,
        },
{
    let ghost cached = match &pawn_table {
        Some(t) => cached_entry(**t, eval_view(*board)),
        None => None,
    };
    let mut phase: i32 = 0;
    phase = phase + count_bits(board.knights[0] | board.knights[1]) as i32;
    phase = phase + count_bits(board.bishops[0] | board.bishops[1]) as i32;
    phase = phase + count_bits(board.rooks[0] | board.rooks[1]) as i32 * 2;
    phase = phase + count_bits(board.queens[0] | board.queens[1]) as i32 * 4;
    let phase = if phase < 24 { phase } else { 24 };
    let phase_weight = (phase * 256 + 12) / 24;
    proof {
        crate::board::board::lemma_material_bound(board.pieces@, board.colors@, 64);
    }
    let mut score = EvalScore { mg: board.mg_pst, eg: board.eg_pst };
    let pawn_entry = evaluate_pawns(board, pawn_table);
    proof {
        if cached is None {
            lemma_pawn_eval(eval_view(*board), pawn_entry);
        }
    }
    assert(pawn_entry == entry_in_use(cached, eval_view(*board)));
    score.add(pawn_entry.score.mg, pawn_entry.score.eg);
    let ks = evaluate_king(board, &pawn_entry);
    score.add(ks.mg, ks.eg);
    let pieces = evaluate_pieces(board, &pawn_entry);
    score.add(pieces.mg, pieces.eg);
    let asym = evaluate_asymmetries(board);
    score.add(asym.mg, asym.eg);
    let space = evaluate_space(board, &pawn_entry, phase);
    score.add(space.mg, space.eg);
    assert(0 <= phase_weight <= 256);
    assert(-500000 * 256 <= score.mg * phase_weight <= 500000 * 256) by (nonlinear_arith)
        requires
            -500000 <= score.mg <= 500000,
            0 <= phase_weight <= 256,
    ;
    assert(-500000 * 256 <= score.eg * (256 - phase_weight) <= 500000 * 256) by (nonlinear_arith)
        requires
            -500000 <= score.eg <= 500000,
            0 <= phase_weight <= 256,
    ;
    assert(-420000 <= score.mg <= 420000 && -420000 <= score.eg <= 420000);
    let num = (score.mg * phase_weight) + (score.eg * (256 - phase_weight));
    assert(-420000 * 256 <= num <= 420000 * 256) by (nonlinear_arith)
        requires
            -420000 <= score.mg <= 420000,
            -420000 <= score.eg <= 420000,
            0 <= phase_weight <= 256,
            num == (score.mg * phase_weight) + (score.eg * (256 - phase_weight)),
    ;
    let total = num / 256;
    assert(-420000 <= total <= 420000) by (nonlinear_arith)
        requires
            -420000 * 256 <= num <= 420000 * 256,
            total == tdiv(num as int, 256),
    ;
    let total = evaluate_scale(board, total, phase);
    let tempo: i32 = 12;
    if board.side_to_move == Color::White {
        total + tempo
    } else {
        -total + tempo
    }
}

/// The static evaluation using (and filling) a pawn table (see [`evaluate`]).
pub fn evaluate_with_table(board: &Board, table: &mut PawnTable) -> (r: i32)
    requires
        board.wf(),
        pawns_on_inner_ranks(eval_view(*board)),
        old(table).wf(),
    ensures
        r == eval_spec(*board, entry_in_use(cached_entry(*old(table), eval_view(*board)), eval_view(*board))),
        -500000 <= r <= 500000,
        final(table).wf(),
        final(table).mask == old(table).mask,
        final(table).table@ == (if cached_entry(*old(table), eval_view(*board)) is Some {
            old(table).table@
        } else {
            old(table).table@.update(old(table).slot(board.pawn_hash), pawn_eval(eval_view(*board)))
        }),
{
    evaluate(board, Some(table))
}

} // verus!
