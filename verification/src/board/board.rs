//! Core board representation using bitboards.
use vstd::prelude::*;
use crate::board::bitboard::{in_bb, bit, count_bits, popcount, group_bitboard, intersects, lsb, pop_lsb, only_square, lemma_popcount_one, lemma_lsb, lemma_zero_iff_empty};
use crate::board::piece::{Color, PieceType};
use crate::board::moves::Move;
use crate::board::zobrist::Zobrist;
use crate::board::castling;
use crate::geometry::{pawn_step, knight_step, king_step, bishop_attack, rook_attack, strictly_between};
use crate::movegen::knight::get_knight_attacks;
use crate::movegen::king::get_king_attacks;
use crate::movegen::pawn::get_pawn_attacks;
use crate::magic::{get_bishop_attacks, get_rook_attacks, between_bb};

verus! {

broadcast use group_bitboard;

/// Main board structure.
///
/// The piece bitboards, the occupancy bitboards and the per-square arrays
/// `pieces` and `colors` describe the same position (see [`Board::wf`]).
#[derive(Clone)]
pub struct Board {
    pub pawns: [u64; 2],
    pub knights: [u64; 2],
    pub bishops: [u64; 2],
    pub rooks: [u64; 2],
    pub queens: [u64; 2],
    pub kings: [u64; 2],
    /// Occupancy per color.
    pub occupancy: [u64; 2],
    /// Occupancy of both colors.
    pub all_occupancy: u64,
    pub side_to_move: Color,
    /// Four bits: white king side, white queen side, black king side, black queen side.
    pub castling_rights: u8,
    pub en_passant_square: Option<u8>,
    /// Half moves since the last capture or pawn move (fifty-move rule).
    pub halfmove_clock: u16,
    pub fullmove_number: u16,
    pub last_move: Option<Move>,
    /// Hashes of the earlier positions, for repetition detection.
    pub history: Vec<u64>,
    pub pieces: [PieceType; 64],
    pub colors: [Color; 64],
    pub hash: u64,
    /// Incremental material balance (White minus Black), middlegame and endgame.
    pub mg_pst: i32,
    pub eg_pst: i32,
    pub pawn_hash: u64,
    /// The hashing keys of this board.
    pub keys: Zobrist,
}

/// Material value of a piece type (middlegame and endgame alike).
pub open spec fn piece_value(pt: PieceType) -> int {
    match pt {
        PieceType::Pawn => 100,
        PieceType::Knight => 320,
        PieceType::Bishop => 330,
        PieceType::Rook => 500,
        PieceType::Queen => 900,
        PieceType::King => 0,
        PieceType::Empty => 0,
    }
}

/// Material value counted for White (positive) or Black (negative).
pub open spec fn signed_value(pt: PieceType, c: Color) -> int {
    if c == Color::White {
        piece_value(pt)
    } else if c == Color::Black {
        -piece_value(pt)
    } else {
        0
    }
}

/// Material balance of the first `n` squares.
pub open spec fn material_upto(pieces: Seq<PieceType>, colors: Seq<Color>, n: int) -> int
    decreases n,
{
    if n <= 0 {
        0
    } else {
        material_upto(pieces, colors, n - 1) + signed_value(pieces[n - 1], colors[n - 1])
    }
}

pub proof fn lemma_material_bound(pieces: Seq<PieceType>, colors: Seq<Color>, n: int)
    ensures
        -900 * n <= material_upto(pieces, colors, n) <= 900 * n || n < 0,
    decreases n,
{
    if n > 0 {
        lemma_material_bound(pieces, colors, n - 1);
    }
}

/// Changing one square changes the material balance by the difference of
/// its old and new contribution.
pub proof fn lemma_material_update(
    pieces: Seq<PieceType>,
    colors: Seq<Color>,
    s: int,
    pt: PieceType,
    c: Color,
    n: int,
)
    requires
        0 <= s < pieces.len(),
        pieces.len() == colors.len(),
        n <= pieces.len(),
    ensures
        material_upto(pieces.update(s, pt), colors.update(s, c), n) == material_upto(
            pieces,
            colors,
            n,
        ) + (if s < n {
            signed_value(pt, c) - signed_value(pieces[s], colors[s])
        } else {
            0
        }),
    decreases n,
{
    if n > 0 {
        lemma_material_update(pieces, colors, s, pt, c, n - 1);
    }
}

/// The key of square `s` in its state (0 when empty).
pub open spec fn square_key(keys: Zobrist, pieces: Seq<PieceType>, colors: Seq<Color>, s: int) -> u64 {
    if pieces[s] == PieceType::Empty {
        0
    } else {
        keys.spec_hash_piece(colors[s], pieces[s], s)
    }
}

/// Hash contribution of the squares below `n`.
pub open spec fn squares_hash_upto(keys: Zobrist, pieces: Seq<PieceType>, colors: Seq<Color>, n: int) -> u64
    decreases n,
{
    if n <= 0 {
        0
    } else {
        squares_hash_upto(keys, pieces, colors, n - 1) ^ square_key(keys, pieces, colors, n - 1)
    }
}

/// Exclusive-or facts for replacing one term of a running hash.
proof fn lemma_xor_update(prev: u64, k_old: u64, k_new: u64, k: u64)
    by (bit_vector)
    ensures
        (prev ^ k_old ^ k_new) ^ k == (prev ^ k) ^ k_old ^ k_new,
        prev ^ k_new == (prev ^ k_old) ^ k_old ^ k_new,
{
}

/// Changing one square changes the hash contribution of the squares by the
/// square's old and new keys.
pub proof fn lemma_squares_hash_update(
    keys: Zobrist,
    pieces: Seq<PieceType>,
    colors: Seq<Color>,
    s: int,
    pt: PieceType,
    c: Color,
    n: int,
)
    requires
        0 <= s < pieces.len(),
        s < colors.len(),
        n <= pieces.len(),
        n <= colors.len(),
    ensures
        squares_hash_upto(keys, pieces.update(s, pt), colors.update(s, c), n) == (if n <= s {
            squares_hash_upto(keys, pieces, colors, n)
        } else {
            squares_hash_upto(keys, pieces, colors, n) ^ square_key(keys, pieces, colors, s) ^ square_key(
                keys,
                pieces.update(s, pt),
                colors.update(s, c),
                s,
            )
        }),
    decreases n,
{
    let p2 = pieces.update(s, pt);
    let c2 = colors.update(s, c);
    if n > 0 {
        lemma_squares_hash_update(keys, pieces, colors, s, pt, c, n - 1);
        let prev = squares_hash_upto(keys, pieces, colors, n - 1);
        let k_old = square_key(keys, pieces, colors, s);
        let k_new = square_key(keys, p2, c2, s);
        if n - 1 > s {
            assert(square_key(keys, p2, c2, n - 1) == square_key(keys, pieces, colors, n - 1));
            let k = square_key(keys, pieces, colors, n - 1);
            lemma_xor_update(prev, k_old, k_new, k);
        } else if n - 1 < s {
            assert(square_key(keys, p2, c2, n - 1) == square_key(keys, pieces, colors, n - 1));
        } else {
            lemma_xor_update(prev, k_old, k_new, 0u64);
        }
    }
}

/// The pawn-hash key of square `s` (0 unless a pawn stands there).
pub open spec fn pawn_square_key(keys: Zobrist, pieces: Seq<PieceType>, colors: Seq<Color>, s: int) -> u64 {
    if pieces[s] == PieceType::Pawn {
        keys.spec_hash_piece(colors[s], PieceType::Pawn, s)
    } else {
        0
    }
}

/// Pawn-hash contribution of the squares below `n`.
pub open spec fn pawns_hash_upto(keys: Zobrist, pieces: Seq<PieceType>, colors: Seq<Color>, n: int) -> u64
    decreases n,
{
    if n <= 0 {
        0
    } else {
        pawns_hash_upto(keys, pieces, colors, n - 1) ^ pawn_square_key(keys, pieces, colors, n - 1)
    }
}

/// Changing one square changes the pawn-hash contribution of the squares
/// by the square's old and new pawn keys.
pub proof fn lemma_pawns_hash_update(
    keys: Zobrist,
    pieces: Seq<PieceType>,
    colors: Seq<Color>,
    s: int,
    pt: PieceType,
    c: Color,
    n: int,
)
    requires
        0 <= s < pieces.len(),
        s < colors.len(),
        n <= pieces.len(),
        n <= colors.len(),
    ensures
        pawns_hash_upto(keys, pieces.update(s, pt), colors.update(s, c), n) == (if n <= s {
            pawns_hash_upto(keys, pieces, colors, n)
        } else {
            pawns_hash_upto(keys, pieces, colors, n) ^ pawn_square_key(keys, pieces, colors, s) ^ pawn_square_key(
                keys,
                pieces.update(s, pt),
                colors.update(s, c),
                s,
            )
        }),
    decreases n,
{
    let p2 = pieces.update(s, pt);
    let c2 = colors.update(s, c);
    if n > 0 {
        lemma_pawns_hash_update(keys, pieces, colors, s, pt, c, n - 1);
        let prev = pawns_hash_upto(keys, pieces, colors, n - 1);
        let k_old = pawn_square_key(keys, pieces, colors, s);
        let k_new = pawn_square_key(keys, p2, c2, s);
        if n - 1 > s {
            assert(pawn_square_key(keys, p2, c2, n - 1) == pawn_square_key(keys, pieces, colors, n - 1));
            let k = pawn_square_key(keys, pieces, colors, n - 1);
            lemma_xor_update(prev, k_old, k_new, k);
        } else if n - 1 < s {
            assert(pawn_square_key(keys, p2, c2, n - 1) == pawn_square_key(keys, pieces, colors, n - 1));
        } else {
            lemma_xor_update(prev, k_old, k_new, 0u64);
        }
    }
}

/// With no pawn below `n`, the pawn-hash contribution is zero.
proof fn lemma_pawns_hash_empty(keys: Zobrist, pieces: Seq<PieceType>, colors: Seq<Color>, n: int)
    requires
        forall|s: int| 0 <= s < n ==> #[trigger] pieces[s] == PieceType::Empty,
    ensures
        pawns_hash_upto(keys, pieces, colors, n) == 0,
    decreases n,
{
    if n > 0 {
        lemma_pawns_hash_empty(keys, pieces, colors, n - 1);
        assert(pieces[n - 1] == PieceType::Empty);
        lemma_xor_zero(0u64);
    }
}

/// Material value as a machine integer.
pub fn piece_value_i32(pt: PieceType) -> (v: i32)
    ensures
        v == piece_value(pt),
{
    match pt {
        PieceType::Pawn => 100,
        PieceType::Knight => 320,
        PieceType::Bishop => 330,
        PieceType::Rook => 500,
        PieceType::Queen => 900,
        PieceType::King => 0,
        PieceType::Empty => 0,
    }
}

impl Board {
    /// The bitboard of piece type index `p` (0 pawn .. 5 king) of color index `c`.
    pub open spec fn bb_of(self, c: int, p: int) -> u64 {
        if p == 0 {
            self.pawns[c]
        } else if p == 1 {
            self.knights[c]
        } else if p == 2 {
            self.bishops[c]
        } else if p == 3 {
            self.rooks[c]
        } else if p == 4 {
            self.queens[c]
        } else {
            self.kings[c]
        }
    }

    /// The bitboards and the per-square arrays agree, and the scalar fields
    /// are in range.
    pub open spec fn wf_squares(self) -> bool {
        &&& forall|s: int|
            0 <= s < 64 ==> ((#[trigger] self.pieces[s] == PieceType::Empty) <==> (self.colors[s]
                == Color::NoColor))
        &&& forall|c: int, p: int, s: int|
            0 <= c < 2 && 0 <= p < 6 ==> (#[trigger] in_bb(self.bb_of(c, p), s) <==> (0 <= s < 64
                && self.pieces[s] == PieceType::from_idx(p) && self.colors[s] == Color::from_idx(
                c,
            )))
        &&& forall|c: int, s: int|
            0 <= c < 2 ==> (#[trigger] in_bb(self.occupancy[c], s) <==> (0 <= s < 64
                && self.colors[s] == Color::from_idx(c)))
        &&& forall|s: int| #[trigger]
            in_bb(self.all_occupancy, s) <==> (0 <= s < 64 && self.colors[s] != Color::NoColor)
        &&& self.side_to_move != Color::NoColor
        &&& self.castling_rights < 16
        &&& (self.en_passant_square matches Some(e) ==> e < 64)
    }

    /// The material balance of the position.
    pub open spec fn material(self) -> int {
        material_upto(self.pieces@, self.colors@, 64)
    }

    /// Well-formedness: squares consistent and the incremental material
    /// scores equal to the material balance.
    pub open spec fn wf(self) -> bool {
        &&& self.wf_squares()
        &&& self.mg_pst == self.material()
        &&& self.eg_pst == self.material()
    }

    /// The square-describing fields are those of `other`.
    pub open spec fn same_squares(self, other: Board) -> bool {
        &&& self.pawns == other.pawns
        &&& self.knights == other.knights
        &&& self.bishops == other.bishops
        &&& self.rooks == other.rooks
        &&& self.queens == other.queens
        &&& self.kings == other.kings
        &&& self.occupancy == other.occupancy
        &&& self.all_occupancy == other.all_occupancy
        &&& self.pieces == other.pieces
        &&& self.colors == other.colors
    }

    /// Square consistency depends only on the square-describing fields and
    /// the ranges of the scalar fields.
    pub proof fn lemma_wf_squares_transfer(a: Board, b: Board)
        requires
            a.wf_squares(),
            b.same_squares(a),
            b.side_to_move != Color::NoColor,
            b.castling_rights < 16,
            b.en_passant_square matches Some(e) ==> e < 64,
        ensures
            b.wf_squares(),
    {
        assert forall|c: int, p: int, s: int| 0 <= c < 2 && 0 <= p < 6 implies (#[trigger] in_bb(
            b.bb_of(c, p),
            s,
        ) <==> (0 <= s < 64 && b.pieces[s] == PieceType::from_idx(p) && b.colors[s]
            == Color::from_idx(c))) by {
            assert(b.bb_of(c, p) == a.bb_of(c, p));
        }
    }

    /// Well-formedness depends only on the square-describing fields, the
    /// scores and the ranges of the scalar fields.
    pub proof fn lemma_wf_transfer(a: Board, b: Board)
        requires
            a.wf(),
            b.same_squares(a),
            b.mg_pst == a.mg_pst,
            b.eg_pst == a.eg_pst,
            b.side_to_move != Color::NoColor,
            b.castling_rights < 16,
            b.en_passant_square matches Some(e) ==> e < 64,
        ensures
            b.wf(),
    {
        Board::lemma_wf_squares_transfer(a, b);
    }

    /// Square membership of each piece bitboard, spelled out per field.
    pub proof fn lemma_wf_bbs(self)
        requires
            self.wf_squares(),
        ensures
            forall|c: int, s: int| 0 <= c < 2 ==> (#[trigger] in_bb(self.pawns[c], s) <==> (0 <= s < 64
                && self.pieces[s] == PieceType::Pawn && self.colors[s] == Color::from_idx(c))),
            forall|c: int, s: int| 0 <= c < 2 ==> (#[trigger] in_bb(self.knights[c], s) <==> (0 <= s < 64
                && self.pieces[s] == PieceType::Knight && self.colors[s] == Color::from_idx(c))),
            forall|c: int, s: int| 0 <= c < 2 ==> (#[trigger] in_bb(self.bishops[c], s) <==> (0 <= s < 64
                && self.pieces[s] == PieceType::Bishop && self.colors[s] == Color::from_idx(c))),
            forall|c: int, s: int| 0 <= c < 2 ==> (#[trigger] in_bb(self.rooks[c], s) <==> (0 <= s < 64
                && self.pieces[s] == PieceType::Rook && self.colors[s] == Color::from_idx(c))),
            forall|c: int, s: int| 0 <= c < 2 ==> (#[trigger] in_bb(self.queens[c], s) <==> (0 <= s < 64
                && self.pieces[s] == PieceType::Queen && self.colors[s] == Color::from_idx(c))),
            forall|c: int, s: int| 0 <= c < 2 ==> (#[trigger] in_bb(self.kings[c], s) <==> (0 <= s < 64
                && self.pieces[s] == PieceType::King && self.colors[s] == Color::from_idx(c))),
    {
        assert forall|c: int, s: int| 0 <= c < 2 implies (#[trigger] in_bb(self.pawns[c], s) <==> (0 <= s < 64
                && self.pieces[s] == PieceType::Pawn && self.colors[s] == Color::from_idx(c))) by {
            assert(self.bb_of(c, 0) == self.pawns[c]);
        }
        assert forall|c: int, s: int| 0 <= c < 2 implies (#[trigger] in_bb(self.knights[c], s) <==> (0 <= s < 64
                && self.pieces[s] == PieceType::Knight && self.colors[s] == Color::from_idx(c))) by {
            assert(self.bb_of(c, 1) == self.knights[c]);
        }
        assert forall|c: int, s: int| 0 <= c < 2 implies (#[trigger] in_bb(self.bishops[c], s) <==> (0 <= s < 64
                && self.pieces[s] == PieceType::Bishop && self.colors[s] == Color::from_idx(c))) by {
            assert(self.bb_of(c, 2) == self.bishops[c]);
        }
        assert forall|c: int, s: int| 0 <= c < 2 implies (#[trigger] in_bb(self.rooks[c], s) <==> (0 <= s < 64
                && self.pieces[s] == PieceType::Rook && self.colors[s] == Color::from_idx(c))) by {
            assert(self.bb_of(c, 3) == self.rooks[c]);
        }
        assert forall|c: int, s: int| 0 <= c < 2 implies (#[trigger] in_bb(self.queens[c], s) <==> (0 <= s < 64
                && self.pieces[s] == PieceType::Queen && self.colors[s] == Color::from_idx(c))) by {
            assert(self.bb_of(c, 4) == self.queens[c]);
        }
        assert forall|c: int, s: int| 0 <= c < 2 implies (#[trigger] in_bb(self.kings[c], s) <==> (0 <= s < 64
                && self.pieces[s] == PieceType::King && self.colors[s] == Color::from_idx(c))) by {
            assert(self.bb_of(c, 5) == self.kings[c]);
        }
    }

    /// The fields other than the squares and the scores are those of `other`.
    pub open spec fn same_state(self, other: Board) -> bool {
        &&& self.side_to_move == other.side_to_move
        &&& self.castling_rights == other.castling_rights
        &&& self.en_passant_square == other.en_passant_square
        &&& self.halfmove_clock == other.halfmove_clock
        &&& self.fullmove_number == other.fullmove_number
        &&& self.last_move == other.last_move
        &&& self.history@ == other.history@
        &&& self.keys == other.keys
    }

    /// Puts a piece on an empty square, updating bitboards, hash and scores.
    pub fn put_piece(&mut self, sq: u8, pt: PieceType, color: Color)
        requires
            old(self).wf(),
            sq < 64,
            pt != PieceType::Empty,
            color != Color::NoColor,
            old(self).pieces[sq as int] == PieceType::Empty,
        ensures
            final(self).wf(),
            final(self).pieces@ == old(self).pieces@.update(sq as int, pt),
            final(self).colors@ == old(self).colors@.update(sq as int, color),
            final(self).same_state(*old(self)),
            final(self).hash == old(self).hash ^ old(self).keys.spec_hash_piece(color, pt, sq as int),
            final(self).hash ^ final(self).squares_hash() == old(self).hash ^ old(self).squares_hash(),
            final(self).pawn_hash == (if pt == PieceType::Pawn {
                old(self).pawn_hash ^ old(self).keys.spec_hash_piece(color, pt, sq as int)
            } else {
                old(self).pawn_hash
            }),
            old(self).pawn_hash == old(self).pawns_hash() ==> final(self).pawn_hash == final(self).pawns_hash(),
    {
        let ghost old_self = *self;
        proof {
            lemma_pawns_hash_update(self.keys, self.pieces@, self.colors@, sq as int, pt, color, 64);
            let ph = self.pawn_hash;
            let k = self.keys.spec_hash_piece(color, pt, sq as int);
            lemma_xor_zero(ph);
            assert(ph ^ 0u64 ^ k == ph ^ k);
            lemma_squares_hash_update(self.keys, self.pieces@, self.colors@, sq as int, pt, color, 64);
            let h = self.hash;
            let sh = self.squares_hash();
            let k = self.keys.spec_hash_piece(color, pt, sq as int);
            assert((h ^ k) ^ (sh ^ 0u64 ^ k) == h ^ sh) by (bit_vector);
            lemma_material_update(self.pieces@, self.colors@, sq as int, pt, color, 64);
            lemma_material_bound(self.pieces@, self.colors@, 64);
        }
        self.put_piece_no_hash(sq, pt, color);
        let ghost after_squares = *self;
        self.hash = self.hash ^ self.keys.hash_piece(color, pt, sq);
        let v = piece_value_i32(pt);
        if color == Color::White {
            self.mg_pst = self.mg_pst + v;
            self.eg_pst = self.eg_pst + v;
        } else {
            self.mg_pst = self.mg_pst - v;
            self.eg_pst = self.eg_pst - v;
        }
        if pt == PieceType::Pawn {
            self.pawn_hash = self.pawn_hash ^ self.keys.hash_piece(color, pt, sq);
        }
        proof {
            Board::lemma_wf_squares_transfer(after_squares, *self);
        }
    }

    /// Removes the piece on a square, updating bitboards, hash and scores.
    pub fn remove_piece(&mut self, sq: u8, pt: PieceType, color: Color)
        requires
            old(self).wf(),
            sq < 64,
            pt != PieceType::Empty,
            old(self).pieces[sq as int] == pt,
            old(self).colors[sq as int] == color,
        ensures
            final(self).wf(),
            final(self).pieces@ == old(self).pieces@.update(sq as int, PieceType::Empty),
            final(self).colors@ == old(self).colors@.update(sq as int, Color::NoColor),
            final(self).same_state(*old(self)),
            final(self).hash == old(self).hash ^ old(self).keys.spec_hash_piece(color, pt, sq as int),
            final(self).hash ^ final(self).squares_hash() == old(self).hash ^ old(self).squares_hash(),
            final(self).pawn_hash == (if pt == PieceType::Pawn {
                old(self).pawn_hash ^ old(self).keys.spec_hash_piece(color, pt, sq as int)
            } else {
                old(self).pawn_hash
            }),
    {
        proof {
            lemma_squares_hash_update(self.keys, self.pieces@, self.colors@, sq as int, PieceType::Empty, Color::NoColor, 64);
            let h = self.hash;
            let sh = self.squares_hash();
            let k = self.keys.spec_hash_piece(color, pt, sq as int);
            assert((h ^ k) ^ (sh ^ k ^ 0u64) == h ^ sh) by (bit_vector);
            lemma_material_update(self.pieces@, self.colors@, sq as int, PieceType::Empty, Color::NoColor, 64);
            lemma_material_bound(self.pieces@, self.colors@, 64);
        }
        self.remove_piece_no_hash(sq, pt, color);
        let ghost after_squares = *self;
        self.hash = self.hash ^ self.keys.hash_piece(color, pt, sq);
        let v = piece_value_i32(pt);
        if color == Color::White {
            self.mg_pst = self.mg_pst - v;
            self.eg_pst = self.eg_pst - v;
        } else {
            self.mg_pst = self.mg_pst + v;
            self.eg_pst = self.eg_pst + v;
        }
        if pt == PieceType::Pawn {
            self.pawn_hash = self.pawn_hash ^ self.keys.hash_piece(color, pt, sq);
        }
        proof {
            Board::lemma_wf_squares_transfer(after_squares, *self);
        }
    }

    /// Puts a piece on an empty square, updating the bitboards only.
    pub(crate) fn put_piece_no_hash(&mut self, sq: u8, pt: PieceType, color: Color)
        requires
            old(self).wf_squares(),
            sq < 64,
            pt != PieceType::Empty,
            color != Color::NoColor,
            old(self).pieces[sq as int] == PieceType::Empty,
        ensures
            final(self).wf_squares(),
            final(self).pieces@ == old(self).pieces@.update(sq as int, pt),
            final(self).colors@ == old(self).colors@.update(sq as int, color),
            final(self).same_state(*old(self)),
            final(self).hash == old(self).hash,
            final(self).pawn_hash == old(self).pawn_hash,
            final(self).mg_pst == old(self).mg_pst,
            final(self).eg_pst == old(self).eg_pst,
    {
        let ghost old_self = *self;
        let bb = bit(sq);
        let c = color.idx();
        match pt {
            PieceType::Pawn => self.pawns[c] = self.pawns[c] | bb,
            PieceType::Knight => self.knights[c] = self.knights[c] | bb,
            PieceType::Bishop => self.bishops[c] = self.bishops[c] | bb,
            PieceType::Rook => self.rooks[c] = self.rooks[c] | bb,
            PieceType::Queen => self.queens[c] = self.queens[c] | bb,
            PieceType::King => self.kings[c] = self.kings[c] | bb,
            PieceType::Empty => {},
        }
        self.pieces[sq as usize] = pt;
        self.colors[sq as usize] = color;
        self.occupancy[c] = self.occupancy[c] | bb;
        self.all_occupancy = self.all_occupancy | bb;
        proof {
            assert forall|cc: int, p: int, s: int| 0 <= cc < 2 && 0 <= p < 6 implies (#[trigger] in_bb(self.bb_of(cc, p), s)
                <==> (0 <= s < 64 && self.pieces[s] == PieceType::from_idx(p) && self.colors[s] == Color::from_idx(cc))) by {
                assert(in_bb(old_self.bb_of(cc, p), s) <==> (0 <= s < 64 && old_self.pieces[s] == PieceType::from_idx(p) && old_self.colors[s] == Color::from_idx(cc)));
                if cc == c as int && p == pt.spec_idx() as int {
                    assert(self.bb_of(cc, p) == old_self.bb_of(cc, p) | bb);
                } else {
                    assert(self.bb_of(cc, p) == old_self.bb_of(cc, p));
                }
            }
            assert forall|cc: int, s: int| 0 <= cc < 2 implies (#[trigger] in_bb(self.occupancy[cc], s) <==> (0 <= s < 64
                && self.colors[s] == Color::from_idx(cc))) by {
                assert(in_bb(old_self.occupancy[cc], s) <==> (0 <= s < 64 && old_self.colors[s] == Color::from_idx(cc)));
            }
        }
    }

    /// Removes the piece on a square, updating the bitboards only.
    pub(crate) fn remove_piece_no_hash(&mut self, sq: u8, pt: PieceType, color: Color)
        requires
            old(self).wf_squares(),
            sq < 64,
            pt != PieceType::Empty,
            old(self).pieces[sq as int] == pt,
            old(self).colors[sq as int] == color,
        ensures
            final(self).wf_squares(),
            final(self).pieces@ == old(self).pieces@.update(sq as int, PieceType::Empty),
            final(self).colors@ == old(self).colors@.update(sq as int, Color::NoColor),
            final(self).same_state(*old(self)),
            final(self).hash == old(self).hash,
            final(self).pawn_hash == old(self).pawn_hash,
            final(self).mg_pst == old(self).mg_pst,
            final(self).eg_pst == old(self).eg_pst,
    {
        let ghost old_self = *self;
        let bb = bit(sq);
        let c = color.idx();
        let mask = !bb;
        match pt {
            PieceType::Pawn => self.pawns[c] = self.pawns[c] & mask,
            PieceType::Knight => self.knights[c] = self.knights[c] & mask,
            PieceType::Bishop => self.bishops[c] = self.bishops[c] & mask,
            PieceType::Rook => self.rooks[c] = self.rooks[c] & mask,
            PieceType::Queen => self.queens[c] = self.queens[c] & mask,
            PieceType::King => self.kings[c] = self.kings[c] & mask,
            PieceType::Empty => {},
        }
        self.pieces[sq as usize] = PieceType::Empty;
        self.colors[sq as usize] = Color::NoColor;
        self.occupancy[c] = self.occupancy[c] & mask;
        self.all_occupancy = self.all_occupancy & mask;
        proof {
            assert forall|cc: int, p: int, s: int| 0 <= cc < 2 && 0 <= p < 6 implies (#[trigger] in_bb(self.bb_of(cc, p), s)
                <==> (0 <= s < 64 && self.pieces[s] == PieceType::from_idx(p) && self.colors[s] == Color::from_idx(cc))) by {
                assert(in_bb(old_self.bb_of(cc, p), s) <==> (0 <= s < 64 && old_self.pieces[s] == PieceType::from_idx(p) && old_self.colors[s] == Color::from_idx(cc)));
                if cc == c as int && p == pt.spec_idx() as int {
                    assert(self.bb_of(cc, p) == old_self.bb_of(cc, p) & mask);
                } else {
                    assert(self.bb_of(cc, p) == old_self.bb_of(cc, p));
                }
            }
            assert forall|cc: int, s: int| 0 <= cc < 2 implies (#[trigger] in_bb(self.occupancy[cc], s) <==> (0 <= s < 64
                && self.colors[s] == Color::from_idx(cc))) by {
                assert(in_bb(old_self.occupancy[cc], s) <==> (0 <= s < 64 && old_self.colors[s] == Color::from_idx(cc)));
            }
        }
    }

    /// The pawn hash of the position from scratch: the keys of its pawns.
    pub open spec fn pawns_hash(self) -> u64 {
        pawns_hash_upto(self.keys, self.pieces@, self.colors@, 64)
    }

    /// The hash contribution of the squares.
    pub open spec fn squares_hash(self) -> u64 {
        squares_hash_upto(self.keys, self.pieces@, self.colors@, 64)
    }

    /// The hash of the position from scratch: pieces, side to move, castling
    /// rights and en passant square.
    pub open spec fn hash_spec(self) -> u64 {
        squares_hash_upto(self.keys, self.pieces@, self.colors@, 64) ^ (if self.side_to_move == Color::Black {
            self.keys.side_to_move
        } else {
            0
        }) ^ self.keys.castling[self.castling_rights as int] ^ self.keys.spec_hash_en_passant(
            self.en_passant_square,
        )
    }

    /// Law: boards hashing with the same keys, with the same pieces on the
    /// same squares, castling rights and en passant square, hash alike when
    /// the same side is to move, and differ by the side-to-move key
    /// otherwise; clocks, history and the last move do not count. Their
    /// pawn hashes are alike.
    pub proof fn law_hash_position(b1: Board, b2: Board)
        requires
            b1.keys == b2.keys,
            b1.pieces@ == b2.pieces@,
            b1.colors@ == b2.colors@,
            b1.castling_rights == b2.castling_rights,
            b1.en_passant_square == b2.en_passant_square,
            b1.side_to_move != Color::NoColor,
            b2.side_to_move != Color::NoColor,
        ensures
            b1.side_to_move == b2.side_to_move ==> b1.hash_spec() == b2.hash_spec(),
            b1.side_to_move != b2.side_to_move ==> b1.hash_spec() == b2.hash_spec() ^ b1.keys.side_to_move,
            b1.pawns_hash() == b2.pawns_hash(),
    {
        let sq = squares_hash_upto(b1.keys, b1.pieces@, b1.colors@, 64);
        let c = b1.keys.castling[b1.castling_rights as int];
        let e = b1.keys.spec_hash_en_passant(b1.en_passant_square);
        let k = b1.keys.side_to_move;
        assert(sq ^ k ^ c ^ e == (sq ^ 0u64 ^ c ^ e) ^ k) by (bit_vector);
        assert((sq ^ k ^ c ^ e) ^ k == sq ^ 0u64 ^ c ^ e) by (bit_vector);
    }

    /// Whether a piece of color `c` on square `a` attacks square `t`, with
    /// `occ` the occupied squares that block sliders.
    pub open spec fn attacks_from(self, a: int, t: int, c: Color, occ: u64) -> bool {
        let p = self.pieces[a];
        0 <= a < 64 && self.colors[a] == c && ((p == PieceType::Pawn && pawn_step(
            c == Color::White,
            a,
            t,
        )) || (p == PieceType::Knight && knight_step(t, a)) || (p == PieceType::King && king_step(
            t,
            a,
        )) || ((p == PieceType::Bishop || p == PieceType::Queen) && bishop_attack(t, occ, a)) || ((p
            == PieceType::Rook || p == PieceType::Queen) && rook_attack(t, occ, a)))
    }

    /// Whether square `t` is attacked by a piece of color `c`.
    pub open spec fn attacked_with_occ(self, t: int, c: Color, occ: u64) -> bool {
        exists|a: int| #[trigger] self.attacks_from(a, t, c, occ)
    }

    /// A board with no pieces.
    pub(crate) fn empty(keys: Zobrist) -> (b: Board)
        ensures
            b.wf(),
            forall|s: int| 0 <= s < 64 ==> #[trigger] b.pieces[s] == PieceType::Empty,
            b.side_to_move == Color::White,
            b.castling_rights == 0,
            b.en_passant_square.is_none(),
            b.halfmove_clock == 0,
            b.fullmove_number == 1,
            b.last_move.is_none(),
            b.history@.len() == 0,
            b.hash == 0,
            b.pawn_hash == 0,
            b.pawn_hash == b.pawns_hash(),
            b.keys == keys,
    {
        let b = Board {
            pawns: [0; 2],
            knights: [0; 2],
            bishops: [0; 2],
            rooks: [0; 2],
            queens: [0; 2],
            kings: [0; 2],
            occupancy: [0; 2],
            all_occupancy: 0,
            side_to_move: Color::White,
            castling_rights: 0,
            en_passant_square: None,
            halfmove_clock: 0,
            fullmove_number: 1,
            last_move: None,
            history: Vec::new(),
            pieces: [PieceType::Empty; 64],
            colors: [Color::NoColor; 64],
            hash: 0,
            mg_pst: 0,
            eg_pst: 0,
            pawn_hash: 0,
            keys,
        };
        proof {
            assert forall|s: int| 0 <= s < 64 implies #[trigger] b.pieces[s] == PieceType::Empty
                && b.colors[s] == Color::NoColor by {}
            assert forall|n: int| 0 <= n <= 64 implies #[trigger] material_upto(b.pieces@, b.colors@, n) == 0 by {
                lemma_material_zero(b.pieces@, b.colors@, n);
            }
            lemma_pawns_hash_empty(b.keys, b.pieces@, b.colors@, 64);
        }
        b
    }

    /// This is the standard starting position, with a fresh history, hash
    /// and pawn hash.
    pub open spec fn is_start_position(self) -> bool {
        &&& self.wf()
        &&& self.hash == self.hash_spec()
        &&& self.pawn_hash == self.pawns_hash()
        &&& self.side_to_move == Color::White
        &&& self.castling_rights == 0xF
        &&& self.en_passant_square.is_none()
        &&& self.halfmove_clock == 0
        &&& self.fullmove_number == 1
        &&& self.last_move.is_none()
        &&& self.history@.len() == 0
        &&& forall|s: int| 8 <= s < 16 ==> #[trigger] self.pieces[s] == PieceType::Pawn && self.colors[s]
            == Color::White
        &&& forall|s: int| 48 <= s < 56 ==> #[trigger] self.pieces[s] == PieceType::Pawn && self.colors[s]
            == Color::Black
        &&& forall|s: int| 16 <= s < 48 ==> #[trigger] self.pieces[s] == PieceType::Empty
        &&& self.pieces[0] == PieceType::Rook && self.pieces[1] == PieceType::Knight
            && self.pieces[2] == PieceType::Bishop && self.pieces[3] == PieceType::Queen
            && self.pieces[4] == PieceType::King && self.pieces[5] == PieceType::Bishop
            && self.pieces[6] == PieceType::Knight && self.pieces[7] == PieceType::Rook
        &&& self.pieces[56] == PieceType::Rook && self.pieces[57] == PieceType::Knight
            && self.pieces[58] == PieceType::Bishop && self.pieces[59] == PieceType::Queen
            && self.pieces[60] == PieceType::King && self.pieces[61] == PieceType::Bishop
            && self.pieces[62] == PieceType::Knight && self.pieces[63] == PieceType::Rook
        &&& forall|s: int| 0 <= s < 8 ==> #[trigger] self.colors[s] == Color::White
        &&& forall|s: int| 56 <= s < 64 ==> #[trigger] self.colors[s] == Color::Black
    }

    /// Creates the standard chess starting position, hashing with the
    /// standard keys.
    pub fn startpos() -> (b: Board)
        ensures
            b.is_start_position(),
            crate::board::zobrist::standard_keys(b.keys),
    {
        Board::startpos_keyed(Zobrist::new())
    }

    /// Creates the standard chess starting position, hashing with the given
    /// keys (so that it hashes as the other boards made with them).
    pub fn startpos_keyed(keys: Zobrist) -> (b: Board)
        ensures
            b.is_start_position(),
            b.keys == keys,
    {
        let mut board = Board::empty(keys);
        let mut i: u8 = 8;
        while i < 16
            invariant
                8 <= i <= 16,
                board.wf(),
                board.side_to_move == Color::White,
                board.castling_rights == 0,
                board.en_passant_square.is_none(),
                board.halfmove_clock == 0,
                board.fullmove_number == 1,
                board.last_move.is_none(),
                board.history@.len() == 0,
                board.keys == keys,
                board.pawn_hash == board.pawns_hash(),
                forall|s: int| 8 <= s < i ==> #[trigger] board.pieces[s] == PieceType::Pawn && board.colors[s] == Color::White,
                forall|s: int| (0 <= s < 8 || i <= s < 64) ==> #[trigger] board.pieces[s] == PieceType::Empty,
            decreases 16 - i,
        {
            board.put_piece(i, PieceType::Pawn, Color::White);
            i = i + 1;
        }
        board.put_piece(0, PieceType::Rook, Color::White);
        board.put_piece(1, PieceType::Knight, Color::White);
        board.put_piece(2, PieceType::Bishop, Color::White);
        board.put_piece(3, PieceType::Queen, Color::White);
        board.put_piece(4, PieceType::King, Color::White);
        board.put_piece(5, PieceType::Bishop, Color::White);
        board.put_piece(6, PieceType::Knight, Color::White);
        board.put_piece(7, PieceType::Rook, Color::White);
        let mut j: u8 = 48;
        while j < 56
            invariant
                48 <= j <= 56,
                board.wf(),
                board.side_to_move == Color::White,
                board.castling_rights == 0,
                board.en_passant_square.is_none(),
                board.halfmove_clock == 0,
                board.fullmove_number == 1,
                board.last_move.is_none(),
                board.history@.len() == 0,
                board.keys == keys,
                board.pawn_hash == board.pawns_hash(),
                forall|s: int| 8 <= s < 16 ==> #[trigger] board.pieces[s] == PieceType::Pawn && board.colors[s] == Color::White,
                forall|s: int| 48 <= s < j ==> #[trigger] board.pieces[s] == PieceType::Pawn && board.colors[s] == Color::Black,
                forall|s: int| (16 <= s < 48 || j <= s < 64) ==> #[trigger] board.pieces[s] == PieceType::Empty,
                board.pieces[0] == PieceType::Rook && board.pieces[1] == PieceType::Knight
                    && board.pieces[2] == PieceType::Bishop && board.pieces[3] == PieceType::Queen
                    && board.pieces[4] == PieceType::King && board.pieces[5] == PieceType::Bishop
                    && board.pieces[6] == PieceType::Knight && board.pieces[7] == PieceType::Rook,
                forall|s: int| 0 <= s < 8 ==> #[trigger] board.colors[s] == Color::White,
            decreases 56 - j,
        {
            board.put_piece(j, PieceType::Pawn, Color::Black);
            j = j + 1;
        }
        board.put_piece(56, PieceType::Rook, Color::Black);
        board.put_piece(57, PieceType::Knight, Color::Black);
        board.put_piece(58, PieceType::Bishop, Color::Black);
        board.put_piece(59, PieceType::Queen, Color::Black);
        board.put_piece(60, PieceType::King, Color::Black);
        board.put_piece(61, PieceType::Bishop, Color::Black);
        board.put_piece(62, PieceType::Knight, Color::Black);
        board.put_piece(63, PieceType::Rook, Color::Black);
        let ghost before = board;
        board.castling_rights = 0xF;
        proof {
            Board::lemma_wf_transfer(before, board);
        }
        board.update_occupancy();
        let ghost before_hash = board;
        board.hash = board.compute_hash();
        proof {
            Board::lemma_wf_transfer(before_hash, board);
            assert(board.hash_spec() == before_hash.hash_spec());
        }
        board
    }

    /// Recomputes the occupancy bitboards from the piece bitboards.
    pub fn update_occupancy(&mut self)
        requires
            old(self).wf(),
        ensures
            final(self).wf(),
            final(self).occupancy[0] == old(self).pawns[0] | old(self).knights[0] | old(self).bishops[0]
                | old(self).rooks[0] | old(self).queens[0] | old(self).kings[0],
            final(self).occupancy[1] == old(self).pawns[1] | old(self).knights[1] | old(self).bishops[1]
                | old(self).rooks[1] | old(self).queens[1] | old(self).kings[1],
            final(self).all_occupancy == final(self).occupancy[0] | final(self).occupancy[1],
            final(self).pieces == old(self).pieces,
            final(self).colors == old(self).colors,
            final(self).pawns == old(self).pawns,
            final(self).knights == old(self).knights,
            final(self).bishops == old(self).bishops,
            final(self).rooks == old(self).rooks,
            final(self).queens == old(self).queens,
            final(self).kings == old(self).kings,
            final(self).same_state(*old(self)),
            final(self).hash == old(self).hash,
            final(self).pawn_hash == old(self).pawn_hash,
            final(self).mg_pst == old(self).mg_pst,
            final(self).eg_pst == old(self).eg_pst,
    {
        let ghost old_self = *self;
        let w: usize = 0;
        let b: usize = 1;
        let ow = self.pawns[w] | self.knights[w] | self.bishops[w] | self.rooks[w] | self.queens[w] | self.kings[w];
        let ob = self.pawns[b] | self.knights[b] | self.bishops[b] | self.rooks[b] | self.queens[b] | self.kings[b];
        self.occupancy[w] = ow;
        self.occupancy[b] = ob;
        self.all_occupancy = ow | ob;
        proof {
            assert forall|cc: int, s: int| 0 <= cc < 2 implies (#[trigger] in_bb(self.occupancy[cc], s) <==> (0 <= s < 64
                && self.colors[s] == Color::from_idx(cc))) by {
                assert(in_bb(old_self.bb_of(cc, 0), s) <==> (0 <= s < 64 && old_self.pieces[s] == PieceType::from_idx(0) && old_self.colors[s] == Color::from_idx(cc)));
                assert(in_bb(old_self.bb_of(cc, 1), s) <==> (0 <= s < 64 && old_self.pieces[s] == PieceType::from_idx(1) && old_self.colors[s] == Color::from_idx(cc)));
                assert(in_bb(old_self.bb_of(cc, 2), s) <==> (0 <= s < 64 && old_self.pieces[s] == PieceType::from_idx(2) && old_self.colors[s] == Color::from_idx(cc)));
                assert(in_bb(old_self.bb_of(cc, 3), s) <==> (0 <= s < 64 && old_self.pieces[s] == PieceType::from_idx(3) && old_self.colors[s] == Color::from_idx(cc)));
                assert(in_bb(old_self.bb_of(cc, 4), s) <==> (0 <= s < 64 && old_self.pieces[s] == PieceType::from_idx(4) && old_self.colors[s] == Color::from_idx(cc)));
                assert(in_bb(old_self.bb_of(cc, 5), s) <==> (0 <= s < 64 && old_self.pieces[s] == PieceType::from_idx(5) && old_self.colors[s] == Color::from_idx(cc)));
                if 0 <= s < 64 {
                    assert(old_self.pieces[s] == PieceType::Empty <==> old_self.colors[s] == Color::NoColor);
                }
            }
            assert forall|cc: int, p: int, s: int| 0 <= cc < 2 && 0 <= p < 6 implies (#[trigger] in_bb(self.bb_of(cc, p), s)
                <==> (0 <= s < 64 && self.pieces[s] == PieceType::from_idx(p) && self.colors[s] == Color::from_idx(cc))) by {
                assert(self.bb_of(cc, p) == old_self.bb_of(cc, p));
            }
            assert forall|s: int| #[trigger] in_bb(self.all_occupancy, s) <==> (0 <= s < 64 && self.colors[s] != Color::NoColor) by {
                assert(in_bb(self.occupancy[0], s) <==> (0 <= s < 64 && self.colors[s] == Color::from_idx(0)));
                assert(in_bb(self.occupancy[1], s) <==> (0 <= s < 64 && self.colors[s] == Color::from_idx(1)));
            }
        }
    }

    /// The hash of the position computed from scratch.
    pub fn compute_hash(&self) -> (h: u64)
        requires
            self.wf(),
        ensures
            h == self.hash_spec(),
    {
        let mut h: u64 = 0;
        let mut sq: usize = 0;
        while sq < 64
            invariant
                sq <= 64,
                self.wf(),
                h == squares_hash_upto(self.keys, self.pieces@, self.colors@, sq as int),
            decreases 64 - sq,
        {
            let pt = self.pieces[sq];
            if pt != PieceType::Empty {
                h = h ^ self.keys.hash_piece(self.colors[sq], pt, sq as u8);
            } else {
                proof {
                    lemma_xor_zero(h);
                }
            }
            sq = sq + 1;
        }
        if self.side_to_move == Color::Black {
            h = h ^ self.keys.hash_side();
        } else {
            proof {
                lemma_xor_zero(h);
            }
        }
        h = h ^ self.keys.hash_castling(self.castling_rights);
        h = h ^ self.keys.hash_en_passant(self.en_passant_square);
        h
    }

    /// Total number of pieces on the board.
    pub fn piece_count(&self) -> (n: u32)
        ensures
            n == popcount(self.all_occupancy),
    {
        count_bits(self.all_occupancy)
    }

    /// Whether `color` has a knight, bishop, rook or queen.
    pub fn has_non_pawn_material(&self, color: Color) -> (r: bool)
        requires
            self.wf(),
            color != Color::NoColor,
        ensures
            r <==> exists|s: int| 0 <= s < 64 && #[trigger] self.colors[s] == color && (self.pieces[s]
                == PieceType::Knight || self.pieces[s] == PieceType::Bishop || self.pieces[s]
                == PieceType::Rook || self.pieces[s] == PieceType::Queen),
    {
        let c = color.idx();
        let r = self.knights[c] != 0 || self.bishops[c] != 0 || self.rooks[c] != 0 || self.queens[c] != 0;
        proof {
            let ci = c as int;
            assert(color == Color::from_idx(ci));
            crate::board::bitboard::lemma_zero_iff_empty(self.knights[c as int]);
            crate::board::bitboard::lemma_zero_iff_empty(self.bishops[c as int]);
            crate::board::bitboard::lemma_zero_iff_empty(self.rooks[c as int]);
            crate::board::bitboard::lemma_zero_iff_empty(self.queens[c as int]);
            assert(self.bb_of(ci, 1) == self.knights[ci]);
            assert(self.bb_of(ci, 2) == self.bishops[ci]);
            assert(self.bb_of(ci, 3) == self.rooks[ci]);
            assert(self.bb_of(ci, 4) == self.queens[ci]);
            if r {
                if self.knights[c as int] != 0 {
                    let s = choose|s: int| 0 <= s < 64 && in_bb(self.knights[ci], s);
                    assert(in_bb(self.bb_of(ci, 1), s));
                } else if self.bishops[c as int] != 0 {
                    let s = choose|s: int| 0 <= s < 64 && in_bb(self.bishops[ci], s);
                    assert(in_bb(self.bb_of(ci, 2), s));
                } else if self.rooks[c as int] != 0 {
                    let s = choose|s: int| 0 <= s < 64 && in_bb(self.rooks[ci], s);
                    assert(in_bb(self.bb_of(ci, 3), s));
                } else {
                    let s = choose|s: int| 0 <= s < 64 && in_bb(self.queens[ci], s);
                    assert(in_bb(self.bb_of(ci, 4), s));
                }
            } else {
                assert forall|s: int| 0 <= s < 64 && #[trigger] self.colors[s] == color implies !(self.pieces[s]
                    == PieceType::Knight || self.pieces[s] == PieceType::Bishop || self.pieces[s]
                    == PieceType::Rook || self.pieces[s] == PieceType::Queen) by {
                    assert(in_bb(self.bb_of(ci, 1), s) == (self.pieces[s] == PieceType::Knight));
                    assert(in_bb(self.bb_of(ci, 2), s) == (self.pieces[s] == PieceType::Bishop));
                    assert(in_bb(self.bb_of(ci, 3), s) == (self.pieces[s] == PieceType::Rook));
                    assert(in_bb(self.bb_of(ci, 4), s) == (self.pieces[s] == PieceType::Queen));
                }
            }
        }
        r
    }
}

/// The material balance of an empty board is zero.
proof fn lemma_material_zero(pieces: Seq<PieceType>, colors: Seq<Color>, n: int)
    requires
        0 <= n <= pieces.len(),
        forall|s: int| 0 <= s < pieces.len() ==> #[trigger] pieces[s] == PieceType::Empty,
    ensures
        material_upto(pieces, colors, n) == 0,
    decreases n,
{
    if n > 0 {
        lemma_material_zero(pieces, colors, n - 1);
    }
}

/// Exclusive or with zero is the identity.
pub proof fn lemma_xor_zero(a: u64)
    ensures
        a ^ 0u64 == a,
{
    assert(a ^ 0u64 == a) by (bit_vector);
}

impl Board {
    /// Whether `sq` is attacked by a piece of `attacker_color`, with the
    /// squares of `occ` blocking sliding pieces.
    pub fn is_square_attacked_with_occ(&self, sq: u8, attacker_color: Color, occ: u64) -> (r: bool)
        requires
            self.wf(),
            sq < 64,
            attacker_color != Color::NoColor,
        ensures
            r == self.attacked_with_occ(sq as int, attacker_color, occ),
    {
        proof {
            self.lemma_wf_bbs();
        }
        let c = attacker_color.idx();
        let ghost ci = c as int;
        let ghost t = sq as int;
        assert(attacker_color == Color::from_idx(ci));
        let pa = get_pawn_attacks(sq, attacker_color.opposite());
        if intersects(pa, self.pawns[c]) {
            let ghost a = choose|a: int| #[trigger] in_bb(pa, a) && in_bb(self.pawns[ci], a);
            assert(self.attacks_from(a, t, attacker_color, occ));
            return true;
        }
        let na = get_knight_attacks(sq);
        if intersects(na, self.knights[c]) {
            let ghost a = choose|a: int| #[trigger] in_bb(na, a) && in_bb(self.knights[ci], a);
            assert(self.attacks_from(a, t, attacker_color, occ));
            return true;
        }
        let ka = get_king_attacks(sq);
        if intersects(ka, self.kings[c]) {
            let ghost a = choose|a: int| #[trigger] in_bb(ka, a) && in_bb(self.kings[ci], a);
            assert(self.attacks_from(a, t, attacker_color, occ));
            return true;
        }
        let ba = get_bishop_attacks(sq, occ);
        let bq = self.bishops[c] | self.queens[c];
        if intersects(ba, bq) {
            let ghost a = choose|a: int| #[trigger] in_bb(ba, a) && in_bb(bq, a);
            assert(self.attacks_from(a, t, attacker_color, occ));
            return true;
        }
        let ra = get_rook_attacks(sq, occ);
        let rq = self.rooks[c] | self.queens[c];
        if intersects(ra, rq) {
            let ghost a = choose|a: int| #[trigger] in_bb(ra, a) && in_bb(rq, a);
            assert(self.attacks_from(a, t, attacker_color, occ));
            return true;
        }
        assert forall|a: int| !#[trigger] self.attacks_from(a, t, attacker_color, occ) by {
            if 0 <= a < 64 && self.colors[a] == attacker_color {
                if self.pieces[a] == PieceType::Pawn && pawn_step(attacker_color == Color::White, a, t) {
                    assert(in_bb(pa, a) && in_bb(self.pawns[ci], a));
                }
                if self.pieces[a] == PieceType::Knight && knight_step(t, a) {
                    assert(in_bb(na, a) && in_bb(self.knights[ci], a));
                }
                if self.pieces[a] == PieceType::King && king_step(t, a) {
                    assert(in_bb(ka, a) && in_bb(self.kings[ci], a));
                }
                if (self.pieces[a] == PieceType::Bishop || self.pieces[a] == PieceType::Queen) && bishop_attack(t, occ, a) {
                    assert(in_bb(ba, a) && in_bb(bq, a));
                }
                if (self.pieces[a] == PieceType::Rook || self.pieces[a] == PieceType::Queen) && rook_attack(t, occ, a) {
                    assert(in_bb(ra, a) && in_bb(rq, a));
                }
            }
        }
        false
    }

    /// Whether `sq` is attacked by a piece of `attacker_color` in this position.
    pub fn is_square_attacked(&self, sq: u8, attacker_color: Color) -> (r: bool)
        requires
            self.wf(),
            sq < 64,
            attacker_color != Color::NoColor,
        ensures
            r == self.attacked_with_occ(sq as int, attacker_color, self.all_occupancy),
    {
        self.is_square_attacked_with_occ(sq, attacker_color, self.all_occupancy)
    }
}

impl Board {
    /// The square of the king of color index `c` (the least one if there
    /// are several; 64 when there is none).
    pub open spec fn king_square(self, c: int) -> int {
        lsb(self.kings[c])
    }

    /// Whether the side `color` is in check: it has a king and the enemy
    /// attacks the king's square.
    pub open spec fn in_check(self, color: Color) -> bool {
        self.kings[color.spec_idx() as int] != 0 && self.attacked_with_occ(
            self.king_square(color.spec_idx() as int),
            color.spec_opposite(),
            self.all_occupancy,
        )
    }

    /// Whether the piece on `a` gives check to the king of `color` on `k`.
    pub open spec fn is_checker(self, k: int, color: Color, a: int) -> bool {
        self.attacks_from(a, k, color.spec_opposite(), self.all_occupancy) && self.pieces[a]
            != PieceType::King
    }

    /// Whether the enemy slider on `p` pins the piece of `color` on `x`
    /// against the king on `k`: `p` sees `k` along its lines on an empty
    /// board and `x` is the only piece between them.
    pub open spec fn is_pinner(self, k: int, color: Color, p: int, x: int) -> bool {
        let e = color.spec_opposite();
        let pt = self.pieces[p];
        &&& 0 <= p < 64
        &&& self.colors[p] == e
        &&& (((pt == PieceType::Rook || pt == PieceType::Queen) && rook_attack(k, 0, p)) || ((pt
            == PieceType::Bishop || pt == PieceType::Queen) && bishop_attack(k, 0, p)))
        &&& strictly_between(k, p, x)
        &&& self.colors[x] == color
        &&& forall|y: int|
            #![trigger strictly_between(k, p, y)]
            strictly_between(k, p, y) && self.colors[y] != Color::NoColor ==> y == x
    }

    /// Whether the piece of `color` on `x` is pinned against its king on `k`.
    pub open spec fn is_pinned(self, k: int, color: Color, x: int) -> bool {
        exists|p: int| #[trigger] self.is_pinner(k, color, p, x)
    }

    /// Check if the side `color` is in check.
    pub fn is_in_check(&self, color: Color) -> (r: bool)
        requires
            self.wf(),
            color != Color::NoColor,
        ensures
            r == self.in_check(color),
    {
        let king_bb = self.kings[color.idx()];
        if king_bb == 0 {
            return false;
        }
        proof {
            lemma_lsb(king_bb);
        }
        let king_sq = king_bb.trailing_zeros() as u8;
        self.is_square_attacked(king_sq, color.opposite())
    }

    /// The pieces of `color` pinned against its king, and the enemy pieces
    /// giving check; both empty when `color` has no king.
    pub fn pins_and_checkers(&self, color: Color) -> (r: (u64, u64))
        requires
            self.wf(),
            color != Color::NoColor,
        ensures
            self.kings[color.spec_idx() as int] == 0 ==> r.0 == 0 && r.1 == 0,
            self.kings[color.spec_idx() as int] != 0 ==> {
                let k = self.king_square(color.spec_idx() as int);
                &&& forall|x: int| #[trigger] in_bb(r.0, x) <==> self.is_pinned(k, color, x)
                &&& forall|a: int| #[trigger] in_bb(r.1, a) <==> self.is_checker(k, color, a)
            },
    {
        proof {
            self.lemma_wf_bbs();
        }
        let side = color.idx();
        let enemy_color = color.opposite();
        let enemy = enemy_color.idx();
        let king_bb = self.kings[side];
        if king_bb == 0 {
            return (0, 0);
        }
        proof {
            lemma_lsb(king_bb);
        }
        let king_sq = king_bb.trailing_zeros() as u8;
        let ghost k = king_sq as int;
        let ghost ei = enemy as int;
        let occ = self.all_occupancy;
        assert(enemy_color == Color::from_idx(ei));
        assert(color == Color::from_idx(side as int));

        let na = get_knight_attacks(king_sq);
        let pa = get_pawn_attacks(king_sq, color);
        let ra = get_rook_attacks(king_sq, occ);
        let ba = get_bishop_attacks(king_sq, occ);
        let rq = self.rooks[enemy] | self.queens[enemy];
        let bq = self.bishops[enemy] | self.queens[enemy];
        let checkers = (na & self.knights[enemy]) | (pa & self.pawns[enemy]) | (ra & rq) | (ba & bq);
        assert forall|a: int| #[trigger] in_bb(checkers, a) <==> self.is_checker(k, color, a) by {
            if 0 <= a < 64 && self.colors[a] == enemy_color && self.pieces[a] == PieceType::Pawn {
                assert(pawn_step(color == Color::White, k, a) <==> pawn_step(enemy_color == Color::White, a, k));
            }
        }

        let p_rook = get_rook_attacks(king_sq, 0) & rq;
        let p_bishop = get_bishop_attacks(king_sq, 0) & bq;
        let cands = p_rook | p_bishop;
        let mut pin_candidates = cands;
        let mut pinned: u64 = 0;
        while pin_candidates != 0
            invariant
                self.wf(),
                0 <= k < 64,
                king_sq as int == k,
                occ == self.all_occupancy,
                side as int == color.spec_idx(),
                color != Color::NoColor,
                forall|p: int| #[trigger] in_bb(pin_candidates, p) ==> in_bb(cands, p),
                forall|p: int| #[trigger] in_bb(cands, p) <==> (0 <= p < 64 && self.colors[p] == color.spec_opposite()
                    && (((self.pieces[p] == PieceType::Rook || self.pieces[p] == PieceType::Queen) && rook_attack(k, 0, p))
                    || ((self.pieces[p] == PieceType::Bishop || self.pieces[p] == PieceType::Queen) && bishop_attack(k, 0, p)))),
                forall|x: int| #[trigger] in_bb(pinned, x) <==> exists|p: int|
                    #[trigger] self.is_pinner(k, color, p, x) && in_bb(cands, p) && !in_bb(pin_candidates, p),
            decreases pin_candidates,
        {
            let ghost before = pin_candidates;
            let ghost old_pinned = pinned;
            let p_sq = pop_lsb(&mut pin_candidates);
            let ghost p = p_sq as int;
            let between = between_bb(king_sq, p_sq) & occ;
            let ghost in_between = |y: int| strictly_between(k, p, y) && self.colors[y] != Color::NoColor;
            assert forall|y: int| #[trigger] in_bb(between, y) <==> in_between(y) by {}
            proof {
                lemma_popcount_one(between);
            }
            if count_bits(between) == 1 {
                let ghost x0 = choose|a: int| #[trigger] only_square(between, a);
                let add = between & self.occupancy[side];
                pinned = pinned | add;
                assert forall|x: int| #[trigger] in_bb(pinned, x) <==> exists|q: int|
                    #[trigger] self.is_pinner(k, color, q, x) && in_bb(cands, q) && !in_bb(pin_candidates, q) by {
                    if in_bb(add, x) {
                        assert(x == x0);
                        assert(in_bb(cands, p));
                        assert(in_bb(between, x));
                        assert forall|y: int| #![trigger strictly_between(k, p, y)]
                            strictly_between(k, p, y) && self.colors[y] != Color::NoColor implies y == x by {
                            assert(in_bb(between, y));
                        }
                        assert(self.is_pinner(k, color, p, x));
                    }
                    if in_bb(old_pinned, x) {
                        let q = choose|q: int| #[trigger] self.is_pinner(k, color, q, x) && in_bb(cands, q) && !in_bb(before, q);
                        assert(self.is_pinner(k, color, q, x) && in_bb(cands, q) && !in_bb(pin_candidates, q));
                    }
                    if exists|q: int| #[trigger] self.is_pinner(k, color, q, x) && in_bb(cands, q) && !in_bb(pin_candidates, q) {
                        let q = choose|q: int| #[trigger] self.is_pinner(k, color, q, x) && in_bb(cands, q) && !in_bb(pin_candidates, q);
                        if q == p {
                            assert(in_bb(between, x));
                            assert(x == x0);
                        } else {
                            assert(in_bb(old_pinned, x));
                        }
                    }
                }
            } else {
                assert forall|x: int| #[trigger] in_bb(pinned, x) <==> exists|q: int|
                    #[trigger] self.is_pinner(k, color, q, x) && in_bb(cands, q) && !in_bb(pin_candidates, q) by {
                    if in_bb(old_pinned, x) {
                        let q = choose|q: int| #[trigger] self.is_pinner(k, color, q, x) && in_bb(cands, q) && !in_bb(before, q);
                        assert(self.is_pinner(k, color, q, x) && in_bb(cands, q) && !in_bb(pin_candidates, q));
                    }
                    if exists|q: int| #[trigger] self.is_pinner(k, color, q, x) && in_bb(cands, q) && !in_bb(pin_candidates, q) {
                        let q = choose|q: int| #[trigger] self.is_pinner(k, color, q, x) && in_bb(cands, q) && !in_bb(pin_candidates, q);
                        if q == p {
                            assert(only_square(between, x));
                        }
                    }
                }
            }
        }
        proof {
            lemma_zero_iff_empty(pin_candidates);
            assert forall|x: int| #[trigger] in_bb(pinned, x) <==> self.is_pinned(k, color, x) by {
                if self.is_pinned(k, color, x) {
                    let q = choose|q: int| #[trigger] self.is_pinner(k, color, q, x);
                    assert(in_bb(cands, q));
                }
            }
        }
        (pinned, checkers)
    }

    /// The squares strictly between `s1` and `s2` on a shared line.
    pub fn between(&self, s1: u8, s2: u8) -> (r: u64)
        requires
            s1 < 64,
            s2 < 64,
        ensures
            forall|x: int| #[trigger] in_bb(r, x) <==> strictly_between(s1 as int, s2 as int, x),
    {
        between_bb(s1, s2)
    }
}

} // verus!
