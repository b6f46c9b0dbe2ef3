//! Zobrist hashing keys.
use vstd::prelude::*;
use crate::board::piece::{Color, PieceType};
use rand::{RngCore, SeedableRng};

verus! {

/// The first value of `rand`'s standard generator seeded with `seed`.
pub uninterp spec fn seeded_key(seed: u64) -> u64;

/// Calls `rand::rngs::StdRng::seed_from_u64(seed)` and takes its first
/// value with `next_u64`. `StdRng` is deterministic (its documentation
/// says so), so the value is named as a function of the seed alone.
#[verifier::external_body]
fn key_for(seed: u64) -> (r: u64)
    ensures
        r == seeded_key(seed),
{
    rand::rngs::StdRng::seed_from_u64(seed).next_u64()
}

/// The pseudo-random keys from which position hashes are built.
#[derive(Copy, Clone)]
pub struct Zobrist {
    pub pieces: [[[u64; 64]; 6]; 2],
    pub side_to_move: u64,
    pub castling: [u64; 16],
    /// 64 entries for the squares and one for "no en passant square".
    pub en_passant: [u64; 65],
}

/// The sixty-four keys of the seeds `base` to `base + 63`.
fn key_row(base: u64) -> (r: [u64; 64])
    requires
        base + 64 <= 1000,
    ensures
        forall|s: int| 0 <= s < 64 ==> #[trigger] r[s] == seeded_key((base + s) as u64),
{
    let mut row = [0u64; 64];
    let mut s: usize = 0;
    while s < 64
        invariant
            s <= 64,
            base + 64 <= 1000,
            forall|t: int| 0 <= t < s ==> #[trigger] row[t] == seeded_key((base + t) as u64),
        decreases 64 - s,
    {
        row[s] = key_for(base + s as u64);
        s = s + 1;
    }
    row
}

/// The seed of the key of a piece of color index `c` and type index `p`
/// on square `s`; the side-to-move, castling and en passant keys follow.
pub open spec fn piece_seed(c: int, p: int, s: int) -> u64 {
    (c * 384 + p * 64 + s) as u64
}

/// The keys every board hashes with: each the first value of the standard
/// generator seeded with its own number (see [`piece_seed`]); the
/// side-to-move key has seed 768, the castling keys 769 to 784 and the en
/// passant keys 785 to 849.
pub open spec fn standard_keys(z: Zobrist) -> bool {
    &&& forall|c: int, p: int, s: int| 0 <= c < 2 && 0 <= p < 6 && 0 <= s < 64 ==> #[trigger] z.pieces[c][p][s]
        == seeded_key(piece_seed(c, p, s))
    &&& z.side_to_move == seeded_key(768)
    &&& forall|i: int| 0 <= i < 16 ==> #[trigger] z.castling[i] == seeded_key((769 + i) as u64)
    &&& forall|j: int| 0 <= j < 65 ==> #[trigger] z.en_passant[j] == seeded_key((785 + j) as u64)
}

/// Law: there is one set of standard keys.
pub proof fn law_standard_keys_unique(a: Zobrist, b: Zobrist)
    requires
        standard_keys(a),
        standard_keys(b),
    ensures
        a == b,
{
    broadcast use vstd::array::axiom_array_ext_equal;
    assert forall|c: int| 0 <= c < 2 implies a.pieces[c] == b.pieces[c] by {
        assert forall|p: int| 0 <= p < 6 implies a.pieces[c][p] == b.pieces[c][p] by {
            assert forall|s: int| 0 <= s < 64 implies a.pieces[c][p][s] == b.pieces[c][p][s] by {
                assert(a.pieces[c][p][s] == seeded_key(piece_seed(c, p, s)));
                assert(b.pieces[c][p][s] == seeded_key(piece_seed(c, p, s)));
            }
            assert(a.pieces[c][p] =~= b.pieces[c][p]);
        }
        assert(a.pieces[c] =~= b.pieces[c]);
    }
    assert(a.pieces =~= b.pieces);
    assert forall|i: int| 0 <= i < 16 implies a.castling[i] == b.castling[i] by {
        assert(a.castling[i] == seeded_key((769 + i) as u64));
    }
    assert(a.castling =~= b.castling);
    assert forall|j: int| 0 <= j < 65 implies a.en_passant[j] == b.en_passant[j] by {
        assert(a.en_passant[j] == seeded_key((785 + j) as u64));
    }
    assert(a.en_passant =~= b.en_passant);
}

impl Zobrist {
    /// The key of a piece of a color on a square.
    pub open spec fn spec_hash_piece(&self, color: Color, piece: PieceType, sq: int) -> u64 {
        self.pieces[color.spec_idx() as int][piece.spec_idx() as int][sq]
    }

    /// The key of an en passant state (`None` has a key of its own).
    pub open spec fn spec_hash_en_passant(&self, sq: Option<u8>) -> u64 {
        match sq {
            Some(s) => self.en_passant[s as int],
            None => self.en_passant[64],
        }
    }

    /// The standard keys for every piece, square, castling state and en
    /// passant state.
    pub fn new() -> (z: Zobrist)
        ensures
            standard_keys(z),
    {
        let mut pieces = [[[0u64; 64]; 6]; 2];
        let mut c: usize = 0;
        while c < 2
            invariant
                c <= 2,
                forall|c1: int, p: int, s: int| 0 <= c1 < c && 0 <= p < 6 && 0 <= s < 64 ==> #[trigger] pieces[c1][p][s]
                    == seeded_key(piece_seed(c1, p, s)),
            decreases 2 - c,
        {
            let mut per_color = [[0u64; 64]; 6];
            let mut p: usize = 0;
            while p < 6
                invariant
                    c < 2,
                    p <= 6,
                    forall|p1: int, s: int| 0 <= p1 < p && 0 <= s < 64 ==> #[trigger] per_color[p1][s]
                        == seeded_key(piece_seed(c as int, p1, s)),
                decreases 6 - p,
            {
                let base: u64 = (c * 384 + p * 64) as u64;
                let row = key_row(base);
                per_color[p] = row;
                assert forall|p1: int, s: int| 0 <= p1 < p + 1 && 0 <= s < 64 implies #[trigger] per_color[p1][s]
                    == seeded_key(piece_seed(c as int, p1, s)) by {
                    if p1 == p {
                        assert(per_color[p1][s] == row[s]);
                        assert((base + s) as u64 == piece_seed(c as int, p1, s));
                    }
                }
                p = p + 1;
            }
            pieces[c] = per_color;
            c = c + 1;
        }
        let side_to_move = key_for(768);
        let mut castling = [0u64; 16];
        let mut i: usize = 0;
        while i < 16
            invariant
                i <= 16,
                forall|k: int| 0 <= k < i ==> #[trigger] castling[k] == seeded_key((769 + k) as u64),
            decreases 16 - i,
        {
            castling[i] = key_for(769 + i as u64);
            i = i + 1;
        }
        let mut en_passant = [0u64; 65];
        let mut j: usize = 0;
        while j < 65
            invariant
                j <= 65,
                forall|k: int| 0 <= k < j ==> #[trigger] en_passant[k] == seeded_key((785 + k) as u64),
            decreases 65 - j,
        {
            en_passant[j] = key_for(785 + j as u64);
            j = j + 1;
        }
        Zobrist { pieces, side_to_move, castling, en_passant }
    }

    pub fn hash_piece(&self, color: Color, piece: PieceType, sq: u8) -> (h: u64)
        requires
            color != Color::NoColor,
            piece != PieceType::Empty,
            sq < 64,
        ensures
            h == self.spec_hash_piece(color, piece, sq as int),
    {
        self.pieces[color.idx()][piece.idx()][sq as usize]
    }

    pub fn hash_side(&self) -> (h: u64)
        ensures
            h == self.side_to_move,
    {
        self.side_to_move
    }

    pub fn hash_castling(&self, rights: u8) -> (h: u64)
        requires
            rights < 16,
        ensures
            h == self.castling[rights as int],
    {
        self.castling[rights as usize]
    }

    pub fn hash_en_passant(&self, sq: Option<u8>) -> (h: u64)
        requires
            sq matches Some(s) ==> s < 64,
        ensures
            h == self.spec_hash_en_passant(sq),
    {
        match sq {
            Some(s) => self.en_passant[s as usize],
            None => self.en_passant[64],
        }
    }
}

} // verus!
