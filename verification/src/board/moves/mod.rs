//! The 16-bit move encoding.
//!
//! Bits 0-5 hold the origin square, bits 6-11 the target square and
//! bits 12-15 the flags (see [`flags`]).
pub mod flags;

use vstd::prelude::*;
use crate::text::push_char;

verus! {

/// A move packed in 16 bits.
#[derive(Copy, Clone, PartialEq, Eq, Debug, Structural)]
pub struct Move(u16);

/// The packed value of the given fields.
pub open spec fn pack(from: u8, to: u8, flags: u8) -> u16 {
    ((from as u16) | ((to as u16) << 6u16) | ((flags as u16) << 12u16)) as u16
}

/// The file letter of a square (`a` for file 0).
pub open spec fn file_char(sq: int) -> char {
    (97 + sq % 8) as char
}

/// The rank digit of a square (`1` for rank 0).
pub open spec fn rank_char(sq: int) -> char {
    (49 + sq / 8) as char
}

/// The coordinate notation of a square, such as `e4`.
pub open spec fn square_chars(sq: int) -> Seq<char> {
    seq![file_char(sq), rank_char(sq)]
}

/// The promotion suffix of a move with the given flags, if any.
pub open spec fn promotion_suffix(f: u8) -> Seq<char> {
    if f == flags::PROMOTE_KNIGHT || f == flags::PROMOTE_KNIGHT_CAPTURE {
        seq!['n']
    } else if f == flags::PROMOTE_BISHOP || f == flags::PROMOTE_BISHOP_CAPTURE {
        seq!['b']
    } else if f == flags::PROMOTE_ROOK || f == flags::PROMOTE_ROOK_CAPTURE {
        seq!['r']
    } else if f == flags::PROMOTE_QUEEN || f == flags::PROMOTE_QUEEN_CAPTURE {
        seq!['q']
    } else {
        Seq::empty()
    }
}

impl Move {
    /// The packed 16-bit value.
    pub closed spec fn spec_raw(self) -> u16 {
        self.0
    }

    /// The origin square.
    pub open spec fn spec_from(self) -> u8 {
        (self.spec_raw() & 0x3Fu16) as u8
    }

    /// The target square.
    pub open spec fn spec_to(self) -> u8 {
        ((self.spec_raw() >> 6u16) & 0x3Fu16) as u8
    }

    /// The flags.
    pub open spec fn spec_flags(self) -> u8 {
        (self.spec_raw() >> 12u16) as u8
    }

    /// The coordinate notation of a move, such as `e2e4` or `e7e8q`.
    pub open spec fn uci_chars(self) -> Seq<char> {
        square_chars(self.spec_from() as int) + square_chars(self.spec_to() as int)
            + promotion_suffix(self.spec_flags())
    }

    /// Moves are equal when their packed values are.
    pub proof fn lemma_raw_injective(a: Move, b: Move)
        ensures
            a.spec_raw() == b.spec_raw() <==> a == b,
    {
    }

    pub fn new(from: u8, to: u8, flags: u8) -> (m: Move)
        ensures
            m.spec_raw() == pack(from, to, flags),
            from < 64 && to < 64 && flags < 16 ==> m.spec_from() == from && m.spec_to() == to
                && m.spec_flags() == flags,
    {
        proof {
            if from < 64 && to < 64 && flags < 16 {
                lemma_unpack(from, to, flags);
            }
        }
        Move((from as u16) | ((to as u16) << 6) | ((flags as u16) << 12))
    }

    #[verifier::when_used_as_spec(spec_from)]
    pub fn from(self) -> (r: u8)
        ensures
            r == self.spec_from(),
            r < 64,
    {
        let r = (self.0 & 0x3F) as u8;
        proof {
            let x = self.0;
            assert(x & 0x3Fu16 < 64) by (bit_vector);
        }
        r
    }

    #[verifier::when_used_as_spec(spec_to)]
    pub fn to(self) -> (r: u8)
        ensures
            r == self.spec_to(),
            r < 64,
    {
        proof {
            let x = self.0;
            assert((x >> 6u16) & 0x3Fu16 < 64) by (bit_vector);
        }
        ((self.0 >> 6) & 0x3F) as u8
    }

    #[verifier::when_used_as_spec(spec_flags)]
    pub fn flags(self) -> (r: u8)
        ensures
            r == self.spec_flags(),
            r < 16,
    {
        proof {
            let x = self.0;
            assert(x >> 12u16 < 16) by (bit_vector);
        }
        (self.0 >> 12) as u8
    }

    #[verifier::when_used_as_spec(spec_raw)]
    pub fn raw(self) -> (r: u16)
        ensures
            r == self.spec_raw(),
    {
        self.0
    }

    /// The move with a given packed value.
    pub closed spec fn spec_from_raw(raw: u16) -> Move {
        Move(raw)
    }

    /// A move is the move of its packed value, and a packed value is that
    /// of its move.
    pub proof fn lemma_from_raw_raw(m: Move)
        ensures
            Move::spec_from_raw(m.spec_raw()) == m,
            forall|r: u16| #[trigger] Move::spec_from_raw(r).spec_raw() == r,
    {
    }

    pub fn from_raw(raw: u16) -> (m: Move)
        ensures
            m.spec_raw() == raw,
            m == Move::spec_from_raw(raw),
    {
        Move(raw)
    }

    /// The move in coordinate notation, such as `e2e4`, with a promotion
    /// letter appended for promotions (`e7e8q`).
    pub fn to_uci_string(self) -> (s: String)
        ensures
            s@ == self.uci_chars(),
    {
        let from_sq = self.from();
        let to_sq = self.to();
        let mut s = String::new();
        push_char(&mut s, ((from_sq % 8) + 97) as char);
        push_char(&mut s, ((from_sq / 8) + 49) as char);
        push_char(&mut s, ((to_sq % 8) + 97) as char);
        push_char(&mut s, ((to_sq / 8) + 49) as char);
        let f = self.flags();
        if f == flags::PROMOTE_KNIGHT || f == flags::PROMOTE_KNIGHT_CAPTURE {
            push_char(&mut s, 'n');
        } else if f == flags::PROMOTE_BISHOP || f == flags::PROMOTE_BISHOP_CAPTURE {
            push_char(&mut s, 'b');
        } else if f == flags::PROMOTE_ROOK || f == flags::PROMOTE_ROOK_CAPTURE {
            push_char(&mut s, 'r');
        } else if f == flags::PROMOTE_QUEEN || f == flags::PROMOTE_QUEEN_CAPTURE {
            push_char(&mut s, 'q');
        }
        s
    }
}

/// The fields of any move are in range.
pub broadcast proof fn lemma_move_fields_range(m: Move)
    ensures
        #![trigger m.spec_from()]
        #![trigger m.spec_to()]
        #![trigger m.spec_flags()]
        m.spec_from() < 64,
        m.spec_to() < 64,
        m.spec_flags() < 16,
{
    let x = m.spec_raw();
    assert(x & 0x3Fu16 < 64 && (x >> 6u16) & 0x3Fu16 < 64 && x >> 12u16 < 16) by (bit_vector);
}

/// Unpacking the packed fields gives back each field.
pub proof fn lemma_unpack(from: u8, to: u8, flags: u8)
    requires
        from < 64,
        to < 64,
        flags < 16,
    ensures
        (pack(from, to, flags) & 0x3Fu16) as u8 == from,
        ((pack(from, to, flags) >> 6u16) & 0x3Fu16) as u8 == to,
        (pack(from, to, flags) >> 12u16) as u8 == flags,
{
    let f = from as u16;
    let t = to as u16;
    let g = flags as u16;
    assert(f < 64 && t < 64 && g < 16 ==> {
        let p = (f | (t << 6u16) | (g << 12u16));
        &&& p & 0x3Fu16 == f
        &&& (p >> 6u16) & 0x3Fu16 == t
        &&& p >> 12u16 == g
    }) by (bit_vector);
}

/// Packing the fields of a move gives back the move.
pub proof fn lemma_pack_fields(m: Move)
    ensures
        pack(m.spec_from(), m.spec_to(), m.spec_flags()) == m.spec_raw(),
{
    let x = m.spec_raw();
    assert((((x & 0x3Fu16) as u8) as u16 | ((((x >> 6u16) & 0x3Fu16) as u8) as u16) << 6u16 | (((
    x >> 12u16) as u8) as u16) << 12u16) == x) by (bit_vector);
}

/// Law: `Move::new` with in-range fields is inverted by the field getters,
/// and the getters' results rebuild the same move.
pub proof fn law_move_encoding_roundtrip(from: u8, to: u8, flags: u8, m: Move)
    requires
        from < 64,
        to < 64,
        flags < 16,
    ensures
        m.spec_raw() == pack(from, to, flags) ==> m.spec_from() == from && m.spec_to() == to
            && m.spec_flags() == flags,
        pack(m.spec_from(), m.spec_to(), m.spec_flags()) == m.spec_raw(),
{
    lemma_unpack(from, to, flags);
    lemma_pack_fields(m);
}

} // verus!
