//! Reading moves in coordinate notation.
use vstd::prelude::*;
use crate::board::board::Board;
use crate::board::moves::{Move, flags};
use crate::board::piece::PieceType;
use crate::board::make_move::landing_type;
use crate::movegen::{generate_legal_moves, pseudo_buffer, ep_checkable, GenType};
use crate::text::str_chars;

verus! {

/// Whether the promotion letter `c` names the promotion of flags `f`.
pub open spec fn promotion_letter_matches(c: char, f: u8) -> bool {
    if c == 'n' {
        f == flags::PROMOTE_KNIGHT || f == flags::PROMOTE_KNIGHT_CAPTURE
    } else if c == 'b' {
        f == flags::PROMOTE_BISHOP || f == flags::PROMOTE_BISHOP_CAPTURE
    } else if c == 'r' {
        f == flags::PROMOTE_ROOK || f == flags::PROMOTE_ROOK_CAPTURE
    } else if c == 'q' {
        f == flags::PROMOTE_QUEEN || f == flags::PROMOTE_QUEEN_CAPTURE
    } else {
        false
    }
}

/// The square named by a file letter and a rank digit, if on the board.
pub open spec fn square_of(file: char, rank: char) -> Option<int> {
    let f = file as u32 as int - 97;
    let r = rank as u32 as int - 49;
    if f > 7 || r > 7 {
        None
    } else {
        Some(r * 8 + f)
    }
}

/// Law: a five-character move text ending in `n`, `b`, `r` or `q` names
/// only a promotion to a knight, bishop, rook or queen respectively (quiet
/// or capturing), and making it puts a piece of that type on the target
/// square; a four-character text names no promotion. The first two
/// characters name the origin square (file letter from `a`, rank digit
/// from `1`), the next two the target square.
pub proof fn law_promotion_letter(s: Seq<char>, m: Move)
    requires
        s.len() >= 4,
        names_move(s, m),
    ensures
        s.len() == 5 && s[4] == 'n' ==> (m.spec_flags() == 0x8 || m.spec_flags() == 0xC)
            && landing_type(m.spec_flags(), PieceType::Pawn) == PieceType::Knight,
        s.len() == 5 && s[4] == 'b' ==> (m.spec_flags() == 0x9 || m.spec_flags() == 0xD)
            && landing_type(m.spec_flags(), PieceType::Pawn) == PieceType::Bishop,
        s.len() == 5 && s[4] == 'r' ==> (m.spec_flags() == 0xA || m.spec_flags() == 0xE)
            && landing_type(m.spec_flags(), PieceType::Pawn) == PieceType::Rook,
        s.len() == 5 && s[4] == 'q' ==> (m.spec_flags() == 0xB || m.spec_flags() == 0xF)
            && landing_type(m.spec_flags(), PieceType::Pawn) == PieceType::Queen,
        s.len() == 5 ==> (s[4] == 'n' || s[4] == 'b' || s[4] == 'r' || s[4] == 'q'),
        s.len() != 5 ==> m.spec_flags() < 8 && landing_type(m.spec_flags(), PieceType::Pawn) == PieceType::Pawn,
        m.spec_from() == (s[1] as u32 as int - 49) * 8 + (s[0] as u32 as int - 97),
        m.spec_to() == (s[3] as u32 as int - 49) * 8 + (s[2] as u32 as int - 97),
{
}

/// Whether `m` is the move the text `s` names: its origin and target
/// squares, and with five characters the promotion piece, otherwise no
/// promotion.
pub open spec fn names_move(s: Seq<char>, m: Move) -> bool {
    &&& square_of(s[0], s[1]) == Some(m.spec_from() as int)
    &&& square_of(s[2], s[3]) == Some(m.spec_to() as int)
    &&& if s.len() == 5 {
        promotion_letter_matches(s[4], m.spec_flags())
    } else {
        m.spec_flags() < 8
    }
}

/// The text can be read: ASCII, and at least four characters whose file
/// letters are not before `a` and whose rank digits are not before `1`.
pub open spec fn move_text_in_range(s: Seq<char>) -> bool {
    &&& forall|i: int| 0 <= i < s.len() ==> (#[trigger] s[i] as u32) < 128
    &&& s.len() >= 4 ==> (s[0] as u32) >= 97 && (s[1] as u32) >= 49 && (s[2] as u32) >= 97 && (s[3] as u32) >= 49
}

impl Board {
    /// Reads a move in coordinate notation, such as `e2e4` or `e7e8q`: the
    /// first legal move, in generation order, that the text names; `None`
    /// when the text is shorter than four characters, names a square off
    /// the board, or names no legal move.
    pub fn parse_move(&self, input: &str) -> (r: Option<Move>)
        requires
            self.wf(),
            ep_checkable(*self),
            move_text_in_range(input@),
        ensures
            input@.len() < 4 ==> r is None,
            input@.len() >= 4 ==> exists|ps: Seq<Move>| #[trigger] pseudo_buffer(*self, GenType::All, ps) && {
                let ls = ps.filter(|m: Move| self.legal(m));
                &&& r is None <==> forall|i: int| 0 <= i < ls.len() ==> !names_move(input@, #[trigger] ls[i])
                &&& r matches Some(m) ==> exists|i: int| 0 <= i < ls.len() && ls[i] == m && names_move(input@, m)
                    && forall|j: int| 0 <= j < i ==> !names_move(input@, #[trigger] ls[j])
            },
            r matches Some(m) ==> (input@.len() == 5 && input@[4] == 'n' ==> (m.spec_flags() == flags::PROMOTE_KNIGHT
                || m.spec_flags() == flags::PROMOTE_KNIGHT_CAPTURE)),
            r matches Some(m) ==> (input@.len() == 5 && input@[4] == 'b' ==> (m.spec_flags() == flags::PROMOTE_BISHOP
                || m.spec_flags() == flags::PROMOTE_BISHOP_CAPTURE)),
            r matches Some(m) ==> (input@.len() == 5 && input@[4] == 'r' ==> (m.spec_flags() == flags::PROMOTE_ROOK
                || m.spec_flags() == flags::PROMOTE_ROOK_CAPTURE)),
            r matches Some(m) ==> (input@.len() == 5 && input@[4] == 'q' ==> (m.spec_flags() == flags::PROMOTE_QUEEN
                || m.spec_flags() == flags::PROMOTE_QUEEN_CAPTURE)),
            r matches Some(m) ==> (input@.len() != 5 ==> m.spec_flags() < 8),
    {
        let cs = str_chars(input);
        if cs.len() < 4 {
            return None;
        }
        let from_col = (cs[0] as u32) - 97;
        let from_row = (cs[1] as u32) - 49;
        let to_col = (cs[2] as u32) - 97;
        let to_row = (cs[3] as u32) - 49;
        let legal_moves = generate_legal_moves(self);
        let ghost ps = choose|ps: Seq<Move>| #[trigger] pseudo_buffer(*self, GenType::All, ps)
            && legal_moves@ == ps.filter(|m: Move| self.legal(m));
        let ghost ls = legal_moves@;
        if from_col > 7 || from_row > 7 || to_col > 7 || to_row > 7 {
            assert forall|i: int| 0 <= i < ls.len() implies !names_move(input@, #[trigger] ls[i]) by {}
            return None;
        }
        let from = (from_row * 8 + from_col) as u8;
        let to = (to_row * 8 + to_col) as u8;
        let n = legal_moves.len();
        let mut i: usize = 0;
        while i < n
            invariant
                cs@ == input@,
                cs@.len() >= 4,
                ls == legal_moves@,
                pseudo_buffer(*self, GenType::All, ps),
                ls == ps.filter(|m: Move| self.legal(m)),
                n == ls.len(),
                i <= n,
                square_of(cs@[0], cs@[1]) == Some(from as int),
                square_of(cs@[2], cs@[3]) == Some(to as int),
                forall|j: int| 0 <= j < i ==> !names_move(input@, #[trigger] ls[j]),
            decreases n - i,
        {
            let m = legal_moves.get(i);
            if m.from() == from && m.to() == to {
                if cs.len() == 5 {
                    let promo = cs[4];
                    let f = m.flags();
                    let is_promo = if promo == 'n' {
                        f == flags::PROMOTE_KNIGHT || f == flags::PROMOTE_KNIGHT_CAPTURE
                    } else if promo == 'b' {
                        f == flags::PROMOTE_BISHOP || f == flags::PROMOTE_BISHOP_CAPTURE
                    } else if promo == 'r' {
                        f == flags::PROMOTE_ROOK || f == flags::PROMOTE_ROOK_CAPTURE
                    } else if promo == 'q' {
                        f == flags::PROMOTE_QUEEN || f == flags::PROMOTE_QUEEN_CAPTURE
                    } else {
                        false
                    };
                    if is_promo {
                        assert(names_move(input@, ls[i as int]));
                        proof {
                            law_promotion_letter(input@, m);
                        }
                        return Some(m);
                    }
                } else {
                    if m.flags() < 8 {
                        assert(names_move(input@, ls[i as int]));
                        return Some(m);
                    }
                }
            }
            i = i + 1;
        }
        None
    }
}

/// Whether a move text can be read (see [`move_text_in_range`]).
pub fn move_text_readable(input: &str) -> (r: bool)
    ensures
        r == move_text_in_range(input@),
{
    let cs = str_chars(input);
    let mut i: usize = 0;
    while i < cs.len()
        invariant
            i <= cs.len(),
            cs@ == input@,
            forall|j: int| 0 <= j < i ==> (#[trigger] cs@[j] as u32) < 128,
        decreases cs.len() - i,
    {
        if (cs[i] as u32) >= 128 {
            return false;
        }
        i = i + 1;
    }
    if cs.len() >= 4 {
        (cs[0] as u32) >= 97 && (cs[1] as u32) >= 49 && (cs[2] as u32) >= 97 && (cs[3] as u32) >= 49
    } else {
        true
    }
}

} // verus!
