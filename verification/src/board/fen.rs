//! Forsyth-Edwards Notation: reading and writing positions.
use vstd::prelude::*;
use crate::board::board::Board;
use crate::board::castling;
use crate::board::piece::{Color, PieceType};
use crate::board::zobrist::Zobrist;
use crate::text::{is_digit, digit_value, split_ws, split_whitespace, parse_u16, parse_u16_spec, push_char, push_decimal, decimal};

verus! {

/// How far reading the placement field got.
pub enum PlaceStatus {
    /// Still reading.
    Reading,
    /// A character that is not part of a placement, or two pieces on one square.
    Refused,
    /// A rank or file count out of range: the field cannot be read.
    Fault,
}

/// The state of reading the placement field: the current rank and file
/// and the squares filled so far.
pub struct PlaceState {
    pub row: int,
    pub col: int,
    pub pieces: Seq<PieceType>,
    pub colors: Seq<Color>,
    pub status: PlaceStatus,
}

/// The piece type a placement letter stands for, either case.
pub open spec fn piece_of_char(c: char) -> Option<PieceType> {
    if c == 'p' || c == 'P' {
        Some(PieceType::Pawn)
    } else if c == 'n' || c == 'N' {
        Some(PieceType::Knight)
    } else if c == 'b' || c == 'B' {
        Some(PieceType::Bishop)
    } else if c == 'r' || c == 'R' {
        Some(PieceType::Rook)
    } else if c == 'q' || c == 'Q' {
        Some(PieceType::Queen)
    } else if c == 'k' || c == 'K' {
        Some(PieceType::King)
    } else {
        None
    }
}

/// The color of a placement letter: upper case for white.
pub open spec fn color_of_char(c: char) -> Color {
    if 'A' <= c && c <= 'Z' {
        Color::White
    } else {
        Color::Black
    }
}

/// The state before the first placement character: the eighth rank, the
/// a-file, an empty board.
pub open spec fn place_start() -> PlaceState {
    PlaceState {
        row: 7,
        col: 0,
        pieces: Seq::new(64, |i: int| PieceType::Empty),
        colors: Seq::new(64, |i: int| Color::NoColor),
        status: PlaceStatus::Reading,
    }
}

/// Reads one placement character: `/` goes down a rank to the a-file, a
/// digit skips that many files, a piece letter puts a piece and moves one
/// file on. The counters are bytes, so a rank below the first or a count
/// beyond 255 is a fault, as is a piece put beyond the last square.
pub open spec fn place_step(st: PlaceState, c: char) -> PlaceState {
    if !(st.status is Reading) {
        st
    } else if c == '/' {
        if st.row == 0 {
            PlaceState { status: PlaceStatus::Fault, ..st }
        } else {
            PlaceState { row: st.row - 1, col: 0, ..st }
        }
    } else if is_digit(c) {
        if st.col + digit_value(c) > 255 {
            PlaceState { status: PlaceStatus::Fault, ..st }
        } else {
            PlaceState { col: st.col + digit_value(c), ..st }
        }
    } else if st.row * 8 + st.col > 255 {
        PlaceState { status: PlaceStatus::Fault, ..st }
    } else {
        match piece_of_char(c) {
            None => PlaceState { status: PlaceStatus::Refused, ..st },
            Some(pt) => {
                let sq = st.row * 8 + st.col;
                if sq >= 64 {
                    PlaceState { status: PlaceStatus::Fault, ..st }
                } else if st.pieces[sq] != PieceType::Empty {
                    PlaceState { status: PlaceStatus::Refused, ..st }
                } else {
                    PlaceState {
                        col: st.col + 1,
                        pieces: st.pieces.update(sq, pt),
                        colors: st.colors.update(sq, color_of_char(c)),
                        ..st
                    }
                }
            },
        }
    }
}

/// The state after reading the placement characters `cs`.
pub open spec fn place_scan(cs: Seq<char>) -> PlaceState
    decreases cs.len(),
{
    if cs.len() == 0 {
        place_start()
    } else {
        place_step(place_scan(cs.drop_last()), cs.last())
    }
}

/// Once reading stops, further characters change nothing.
pub proof fn lemma_place_scan_stops(cs: Seq<char>, i: int)
    requires
        0 <= i <= cs.len(),
        !(place_scan(cs.take(i)).status is Reading),
    ensures
        place_scan(cs) == place_scan(cs.take(i)),
    decreases cs.len() - i,
{
    if i < cs.len() {
        assert(cs.take(i + 1).drop_last() =~= cs.take(i));
        lemma_place_scan_stops(cs, i + 1);
    } else {
        assert(cs.take(i) =~= cs);
    }
}

/// The castling rights a castling field grants, or `None` for a letter
/// other than `K`, `Q`, `k`, `q`.
pub open spec fn castling_scan(cs: Seq<char>) -> Option<u8>
    decreases cs.len(),
{
    if cs.len() == 0 {
        Some(0)
    } else {
        match castling_scan(cs.drop_last()) {
            None => None,
            Some(r) => {
                let c = cs.last();
                if c == 'K' {
                    Some(r | castling::WHITE_KING)
                } else if c == 'Q' {
                    Some(r | castling::WHITE_QUEEN)
                } else if c == 'k' {
                    Some(r | castling::BLACK_KING)
                } else if c == 'q' {
                    Some(r | castling::BLACK_QUEEN)
                } else {
                    None
                }
            },
        }
    }
}

/// A position read from FEN.
pub struct FenData {
    pub pieces: Seq<PieceType>,
    pub colors: Seq<Color>,
    pub side: Color,
    pub castling: u8,
    pub en_passant: Option<u8>,
    pub halfmove: u16,
    pub fullmove: u16,
}

/// What reading a FEN string gives.
pub enum FenOutcome {
    Parsed(FenData),
    /// The string is not a position.
    Refused,
    /// A field's counts are out of the range the reader can compute with.
    Fault,
}

/// The number of bytes of a character in UTF-8.
pub open spec fn utf8_width(c: char) -> int {
    let u = c as u32;
    if u < 0x80 {
        1
    } else if u < 0x800 {
        2
    } else if u < 0x10000 {
        3
    } else {
        4
    }
}

/// The number of bytes of a text in UTF-8.
pub open spec fn utf8_len(f: Seq<char>) -> int
    decreases f.len(),
{
    if f.len() == 0 {
        0
    } else {
        utf8_len(f.drop_last()) + utf8_width(f.last())
    }
}

/// Reading the en passant field `f` (not `-`): two bytes, a file letter
/// and a rank digit, naming a square of the board. A field of another
/// length in bytes is no position; two bytes that are not both ASCII
/// (one character of two bytes), letters before `a`, digits before `1`
/// or a square number beyond 255 are faults; a square beyond the board is
/// one too.
pub open spec fn en_passant_field(f: Seq<char>) -> FenOutcome {
    if utf8_len(f) != 2 {
        FenOutcome::Refused
    } else if exists|i: int| 0 <= i < f.len() && #[trigger] (f[i] as u32) >= 128 {
        FenOutcome::Fault
    } else {
        let col = f[0] as u32 as int - 97;
        let row = f[1] as u32 as int - 49;
        if col < 0 || row < 0 || row * 8 > 255 || row * 8 + col >= 64 {
            FenOutcome::Fault
        } else {
            FenOutcome::Parsed(
                FenData {
                    pieces: Seq::empty(),
                    colors: Seq::empty(),
                    side: Color::NoColor,
                    castling: 0,
                    en_passant: Some((row * 8 + col) as u8),
                    halfmove: 0,
                    fullmove: 0,
                },
            )
        }
    }
}

/// The byte count of a prefix grows by the width of the next character.
proof fn lemma_utf8_len_prefix(f: Seq<char>, k: int)
    requires
        0 <= k <= f.len(),
    ensures
        utf8_len(f.take(k)) <= utf8_len(f),
        k < f.len() ==> utf8_len(f.take(k + 1)) == utf8_len(f.take(k)) + utf8_width(f[k]),
    decreases f.len() - k,
{
    if k < f.len() {
        assert(f.take(k + 1).drop_last() =~= f.take(k));
        lemma_utf8_len_prefix(f, k + 1);
    } else {
        assert(f.take(k) =~= f);
    }
}

/// An ASCII text has as many bytes as characters.
pub proof fn lemma_utf8_len_ascii(f: Seq<char>)
    requires
        forall|i: int| 0 <= i < f.len() ==> (#[trigger] f[i] as u32) < 128,
    ensures
        utf8_len(f) == f.len(),
    decreases f.len(),
{
    if f.len() > 0 {
        assert forall|i: int| 0 <= i < f.drop_last().len() implies (#[trigger] f.drop_last()[i] as u32) < 128 by {
            assert(f.drop_last()[i] == f[i]);
        }
        lemma_utf8_len_ascii(f.drop_last());
        assert((f.last() as u32) < 128) by {
            assert(f.last() == f[f.len() - 1]);
        }
    }
}

/// Whether a text has two bytes in UTF-8.
fn two_bytes(p: &Vec<char>) -> (r: bool)
    ensures
        r == (utf8_len(p@) == 2),
{
    let mut n: usize = 0;
    let mut k: usize = 0;
    assert(p@.take(0) =~= Seq::<char>::empty());
    while k < p.len()
        invariant
            k <= p@.len(),
            n as int == utf8_len(p@.take(k as int)),
            n <= 2,
        decreases p@.len() - k,
    {
        let u = p[k] as u32;
        let w: usize = if u < 0x80 {
            1
        } else if u < 0x800 {
            2
        } else if u < 0x10000 {
            3
        } else {
            4
        };
        proof {
            lemma_utf8_len_prefix(p@, k as int);
        }
        if n + w > 2 {
            proof {
                lemma_utf8_len_prefix(p@, k as int + 1);
            }
            return false;
        }
        n = n + w;
        k = k + 1;
    }
    assert(p@.take(k as int) =~= p@);
    n == 2
}

/// Reading a FEN string: the white-space separated fields placement, side
/// to move, castling rights, en passant square, half-move clock and move
/// number; all but the placement may be left out (white to move, no
/// rights, no en passant square, clocks 0 and 1), and further fields are
/// ignored.
pub open spec fn fen_outcome(s: Seq<char>) -> FenOutcome {
    let parts = split_ws(s);
    if parts.len() == 0 {
        FenOutcome::Refused
    } else {
        let st = place_scan(parts[0]);
        if st.status is Fault {
            FenOutcome::Fault
        } else if st.status is Refused {
            FenOutcome::Refused
        } else {
            let side_ok = parts.len() <= 1 || parts[1] == seq!['w'] || parts[1] == seq!['b'];
            let side = if parts.len() > 1 && parts[1] == seq!['b'] { Color::Black } else { Color::White };
            let cr = if parts.len() > 2 && parts[2] != seq!['-'] { castling_scan(parts[2]) } else { Some(0u8) };
            let ep = if parts.len() > 3 && parts[3] != seq!['-'] {
                en_passant_field(parts[3])
            } else {
                FenOutcome::Parsed(
                    FenData {
                        pieces: Seq::empty(),
                        colors: Seq::empty(),
                        side: Color::NoColor,
                        castling: 0,
                        en_passant: None,
                        halfmove: 0,
                        fullmove: 0,
                    },
                )
            };
            let half = if parts.len() > 4 { parse_u16_spec(parts[4]) } else { Some(0u16) };
            let full = if parts.len() > 5 { parse_u16_spec(parts[5]) } else { Some(1u16) };
            if !side_ok || cr is None {
                FenOutcome::Refused
            } else if ep is Fault {
                FenOutcome::Fault
            } else if ep is Refused || half is None || full is None {
                FenOutcome::Refused
            } else {
                FenOutcome::Parsed(
                    FenData {
                        pieces: st.pieces,
                        colors: st.colors,
                        side,
                        castling: cr->0,
                        en_passant: ep->Parsed_0.en_passant,
                        halfmove: half->0,
                        fullmove: full->0,
                    },
                )
            }
        }
    }
}

/// `b` holds the position `d`, with a fresh history and hash.
pub open spec fn holds_position(b: Board, d: FenData) -> bool {
    &&& b.wf()
    &&& b.pieces@ == d.pieces
    &&& b.colors@ == d.colors
    &&& b.side_to_move == d.side
    &&& b.castling_rights == d.castling
    &&& b.en_passant_square == d.en_passant
    &&& b.halfmove_clock == d.halfmove
    &&& b.fullmove_number == d.fullmove
    &&& b.last_move.is_none()
    &&& b.history@.len() == 0
    &&& b.hash == b.hash_spec()
    &&& b.pawn_hash == b.pawns_hash()
}

proof fn lemma_rights_bits(r: u8)
    requires
        r < 16,
    ensures
        (r | castling::WHITE_KING) < 16,
        (r | castling::WHITE_QUEEN) < 16,
        (r | castling::BLACK_KING) < 16,
        (r | castling::BLACK_QUEEN) < 16,
{
    assert((r | 1u8) < 16 && (r | 2u8) < 16 && (r | 4u8) < 16 && (r | 8u8) < 16) by (bit_vector)
        requires
            r < 16,
    ;
}

impl Board {
    /// Reads a position in Forsyth-Edwards Notation, such as
    /// `rnbqkbnr/pppppppp/8/8/4P3/8/PPPP1PPP/RNBQKBNR b KQkq e3 0 1`.
    /// Gives `None` for a string that is not a position, and also for a
    /// placement that puts two pieces on one square. The board hashes with
    /// the standard keys.
    pub fn from_fen(fen: &str) -> (r: Option<Board>)
        requires
            !(fen_outcome(fen@) is Fault),
        ensures
            r is None <==> fen_outcome(fen@) is Refused,
            r matches Some(b) ==> (fen_outcome(fen@) matches FenOutcome::Parsed(d) && holds_position(b, d)),
            r matches Some(b) ==> crate::board::zobrist::standard_keys(b.keys),
    {
        Board::from_fen_keyed(fen, Zobrist::new())
    }

    /// Reads a position as [`Board::from_fen`] does, the board hashing with
    /// the given keys (so that it hashes as the other boards made with them).
    pub fn from_fen_keyed(fen: &str, keys: Zobrist) -> (r: Option<Board>)
        requires
            !(fen_outcome(fen@) is Fault),
        ensures
            r is None <==> fen_outcome(fen@) is Refused,
            r matches Some(b) ==> (fen_outcome(fen@) matches FenOutcome::Parsed(d) && holds_position(b, d)),
            r matches Some(b) ==> b.keys == keys,
    {
        let parts = split_whitespace(fen);
        if parts.len() == 0 {
            return None;
        }
        let ghost ps = split_ws(fen@);
        let mut board = Board::empty(keys);
        let field = &parts[0];
        assert(field@ == ps[0]);
        let mut row: u8 = 7;
        let mut col: u8 = 0;
        let mut i: usize = 0;
        assert(board.pieces@ =~= place_start().pieces);
        assert forall|q: int| 0 <= q < 64 implies #[trigger] board.colors[q] == Color::NoColor by {
            assert(board.pieces[q] == PieceType::Empty);
        }
        assert(board.colors@ =~= place_start().colors);
        assert(field@.take(0) =~= Seq::<char>::empty());
        while i < field.len()
            invariant
                board.wf(),
                field@ == ps[0],
                ps == split_ws(fen@),
                ps.len() > 0,
                !(fen_outcome(fen@) is Fault),
                i <= field.len(),
                place_scan(field@.take(i as int)).status is Reading,
                place_scan(field@.take(i as int)).row == row as int,
                place_scan(field@.take(i as int)).col == col as int,
                place_scan(field@.take(i as int)).pieces == board.pieces@,
                place_scan(field@.take(i as int)).colors == board.colors@,
                board.side_to_move == Color::White,
                board.castling_rights == 0,
                board.en_passant_square.is_none(),
                board.halfmove_clock == 0,
                board.fullmove_number == 1,
                board.last_move.is_none(),
                board.history@.len() == 0,
                board.keys == keys,
                board.pawn_hash == board.pawns_hash(),
            decreases field.len() - i,
        {
            let c = field[i];
            let ghost st = place_scan(field@.take(i as int));
            assert(field@.take(i + 1).drop_last() =~= field@.take(i as int));
            assert(field@.take(i + 1).last() == c);
            let ghost next = place_scan(field@.take(i + 1));
            assert(next == place_step(st, c));
            proof {
                if !(next.status is Reading) {
                    lemma_place_scan_stops(field@, i + 1);
                }
            }
            if c == '/' {
                row = row - 1;
                col = 0;
            } else if c >= '0' && c <= '9' {
                let d = ((c as u32) - 48) as u8;
                assert(d as int == digit_value(c));
                col = col + d;
            } else {
                let sq: u8 = row * 8 + col;
                let pt = if c == 'p' || c == 'P' {
                    PieceType::Pawn
                } else if c == 'n' || c == 'N' {
                    PieceType::Knight
                } else if c == 'b' || c == 'B' {
                    PieceType::Bishop
                } else if c == 'r' || c == 'R' {
                    PieceType::Rook
                } else if c == 'q' || c == 'Q' {
                    PieceType::Queen
                } else if c == 'k' || c == 'K' {
                    PieceType::King
                } else {
                    return None;
                };
                let color = if c >= 'A' && c <= 'Z' { Color::White } else { Color::Black };
                if board.pieces[sq as usize] != PieceType::Empty {
                    return None;
                }
                board.put_piece(sq, pt, color);
                col = col + 1;
            }
            i = i + 1;
        }
        assert(field@.take(field.len() as int) =~= field@);
        let ghost st = place_scan(ps[0]);
        // Side to move.
        if parts.len() > 1 {
            let p1 = &parts[1];
            assert(p1@ == ps[1]);
            let ghost before = board;
            if p1.len() == 1 && p1[0] == 'w' {
                assert(p1@ =~= seq!['w']);
                board.side_to_move = Color::White;
            } else if p1.len() == 1 && p1[0] == 'b' {
                assert(p1@ =~= seq!['b']);
                board.side_to_move = Color::Black;
            } else {
                assert(p1@ != seq!['w']) by {
                    if p1@ == seq!['w'] {
                        assert(p1@.len() == 1 && p1@[0] == 'w');
                    }
                }
                assert(p1@ != seq!['b']) by {
                    if p1@ == seq!['b'] {
                        assert(p1@.len() == 1 && p1@[0] == 'b');
                    }
                }
                return None;
            }
            proof {
                Board::lemma_wf_transfer(before, board);
            }
        }
        // Castling rights.
        if parts.len() > 2 {
            let p2 = &parts[2];
            assert(p2@ == ps[2]);
            if p2.len() == 1 && p2[0] == '-' {
                assert(p2@ =~= seq!['-']);
            } else {
                assert(p2@ != seq!['-']) by {
                    if p2@ == seq!['-'] {
                        assert(p2@.len() == 1 && p2@[0] == '-');
                    }
                }
                let mut cr: u8 = 0;
                let mut j: usize = 0;
                assert(p2@.take(0) =~= Seq::<char>::empty());
                while j < p2.len()
                    invariant
                        ps == split_ws(fen@),
                        ps.len() > 2,
                        p2@ == ps[2],
                        p2@ != seq!['-'],
                        place_scan(ps[0]).status is Reading,
                        ps.len() <= 1 || ps[1] == seq!['w'] || ps[1] == seq!['b'],
                        j <= p2.len(),
                        castling_scan(p2@.take(j as int)) == Some(cr),
                        cr < 16,
                    decreases p2.len() - j,
                {
                    let c = p2[j];
                    assert(p2@.take(j + 1).drop_last() =~= p2@.take(j as int));
                    proof {
                        lemma_rights_bits(cr);
                    }
                    if c == 'K' {
                        cr = cr | castling::WHITE_KING;
                    } else if c == 'Q' {
                        cr = cr | castling::WHITE_QUEEN;
                    } else if c == 'k' {
                        cr = cr | castling::BLACK_KING;
                    } else if c == 'q' {
                        cr = cr | castling::BLACK_QUEEN;
                    } else {
                        proof {
                            lemma_castling_scan_none(p2@, j as int + 1);
                        }
                        return None;
                    }
                    j = j + 1;
                }
                assert(p2@.take(p2.len() as int) =~= p2@);
                let ghost before = board;
                board.castling_rights = cr;
                proof {
                    Board::lemma_wf_transfer(before, board);
                }
            }
        }
        // En passant square.
        if parts.len() > 3 {
            let p3 = &parts[3];
            assert(p3@ == ps[3]);
            if p3.len() == 1 && p3[0] == '-' {
                assert(p3@ =~= seq!['-']);
            } else {
                assert(p3@ != seq!['-']) by {
                    if p3@ == seq!['-'] {
                        assert(p3@.len() == 1 && p3@[0] == '-');
                    }
                }
                if !two_bytes(p3) {
                    return None;
                }
                proof {
                    assert(!(en_passant_field(p3@) is Fault));
                    lemma_utf8_len_ascii(p3@);
                }
                let f0 = p3[0];
                let f1 = p3[1];
                let c0 = (f0 as u32) - 97;
                let r0 = (f1 as u32) - 49;
                let ghost before = board;
                board.en_passant_square = Some((r0 * 8 + c0) as u8);
                proof {
                    Board::lemma_wf_transfer(before, board);
                }
            }
        }
        // Half-move clock and move number.
        if parts.len() > 4 {
            match parse_u16(&parts[4]) {
                Some(v) => {
                    let ghost before = board;
                    board.halfmove_clock = v;
                    proof {
                        Board::lemma_wf_transfer(before, board);
                    }
                },
                None => {
                    return None;
                },
            }
        }
        if parts.len() > 5 {
            match parse_u16(&parts[5]) {
                Some(v) => {
                    let ghost before = board;
                    board.fullmove_number = v;
                    proof {
                        Board::lemma_wf_transfer(before, board);
                    }
                },
                None => {
                    return None;
                },
            }
        }
        board.update_occupancy();
        let ghost before = board;
        board.hash = board.compute_hash();
        proof {
            Board::lemma_wf_transfer(before, board);
        }
        Some(board)
    }
}

/// Once a castling field holds a wrong letter, no more letters help.
proof fn lemma_castling_scan_none(cs: Seq<char>, i: int)
    requires
        0 <= i <= cs.len(),
        castling_scan(cs.take(i)) is None,
    ensures
        castling_scan(cs) is None,
    decreases cs.len() - i,
{
    if i < cs.len() {
        assert(cs.take(i + 1).drop_last() =~= cs.take(i));
        lemma_castling_scan_none(cs, i + 1);
    } else {
        assert(cs.take(i) =~= cs);
    }
}

/// Whether the counts in a FEN string stay in the range `Board::from_fen`
/// computes with (its precondition): the placement never goes below the
/// first rank, past file count 255 or past the last square, and the en
/// passant field, when it is read, is ASCII naming a square of the board.
pub fn fen_in_range(fen: &str) -> (r: bool)
    ensures
        r == !(fen_outcome(fen@) is Fault),
{
    let parts = split_whitespace(fen);
    if parts.len() == 0 {
        return true;
    }
    let ghost ps = split_ws(fen@);
    let field = &parts[0];
    assert(field@ == ps[0]);
    let mut row: u8 = 7;
    let mut col: u8 = 0;
    let mut filled: [bool; 64] = [false; 64];
    let mut i: usize = 0;
    assert(field@.take(0) =~= Seq::<char>::empty());
    while i < field.len()
        invariant
            field@ == ps[0],
            ps == split_ws(fen@),
            ps.len() > 0,
            i <= field.len(),
            place_scan(field@.take(i as int)).status is Reading,
            place_scan(field@.take(i as int)).row == row as int,
            place_scan(field@.take(i as int)).col == col as int,
            place_scan(field@.take(i as int)).pieces.len() == 64,
            forall|q: int| 0 <= q < 64 ==> (#[trigger] filled[q] <==> place_scan(field@.take(i as int)).pieces[q]
                != PieceType::Empty),
        decreases field.len() - i,
    {
        let c = field[i];
        let ghost st = place_scan(field@.take(i as int));
        assert(field@.take(i + 1).drop_last() =~= field@.take(i as int));
        assert(field@.take(i + 1).last() == c);
        let ghost next = place_scan(field@.take(i + 1));
        assert(next == place_step(st, c));
        proof {
            if !(next.status is Reading) {
                lemma_place_scan_stops(field@, i + 1);
            }
        }
        if c == '/' {
            if row == 0 {
                return false;
            }
            row = row - 1;
            col = 0;
        } else if c >= '0' && c <= '9' {
            let d = ((c as u32) - 48) as u8;
            assert(d as int == digit_value(c));
            if col as u32 + d as u32 > 255 {
                return false;
            }
            col = col + d;
        } else {
            if row as u32 * 8 + col as u32 > 255 {
                return false;
            }
            let is_piece = c == 'p' || c == 'P' || c == 'n' || c == 'N' || c == 'b' || c == 'B' || c == 'r'
                || c == 'R' || c == 'q' || c == 'Q' || c == 'k' || c == 'K';
            if !is_piece {
                return true;
            }
            let sq: u8 = row * 8 + col;
            if sq >= 64 {
                return false;
            }
            if filled[sq as usize] {
                return true;
            }
            filled[sq as usize] = true;
            col = col + 1;
        }
        i = i + 1;
    }
    assert(field@.take(field.len() as int) =~= field@);
    // The en passant field is only read when the side and castling fields
    // are well formed.
    if parts.len() > 1 {
        let p1 = &parts[1];
        assert(p1@ == ps[1]);
        if !((p1.len() == 1 && p1[0] == 'w') || (p1.len() == 1 && p1[0] == 'b')) {
            assert(p1@ != seq!['w'] && p1@ != seq!['b']) by {
                if p1@ == seq!['w'] || p1@ == seq!['b'] {
                    assert(p1@.len() == 1);
                }
            }
            return true;
        }
        assert(p1@ =~= seq!['w'] || p1@ =~= seq!['b']);
    }
    if parts.len() > 2 {
        let p2 = &parts[2];
        assert(p2@ == ps[2]);
        if !(p2.len() == 1 && p2[0] == '-') {
            assert(p2@ != seq!['-']) by {
                if p2@ == seq!['-'] {
                    assert(p2@.len() == 1);
                }
            }
            let mut j: usize = 0;
            let ghost cr: u8 = 0;
            assert(p2@.take(0) =~= Seq::<char>::empty());
            while j < p2.len()
                invariant
                    ps == split_ws(fen@),
                    ps.len() > 2,
                    p2@ == ps[2],
                    p2@ != seq!['-'],
                    place_scan(ps[0]).status is Reading,
                    ps.len() <= 1 || ps[1] == seq!['w'] || ps[1] == seq!['b'],
                    j <= p2.len(),
                    castling_scan(p2@.take(j as int)) is Some,
                decreases p2.len() - j,
            {
                let c = p2[j];
                assert(p2@.take(j + 1).drop_last() =~= p2@.take(j as int));
                if !(c == 'K' || c == 'Q' || c == 'k' || c == 'q') {
                    proof {
                        lemma_castling_scan_none(p2@, j as int + 1);
                    }
                    return true;
                }
                j = j + 1;
            }
            assert(p2@.take(p2.len() as int) =~= p2@);
        } else {
            assert(p2@ =~= seq!['-']);
        }
    }
    if parts.len() > 3 {
        let p3 = &parts[3];
        assert(p3@ == ps[3]);
        if p3.len() == 1 && p3[0] == '-' {
            assert(p3@ =~= seq!['-']);
            return true;
        }
        assert(p3@ != seq!['-']) by {
            if p3@ == seq!['-'] {
                assert(p3@.len() == 1);
            }
        }
        let ghost cr_ok = ps.len() <= 2 || ps[2] == seq!['-'] || castling_scan(ps[2]) is Some;
        if !two_bytes(p3) {
            return true;
        }
        let mut k: usize = 0;
        while k < p3.len()
            invariant
                ps == split_ws(fen@),
                ps.len() > 3,
                p3@ == ps[3],
                p3@ != seq!['-'],
                place_scan(ps[0]).status is Reading,
                ps.len() <= 1 || ps[1] == seq!['w'] || ps[1] == seq!['b'],
                ps.len() <= 2 || ps[2] == seq!['-'] || castling_scan(ps[2]) is Some,
                k <= p3.len(),
                forall|q: int| 0 <= q < k ==> (#[trigger] p3@[q] as u32) < 128,
                utf8_len(p3@) == 2,
            decreases p3.len() - k,
        {
            if (p3[k] as u32) >= 128 {
                return false;
            }
            k = k + 1;
        }
        proof {
            lemma_utf8_len_ascii(p3@);
        }
        let f0 = p3[0] as u32;
        let f1 = p3[1] as u32;
        if f0 < 97 || f1 < 49 {
            return false;
        }
        let c0 = f0 - 97;
        let r0 = f1 - 49;
        if r0 * 8 > 255 || r0 * 8 + c0 >= 64 {
            return false;
        }
    }
    true
}

/// The FEN letter of a piece type, in lower case.
pub open spec fn piece_letter(pt: PieceType) -> char {
    match pt {
        PieceType::Pawn => 'p',
        PieceType::Knight => 'n',
        PieceType::Bishop => 'b',
        PieceType::Rook => 'r',
        PieceType::Queen => 'q',
        PieceType::King => 'k',
        PieceType::Empty => '.',
    }
}

/// The FEN letter of a piece type, in upper case.
pub open spec fn piece_letter_upper(pt: PieceType) -> char {
    match pt {
        PieceType::Pawn => 'P',
        PieceType::Knight => 'N',
        PieceType::Bishop => 'B',
        PieceType::Rook => 'R',
        PieceType::Queen => 'Q',
        PieceType::King => 'K',
        PieceType::Empty => '.',
    }
}

/// The FEN letter of the piece on `sq`: upper case for white.
pub open spec fn square_letter(b: Board, sq: int) -> char {
    if b.colors[sq] == Color::White {
        piece_letter_upper(b.pieces[sq])
    } else {
        piece_letter(b.pieces[sq])
    }
}

/// The digit for a run of `n` empty squares, if any.
pub open spec fn empty_run(n: int) -> Seq<char> {
    if n > 0 {
        seq![(n + 48) as char]
    } else {
        Seq::empty()
    }
}

/// The FEN of the squares of `row` from file `col` on, after `empty`
/// empty squares.
pub open spec fn row_chars(b: Board, row: int, col: int, empty: int) -> Seq<char>
    decreases 8 - col,
{
    if col >= 8 {
        empty_run(empty)
    } else if b.pieces[row * 8 + col] != PieceType::Empty {
        empty_run(empty) + seq![square_letter(b, row * 8 + col)] + row_chars(b, row, col + 1, 0)
    } else {
        row_chars(b, row, col + 1, empty + 1)
    }
}

/// The FEN of the top `k` ranks, each but the first rank followed by `/`.
pub open spec fn rows_done(b: Board, k: int) -> Seq<char>
    decreases k,
{
    if k <= 0 {
        Seq::empty()
    } else {
        rows_done(b, k - 1) + row_chars(b, 8 - k, 0, 0) + (if 8 - k > 0 { seq!['/'] } else { Seq::empty() })
    }
}

/// The FEN letter of the side to move.
pub open spec fn side_letter(c: Color) -> char {
    match c {
        Color::White => 'w',
        Color::Black => 'b',
        Color::NoColor => '-',
    }
}

/// The FEN of the castling rights.
pub open spec fn castling_chars(cr: u8) -> Seq<char> {
    if cr == 0 {
        seq!['-']
    } else {
        (if cr & castling::WHITE_KING != 0 { seq!['K'] } else { Seq::empty() }) + (if cr & castling::WHITE_QUEEN
            != 0 { seq!['Q'] } else { Seq::empty() }) + (if cr & castling::BLACK_KING != 0 { seq!['k'] } else {
            Seq::empty()
        }) + (if cr & castling::BLACK_QUEEN != 0 { seq!['q'] } else { Seq::empty() })
    }
}

/// The FEN of the en passant square.
pub open spec fn en_passant_chars(ep: Option<u8>) -> Seq<char> {
    match ep {
        Some(sq) => seq![(sq as int % 8 + 97) as char, (sq as int / 8 + 49) as char],
        None => seq!['-'],
    }
}

/// The FEN of a position.
pub open spec fn fen_chars(b: Board) -> Seq<char> {
    rows_done(b, 8) + seq![' ', side_letter(b.side_to_move), ' '] + castling_chars(b.castling_rights)
        + seq![' '] + en_passant_chars(b.en_passant_square) + seq![' '] + decimal(b.halfmove_clock as nat)
        + seq![' '] + decimal(b.fullmove_number as nat)
}

impl Board {
    /// Appends the FEN of one rank.
    fn push_row(&self, fen: &mut String, row: u8)
        requires
            self.wf(),
            row < 8,
        ensures
            final(fen)@ == old(fen)@ + row_chars(*self, row as int, 0, 0),
    {
        let ghost base = fen@;
        let mut empty: u8 = 0;
        let mut col: u8 = 0;
        assert(fen@ + row_chars(*self, row as int, 0, 0) =~= base + row_chars(*self, row as int, 0, 0));
        while col < 8
            invariant
                self.wf(),
                row < 8,
                col <= 8,
                empty <= col,
                fen@ + row_chars(*self, row as int, col as int, empty as int) == base + row_chars(*self, row as int, 0, 0),
            decreases 8 - col,
        {
            let sq = row * 8 + col;
            let pt = self.pieces[sq as usize];
            let ghost before = fen@;
            let ghost e0 = empty as int;
            if pt != PieceType::Empty {
                if empty > 0 {
                    push_char(fen, (empty + 48) as char);
                    empty = 0;
                }
                let c = if self.colors[sq as usize] == Color::White {
                    match pt {
                        PieceType::Pawn => 'P',
                        PieceType::Knight => 'N',
                        PieceType::Bishop => 'B',
                        PieceType::Rook => 'R',
                        PieceType::Queen => 'Q',
                        PieceType::King => 'K',
                        PieceType::Empty => '.',
                    }
                } else {
                    match pt {
                        PieceType::Pawn => 'p',
                        PieceType::Knight => 'n',
                        PieceType::Bishop => 'b',
                        PieceType::Rook => 'r',
                        PieceType::Queen => 'q',
                        PieceType::King => 'k',
                        PieceType::Empty => '.',
                    }
                };
                push_char(fen, c);
                proof {
                    assert(c == square_letter(*self, sq as int));
                    assert(fen@ =~= before + empty_run(e0) + seq![c]);
                    assert(fen@ + row_chars(*self, row as int, col + 1, 0) =~= before + row_chars(*self, row as int,
                        col as int, e0));
                }
            } else {
                empty = empty + 1;
            }
            col = col + 1;
        }
        if empty > 0 {
            push_char(fen, (empty + 48) as char);
        }
        assert(fen@ =~= base + row_chars(*self, row as int, 0, 0));
    }
}

impl Board {
    /// The position in Forsyth-Edwards Notation.
    pub fn to_fen(&self) -> (s: String)
        requires
            self.wf(),
        ensures
            s@ == fen_chars(*self),
    {
        let mut fen = String::new();
        let mut k: u8 = 0;
        assert(fen@ =~= rows_done(*self, 0));
        while k < 8
            invariant
                self.wf(),
                k <= 8,
                fen@ == rows_done(*self, k as int),
            decreases 8 - k,
        {
            let row: u8 = 7 - k;
            self.push_row(&mut fen, row);
            if row > 0 {
                push_char(&mut fen, '/');
            }
            assert(fen@ =~= rows_done(*self, k + 1));
            k = k + 1;
        }
        self.push_fields(&mut fen);
        fen
    }

    /// Appends the fields after the placement.
    fn push_fields(&self, fen: &mut String)
        requires
            self.wf(),
        ensures
            final(fen)@ == old(fen)@ + seq![' ', side_letter(self.side_to_move), ' '] + castling_chars(self.castling_rights)
                + seq![' '] + en_passant_chars(self.en_passant_square) + seq![' '] + decimal(self.halfmove_clock as nat)
                + seq![' '] + decimal(self.fullmove_number as nat),
    {
        let ghost base = fen@;
        push_char(fen, ' ');
        let sc = match self.side_to_move {
            Color::White => 'w',
            Color::Black => 'b',
            Color::NoColor => '-',
        };
        push_char(fen, sc);
        push_char(fen, ' ');
        let ghost a = fen@;
        push_castling(fen, self.castling_rights);
        let ghost b = fen@;
        push_char(fen, ' ');
        push_en_passant(fen, self.en_passant_square);
        let ghost c = fen@;
        push_char(fen, ' ');
        push_decimal(fen, self.halfmove_clock as u64);
        let ghost d = fen@;
        push_char(fen, ' ');
        push_decimal(fen, self.fullmove_number as u64);
        assert(a =~= base + seq![' ', side_letter(self.side_to_move), ' ']);
        assert(c =~= b + seq![' '] + en_passant_chars(self.en_passant_square));
        assert(d =~= c + seq![' '] + decimal(self.halfmove_clock as nat));
        assert(fen@ =~= d + seq![' '] + decimal(self.fullmove_number as nat));
    }
}

/// Appends the FEN of castling rights.
fn push_castling(fen: &mut String, cr: u8)
    ensures
        final(fen)@ == old(fen)@ + castling_chars(cr),
{
    if cr == 0 {
        push_char(fen, '-');
    } else {
        let ghost c0 = fen@;
        if (cr & castling::WHITE_KING) != 0 {
            push_char(fen, 'K');
        }
        let ghost c1 = fen@;
        if (cr & castling::WHITE_QUEEN) != 0 {
            push_char(fen, 'Q');
        }
        let ghost c2 = fen@;
        if (cr & castling::BLACK_KING) != 0 {
            push_char(fen, 'k');
        }
        let ghost c3 = fen@;
        if (cr & castling::BLACK_QUEEN) != 0 {
            push_char(fen, 'q');
        }
        assert(c1 =~= c0 + (if cr & castling::WHITE_KING != 0 { seq!['K'] } else { Seq::empty() }));
        assert(c2 =~= c1 + (if cr & castling::WHITE_QUEEN != 0 { seq!['Q'] } else { Seq::empty() }));
        assert(c3 =~= c2 + (if cr & castling::BLACK_KING != 0 { seq!['k'] } else { Seq::empty() }));
        assert(fen@ =~= c3 + (if cr & castling::BLACK_QUEEN != 0 { seq!['q'] } else { Seq::empty() }));
    }
}

/// Appends the FEN of an en passant square.
fn push_en_passant(fen: &mut String, ep: Option<u8>)
    requires
        ep matches Some(sq) ==> sq < 64,
    ensures
        final(fen)@ == old(fen)@ + en_passant_chars(ep),
{
    if let Some(sq) = ep {
        push_char(fen, ((sq % 8) + 97) as char);
        push_char(fen, ((sq / 8) + 49) as char);
    } else {
        push_char(fen, '-');
    }
}

} // verus!
