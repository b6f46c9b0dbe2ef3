//! Reading back the FEN of a position gives the position.
use vstd::prelude::*;
use crate::board::board::Board;
use crate::board::castling;
use crate::board::fen::{
    castling_chars, castling_scan, color_of_char, en_passant_chars, en_passant_field, fen_chars, fen_outcome,
    piece_of_char, place_scan, place_start, place_step, row_chars, rows_done,
    side_letter, square_letter, empty_run, FenData, FenOutcome, PlaceState, PlaceStatus,
};
use crate::board::piece::{Color, PieceType};
use crate::text::{decimal, digit_value, is_digit, is_ws, joined, lemma_parse_decimal, lemma_split_joined, no_ws, split_ws};

verus! {

/// The data of a position as FEN describes it.
pub open spec fn position_data(b: Board) -> FenData {
    FenData {
        pieces: b.pieces@,
        colors: b.colors@,
        side: b.side_to_move,
        castling: b.castling_rights,
        en_passant: b.en_passant_square,
        halfmove: b.halfmove_clock,
        fullmove: b.fullmove_number,
    }
}

/// The placement state after reading `cs` from `st`.
pub open spec fn place_run(st: PlaceState, cs: Seq<char>) -> PlaceState
    decreases cs.len(),
{
    if cs.len() == 0 {
        st
    } else {
        place_step(place_run(st, cs.drop_last()), cs.last())
    }
}

proof fn lemma_place_scan_run(cs: Seq<char>)
    ensures
        place_scan(cs) == place_run(place_start(), cs),
    decreases cs.len(),
{
    if cs.len() > 0 {
        lemma_place_scan_run(cs.drop_last());
    }
}

proof fn lemma_place_run_append(st: PlaceState, x: Seq<char>, y: Seq<char>)
    ensures
        place_run(st, x + y) == place_run(place_run(st, x), y),
    decreases y.len(),
{
    if y.len() == 0 {
        assert(x + y =~= x);
    } else {
        lemma_place_run_append(st, x, y.drop_last());
        assert((x + y).drop_last() =~= x + y.drop_last());
        assert((x + y).last() == y.last());
    }
}

proof fn lemma_place_run_one(st: PlaceState, c: char)
    ensures
        place_run(st, seq![c]) == place_step(st, c),
{
    assert(seq![c].drop_last() =~= Seq::<char>::empty());
    assert(seq![c].last() == c);
    assert(place_run(st, Seq::<char>::empty()) == st);
}

/// Square `i` is placed once the reading is at file `col` of `row`: it lies
/// on a higher rank, or on `row` before `col`.
pub open spec fn placed(i: int, row: int, col: int) -> bool {
    i >= (row + 1) * 8 || (row * 8 <= i && i < row * 8 + col)
}

/// The reading state at file `at` of `row`, with the squares before file
/// `col` of `row` (and the higher ranks) holding `b`'s pieces.
pub open spec fn partial_state(b: Board, row: int, at: int, col: int) -> PlaceState {
    PlaceState {
        row,
        col: at,
        pieces: Seq::new(64, |i: int| if placed(i, row, col) { b.pieces@[i] } else { PieceType::Empty }),
        colors: Seq::new(64, |i: int| if placed(i, row, col) { b.colors@[i] } else { Color::NoColor }),
        status: PlaceStatus::Reading,
    }
}

proof fn lemma_letter(b: Board, sq: int)
    requires
        b.wf(),
        0 <= sq < 64,
        b.pieces@[sq] != PieceType::Empty,
    ensures
        piece_of_char(square_letter(b, sq)) == Some(b.pieces@[sq]),
        color_of_char(square_letter(b, sq)) == b.colors@[sq],
        square_letter(b, sq) != '/',
        !is_digit(square_letter(b, sq)),
        !is_ws(square_letter(b, sq)),
{
    assert(b.colors@[sq] != Color::NoColor);
}

proof fn lemma_empty_run(st: PlaceState, n: int)
    requires
        (st.status is Reading),
        0 <= n <= 8,
        0 <= st.col,
        st.col + n <= 8,
    ensures
        place_run(st, empty_run(n)) == (PlaceState { col: st.col + n, ..st }),
        no_ws(empty_run(n)),
{
    if n > 0 {
        let c = (n + 48) as char;
        lemma_place_run_one(st, c);
        assert(is_digit(c) && digit_value(c) == n);
    } else {
        assert(st == PlaceState { col: st.col + n, ..st });
    }
}

/// Reading the FEN of `row` from file `col`, after a run of `empty` empty
/// squares, places the rest of the rank.
proof fn lemma_row(b: Board, row: int, col: int, empty: int)
    requires
        b.wf(),
        0 <= row < 8,
        0 <= empty <= col <= 8,
        forall|s: int| row * 8 + col - empty <= s < row * 8 + col ==> #[trigger] b.pieces@[s] == PieceType::Empty,
    ensures
        place_run(partial_state(b, row, col - empty, col), row_chars(b, row, col, empty)) == partial_state(b, row, 8, 8),
        no_ws(row_chars(b, row, col, empty)),
    decreases 8 - col,
{
    let st = partial_state(b, row, col - empty, col);
    if col >= 8 {
        lemma_empty_run(st, empty);
        assert(partial_state(b, row, 8, 8) == PlaceState { col: st.col + empty, ..st });
    } else {
        let sq = row * 8 + col;
        if b.pieces@[sq] != PieceType::Empty {
            let e = empty_run(empty);
            let l = seq![square_letter(b, sq)];
            let rest = row_chars(b, row, col + 1, 0);
            assert(row_chars(b, row, col, empty) == e + l + rest);
            lemma_place_run_append(st, e + l, rest);
            lemma_place_run_append(st, e, l);
            lemma_empty_run(st, empty);
            let s1 = PlaceState { col: st.col + empty, ..st };
            assert(s1 == partial_state(b, row, col, col));
            lemma_place_run_one(s1, square_letter(b, sq));
            lemma_letter(b, sq);
            assert(!placed(sq, row, col));
            assert(s1.pieces[sq] == PieceType::Empty);
            let s2 = place_step(s1, square_letter(b, sq));
            assert(s2.pieces =~= partial_state(b, row, col + 1, col + 1).pieces);
            assert(s2.colors =~= partial_state(b, row, col + 1, col + 1).colors);
            assert(s2 == partial_state(b, row, col + 1, col + 1));
            lemma_row(b, row, col + 1, 0);
            assert forall|i: int| 0 <= i < (e + l + rest).len() implies !is_ws(#[trigger] (e + l + rest)[i]) by {
                if i < e.len() {
                    assert((e + l + rest)[i] == e[i]);
                } else if i < e.len() + 1 {
                    assert((e + l + rest)[i] == l[0]);
                } else {
                    assert((e + l + rest)[i] == rest[i - e.len() - 1]);
                }
            }
        } else {
            assert(b.colors@[sq] == Color::NoColor);
            let st2 = partial_state(b, row, (col + 1) - (empty + 1), col + 1);
            assert(st.pieces =~= st2.pieces);
            assert(st.colors =~= st2.colors);
            lemma_row(b, row, col + 1, empty + 1);
        }
    }
}

/// The reading state after the FEN of the top `k` ranks.
proof fn lemma_rows(b: Board, k: int)
    requires
        b.wf(),
        0 <= k <= 8,
    ensures
        place_run(place_start(), rows_done(b, k)) == (if k < 8 {
            partial_state(b, 7 - k, 0, 0)
        } else {
            partial_state(b, 0, 8, 8)
        }),
        no_ws(rows_done(b, k)),
    decreases k,
{
    if k == 0 {
        let p = partial_state(b, 7, 0, 0);
        assert(p.pieces =~= place_start().pieces);
        assert(p.colors =~= place_start().colors);
    } else {
        let r = 8 - k;
        lemma_rows(b, k - 1);
        let prev = rows_done(b, k - 1);
        let row = row_chars(b, r, 0, 0);
        let slash: Seq<char> = if r > 0 { seq!['/'] } else { Seq::empty() };
        assert(rows_done(b, k) == prev + row + slash);
        lemma_place_run_append(place_start(), prev + row, slash);
        lemma_place_run_append(place_start(), prev, row);
        lemma_row(b, r, 0, 0);
        let done_row = partial_state(b, r, 8, 8);
        if r > 0 {
            lemma_place_run_one(done_row, '/');
            let next = partial_state(b, r - 1, 0, 0);
            assert(done_row.pieces =~= next.pieces);
            assert(done_row.colors =~= next.colors);
        } else {
            assert(prev + row + slash =~= prev + row);
        }
        assert forall|i: int| 0 <= i < (prev + row + slash).len() implies !is_ws(#[trigger] (prev + row + slash)[i]) by {
            if i < prev.len() {
                assert((prev + row + slash)[i] == prev[i]);
            } else if i < prev.len() + row.len() {
                assert((prev + row + slash)[i] == row[i - prev.len()]);
            } else {
                assert((prev + row + slash)[i] == slash[i - prev.len() - row.len()]);
            }
        }
    }
}

proof fn lemma_castling_roundtrip(cr: u8)
    requires
        0 < cr < 16,
    ensures
        castling_chars(cr).len() > 0,
        castling_chars(cr)[0] != '-',
        no_ws(castling_chars(cr)),
        castling_scan(castling_chars(cr)) == Some(cr),
{
    let a: Seq<char> = if cr & castling::WHITE_KING != 0 { seq!['K'] } else { Seq::empty() };
    let q: Seq<char> = if cr & castling::WHITE_QUEEN != 0 { seq!['Q'] } else { Seq::empty() };
    let k: Seq<char> = if cr & castling::BLACK_KING != 0 { seq!['k'] } else { Seq::empty() };
    let l: Seq<char> = if cr & castling::BLACK_QUEEN != 0 { seq!['q'] } else { Seq::empty() };
    assert(castling_chars(cr) == a + q + k + l);
    let r1: u8 = if cr & 1u8 != 0 { 0u8 | 1u8 } else { 0u8 };
    let r2: u8 = if cr & 2u8 != 0 { r1 | 2u8 } else { r1 };
    let r3: u8 = if cr & 4u8 != 0 { r2 | 4u8 } else { r2 };
    let r4: u8 = if cr & 8u8 != 0 { r3 | 8u8 } else { r3 };
    assert(r4 == cr && (cr & 1u8 != 0 || cr & 2u8 != 0 || cr & 4u8 != 0 || cr & 8u8 != 0)) by (bit_vector)
        requires
            0 < cr < 16,
            r1 == (if cr & 1u8 != 0 { 0u8 | 1u8 } else { 0u8 }),
            r2 == (if cr & 2u8 != 0 { r1 | 2u8 } else { r1 }),
            r3 == (if cr & 4u8 != 0 { r2 | 4u8 } else { r2 }),
            r4 == (if cr & 8u8 != 0 { r3 | 8u8 } else { r3 }),
    ;
    assert(castling_scan(Seq::<char>::empty()) == Some(0u8));
    assert(castling_scan(a) == Some(r1)) by {
        if cr & 1u8 != 0 {
            assert(a.drop_last() =~= Seq::<char>::empty());
        }
    }
    assert(castling_scan(a + q) == Some(r2)) by {
        if cr & 2u8 != 0 {
            assert((a + q).drop_last() =~= a);
        } else {
            assert(a + q =~= a);
        }
    }
    assert(castling_scan(a + q + k) == Some(r3)) by {
        if cr & 4u8 != 0 {
            assert((a + q + k).drop_last() =~= a + q);
        } else {
            assert(a + q + k =~= a + q);
        }
    }
    assert(castling_scan(a + q + k + l) == Some(r4)) by {
        if cr & 8u8 != 0 {
            assert((a + q + k + l).drop_last() =~= a + q + k);
        } else {
            assert(a + q + k + l =~= a + q + k);
        }
    }
    let s = a + q + k + l;
    assert forall|i: int| 0 <= i < s.len() implies !is_ws(#[trigger] s[i]) by {
        assert(s[i] == 'K' || s[i] == 'Q' || s[i] == 'k' || s[i] == 'q');
    }
    assert(s[0] == 'K' || s[0] == 'Q' || s[0] == 'k' || s[0] == 'q');
}

proof fn lemma_en_passant_roundtrip(sq: u8)
    requires
        sq < 64,
    ensures
        en_passant_chars(Some(sq)).len() == 2,
        en_passant_chars(Some(sq))[0] != '-',
        no_ws(en_passant_chars(Some(sq))),
        en_passant_field(en_passant_chars(Some(sq))) matches FenOutcome::Parsed(d) && d.en_passant == Some(sq),
{
    let f = en_passant_chars(Some(sq));
    let col = sq as int % 8;
    let row = sq as int / 8;
    assert(f[0] as u32 as int == col + 97);
    assert(f[1] as u32 as int == row + 49);
    assert(!(exists|i: int| 0 <= i < f.len() && #[trigger] (f[i] as u32) >= 128));
    assert forall|i: int| 0 <= i < f.len() implies (#[trigger] f[i] as u32) < 128 by {
        if i == 0 {
            assert(f[0] as u32 as int == col + 97);
        } else {
            assert(f[1] as u32 as int == row + 49);
        }
    }
    crate::board::fen::lemma_utf8_len_ascii(f);
    assert(row * 8 + col == sq as int);
}

/// Reading back the FEN of a position gives the position: the same piece
/// and color on every square, side to move, castling rights, en passant
/// square, half-move clock and move number.
pub proof fn law_fen_roundtrip(b: Board)
    requires
        b.wf(),
    ensures
        fen_outcome(fen_chars(b)) == FenOutcome::Parsed(position_data(b)),
{
    let p = rows_done(b, 8);
    let s = seq![side_letter(b.side_to_move)];
    let c = castling_chars(b.castling_rights);
    let e = en_passant_chars(b.en_passant_square);
    let h = decimal(b.halfmove_clock as nat);
    let f = decimal(b.fullmove_number as nat);
    lemma_rows(b, 8);
    lemma_rows(b, 7);
    lemma_parse_decimal(b.halfmove_clock as nat);
    lemma_parse_decimal(b.fullmove_number as nat);
    if b.castling_rights != 0 {
        lemma_castling_roundtrip(b.castling_rights);
    } else {
        assert(no_ws(c));
    }
    if let Some(sq) = b.en_passant_square {
        lemma_en_passant_roundtrip(sq);
    } else {
        assert(no_ws(e));
    }
    assert(rows_done(b, 7).len() > 0);
    assert(rows_done(b, 8) == rows_done(b, 7) + row_chars(b, 0, 0, 0) + Seq::<char>::empty());
    assert(p.len() > 0);
    assert(no_ws(s));
    let w1 = seq![p];
    let w2 = w1.push(s);
    let w3 = w2.push(c);
    let w4 = w3.push(e);
    let w5 = w4.push(h);
    let ws = w5.push(f);
    assert(w2.drop_last() =~= w1);
    assert(w3.drop_last() =~= w2);
    assert(w4.drop_last() =~= w3);
    assert(w5.drop_last() =~= w4);
    assert(ws.drop_last() =~= w5);
    assert(joined(w1) == p);
    assert(joined(w2) == p + seq![' '] + s);
    assert(joined(w3) == p + seq![' '] + s + seq![' '] + c);
    assert(joined(w4) == p + seq![' '] + s + seq![' '] + c + seq![' '] + e);
    assert(joined(w5) == p + seq![' '] + s + seq![' '] + c + seq![' '] + e + seq![' '] + h);
    assert(joined(ws) == p + seq![' '] + s + seq![' '] + c + seq![' '] + e + seq![' '] + h + seq![' '] + f);
    assert(fen_chars(b) =~= joined(ws));
    assert(ws[0] == p && ws[1] == s && ws[2] == c && ws[3] == e && ws[4] == h && ws[5] == f);
    assert forall|i: int| 0 <= i < ws.len() implies (#[trigger] ws[i]).len() > 0 && no_ws(ws[i]) by {
        assert(i == 0 || i == 1 || i == 2 || i == 3 || i == 4 || i == 5);
    }
    lemma_split_joined(ws);
    let parts = split_ws(fen_chars(b));
    assert(parts == ws);
    lemma_place_scan_run(p);
    let st = place_scan(p);
    assert(st == partial_state(b, 0, 8, 8));
    assert(st.pieces =~= b.pieces@);
    assert(st.colors =~= b.colors@);
    assert(seq!['w'][0] != seq!['b'][0]);
    assert(seq!['-'][0] == '-');
}

} // verus!
