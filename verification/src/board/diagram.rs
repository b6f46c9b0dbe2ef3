//! A text diagram of a position.
use vstd::prelude::*;
use crate::board::board::Board;
use crate::board::fen::{fen_chars, square_letter};
use crate::board::piece::{Color, PieceType};
use crate::text::{push_char, push_str};

verus! {

/// The diagram character of square `sq`: its FEN letter, or `.` when empty.
pub open spec fn diagram_cell(b: Board, sq: int) -> char {
    if b.pieces[sq] != PieceType::Empty {
        square_letter(b, sq)
    } else {
        '.'
    }
}

/// The squares of `row` from file `col` on, each followed by a space.
pub open spec fn diagram_squares(b: Board, row: int, col: int) -> Seq<char>
    decreases 8 - col,
{
    if col >= 8 {
        Seq::empty()
    } else {
        seq![diagram_cell(b, row * 8 + col), ' '] + diagram_squares(b, row, col + 1)
    }
}

/// The diagram line of `row`: its rank number and its squares between bars.
pub open spec fn diagram_row(b: Board, row: int) -> Seq<char> {
    seq![(row + 49) as char, ' ', '|', ' '] + diagram_squares(b, row, 0) + seq!['|']
}

/// The diagram's top and bottom border.
pub open spec fn diagram_border() -> Seq<char> {
    seq![' ', ' ', '+', '-', '-', '-', '-', '-', '-', '-', '-', '-', '-', '-', '-', '-', '-', '-', '-', '-', '+']
}

/// The diagram's file letters.
pub open spec fn diagram_files() -> Seq<char> {
    seq![' ', ' ', ' ', ' ', 'a', ' ', 'b', ' ', 'c', ' ', 'd', ' ', 'e', ' ', 'f', ' ', 'g', ' ', 'h']
}

impl Board {
    /// The diagram line of one rank.
    fn diagram_row_text(&self, row: u8) -> (s: String)
        requires
            self.wf(),
            row < 8,
        ensures
            s@ == diagram_row(*self, row as int),
    {
        let mut s = String::new();
        push_char(&mut s, (row + 49) as char);
        push_char(&mut s, ' ');
        push_char(&mut s, '|');
        push_char(&mut s, ' ');
        let ghost head = s@;
        let mut col: u8 = 0;
        while col < 8
            invariant
                self.wf(),
                row < 8,
                col <= 8,
                s@ + diagram_squares(*self, row as int, col as int) == head + diagram_squares(*self, row as int, 0),
            decreases 8 - col,
        {
            let sq = (row * 8 + col) as usize;
            let pt = self.pieces[sq];
            let c = if pt != PieceType::Empty {
                let lower = match pt {
                    PieceType::Pawn => 'p',
                    PieceType::Knight => 'n',
                    PieceType::Bishop => 'b',
                    PieceType::Rook => 'r',
                    PieceType::Queen => 'q',
                    PieceType::King => 'k',
                    PieceType::Empty => '.',
                };
                if self.colors[sq] == Color::White {
                    match pt {
                        PieceType::Pawn => 'P',
                        PieceType::Knight => 'N',
                        PieceType::Bishop => 'B',
                        PieceType::Rook => 'R',
                        PieceType::Queen => 'Q',
                        PieceType::King => 'K',
                        PieceType::Empty => '.',
                    }
                } else {
                    lower
                }
            } else {
                '.'
            };
            let ghost before = s@;
            push_char(&mut s, c);
            push_char(&mut s, ' ');
            assert(c == diagram_cell(*self, sq as int));
            assert(s@ + diagram_squares(*self, row as int, col + 1) =~= before + diagram_squares(*self, row as int, col as int));
            col = col + 1;
        }
        assert(s@ =~= head + diagram_squares(*self, row as int, 0));
        push_char(&mut s, '|');
        assert(s@ =~= diagram_row(*self, row as int));
        s
    }

    /// A diagram of the position, one line each: a border, the ranks from
    /// the eighth down (upper-case letters for White, `.` for an empty
    /// square), a border, the file letters and the FEN.
    pub fn diagram_lines(&self) -> (r: Vec<String>)
        requires
            self.wf(),
        ensures
            r@.len() == 12,
            r@[0]@ == diagram_border(),
            forall|i: int| 1 <= i <= 8 ==> #[trigger] r@[i]@ == diagram_row(*self, 8 - i),
            r@[9]@ == diagram_border(),
            r@[10]@ == diagram_files(),
            r@[11]@ == seq!['F', 'E', 'N', ':', ' '] + fen_chars(*self),
    {
        let mut r: Vec<String> = Vec::new();
        let mut border = String::new();
        push_str(&mut border, "  +-----------------+");
        proof {
            reveal_strlit("  +-----------------+");
        }
        assert(border@ =~= diagram_border());
        let mut border2 = String::new();
        push_str(&mut border2, "  +-----------------+");
        assert(border2@ =~= diagram_border());
        r.push(border);
        let mut row: u8 = 8;
        while row > 0
            invariant
                self.wf(),
                row <= 8,
                r@.len() == 9 - row,
                r@[0]@ == diagram_border(),
                forall|i: int| 1 <= i < 9 - row ==> #[trigger] r@[i]@ == diagram_row(*self, 8 - i),
            decreases row,
        {
            row = row - 1;
            let line = self.diagram_row_text(row);
            r.push(line);
        }
        r.push(border2);
        let mut files = String::new();
        push_str(&mut files, "    a b c d e f g h");
        proof {
            reveal_strlit("    a b c d e f g h");
        }
        assert(files@ =~= diagram_files());
        r.push(files);
        let mut fen = String::new();
        push_str(&mut fen, "FEN: ");
        proof {
            reveal_strlit("FEN: ");
        }
        let text = self.to_fen();
        push_str(&mut fen, text.as_str());
        assert(fen@ =~= seq!['F', 'E', 'N', ':', ' '] + fen_chars(*self));
        r.push(fen);
        r
    }
}

} // verus!
