//! The UCI protocol's decisions: which command a line is, the engine's
//! identification, the option a `setoption` changes, the position a
//! `position` command sets up, and the depth and time a `go` command
//! searches with. Reading and writing the lines and running the search
//! thread are the caller's.
use vstd::prelude::*;
use crate::board::board::Board;
use crate::board::piece::Color;
use crate::board::bitboard::{count_bits, popcount};
use crate::board::fen::{fen_in_range, fen_outcome, holds_position, FenOutcome};
use crate::board::make_move::{made_from, UndoState};
use crate::board::moves::Move;
use crate::board::notation::{move_text_in_range, names_move};
use crate::text::{joined, parse_uint, parse_uint_spec, push_char, push_str, string_from_chars, word_is};

verus! {

/// The commands the engine answers.
#[derive(Clone, Copy, PartialEq, Eq, Debug, Structural)]
pub enum UciCommand {
    Uci,
    IsReady,
    UciNewGame,
    Position,
    SetOption,
    Go,
    Stop,
    Quit,
    Unknown,
}

/// The command a first word names.
pub open spec fn command_of(w: Seq<char>) -> UciCommand {
    if w == seq!['u', 'c', 'i'] {
        UciCommand::Uci
    } else if w == seq!['i', 's', 'r', 'e', 'a', 'd', 'y'] {
        UciCommand::IsReady
    } else if w == seq!['u', 'c', 'i', 'n', 'e', 'w', 'g', 'a', 'm', 'e'] {
        UciCommand::UciNewGame
    } else if w == seq!['p', 'o', 's', 'i', 't', 'i', 'o', 'n'] {
        UciCommand::Position
    } else if w == seq!['s', 'e', 't', 'o', 'p', 't', 'i', 'o', 'n'] {
        UciCommand::SetOption
    } else if w == seq!['g', 'o'] {
        UciCommand::Go
    } else if w == seq!['s', 't', 'o', 'p'] {
        UciCommand::Stop
    } else if w == seq!['q', 'u', 'i', 't'] {
        UciCommand::Quit
    } else {
        UciCommand::Unknown
    }
}

/// The command a first word names (see [`command_of`]).
pub fn command_kind(word: &Vec<char>) -> (r: UciCommand)
    ensures
        r == command_of(word@),
{
    if word_is(word, &['u', 'c', 'i']) {
        UciCommand::Uci
    } else if word_is(word, &['i', 's', 'r', 'e', 'a', 'd', 'y']) {
        UciCommand::IsReady
    } else if word_is(word, &['u', 'c', 'i', 'n', 'e', 'w', 'g', 'a', 'm', 'e']) {
        UciCommand::UciNewGame
    } else if word_is(word, &['p', 'o', 's', 'i', 't', 'i', 'o', 'n']) {
        UciCommand::Position
    } else if word_is(word, &['s', 'e', 't', 'o', 'p', 't', 'i', 'o', 'n']) {
        UciCommand::SetOption
    } else if word_is(word, &['g', 'o']) {
        UciCommand::Go
    } else if word_is(word, &['s', 't', 'o', 'p']) {
        UciCommand::Stop
    } else if word_is(word, &['q', 'u', 'i', 't']) {
        UciCommand::Quit
    } else {
        UciCommand::Unknown
    }
}

/// The answer to `uci`: the engine's name and author, then `uciok`.
pub fn identity_lines() -> (r: Vec<String>)
    ensures
        r@.len() == 3,
        r@[0]@ == "id name Redline"@,
        r@[1]@ == "id author Fabian Merkl"@,
        r@[2]@ == "uciok"@,
{
    let mut name = String::new();
    push_str(&mut name, "id name Redline");
    let mut author = String::new();
    push_str(&mut author, "id author Fabian Merkl");
    let mut ok = String::new();
    push_str(&mut ok, "uciok");
    let mut r: Vec<String> = Vec::new();
    r.push(name);
    r.push(author);
    r.push(ok);
    r
}

/// The answer to `isready`.
pub fn ready_line() -> (r: String)
    ensures
        r@ == "readyok"@,
{
    let mut r = String::new();
    push_str(&mut r, "readyok");
    r
}

/// The option a `setoption` command changes.
#[derive(Clone, Copy, PartialEq, Eq, Debug, Structural)]
pub enum OptionChange {
    /// The number of search threads.
    Threads(usize),
    /// The transposition table size in megabytes.
    Hash(usize),
    /// Nothing the engine knows.
    Nothing,
}

/// The option the arguments of `setoption` change: `name Threads value n`
/// or `name Hash value n` with `n` a number that fits a `usize`.
pub open spec fn option_of(args: Seq<Seq<char>>) -> OptionChange {
    if args.len() >= 4 && args[0] == seq!['n', 'a', 'm', 'e'] && args[1] == seq!['T', 'h', 'r', 'e', 'a', 'd', 's']
        && args[2] == seq!['v', 'a', 'l', 'u', 'e'] {
        match parse_uint_spec(args[3], usize::MAX as int) {
            Some(v) => OptionChange::Threads(v as usize),
            None => OptionChange::Nothing,
        }
    } else if args.len() >= 4 && args[0] == seq!['n', 'a', 'm', 'e'] && args[1] == seq!['H', 'a', 's', 'h']
        && args[2] == seq!['v', 'a', 'l', 'u', 'e'] {
        match parse_uint_spec(args[3], usize::MAX as int) {
            Some(v) => OptionChange::Hash(v as usize),
            None => OptionChange::Nothing,
        }
    } else {
        OptionChange::Nothing
    }
}

/// The views of a list of words.
pub open spec fn words_view(ws: Seq<Vec<char>>) -> Seq<Seq<char>> {
    ws.map_values(|w: Vec<char>| w@)
}

/// The option the arguments of `setoption` change (see [`option_of`]).
pub fn parse_setoption(args: &Vec<Vec<char>>) -> (r: OptionChange)
    ensures
        r == option_of(words_view(args@)),
{
    let ghost a = words_view(args@);
    if args.len() >= 4 {
        assert(a[0] == args@[0]@ && a[1] == args@[1]@ && a[2] == args@[2]@ && a[3] == args@[3]@);
    }
    if args.len() >= 4 && word_is(&args[0], &['n', 'a', 'm', 'e']) && word_is(&args[1], &['T', 'h', 'r', 'e', 'a', 'd', 's'])
        && word_is(&args[2], &['v', 'a', 'l', 'u', 'e']) {
        match parse_uint(&args[3], usize::MAX as u64) {
            Some(v) => OptionChange::Threads(v as usize),
            None => OptionChange::Nothing,
        }
    } else if args.len() >= 4 && word_is(&args[0], &['n', 'a', 'm', 'e']) && word_is(&args[1], &['H', 'a', 's', 'h'])
        && word_is(&args[2], &['v', 'a', 'l', 'u', 'e']) {
        match parse_uint(&args[3], usize::MAX as u64) {
            Some(v) => OptionChange::Hash(v as usize),
            None => OptionChange::Nothing,
        }
    } else {
        OptionChange::Nothing
    }
}

/// The arguments of a `go` command.
#[derive(Clone, Copy, PartialEq, Eq, Debug, Structural)]
pub struct GoParams {
    pub depth: Option<u32>,
    pub wtime: Option<u64>,
    pub btime: Option<u64>,
    pub winc: u64,
    pub binc: u64,
    pub movestogo: Option<u64>,
    pub movetime: Option<u64>,
    pub nodes: Option<u64>,
    pub infinite: bool,
}

/// No argument given.
pub open spec fn no_go_params() -> GoParams {
    GoParams {
        depth: None,
        wtime: None,
        btime: None,
        winc: 0,
        binc: 0,
        movestogo: None,
        movetime: None,
        nodes: None,
        infinite: false,
    }
}

/// A number argument, or `default` when it does not parse.
pub open spec fn number_or(w: Seq<char>, max: int, default: int) -> int {
    match parse_uint_spec(w, max) {
        Some(v) => v,
        None => default,
    }
}

/// The `go` arguments read from position `i` on: each known keyword
/// followed by a word takes that word as its number (`depth` 64,
/// `movestogo` 30 and the others 0 when it does not parse); `infinite`
/// stands alone; anything else is skipped.
pub open spec fn go_from(args: Seq<Seq<char>>, i: int, p: GoParams) -> GoParams
    decreases args.len() - i,
{
    if i < 0 || i >= args.len() {
        p
    } else {
        let w = args[i];
        let has = i + 1 < args.len();
        let u64m = u64::MAX as int;
        if has && w == seq!['d', 'e', 'p', 't', 'h'] {
            go_from(args, i + 2, GoParams { depth: Some(number_or(args[i + 1], u32::MAX as int, 64) as u32), ..p })
        } else if has && w == seq!['w', 't', 'i', 'm', 'e'] {
            go_from(args, i + 2, GoParams { wtime: Some(number_or(args[i + 1], u64m, 0) as u64), ..p })
        } else if has && w == seq!['b', 't', 'i', 'm', 'e'] {
            go_from(args, i + 2, GoParams { btime: Some(number_or(args[i + 1], u64m, 0) as u64), ..p })
        } else if has && w == seq!['w', 'i', 'n', 'c'] {
            go_from(args, i + 2, GoParams { winc: number_or(args[i + 1], u64m, 0) as u64, ..p })
        } else if has && w == seq!['b', 'i', 'n', 'c'] {
            go_from(args, i + 2, GoParams { binc: number_or(args[i + 1], u64m, 0) as u64, ..p })
        } else if has && w == seq!['m', 'o', 'v', 'e', 's', 't', 'o', 'g', 'o'] {
            go_from(args, i + 2, GoParams { movestogo: Some(number_or(args[i + 1], u64m, 30) as u64), ..p })
        } else if has && w == seq!['m', 'o', 'v', 'e', 't', 'i', 'm', 'e'] {
            go_from(args, i + 2, GoParams { movetime: Some(number_or(args[i + 1], u64m, 0) as u64), ..p })
        } else if has && w == seq!['n', 'o', 'd', 'e', 's'] {
            go_from(args, i + 2, GoParams { nodes: Some(number_or(args[i + 1], u64m, 0) as u64), ..p })
        } else if w == seq!['i', 'n', 'f', 'i', 'n', 'i', 't', 'e'] {
            go_from(args, i + 1, GoParams { infinite: true, ..p })
        } else {
            go_from(args, i + 1, p)
        }
    }
}

/// A number argument, or `default` (see [`number_or`]).
fn number_or_default(w: &Vec<char>, max: u64, default: u64) -> (r: u64)
    requires
        default <= max,
    ensures
        r == number_or(w@, max as int, default as int),
{
    match parse_uint(w, max) {
        Some(v) => v,
        None => default,
    }
}

/// The arguments of a `go` command (see [`go_from`]).
pub fn parse_go(args: &Vec<Vec<char>>) -> (p: GoParams)
    ensures
        p == go_from(words_view(args@), 0, no_go_params()),
{
    let ghost a = words_view(args@);
    let mut p = GoParams {
        depth: None,
        wtime: None,
        btime: None,
        winc: 0,
        binc: 0,
        movestogo: None,
        movetime: None,
        nodes: None,
        infinite: false,
    };
    let mut i: usize = 0;
    while i < args.len()
        invariant
            a == words_view(args@),
            a.len() == args@.len(),
            go_from(a, 0, no_go_params()) == go_from(a, i as int, p),
        decreases args.len() - i,
    {
        let w = &args[i];
        assert(a[i as int] == w@);
        let has = i + 1 < args.len();
        if has {
            assert(a[i + 1] == args@[i + 1]@);
        }
        if has && word_is(w, &['d', 'e', 'p', 't', 'h']) {
            p.depth = Some(number_or_default(&args[i + 1], u32::MAX as u64, 64) as u32);
            i = i + 2;
        } else if has && word_is(w, &['w', 't', 'i', 'm', 'e']) {
            p.wtime = Some(number_or_default(&args[i + 1], u64::MAX, 0));
            i = i + 2;
        } else if has && word_is(w, &['b', 't', 'i', 'm', 'e']) {
            p.btime = Some(number_or_default(&args[i + 1], u64::MAX, 0));
            i = i + 2;
        } else if has && word_is(w, &['w', 'i', 'n', 'c']) {
            p.winc = number_or_default(&args[i + 1], u64::MAX, 0);
            i = i + 2;
        } else if has && word_is(w, &['b', 'i', 'n', 'c']) {
            p.binc = number_or_default(&args[i + 1], u64::MAX, 0);
            i = i + 2;
        } else if has && word_is(w, &['m', 'o', 'v', 'e', 's', 't', 'o', 'g', 'o']) {
            p.movestogo = Some(number_or_default(&args[i + 1], u64::MAX, 30));
            i = i + 2;
        } else if has && word_is(w, &['m', 'o', 'v', 'e', 't', 'i', 'm', 'e']) {
            p.movetime = Some(number_or_default(&args[i + 1], u64::MAX, 0));
            i = i + 2;
        } else if has && word_is(w, &['n', 'o', 'd', 'e', 's']) {
            p.nodes = Some(number_or_default(&args[i + 1], u64::MAX, 0));
            i = i + 2;
        } else if word_is(w, &['i', 'n', 'f', 'i', 'n', 'i', 't', 'e']) {
            p.infinite = true;
            i = i + 1;
        } else {
            i = i + 1;
        }
    }
    p
}

/// The time to spend on a move, in milliseconds, from the remaining time
/// and increment of the side to move: the time over the moves to go plus
/// three quarters of the increment, a fifth more with over 20 pieces on
/// the board and a fifth less with under 10, at most four fifths of the
/// remaining time, less a 50 ms margin (or at most 10 ms when that leaves
/// nothing).
pub open spec fn time_allocation(time: int, inc: int, moves_to_go: int, pieces: int) -> int {
    let a0 = time / moves_to_go + inc * 3 / 4;
    let a1 = if pieces > 20 {
        a0 * 12 / 10
    } else if pieces < 10 {
        a0 * 8 / 10
    } else {
        a0
    };
    let cap = time * 8 / 10;
    let a2 = if a1 > cap { cap } else { a1 };
    if a2 > 50 {
        a2 - 50
    } else if a2 < 10 {
        a2
    } else {
        10
    }
}

/// The allocation's arithmetic stays within a `u64` (and the moves to go
/// are not zero).
pub open spec fn allocation_fits(time: int, inc: int, moves_to_go: int, pieces: int) -> bool {
    let a0 = time / moves_to_go + inc * 3 / 4;
    &&& moves_to_go >= 1
    &&& inc * 3 <= u64::MAX
    &&& a0 <= u64::MAX
    &&& (pieces > 20 ==> a0 * 12 <= u64::MAX)
    &&& (pieces < 10 ==> a0 * 8 <= u64::MAX)
    &&& time * 8 <= u64::MAX
}

/// The remaining time, increment and moves to go of the side to move.
pub open spec fn clock_of(white: bool, p: GoParams) -> (Option<u64>, u64, int) {
    let mtg = match p.movestogo {
        Some(m) => m as int,
        None => 30,
    };
    if white {
        (p.wtime, p.winc, mtg)
    } else {
        (p.btime, p.binc, mtg)
    }
}

/// The time to spend on a move (see [`time_allocation`]), when the side to
/// move has a clock.
pub fn allocate_time(white: bool, pieces: u32, p: &GoParams) -> (r: Option<u64>)
    requires
        clock_of(white, *p).0 matches Some(t) ==> allocation_fits(t as int, clock_of(white, *p).1 as int, clock_of(white, *p).2, pieces as int),
    ensures
        r == (match clock_of(white, *p).0 {
            Some(t) => Some(time_allocation(t as int, clock_of(white, *p).1 as int, clock_of(white, *p).2, pieces as int) as u64),
            None => None,
        }),
{
    let (my_time, my_inc) = if white { (p.wtime, p.winc) } else { (p.btime, p.binc) };
    match my_time {
        Some(time) => {
            let moves_to_go = match p.movestogo {
                Some(m) => m,
                None => 30,
            };
            let mut allocated = time / moves_to_go + my_inc * 3 / 4;
            if pieces > 20 {
                allocated = allocated * 12 / 10;
            } else if pieces < 10 {
                allocated = allocated * 8 / 10;
            }
            if allocated > time * 8 / 10 {
                allocated = time * 8 / 10;
            }
            if allocated > 50 {
                allocated = allocated - 50;
            } else {
                allocated = if allocated < 10 { allocated } else { 10 };
            }
            Some(allocated)
        },
        None => None,
    }
}

/// The time limit (milliseconds) and depth of a search for `go`: the
/// move time less 20 ms when given, none when infinite, else the
/// allocation from the clock; the given depth, else 100 with a time
/// limit, `infinite` or a node limit, else 6.
pub open spec fn go_plan_spec(p: GoParams, white: bool, pieces: int) -> (Option<u64>, u32) {
    let limit: Option<u64> = match p.movetime {
        Some(mt) => Some((if mt >= 20 { mt - 20 } else { 0 }) as u64),
        None => if p.infinite {
            None
        } else {
            match clock_of(white, p).0 {
                Some(t) => Some(time_allocation(t as int, clock_of(white, p).1 as int, clock_of(white, p).2, pieces) as u64),
                None => None,
            }
        },
    };
    let depth: u32 = match p.depth {
        Some(d) => d,
        None => if limit.is_some() || p.infinite || p.nodes.is_some() {
            100
        } else {
            6
        },
    };
    (limit, depth)
}

/// The time limit and depth of a search for `go` (see [`go_plan_spec`]).
pub fn go_plan(p: &GoParams, board: &Board) -> (r: (Option<u64>, u32))
    requires
        p.movetime.is_none() && !p.infinite ==> (clock_of(board.side_to_move == Color::White, *p).0 matches Some(t)
            ==> allocation_fits(
            t as int,
            clock_of(board.side_to_move == Color::White, *p).1 as int,
            clock_of(board.side_to_move == Color::White, *p).2,
            popcount(board.all_occupancy) as int,
        )),
    ensures
        r == go_plan_spec(*p, board.side_to_move == Color::White, popcount(board.all_occupancy) as int),
{
    let white = board.side_to_move == Color::White;
    let pieces = count_bits(board.all_occupancy);
    let limit = match p.movetime {
        Some(mt) => Some(mt.saturating_sub(20)),
        None => if p.infinite {
            None
        } else {
            allocate_time(white, pieces, p)
        },
    };
    let depth = match p.depth {
        Some(d) => d,
        None => if limit.is_some() || p.infinite || p.nodes.is_some() {
            100
        } else {
            6
        },
    };
    (limit, depth)
}

/// The word `moves`.
pub open spec fn moves_word() -> Seq<char> {
    seq!['m', 'o', 'v', 'e', 's']
}

/// The position of the first `moves` from `i` on (the length when none).
pub open spec fn moves_from(a: Seq<Seq<char>>, i: int) -> int
    decreases a.len() - i,
{
    if i < 0 || i >= a.len() {
        a.len() as int
    } else if a[i] == moves_word() {
        i
    } else {
        moves_from(a, i + 1)
    }
}

/// Where the moves of a `position` command would follow: after
/// `startpos`, after the FEN words, else at the start.
pub open spec fn moves_at(a: Seq<Seq<char>>) -> int {
    if a.len() == 0 {
        0
    } else if a[0] == seq!['s', 't', 'a', 'r', 't', 'p', 'o', 's'] {
        1
    } else if a[0] == seq!['f', 'e', 'n'] {
        moves_from(a, 1)
    } else {
        0
    }
}

/// The arguments of `position` can be read: the FEN, when given, is in
/// range (see [`fen_in_range`]) and the move words are ASCII with their
/// squares' letters and digits not before `a` and `1`.
pub open spec fn position_readable(a: Seq<Seq<char>>) -> bool {
    &&& (a.len() > 0 && a[0] == seq!['f', 'e', 'n']) ==> !(fen_outcome(joined(a.subrange(1, moves_from(a, 1)))) is Fault)
    &&& (moves_at(a) < a.len() && a[moves_at(a)] == moves_word()) ==> forall|j: int|
        moves_at(a) < j < a.len() ==> move_text_in_range(#[trigger] a[j])
}

/// The position the arguments of `position` set up before their moves,
/// from the board `b_old` the command finds: the start position after
/// `startpos`; after `fen`, the position the FEN words describe, or `b_old`
/// when they describe none; else `b_old`.
pub open spec fn set_up(a: Seq<Seq<char>>, b_old: Board, b: Board) -> bool {
    if a.len() > 0 && a[0] == seq!['s', 't', 'a', 'r', 't', 'p', 'o', 's'] {
        b.is_start_position()
    } else if a.len() > 0 && a[0] == seq!['f', 'e', 'n'] {
        match fen_outcome(joined(a.subrange(1, moves_from(a, 1)))) {
            FenOutcome::Parsed(d) => holds_position(b, d),
            _ => b == b_old,
        }
    } else {
        b == b_old
    }
}

/// The move words of the arguments of `position`: those after `moves`
/// where it follows the set-up, else none.
pub open spec fn move_words(a: Seq<Seq<char>>) -> Seq<Seq<char>> {
    if moves_at(a) < a.len() && a[moves_at(a)] == moves_word() {
        a.subrange(moves_at(a) + 1, a.len() as int)
    } else {
        Seq::empty()
    }
}

/// `bs` are the boards as the move words `ws` are played in turn: each
/// word either skipped, or naming the legal move that leads to the next
/// board.
pub open spec fn played_line(bs: Seq<Board>, ws: Seq<Seq<char>>) -> bool {
    &&& bs.len() == ws.len() + 1
    &&& forall|i: int|
        0 <= i < ws.len() ==> #[trigger] bs[i + 1] == bs[i] || exists|m: Move, st: UndoState|
            #[trigger] made_from(bs[i], m, st, bs[i + 1]) && bs[i].legal(m) && names_move(ws[i], m)
}

/// Sets up the position of a `position` command: `startpos` or `fen`
/// and the FEN words (an unreadable FEN leaves the board as it is), then
/// after `moves` plays each move the text names, skipping those that name
/// no legal move. The moves stop when the side to move has no king.
pub fn apply_position(board: &mut Board, args: &Vec<Vec<char>>)
    requires
        old(board).wf(),
        position_readable(words_view(args@)),
    ensures
        final(board).wf(),
        args@.len() == 0 ==> crate::board::make_move::restores(*final(board), *old(board)),
        final(board).keys == old(board).keys,
        exists|bs: Seq<Board>|
            #[trigger] played_line(bs, move_words(words_view(args@))) && set_up(words_view(args@), *old(board), bs[0])
                && bs.last() == *final(board),
{
    let ghost a = words_view(args@);
    let ghost b_old = *board;
    proof {
        crate::board::make_move::lemma_restores_refl(*board);
    }
    let n = args.len();
    if n == 0 {
        assert(set_up(a, b_old, *board));
        assert(move_words(a) =~= Seq::<Seq<char>>::empty());
        assert(played_line(seq![*board], move_words(a)));
        return;
    }
    assert(a[0] == args@[0]@);
    let mut idx: usize = 0;
    if word_is(&args[0], &['s', 't', 'a', 'r', 't', 'p', 'o', 's']) {
        *board = Board::startpos_keyed(board.keys);
        idx = 1;
    } else if word_is(&args[0], &['f', 'e', 'n']) {
        idx = 1;
        let mut fen: Vec<char> = Vec::new();
        assert(a.subrange(1, 1) =~= Seq::<Seq<char>>::empty());
        while idx < n && !word_is(&args[idx], &['m', 'o', 'v', 'e', 's'])
            invariant
                1 <= idx <= n,
                n == args@.len(),
                a == words_view(args@),
                a[0] == seq!['f', 'e', 'n'],
                moves_from(a, 1) == moves_from(a, idx as int),
                fen@ == joined(a.subrange(1, idx as int)),
                *board == b_old,
            decreases n - idx,
        {
            assert(a[idx as int] == args@[idx as int]@);
            let ghost before = fen@;
            if idx > 1 {
                fen.push(' ');
            }
            let mut k: usize = 0;
            let ghost mid = fen@;
            while k < args[idx].len()
                invariant
                    k <= args@[idx as int]@.len(),
                    idx < n,
                    n == args@.len(),
                    fen@ == mid + args@[idx as int]@.take(k as int),
                decreases args@[idx as int]@.len() - k,
            {
                fen.push(args[idx][k]);
                assert(args@[idx as int]@.take(k + 1) =~= args@[idx as int]@.take(k as int).push(args@[idx as int]@[k as int]));
                k = k + 1;
            }
            assert(args@[idx as int]@.take(k as int) =~= args@[idx as int]@);
            assert(a.subrange(1, idx + 1).drop_last() =~= a.subrange(1, idx as int));
            if idx > 1 {
                assert(fen@ =~= joined(a.subrange(1, idx + 1)));
            } else {
                assert(a.subrange(1, 2) =~= seq![a[1]]);
                assert(fen@ =~= joined(a.subrange(1, idx + 1)));
            }
            idx = idx + 1;
        }
        if idx < n {
            assert(a[idx as int] == args@[idx as int]@);
        }
        assert(moves_from(a, 1) == idx);
        let text = string_from_chars(&fen);
        if let Some(b) = Board::from_fen_keyed(text.as_str(), board.keys) {
            *board = b;
        }
    }
    assert(idx as int == moves_at(a));
    let ghost b_set = *board;
    assert(set_up(a, b_old, b_set));
    let ghost mut bs: Seq<Board> = seq![b_set];
    if idx < n && word_is(&args[idx], &['m', 'o', 'v', 'e', 's']) {
        assert(a[idx as int] == args@[idx as int]@);
        let mut j = idx + 1;
        assert(played_line(bs, a.subrange(idx + 1, j as int)));
        while j < n
            invariant
                idx < j <= n,
                n == args@.len(),
                a == words_view(args@),
                idx as int == moves_at(a),
                a[idx as int] == moves_word(),
                position_readable(a),
                board.wf(),
                played_line(bs, a.subrange(idx + 1, j as int)),
                bs[0] == b_set,
                bs.last() == *board,
                board.keys == b_old.keys,
            decreases n - j,
        {
            let ghost b_prev = *board;
            let ghost ws = a.subrange(idx + 1, j + 1);
            if board.kings[board.side_to_move.idx()] != 0 {
                proof {
                    crate::movegen::lemma_king_ep_checkable(*board);
                }
                assert(a[j as int] == args@[j as int]@);
                let text = string_from_chars(&args[j]);
                if let Some(m) = board.parse_move(text.as_str()) {
                    if crate::engine::search::can_play(board, m) {
                        proof {
                            let ps = choose|ps: Seq<Move>| #[trigger] crate::movegen::pseudo_buffer(b_prev, crate::movegen::GenType::All, ps) && {
                                let ls = ps.filter(|mv: Move| b_prev.legal(mv));
                                &&& (Some(m) is None <==> forall|i: int| 0 <= i < ls.len() ==> !names_move(text@, #[trigger] ls[i]))
                                &&& (Some(m) matches Some(mm) ==> exists|i: int| 0 <= i < ls.len() && ls[i] == mm && names_move(text@, mm)
                                    && forall|k: int| 0 <= k < i ==> !names_move(text@, #[trigger] ls[k]))
                            };
                            let ls = ps.filter(|mv: Move| b_prev.legal(mv));
                            let i = choose|i: int| 0 <= i < ls.len() && ls[i] == m && names_move(text@, m)
                                && forall|k: int| 0 <= k < i ==> !names_move(text@, #[trigger] ls[k]);
                            ps.lemma_filter_pred(|mv: Move| b_prev.legal(mv), i);
                        }
                        let st = board.make_move(m);
                        assert(made_from(b_prev, m, st, *board) && b_prev.legal(m) && names_move(a[j as int], m));
                    }
                }
            }
            proof {
                let bs2 = bs.push(*board);
                assert forall|i: int| 0 <= i < ws.len() implies #[trigger] bs2[i + 1] == bs2[i] || exists|m: Move, st: UndoState|
                    #[trigger] made_from(bs2[i], m, st, bs2[i + 1]) && bs2[i].legal(m) && names_move(ws[i], m) by {
                    if i < ws.len() - 1 {
                        assert(bs2[i] == bs[i] && bs2[i + 1] == bs[i + 1]);
                        assert(ws[i] == a.subrange(idx + 1, j as int)[i]);
                    } else {
                        assert(bs2[i] == b_prev && bs2[i + 1] == *board);
                        assert(ws[i] == a[j as int]);
                    }
                }
                bs = bs2;
            }
            j = j + 1;
        }
        assert(a.subrange(idx + 1, j as int) =~= move_words(a));
    } else {
        assert(move_words(a) =~= Seq::<Seq<char>>::empty());
        assert(played_line(bs, move_words(a)));
    }
    assert(played_line(bs, move_words(a)) && set_up(a, b_old, bs[0]) && bs.last() == *board);
}

/// The result of a finished game.
#[derive(Clone, Copy, PartialEq, Eq, Debug, Structural)]
pub enum GameResult {
    WhiteWins,
    BlackWins,
    Draw,
}

/// The result of a game stopped in a position: a loss for the side to move
/// when it has no legal move and is in check, else a draw.
pub open spec fn result_of(b: Board, no_moves: bool) -> GameResult {
    if no_moves && b.in_check(b.side_to_move) {
        if b.side_to_move == Color::White {
            GameResult::BlackWins
        } else {
            GameResult::WhiteWins
        }
    } else {
        GameResult::Draw
    }
}

/// The result of a game stopped in a position (see [`result_of`]).
pub fn adjudicate_result(board: &Board) -> (r: GameResult)
    requires
        board.wf(),
        crate::movegen::ep_checkable(*board),
    ensures
        exists|ps: Seq<crate::board::moves::Move>| #[trigger] crate::movegen::pseudo_buffer(*board, crate::movegen::GenType::All, ps)
            && r == result_of(*board, ps.filter(|m: crate::board::moves::Move| board.legal(m)).len() == 0),
{
    let legal = crate::movegen::generate_legal_moves(board);
    if !legal.is_empty() {
        return GameResult::Draw;
    }
    if crate::movegen::is_check(board) {
        if board.side_to_move == Color::White {
            GameResult::BlackWins
        } else {
            GameResult::WhiteWins
        }
    } else {
        GameResult::Draw
    }
}

/// Whether the `go` plan's time allocation stays within a `u64` (see
/// [`go_plan`]'s precondition).
pub fn go_plan_fits(p: &GoParams, board: &Board) -> (r: bool)
    ensures
        r == (p.movetime.is_none() && !p.infinite ==> (clock_of(board.side_to_move == Color::White, *p).0 matches Some(t)
            ==> allocation_fits(
            t as int,
            clock_of(board.side_to_move == Color::White, *p).1 as int,
            clock_of(board.side_to_move == Color::White, *p).2,
            popcount(board.all_occupancy) as int,
        ))),
{
    if p.movetime.is_some() || p.infinite {
        return true;
    }
    let white = board.side_to_move == Color::White;
    let (my_time, my_inc) = if white { (p.wtime, p.winc) } else { (p.btime, p.binc) };
    let time = match my_time {
        Some(t) => t,
        None => {
            return true;
        },
    };
    let mtg: u64 = match p.movestogo {
        Some(m) => m,
        None => 30,
    };
    if mtg < 1 {
        return false;
    }
    let pieces = count_bits(board.all_occupancy);
    let inc3: u128 = (my_inc as u128) * 3;
    let a0: u128 = (time as u128) / (mtg as u128) + inc3 / 4;
    let max: u128 = 0xFFFF_FFFF_FFFF_FFFF;
    inc3 <= max && a0 <= max && (pieces <= 20 || a0 * 12 <= max) && (pieces >= 10 || a0 * 8 <= max) && (time as u128) * 8
        <= max
}

/// Whether the arguments of `position` can be read (see
/// [`position_readable`]).
pub fn position_args_readable(args: &Vec<Vec<char>>) -> (r: bool)
    ensures
        r == position_readable(words_view(args@)),
{
    let ghost a = words_view(args@);
    let n = args.len();
    let mut idx: usize = 0;
    let mut fen_ok = true;
    if n > 0 {
        assert(a[0] == args@[0]@);
    }
    if n > 0 && word_is(&args[0], &['s', 't', 'a', 'r', 't', 'p', 'o', 's']) {
        idx = 1;
    } else if n > 0 && word_is(&args[0], &['f', 'e', 'n']) {
        idx = 1;
        let mut fen: Vec<char> = Vec::new();
        assert(a.subrange(1, 1) =~= Seq::<Seq<char>>::empty());
        while idx < n && !word_is(&args[idx], &['m', 'o', 'v', 'e', 's'])
            invariant
                1 <= idx <= n,
                n == args@.len(),
                a == words_view(args@),
                a[0] == seq!['f', 'e', 'n'],
                moves_from(a, 1) == moves_from(a, idx as int),
                fen@ == joined(a.subrange(1, idx as int)),
            decreases n - idx,
        {
            assert(a[idx as int] == args@[idx as int]@);
            if idx > 1 {
                fen.push(' ');
            }
            let mut k: usize = 0;
            let ghost mid = fen@;
            while k < args[idx].len()
                invariant
                    k <= args@[idx as int]@.len(),
                    idx < n,
                    n == args@.len(),
                    fen@ == mid + args@[idx as int]@.take(k as int),
                decreases args@[idx as int]@.len() - k,
            {
                fen.push(args[idx][k]);
                assert(args@[idx as int]@.take(k + 1) =~= args@[idx as int]@.take(k as int).push(args@[idx as int]@[k as int]));
                k = k + 1;
            }
            assert(args@[idx as int]@.take(k as int) =~= args@[idx as int]@);
            assert(a.subrange(1, idx + 1).drop_last() =~= a.subrange(1, idx as int));
            if idx > 1 {
                assert(fen@ =~= joined(a.subrange(1, idx + 1)));
            } else {
                assert(a.subrange(1, 2) =~= seq![a[1]]);
                assert(fen@ =~= joined(a.subrange(1, idx + 1)));
            }
            idx = idx + 1;
        }
        if idx < n {
            assert(a[idx as int] == args@[idx as int]@);
        }
        let text = string_from_chars(&fen);
        fen_ok = fen_in_range(text.as_str());
    }
    assert(idx as int == moves_at(a));
    if idx < n {
        assert(a[idx as int] == args@[idx as int]@);
    }
    let mut moves_ok = true;
    if idx < n && word_is(&args[idx], &['m', 'o', 'v', 'e', 's']) {
        let mut j = idx + 1;
        while j < n
            invariant
                idx < j <= n,
                n == args@.len(),
                a == words_view(args@),
                moves_ok == forall|k: int| idx < k < j ==> move_text_in_range(#[trigger] a[k]),
            decreases n - j,
        {
            assert(a[j as int] == args@[j as int]@);
            let text = string_from_chars(&args[j]);
            if !crate::board::notation::move_text_readable(text.as_str()) {
                moves_ok = false;
            }
            j = j + 1;
        }
    }
    fen_ok && moves_ok
}

} // verus!
