//! Alpha-beta search: iterative deepening with aspiration windows over a
//! principal variation search with pruning, reductions and a quiescence
//! search, sharing a transposition table with helper searchers.
use vstd::prelude::*;
use std::sync::Arc;
use std::sync::atomic::{AtomicBool, AtomicU64, Ordering};
use std::time::Instant;
use crate::board::bitboard::{in_bb, popcount, count_bits, group_bitboard};
use crate::board::board::Board;
use crate::board::moves::{Move, flags};
use crate::board::piece::{Color, PieceType};
use crate::board::make_move::{UndoState, move_reversible, ep_capture_square, castle_rook_from, castle_rook_to, is_castle_flag, is_capture_flag, double_push_ep_square};
use crate::engine::eval::{cached_entry, entry_in_use, eval_spec, eval_view, evaluate_with_table, pawn_eval, PawnTable, pawns_on_inner_ranks, tdiv};
use crate::engine::tt::{TranspositionTable, NodeType};
use crate::engine::movepicker::MovePicker;
use crate::board::make_move::{restores, made_from, null_made_from, lemma_restores_trans, lemma_restores_refl, lemma_made_from_restored, lemma_null_made_from_restored};
use crate::geometry::rank_of;
use crate::movegen::GenType;
use crate::movegen::rules::pseudo_move;
use crate::text::{decimal, push_char, push_str, push_signed, push_decimal, signed_decimal, word_is};

verus! {

broadcast use group_bitboard;

/// A score beyond every evaluation: the initial window bound.
pub const INFINITY: i32 = 1000000;
/// The score of giving mate at the root; mate in `n` plies scores `MATE_VALUE - n`.
pub const MATE_VALUE: i32 = 100000;
/// The deepest ply the search tables cover.
pub const MAX_PLY: usize = 128;
/// The margin of delta pruning in the quiescence search.
pub const DELTA_MARGIN: i32 = 200;
/// The score marking a missing value.
pub const VALUE_NONE: i32 = 32001;
/// The deepest search the library accepts: depth squared must fit an `i32`.
pub const MAX_DEPTH: u32 = 46000;

/// The size of the `[side][from][to]` history tables.
pub const HISTORY_SIZE: usize = 8192;
/// The size of the `[side][attacker][to][victim]` capture history.
pub const CAPTURE_HISTORY_SIZE: usize = 49152;
/// The size of the `[side][previous to][from][to]` counter-move history.
pub const CMH_SIZE: usize = 524288;
/// The size of the `[level][previous piece][previous to][piece][to]` continuation history.
pub const CONT_HISTORY_SIZE: usize = 802816;
/// The size of the `[side][previous from | previous to << 6]` counter-move table.
pub const COUNTER_MOVES_SIZE: usize = 8192;
/// The bound on every history score.
pub const HISTORY_MAX: i32 = 1000000;

/// The late-move-reduction factors: `21.4609375 * ln(i)` rounded toward
/// zero, and zero for `i == 0`.
#[verifier::opaque]
pub open spec fn lmr_values() -> Seq<i32> {
    seq![
        0, 0, 14, 23, 29, 34, 38, 41, 44, 47, 49, 51, 53, 55, 56, 58, 59, 60, 62, 63, 64, 65, 66, 67, 68, 69, 69, 70,
        71, 72, 72, 73, 74, 75, 75, 76, 76, 77, 78, 78, 79, 79, 80, 80, 81, 81, 82, 82, 83, 83, 83, 84, 84, 85, 85, 86,
        86, 86, 87, 87, 87, 88, 88, 88, 89, 89, 89, 90, 90, 90, 91, 91, 91, 92, 92, 92, 92, 93, 93, 93, 94, 94, 94, 94,
        95, 95, 95, 95, 96, 96, 96, 96, 97, 97, 97, 97, 97, 98, 98, 98, 98, 99, 99, 99, 99, 99, 100, 100, 100, 100, 100,
        101, 101, 101, 101, 101, 102, 102, 102, 102, 102, 102, 103, 103, 103, 103, 103, 103, 104, 104, 104, 104, 104,
        104, 105, 105, 105, 105, 105, 105, 106, 106, 106, 106, 106, 106, 106, 107, 107, 107, 107, 107, 107, 107, 108,
        108, 108, 108, 108, 108, 108, 109, 109, 109, 109, 109, 109, 109, 109, 110, 110, 110, 110, 110, 110, 110, 110,
        111, 111, 111, 111, 111, 111, 111, 111, 112, 112, 112, 112, 112, 112, 112, 112, 112, 113, 113, 113, 113, 113,
        113, 113, 113, 113, 114, 114, 114, 114, 114, 114, 114, 114, 114, 114, 115, 115, 115, 115, 115, 115, 115, 115,
        115, 115, 116, 116, 116, 116, 116, 116, 116, 116, 116, 116, 116, 117, 117, 117, 117, 117, 117, 117, 117, 117,
        117, 117, 118, 118, 118, 118, 118, 118, 118, 118, 118, 118, 118
    ]
}

/// The reduction factors: 256 of them, from 0 to 118.
proof fn lemma_lmr_values()
    ensures
        lmr_values().len() == 256,
        forall|i: int| 0 <= i < 256 ==> 0 <= #[trigger] lmr_values()[i] <= 118,
{
    reveal(lmr_values);
}

/// The reduction factors never fall as the index grows.
proof fn lemma_lmr_monotone(i: int, j: int)
    requires
        0 <= i <= j < 256,
    ensures
        lmr_values()[i] <= lmr_values()[j],
    decreases j - i,
{
    if i < j {
        lemma_lmr_steps();
        lemma_lmr_monotone(i, j - 1);
        assert(lmr_values()[j - 1] <= lmr_values()[j]);
    }
}

proof fn lemma_lmr_steps()
    ensures
        forall|k: int| 0 <= k < 255 ==> #[trigger] lmr_values()[k] <= lmr_values()[k + 1],
{
    reveal(lmr_values);
}

/// The table of late-move-reduction factors.
pub fn build_lmr_table() -> (t: Vec<i32>)
    ensures
        t@ == lmr_values(),
{
    let a: [i32; 256] = [
        0, 0, 14, 23, 29, 34, 38, 41, 44, 47, 49, 51, 53, 55, 56, 58, 59, 60, 62, 63, 64, 65, 66, 67, 68, 69, 69, 70,
        71, 72, 72, 73, 74, 75, 75, 76, 76, 77, 78, 78, 79, 79, 80, 80, 81, 81, 82, 82, 83, 83, 83, 84, 84, 85, 85, 86,
        86, 86, 87, 87, 87, 88, 88, 88, 89, 89, 89, 90, 90, 90, 91, 91, 91, 92, 92, 92, 92, 93, 93, 93, 94, 94, 94, 94,
        95, 95, 95, 95, 96, 96, 96, 96, 97, 97, 97, 97, 97, 98, 98, 98, 98, 99, 99, 99, 99, 99, 100, 100, 100, 100, 100,
        101, 101, 101, 101, 101, 102, 102, 102, 102, 102, 102, 103, 103, 103, 103, 103, 103, 104, 104, 104, 104, 104,
        104, 105, 105, 105, 105, 105, 105, 106, 106, 106, 106, 106, 106, 106, 107, 107, 107, 107, 107, 107, 107, 108,
        108, 108, 108, 108, 108, 108, 109, 109, 109, 109, 109, 109, 109, 109, 110, 110, 110, 110, 110, 110, 110, 110,
        111, 111, 111, 111, 111, 111, 111, 111, 112, 112, 112, 112, 112, 112, 112, 112, 112, 113, 113, 113, 113, 113,
        113, 113, 113, 113, 114, 114, 114, 114, 114, 114, 114, 114, 114, 114, 115, 115, 115, 115, 115, 115, 115, 115,
        115, 115, 116, 116, 116, 116, 116, 116, 116, 116, 116, 116, 116, 117, 117, 117, 117, 117, 117, 117, 117, 117,
        117, 117, 118, 118, 118, 118, 118, 118, 118, 118, 118, 118, 118
    ];
    let mut t: Vec<i32> = Vec::new();
    let mut i: usize = 0;
    while i < 256
        invariant
            i <= 256,
            t@ == a@.take(i as int),
        decreases 256 - i,
    {
        t.push(a[i]);
        assert(a@.take(i as int + 1) =~= a@.take(i as int).push(a@[i as int]));
        i = i + 1;
    }
    assert(a@.take(256) =~= a@);
    assert(a@ =~= lmr_values()) by {
        reveal(lmr_values);
    }
    t
}

/// Which search features are switched on.
#[derive(Clone, Copy)]
pub struct SearchSettings {
    pub aspiration_windows: bool,
    pub mate_distance_pruning: bool,
    pub iir: bool,
    pub rfp: bool,
    pub nmp: bool,
    pub singular_extensions: bool,
    pub fp: bool,
    pub history_pruning: bool,
    pub see_pruning: bool,
    pub lmp: bool,
    pub lmr: bool,
    pub delta_pruning: bool,
}

/// The settings with the given features on (aspiration windows, mate
/// distance pruning, internal iterative reduction, reverse futility,
/// null move, singular extensions, futility, history pruning, SEE pruning,
/// late move pruning, late move reductions, delta pruning).
pub open spec fn settings_of(f: Seq<bool>) -> SearchSettings {
    SearchSettings {
        aspiration_windows: f[0],
        mate_distance_pruning: f[1],
        iir: f[2],
        rfp: f[3],
        nmp: f[4],
        singular_extensions: f[5],
        fp: f[6],
        history_pruning: f[7],
        see_pruning: f[8],
        lmp: f[9],
        lmr: f[10],
        delta_pruning: f[11],
    }
}

/// Every feature but singular extensions.
pub open spec fn default_settings() -> SearchSettings {
    settings_of(seq![true, true, true, true, true, false, true, true, true, true, true, true])
}

/// No feature.
pub open spec fn no_settings() -> SearchSettings {
    settings_of(seq![false, false, false, false, false, false, false, false, false, false, false, false])
}

/// Aspiration windows, mate distance pruning, reverse futility, null move,
/// SEE pruning and late move reductions.
pub open spec fn baseline_settings() -> SearchSettings {
    settings_of(seq![true, true, false, true, true, false, false, false, true, false, true, false])
}

impl Default for SearchSettings {
    fn default() -> (s: SearchSettings)
        ensures
            s == default_settings(),
    {
        SearchSettings {
            aspiration_windows: true,
            mate_distance_pruning: true,
            iir: true,
            rfp: true,
            nmp: true,
            singular_extensions: false,
            fp: true,
            history_pruning: true,
            see_pruning: true,
            lmp: true,
            lmr: true,
            delta_pruning: true,
        }
    }
}

/// The lower-case form of an ASCII letter; other characters unchanged.
pub open spec fn lower(c: char) -> char {
    if 'A' <= c && c <= 'Z' {
        ((c as u32) + 32) as char
    } else {
        c
    }
}

/// A word with its letters in lower case.
pub open spec fn lowered(w: Seq<char>) -> Seq<char> {
    w.map_values(|c: char| lower(c))
}

/// A word without leading white space.
pub open spec fn trim_start(w: Seq<char>) -> Seq<char>
    decreases w.len(),
{
    if w.len() > 0 && crate::text::is_ws(w[0]) {
        trim_start(w.drop_first())
    } else {
        w
    }
}

/// A word without trailing white space.
pub open spec fn trim_end(w: Seq<char>) -> Seq<char>
    decreases w.len(),
{
    if w.len() > 0 && crate::text::is_ws(w.last()) {
        trim_end(w.drop_last())
    } else {
        w
    }
}

/// A word without leading and trailing white space.
pub open spec fn trimmed(w: Seq<char>) -> Seq<char> {
    trim_end(trim_start(w))
}

/// The comma-separated parts of a text, the empty ones included.
pub open spec fn comma_parts(s: Seq<char>) -> Seq<Seq<char>>
    decreases s.len(),
{
    if s.len() == 0 {
        seq![Seq::empty()]
    } else {
        let rest = comma_parts(s.drop_last());
        if s.last() == ',' {
            rest.push(Seq::empty())
        } else {
            rest.update(rest.len() - 1, rest.last().push(s.last()))
        }
    }
}

/// The feature a word names, by its number (see [`settings_of`]): 12 for
/// `baseline`, -1 for any other word.
#[verifier::opaque]
pub open spec fn feature_index(w: Seq<char>) -> int {
    if w == seq!['a', 's', 'p', 'i', 'r', 'a', 't', 'i', 'o', 'n'] || w == seq!['a', 'w'] {
        0
    } else if w == seq!['m', 'a', 't', 'e', '_', 'p', 'r', 'u', 'n', 'i', 'n', 'g'] || w == seq!['m', 'd', 'p'] {
        1
    } else if w == seq!['i', 'i', 'r'] {
        2
    } else if w == seq!['r', 'f', 'p'] {
        3
    } else if w == seq!['n', 'm', 'p'] {
        4
    } else if w == seq!['s', 'i', 'n', 'g', 'u', 'l', 'a', 'r'] || w == seq!['s', 'e'] {
        5
    } else if w == seq!['f', 'p'] {
        6
    } else if w == seq!['h', 'i', 's', 't', 'o', 'r', 'y'] || w == seq!['h', 'p'] {
        7
    } else if w == seq!['s', 'e', 'e'] {
        8
    } else if w == seq!['l', 'm', 'p'] {
        9
    } else if w == seq!['l', 'm', 'r'] {
        10
    } else if w == seq!['d', 'e', 'l', 't', 'a'] {
        11
    } else if w == seq!['b', 'a', 's', 'e', 'l', 'i', 'n', 'e'] {
        12
    } else {
        -1
    }
}

/// The settings after reading one word: a feature name turns that feature
/// on, `baseline` turns the baseline features on, anything else changes
/// nothing (`all` and `none` end the reading, see [`settings_from_words`]).
pub open spec fn apply_word(s: SearchSettings, w: Seq<char>) -> SearchSettings {
    apply_feature(s, feature_index(w))
}

/// The settings with the feature numbered `k` turned on (see
/// [`settings_of`]); for 12 the baseline features (see
/// [`baseline_settings`]); for another number none.
pub open spec fn apply_feature(s: SearchSettings, k: int) -> SearchSettings {
    SearchSettings {
        aspiration_windows: s.aspiration_windows || k == 0 || k == 12,
        mate_distance_pruning: s.mate_distance_pruning || k == 1 || k == 12,
        iir: s.iir || k == 2,
        rfp: s.rfp || k == 3 || k == 12,
        nmp: s.nmp || k == 4 || k == 12,
        singular_extensions: s.singular_extensions || k == 5,
        fp: s.fp || k == 6,
        history_pruning: s.history_pruning || k == 7,
        see_pruning: s.see_pruning || k == 8 || k == 12,
        lmp: s.lmp || k == 9,
        lmr: s.lmr || k == 10 || k == 12,
        delta_pruning: s.delta_pruning || k == 11,
    }
}

/// The settings a list of words describes, starting from `s`: the first
/// `all` gives every default feature and the first `none` no feature,
/// whatever came before them.
pub open spec fn settings_from_words(s: SearchSettings, ws: Seq<Seq<char>>) -> SearchSettings
    decreases ws.len(),
{
    if ws.len() == 0 {
        s
    } else if ws[0] == seq!['a', 'l', 'l'] {
        default_settings()
    } else if ws[0] == seq!['n', 'o', 'n', 'e'] {
        no_settings()
    } else {
        settings_from_words(apply_word(s, ws[0]), ws.drop_first())
    }
}

impl SearchSettings {
    /// Every feature off.
    pub fn none() -> (s: SearchSettings)
        ensures
            s == no_settings(),
    {
        SearchSettings {
            aspiration_windows: false,
            mate_distance_pruning: false,
            iir: false,
            rfp: false,
            nmp: false,
            singular_extensions: false,
            fp: false,
            history_pruning: false,
            see_pruning: false,
            lmp: false,
            lmr: false,
            delta_pruning: false,
        }
    }

    /// The baseline features on: aspiration windows, mate distance
    /// pruning, reverse futility, null move, SEE pruning and late move
    /// reductions.
    pub fn baseline() -> (s: SearchSettings)
        ensures
            s == baseline_settings(),
    {
        SearchSettings {
            aspiration_windows: true,
            mate_distance_pruning: true,
            rfp: true,
            nmp: true,
            see_pruning: true,
            lmr: true,
            ..SearchSettings::none()
        }
    }
}

/// The outcome of a search: the best move found, its score and the last
/// completed depth.
pub struct SearchResult {
    pub best_move: Option<Move>,
    pub score: i32,
    pub depth: u32,
}

/// What an aspiration search does after a search of the window returned a
/// score: the next window and margin, whether the depth is settled, and
/// whether the search's move is kept.
#[derive(PartialEq, Eq, Clone, Copy, Structural)]
pub struct WindowStep {
    pub alpha: i32,
    pub beta: i32,
    pub delta: i32,
    pub settled: bool,
    pub keep_move: bool,
}

/// The next step of an aspiration search: a score at most alpha lowers
/// alpha by the margin (fully near mate scores), one at least beta raises
/// beta likewise, and the margin doubles; once the margin has reached
/// 2^29 a failed search settles the depth, and once it reaches 10000 the
/// window opens fully. A score inside the window settles the depth.
pub open spec fn window_step_spec(score: int, alpha: int, beta: int, delta: int) -> WindowStep {
    if score <= alpha {
        let a = if alpha - delta > -INFINITY { alpha - delta } else { -INFINITY as int };
        if delta >= 0x2000_0000 {
            WindowStep { alpha: a as i32, beta: beta as i32, delta: delta as i32, settled: true, keep_move: false }
        } else {
            let d = delta * 2;
            let a2 = if a <= -MATE_VALUE + 1000 { -INFINITY as int } else { a };
            if d >= 10000 {
                WindowStep { alpha: (-INFINITY) as i32, beta: INFINITY, delta: d as i32, settled: false, keep_move: true }
            } else {
                WindowStep { alpha: a2 as i32, beta: beta as i32, delta: d as i32, settled: false, keep_move: true }
            }
        }
    } else if score >= beta {
        let bb = if beta + delta < INFINITY { beta + delta } else { INFINITY as int };
        if delta >= 0x2000_0000 {
            WindowStep { alpha: alpha as i32, beta: bb as i32, delta: delta as i32, settled: true, keep_move: false }
        } else {
            let d = delta * 2;
            let b2 = if bb >= MATE_VALUE - 1000 { INFINITY as int } else { bb };
            if d >= 10000 {
                WindowStep { alpha: (-INFINITY) as i32, beta: INFINITY, delta: d as i32, settled: false, keep_move: true }
            } else {
                WindowStep { alpha: alpha as i32, beta: b2 as i32, delta: d as i32, settled: false, keep_move: true }
            }
        }
    } else {
        WindowStep { alpha: alpha as i32, beta: beta as i32, delta: delta as i32, settled: true, keep_move: true }
    }
}

/// The next step of an aspiration search given the score the search of
/// the window returned (see [`window_step_spec`]).
pub fn window_step(score: i32, alpha: i32, beta: i32, delta: i32) -> (r: WindowStep)
    requires
        -INFINITY <= alpha < beta <= INFINITY,
        50 <= delta <= 0x4000_0000,
    ensures
        r == window_step_spec(score as int, alpha as int, beta as int, delta as int),
        !r.settled ==> -INFINITY <= r.alpha < r.beta <= INFINITY && 50 <= r.delta <= 0x4000_0000 && r.delta > delta,
        !r.settled && beta - alpha > 1 ==> r.beta - r.alpha > 1,
{
    if score <= alpha {
        let mut a = if alpha - delta > -INFINITY { alpha - delta } else { -INFINITY };
        if delta >= 0x2000_0000 {
            return WindowStep { alpha: a, beta, delta, settled: true, keep_move: false };
        }
        let d = delta * 2;
        if a <= -MATE_VALUE + 1000 {
            a = -INFINITY;
        }
        if d >= 10000 {
            WindowStep { alpha: -INFINITY, beta: INFINITY, delta: d, settled: false, keep_move: true }
        } else {
            WindowStep { alpha: a, beta, delta: d, settled: false, keep_move: true }
        }
    } else if score >= beta {
        let mut b = if beta + delta < INFINITY { beta + delta } else { INFINITY };
        if delta >= 0x2000_0000 {
            return WindowStep { alpha, beta: b, delta, settled: true, keep_move: false };
        }
        let d = delta * 2;
        if b >= MATE_VALUE - 1000 {
            b = INFINITY;
        }
        if d >= 10000 {
            WindowStep { alpha: -INFINITY, beta: INFINITY, delta: d, settled: false, keep_move: true }
        } else {
            WindowStep { alpha, beta: b, delta: d, settled: false, keep_move: true }
        }
    } else {
        WindowStep { alpha, beta, delta, settled: true, keep_move: true }
    }
}

/// `std::time::Instant`, carried through the searcher as an opaque value.
#[verifier::external_type_specification]
#[verifier::external_body]
pub struct ExInstant(Instant);

/// Calls `Instant::now`. The current time: nothing is stated of it.
#[verifier::external_body]
fn now() -> Instant {
    Instant::now()
}

/// Calls `Instant::elapsed` and `Duration::as_millis`: the whole
/// milliseconds since `t`. They are read from the clock, so nothing is
/// stated of them.
#[verifier::external_body]
fn elapsed_millis(t: &Instant) -> u64 {
    t.elapsed().as_millis() as u64
}

/// Whether a search is out of time after `elapsed` milliseconds: the hard
/// limit when there is one, else the soft limit, has been reached.
pub open spec fn time_up_spec(elapsed: u64, soft: Option<u64>, hard: Option<u64>) -> bool {
    match hard {
        Some(h) => elapsed >= h,
        None => match soft {
            Some(t) => elapsed >= t,
            None => false,
        },
    }
}

/// Whether a search is out of time (see [`time_up_spec`]).
pub fn time_up(elapsed: u64, soft: Option<u64>, hard: Option<u64>) -> (r: bool)
    ensures
        r == time_up_spec(elapsed, soft, hard),
{
    let limit = match hard {
        Some(h) => Some(h),
        None => soft,
    };
    match limit {
        Some(l) => elapsed >= l,
        None => false,
    }
}

/// Whether iterative deepening stops after a completed depth at
/// `elapsed` milliseconds: the soft limit has been reached and the result
/// is stable, or the hard limit has been reached too.
pub open spec fn soft_stop_spec(elapsed: u64, soft: Option<u64>, hard: Option<u64>, stable: bool) -> bool {
    match soft {
        Some(t) => elapsed >= t && (stable || (hard matches Some(h) && elapsed >= h)),
        None => false,
    }
}

/// The searcher: shared node counter, stop flag and transposition table,
/// and the move-ordering tables of one thread.
pub struct Searcher {
    pub nodes: Arc<AtomicU64>,
    pub seldepth: u32,
    pub start_time: Instant,
    /// The soft time limit in milliseconds.
    pub soft_time_limit: Option<u64>,
    /// The hard time limit in milliseconds.
    pub hard_time_limit: Option<u64>,
    pub stop: Arc<AtomicBool>,
    pub is_main_thread: bool,
    pub tt: Arc<TranspositionTable>,
    /// Two killer moves per ply.
    pub killer_moves: Vec<[Option<Move>; 2]>,
    /// Quiet-move history, indexed `[side][from][to]`.
    pub history: Vec<i32>,
    /// Capture history, indexed `[side][attacker][to][victim]` (attacker and
    /// victim types capped at the king).
    pub capture_history: Vec<i32>,
    /// The reply that refuted a move, indexed `[side][from | to << 6]`.
    pub counter_moves: Vec<Option<Move>>,
    /// Counter-move history, indexed `[side][previous to][from][to]`.
    pub cmh_history: Vec<i32>,
    /// Continuation history for the moves 1, 2, 4 and 6 plies back, indexed
    /// `[level][previous piece][previous to][piece][to]`.
    pub cont_history: Vec<i32>,
    /// The piece type (capped at 6) and target square played at each ply.
    pub move_stack: Vec<(usize, usize)>,
    pub age: u8,
    /// The static evaluation at each ply.
    pub eval_history: Vec<i32>,
    /// The principal variation from each ply, `MAX_PLY` entries per ply.
    pub pv_table: Vec<Option<Move>>,
    /// The length of the principal variation from each ply.
    pub pv_length: Vec<usize>,
    pub pawn_table: PawnTable,
    pub lmr_table: Vec<i32>,
    /// Quiet-move history near the root, indexed `[side][from][to]`.
    pub low_ply_history: Vec<i32>,
    pub root_delta: i32,
    pub last_info_time: Instant,
    pub settings: SearchSettings,
    /// The `info` lines the main searcher reports, oldest first.
    pub info_lines: Vec<String>,
    /// What the last iterative deepening did (see [`deepening_choice`]).
    pub deepening: Ghost<(Seq<(Option<Move>, i32)>, bool, bool, bool, (Option<Move>, i32))>,
}

/// A vector of `n` copies of `x`.
fn filled<T: Copy>(x: T, n: usize) -> (v: Vec<T>)
    ensures
        v@.len() == n,
        forall|i: int| 0 <= i < n ==> #[trigger] v@[i] == x,
{
    let mut v: Vec<T> = Vec::new();
    let mut i: usize = 0;
    while i < n
        invariant
            i <= n,
            v@.len() == i,
            forall|j: int| 0 <= j < i ==> #[trigger] v@[j] == x,
        decreases n - i,
    {
        v.push(x);
        i = i + 1;
    }
    v
}

/// All scores of a table lie within the history bound.
pub open spec fn bounded_table(t: Seq<i32>) -> bool {
    forall|i: int| 0 <= i < t.len() ==> -HISTORY_MAX <= #[trigger] t[i] <= HISTORY_MAX
}

impl Searcher {
    /// The tables have their sizes, the history scores their bounds, the
    /// move stack valid entries and each principal variation room in its row.
    pub open spec fn wf(self) -> bool {
        &&& self.killer_moves@.len() == MAX_PLY
        &&& self.history@.len() == HISTORY_SIZE
        &&& bounded_table(self.history@)
        &&& self.capture_history@.len() == CAPTURE_HISTORY_SIZE
        &&& bounded_table(self.capture_history@)
        &&& self.counter_moves@.len() == COUNTER_MOVES_SIZE
        &&& self.cmh_history@.len() == CMH_SIZE
        &&& bounded_table(self.cmh_history@)
        &&& self.cont_history@.len() == CONT_HISTORY_SIZE
        &&& bounded_table(self.cont_history@)
        &&& self.low_ply_history@.len() == HISTORY_SIZE
        &&& bounded_table(self.low_ply_history@)
        &&& self.move_stack@.len() == MAX_PLY
        &&& forall|p: int| 0 <= p < MAX_PLY ==> (#[trigger] self.move_stack@[p]).0 <= 6 && self.move_stack@[p].1 < 64
        &&& self.eval_history@.len() == MAX_PLY
        &&& self.pv_table@.len() == MAX_PLY * MAX_PLY
        &&& self.pv_length@.len() == MAX_PLY
        &&& forall|p: int| 0 <= p < MAX_PLY ==> #[trigger] self.pv_length@[p] + p <= MAX_PLY
        &&& self.pawn_table.wf()
        &&& self.lmr_table@ == lmr_values()
    }

    /// A searcher with empty tables and default settings, sharing `tt`.
    pub fn new(tt: Arc<TranspositionTable>) -> (s: Searcher)
        ensures
            s.wf(),
            s.tt == tt,
            s.seldepth == 0,
            s.soft_time_limit.is_none(),
            s.hard_time_limit.is_none(),
            s.is_main_thread,
            s.age == 0,
            s.root_delta == 400,
            s.settings == default_settings(),
            s.info_lines@.len() == 0,
            forall|i: int| 0 <= i < HISTORY_SIZE ==> #[trigger] s.history@[i] == 0,
            forall|i: int| 0 <= i < MAX_PLY ==> #[trigger] s.killer_moves@[i] == [None::<Move>, None],
            forall|i: int| 0 <= i < COUNTER_MOVES_SIZE ==> #[trigger] s.counter_moves@[i].is_none(),
    {
        let history = filled(0i32, HISTORY_SIZE);
        let capture_history = filled(0i32, CAPTURE_HISTORY_SIZE);
        let cmh_history = filled(0i32, CMH_SIZE);
        let cont_history = filled(0i32, CONT_HISTORY_SIZE);
        let low_ply_history = filled(0i32, HISTORY_SIZE);
        let no_killers: [Option<Move>; 2] = [None, None];
        let killer_moves = filled(no_killers, MAX_PLY);
        let no_move: Option<Move> = None;
        let counter_moves = filled(no_move, COUNTER_MOVES_SIZE);
        let move_stack = filled((0usize, 0usize), MAX_PLY);
        let eval_history = filled(0i32, MAX_PLY);
        let pv_table = filled(no_move, MAX_PLY * MAX_PLY);
        let pv_length = filled(0usize, MAX_PLY);
        let s = Searcher {
            nodes: Arc::new(AtomicU64::new(0)),
            seldepth: 0,
            start_time: now(),
            soft_time_limit: None,
            hard_time_limit: None,
            stop: Arc::new(AtomicBool::new(false)),
            is_main_thread: true,
            tt,
            killer_moves,
            history,
            capture_history,
            counter_moves,
            cmh_history,
            cont_history,
            move_stack,
            age: 0,
            eval_history,
            pv_table,
            pv_length,
            pawn_table: PawnTable::new(8192),
            lmr_table: build_lmr_table(),
            low_ply_history,
            root_delta: 400,
            last_info_time: now(),
            settings: SearchSettings::default(),
            info_lines: Vec::new(),
            deepening: Ghost((Seq::empty(), false, false, false, (None, 0))),
        };
        s
    }
}

/// A history score after a bonus: the bonus, less the score's share of it
/// (so that scores saturate).
pub open spec fn gravity_bonus(h: int, bonus: int) -> int {
    h + bonus - tdiv(h * bonus, 32768)
}

/// A history score after a malus.
pub open spec fn gravity_malus(h: int, malus: int) -> int {
    h - (malus + tdiv(h * malus, 32768))
}

/// Applies a bonus to a history score.
fn add_bonus(h: i32, bonus: i32) -> (r: i32)
    requires
        -HISTORY_MAX <= h <= HISTORY_MAX,
        0 <= bonus <= 400,
    ensures
        r == gravity_bonus(h as int, bonus as int),
        -HISTORY_MAX <= r <= HISTORY_MAX,
{
    assert(-400000000 <= h * bonus <= 400000000) by (nonlinear_arith)
        requires
            -HISTORY_MAX <= h <= HISTORY_MAX,
            0 <= bonus <= 400,
    ;
    let a = h * bonus;
    let q = a / 32768;
    assert(q == tdiv(a as int, 32768));
    if a >= 0 {
        assert(0 <= q && q * 32768 <= h * bonus && (h >= 32768 ==> q >= bonus) && (h < 0 ==> bonus == 0)) by (nonlinear_arith)
            requires
                q == a / 32768,
                a == h * bonus,
                a >= 0,
                0 <= bonus,
        ;
    } else {
        assert(h < 0 && -q <= -h) by (nonlinear_arith)
            requires
                -q == (-a) / 32768,
                a == h * bonus,
                a < 0,
                0 <= bonus <= 400,
        ;
    }
    h + bonus - q
}

/// Applies a malus to a history score.
fn add_malus(h: i32, malus: i32) -> (r: i32)
    requires
        -HISTORY_MAX <= h <= HISTORY_MAX,
        0 <= malus <= 400,
    ensures
        r == gravity_malus(h as int, malus as int),
        -HISTORY_MAX <= r <= HISTORY_MAX,
{
    assert(-400000000 <= h * malus <= 400000000) by (nonlinear_arith)
        requires
            -HISTORY_MAX <= h <= HISTORY_MAX,
            0 <= malus <= 400,
    ;
    let a = h * malus;
    let q = a / 32768;
    assert(q == tdiv(a as int, 32768));
    if a >= 0 {
        assert(0 <= q && (h >= 0 ==> q <= h) && (h < 0 ==> malus == 0)) by (nonlinear_arith)
            requires
                q == a / 32768,
                a == h * malus,
                a >= 0,
                0 <= malus <= 400,
        ;
    } else {
        assert(h < 0 && -q >= 0 && (-h >= 32768 ==> -q >= malus) && -q <= -h) by (nonlinear_arith)
            requires
                -q == (-a) / 32768,
                a == h * malus,
                a < 0,
                0 <= malus <= 400,
        ;
    }
    h - (malus + q)
}

/// The UCI text of a score: `mate n` within a thousand of a mate score
/// (negative `n` when being mated), else `cp n`.
pub open spec fn score_text(score: int) -> Seq<char> {
    if score > MATE_VALUE - 1000 {
        seq!['m', 'a', 't', 'e', ' '] + signed_decimal(tdiv(MATE_VALUE - score + 1, 2))
    } else if score < -MATE_VALUE + 1000 {
        seq!['m', 'a', 't', 'e', ' '] + signed_decimal(tdiv(-(MATE_VALUE + score), 2))
    } else {
        seq!['c', 'p', ' '] + signed_decimal(score)
    }
}

/// The score a search node returns at once from its table entry: when
/// the entry may be used (away from the principal variation, with no move
/// excluded), was searched at least as deep (the depth taken as a byte),
/// holds a score, and its bound settles the window: an exact score, an
/// upper bound at most alpha, or a lower bound at least beta.
pub open spec fn node_tt_cut(entry: Option<crate::engine::tt::TTEntry>, depth: u32, alpha: int, beta: int, ply: int, usable: bool) -> Option<int> {
    match entry {
        Some(e) => {
            let v = from_tt_spec(e.score as int, ply);
            if usable && e.depth >= (depth as u8) && v != VALUE_NONE && (e.node_type == NodeType::Exact
                || (e.node_type == NodeType::Alpha && v <= alpha) || (e.node_type == NodeType::Beta && v >= beta)) {
                Some(v)
            } else {
                None
            }
        },
        None => None,
    }
}

/// The score of a node whose side to move has no legal move: mated at
/// this ply when in check, else a stalemate draw.
pub open spec fn no_move_value(in_check: bool, ply: int) -> int {
    if in_check {
        -MATE_VALUE + ply
    } else {
        0
    }
}

/// The side to move has a legal move other than `excluded` that the search
/// can play and take back.
pub open spec fn has_legal_reply(b: Board, excluded: Option<Move>) -> bool {
    exists|m: Move| #[trigger] pseudo_move(b, m, GenType::All) && Some(m) != excluded && playable(b, m) && b.legal(m)
}

/// The position occurred before within the moves the fifty-move counter
/// covers (see [`Board::is_repetition`]).
pub open spec fn repeats(b: Board) -> bool {
    exists|i: int| b.history@.len() - b.halfmove_clock <= i < b.history@.len() && 0 <= i && #[trigger] b.history@[i] == b.hash
}

/// A piece of the opponent gives check to the king of the side to move.
pub open spec fn checked(b: Board) -> bool {
    exists|a: int| #[trigger] b.is_checker(b.our_king(), b.side_to_move, a)
}

/// Boards with the same squares and state agree on pins, checkers and
/// legality, given the pinned pieces and checkers of one of them.
pub proof fn lemma_legal_restored(b1: Board, b0: Board, m: Move, pinned: u64, checkers: u64)
    requires
        restores(b1, b0),
        b0.wf(),
        b0.kings[b0.us()] != 0,
        b0.kings_apart(),
        node_masks(b0, pinned, checkers),
    ensures
        b1.wf(),
        b1.kings_apart(),
        node_masks(b1, pinned, checkers),
        b1.legal(m) == b0.legal(m),
{
    Board::lemma_wf_transfer(b0, b1);
    crate::movegen::lemma_legal_with_restored(b1, b0, m, pinned, checkers);
    assert(b1.pieces =~= b0.pieces);
    assert(b1.colors =~= b0.colors);
    assert forall|a: int, t: int, c: Color, occ: u64| #[trigger] b1.attacks_from(a, t, c, occ) == b0.attacks_from(a, t, c, occ) by {}
    let k = b0.our_king();
    let side = b0.side_to_move;
    assert(b1.our_king() == k);
    assert forall|x: int| #[trigger] b1.is_pinned(k, side, x) == b0.is_pinned(k, side, x) by {
        if b0.is_pinned(k, side, x) {
            let p = choose|p: int| #[trigger] b0.is_pinner(k, side, p, x);
            assert(b1.is_pinner(k, side, p, x));
        }
        if b1.is_pinned(k, side, x) {
            let p = choose|p: int| #[trigger] b1.is_pinner(k, side, p, x);
            assert(b0.is_pinner(k, side, p, x));
        }
    }
    assert forall|a: int| #[trigger] b1.is_checker(k, side, a) == b0.is_checker(k, side, a) by {}
    b0.law_legal_with_masks(m, pinned, checkers);
    b1.law_legal_with_masks(m, pinned, checkers);
}

/// Law: when the kings are not next to each other, the side to move is
/// checked by a piece of the opponent exactly when it is in check.
pub proof fn law_checked_in_check(b: Board)
    requires
        b.wf(),
        b.kings[b.us()] != 0,
        b.kings_apart(),
    ensures
        checked(b) == b.in_check(b.side_to_move),
{
    let side = b.side_to_move;
    assert(side.spec_opposite().spec_opposite() == side) by {
        assert(side != Color::NoColor);
    }
    if b.in_check(side) {
        let a = choose|a: int| #[trigger] b.attacks_from(a, b.our_king(), side.spec_opposite(), b.all_occupancy);
        assert(b.is_checker(b.our_king(), side, a));
    }
    if checked(b) {
        let a = choose|a: int| #[trigger] b.is_checker(b.our_king(), side, a);
        assert(b.attacks_from(a, b.our_king(), side.spec_opposite(), b.all_occupancy));
    }
}

/// The masks hold the pinned pieces and the checkers of the side to move.
pub open spec fn node_masks(b: Board, pinned: u64, checkers: u64) -> bool {
    &&& forall|x: int| #[trigger] in_bb(pinned, x) <==> b.is_pinned(b.our_king(), b.side_to_move, x)
    &&& forall|a: int| #[trigger] in_bb(checkers, a) <==> b.is_checker(b.our_king(), b.side_to_move, a)
}

/// A score stored in the transposition table: mate scores counted from the
/// node rather than from the root.
pub open spec fn to_tt_spec(v: int, ply: int) -> int {
    if v >= MATE_VALUE - 1000 {
        v + ply
    } else if v <= -MATE_VALUE + 1000 {
        v - ply
    } else {
        v
    }
}

/// A score read from the transposition table: mate scores counted from the
/// root again.
pub open spec fn from_tt_spec(v: int, ply: int) -> int {
    if v >= MATE_VALUE - 1000 {
        v - ply
    } else if v <= -MATE_VALUE + 1000 {
        v + ply
    } else {
        v
    }
}

/// Law: a score stored in the transposition table at some ply and read
/// back at the same ply is the score itself.
pub proof fn law_tt_value_roundtrip(v: int, ply: int)
    requires
        ply >= 0,
    ensures
        from_tt_spec(to_tt_spec(v, ply), ply) == v,
{
}

/// The reduction of a late move, in 1024ths of a ply: the product of the
/// factors of depth and move count, raised by 238/512 when not improving,
/// lowered by the window's share of the root window, plus 1182.
pub open spec fn reduction_spec(improving: bool, depth: int, move_count: int, delta: int, root_delta: int) -> int {
    if depth < 1 || move_count < 1 {
        0
    } else {
        let d = if depth < 255 { depth } else { 255 };
        let m = if move_count < 255 { move_count } else { 255 };
        let r0 = lmr_values()[d] * lmr_values()[m];
        let r1 = if !improving { r0 + r0 * 238 / 512 } else { r0 };
        r1 - tdiv(delta * 608, if root_delta > 1 { root_delta } else { 1 }) + 1182
    }
}

/// A late move is reduced no less at a greater depth or a later move number,
/// and no less when the position is not improving than when it is.
pub proof fn law_reduction_monotone(
    improving: bool,
    d1: int,
    d2: int,
    m1: int,
    m2: int,
    delta: int,
    root_delta: int,
)
    requires
        1 <= d1 <= d2,
        1 <= m1 <= m2,
    ensures
        reduction_spec(improving, d1, m1, delta, root_delta) <= reduction_spec(improving, d2, m2, delta, root_delta),
        reduction_spec(true, d1, m1, delta, root_delta) <= reduction_spec(false, d1, m1, delta, root_delta),
{
    let da = if d1 < 255 { d1 } else { 255 };
    let db = if d2 < 255 { d2 } else { 255 };
    let ma = if m1 < 255 { m1 } else { 255 };
    let mb = if m2 < 255 { m2 } else { 255 };
    lemma_lmr_values();
    lemma_lmr_monotone(da, db);
    lemma_lmr_monotone(ma, mb);
    let xa = lmr_values()[da] as int;
    let xb = lmr_values()[db] as int;
    let ya = lmr_values()[ma] as int;
    let yb = lmr_values()[mb] as int;
    assert(0 <= xa * ya <= xb * yb) by (nonlinear_arith)
        requires
            0 <= xa <= xb,
            0 <= ya <= yb,
    ;
    let r = xa * ya;
    let s = xb * yb;
    assert(r * 238 / 512 <= s * 238 / 512 && 0 <= r * 238 / 512) by (nonlinear_arith)
        requires
            0 <= r <= s,
    ;
}

/// The point value of a piece type: pawn 1, knight and bishop 3, rook 5,
/// queen 9, king and empty 0.
pub open spec fn points(pt: PieceType) -> int {
    match pt {
        PieceType::Pawn => 1,
        PieceType::Knight => 3,
        PieceType::Bishop => 3,
        PieceType::Rook => 5,
        PieceType::Queen => 9,
        _ => 0,
    }
}

/// Whether `scores[best]` is the first largest score from `start` on.
pub open spec fn first_best(scores: Seq<i32>, start: int, n: int, best: int) -> bool {
    &&& start <= best < n
    &&& forall|j: int| start <= j < n ==> #[trigger] scores[j] <= scores[best]
    &&& forall|j: int| start <= j < best ==> #[trigger] scores[j] < scores[best]
}

impl Searcher {
    /// The UCI text of a score (see [`score_text`]).
    pub fn format_score(&self, score: i32) -> (s: String)
        ensures
            s@ == score_text(score as int),
    {
        let mut s = String::new();
        if score > MATE_VALUE - 1000 {
            let mate_in = (MATE_VALUE - score + 1) / 2;
            push_char(&mut s, 'm');
            push_char(&mut s, 'a');
            push_char(&mut s, 't');
            push_char(&mut s, 'e');
            push_char(&mut s, ' ');
            push_signed(&mut s, mate_in);
        } else if score < -MATE_VALUE + 1000 {
            let mate_in = -(MATE_VALUE + score) / 2;
            push_char(&mut s, 'm');
            push_char(&mut s, 'a');
            push_char(&mut s, 't');
            push_char(&mut s, 'e');
            push_char(&mut s, ' ');
            push_signed(&mut s, mate_in);
        } else {
            push_char(&mut s, 'c');
            push_char(&mut s, 'p');
            push_char(&mut s, ' ');
            push_signed(&mut s, score);
        }
        assert(s@ =~= score_text(score as int));
        s
    }

    /// A score as stored in the transposition table (see [`to_tt_spec`]).
    pub fn value_to_tt(&self, v: i32, ply: u32) -> (r: i32)
        requires
            ply <= i32::MAX,
            v >= MATE_VALUE - 1000 ==> v + ply <= i32::MAX,
            v <= -MATE_VALUE + 1000 ==> v - ply >= i32::MIN,
        ensures
            r == to_tt_spec(v as int, ply as int),
    {
        if v >= MATE_VALUE - 1000 {
            v + ply as i32
        } else if v <= -MATE_VALUE + 1000 {
            v - ply as i32
        } else {
            v
        }
    }

    /// A score read from the transposition table (see [`from_tt_spec`]).
    pub fn value_from_tt(&self, v: i32, ply: u32) -> (r: i32)
        requires
            ply <= i32::MAX,
            v >= MATE_VALUE - 1000 ==> v - ply >= i32::MIN,
            v <= -MATE_VALUE + 1000 ==> v + ply <= i32::MAX,
        ensures
            r == from_tt_spec(v as int, ply as int),
    {
        if v >= MATE_VALUE - 1000 {
            v - ply as i32
        } else if v <= -MATE_VALUE + 1000 {
            v + ply as i32
        } else {
            v
        }
    }

    /// The late-move reduction (see [`reduction_spec`]).
    pub fn reduction(&self, improving: bool, depth: u32, move_count: i32, delta: i32, root_delta: i32) -> (r: i32)
        requires
            self.lmr_table@ == lmr_values(),
            i32::MIN <= delta * 608 <= i32::MAX,
            depth >= 1 && move_count >= 1 ==> i32::MIN + 1182 <= reduction_spec(improving, depth as int, move_count as int, delta as int, root_delta as int) <= i32::MAX,
        ensures
            r == reduction_spec(improving, depth as int, move_count as int, delta as int, root_delta as int),
    {
        proof {
            lemma_lmr_values();
        }
        if depth < 1 || move_count < 1 {
            return 0;
        }
        let d: usize = if depth < 255 { depth as usize } else { 255 };
        let m: usize = if move_count < 255 { move_count as usize } else { 255 };
        let a = self.lmr_table[d];
        let b = self.lmr_table[m];
        assert(0 <= a <= 118 && 0 <= b <= 118);
        assert(0 <= a * b <= 118 * 118) by (nonlinear_arith)
            requires
                0 <= a <= 118,
                0 <= b <= 118,
        ;
        let mut r = a * b;
        if !improving {
            r = r + r * 238 / 512;
        }
        let divisor = if root_delta > 1 { root_delta } else { 1 };
        let q = delta * 608 / divisor;
        assert(-3000000000 <= q <= 3000000000) by (nonlinear_arith)
            requires
                q == tdiv(delta * 608, divisor as int),
                i32::MIN <= delta * 608 <= i32::MAX,
                divisor >= 1,
        ;
        r = r - q;
        r + 1182
    }

    /// Moves the first best-scored move from `start` on to `start`,
    /// exchanging it with the move there, and its score likewise.
    pub fn pick_move(&self, moves: &mut crate::movegen::move_list::MoveList, scores: &mut Vec<i32>, start: usize)
        requires
            start < old(moves)@.len(),
            old(moves)@.len() <= old(scores)@.len(),
        ensures
            exists|best: int| {
                &&& first_best(old(scores)@, start as int, old(moves)@.len() as int, best)
                &&& final(moves)@ == old(moves)@.update(start as int, old(moves)@[best]).update(best, old(moves)@[start as int])
                &&& final(scores)@ == old(scores)@.update(start as int, old(scores)@[best]).update(best, old(scores)@[start as int])
            },
    {
        let n = moves.len();
        let mut best_idx = start;
        let mut best_score = scores[start];
        let mut i = start + 1;
        while i < n
            invariant
                start < i <= n,
                n == moves@.len(),
                n <= scores@.len(),
                start <= best_idx < i,
                best_score == scores@[best_idx as int],
                forall|j: int| start <= j < i ==> #[trigger] scores@[j] <= best_score,
                forall|j: int| start <= j < best_idx ==> #[trigger] scores@[j] < best_score,
            decreases n - i,
        {
            if scores[i] > best_score {
                best_score = scores[i];
                best_idx = i;
            }
            i = i + 1;
        }
        let ghost old_moves = moves@;
        let ghost old_scores = scores@;
        moves.swap(start, best_idx);
        let a = scores[start];
        let b = scores[best_idx];
        scores.set(start, b);
        scores.set(best_idx, a);
        assert(first_best(old_scores, start as int, n as int, best_idx as int));
    }

    /// The point value of a piece type (see [`points`]).
    pub fn val(&self, pt: PieceType) -> (r: i32)
        ensures
            r == points(pt),
    {
        match pt {
            PieceType::Pawn => 1,
            PieceType::Knight => 3,
            PieceType::Bishop => 3,
            PieceType::Rook => 5,
            PieceType::Queen => 9,
            PieceType::King => 0,
            _ => 0,
        }
    }
}

/// The index of `[side][from][to]` in a history table.
pub open spec fn hist_idx(us: int, from: int, to: int) -> int {
    us * 4096 + from * 64 + to
}

/// The index of `[side][attacker][to][victim]` in the capture history.
pub open spec fn cap_idx(us: int, a: int, to: int, v: int) -> int {
    ((us * 6 + a) * 64 + to) * 64 + v
}

/// The index of `[side][previous to][from][to]` in the counter-move history.
pub open spec fn cmh_idx(us: int, prev_to: int, from: int, to: int) -> int {
    ((us * 64 + prev_to) * 64 + from) * 64 + to
}

/// The index of `[level][previous piece][previous to][piece][to]` in the
/// continuation history.
pub open spec fn cont_idx(level: int, ppt: int, pto: int, cpt: int, cto: int) -> int {
    (((level * 7 + ppt) * 64 + pto) * 7 + cpt) * 64 + cto
}

/// The index of the counter move to the move `last` of the side `us`.
pub open spec fn counter_idx(us: int, last: Move) -> int {
    us * 4096 + last.spec_from() + last.spec_to() * 64
}

/// How many plies back each continuation-history level looks: 1, 2, 4, 6.
pub open spec fn cont_offset(level: int) -> int {
    if level == 0 {
        1
    } else if level == 1 {
        2
    } else if level == 2 {
        4
    } else {
        6
    }
}

/// A piece type's index capped at `cap`.
pub open spec fn capped(pt: PieceType, cap: int) -> int {
    if pt.spec_idx() < cap {
        pt.spec_idx() as int
    } else {
        cap
    }
}

/// The continuation-history term of one level for a move of piece index
/// `cpt` to `cto` at `ply`.
pub open spec fn cont_term(s: Searcher, ply: int, level: int, cpt: int, cto: int) -> int {
    if ply >= cont_offset(level) {
        let e = s.move_stack@[ply - cont_offset(level)];
        let ppt = if e.0 < 6 { e.0 as int } else { 6 };
        tdiv(s.cont_history@[cont_idx(level, ppt, e.1 as int, cpt, cto)] as int, 20)
    } else {
        0
    }
}

/// The history term of a quiet move.
pub open spec fn history_term(s: Searcher, us: int, from: int, to: int) -> int {
    tdiv(2 * s.history@[hist_idx(us, from, to)], 10)
}

/// The near-root history term of a quiet move.
pub open spec fn low_ply_term(s: Searcher, us: int, from: int, to: int, ply: int) -> int {
    if ply < 16 {
        tdiv(s.low_ply_history@[hist_idx(us, from, to)] as int, 10)
    } else {
        0
    }
}

/// The counter-move history term of a quiet move.
pub open spec fn cmh_term(s: Searcher, b: Board, us: int, from: int, to: int) -> int {
    match b.last_move {
        Some(lm) => tdiv(s.cmh_history@[cmh_idx(us, lm.spec_to() as int, from, to)] as int, 20),
        None => 0,
    }
}

/// The ordering score of a quiet move from the history tables.
pub open spec fn quiet_score(s: Searcher, m: Move, b: Board, ply: int) -> int {
    let us = b.side_to_move.spec_idx() as int;
    let from = m.spec_from() as int;
    let to = m.spec_to() as int;
    let cpt = capped(b.pieces[from], 6);
    history_term(s, us, from, to) + low_ply_term(s, us, from, to, ply) + cmh_term(s, b, us, from, to) + cont_term(
        s,
        ply,
        0,
        cpt,
        to,
    ) + cont_term(s, ply, 1, cpt, to) + cont_term(s, ply, 2, cpt, to) + cont_term(s, ply, 3, cpt, to)
}

/// The ordering score of a capture: most valuable victim, least valuable
/// attacker, plus capture history; captures losing material by SEE sink
/// (in the quiescence search only those by an attacker worth at least the
/// victim).
pub open spec fn capture_score(s: Searcher, m: Move, b: Board, is_qsearch: bool) -> int {
    let us = b.side_to_move.spec_idx() as int;
    let from = m.spec_from() as int;
    let to = m.spec_to() as int;
    let victim = if m.spec_flags() == flags::EN_PASSANT { PieceType::Pawn } else { b.pieces[to] };
    let attacker = b.pieces[from];
    let base = 50000 + 10 * points(victim) - points(attacker) + tdiv(
        s.capture_history@[cap_idx(us, capped(attacker, 5), to, capped(victim, 5))] as int,
        128,
    );
    let see = b.see_spec(m);
    if is_qsearch {
        if points(victim) <= points(attacker) && see < 0 {
            -50000 + see
        } else {
            base
        }
    } else if see < 0 {
        -5000 + see
    } else {
        base
    }
}

/// The ordering score of a promotion without capture.
pub open spec fn promotion_score(f: u8) -> int {
    if f == flags::PROMOTE_QUEEN || f == flags::PROMOTE_QUEEN_CAPTURE {
        45000
    } else if f == flags::PROMOTE_ROOK || f == flags::PROMOTE_ROOK_CAPTURE {
        25000
    } else if f == flags::PROMOTE_BISHOP || f == flags::PROMOTE_BISHOP_CAPTURE {
        24000
    } else if f == flags::PROMOTE_KNIGHT || f == flags::PROMOTE_KNIGHT_CAPTURE {
        23000
    } else {
        10000
    }
}

/// The ordering score of a move: the table move first, then captures,
/// promotions, the counter move, the killers and the history scores.
pub open spec fn move_score(s: Searcher, m: Move, b: Board, tt_move: Option<Move>, ply: int, is_qsearch: bool) -> int {
    let us = b.side_to_move.spec_idx() as int;
    if tt_move == Some(m) {
        1000000
    } else if is_capture_flag(m.spec_flags()) {
        capture_score(s, m, b, is_qsearch)
    } else if m.spec_flags() & 8u8 != 0 {
        promotion_score(m.spec_flags())
    } else if b.last_move matches Some(lm) && s.counter_moves@[counter_idx(us, lm)] == Some(m) {
        9500
    } else if ply < MAX_PLY && s.killer_moves@[ply][0] == Some(m) {
        9000
    } else if ply < MAX_PLY && s.killer_moves@[ply][1] == Some(m) {
        8000
    } else {
        quiet_score(s, m, b, ply)
    }
}

/// A move's ordering score lies well within an `i32`.
pub open spec fn score_bounded(v: int) -> bool {
    -2000000 <= v <= 2000000
}

impl Searcher {
    /// The continuation-history term of one level (see [`cont_term`]).
    fn cont_score(&self, ply: u32, level: usize, cpt: usize, cto: usize) -> (r: i32)
        requires
            self.wf(),
            ply < MAX_PLY,
            level < 4,
            cpt <= 6,
            cto < 64,
        ensures
            r == cont_term(*self, ply as int, level as int, cpt as int, cto as int),
            -50000 <= r <= 50000,
    {
        let offset: usize = if level == 0 {
            1
        } else if level == 1 {
            2
        } else if level == 2 {
            4
        } else {
            6
        };
        if (ply as usize) < offset {
            return 0;
        }
        let (prev_pt, prev_to) = self.move_stack[ply as usize - offset];
        let ppt = if prev_pt < 6 { prev_pt } else { 6 };
        let idx = (((level * 7 + ppt) * 64 + prev_to) * 7 + cpt) * 64 + cto;
        assert(idx < CONT_HISTORY_SIZE) by (nonlinear_arith)
            requires
                idx == (((level * 7 + ppt) * 64 + prev_to) * 7 + cpt) * 64 + cto,
                level < 4,
                ppt <= 6,
                prev_to < 64,
                cpt <= 6,
                cto < 64,
        ;
        let v = self.cont_history[idx];
        v / 20
    }

    /// The ordering score of a capture (see [`capture_score`]).
    fn capture_score_of(&self, m: Move, board: &Board, is_qsearch: bool) -> (r: i32)
        requires
            self.wf(),
            board.wf(),
            board.colors[m.spec_from() as int] == board.side_to_move,
            popcount(board.all_occupancy) <= 32,
        ensures
            r == capture_score(*self, m, *board, is_qsearch),
            score_bounded(r as int),
    {
        let us = board.side_to_move.idx();
        let from = m.from() as usize;
        let to = m.to() as usize;
        let mut victim = board.pieces[to];
        if m.flags() == flags::EN_PASSANT {
            victim = PieceType::Pawn;
        }
        let attacker = board.pieces[from];
        let a = if attacker.idx() < 5 { attacker.idx() } else { 5 };
        let v = if victim.idx() < 5 { victim.idx() } else { 5 };
        let idx = ((us * 6 + a) * 64 + to) * 64 + v;
        assert(idx < CAPTURE_HISTORY_SIZE) by (nonlinear_arith)
            requires
                idx == ((us * 6 + a) * 64 + to) * 64 + v,
                us < 2,
                a <= 5,
                to < 64,
                v <= 5,
        ;
        let mut score = 50000 + 10 * self.val(victim) - self.val(attacker);
        score = score + self.capture_history[idx] / 128;
        let see_val = board.see(m);
        if is_qsearch {
            if self.val(victim) <= self.val(attacker) && see_val < 0 {
                return -50000 + see_val;
            }
        } else if see_val < 0 {
            return -5000 + see_val;
        }
        score
    }

    /// The history terms of a quiet move (see [`history_term`],
    /// [`low_ply_term`], [`cmh_term`]).
    fn history_terms(&self, board: &Board, us: usize, from: usize, to: usize, ply: u32) -> (r: (i32, i32, i32))
        requires
            self.wf(),
            us < 2,
            from < 64,
            to < 64,
        ensures
            r.0 == history_term(*self, us as int, from as int, to as int),
            r.1 == low_ply_term(*self, us as int, from as int, to as int, ply as int),
            r.2 == cmh_term(*self, *board, us as int, from as int, to as int),
            -200000 <= r.0 <= 200000,
            -100000 <= r.1 <= 100000,
            -50000 <= r.2 <= 50000,
    {
        let hidx = us * 4096 + from * 64 + to;
        let h = self.history[hidx];
        assert(-HISTORY_MAX <= h <= HISTORY_MAX);
        let a = 2 * h / 10;
        let mut b: i32 = 0;
        if ply < 16 {
            let lp = self.low_ply_history[hidx];
            assert(-HISTORY_MAX <= lp <= HISTORY_MAX);
            b = lp / 10;
        }
        let mut c: i32 = 0;
        if let Some(last_move) = board.last_move {
            let cidx = ((us * 64 + last_move.to() as usize) * 64 + from) * 64 + to;
            assert(cidx < CMH_SIZE) by (nonlinear_arith)
                requires
                    cidx == ((us * 64 + last_move.spec_to() as usize) * 64 + from) * 64 + to,
                    us < 2,
                    last_move.spec_to() < 64,
                    from < 64,
                    to < 64,
            ;
            let x = self.cmh_history[cidx];
            assert(-HISTORY_MAX <= x <= HISTORY_MAX);
            c = x / 20;
        }
        (a, b, c)
    }

    /// The ordering score of a quiet move (see [`quiet_score`]).
    fn quiet_score_of(&self, m: Move, board: &Board, ply: u32) -> (r: i32)
        requires
            self.wf(),
            board.side_to_move != Color::NoColor,
            ply < MAX_PLY,
        ensures
            r == quiet_score(*self, m, *board, ply as int),
            score_bounded(r as int),
    {
        let us = board.side_to_move.idx();
        let from = m.from() as usize;
        let to = m.to() as usize;
        let (a, b, c) = self.history_terms(board, us, from, to, ply);
        let cur_pt = if board.pieces[from].idx() < 6 { board.pieces[from].idx() } else { 6 };
        let c0 = self.cont_score(ply, 0, cur_pt, to);
        let c1 = self.cont_score(ply, 1, cur_pt, to);
        let c2 = self.cont_score(ply, 2, cur_pt, to);
        let c3 = self.cont_score(ply, 3, cur_pt, to);
        a + b + c + c0 + c1 + c2 + c3
    }

    /// The ordering score of a move (see [`move_score`]).
    pub fn score_move(&self, m: Move, board: &Board, tt_move: Option<Move>, ply: u32, is_qsearch: bool) -> (r: i32)
        requires
            self.wf(),
            board.wf(),
            is_capture_flag(m.spec_flags()) ==> board.colors[m.spec_from() as int] == board.side_to_move,
            popcount(board.all_occupancy) <= 32,
            ply < MAX_PLY,
        ensures
            r == move_score(*self, m, *board, tt_move, ply as int, is_qsearch),
            score_bounded(r as int),
    {
        let f = m.flags();
        if tt_move == Some(m) {
            return 1000000;
        }
        let us = board.side_to_move.idx();
        if (f & flags::CAPTURE) != 0 {
            return self.capture_score_of(m, board, is_qsearch);
        }
        if (f & 0x8) != 0 {
            if f == flags::PROMOTE_QUEEN || f == flags::PROMOTE_QUEEN_CAPTURE {
                return 45000;
            } else if f == flags::PROMOTE_ROOK || f == flags::PROMOTE_ROOK_CAPTURE {
                return 25000;
            } else if f == flags::PROMOTE_BISHOP || f == flags::PROMOTE_BISHOP_CAPTURE {
                return 24000;
            } else if f == flags::PROMOTE_KNIGHT || f == flags::PROMOTE_KNIGHT_CAPTURE {
                return 23000;
            }
            return 10000;
        }
        if let Some(last_move) = board.last_move {
            let last_idx = us * 4096 + (last_move.from() as usize) + (last_move.to() as usize) * 64;
            if self.counter_moves[last_idx] == Some(m) {
                return 9500;
            }
        }
        if (ply as usize) < MAX_PLY {
            let killers = self.killer_moves[ply as usize];
            if killers[0] == Some(m) {
                return 9000;
            }
            if killers[1] == Some(m) {
                return 8000;
            }
        }
        self.quiet_score_of(m, board, ply)
    }

    /// The counter move stored for the reply to the last move, if any.
    fn get_countermove(&self, board: &Board) -> (r: Option<Move>)
        requires
            self.wf(),
            board.wf(),
        ensures
            r == (match board.last_move {
                Some(lm) => self.counter_moves@[counter_idx(board.side_to_move.spec_idx() as int, lm)],
                None => None,
            }),
    {
        if let Some(last_move) = board.last_move {
            let last_idx = board.side_to_move.idx() * 4096 + (last_move.from() as usize) + (last_move.to() as usize) * 64;
            return self.counter_moves[last_idx];
        }
        None
    }
}

/// The continuation history after a bonus to the entries of the first `n`
/// levels that reach back far enough.
pub open spec fn cont_updated(
    t: Seq<i32>,
    st: Seq<(usize, usize)>,
    ply: int,
    cpt: int,
    cto: int,
    bonus: int,
    n: int,
) -> Seq<i32>
    decreases n,
{
    if n <= 0 {
        t
    } else {
        let t1 = cont_updated(t, st, ply, cpt, cto, bonus, n - 1);
        let level = n - 1;
        if ply >= cont_offset(level) {
            let e = st[ply - cont_offset(level)];
            let ppt = if e.0 < 6 { e.0 as int } else { 6 };
            let i = cont_idx(level, ppt, e.1 as int, cpt, cto);
            t1.update(i, gravity_bonus(t1[i] as int, bonus) as i32)
        } else {
            t1
        }
    }
}

/// The bonus or malus of a search of the given depth: its square, at most 400.
pub open spec fn depth_bonus(depth: int) -> int {
    if depth * depth < 400 {
        depth * depth
    } else {
        400
    }
}

/// The fields a search run does not change.
pub open spec fn same_config(a: Searcher, b: Searcher) -> bool {
    &&& a.settings == b.settings
    &&& a.tt == b.tt
    &&& a.nodes == b.nodes
    &&& a.stop == b.stop
    &&& a.is_main_thread == b.is_main_thread
    &&& a.age == b.age
    &&& a.soft_time_limit == b.soft_time_limit
    &&& a.hard_time_limit == b.hard_time_limit
    &&& a.start_time == b.start_time
}

impl Searcher {
    /// Raises one entry of the continuation history of each level that
    /// reaches back far enough.
    fn bonus_cont(&mut self, ply: u32, cpt: usize, cto: usize, bonus: i32)
        requires
            old(self).wf(),
            ply < MAX_PLY,
            cpt <= 6,
            cto < 64,
            0 <= bonus <= 400,
        ensures
            final(self).wf(),
            final(self).cont_history@ == cont_updated(
                old(self).cont_history@,
                old(self).move_stack@,
                ply as int,
                cpt as int,
                cto as int,
                bonus as int,
                4,
            ),
            final(self).move_stack == old(self).move_stack,
            final(self).history == old(self).history,
            final(self).low_ply_history == old(self).low_ply_history,
            final(self).cmh_history == old(self).cmh_history,
            final(self).counter_moves == old(self).counter_moves,
            final(self).killer_moves == old(self).killer_moves,
            final(self).capture_history == old(self).capture_history,
            final(self).pv_table == old(self).pv_table,
            final(self).pv_length == old(self).pv_length,
            final(self).eval_history == old(self).eval_history,
            final(self).info_lines == old(self).info_lines,
            same_config(*final(self), *old(self)),
    {
        let mut level: usize = 0;
        while level < 4
            invariant
                self.wf(),
                level <= 4,
                ply < MAX_PLY,
                cpt <= 6,
                cto < 64,
                0 <= bonus <= 400,
                self.cont_history@ == cont_updated(
                    old(self).cont_history@,
                    old(self).move_stack@,
                    ply as int,
                    cpt as int,
                    cto as int,
                    bonus as int,
                    level as int,
                ),
                self.move_stack == old(self).move_stack,
                self.history == old(self).history,
                self.low_ply_history == old(self).low_ply_history,
                self.cmh_history == old(self).cmh_history,
                self.counter_moves == old(self).counter_moves,
                self.killer_moves == old(self).killer_moves,
                self.capture_history == old(self).capture_history,
                self.pv_table == old(self).pv_table,
                self.pv_length == old(self).pv_length,
                self.eval_history == old(self).eval_history,
                self.info_lines == old(self).info_lines,
                same_config(*self, *old(self)),
            decreases 4 - level,
        {
            let offset: usize = if level == 0 {
                1
            } else if level == 1 {
                2
            } else if level == 2 {
                4
            } else {
                6
            };
            if (ply as usize) >= offset {
                let (prev_pt, prev_to) = self.move_stack[ply as usize - offset];
                let ppt = if prev_pt < 6 { prev_pt } else { 6 };
                let idx = (((level * 7 + ppt) * 64 + prev_to) * 7 + cpt) * 64 + cto;
                assert(idx < CONT_HISTORY_SIZE) by (nonlinear_arith)
                    requires
                        idx == (((level * 7 + ppt) * 64 + prev_to) * 7 + cpt) * 64 + cto,
                        level < 4,
                        ppt <= 6,
                        prev_to < 64,
                        cpt <= 6,
                        cto < 64,
                ;
                let v = add_bonus(self.cont_history[idx], bonus);
                self.cont_history.set(idx, v);
            }
            level = level + 1;
        }
    }

    /// Rewards a quiet move that caused a beta cutoff: history bonuses, the
    /// counter move to the last move, and the killers of the ply.
    fn update_heuristics(&mut self, m: Move, board: &Board, depth: u32, ply: u32, _tt_move: Option<Move>)
        requires
            old(self).wf(),
            board.wf(),
            depth <= MAX_DEPTH,
            ply < MAX_PLY,
        ensures
            final(self).wf(),
            ({
                let us = board.side_to_move.spec_idx() as int;
                let from = m.spec_from() as int;
                let to = m.spec_to() as int;
                let bonus = depth_bonus(depth as int);
                let hi = hist_idx(us, from, to);
                let o = *old(self);
                let f = *final(self);
                &&& f.history@ == o.history@.update(hi, gravity_bonus(o.history@[hi] as int, bonus) as i32)
                &&& f.low_ply_history@ == (if ply < 16 {
                    o.low_ply_history@.update(hi, gravity_bonus(o.low_ply_history@[hi] as int, bonus) as i32)
                } else {
                    o.low_ply_history@
                })
                &&& f.counter_moves@ == (match board.last_move {
                    Some(lm) => o.counter_moves@.update(counter_idx(us, lm), Some(m)),
                    None => o.counter_moves@,
                })
                &&& f.cmh_history@ == (match board.last_move {
                    Some(lm) => {
                        let ci = cmh_idx(us, lm.spec_to() as int, from, to);
                        o.cmh_history@.update(ci, gravity_bonus(o.cmh_history@[ci] as int, bonus) as i32)
                    },
                    None => o.cmh_history@,
                })
                &&& f.killer_moves@ == (if o.killer_moves@[ply as int][0] != Some(m) {
                    o.killer_moves@.update(ply as int, [Some(m), o.killer_moves@[ply as int][0]])
                } else {
                    o.killer_moves@
                })
                &&& f.cont_history@ == cont_updated(
                    o.cont_history@,
                    o.move_stack@,
                    ply as int,
                    capped(board.pieces[from], 6),
                    to,
                    bonus,
                    4,
                )
            }),
            final(self).move_stack == old(self).move_stack,
            final(self).pv_table == old(self).pv_table,
            final(self).pv_length == old(self).pv_length,
            final(self).eval_history == old(self).eval_history,
            final(self).info_lines == old(self).info_lines,
            same_config(*final(self), *old(self)),
    {
        let us = board.side_to_move.idx();
        let from = m.from() as usize;
        let to = m.to() as usize;
        let d = depth as i32;
        assert(d * d <= 46000 * 46000) by (nonlinear_arith)
            requires
                0 <= d <= 46000,
        ;
        let sq = d * d;
        let bonus = if sq < 400 { sq } else { 400 };
        let hidx = us * 4096 + from * 64 + to;
        let v = add_bonus(self.history[hidx], bonus);
        self.history.set(hidx, v);
        if ply < 16 {
            let v = add_bonus(self.low_ply_history[hidx], bonus);
            self.low_ply_history.set(hidx, v);
        }
        if let Some(last_move) = board.last_move {
            let last_idx = us * 4096 + (last_move.from() as usize) + (last_move.to() as usize) * 64;
            self.counter_moves.set(last_idx, Some(m));
            let cidx = ((us * 64 + last_move.to() as usize) * 64 + from) * 64 + to;
            assert(cidx < CMH_SIZE) by (nonlinear_arith)
                requires
                    cidx == ((us * 64 + last_move.spec_to() as usize) * 64 + from) * 64 + to,
                    us < 2,
                    last_move.spec_to() < 64,
                    from < 64,
                    to < 64,
            ;
            let v = add_bonus(self.cmh_history[cidx], bonus);
            self.cmh_history.set(cidx, v);
        }
        let killers = self.killer_moves[ply as usize];
        if killers[0] != Some(m) {
            self.killer_moves.set(ply as usize, [Some(m), killers[0]]);
        }
        let cur_pt = if board.pieces[from].idx() < 6 { board.pieces[from].idx() } else { 6 };
        self.bonus_cont(ply, cur_pt, to, bonus);
    }

    /// Penalizes a quiet move that failed to raise alpha.
    #[verifier::spinoff_prover]
    #[verifier::rlimit(30)]
    fn apply_history_malus(&mut self, m: Move, board: &Board, depth: u32, _legal_moves: u32, ply: u32)
        requires
            old(self).wf(),
            board.wf(),
            depth <= MAX_DEPTH,
        ensures
            final(self).wf(),
            ({
                let us = board.side_to_move.spec_idx() as int;
                let from = m.spec_from() as int;
                let to = m.spec_to() as int;
                let malus = depth_bonus(depth as int);
                let hi = hist_idx(us, from, to);
                let o = *old(self);
                let f = *final(self);
                &&& f.history@ == o.history@.update(hi, gravity_malus(o.history@[hi] as int, malus) as i32)
                &&& f.low_ply_history@ == (if ply < 16 {
                    o.low_ply_history@.update(hi, gravity_malus(o.low_ply_history@[hi] as int, malus) as i32)
                } else {
                    o.low_ply_history@
                })
                &&& f.cmh_history@ == (match board.last_move {
                    Some(lm) => {
                        let ci = cmh_idx(us, lm.spec_to() as int, from, to);
                        o.cmh_history@.update(ci, gravity_malus(o.cmh_history@[ci] as int, malus) as i32)
                    },
                    None => o.cmh_history@,
                })
            }),
            final(self).counter_moves == old(self).counter_moves,
            final(self).killer_moves == old(self).killer_moves,
            final(self).cont_history == old(self).cont_history,
            final(self).move_stack == old(self).move_stack,
            final(self).pv_table == old(self).pv_table,
            final(self).pv_length == old(self).pv_length,
            final(self).eval_history == old(self).eval_history,
            final(self).info_lines == old(self).info_lines,
            same_config(*final(self), *old(self)),
    {
        let us = board.side_to_move.idx();
        let from = m.from() as usize;
        let to = m.to() as usize;
        let d = depth as i32;
        assert(d * d <= 46000 * 46000) by (nonlinear_arith)
            requires
                0 <= d <= 46000,
        ;
        let sq = d * d;
        let malus = if sq < 400 { sq } else { 400 };
        let hidx = us * 4096 + from * 64 + to;
        let v = add_malus(self.history[hidx], malus);
        self.history.set(hidx, v);
        if ply < 16 {
            let v = add_malus(self.low_ply_history[hidx], malus);
            self.low_ply_history.set(hidx, v);
        }
        if let Some(last_move) = board.last_move {
            let cidx = ((us * 64 + last_move.to() as usize) * 64 + from) * 64 + to;
            assert(cidx < CMH_SIZE) by (nonlinear_arith)
                requires
                    cidx == ((us * 64 + last_move.spec_to() as usize) * 64 + from) * 64 + to,
                    us < 2,
                    last_move.spec_to() < 64,
                    from < 64,
                    to < 64,
            ;
            let v = add_malus(self.cmh_history[cidx], malus);
            self.cmh_history.set(cidx, v);
        }
    }
}

/// The same searcher but for the time of the last report and the lines
/// reported, of which at most one more was added.
pub open spec fn reported(a: Searcher, b: Searcher) -> bool {
    &&& a.info_lines@ == b.info_lines@ || a.info_lines@.drop_last() == b.info_lines@
    &&& a.seldepth == b.seldepth
    &&& a.killer_moves == b.killer_moves
    &&& a.history == b.history
    &&& a.capture_history == b.capture_history
    &&& a.counter_moves == b.counter_moves
    &&& a.cmh_history == b.cmh_history
    &&& a.cont_history == b.cont_history
    &&& a.move_stack == b.move_stack
    &&& a.eval_history == b.eval_history
    &&& a.pv_table == b.pv_table
    &&& a.pv_length == b.pv_length
    &&& a.pawn_table == b.pawn_table
    &&& a.lmr_table == b.lmr_table
    &&& a.low_ply_history == b.low_ply_history
    &&& a.root_delta == b.root_delta
    &&& same_config(a, b)
}

/// The periodic progress line: node count, speed, time in milliseconds
/// and table use in permille.
pub open spec fn progress_line(nodes: u64, time: u64, full: u64) -> Seq<char> {
    seq!['i', 'n', 'f', 'o', ' ', 'n', 'o', 'd', 'e', 's', ' '] + decimal(nodes as nat) + seq![' ', 'n', 'p', 's', ' '] + decimal(nps_spec(nodes, time) as nat)
        + seq![' ', 't', 'i', 'm', 'e', ' '] + decimal(time as nat) + seq![' ', 'h', 'a', 's', 'h', 'f', 'u', 'l', 'l', ' '] + decimal(full as nat)
}

/// The principal variations of the plies before `ply` are those of `b`.
pub open spec fn pv_kept_below(a: Searcher, b: Searcher, ply: int) -> bool {
    &&& a.pv_length@.len() == b.pv_length@.len()
    &&& forall|i: int| 0 <= i < ply ==> #[trigger] a.pv_length@[i] == b.pv_length@[i]
}

impl Searcher {
    /// Whether the stop flag is raised.
    pub fn stopped(&self) -> bool {
        self.stop.load(Ordering::Relaxed)
    }

    /// Raises or lowers the stop flag.
    pub fn set_stop(&self, value: bool) {
        self.stop.store(value, Ordering::SeqCst);
    }

    /// Counts a node and returns the count before it.
    fn count_node(&self) -> u64 {
        self.nodes.fetch_add(1, Ordering::Relaxed)
    }

    /// The number of nodes counted.
    pub fn node_count(&self) -> u64 {
        self.nodes.load(Ordering::Relaxed)
    }

    /// Sets the node count to zero.
    fn reset_nodes(&self) {
        self.nodes.store(0, Ordering::SeqCst);
    }

    /// Nodes per second for a node count over a time in milliseconds
    /// (multiplying with wrap-around, as a release build does).
    fn nodes_per_second(nodes: u64, time: u64) -> (r: u64)
        ensures
            r == nps_spec(nodes, time),
    {
        if time > 0 {
            nodes.wrapping_mul(1000) / time
        } else {
            0
        }
    }

    /// Raises the stop flag once the hard limit (or, without one, the soft
    /// limit) has passed, and on the main searcher reports the node count,
    /// speed, time and table use at most once a second.
    #[verifier::spinoff_prover]
    #[verifier::rlimit(30)]
    fn check_time(&mut self)
        requires
            old(self).wf(),
        ensures
            final(self).wf(),
            reported(*final(self), *old(self)),
            final(self).info_lines@ != old(self).info_lines@ ==> old(self).is_main_thread && exists|nodes: u64, time: u64, full: u64|
                final(self).info_lines@.last()@ == progress_line(nodes, time, full),
    {
        proof {
            reveal_strlit("info nodes ");
            reveal_strlit(" nps ");
            reveal_strlit(" time ");
            reveal_strlit(" hashfull ");
        }
        let elapsed = elapsed_millis(&self.start_time);
        if time_up(elapsed, self.soft_time_limit, self.hard_time_limit) {
            self.set_stop(true);
        }
        if self.is_main_thread {
            let since = elapsed_millis(&self.last_info_time);
            if since >= 1000 {
                self.last_info_time = now();
                let nodes = self.node_count();
                let time = elapsed;
                let nps = Self::nodes_per_second(nodes, time);
                let mut line = String::new();
                push_str(&mut line, "info nodes ");
                push_decimal(&mut line, nodes);
                push_str(&mut line, " nps ");
                push_decimal(&mut line, nps);
                push_str(&mut line, " time ");
                push_decimal(&mut line, time);
                push_str(&mut line, " hashfull ");
                let full = self.tt.hashfull() as u64;
                push_decimal(&mut line, full);
                assert(line@ =~= progress_line(nodes, time, full));
                let ghost before = self.info_lines@;
                self.info_lines.push(line);
                assert(self.info_lines@.drop_last() =~= before);
            }
        }
    }
}

/// The bound on the scores the search returns and passes down as windows.
pub const SCORE_BOUND: i32 = 1600000;
/// The bound on the stored scores the search takes from the table.
pub const TT_SCORE_BOUND: i32 = 1500000;

/// Whether the search can work on a position: it is consistent, the side
/// to move has a king, no pawn stands on its side's last rank and at most 32
/// pieces are on the board. Positions reached by play from a legal position
/// always are; the evaluation, the exchange evaluation and the legality
/// test cannot work on others.
pub open spec fn searchable(b: Board) -> bool {
    &&& b.wf()
    &&& pawns_on_inner_ranks(eval_view(b))
    &&& popcount(b.all_occupancy) <= 32
    &&& b.kings[b.side_to_move.spec_idx() as int] != 0
}

/// Whether a move can be played and taken back and tested for legality:
/// in a legal position every generated move can.
pub open spec fn playable(b: Board, m: Move) -> bool {
    move_reversible(b, m) && b.en_passant_checkable(m)
}

/// Whether the search can work on the position (see [`searchable`]).
pub fn is_searchable(board: &Board) -> (r: bool)
    requires
        board.wf(),
    ensures
        r == searchable(*board),
{
    let top = board.pawns[0] & 0xFF00000000000000u64;
    let bottom = board.pawns[1] & 0xFFu64;
    proof {
        crate::engine::eval::lemma_view_pawns(*board);
        crate::board::bitboard::lemma_zero_iff_empty(top);
        crate::board::bitboard::lemma_zero_iff_empty(bottom);
        assert forall|s: int| #[trigger] in_bb(board.pawns[0], s) && top == 0 implies rank_of(s) < 7 by {
            crate::board::bitboard::lemma_masks(s);
            assert(!in_bb(top, s));
        }
        assert forall|s: int| #[trigger] in_bb(board.pawns[1], s) && bottom == 0 implies rank_of(s) > 0 by {
            crate::board::bitboard::lemma_masks(s);
            assert(!in_bb(bottom, s));
        }
        if top != 0 {
            let s = choose|s: int| 0 <= s < 64 && #[trigger] in_bb(top, s);
            crate::board::bitboard::lemma_masks(s);
            assert(in_bb(board.pawns[0], s) && rank_of(s) == 7);
        }
        if bottom != 0 {
            let s = choose|s: int| 0 <= s < 64 && #[trigger] in_bb(bottom, s);
            crate::board::bitboard::lemma_masks(s);
            assert(in_bb(board.pawns[1], s) && rank_of(s) == 0);
        }
    }
    top == 0 && bottom == 0 && count_bits(board.all_occupancy) <= 32 && board.kings[board.side_to_move.idx()] != 0
}

/// Whether `m` is a legal move of the position: the side to move has a
/// king, and `m` is pseudo-legal and passes the legality test.
pub fn is_legal_move(board: &Board, m: Move) -> (r: bool)
    requires
        board.wf(),
    ensures
        r ==> pseudo_move(*board, m, GenType::All) && board.legal(m),
        r ==> board.kings[board.us()] != 0,
        board.kings[board.us()] != 0 && !crate::movegen::crowded(*board) ==> r == (pseudo_move(*board, m, GenType::All)
            && board.legal(m)),
{
    if board.kings[board.side_to_move.idx()] == 0 {
        return false;
    }
    proof {
        crate::movegen::lemma_king_ep_checkable(*board);
    }
    board.is_pseudo_legal(m) && board.is_legal(m)
}

/// The first generated pseudo-legal move that is legal, if any: the move
/// to play when a search leaves none. Unless the side to move lacks a king
/// or has 256 or more pseudo-legal moves, `None` means it has no legal move.
pub fn first_legal_move(board: &Board) -> (r: Option<Move>)
    requires
        board.wf(),
    ensures
        r matches Some(m) ==> pseudo_move(*board, m, GenType::All) && board.legal(m),
        r is None && board.kings[board.us()] != 0 && !crate::movegen::crowded(*board) ==> !crate::movegen::has_legal_move(*board),
{
    let moves = crate::movegen::generate_pseudo_legal_moves(board);
    let n = moves.len();
    let mut i: usize = 0;
    while i < n
        invariant
            board.wf(),
            n == moves@.len(),
            i <= n,
            crate::movegen::pseudo_buffer(*board, GenType::All, moves@),
            board.kings[board.us()] != 0 && !crate::movegen::crowded(*board) ==> forall|j: int| 0 <= j < i
                ==> !board.legal(#[trigger] moves@[j]),
        decreases n - i,
    {
        let m = moves.get(i);
        if is_legal_move(board, m) {
            return Some(m);
        }
        proof {
            assert(pseudo_move(*board, moves@[i as int], GenType::All));
        }
        i = i + 1;
    }
    proof {
        if board.kings[board.us()] != 0 && !crate::movegen::crowded(*board) {
            crate::movegen::law_buffer_complete(*board, GenType::All, moves@);
            assert forall|m: Move| #[trigger] pseudo_move(*board, m, GenType::All) implies !board.legal(m) by {
                assert(moves@.contains(m));
                let j = choose|j: int| 0 <= j < moves@.len() && moves@[j] == m;
                assert(!board.legal(moves@[j]));
            }
        }
    }
    None
}

/// Whether a move can be played, taken back and tested (see [`playable`]).
pub fn can_play(board: &Board, m: Move) -> (r: bool)
    requires
        board.wf(),
    ensures
        r == playable(*board, m),
{
    let from = m.from() as usize;
    let to = m.to() as usize;
    let f = m.flags();
    let side = board.side_to_move;
    let enemy = side.opposite();
    if from == to || board.colors[from] != side {
        return false;
    }
    if board.halfmove_clock >= 0xFFFF || board.fullmove_number >= 0xFFFF {
        return false;
    }
    if f == flags::EN_PASSANT {
        let cap: i32 = if side == Color::White { to as i32 - 8 } else { to as i32 + 8 };
        if cap < 0 || cap >= 64 {
            return false;
        }
        let c = cap as usize;
        if board.pieces[c] != PieceType::Pawn || board.colors[c] != enemy || board.pieces[to] != PieceType::Empty {
            return false;
        }
        if board.en_passant_square == Some(m.to()) && board.colors[to] != side {
            if board.kings[side.idx()] == 0 {
                return false;
            }
        }
    }
    if (f & flags::CAPTURE) != 0 {
        if board.colors[to] == side {
            return false;
        }
    } else if board.pieces[to] != PieceType::Empty {
        return false;
    }
    if f == flags::KING_CASTLE || f == flags::QUEEN_CASTLE {
        let rf: usize = if f == flags::KING_CASTLE {
            if side == Color::White { 7 } else { 63 }
        } else {
            if side == Color::White { 0 } else { 56 }
        };
        let rt: usize = if f == flags::KING_CASTLE {
            if side == Color::White { 5 } else { 61 }
        } else {
            if side == Color::White { 3 } else { 59 }
        };
        if board.pieces[rf] != PieceType::Rook || board.colors[rf] != side || rf == from || rf == to
            || board.pieces[rt] != PieceType::Empty || rt == to {
            return false;
        }
    }
    if f == flags::DOUBLE_PAWN {
        let e: i32 = if side == Color::White { from as i32 + 8 } else { from as i32 - 8 };
        if e < 0 || e >= 64 {
            return false;
        }
    }
    if (f & 0x8) != 0 && board.pieces[from] != PieceType::Pawn {
        return false;
    }
    true
}

impl Searcher {
    /// The table entry for `key` when its score is within the bound the
    /// search stores; one outside it (a torn or foreign entry) is ignored.
    fn probe_tt(&self, key: u64) -> (r: Option<crate::engine::tt::TTEntry>)
        ensures
            r matches Some(e) ==> -TT_SCORE_BOUND <= e.score <= TT_SCORE_BOUND,
            r matches Some(e) ==> e.key == key,
    {
        match self.tt.probe(key) {
            Some(e) => {
                if -TT_SCORE_BOUND <= e.score && e.score <= TT_SCORE_BOUND {
                    Some(e)
                } else {
                    None
                }
            },
            None => None,
        }
    }
}

/// The exchange values of delta pruning, by piece type (none for the king
/// and an empty square).
pub open spec fn see_piece_value(pt: PieceType) -> int {
    match pt {
        PieceType::Pawn => 100,
        PieceType::Knight => 325,
        PieceType::Bishop => 335,
        PieceType::Rook => 500,
        PieceType::Queen => 975,
        _ => 0,
    }
}

/// The exchange value of delta pruning (see [`see_piece_value`]).
fn see_piece_value_of(pt: PieceType) -> (r: i32)
    ensures
        r == see_piece_value(pt),
{
    match pt {
        PieceType::Pawn => 100,
        PieceType::Knight => 325,
        PieceType::Bishop => 335,
        PieceType::Rook => 500,
        PieceType::Queen => 975,
        _ => 0,
    }
}

/// The board is searchable and restores `b0`.
pub open spec fn searching_from(b: Board, b0: Board) -> bool {
    &&& searchable(b)
    &&& restores(b, b0)
}

/// A board that restores a searchable board is searchable.
proof fn lemma_searchable_restored(b1: Board, b0: Board)
    requires
        searchable(b0),
        restores(b1, b0),
        b1.wf(),
    ensures
        searchable(b1),
{
}

impl Searcher {
    /// Plays `m`, lets `f` search the position, and takes the move back:
    /// the board ends as it began.
    proof fn lemma_play_and_take_back(b_before: Board, m: Move, st: UndoState, b_after: Board, b_back: Board)
        requires
            move_reversible(b_before, m),
            made_from(b_before, m, st, b_after),
            restores(b_back, b_after),
            b_back.wf(),
        ensures
            exists|b: Board| move_reversible(b, m) && #[trigger] made_from(b, m, st, b_back),
            made_from(b_before, m, st, b_back),
    {
        lemma_made_from_restored(b_before, m, st, b_after, b_back);
    }

    /// The quiescence search: captures (all evasions in check) until the
    /// position is quiet, standing pat on the static evaluation, with the
    /// table's bounds and delta pruning. The board ends as it began. A
    /// position the search cannot work on, a repetition and a fifty-move
    /// draw score 0; the last ply scores the static evaluation.
    fn quiescence(&mut self, board: &mut Board, alpha: i32, beta: i32, ply: u32) -> (r: i32)
        requires
            old(self).wf(),
            old(board).wf(),
            ply < MAX_PLY,
            -SCORE_BOUND <= alpha < beta <= SCORE_BOUND,
        ensures
            final(self).wf(),
            final(board).wf(),
            restores(*final(board), *old(board)),
            -SCORE_BOUND <= r <= SCORE_BOUND,
            same_config(*final(self), *old(self)),
            pv_kept_below(*final(self), *old(self), ply as int),
            final(self).pv_length@[ply as int] == 0,
            !searchable(*old(board)) ==> r == 0,
            searchable(*old(board)) && ply >= MAX_PLY - 1 ==> r == eval_spec(
                *old(board),
                entry_in_use(cached_entry(old(self).pawn_table, eval_view(*old(board))), eval_view(*old(board))),
            ),
            searchable(*old(board)) && ply < MAX_PLY - 1 && (repeats(*old(board)) || old(board).halfmove_clock >= 100)
                ==> r == 0,
        decreases MAX_PLY - ply, 1nat,
    {
        proof {
            lemma_restores_refl(*board);
        }
        let mut alpha = alpha;
        self.enter_node(ply);
        if !is_searchable(board) {
            return 0;
        }
        if ply >= MAX_PLY as u32 - 1 {
            return self.static_eval(board);
        }
        if board.is_repetition() || board.halfmove_clock >= 100 {
            return 0;
        }
        self.note_ply(ply);
        let tt_entry = self.probe_tt(board.hash);
        let tt_move = match tt_entry {
            Some(e) => e.best_move,
            None => None,
        };
        let (tt_value, cutoff) = self.tt_cutoff(tt_entry, alpha, beta, ply);
        if let Some(v) = cutoff {
            return v;
        }
        let (pinned, checkers) = board.pins_and_checkers(board.side_to_move);
        let in_check = checkers != 0;
        let mut stand_pat = if in_check {
            -INFINITY
        } else {
            self.static_eval(board)
        };
        if let Some(entry) = tt_entry {
            if entry.node_type == NodeType::Exact || (entry.node_type == NodeType::Alpha && tt_value < stand_pat) || (
            entry.node_type == NodeType::Beta && tt_value > stand_pat) {
                stand_pat = tt_value;
            }
        }
        if !in_check {
            if stand_pat >= beta {
                return stand_pat;
            }
            if stand_pat > alpha {
                alpha = stand_pat;
            }
        }
        let picker = MovePicker::new(tt_move, true, in_check, [None, None], None);
        let old_alpha = alpha;
        let (best_score, best_m) = self.qsearch_moves(board, picker, alpha, beta, ply, stand_pat, in_check, pinned, checkers);
        if in_check && best_score == -INFINITY {
            return -MATE_VALUE + ply as i32;
        }
        let node_type = if best_score >= beta {
            NodeType::Beta
        } else if best_score > old_alpha {
            NodeType::Exact
        } else {
            NodeType::Alpha
        };
        let store_score = self.value_to_tt(best_score, ply);
        self.tt.store(board.hash, 0, store_score, node_type, best_m, self.age);
        best_score
    }

    /// Starts a node: clears its principal variation and, every 2048
    /// nodes, checks the time.
    fn enter_node(&mut self, ply: u32)
        requires
            old(self).wf(),
            ply < MAX_PLY,
        ensures
            final(self).wf(),
            same_config(*final(self), *old(self)),
            final(self).pv_length@ == old(self).pv_length@.update(ply as int, 0),
            reported(*final(self), (Searcher { pv_length: final(self).pv_length, ..*old(self) })),
    {
        self.pv_length.set(ply as usize, 0);
        if (self.node_count() & 2047) == 0 {
            self.check_time();
        }
    }

    /// Records the deepest ply reached.
    fn note_ply(&mut self, ply: u32)
        requires
            old(self).wf(),
        ensures
            final(self).wf(),
            same_config(*final(self), *old(self)),
            final(self).seldepth == (if ply > old(self).seldepth { ply } else { old(self).seldepth }),
            final(self).pv_length == old(self).pv_length,
    {
        if ply > self.seldepth {
            self.seldepth = ply;
        }
    }

    /// The static evaluation with the searcher's pawn table.
    fn static_eval(&mut self, board: &Board) -> (r: i32)
        requires
            old(self).wf(),
            searchable(*board),
        ensures
            final(self).wf(),
            same_config(*final(self), *old(self)),
            -500000 <= r <= 500000,
            r == eval_spec(
                *board,
                entry_in_use(cached_entry(old(self).pawn_table, eval_view(*board)), eval_view(*board)),
            ),
            final(self).pawn_table.table@ == (if cached_entry(old(self).pawn_table, eval_view(*board)) is Some {
                old(self).pawn_table.table@
            } else {
                old(self).pawn_table.table@.update(
                    old(self).pawn_table.slot(board.pawn_hash),
                    pawn_eval(eval_view(*board)),
                )
            }),
            final(self).pawn_table.mask == old(self).pawn_table.mask,
            final(self).pv_length == old(self).pv_length,
    {
        evaluate_with_table(board, &mut self.pawn_table)
    }

    /// The score a search node returns at once from its table entry (see
    /// [`node_tt_cut`]).
    pub fn tt_node_cut(&self, entry: Option<crate::engine::tt::TTEntry>, depth: u32, alpha: i32, beta: i32, ply: u32, usable: bool) -> (r: Option<i32>)
        requires
            entry matches Some(e) ==> -TT_SCORE_BOUND <= e.score <= TT_SCORE_BOUND,
            ply < MAX_PLY,
        ensures
            node_tt_cut(entry, depth, alpha as int, beta as int, ply as int, usable) == (match r {
                Some(v) => Some(v as int),
                None => None,
            }),
    {
        match entry {
            Some(e) => {
                let v = self.value_from_tt(e.score, ply);
                if usable && e.depth >= depth as u8 && v != VALUE_NONE {
                    match e.node_type {
                        NodeType::Exact => Some(v),
                        NodeType::Alpha => if v <= alpha { Some(v) } else { None },
                        NodeType::Beta => if v >= beta { Some(v) } else { None },
                    }
                } else {
                    None
                }
            },
            None => None,
        }
    }

    /// The score of a node without a legal move (see [`no_move_value`]).
    pub fn no_move_score(&self, in_check: bool, ply: u32) -> (r: i32)
        requires
            ply < MAX_PLY,
        ensures
            r == no_move_value(in_check, ply as int),
    {
        if in_check {
            -MATE_VALUE + ply as i32
        } else {
            0
        }
    }

    /// The table entry's score as seen from this ply (or `VALUE_NONE`
    /// without an entry), and the score to return at once when the entry's
    /// bound settles the window: an exact score, an upper bound at most
    /// alpha, or a lower bound at least beta.
    fn tt_cutoff(&self, entry: Option<crate::engine::tt::TTEntry>, alpha: i32, beta: i32, ply: u32) -> (r: (i32, Option<i32>))
        requires
            entry matches Some(e) ==> -TT_SCORE_BOUND <= e.score <= TT_SCORE_BOUND,
            ply < MAX_PLY,
        ensures
            -SCORE_BOUND <= r.0 <= SCORE_BOUND,
            r.0 == (match entry {
                Some(e) => from_tt_spec(e.score as int, ply as int),
                None => VALUE_NONE as int,
            }),
            r.1 == (match entry {
                Some(e) => if r.0 != VALUE_NONE && (e.node_type == NodeType::Exact || (e.node_type == NodeType::Alpha
                    && r.0 <= alpha) || (e.node_type == NodeType::Beta && r.0 >= beta)) {
                    Some(r.0)
                } else {
                    None
                },
                None => None,
            }),
    {
        match entry {
            Some(e) => {
                let v = self.value_from_tt(e.score, ply);
                if v != VALUE_NONE {
                    match e.node_type {
                        NodeType::Exact => {
                            return (v, Some(v));
                        },
                        NodeType::Alpha => {
                            if v <= alpha {
                                return (v, Some(v));
                            }
                        },
                        NodeType::Beta => {
                            if v >= beta {
                                return (v, Some(v));
                            }
                        },
                    }
                }
                (v, None)
            },
            None => (VALUE_NONE, None),
        }
    }

    /// The move loop of the quiescence search: searches the moves the
    /// picker hands out that are legal and not delta-pruned, raising alpha,
    /// until one reaches beta. Returns the best score (starting from the
    /// stand-pat score) and the move that last raised alpha.
    fn qsearch_moves(
        &mut self,
        board: &mut Board,
        picker: MovePicker,
        alpha: i32,
        beta: i32,
        ply: u32,
        stand_pat: i32,
        in_check: bool,
        pinned: u64,
        checkers: u64,
    ) -> (r: (i32, Option<Move>))
        requires
            old(self).wf(),
            searchable(*old(board)),
            picker.wf(*old(board)),
            ply < MAX_PLY - 1,
            -SCORE_BOUND <= alpha < beta <= SCORE_BOUND,
            -SCORE_BOUND <= stand_pat <= SCORE_BOUND,
        ensures
            final(self).wf(),
            final(board).wf(),
            restores(*final(board), *old(board)),
            -SCORE_BOUND <= r.0 <= SCORE_BOUND,
            same_config(*final(self), *old(self)),
            pv_kept_below(*final(self), *old(self), ply + 1),
            stand_pat <= r.0,
            r.1 is Some ==> alpha < r.0,
        decreases MAX_PLY - ply, 0nat,
    {
        let ghost b0 = *board;
        proof {
            lemma_restores_refl(b0);
        }
        let ghost alpha0 = alpha;
        let mut picker = picker;
        let mut alpha = alpha;
        let mut best_score = stand_pat;
        let mut best_m: Option<Move> = None;
        loop
            invariant_except_break
                alpha < beta,
            invariant
                self.wf(),
                board.wf(),
                searching_from(*board, b0),
                picker.wf(*board),
                ply < MAX_PLY - 1,
                -SCORE_BOUND <= alpha <= SCORE_BOUND,
                -SCORE_BOUND <= beta <= SCORE_BOUND,
                -SCORE_BOUND <= best_score <= SCORE_BOUND,
                -SCORE_BOUND <= stand_pat <= SCORE_BOUND,
                same_config(*self, *old(self)),
                pv_kept_below(*self, *old(self), ply + 1),
                stand_pat <= best_score,
                alpha0 <= alpha,
                best_m is Some ==> alpha0 < best_score,
            ensures
                self.wf(),
                board.wf(),
                restores(*board, b0),
                -SCORE_BOUND <= best_score <= SCORE_BOUND,
                same_config(*self, *old(self)),
                pv_kept_below(*self, *old(self), ply + 1),
                stand_pat <= best_score,
                best_m is Some ==> alpha0 < best_score,
            decreases picker.remaining(),
        {
            let next = picker.next(self, board, ply);
            let m = match next {
                Some(m) => m,
                None => {
                    break;
                },
            };
            if !can_play(board, m) {
                continue;
            }
            if !board.is_legal_fast(m, pinned, checkers) {
                continue;
            }
            if !in_check && self.settings.delta_pruning {
                let captured_pt = board.pieces[m.to() as usize];
                if stand_pat + see_piece_value_of(captured_pt) + DELTA_MARGIN < alpha {
                    if (m.flags() & 0x8) == 0 {
                        continue;
                    }
                }
            }
            self.count_node();
            let ghost b_before = *board;
            let state = board.make_move(m);
            let ghost b_after = *board;
            let child = self.quiescence(board, -beta, -alpha, ply + 1);
            proof {
                Self::lemma_play_and_take_back(b_before, m, state, b_after, *board);
            }
            board.unmake_move(m, state);
            proof {
                lemma_restores_trans(*board, b_before, b0);
                lemma_searchable_restored(*board, b_before);
                picker.lemma_wf_restored(b_before, *board);
            }
            let score = -child;
            if score > best_score {
                best_score = score;
                if score > alpha {
                    alpha = score;
                    best_m = Some(m);
                    if score >= beta {
                        break;
                    }
                }
            }
        }
        (best_score, best_m)
    }
}

/// Late-move reductions stay far from the ends of an `i32` for windows
/// the search uses.
proof fn lemma_reduction_range(improving: bool, depth: int, move_count: int, delta: int, root_delta: int)
    requires
        -3200000 <= delta <= 3200000,
    ensures
        i32::MIN <= delta * 608 <= i32::MAX,
        -1960000000 <= reduction_spec(improving, depth, move_count, delta, root_delta) <= 1960000000,
{
    if depth >= 1 && move_count >= 1 {
        let d = if depth < 255 { depth } else { 255 };
        let m = if move_count < 255 { move_count } else { 255 };
        lemma_lmr_values();
        let a = lmr_values()[d];
        let b = lmr_values()[m];
        assert(0 <= a * b <= 118 * 118) by (nonlinear_arith)
            requires
                0 <= a <= 118,
                0 <= b <= 118,
        ;
        let rd = if root_delta > 1 { root_delta } else { 1 };
        let q = tdiv(delta * 608, rd);
        assert(-1945600000 <= q <= 1945600000) by (nonlinear_arith)
            requires
                q == tdiv(delta * 608, rd),
                -3200000 <= delta <= 3200000,
                rd >= 1,
        ;
    }
}

impl Searcher {
    /// Sets up a search: lowers the stop flag, starts the clock, sets the
    /// time limits, zeroes the node count and ages the table entries.
    pub fn prepare_search(&mut self, soft_time_limit: Option<u64>, hard_time_limit: Option<u64>)
        requires
            old(self).wf(),
        ensures
            final(self).wf(),
            final(self).soft_time_limit == soft_time_limit,
            final(self).hard_time_limit == hard_time_limit,
            final(self).age == (if old(self).age == 255 { 0 } else { old(self).age + 1 }),
            final(self).settings == old(self).settings,
            final(self).tt == old(self).tt,
            final(self).is_main_thread == old(self).is_main_thread,
    {
        self.set_stop(false);
        self.start_time = now();
        self.soft_time_limit = soft_time_limit;
        self.hard_time_limit = hard_time_limit;
        self.reset_nodes();
        self.age = self.age.wrapping_add(1);
    }

    /// Null-move pruning: passes the turn and searches with a reduced
    /// depth and a null window at beta. Returns the score to cut off with
    /// when even passing holds beta (beta itself when the pass seems to
    /// mate), else `None`. The board ends as it began.
    fn null_move_search(&mut self, board: &mut Board, depth: u32, beta: i32, ply: u32, static_eval: i32) -> (r: Option<i32>)
        requires
            old(self).wf(),
            searchable(*old(board)),
            old(board).fullmove_number < 0xFFFF,
            depth <= MAX_DEPTH,
            ply < MAX_PLY - 1,
            -SCORE_BOUND < beta <= SCORE_BOUND,
            static_eval >= beta,
            -500000 <= static_eval <= 500000,
        ensures
            final(self).wf(),
            final(board).wf(),
            restores(*final(board), *old(board)),
            r matches Some(v) ==> -SCORE_BOUND <= v <= SCORE_BOUND,
            r matches Some(v) ==> beta <= v && (v == beta || v < MATE_VALUE - MAX_PLY),
            same_config(*final(self), *old(self)),
            pv_kept_below(*final(self), *old(self), ply + 1),
        decreases MAX_PLY - ply, 0nat,
    {
        let gap = static_eval - beta;
        let capped_gap = if gap > 600 { 600 } else { gap };
        let r: u32 = 3 + depth / 4 + (capped_gap / 200) as u32;
        let ghost b0 = *board;
        let state = board.make_null_move();
        let ghost b1 = *board;
        let reduced = depth.saturating_sub(r);
        let (_, score) = self.negamax(board, reduced, -beta, -beta + 1, ply + 1, None);
        proof {
            lemma_null_made_from_restored(b0, state, b1, *board);
        }
        board.unmake_null_move(state);
        if -score >= beta {
            let ret_score = if -score >= MATE_VALUE - MAX_PLY as i32 { beta } else { -score };
            return Some(ret_score);
        }
        None
    }

    /// ProbCut: when the quiescence score already clears beta by a margin,
    /// searches the captures that win at least that margin by SEE with a
    /// depth reduced by four; returns the first that holds the raised beta.
    /// The board ends as it began.
    fn probcut(
        &mut self,
        board: &mut Board,
        depth: u32,
        probcut_beta: i32,
        ply: u32,
        static_eval: i32,
        in_check: bool,
        pinned: u64,
        checkers: u64,
    ) -> (r: Option<(Option<Move>, i32)>)
        requires
            old(self).wf(),
            searchable(*old(board)),
            depth <= MAX_DEPTH,
            ply < MAX_PLY - 1,
            -200000 <= probcut_beta <= 200000,
            -500000 <= static_eval <= 500000,
        ensures
            final(self).wf(),
            final(board).wf(),
            restores(*final(board), *old(board)),
            r matches Some(x) ==> -SCORE_BOUND <= x.1 <= SCORE_BOUND,
            r matches Some(x) ==> probcut_beta <= x.1 && (x.0 matches Some(m) && m.spec_flags() & flags::CAPTURE != 0),
            same_config(*final(self), *old(self)),
            pv_kept_below(*final(self), *old(self), ply as int),
            final(self).pv_length@[ply as int] == 0,
        decreases MAX_PLY - ply, 2nat,
    {
        let ghost b0 = *board;
        proof {
            lemma_restores_refl(b0);
        }
        let q_score = self.quiescence(board, probcut_beta - 1, probcut_beta, ply);
        proof {
            lemma_searchable_restored(*board, b0);
        }
        if q_score < probcut_beta {
            return None;
        }
        let mut picker = MovePicker::new(None, false, in_check, [None, None], None);
        loop
            invariant
                b0 == *old(board),
                self.wf(),
                board.wf(),
                searching_from(*board, b0),
                picker.wf(*board),
                depth <= MAX_DEPTH,
                ply < MAX_PLY - 1,
                -200000 <= probcut_beta <= 200000,
                -500000 <= static_eval <= 500000,
                same_config(*self, *old(self)),
                pv_kept_below(*self, *old(self), ply as int),
                self.pv_length@[ply as int] == 0,
            decreases picker.remaining(),
        {
            let next = picker.next(self, board, ply);
            let m = match next {
                Some(m) => m,
                None => {
                    return None;
                },
            };
            if !can_play(board, m) || !board.is_legal_fast(m, pinned, checkers) || (m.flags() & flags::CAPTURE) == 0 {
                continue;
            }
            if board.see(m) < probcut_beta - static_eval {
                continue;
            }
            let ghost b_before = *board;
            let state = board.make_move(m);
            let ghost b_after = *board;
            let (_, child) = self.negamax(board, depth.saturating_sub(4), -probcut_beta, -probcut_beta + 1, ply + 1, None);
            proof {
                Self::lemma_play_and_take_back(b_before, m, state, b_after, *board);
            }
            board.unmake_move(m, state);
            proof {
                lemma_restores_trans(*board, b_before, b0);
                lemma_searchable_restored(*board, b_before);
                picker.lemma_wf_restored(b_before, *board);
            }
            if -child >= probcut_beta {
                return Some((Some(m), -child));
            }
        }
    }
}

impl Searcher {
    /// Starts a node of the main search: clears its principal variation,
    /// counts it, and every 2048 nodes checks the time.
    fn enter_search_node(&mut self, ply: u32)
        requires
            old(self).wf(),
            ply < MAX_PLY,
        ensures
            final(self).wf(),
            same_config(*final(self), *old(self)),
            final(self).pv_length@ == old(self).pv_length@.update(ply as int, 0),
            reported(*final(self), (Searcher { pv_length: final(self).pv_length, ..*old(self) })),
    {
        self.pv_length.set(ply as usize, 0);
        if (self.count_node() & 2047) == 0 {
            self.check_time();
        }
    }

    /// Clears the principal variation of a ply.
    fn clear_pv(&mut self, ply: u32)
        requires
            old(self).wf(),
            ply < MAX_PLY,
        ensures
            final(self).wf(),
            same_config(*final(self), *old(self)),
            final(self).pv_length@ == old(self).pv_length@.update(ply as int, 0),
    {
        self.pv_length.set(ply as usize, 0);
    }

    /// Records the static evaluation of a ply.
    fn note_eval(&mut self, ply: u32, v: i32)
        requires
            old(self).wf(),
            ply < MAX_PLY,
        ensures
            final(self).wf(),
            same_config(*final(self), *old(self)),
            final(self).eval_history@ == old(self).eval_history@.update(ply as int, v),
            final(self).pv_length == old(self).pv_length,
    {
        self.eval_history.set(ply as usize, v);
    }

    /// Records the piece type (capped at 6) and target square played at a ply.
    fn note_move(&mut self, ply: u32, piece: usize, to: usize)
        requires
            old(self).wf(),
            ply < MAX_PLY,
            to < 64,
        ensures
            final(self).wf(),
            same_config(*final(self), *old(self)),
            final(self).move_stack@ == old(self).move_stack@.update(ply as int, (if piece < 6 { piece } else { 6 }, to)),
            final(self).pv_length == old(self).pv_length,
    {
        let p = if piece < 6 { piece } else { 6 };
        self.move_stack.set(ply as usize, (p, to));
    }

    /// Makes `m` the first move of the principal variation of `ply`,
    /// followed by the principal variation of the next ply.
    fn update_pv(&mut self, ply: u32, m: Move)
        requires
            old(self).wf(),
            ply < MAX_PLY - 1,
        ensures
            final(self).wf(),
            same_config(*final(self), *old(self)),
            ({
                let p = ply as int;
                let n = old(self).pv_length@[p + 1] as int;
                &&& final(self).pv_length@ == old(self).pv_length@.update(p, (n + 1) as usize)
                &&& final(self).pv_table@[p * 128] == Some(m)
                &&& forall|i: int| 0 <= i < n ==> #[trigger] final(self).pv_table@[p * 128 + i + 1] == old(self).pv_table@[(p + 1) * 128 + i]
                &&& forall|j: int| 0 <= j < MAX_PLY * MAX_PLY && (j < p * 128 || j > p * 128 + n) ==> #[trigger] final(self).pv_table@[j] == old(self).pv_table@[j]
            }),
    {
        let base = (ply as usize) * 128;
        let next_base = base + 128;
        self.pv_table.set(base, Some(m));
        let next_len = self.pv_length[ply as usize + 1];
        let mut i: usize = 0;
        while i < next_len
            invariant
                self.wf(),
                same_config(*self, *old(self)),
                ply < MAX_PLY - 1,
                base == ply * 128,
                next_base == base + 128,
                next_len == old(self).pv_length@[ply + 1],
                next_len + ply + 1 <= MAX_PLY,
                i <= next_len,
                self.pv_length == old(self).pv_length,
                self.pv_table@[base as int] == Some(m),
                forall|k: int| 0 <= k < i ==> #[trigger] self.pv_table@[base + k + 1] == old(self).pv_table@[next_base + k],
                forall|j: int| 0 <= j < MAX_PLY * MAX_PLY && (j < base || j > base + i) ==> #[trigger] self.pv_table@[j] == old(self).pv_table@[j],
            decreases next_len - i,
        {
            let v = self.pv_table[next_base + i];
            self.pv_table.set(base + i + 1, v);
            i = i + 1;
        }
        self.pv_length.set(ply as usize, 1 + next_len);
    }

    /// The principal variation search: mate distance pruning, table
    /// cutoffs away from the principal variation, check extension, internal
    /// iterative reduction, the quiescence search at depth zero, reverse
    /// futility, null move and ProbCut pruning, then the moves in picker
    /// order. Returns the best move and score; the board ends as it began.
    /// A position the search cannot work on (see [`searchable`]) scores 0,
    /// and so do a repetition and a fifty-move draw; the last ply scores the
    /// static evaluation. The stop flag is read on entry (see
    /// [`Searcher::negamax_entry`]): a stopped search scores 0.
    fn negamax(&mut self, board: &mut Board, depth: u32, alpha: i32, beta: i32, ply: u32, excluded_move: Option<Move>) -> (r: (
        Option<Move>,
        i32,
    ))
        requires
            old(self).wf(),
            old(board).wf(),
            depth < MAX_DEPTH,
            ply < MAX_PLY,
            -SCORE_BOUND <= alpha < beta <= SCORE_BOUND,
        ensures
            final(self).wf(),
            final(board).wf(),
            restores(*final(board), *old(board)),
            -SCORE_BOUND <= r.1 <= SCORE_BOUND,
            same_config(*final(self), *old(self)),
            pv_kept_below(*final(self), *old(self), ply as int),
            r.0 is None && -INFINITY <= alpha ==> final(self).pv_length@[ply as int] == 0,
            beta - alpha > 1 && old(board).kings_apart() ==> (r.0 matches Some(m) ==> pseudo_move(*old(board), m, GenType::All)
                && old(board).legal(m)),
            !searchable(*old(board)) ==> r.0 is None && r.1 == 0,
            searchable(*old(board)) && ply >= MAX_PLY - 1 ==> r.0 is None && (r.1 == 0 || r.1 == eval_spec(
                *old(board),
                entry_in_use(cached_entry(old(self).pawn_table, eval_view(*old(board))), eval_view(*old(board))),
            )),
            searchable(*old(board)) && ply < MAX_PLY - 1 && (repeats(*old(board)) || old(board).halfmove_clock >= 100)
                ==> r.0 is None && r.1 == 0,
        decreases MAX_PLY - ply, 6nat,
    {
        self.enter_search_node(ply);
        let stop = self.stopped();
        self.negamax_entry(stop, board, depth, alpha, beta, ply, excluded_move)
    }

    /// The search of a node given whether the stop flag was raised on
    /// entry: a stopped search, a position the search cannot work on, a
    /// repetition or a fifty-move draw score 0; the last ply scores the
    /// static evaluation; mate distance pruning may settle the window;
    /// otherwise the node is searched. A principal variation node of depth
    /// one or more, whose window lies within the mate scores at this ply,
    /// scores a mate (in check) or a stalemate when the side to move has no
    /// legal move.
    fn negamax_entry(
        &mut self,
        stop: bool,
        board: &mut Board,
        depth: u32,
        alpha: i32,
        beta: i32,
        ply: u32,
        excluded_move: Option<Move>,
    ) -> (r: (Option<Move>, i32))
        requires
            old(self).wf(),
            old(board).wf(),
            depth < MAX_DEPTH,
            ply < MAX_PLY,
            -SCORE_BOUND <= alpha < beta <= SCORE_BOUND,
            old(self).pv_length@[ply as int] == 0,
        ensures
            final(self).wf(),
            final(board).wf(),
            restores(*final(board), *old(board)),
            -SCORE_BOUND <= r.1 <= SCORE_BOUND,
            same_config(*final(self), *old(self)),
            pv_kept_below(*final(self), *old(self), ply as int),
            r.0 is None && -INFINITY <= alpha ==> final(self).pv_length@[ply as int] == 0,
            stop ==> r.0 is None && r.1 == 0,
            !stop && !searchable(*old(board)) ==> r.0 is None && r.1 == 0,
            !stop && searchable(*old(board)) && ply >= MAX_PLY - 1 ==> r.0 is None && r.1 == eval_spec(
                *old(board),
                entry_in_use(cached_entry(old(self).pawn_table, eval_view(*old(board))), eval_view(*old(board))),
            ),
            !stop && searchable(*old(board)) && ply < MAX_PLY - 1 && (repeats(*old(board)) || old(board).halfmove_clock >= 100)
                ==> r.0 is None && r.1 == 0,
            beta - alpha > 1 && old(board).kings_apart() ==> (r.0 matches Some(m) ==> pseudo_move(*old(board), m, GenType::All)
                && old(board).legal(m)),
            !stop && searchable(*old(board)) && ply < MAX_PLY - 1 && !repeats(*old(board)) && old(board).halfmove_clock < 100
                && beta - alpha > 1 && depth >= 1 && -MATE_VALUE + ply < beta && alpha < MATE_VALUE - ply - 1
                && old(board).kings_apart() && !has_legal_reply(*old(board), excluded_move)
                ==> r.0 is None && r.1 == no_move_value(checked(*old(board)), ply as int),
        decreases MAX_PLY - ply, 5nat,
    {
        proof {
            lemma_restores_refl(*board);
        }
        let mut alpha = alpha;
        let mut beta = beta;
        let is_pv_node = beta - alpha > 1;
        if stop {
            return (None, 0);
        }
        if !is_searchable(board) {
            return (None, 0);
        }
        if ply >= MAX_PLY as u32 - 1 {
            return (None, self.static_eval(board));
        }
        if board.is_repetition() || board.halfmove_clock >= 100 {
            return (None, 0);
        }
        if ply > 0 && self.settings.mate_distance_pruning {
            let lo = -MATE_VALUE + ply as i32;
            if lo > alpha {
                alpha = lo;
            }
            let hi = MATE_VALUE - ply as i32 - 1;
            if hi < beta {
                beta = hi;
            }
            if alpha >= beta {
                return (None, alpha);
            }
        }
        self.note_ply(ply);
        self.negamax_node(board, depth, alpha, beta, ply, excluded_move, is_pv_node)
    }

    /// The node part of [`Searcher::negamax`] once the node is known to be
    /// searched: check extension, table cutoff, internal iterative
    /// reduction, and the quiescence search at depth zero.
    fn negamax_node(
        &mut self,
        board: &mut Board,
        depth: u32,
        alpha: i32,
        beta: i32,
        ply: u32,
        excluded_move: Option<Move>,
        is_pv_node: bool,
    ) -> (r: (Option<Move>, i32))
        requires
            old(self).wf(),
            searchable(*old(board)),
            depth < MAX_DEPTH,
            ply < MAX_PLY - 1,
            -SCORE_BOUND <= alpha < beta <= SCORE_BOUND,
        ensures
            final(self).wf(),
            final(board).wf(),
            restores(*final(board), *old(board)),
            -SCORE_BOUND <= r.1 <= SCORE_BOUND,
            same_config(*final(self), *old(self)),
            pv_kept_below(*final(self), *old(self), ply as int),
            r.0 is None && -INFINITY <= alpha && old(self).pv_length@[ply as int] == 0 ==> final(self).pv_length@[ply
                as int] == 0,
            is_pv_node && depth >= 1 && old(board).kings_apart() && !has_legal_reply(*old(board), excluded_move)
                ==> r.0 is None && r.1 == no_move_value(checked(*old(board)), ply as int),
            is_pv_node && old(board).kings_apart() ==> (r.0 matches Some(m) ==> pseudo_move(*old(board), m, GenType::All)
                && old(board).legal(m)),
        decreases MAX_PLY - ply, 4nat,
    {
        proof {
            lemma_restores_refl(*board);
        }
        let mut depth = depth;
        let (pinned, checkers) = board.pins_and_checkers(board.side_to_move);
        let in_check = checkers != 0;
        proof {
            crate::board::bitboard::lemma_zero_iff_empty(checkers);
            assert(node_masks(*board, pinned, checkers));
            if checked(*board) {
                let a = choose|a: int| #[trigger] board.is_checker(board.our_king(), board.side_to_move, a);
                assert(in_bb(checkers, a));
            }
            if in_check {
                let a = choose|a: int| 0 <= a < 64 && #[trigger] in_bb(checkers, a);
                assert(board.is_checker(board.our_king(), board.side_to_move, a));
            }
            assert(in_check == checked(*board));
        }
        if in_check && ply < 16 {
            depth = depth + 1;
        }
        let mut tt_move: Option<Move> = None;
        let entry = self.probe_tt(board.hash);
        if let Some(e) = entry {
            tt_move = e.best_move;
        }
        if let Some(v) = self.tt_node_cut(entry, depth, alpha, beta, ply, !is_pv_node && excluded_move.is_none()) {
            return (tt_move, v);
        }
        if self.settings.iir && !is_pv_node && tt_move.is_none() && depth >= 6 {
            depth = depth - 1;
        }
        if depth == 0 {
            return (None, self.quiescence(board, alpha, beta, ply));
        }
        self.negamax_moves(board, depth, alpha, beta, ply, excluded_move, is_pv_node, in_check, pinned, checkers, tt_move)
    }

    /// The move part of [`Searcher::negamax`]: static evaluation, reverse
    /// futility, null move and ProbCut pruning, the move loop, and the
    /// table store (mate or stalemate without a legal move).
    #[verifier::spinoff_prover]
    #[verifier::rlimit(40)]
    fn negamax_moves(
        &mut self,
        board: &mut Board,
        depth: u32,
        alpha: i32,
        beta: i32,
        ply: u32,
        excluded_move: Option<Move>,
        is_pv_node: bool,
        in_check: bool,
        pinned: u64,
        checkers: u64,
        tt_move: Option<Move>,
    ) -> (r: (Option<Move>, i32))
        requires
            old(self).wf(),
            searchable(*old(board)),
            1 <= depth <= MAX_DEPTH,
            ply < MAX_PLY - 1,
            -SCORE_BOUND <= alpha < beta <= SCORE_BOUND,
        ensures
            final(self).wf(),
            final(board).wf(),
            restores(*final(board), *old(board)),
            -SCORE_BOUND <= r.1 <= SCORE_BOUND,
            same_config(*final(self), *old(self)),
            pv_kept_below(*final(self), *old(self), ply as int),
            r.0 is None && -INFINITY <= alpha && old(self).pv_length@[ply as int] == 0 ==> final(self).pv_length@[ply
                as int] == 0,
            is_pv_node && node_masks(*old(board), pinned, checkers) && old(board).kings_apart() && !has_legal_reply(
                *old(board),
                excluded_move,
            ) ==> r.0 is None && r.1 == no_move_value(in_check, ply as int),
            is_pv_node && node_masks(*old(board), pinned, checkers) && old(board).kings_apart() ==> (r.0 matches Some(m)
                ==> pseudo_move(*old(board), m, GenType::All) && old(board).legal(m)),
        decreases MAX_PLY - ply, 3nat,
    {
        let ghost b0 = *board;
        proof {
            lemma_restores_refl(b0);
        }
        let static_eval = self.static_eval(board);
        self.note_eval(ply, static_eval);
        let improving = !in_check && ply >= 2 && static_eval > self.eval_history[ply as usize - 2];
        if self.settings.rfp && !is_pv_node && !in_check && depth <= 8 && excluded_move.is_none() {
            let margin = depth as i32 * 114;
            if static_eval - margin >= beta {
                return (None, static_eval - margin);
            }
        }
        if self.settings.nmp && !is_pv_node && depth >= 3 && !in_check && excluded_move.is_none() && static_eval >= beta {
            if board.has_non_pawn_material(board.side_to_move) && board.fullmove_number < 0xFFFF {
                let cut = self.null_move_search(board, depth, beta, ply, static_eval);
                if let Some(v) = cut {
                    return (None, v);
                }
                proof {
                    lemma_searchable_restored(*board, b0);
                }
            }
        }
        if !is_pv_node && depth >= 3 && excluded_move.is_none() && -(MATE_VALUE - 1000) < beta && beta < MATE_VALUE - 1000 {
            let probcut_beta = beta + 200 - if improving { 49 } else { 0 };
            let ghost b1 = *board;
            let cut = self.probcut(board, depth, probcut_beta, ply, static_eval, in_check, pinned, checkers);
            proof {
                lemma_restores_trans(*board, b1, b0);
            }
            if let Some(res) = cut {
                return res;
            }
            proof {
                lemma_searchable_restored(*board, b0);
            }
        }
        let old_alpha = alpha;
        self.clear_pv(ply);
        let picker = match excluded_move {
            Some(excluded) => MovePicker::with_excluded(tt_move, Some(excluded), in_check),
            None => {
                let killers = self.killer_moves[ply as usize];
                let countermove = self.get_countermove(board);
                MovePicker::new(tt_move, false, in_check, killers, countermove)
            },
        };
        let ghost b2 = *board;
        let (best_m, max_score, legal_moves) = self.search_moves(
            board,
            picker,
            depth,
            alpha,
            beta,
            ply,
            tt_move,
            in_check,
            pinned,
            checkers,
            improving,
            is_pv_node,
        );
        proof {
            lemma_restores_trans(*board, b2, b0);
        }
        if legal_moves == 0 {
            return (None, self.no_move_score(in_check, ply));
        }
        let node_type = if max_score >= beta {
            NodeType::Beta
        } else if max_score > old_alpha {
            NodeType::Exact
        } else {
            NodeType::Alpha
        };
        let store_score = self.value_to_tt(max_score, ply);
        self.tt.store(board.hash, depth as u8, store_score, node_type, best_m, self.age);
        (best_m, max_score)
    }

    /// The move loop of the principal variation search: skips illegal
    /// moves, prunes by history, move count and SEE away from the principal
    /// variation, reduces late quiet moves, re-searches moves that raise
    /// alpha, keeps the principal variation and the move-ordering tables.
    /// Returns the best move, its score and the number of legal moves.
    #[verifier::spinoff_prover]
    #[verifier::rlimit(40)]
    fn search_moves(
        &mut self,
        board: &mut Board,
        picker: MovePicker,
        depth: u32,
        alpha: i32,
        beta: i32,
        ply: u32,
        tt_move: Option<Move>,
        in_check: bool,
        pinned: u64,
        checkers: u64,
        improving: bool,
        is_pv_node: bool,
    ) -> (r: (Option<Move>, i32, u32))
        requires
            old(self).wf(),
            searchable(*old(board)),
            picker.wf(*old(board)),
            picker.remaining() <= 8900,
            1 <= depth <= MAX_DEPTH,
            ply < MAX_PLY - 1,
            -SCORE_BOUND <= alpha < beta <= SCORE_BOUND,
        ensures
            final(self).wf(),
            final(board).wf(),
            restores(*final(board), *old(board)),
            -SCORE_BOUND <= r.1 <= SCORE_BOUND,
            same_config(*final(self), *old(self)),
            pv_kept_below(*final(self), *old(self), ply as int),
            r.0 is None && -INFINITY <= alpha ==> final(self).pv_length@[ply as int] == old(self).pv_length@[ply as int],
            r.2 == 0 ==> r.0 is None && r.1 == -INFINITY,
            node_masks(*old(board), pinned, checkers) && old(board).kings_apart() && !has_legal_reply(
                *old(board),
                picker.excluded(),
            ) ==> r.2 == 0,
            node_masks(*old(board), pinned, checkers) && old(board).kings_apart() ==> (r.0 matches Some(m)
                ==> pseudo_move(*old(board), m, GenType::All) && old(board).legal(m)),
        decreases MAX_PLY - ply, 0nat,
    {
        let ghost b0 = *board;
        proof {
            lemma_restores_refl(b0);
        }
        let ghost alpha0 = alpha;
        let ghost excl = picker.excluded();
        let ghost good_masks = node_masks(b0, pinned, checkers) && b0.kings_apart();
        let ghost none_legal = node_masks(b0, pinned, checkers) && b0.kings_apart() && !has_legal_reply(b0, excl);
        let mut picker = picker;
        let mut alpha = alpha;
        let mut legal_moves: u32 = 0;
        let mut best_m: Option<Move> = None;
        let mut max_score: i32 = -INFINITY;
        assert(depth * depth <= 46000 * 46000) by (nonlinear_arith)
            requires
                depth <= 46000,
        ;
        let futility_move_count: u32 = (3 + depth * depth) / (2 - if improving { 1 } else { 0 });
        loop
            invariant_except_break
                alpha < beta,
                legal_moves + picker.remaining() <= 8900,
            invariant
                self.wf(),
                board.wf(),
                searching_from(*board, b0),
                picker.wf(*board),
                1 <= depth <= MAX_DEPTH,
                ply < MAX_PLY - 1,
                -SCORE_BOUND <= alpha <= SCORE_BOUND,
                -SCORE_BOUND <= beta <= SCORE_BOUND,
                -SCORE_BOUND <= max_score <= SCORE_BOUND,
                same_config(*self, *old(self)),
                pv_kept_below(*self, *old(self), ply as int),
                alpha0 <= alpha,
                -INFINITY <= alpha0 ==> max_score <= alpha,
                best_m is None && -INFINITY <= alpha0 ==> self.pv_length@[ply as int] == old(self).pv_length@[ply as int],
                legal_moves == 0 ==> best_m is None && max_score == -INFINITY,
                picker.excluded() == excl,
                none_legal == (node_masks(b0, pinned, checkers) && b0.kings_apart() && !has_legal_reply(b0, excl)),
                b0.wf(),
                b0.kings[b0.us()] != 0,
                none_legal ==> legal_moves == 0,
                good_masks == (node_masks(b0, pinned, checkers) && b0.kings_apart()),
                good_masks ==> (best_m matches Some(bm) ==> pseudo_move(b0, bm, GenType::All) && b0.legal(bm)),
            ensures
                self.wf(),
                board.wf(),
                restores(*board, b0),
                -SCORE_BOUND <= max_score <= SCORE_BOUND,
                same_config(*self, *old(self)),
                pv_kept_below(*self, *old(self), ply as int),
                best_m is None && -INFINITY <= alpha0 ==> self.pv_length@[ply as int] == old(self).pv_length@[ply as int],
                legal_moves == 0 ==> best_m is None && max_score == -INFINITY,
                none_legal ==> legal_moves == 0,
                good_masks ==> (best_m matches Some(bm) ==> pseudo_move(b0, bm, GenType::All) && b0.legal(bm)),
            decreases picker.remaining(),
        {
            let ghost rem = picker.remaining();
            let next = picker.next(self, board, ply);
            let m = match next {
                Some(m) => m,
                None => {
                    break;
                },
            };
            if !can_play(board, m) || !board.is_legal_fast(m, pinned, checkers) {
                continue;
            }
            proof {
                if good_masks {
                    crate::movegen::lemma_pseudo_restored(*board, b0, m, GenType::All);
                    crate::movegen::lemma_legal_with_restored(*board, b0, m, pinned, checkers);
                    b0.law_legal_with_masks(m, pinned, checkers);
                    assert(pseudo_move(b0, m, GenType::All) && b0.legal(m));
                }
                if none_legal {
                    assert(has_legal_reply(b0, excl));
                }
            }
            let is_promotion = (m.flags() & 0x8) != 0;
            let is_quiet = (m.flags() & flags::CAPTURE) == 0 && !is_promotion;
            legal_moves = legal_moves + 1;
            let is_first_move = legal_moves == 1;
            let from = m.from() as usize;
            let to = m.to() as usize;
            let us = board.side_to_move.idx();
            if self.settings.history_pruning && !is_pv_node && depth <= 8 && legal_moves > 1 && is_quiet {
                let hist = self.history[us * 4096 + from * 64 + to];
                if hist < -4000 * depth as i32 {
                    continue;
                }
            }
            if self.settings.lmp && !is_pv_node && depth < 10 && !in_check && is_quiet && legal_moves >= futility_move_count {
                picker.skip_remaining_quiets();
                continue;
            }
            if self.settings.see_pruning && !is_pv_node && depth <= 8 && legal_moves > 1 {
                let margin = if is_quiet {
                    let di = depth as i32;
                    assert(-200 <= -25 * di <= 0 && -1600 <= -25 * di * di <= 0) by (nonlinear_arith)
                        requires
                            0 <= di <= 8,
                    ;
                    -25 * di * di
                } else {
                    let a = if board.pieces[from].idx() < 5 { board.pieces[from].idx() } else { 5 };
                    let v = if board.pieces[to].idx() < 5 { board.pieces[to].idx() } else { 5 };
                    let idx = ((us * 6 + a) * 64 + to) * 64 + v;
                    assert(idx < CAPTURE_HISTORY_SIZE) by (nonlinear_arith)
                        requires
                            idx == ((us * 6 + a) * 64 + to) * 64 + v,
                            us < 2,
                            a <= 5,
                            to < 64,
                            v <= 5,
                    ;
                    let hist = self.capture_history[idx];
                    -166 * depth as i32 - hist / 29
                };
                if board.see(m) < margin {
                    continue;
                }
            }
            self.note_move(ply, board.pieces[from].idx(), to);
            let us_idx = us;
            let ghost b_before = *board;
            let state = board.make_move(m);
            let ghost b_after = *board;
            let mut score: i32;
            if self.settings.lmr && !is_first_move && depth >= 3 && is_quiet && Some(m) != tt_move {
                proof {
                    lemma_reduction_range(improving, depth as int, legal_moves as int, (beta - alpha) as int, self.root_delta as int);
                }
                let mut r = self.reduction(improving, depth, legal_moves as i32, beta - alpha, self.root_delta);
                if is_pv_node {
                    r = r - 1024;
                }
                let hist = self.history[us_idx * 4096 + from * 64 + to];
                r = r - hist * 850 / 8192;
                let reduced = depth as i32 - 1 - r / 1024;
                let full = depth as i32 - 1;
                let lowest = if reduced < full { reduced } else { full };
                let d: u32 = if lowest > 1 { lowest as u32 } else { 1 };
                let (_, s1) = self.negamax(board, d, -alpha - 1, -alpha, ply + 1, None);
                score = -s1;
                if score > alpha && d < depth - 1 {
                    let ghost b_mid = *board;
                    let (_, s2) = self.negamax(board, depth - 1, -alpha - 1, -alpha, ply + 1, None);
                    proof {
                        lemma_restores_trans(*board, b_mid, b_after);
                    }
                    score = -s2;
                }
            } else {
                let lower = if is_first_move { -beta } else { -alpha - 1 };
                let (_, s1) = self.negamax(board, depth - 1, lower, -alpha, ply + 1, None);
                score = -s1;
            }
            if is_pv_node && !is_first_move && score > alpha && score < beta {
                let ghost b_mid = *board;
                let (_, s3) = self.negamax(board, depth - 1, -beta, -alpha, ply + 1, None);
                proof {
                    lemma_restores_trans(*board, b_mid, b_after);
                }
                score = -s3;
            }
            proof {
                Self::lemma_play_and_take_back(b_before, m, state, b_after, *board);
            }
            board.unmake_move(m, state);
            proof {
                lemma_restores_trans(*board, b_before, b0);
                lemma_searchable_restored(*board, b_before);
                picker.lemma_wf_restored(b_before, *board);
            }
            if score > max_score {
                max_score = score;
                best_m = Some(m);
            }
            if score > alpha {
                alpha = score;
                self.update_pv(ply, m);
                if alpha >= beta {
                    if is_quiet {
                        self.update_heuristics(m, board, depth, ply, tt_move);
                    }
                    break;
                }
            } else if is_quiet {
                self.apply_history_malus(m, board, depth, legal_moves, ply);
            }
        }
        (best_m, max_score, legal_moves)
    }
}

/// The result iterative deepening gives, from its record: the best move
/// and score of each completed depth (oldest first), whether the depth loop
/// ended on the stop flag, or on the soft time limit, whether the stop flag
/// was raised at the end, and the best move and score when the loop ended.
/// When the flag was raised at the end and the depth before the last one
/// the loop went through (the last completed one, or the one before it when
/// the soft limit ended the loop) had a move, that depth's result stands;
/// otherwise the one the loop ended with.
pub open spec fn deepening_choice(rec: (Seq<(Option<Move>, i32)>, bool, bool, bool, (Option<Move>, i32))) -> (Option<Move>, i32) {
    let its = rec.0;
    let prev: Option<(Option<Move>, i32)> = if rec.2 {
        if its.len() >= 2 { Some(its[its.len() - 2]) } else { None }
    } else {
        if its.len() >= 1 { Some(its.last()) } else { None }
    };
    if rec.3 && prev is Some && (prev->0).0 is Some {
        prev->0
    } else {
        rec.4
    }
}

/// The record of an iterative deepening is consistent: it did not end both
/// on the stop flag and on the time limit, and unless it ended on the stop
/// flag, the result it ended with is that of the last completed depth.
pub open spec fn deepening_consistent(rec: (Seq<(Option<Move>, i32)>, bool, bool, bool, (Option<Move>, i32))) -> bool {
    &&& !(rec.1 && rec.2)
    &&& rec.2 ==> rec.0.len() >= 1
    &&& !rec.1 ==> (if rec.0.len() >= 1 { rec.4 == rec.0.last() } else { rec.4.0 is None && rec.4.1 == -INFINITY })
}

/// The result of a depth is stable: the best move held (or there was none
/// before) and the score did not drop by more than 50.
pub open spec fn stable_result(best_move: Option<Move>, best_score: i32, previous_best_move: Option<Move>, previous_score: i32) -> bool {
    &&& !(previous_best_move.is_some() && best_move != previous_best_move)
    &&& best_score >= previous_score - 50
}

/// Nodes per second for a node count over a time in milliseconds
/// (multiplying with wrap-around, as a release build does).
pub open spec fn nps_spec(nodes: u64, time: u64) -> u64 {
    if time > 0 {
        ((nodes * 1000) % 0x1_0000_0000_0000_0000) as u64 / time
    } else {
        0
    }
}

/// The text of a principal variation: a space and the move for each of the
/// first `n` slots that holds one.
pub open spec fn pv_text(pv: Seq<Option<Move>>, n: int) -> Seq<char>
    decreases n,
{
    if n <= 0 {
        Seq::empty()
    } else {
        pv_text(pv, n - 1) + match pv[n - 1] {
            Some(m) => seq![' '] + m.uci_chars(),
            None => Seq::empty(),
        }
    }
}

/// The report line of a completed depth `d`: the depth, selective depth,
/// score, node count, speed, time in milliseconds and principal variation.
pub open spec fn depth_line(d: u32, seldepth: u32, score: i32, nodes: u64, time: u64, pv: Seq<char>) -> Seq<char> {
    seq!['i', 'n', 'f', 'o', ' ', 'd', 'e', 'p', 't', 'h', ' '] + decimal(d as nat) + seq![' ', 's', 'e', 'l', 'd', 'e', 'p', 't', 'h', ' '] + decimal(seldepth as nat)
        + seq![' ', 's', 'c', 'o', 'r', 'e', ' '] + score_text(score as int) + seq![' ', 'n', 'o', 'd', 'e', 's', ' '] + decimal(nodes as nat)
        + seq![' ', 'n', 'p', 's', ' '] + decimal(nps_spec(nodes, time) as nat) + seq![' ', 't', 'i', 'm', 'e', ' '] + decimal(time as nat)
        + seq![' ', 'p', 'v'] + pv
}

impl Searcher {
    /// The report of a completed depth: depth, selective depth, score,
    /// nodes, speed, time and the principal variation from the root.
    fn depth_report(&self, d: u32, best_score: i32) -> (line: String)
        requires
            self.wf(),
        ensures
            exists|nodes: u64, time: u64|
                line@ == depth_line(d, self.seldepth, best_score, nodes, time, pv_text(self.pv_table@, self.pv_length@[0] as int)),
    {
        proof {
            reveal_strlit("info depth ");
            reveal_strlit(" seldepth ");
            reveal_strlit(" score ");
            reveal_strlit(" nodes ");
            reveal_strlit(" nps ");
            reveal_strlit(" time ");
            reveal_strlit(" pv");
        }
        let time = elapsed_millis(&self.start_time);
        let nodes = self.node_count();
        let nps = Self::nodes_per_second(nodes, time);
        let mut line = String::new();
        push_str(&mut line, "info depth ");
        push_decimal(&mut line, d as u64);
        push_str(&mut line, " seldepth ");
        push_decimal(&mut line, self.seldepth as u64);
        push_str(&mut line, " score ");
        let score_text = self.format_score(best_score);
        push_str(&mut line, score_text.as_str());
        push_str(&mut line, " nodes ");
        push_decimal(&mut line, nodes);
        push_str(&mut line, " nps ");
        push_decimal(&mut line, nps);
        push_str(&mut line, " time ");
        push_decimal(&mut line, time);
        push_str(&mut line, " pv");
        let ghost head = line@;
        assert(head =~= depth_line(d, self.seldepth, best_score, nodes, time, Seq::empty()));
        let n = self.pv_length[0];
        let mut i: usize = 0;
        while i < n
            invariant
                self.wf(),
                n == self.pv_length@[0],
                n <= MAX_PLY,
                i <= n,
                line@ == head + pv_text(self.pv_table@, i as int),
            decreases n - i,
        {
            let ghost before = line@;
            if let Some(m) = self.pv_table[i] {
                push_char(&mut line, ' ');
                let text = m.to_uci_string();
                push_str(&mut line, text.as_str());
                assert(line@ =~= before + (seq![' '] + m.uci_chars()));
            } else {
                assert(line@ =~= before + Seq::<char>::empty());
            }
            assert(line@ =~= head + pv_text(self.pv_table@, i + 1));
            i = i + 1;
        }
        assert(line@ =~= depth_line(d, self.seldepth, best_score, nodes, time, pv_text(self.pv_table@, n as int)));
        line
    }

    /// Whether iterative deepening stops after a completed depth at
    /// `elapsed` milliseconds (see [`soft_stop_spec`]), the result being
    /// stable when the best move held and the score did not drop by more
    /// than 50.
    fn soft_stop(&self, elapsed: u64, best_move: Option<Move>, best_score: i32, previous_best_move: Option<Move>, previous_score: i32) -> (r: bool)
        requires
            -SCORE_BOUND <= previous_score <= SCORE_BOUND,
        ensures
            r == soft_stop_spec(elapsed, self.soft_time_limit, self.hard_time_limit, stable_result(best_move, best_score,
                previous_best_move, previous_score)),
    {
        if let Some(soft) = self.soft_time_limit {
            if elapsed >= soft {
                let mut stable = true;
                if previous_best_move.is_some() && best_move != previous_best_move {
                    stable = false;
                }
                if best_score < previous_score - 50 {
                    stable = false;
                }
                if stable {
                    return true;
                } else if let Some(hard) = self.hard_time_limit {
                    if elapsed >= hard {
                        return true;
                    }
                }
            }
        }
        false
    }

    /// Iterative deepening to `depth` with aspiration windows from depth 3:
    /// a failed search widens the window on the failing side (doubling the
    /// margin, opening it fully near mate scores or once the margin reaches
    /// 10000) and searches again. Stops on the stop flag or, after a
    /// completed depth, on the soft time limit. Reports each completed
    /// depth. When stopped, the result of the last completed depth stands.
    /// The board ends as it began.
    pub fn internal_search(&mut self, board: &mut Board, depth: u32) -> (r: SearchResult)
        requires
            old(self).wf(),
            old(board).wf(),
            depth < MAX_DEPTH,
        ensures
            final(self).wf(),
            final(board).wf(),
            restores(*final(board), *old(board)),
            r.depth <= depth,
            -SCORE_BOUND <= r.score <= SCORE_BOUND,
            same_config(*final(self), *old(self)),
            depth == 0 ==> r.best_move is None && r.score == -INFINITY && r.depth == 0,
            r.best_move matches Some(m) ==> pseudo_move(*final(board), m, GenType::All) && final(board).legal(m),
            r.best_move matches Some(m) ==> pseudo_move(*old(board), m, GenType::All),
            final(self).deepening@.0.len() == r.depth,
            deepening_consistent(final(self).deepening@),
            r.score == deepening_choice(final(self).deepening@).1,
            r.best_move is Some ==> r.best_move == deepening_choice(final(self).deepening@).0,
            deepening_choice(final(self).deepening@).0 matches Some(m) && pseudo_move(*final(board), m, GenType::All)
                && final(board).legal(m) && final(board).kings[final(board).us()] != 0 && !crate::movegen::crowded(*final(board))
                ==> r.best_move == deepening_choice(final(self).deepening@).0,
    {
        let ghost b0 = *board;
        let ghost mut its: Seq<(Option<Move>, i32)> = Seq::empty();
        let ghost mut on_stop = false;
        let ghost mut on_time = false;
        proof {
            lemma_restores_refl(b0);
        }
        let mut best_move: Option<Move> = None;
        let mut best_score: i32 = -INFINITY;
        let mut previous_best_move: Option<Move> = None;
        let mut previous_score: i32 = -INFINITY;
        let mut last_completed_depth: u32 = 0;
        self.last_info_time = now();
        let mut d: u32 = 1;
        while d <= depth
            invariant_except_break
                d <= depth + 1,
                last_completed_depth + 1 == d,
                !on_stop && !on_time,
                its.len() == 0 ==> previous_best_move is None && previous_score == -INFINITY,
                its.len() > 0 ==> (previous_best_move, previous_score) == its.last(),
                (best_move, best_score) == (previous_best_move, previous_score),
            invariant
                its.len() == last_completed_depth,
                self.wf(),
                board.wf(),
                restores(*board, b0),
                depth < MAX_DEPTH,
                last_completed_depth <= depth,
                previous_best_move.is_some() ==> 1 <= depth,
                -SCORE_BOUND <= best_score <= SCORE_BOUND,
                -SCORE_BOUND <= previous_score <= SCORE_BOUND,
                same_config(*self, *old(self)),
                depth == 0 ==> best_move is None && best_score == -INFINITY && previous_best_move is None && d == 1,
            ensures
                self.wf(),
                board.wf(),
                restores(*board, b0),
                last_completed_depth <= depth,
                previous_best_move.is_some() ==> 1 <= depth,
                -SCORE_BOUND <= best_score <= SCORE_BOUND,
                -SCORE_BOUND <= previous_score <= SCORE_BOUND,
                same_config(*self, *old(self)),
                depth == 0 ==> best_move is None && best_score == -INFINITY && previous_best_move is None,
                !(on_stop && on_time),
                on_time ==> its.len() >= 1 && (best_move, best_score) == its.last(),
                on_time && its.len() >= 2 ==> (previous_best_move, previous_score) == its[its.len() - 2],
                on_time && its.len() == 1 ==> previous_best_move is None,
                !on_time && its.len() == 0 ==> previous_best_move is None && previous_score == -INFINITY,
                !on_time && its.len() > 0 ==> (previous_best_move, previous_score) == its.last(),
                !on_time && !on_stop ==> (best_move, best_score) == (previous_best_move, previous_score),
            decreases depth + 1 - d,
        {
            let mut delta: i32 = 50;
            let mut alpha: i32 = -INFINITY;
            let mut beta: i32 = INFINITY;
            best_score = -INFINITY;
            if self.settings.aspiration_windows && d >= 3 && -(MATE_VALUE - 1000) < previous_score && previous_score < MATE_VALUE
                - 1000 {
                alpha = if previous_score - delta > -INFINITY { previous_score - delta } else { -INFINITY };
                beta = if previous_score + delta < INFINITY { previous_score + delta } else { INFINITY };
            }
            loop
                invariant
                    self.wf(),
                    board.wf(),
                    restores(*board, b0),
                    depth < MAX_DEPTH,
                    1 <= d <= depth,
                    -INFINITY <= alpha < beta <= INFINITY,
                    50 <= delta <= 0x4000_0000,
                    -SCORE_BOUND <= best_score <= SCORE_BOUND,
                    same_config(*self, *old(self)),
                decreases 0x4000_0000 - delta,
            {
                self.root_delta = beta - alpha;
                let ghost b1 = *board;
                let (m, score) = self.negamax(board, d, alpha, beta, 0, None);
                proof {
                    lemma_restores_trans(*board, b1, b0);
                }
                if self.stopped() {
                    break;
                }
                let step = window_step(score, alpha, beta, delta);
                best_score = score;
                if step.keep_move {
                    if m.is_some() {
                        best_move = m;
                    } else if step.settled {
                        if let Some(entry) = self.tt.probe(board.hash) {
                            best_move = entry.best_move;
                        }
                    }
                }
                if step.settled {
                    break;
                }
                alpha = step.alpha;
                beta = step.beta;
                delta = step.delta;
            }
            if self.stopped() {
                proof {
                    on_stop = true;
                }
                break;
            }
            last_completed_depth = d;
            proof {
                its = its.push((best_move, best_score));
            }
            if self.is_main_thread {
                let line = self.depth_report(d, best_score);
                self.info_lines.push(line);
            }
            let elapsed = elapsed_millis(&self.start_time);
            if self.soft_stop(elapsed, best_move, best_score, previous_best_move, previous_score) {
                proof {
                    on_time = true;
                }
                break;
            }
            previous_best_move = best_move;
            previous_score = best_score;
            d = d + 1;
        }
        let stop_end = self.stopped();
        let ghost last = (best_move, best_score);
        if stop_end && previous_best_move.is_some() {
            best_move = previous_best_move;
            best_score = previous_score;
            if last_completed_depth < 1 {
                last_completed_depth = 1;
            }
        }
        self.deepening = Ghost((its, on_stop, on_time, stop_end, last));
        assert((best_move, best_score) == deepening_choice(self.deepening@));
        if let Some(mv) = best_move {
            if !is_legal_move(board, mv) {
                best_move = None;
            }
        }
        proof {
            if let Some(mv) = best_move {
                crate::movegen::lemma_pseudo_restored(*board, b0, mv, GenType::All);
            }
        }
        SearchResult { best_move, score: best_score, depth: last_completed_depth }
    }

    /// Searches the position to `depth` on this thread: prepares the search
    /// (see [`Searcher::prepare_search`]) and runs the iterative deepening.
    /// Searches with helper threads are run by the caller, each helper
    /// sharing the table, node counter and stop flag.
    pub fn search(
        &mut self,
        board: &mut Board,
        depth: u32,
        soft_time_limit: Option<u64>,
        hard_time_limit: Option<u64>,
        num_threads: usize,
    ) -> (r: SearchResult)
        requires
            old(self).wf(),
            old(board).wf(),
            depth < MAX_DEPTH,
            num_threads <= 1,
        ensures
            final(self).wf(),
            final(board).wf(),
            restores(*final(board), *old(board)),
            r.depth <= depth,
            -SCORE_BOUND <= r.score <= SCORE_BOUND,
            final(self).soft_time_limit == soft_time_limit,
            final(self).hard_time_limit == hard_time_limit,
            final(self).settings == old(self).settings,
            r.best_move matches Some(m) ==> pseudo_move(*final(board), m, GenType::All) && final(board).legal(m),
            r.best_move matches Some(m) ==> pseudo_move(*old(board), m, GenType::All),
            final(self).deepening@.0.len() == r.depth,
            deepening_consistent(final(self).deepening@),
            r.score == deepening_choice(final(self).deepening@).1,
            r.best_move is Some ==> r.best_move == deepening_choice(final(self).deepening@).0,
            deepening_choice(final(self).deepening@).0 matches Some(m) && pseudo_move(*final(board), m, GenType::All)
                && final(board).legal(m) && final(board).kings[final(board).us()] != 0 && !crate::movegen::crowded(*final(board))
                ==> r.best_move == deepening_choice(final(self).deepening@).0,
    {
        self.prepare_search(soft_time_limit, hard_time_limit);
        self.internal_search(board, depth)
    }
}

/// A word without leading and trailing white space (see [`trimmed`]).
fn trim_word(w: &Vec<char>) -> (r: Vec<char>)
    ensures
        r@ == trimmed(w@),
{
    let n = w.len();
    let mut a: usize = 0;
    assert(w@.skip(0) =~= w@);
    while a < n && crate::text::is_whitespace(w[a])
        invariant
            a <= n,
            n == w@.len(),
            trim_start(w@) == trim_start(w@.skip(a as int)),
        decreases n - a,
    {
        assert(w@.skip(a as int).drop_first() =~= w@.skip(a + 1));
        a = a + 1;
    }
    assert(trim_start(w@.skip(a as int)) == w@.skip(a as int));
    let mut b: usize = n;
    assert(w@.skip(a as int) =~= w@.subrange(a as int, n as int));
    while b > a && crate::text::is_whitespace(w[b - 1])
        invariant
            a <= b <= n,
            n == w@.len(),
            trim_end(w@.subrange(a as int, n as int)) == trim_end(w@.subrange(a as int, b as int)),
        decreases b,
    {
        assert(w@.subrange(a as int, b as int).drop_last() =~= w@.subrange(a as int, b - 1));
        b = b - 1;
    }
    assert(trim_end(w@.subrange(a as int, b as int)) == w@.subrange(a as int, b as int));
    let mut r: Vec<char> = Vec::new();
    let mut i = a;
    while i < b
        invariant
            a <= i <= b,
            b <= n,
            n == w@.len(),
            r@ == w@.subrange(a as int, i as int),
        decreases b - i,
    {
        r.push(w[i]);
        assert(w@.subrange(a as int, i + 1) =~= w@.subrange(a as int, i as int).push(w@[i as int]));
        i = i + 1;
    }
    r
}

/// A word with its ASCII letters in lower case (see [`lowered`]).
fn lower_word(w: &Vec<char>) -> (r: Vec<char>)
    ensures
        r@ == lowered(w@),
{
    let mut r: Vec<char> = Vec::new();
    let mut i: usize = 0;
    while i < w.len()
        invariant
            i <= w.len(),
            r@ == lowered(w@.take(i as int)),
        decreases w.len() - i,
    {
        let c = w[i];
        let l = if 'A' <= c && c <= 'Z' { ((c as u8) + 32) as char } else { c };
        r.push(l);
        assert(lowered(w@.take(i + 1)) =~= lowered(w@.take(i as int)).push(lower(c)));
        i = i + 1;
    }
    assert(w@.take(w.len() as int) =~= w@);
    r
}

/// The comma-separated parts of a text (see [`comma_parts`]).
fn split_commas(cs: &Vec<char>) -> (r: Vec<Vec<char>>)
    ensures
        r@.map_values(|v: Vec<char>| v@) == comma_parts(cs@),
{
    let mut parts: Vec<Vec<char>> = Vec::new();
    let mut cur: Vec<char> = Vec::new();
    let mut i: usize = 0;
    while i < cs.len()
        invariant
            i <= cs.len(),
            parts@.map_values(|v: Vec<char>| v@).push(cur@) == comma_parts(cs@.take(i as int)),
        decreases cs.len() - i,
    {
        let c = cs[i];
        let ghost before = parts@.map_values(|v: Vec<char>| v@).push(cur@);
        assert(cs@.take(i + 1).drop_last() =~= cs@.take(i as int));
        if c == ',' {
            let done = cur;
            parts.push(done);
            cur = Vec::new();
            assert(parts@.map_values(|v: Vec<char>| v@).push(cur@) =~= before.push(Seq::empty()));
        } else {
            cur.push(c);
            assert(parts@.map_values(|v: Vec<char>| v@).push(cur@) =~= before.update(before.len() - 1, before.last().push(c)));
        }
        i = i + 1;
    }
    assert(cs@.take(cs.len() as int) =~= cs@);
    let ghost before = parts@.map_values(|v: Vec<char>| v@);
    parts.push(cur);
    assert(parts@.map_values(|v: Vec<char>| v@) =~= before.push(parts@.last()@));
    parts
}

/// The words of a settings text: its comma-separated parts, trimmed and in
/// lower case.
pub open spec fn setting_words(s: Seq<char>) -> Seq<Seq<char>> {
    comma_parts(s).map_values(|p: Seq<char>| lowered(trimmed(p)))
}

/// The feature a word names (see [`feature_index`]).
fn feature_index_of(w: &Vec<char>) -> (r: i32)
    ensures
        r == feature_index(w@),
{
    reveal(feature_index);
    if word_is(w, &['a', 's', 'p', 'i', 'r', 'a', 't', 'i', 'o', 'n']) || word_is(w, &['a', 'w']) {
        0
    } else if word_is(w, &['m', 'a', 't', 'e', '_', 'p', 'r', 'u', 'n', 'i', 'n', 'g']) || word_is(w, &['m', 'd', 'p']) {
        1
    } else if word_is(w, &['i', 'i', 'r']) {
        2
    } else if word_is(w, &['r', 'f', 'p']) {
        3
    } else if word_is(w, &['n', 'm', 'p']) {
        4
    } else if word_is(w, &['s', 'i', 'n', 'g', 'u', 'l', 'a', 'r']) || word_is(w, &['s', 'e']) {
        5
    } else if word_is(w, &['f', 'p']) {
        6
    } else if word_is(w, &['h', 'i', 's', 't', 'o', 'r', 'y']) || word_is(w, &['h', 'p']) {
        7
    } else if word_is(w, &['s', 'e', 'e']) {
        8
    } else if word_is(w, &['l', 'm', 'p']) {
        9
    } else if word_is(w, &['l', 'm', 'r']) {
        10
    } else if word_is(w, &['d', 'e', 'l', 't', 'a']) {
        11
    } else if word_is(w, &['b', 'a', 's', 'e', 'l', 'i', 'n', 'e']) {
        12
    } else {
        -1
    }
}

/// The settings after one word (see [`apply_word`]): a feature name turns
/// its feature on, `baseline` the baseline features.
fn apply_word_exec(s: SearchSettings, w: &Vec<char>) -> (r: SearchSettings)
    ensures
        r == apply_word(s, w@),
{
    let k = feature_index_of(w);
    SearchSettings {
        aspiration_windows: s.aspiration_windows || k == 0 || k == 12,
        mate_distance_pruning: s.mate_distance_pruning || k == 1 || k == 12,
        iir: s.iir || k == 2,
        rfp: s.rfp || k == 3 || k == 12,
        nmp: s.nmp || k == 4 || k == 12,
        singular_extensions: s.singular_extensions || k == 5,
        fp: s.fp || k == 6,
        history_pruning: s.history_pruning || k == 7,
        see_pruning: s.see_pruning || k == 8 || k == 12,
        lmp: s.lmp || k == 9,
        lmr: s.lmr || k == 10 || k == 12,
        delta_pruning: s.delta_pruning || k == 11,
    }
}

impl SearchSettings {
    /// The settings a comma-separated list of feature names turns on, from
    /// none (see [`settings_from_words`]): names are trimmed and compared
    /// in lower case; unknown names are ignored.
    pub fn from_string(s: &str) -> (r: SearchSettings)
        ensures
            r == settings_from_words(no_settings(), setting_words(s@)),
    {
        let cs = crate::text::str_chars(s);
        let parts = split_commas(&cs);
        let ghost ws = setting_words(s@);
        let mut settings = SearchSettings::none();
        let mut k: usize = 0;
        assert(ws.skip(0) =~= ws);
        while k < parts.len()
            invariant
                k <= parts.len(),
                ws == setting_words(s@),
                ws.len() == parts@.len(),
                parts@.map_values(|v: Vec<char>| v@) == comma_parts(s@),
                settings_from_words(no_settings(), ws) == settings_from_words(settings, ws.skip(k as int)),
            decreases parts.len() - k,
        {
            let t = trim_word(&parts[k]);
            let w = lower_word(&t);
            assert(parts@.map_values(|v: Vec<char>| v@)[k as int] == parts@[k as int]@);
            assert(w@ == ws[k as int]);
            assert(ws.skip(k as int)[0] == ws[k as int]);
            assert(ws.skip(k as int).drop_first() =~= ws.skip(k + 1));
            if word_is(&w, &['a', 'l', 'l']) {
                return SearchSettings::default();
            }
            if word_is(&w, &['n', 'o', 'n', 'e']) {
                return SearchSettings::none();
            }
            settings = apply_word_exec(settings, &w);
            k = k + 1;
        }
        assert(ws.skip(k as int) =~= Seq::<Seq<char>>::empty());
        settings
    }
}

} // verus!
