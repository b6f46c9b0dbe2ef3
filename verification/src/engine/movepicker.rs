//! Staged move ordering: the table move first, then good captures (or all
//! evasions in check), killers, the counter move, quiets by history, and
//! the captures that lose material last.
use vstd::prelude::*;
use crate::board::board::Board;
use crate::board::moves::{Move, flags};
use crate::board::bitboard::popcount;
use crate::board::make_move::restores;
use crate::movegen::{GenType, crowded, lemma_pseudo_split, law_buffer_complete, generate_captures, generate_quiets, generate_evasions, lemma_pseudo_all, lemma_evasion_pseudo, lemma_capture_mover, lemma_pseudo_restored};
use crate::movegen::rules::pseudo_move;
use crate::movegen::move_list::MoveList;
use crate::engine::search::{Searcher, MAX_PLY};

verus! {

/// The stages of a move picker, in the order they are visited.
#[derive(PartialEq, Eq, Clone, Copy, Structural)]
enum Stage {
    TT,
    GenerateCaptures,
    GoodCaptures,
    Killers,
    Countermove,
    GenerateQuiets,
    Quiets,
    BadCaptures,
}

/// The number of a stage in the visiting order.
spec fn stage_rank(s: Stage) -> int {
    match s {
        Stage::TT => 0,
        Stage::GenerateCaptures => 1,
        Stage::GoodCaptures => 2,
        Stage::Killers => 3,
        Stage::Countermove => 4,
        Stage::GenerateQuiets => 5,
        Stage::Quiets => 6,
        Stage::BadCaptures => 7,
    }
}

/// Hands out the moves of a position one at a time, best candidates first.
pub struct MovePicker {
    stage: Stage,
    tt_move: Option<Move>,
    moves: MoveList,
    scores: Vec<i32>,
    bad_captures: MoveList,
    index: usize,
    is_qsearch: bool,
    excluded_move: Option<Move>,
    in_check: bool,
    /// Set by the search to skip the remaining quiet moves.
    pub skip_quiets: bool,
    killers_to_search: [Move; 2],
    killers_count: usize,
    countermove_to_search: Option<Move>,
    original_killers: [Option<Move>; 2],
    original_countermove: Option<Move>,
    handed: Ghost<Set<Move>>,
    good: Ghost<Set<Move>>,
    qdone: Ghost<Set<Move>>,
    kc0: Ghost<int>,
}

impl MovePicker {
    /// The picker's lists hold pseudo-legal moves of `b` (captures while
    /// the good captures of a position not in check are handed out).
    pub closed spec fn wf(self, b: Board) -> bool {
        &&& self.scores@.len() == 256
        &&& forall|i: int| 0 <= i < 256 ==> -2000000 <= #[trigger] self.scores@[i] <= 2000000
        &&& self.killers_count <= 2
        &&& self.index <= 256
        &&& forall|i: int| 0 <= i < self.moves@.len() ==> pseudo_move(b, #[trigger] self.moves@[i], GenType::All)
        &&& (!self.in_check && self.stage == Stage::GoodCaptures) ==> forall|i: int|
            0 <= i < self.moves@.len() ==> pseudo_move(b, #[trigger] self.moves@[i], GenType::Captures)
        &&& forall|i: int|
            0 <= i < self.bad_captures@.len() ==> pseudo_move(b, #[trigger] self.bad_captures@[i], GenType::All)
        &&& self.excluded_move.is_some() ==> self.killers_count == 0 && self.countermove_to_search.is_none()
        &&& self.is_qsearch ==> stage_rank(self.stage) <= 2
        &&& forall|i: int| 0 <= i < self.killers_count ==> Some(#[trigger] self.killers_to_search[i]) != self.tt_move
        &&& (self.countermove_to_search is Some ==> self.countermove_to_search != self.tt_move)
        &&& forall|i: int| 0 <= i < self.bad_captures@.len() ==> Some(#[trigger] self.bad_captures@[i]) != self.tt_move
        &&& self.progress(b)
        &&& self.accounted(b)
    }

    /// One of the hints the picker was made with: a killer or the counter
    /// move.
    pub closed spec fn hint(self, m: Move) -> bool {
        self.orig_killer(m) || self.original_countermove == Some(m)
    }

    /// A killer handed out already.
    spec fn killer_done(self, m: Move) -> bool {
        ||| (self.killers_count <= 0 && 0 < self.kc0@ && self.killers_to_search[0] == m)
        ||| (self.killers_count <= 1 && 1 < self.kc0@ && self.killers_to_search[1] == m)
    }

    /// A losing capture handed out already.
    spec fn bad_done(self, m: Move) -> bool {
        self.stage == Stage::BadCaptures && exists|j: int| 0 <= j < self.index && j < self.bad_captures@.len()
            && #[trigger] self.bad_captures@[j] == m
    }

    /// Every move handed out is accounted for by the stage that handed it
    /// out, and the lists hold each move once.
    spec fn accounted(self, b: Board) -> bool {
        let r = stage_rank(self.stage);
        &&& 0 <= self.kc0@ <= 2
        &&& self.killers_count <= self.kc0@
        &&& (self.kc0@ == 2 ==> self.killers_to_search[0] != self.killers_to_search[1])
        &&& (0 < self.kc0@ ==> self.orig_killer(self.killers_to_search[0]))
        &&& (1 < self.kc0@ ==> self.orig_killer(self.killers_to_search[1]))
        &&& (self.countermove_to_search is Some ==> self.original_countermove == self.countermove_to_search
            && !self.orig_killer(self.countermove_to_search->0))
        &&& (r <= 2 ==> self.killers_count == self.kc0@)
        &&& (self.in_check ==> r <= 2)
        &&& (self.stage == Stage::TT ==> self.handed@ == Set::<Move>::empty())
        &&& forall|x: Move| #[trigger] self.handed@.contains(x) ==> self.tt_move == Some(x) || self.good@.contains(x)
            || self.killer_done(x) || (r >= 5 && self.countermove_to_search == Some(x)) || self.qdone@.contains(x)
            || self.bad_done(x)
        &&& (r <= 1 ==> self.good@ == Set::<Move>::empty() && self.bad_captures@.len() == 0)
        &&& forall|x: Move| #[trigger] self.good@.contains(x) ==> Some(x) != self.tt_move && (!self.in_check ==> pseudo_move(b, x, GenType::Captures))
        &&& (self.stage == Stage::GoodCaptures ==> forall|j: int| self.index <= j < self.moves@.len()
            ==> !self.good@.contains(#[trigger] self.moves@[j]))
        &&& (self.stage == Stage::GoodCaptures ==> forall|j: int, k: int| self.index <= j < self.moves@.len()
            && 0 <= k < self.bad_captures@.len() ==> #[trigger] self.moves@[j] != #[trigger] self.bad_captures@[k])
        &&& (r <= 5 ==> self.qdone@ == Set::<Move>::empty())
        &&& forall|x: Move| #[trigger] self.qdone@.contains(x) ==> pseudo_move(b, x, GenType::Quiets) && !self.hint(x)
        &&& (self.stage == Stage::Quiets ==> forall|j: int| self.index <= j < self.moves@.len()
            ==> !self.qdone@.contains(#[trigger] self.moves@[j]))
        &&& ((self.stage == Stage::GoodCaptures || self.stage == Stage::Quiets) ==> self.moves@.no_duplicates())
        &&& (self.stage == Stage::Quiets ==> forall|i: int| 0 <= i < self.moves@.len() ==> pseudo_move(b, #[trigger] self.moves@[i], GenType::Quiets))
        &&& self.bad_captures@.no_duplicates()
        &&& forall|k: int| 0 <= k < self.bad_captures@.len() ==> !self.good@.contains(#[trigger] self.bad_captures@[k])
            && pseudo_move(b, self.bad_captures@[k], GenType::Captures)
    }

    /// A move the picker owes: a pseudo-legal move other than the excluded one.
    spec fn target(self, b: Board, m: Move) -> bool {
        pseudo_move(b, m, GenType::All) && Some(m) != self.excluded_move
    }

    /// One of the killers the picker was made with.
    spec fn orig_killer(self, m: Move) -> bool {
        self.original_killers[0] == Some(m) || self.original_killers[1] == Some(m)
    }

    /// A move a later stage (or the rest of the current one) will consider.
    spec fn pending(self, b: Board, m: Move) -> bool {
        let r = stage_rank(self.stage);
        ||| (self.stage == Stage::TT && self.tt_move == Some(m))
        ||| (r <= 1 && pseudo_move(b, m, GenType::Captures))
        ||| (self.stage == Stage::GoodCaptures && exists|j: int| self.index <= j < self.moves@.len() && #[trigger] self.moves@[j] == m)
        ||| (r < 7 && self.bad_captures@.contains(m))
        ||| (self.stage == Stage::BadCaptures && exists|j: int| self.index <= j < self.bad_captures@.len()
            && #[trigger] self.bad_captures@[j] == m)
        ||| (r <= 5 && pseudo_move(b, m, GenType::Quiets))
        ||| (self.stage == Stage::Quiets && exists|j: int| self.index <= j < self.moves@.len() && #[trigger] self.moves@[j] == m)
    }

    /// Outside check and the quiescence search, with the quiets not skipped
    /// and a position of fewer than 256 pseudo-legal moves, every owed move
    /// is handed out or pending, and the table move, killers and counter
    /// move are handed out once their stage is past.
    spec fn progress(self, b: Board) -> bool {
        !self.in_check && !self.is_qsearch && !self.skip_quiets && !crowded(b) ==> {
            let r = stage_rank(self.stage);
            &&& forall|m: Move| #[trigger] self.target(b, m) ==> self.handed@.contains(m) || self.pending(b, m)
            &&& (r >= 1 && self.tt_move is Some && self.target(b, self.tt_move->0) ==> self.handed@.contains(self.tt_move->0))
            &&& (r <= 3 ==> forall|m: Move| #[trigger] self.orig_killer(m) && self.target(b, m) ==> self.handed@.contains(m)
                || self.tt_move == Some(m) || exists|i: int| 0 <= i < self.killers_count && #[trigger] self.killers_to_search[i] == m)
            &&& (r >= 4 ==> forall|m: Move| #[trigger] self.orig_killer(m) && self.target(b, m) ==> self.handed@.contains(m))
            &&& (r <= 4 && self.original_countermove is Some && self.target(b, self.original_countermove->0)
                ==> self.handed@.contains(self.original_countermove->0) || self.tt_move == self.original_countermove
                || self.orig_killer(self.original_countermove->0) || self.countermove_to_search == self.original_countermove)
            &&& (r >= 5 && self.original_countermove is Some && self.target(b, self.original_countermove->0)
                ==> self.handed@.contains(self.original_countermove->0))
            &&& (self.stage == Stage::GoodCaptures ==> self.bad_captures@.len() <= self.index && self.moves@.len() < 256)
            &&& (r <= 1 ==> self.bad_captures@.len() == 0)
        }
    }

    /// The moves handed out so far.
    pub closed spec fn handed_out(self) -> Set<Move> {
        self.handed@
    }

    /// Whether the picker has handed out nothing yet: it is still to try
    /// the table move.
    pub closed spec fn at_start(self) -> bool {
        self.stage == Stage::TT
    }

    /// Whether the picker is to hand out its table move on the next call.
    spec fn tt_due(self, b: Board) -> bool {
        &&& self.stage == Stage::TT
        &&& self.tt_move matches Some(t) && Some(t) != self.excluded_move && pseudo_move(b, t, GenType::All)
            && !crowded(b)
    }

    /// Whether the picker has handed out all it will: its losing captures
    /// are used up, or, in the quiescence search or in check, its captures
    /// or evasions are.
    pub closed spec fn exhausted(self) -> bool {
        ||| self.stage == Stage::BadCaptures && self.index >= self.bad_captures@.len()
        ||| self.stage == Stage::GoodCaptures && self.index >= self.moves@.len() && (self.in_check || self.is_qsearch)
    }

    /// Whether the picker serves the quiescence search.
    pub closed spec fn quiescent(self) -> bool {
        self.is_qsearch
    }

    /// Whether the picker serves a position in check.
    pub closed spec fn evading(self) -> bool {
        self.in_check
    }

    /// The table move the picker hands out first.
    pub closed spec fn table_move(self) -> Option<Move> {
        self.tt_move
    }

    /// The move the picker never hands out, if any.
    pub closed spec fn excluded(self) -> Option<Move> {
        self.excluded_move
    }

    /// A measure of the work left: it falls with every move handed out.
    pub closed spec fn remaining(self) -> int {
        (8 - stage_rank(self.stage)) * 1000 + self.killers_count * 300 + (300 - self.index)
    }

    /// Whether the remaining quiet moves are to be skipped.
    pub closed spec fn quiets_skipped(self) -> bool {
        self.skip_quiets
    }

    /// Skips the quiet moves not yet handed out.
    pub fn skip_remaining_quiets(&mut self)
        ensures
            forall|b: Board| old(self).wf(b) ==> #[trigger] final(self).wf(b),
            final(self).quiets_skipped(),
            final(self).remaining() == old(self).remaining(),
            final(self).excluded() == old(self).excluded(),
            final(self).quiescent() == old(self).quiescent(),
            final(self).evading() == old(self).evading(),
            final(self).table_move() == old(self).table_move(),
            final(self).exhausted() == old(self).exhausted(),
            final(self).at_start() == old(self).at_start(),
            final(self).handed_out() == old(self).handed_out(),
    {
        let ghost s0 = *self;
        self.skip_quiets = true;
        proof {
            assert forall|b: Board| s0.wf(b) implies #[trigger] self.wf(b) by {
                assert forall|x: Move| #[trigger] self.handed@.contains(x) implies self.tt_move == Some(x) || self.good@.contains(x)
                    || self.killer_done(x) || (stage_rank(self.stage) >= 5 && self.countermove_to_search == Some(x))
                    || self.qdone@.contains(x) || self.bad_done(x) by {
                    assert(s0.handed@.contains(x));
                    if s0.bad_done(x) {
                        let j = choose|j: int| 0 <= j < s0.index && j < s0.bad_captures@.len() && #[trigger] s0.bad_captures@[j] == x;
                        assert(self.bad_captures@[j] == x);
                    }
                }
            }
        }
    }

    /// A picker for a position also serves every position that restores it.
    pub proof fn lemma_wf_restored(self, b0: Board, b1: Board)
        requires
            self.wf(b0),
            restores(b1, b0),
        ensures
            self.wf(b1),
    {
        assert forall|m: Move, g: GenType| pseudo_move(b1, m, g) == #[trigger] pseudo_move(b0, m, g) by {
            lemma_pseudo_restored(b1, b0, m, g);
        }
        assert(crowded(b1) == crowded(b0)) by {
            if crowded(b0) {
                let ps = choose|ps: Seq<Move>| #![trigger ps.len()] ps.len() == 256 && ps.no_duplicates() && forall|i: int|
                    0 <= i < ps.len() ==> pseudo_move(b0, #[trigger] ps[i], GenType::All);
                assert forall|i: int| 0 <= i < ps.len() implies pseudo_move(b1, #[trigger] ps[i], GenType::All) by {
                    assert(pseudo_move(b0, ps[i], GenType::All));
                }
            }
            if crowded(b1) {
                let ps = choose|ps: Seq<Move>| #![trigger ps.len()] ps.len() == 256 && ps.no_duplicates() && forall|i: int|
                    0 <= i < ps.len() ==> pseudo_move(b1, #[trigger] ps[i], GenType::All);
                assert forall|i: int| 0 <= i < ps.len() implies pseudo_move(b0, #[trigger] ps[i], GenType::All) by {
                    assert(pseudo_move(b1, ps[i], GenType::All));
                }
            }
        }
        assert forall|m: Move| #[trigger] self.target(b1, m) == self.target(b0, m) by {}
        assert forall|m: Move| #[trigger] self.pending(b1, m) == self.pending(b0, m) by {}
    }

    /// A picker that hands out the table move, then captures (or evasions
    /// in check), then, outside the quiescence search, the killers and the
    /// counter move not equal to the table move or to each other, the
    /// quiets and the losing captures.
    pub fn new(
        tt_move: Option<Move>,
        is_qsearch: bool,
        in_check: bool,
        killers: [Option<Move>; 2],
        countermove: Option<Move>,
    ) -> (p: MovePicker)
        ensures
            forall|b: Board| #[trigger] p.wf(b),
            !p.quiets_skipped(),
            p.remaining() <= 8900,
            p.excluded().is_none(),
            p.quiescent() == is_qsearch,
            p.evading() == in_check,
            p.table_move() == tt_move,
            !p.exhausted(),
            p.at_start(),
            p.handed_out() == Set::<Move>::empty(),
    {
        let mut killers_to_search = [Move::from_raw(0); 2];
        let mut killers_count: usize = 0;
        if let Some(m) = killers[0] {
            if Some(m) != tt_move {
                killers_to_search[killers_count] = m;
                killers_count = killers_count + 1;
            }
        }
        if let Some(m) = killers[1] {
            if Some(m) != tt_move && killers[0] != Some(m) {
                killers_to_search[killers_count] = m;
                killers_count = killers_count + 1;
            }
        }
        let mut countermove_to_search = None;
        if let Some(m) = countermove {
            if Some(m) != tt_move && killers[0] != Some(m) && killers[1] != Some(m) {
                countermove_to_search = Some(m);
            }
        }
        let p = MovePicker {
            stage: Stage::TT,
            tt_move,
            moves: MoveList::new(),
            scores: vec_of_zeros(),
            bad_captures: MoveList::new(),
            index: 0,
            is_qsearch,
            excluded_move: None,
            in_check,
            skip_quiets: false,
            killers_to_search,
            killers_count,
            countermove_to_search,
            original_killers: killers,
            original_countermove: countermove,
            handed: Ghost(Set::empty()),
            good: Ghost(Set::empty()),
            qdone: Ghost(Set::empty()),
            kc0: Ghost(killers_count as int),
        };
        proof {
            assert forall|b: Board| #[trigger] p.wf(b) by {
                if !crowded(b) {
                    assert forall|m: Move| #[trigger] p.target(b, m) implies p.handed@.contains(m) || p.pending(b, m) by {
                        lemma_pseudo_split(b, m);
                    }
                    assert forall|m: Move| #[trigger] p.orig_killer(m) && p.target(b, m) implies p.handed@.contains(m)
                        || p.tt_move == Some(m) || exists|i: int| 0 <= i < p.killers_count && #[trigger] p.killers_to_search[i] == m by {
                        if p.tt_move != Some(m) {
                            if killers[0] == Some(m) {
                                assert(p.killers_to_search[0] == m);
                            } else {
                                assert(p.killers_to_search[p.killers_count - 1] == m);
                            }
                        }
                    }
                }
            }
        }
        p
    }

    /// A picker that skips `excluded`, with no killers or counter move.
    pub fn with_excluded(tt_move: Option<Move>, excluded: Option<Move>, in_check: bool) -> (p: MovePicker)
        ensures
            forall|b: Board| #[trigger] p.wf(b),
            !p.quiets_skipped(),
            p.remaining() <= 8900,
            p.excluded() == excluded,
            !p.quiescent(),
            p.evading() == in_check,
            p.table_move() == tt_move,
            !p.exhausted(),
            p.at_start(),
            p.handed_out() == Set::<Move>::empty(),
    {
        let p = MovePicker {
            stage: Stage::TT,
            tt_move,
            moves: MoveList::new(),
            scores: vec_of_zeros(),
            bad_captures: MoveList::new(),
            index: 0,
            is_qsearch: false,
            excluded_move: excluded,
            in_check,
            skip_quiets: false,
            killers_to_search: [Move::from_raw(0); 2],
            killers_count: 0,
            countermove_to_search: None,
            original_killers: [None, None],
            original_countermove: None,
            handed: Ghost(Set::empty()),
            good: Ghost(Set::empty()),
            qdone: Ghost(Set::empty()),
            kc0: Ghost(0),
        };
        proof {
            assert forall|b: Board| #[trigger] p.wf(b) by {
                if !crowded(b) {
                    assert forall|m: Move| #[trigger] p.target(b, m) implies p.handed@.contains(m) || p.pending(b, m) by {
                        lemma_pseudo_split(b, m);
                    }
                }
            }
        }
        p
    }

    /// Scores the moves of the list for ordering.
    fn score_all(&mut self, searcher: &Searcher, board: &Board, ply: u32)
        requires
            searcher.wf(),
            board.wf(),
            popcount(board.all_occupancy) <= 32,
            ply < MAX_PLY,
            old(self).scores@.len() == 256,
            forall|i: int| 0 <= i < 256 ==> -2000000 <= #[trigger] old(self).scores@[i] <= 2000000,
            forall|i: int| 0 <= i < old(self).moves@.len() ==> pseudo_move(*board, #[trigger] old(self).moves@[i], GenType::All),
        ensures
            final(self).scores@.len() == 256,
            forall|i: int| 0 <= i < 256 ==> -2000000 <= #[trigger] final(self).scores@[i] <= 2000000,
            final(self).moves == old(self).moves,
            final(self).stage == old(self).stage,
            final(self).bad_captures == old(self).bad_captures,
            final(self).index == old(self).index,
            final(self).in_check == old(self).in_check,
            final(self).killers_count == old(self).killers_count,
            final(self).killers_to_search == old(self).killers_to_search,
            final(self).handed == old(self).handed,
            final(self).original_killers == old(self).original_killers,
            final(self).original_countermove == old(self).original_countermove,
            final(self).good == old(self).good,
            final(self).qdone == old(self).qdone,
            final(self).kc0 == old(self).kc0,
            final(self).skip_quiets == old(self).skip_quiets,
            final(self).excluded_move == old(self).excluded_move,
            final(self).countermove_to_search == old(self).countermove_to_search,
            final(self).tt_move == old(self).tt_move,
            final(self).is_qsearch == old(self).is_qsearch,
            forall|i: int| 0 <= i < final(self).moves@.len() ==> #[trigger] final(self).scores@[i] == crate::engine::search::move_score(
                *searcher,
                final(self).moves@[i],
                *board,
                final(self).tt_move,
                ply as int,
                final(self).is_qsearch,
            ),
    {
        let n = self.moves.len();
        let mut i: usize = 0;
        while i < n
            invariant
                searcher.wf(),
                board.wf(),
                popcount(board.all_occupancy) <= 32,
                ply < MAX_PLY,
                n == self.moves@.len(),
                n <= 256,
                i <= n,
                self.scores@.len() == 256,
                forall|j: int| 0 <= j < 256 ==> -2000000 <= #[trigger] self.scores@[j] <= 2000000,
                self.moves == old(self).moves,
                self.stage == old(self).stage,
                self.bad_captures == old(self).bad_captures,
                self.index == old(self).index,
                self.in_check == old(self).in_check,
                self.killers_count == old(self).killers_count,
                self.killers_to_search == old(self).killers_to_search,
                self.handed == old(self).handed,
                self.original_killers == old(self).original_killers,
                self.original_countermove == old(self).original_countermove,
                self.good == old(self).good,
                self.qdone == old(self).qdone,
                self.kc0 == old(self).kc0,
                self.skip_quiets == old(self).skip_quiets,
                self.excluded_move == old(self).excluded_move,
                self.countermove_to_search == old(self).countermove_to_search,
                self.tt_move == old(self).tt_move,
                self.is_qsearch == old(self).is_qsearch,
                forall|j: int| 0 <= j < n ==> pseudo_move(*board, #[trigger] self.moves@[j], GenType::All),
                forall|j: int| 0 <= j < i ==> #[trigger] self.scores@[j] == crate::engine::search::move_score(
                    *searcher,
                    self.moves@[j],
                    *board,
                    self.tt_move,
                    ply as int,
                    self.is_qsearch,
                ),
            decreases n - i,
        {
            let m = self.moves.get(i);
            proof {
                if m.spec_flags() & flags::CAPTURE != 0 {
                    crate::movegen::lemma_capture_flag_mover(*board, m);
                }
            }
            let score = searcher.score_move(m, board, self.tt_move, ply, self.is_qsearch);
            self.scores.set(i, score);
            i = i + 1;
        }
    }

    /// The next move to try, or `None` when the moves are exhausted. Every
    /// move handed out is a pseudo-legal move of the position. Outside check
    /// and the quiescence search, unless the quiets were skipped or the
    /// position has 256 or more pseudo-legal moves, every pseudo-legal move
    /// but the excluded one has been handed out when `None` comes. A move
    /// comes at most once, except a capture that is also a quiet move (a
    /// queen promotion by a push) and a capture among the killers and the
    /// counter move.
    pub fn next(&mut self, searcher: &Searcher, board: &Board, ply: u32) -> (r: Option<Move>)
        requires
            old(self).wf(*board),
            searcher.wf(),
            board.wf(),
            popcount(board.all_occupancy) <= 32,
            ply < MAX_PLY,
        ensures
            final(self).wf(*board),
            final(self).quiets_skipped() == old(self).quiets_skipped(),
            r matches Some(m) ==> pseudo_move(*board, m, GenType::All),
            r matches Some(m) ==> Some(m) != old(self).excluded(),
            old(self).quiescent() && !old(self).evading() ==> (r matches Some(m) ==> (Some(m) != old(self).table_move()
                ==> pseudo_move(*board, m, GenType::Captures))),
            r is Some ==> 0 <= final(self).remaining() < old(self).remaining(),
            final(self).excluded() == old(self).excluded(),
            final(self).quiescent() == old(self).quiescent(),
            final(self).evading() == old(self).evading(),
            final(self).table_move() == old(self).table_move(),
            r is None ==> final(self).exhausted(),
            old(self).exhausted() ==> r is None,
            !final(self).at_start(),
            old(self).at_start() && (old(self).table_move() matches Some(t) && Some(t) != old(self).excluded()
                && pseudo_move(*board, t, GenType::All) && !crowded(*board)) ==> r == old(self).table_move(),
            r is Some && r == old(self).table_move() ==> old(self).at_start(),
            r matches Some(m) ==> final(self).handed_out() == old(self).handed_out().insert(m),
            r is None ==> final(self).handed_out() == old(self).handed_out(),
            r matches Some(m) ==> (old(self).handed_out().contains(m) ==> pseudo_move(*board, m, GenType::Captures)
                && (pseudo_move(*board, m, GenType::Quiets) || old(self).hint(m))),
            r is None && !old(self).quiescent() && !old(self).evading() && !old(self).quiets_skipped() && !crowded(*board)
                ==> forall|m: Move| #[trigger] pseudo_move(*board, m, GenType::All) && Some(m) != old(self).excluded()
                ==> final(self).handed_out().contains(m),
    {
        let ghost b = *board;
        loop
            invariant
                self.wf(*board),
                searcher.wf(),
                board.wf(),
                b == *board,
                popcount(board.all_occupancy) <= 32,
                ply < MAX_PLY,
                self.skip_quiets == old(self).skip_quiets,
                self.remaining() <= old(self).remaining(),
                self.excluded_move == old(self).excluded_move,
                self.is_qsearch == old(self).is_qsearch,
                self.in_check == old(self).in_check,
                self.tt_move == old(self).tt_move,
                old(self).exhausted() ==> self.exhausted(),
                old(self).tt_due(*board) ==> self.stage == Stage::TT,
                self.stage == Stage::TT ==> old(self).at_start(),
                self.handed@ == old(self).handed@,
                self.original_killers == old(self).original_killers,
                self.original_countermove == old(self).original_countermove,
            decreases 8 - stage_rank(self.stage), self.killers_count, 300 - self.index,
        {
            let ghost prog = !self.in_check && !self.is_qsearch && !self.skip_quiets && !crowded(b);
            match self.stage {
                Stage::TT => {
                    let ghost s0 = *self;
                    self.stage = Stage::GenerateCaptures;
                    if let Some(m) = self.tt_move {
                        if Some(m) == self.excluded_move {
                            proof {
                                if prog {
                                    assert forall|x: Move| #[trigger] self.target(b, x) implies self.handed@.contains(x)
                                        || self.pending(b, x) by {
                                        assert(s0.target(b, x));
                                    }
                                    assert forall|x: Move| #[trigger] self.orig_killer(x) && self.target(b, x) implies self.handed@.contains(x)
                                        || self.tt_move == Some(x) || exists|i: int| 0 <= i < self.killers_count && #[trigger] self.killers_to_search[i] == x by {
                                        assert(s0.orig_killer(x) && s0.target(b, x));
                                    }
                                }
                            }
                            continue;
                        }
                        if board.is_pseudo_legal(m) {
                            self.handed = Ghost(self.handed@.insert(m));
                            proof {
                                if prog {
                                    assert forall|x: Move| #[trigger] self.target(b, x) implies self.handed@.contains(x)
                                        || self.pending(b, x) by {
                                        assert(s0.target(b, x));
                                    }
                                    assert forall|x: Move| #[trigger] self.orig_killer(x) && self.target(b, x) implies self.handed@.contains(x)
                                        || self.tt_move == Some(x) || exists|i: int| 0 <= i < self.killers_count && #[trigger] self.killers_to_search[i] == x by {
                                        assert(s0.orig_killer(x) && s0.target(b, x));
                                    }
                                }
                            }
                            return Some(m);
                        }
                    }
                    proof {
                        if prog {
                            assert forall|x: Move| #[trigger] self.target(b, x) implies self.handed@.contains(x)
                                || self.pending(b, x) by {
                                assert(s0.target(b, x));
                            }
                            assert forall|x: Move| #[trigger] self.orig_killer(x) && self.target(b, x) implies self.handed@.contains(x)
                                || self.tt_move == Some(x) || exists|i: int| 0 <= i < self.killers_count && #[trigger] self.killers_to_search[i] == x by {
                                assert(s0.orig_killer(x) && s0.target(b, x));
                            }
                        }
                    }
                },
                Stage::GenerateCaptures => {
                    let ghost s0 = *self;
                    if self.in_check {
                        let moves = generate_evasions(board);
                        proof {
                            assert forall|i: int| 0 <= i < moves@.len() implies pseudo_move(*board, #[trigger] moves@[i], GenType::All) by {
                                lemma_evasion_pseudo(*board, moves@[i]);
                            }
                        }
                        self.moves = moves;
                    } else {
                        let moves = generate_captures(board);
                        proof {
                            assert forall|i: int| 0 <= i < moves@.len() implies pseudo_move(*board, #[trigger] moves@[i], GenType::All) by {
                                lemma_pseudo_all(*board, moves@[i], GenType::Captures);
                            }
                            if prog {
                                law_buffer_complete(b, GenType::Captures, moves@);
                            }
                        }
                        self.moves = moves;
                    }
                    let ghost gen = self.moves@;
                    self.score_all(searcher, board, ply);
                    self.index = 0;
                    self.stage = Stage::GoodCaptures;
                    proof {
                        if prog {
                            assert forall|x: Move| #[trigger] self.target(b, x) implies self.handed@.contains(x)
                                || self.pending(b, x) by {
                                assert(s0.target(b, x));
                                if !s0.handed@.contains(x) && pseudo_move(b, x, GenType::Captures) {
                                    assert(gen.contains(x));
                                    let j = choose|j: int| 0 <= j < gen.len() && gen[j] == x;
                                    assert(self.moves@[j] == x);
                                }
                            }
                            assert forall|x: Move| #[trigger] self.orig_killer(x) && self.target(b, x) implies self.handed@.contains(x)
                                || self.tt_move == Some(x) || exists|i: int| 0 <= i < self.killers_count && #[trigger] self.killers_to_search[i] == x by {
                                assert(s0.orig_killer(x) && s0.target(b, x));
                            }
                        }
                    }
                },
                Stage::GoodCaptures => {
                    while self.index < self.moves.len()
                        invariant
                            self.wf(*board),
                            self.stage == Stage::GoodCaptures,
                            searcher.wf(),
                            board.wf(),
                            b == *board,
                            prog == (!self.in_check && !self.is_qsearch && !self.skip_quiets && !crowded(b)),
                            popcount(board.all_occupancy) <= 32,
                            ply < MAX_PLY,
                            self.skip_quiets == old(self).skip_quiets,
                            self.remaining() <= old(self).remaining(),
                            self.excluded_move == old(self).excluded_move,
                            self.is_qsearch == old(self).is_qsearch,
                            self.in_check == old(self).in_check,
                            self.tt_move == old(self).tt_move,
                            old(self).exhausted() ==> self.exhausted(),
                            !old(self).tt_due(*board),
                            self.handed@ == old(self).handed@,
                            self.original_killers == old(self).original_killers,
                            self.original_countermove == old(self).original_countermove,
                        decreases 300 - self.index,
                    {
                        let ghost before = self.moves@;
                        let ghost s0 = *self;
                        searcher.pick_move(&mut self.moves, &mut self.scores, self.index);
                        let ghost best = choose|best: int| self.moves@ == before.update(self.index as int, before[best]).update(best, before[self.index as int]) && self.index <= best < before.len();
                        proof {
                            assert forall|i: int| 0 <= i < self.moves@.len() implies pseudo_move(*board, #[trigger] self.moves@[i], GenType::All)
                                && (!self.in_check ==> pseudo_move(*board, self.moves@[i], GenType::Captures)) by {
                                if i == best {
                                    assert(self.moves@[i] == before[self.index as int]);
                                } else if i == self.index {
                                    assert(self.moves@[i] == before[best]);
                                } else {
                                    assert(self.moves@[i] == before[i]);
                                }
                            }
                        }
                        let m = self.moves.get(self.index);
                        let score = self.scores[self.index];
                        let ghost idx = self.index as int;
                        self.index = self.index + 1;
                        proof {
                            if prog {
                                assert forall|x: Move| #[trigger] self.target(b, x) && x != m implies self.handed@.contains(x)
                                    || self.pending(b, x) by {
                                    assert(s0.target(b, x));
                                    if !s0.handed@.contains(x) && !(s0.bad_captures@.contains(x)) && !pseudo_move(b, x, GenType::Quiets) {
                                        let j = choose|j: int| idx <= j < before.len() && #[trigger] before[j] == x;
                                        lemma_swap_rest(before, self.moves@, idx, best, x, j);
                                    }
                                }
                            }
                        }
                        if Some(m) == self.tt_move || Some(m) == self.excluded_move {
                            proof {
                                if prog {
                                    assert(s0.progress(b));
                                    assert forall|x: Move| #[trigger] self.target(b, x) implies self.handed@.contains(x)
                                        || self.pending(b, x) by {
                                        if x == m {
                                            assert(s0.target(b, x));
                                            assert(s0.tt_move == Some(x));
                                            assert(s0.handed@.contains(x));
                                        }
                                    }
                                    assert forall|x: Move| #[trigger] self.orig_killer(x) && self.target(b, x) implies self.handed@.contains(x)
                                        || self.tt_move == Some(x) || exists|i: int| 0 <= i < self.killers_count && #[trigger] self.killers_to_search[i] == x by {
                                        assert(s0.orig_killer(x) && s0.target(b, x));
                                        if !s0.handed@.contains(x) && s0.tt_move != Some(x) {
                                            lemma_killers_frame(s0, *self, x);
                                        }
                                    }
                                    assert(self.progress(b));
                                }
                            }
                            continue;
                        }
                        if self.in_check {
                            self.handed = Ghost(self.handed@.insert(m));
                            self.good = Ghost(self.good@.insert(m));
                            return Some(m);
                        }
                        proof {
                            lemma_capture_mover(*board, m);
                        }
                        let margin = -score / 18;
                        if board.see(m) >= margin {
                            let ghost s1 = *self;
                            self.handed = Ghost(self.handed@.insert(m));
                            self.good = Ghost(self.good@.insert(m));
                            proof {
                                if prog {
                                    assert forall|x: Move| #[trigger] self.target(b, x) implies self.handed@.contains(x)
                                        || self.pending(b, x) by {
                                        if x != m {
                                            assert(s1.target(b, x));
                                            if s1.pending(b, x) {
                                                lemma_pending_frame(s1, *self, b, x);
                                            }
                                        }
                                    }
                                    assert forall|x: Move| #[trigger] self.orig_killer(x) && self.target(b, x) implies self.handed@.contains(x)
                                        || self.tt_move == Some(x) || exists|i: int| 0 <= i < self.killers_count && #[trigger] self.killers_to_search[i] == x by {
                                        assert(s0.orig_killer(x) && s0.target(b, x));
                                        if !s0.handed@.contains(x) && s0.tt_move != Some(x) {
                                            lemma_killers_frame(s0, *self, x);
                                        }
                                    }
                                }
                            }
                            return Some(m);
                        } else {
                            let ghost bad0 = self.bad_captures@;
                            let ghost s1 = *self;
                            self.bad_captures.push(m);
                            proof {
                                if prog {
                                    assert(self.bad_captures@ == bad0.push(m));
                                    assert forall|x: Move| #[trigger] self.target(b, x) implies self.handed@.contains(x)
                                        || self.pending(b, x) by {
                                        if x == m {
                                            assert(self.bad_captures@[bad0.len() as int] == m);
                                        } else if bad0.contains(x) {
                                            let k = choose|k: int| 0 <= k < bad0.len() && bad0[k] == x;
                                            assert(self.bad_captures@[k] == x);
                                        } else if !self.handed@.contains(x) && !pseudo_move(b, x, GenType::Quiets) {
                                            assert(s1.target(b, x));
                                            assert(s1.pending(b, x));
                                            let j = choose|j: int| s1.index <= j < s1.moves@.len() && #[trigger] s1.moves@[j] == x;
                                            assert(self.moves@[j] == x);
                                        }
                                    }
                                    assert forall|x: Move| #[trigger] self.orig_killer(x) && self.target(b, x) implies self.handed@.contains(x)
                                        || self.tt_move == Some(x) || exists|i: int| 0 <= i < self.killers_count && #[trigger] self.killers_to_search[i] == x by {
                                        assert(s0.orig_killer(x) && s0.target(b, x));
                                        if !s0.handed@.contains(x) && s0.tt_move != Some(x) {
                                            lemma_killers_frame(s0, *self, x);
                                        }
                                    }
                                    assert(self.progress(b));
                                }
                            }
                        }
                    }
                    if self.in_check || self.is_qsearch {
                        return None;
                    }
                    let ghost s1 = *self;
                    self.stage = Stage::Killers;
                    proof {
                        if prog {
                            assert forall|x: Move| #[trigger] self.target(b, x) implies self.handed@.contains(x)
                                || self.pending(b, x) by {
                                assert(s1.target(b, x));
                            }
                            assert forall|x: Move| #[trigger] self.orig_killer(x) && self.target(b, x) implies self.handed@.contains(x)
                                || self.tt_move == Some(x) || exists|i: int| 0 <= i < self.killers_count && #[trigger] self.killers_to_search[i] == x by {
                                assert(s1.orig_killer(x) && s1.target(b, x));
                            }
                        }
                    }
                },
                Stage::Killers => {
                    if self.killers_count > 0 {
                        let ghost s0 = *self;
                        self.killers_count = self.killers_count - 1;
                        let m = self.killers_to_search[self.killers_count];
                        if board.is_pseudo_legal(m) {
                            self.handed = Ghost(self.handed@.insert(m));
                            proof {
                                if prog {
                                    assert forall|x: Move| #[trigger] self.target(b, x) implies self.handed@.contains(x)
                                        || self.pending(b, x) by {
                                        assert(s0.target(b, x));
                                    }
                                    assert forall|x: Move| #[trigger] self.orig_killer(x) && self.target(b, x) implies self.handed@.contains(x)
                                        || self.tt_move == Some(x) || exists|i: int| 0 <= i < self.killers_count && #[trigger] self.killers_to_search[i] == x by {
                                        assert(s0.orig_killer(x) && s0.target(b, x));
                                        if !s0.handed@.contains(x) && s0.tt_move != Some(x) && x != m {
                                            let i = choose|i: int| 0 <= i < s0.killers_count && #[trigger] s0.killers_to_search[i] == x;
                                            assert(i < self.killers_count);
                                        }
                                    }
                                }
                            }
                            return Some(m);
                        }
                        proof {
                            if prog {
                                assert forall|x: Move| #[trigger] self.target(b, x) implies self.handed@.contains(x)
                                    || self.pending(b, x) by {
                                    assert(s0.target(b, x));
                                }
                                assert forall|x: Move| #[trigger] self.orig_killer(x) && self.target(b, x) implies self.handed@.contains(x)
                                    || self.tt_move == Some(x) || exists|i: int| 0 <= i < self.killers_count && #[trigger] self.killers_to_search[i] == x by {
                                    assert(s0.orig_killer(x) && s0.target(b, x));
                                    if !s0.handed@.contains(x) && s0.tt_move != Some(x) && x != m {
                                        let i = choose|i: int| 0 <= i < s0.killers_count && #[trigger] s0.killers_to_search[i] == x;
                                        assert(i < self.killers_count);
                                    }
                                }
                            }
                        }
                        continue;
                    }
                    let ghost s0 = *self;
                    self.stage = Stage::Countermove;
                    proof {
                        if prog {
                            assert forall|x: Move| #[trigger] self.target(b, x) implies self.handed@.contains(x)
                                || self.pending(b, x) by {
                                assert(s0.target(b, x));
                            }
                            assert forall|x: Move| #[trigger] self.orig_killer(x) && self.target(b, x) implies self.handed@.contains(x) by {
                                assert(s0.orig_killer(x) && s0.target(b, x));
                            }
                        }
                    }
                },
                Stage::Countermove => {
                    let ghost s0 = *self;
                    self.stage = Stage::GenerateQuiets;
                    if let Some(m) = self.countermove_to_search {
                        if board.is_pseudo_legal(m) {
                            self.handed = Ghost(self.handed@.insert(m));
                            proof {
                                if prog {
                                    assert forall|x: Move| #[trigger] self.target(b, x) implies self.handed@.contains(x)
                                        || self.pending(b, x) by {
                                        assert(s0.target(b, x));
                                    }
                                    assert forall|x: Move| #[trigger] self.orig_killer(x) && self.target(b, x) implies self.handed@.contains(x) by {
                                        assert(s0.orig_killer(x) && s0.target(b, x));
                                    }
                                }
                            }
                            return Some(m);
                        }
                    }
                    proof {
                        if prog {
                            assert forall|x: Move| #[trigger] self.target(b, x) implies self.handed@.contains(x)
                                || self.pending(b, x) by {
                                assert(s0.target(b, x));
                            }
                            assert forall|x: Move| #[trigger] self.orig_killer(x) && self.target(b, x) implies self.handed@.contains(x) by {
                                assert(s0.orig_killer(x) && s0.target(b, x));
                            }
                        }
                    }
                },
                Stage::GenerateQuiets => {
                    if self.skip_quiets {
                        self.stage = Stage::BadCaptures;
                        self.index = 0;
                        continue;
                    }
                    let ghost s0 = *self;
                    let moves = generate_quiets(board);
                    proof {
                        assert forall|i: int| 0 <= i < moves@.len() implies pseudo_move(*board, #[trigger] moves@[i], GenType::All) by {
                            lemma_pseudo_all(*board, moves@[i], GenType::Quiets);
                        }
                        if prog {
                            law_buffer_complete(b, GenType::Quiets, moves@);
                        }
                    }
                    self.moves = moves;
                    let ghost gen = self.moves@;
                    self.score_all(searcher, board, ply);
                    self.index = 0;
                    self.stage = Stage::Quiets;
                    proof {
                        if prog {
                            assert forall|x: Move| #[trigger] self.target(b, x) implies self.handed@.contains(x)
                                || self.pending(b, x) by {
                                assert(s0.target(b, x));
                                if !s0.handed@.contains(x) && !s0.bad_captures@.contains(x) && pseudo_move(b, x, GenType::Quiets) {
                                    assert(gen.contains(x));
                                    let j = choose|j: int| 0 <= j < gen.len() && gen[j] == x;
                                    assert(self.moves@[j] == x);
                                }
                            }
                            assert forall|x: Move| #[trigger] self.orig_killer(x) && self.target(b, x) implies self.handed@.contains(x) by {
                                assert(s0.orig_killer(x) && s0.target(b, x));
                            }
                        }
                    }
                },
                Stage::Quiets => {
                    while self.index < self.moves.len()
                        invariant
                            self.wf(*board),
                            self.stage == Stage::Quiets,
                            searcher.wf(),
                            board.wf(),
                            b == *board,
                            prog == (!self.in_check && !self.is_qsearch && !self.skip_quiets && !crowded(b)),
                            popcount(board.all_occupancy) <= 32,
                            ply < MAX_PLY,
                            self.skip_quiets == old(self).skip_quiets,
                            self.remaining() <= old(self).remaining(),
                            self.excluded_move == old(self).excluded_move,
                            self.is_qsearch == old(self).is_qsearch,
                            self.in_check == old(self).in_check,
                            self.tt_move == old(self).tt_move,
                            old(self).exhausted() ==> self.exhausted(),
                            !old(self).tt_due(*board),
                            self.handed@ == old(self).handed@,
                            self.original_killers == old(self).original_killers,
                            self.original_countermove == old(self).original_countermove,
                        decreases 300 - self.index,
                    {
                        let ghost before = self.moves@;
                        let ghost s0 = *self;
                        searcher.pick_move(&mut self.moves, &mut self.scores, self.index);
                        let ghost best = choose|best: int| self.moves@ == before.update(self.index as int, before[best]).update(best, before[self.index as int]) && self.index <= best < before.len();
                        proof {
                            assert forall|i: int| 0 <= i < self.moves@.len() implies pseudo_move(*board, #[trigger] self.moves@[i], GenType::All) by {
                                if i == best {
                                    assert(self.moves@[i] == before[self.index as int]);
                                } else if i == self.index {
                                    assert(self.moves@[i] == before[best]);
                                } else {
                                    assert(self.moves@[i] == before[i]);
                                }
                            }
                        }
                        let m = self.moves.get(self.index);
                        let ghost idx = self.index as int;
                        self.index = self.index + 1;
                        proof {
                            if prog {
                                assert forall|x: Move| #[trigger] self.target(b, x) && x != m implies self.handed@.contains(x)
                                    || self.pending(b, x) by {
                                    assert(s0.target(b, x));
                                    if !s0.handed@.contains(x) && !(s0.bad_captures@.contains(x)) {
                                        let j = choose|j: int| idx <= j < before.len() && #[trigger] before[j] == x;
                                        lemma_swap_rest(before, self.moves@, idx, best, x, j);
                                    }
                                }
                            }
                        }
                        if Some(m) == self.tt_move || Some(m) == self.excluded_move || Some(m) == self.original_killers[0]
                            || Some(m) == self.original_killers[1] || Some(m) == self.original_countermove {
                            proof {
                                if prog {
                                    assert(s0.progress(b));
                                    assert forall|x: Move| #[trigger] self.target(b, x) implies self.handed@.contains(x)
                                        || self.pending(b, x) by {
                                        if x == m {
                                            assert(s0.target(b, x));
                                            if Some(m) == self.tt_move {
                                                assert(s0.tt_move == Some(x));
                                                assert(s0.handed@.contains(x));
                                            } else if Some(m) == self.original_killers[0] || Some(m) == self.original_killers[1] {
                                                assert(s0.orig_killer(x));
                                                assert(s0.handed@.contains(x));
                                            } else {
                                                assert(s0.original_countermove == Some(x));
                                                assert(s0.handed@.contains(x));
                                            }
                                        }
                                    }
                                    assert forall|x: Move| #[trigger] self.orig_killer(x) && self.target(b, x) implies self.handed@.contains(x) by {
                                        assert(s0.orig_killer(x) && s0.target(b, x));
                                    }
                                    assert(self.progress(b));
                                }
                            }
                            continue;
                        }
                        let ghost s1 = *self;
                        self.handed = Ghost(self.handed@.insert(m));
                        self.qdone = Ghost(self.qdone@.insert(m));
                        proof {
                            if prog {
                                assert forall|x: Move| #[trigger] self.target(b, x) implies self.handed@.contains(x)
                                    || self.pending(b, x) by {
                                    if x != m {
                                        assert(s1.target(b, x));
                                        if s1.pending(b, x) {
                                            lemma_pending_frame(s1, *self, b, x);
                                        }
                                    }
                                }
                                assert forall|x: Move| #[trigger] self.orig_killer(x) && self.target(b, x) implies self.handed@.contains(x) by {
                                    assert(s0.orig_killer(x) && s0.target(b, x));
                                }
                            }
                        }
                        return Some(m);
                    }
                    let ghost s1 = *self;
                    self.stage = Stage::BadCaptures;
                    self.index = 0;
                    proof {
                        if prog {
                            assert forall|x: Move| #[trigger] self.target(b, x) implies self.handed@.contains(x)
                                || self.pending(b, x) by {
                                assert(s1.target(b, x));
                                if !s1.handed@.contains(x) {
                                    let k = choose|k: int| 0 <= k < s1.bad_captures@.len() && s1.bad_captures@[k] == x;
                                    assert(self.bad_captures@[k] == x);
                                }
                            }
                            assert forall|x: Move| #[trigger] self.orig_killer(x) && self.target(b, x) implies self.handed@.contains(x) by {
                                assert(s1.orig_killer(x) && s1.target(b, x));
                            }
                        }
                    }
                },
                Stage::BadCaptures => {
                    if self.index < self.bad_captures.len() {
                        let ghost s0 = *self;
                        let m = self.bad_captures.get(self.index);
                        let ghost idx = self.index as int;
                        self.index = self.index + 1;
                        if Some(m) == self.excluded_move {
                            proof {
                                if prog {
                                    assert forall|x: Move| #[trigger] self.target(b, x) implies self.handed@.contains(x)
                                        || self.pending(b, x) by {
                                        assert(s0.target(b, x));
                                        if !s0.handed@.contains(x) {
                                            let j = choose|j: int| idx <= j < s0.bad_captures@.len() && #[trigger] s0.bad_captures@[j] == x;
                                            assert(j != idx);
                                        }
                                    }
                                    assert forall|x: Move| #[trigger] self.orig_killer(x) && self.target(b, x) implies self.handed@.contains(x) by {
                                        assert(s0.orig_killer(x) && s0.target(b, x));
                                    }
                                }
                            }
                            continue;
                        }
                        self.handed = Ghost(self.handed@.insert(m));
                        proof {
                            if prog {
                                assert forall|x: Move| #[trigger] self.target(b, x) implies self.handed@.contains(x)
                                    || self.pending(b, x) by {
                                    assert(s0.target(b, x));
                                    if !s0.handed@.contains(x) && x != m {
                                        let j = choose|j: int| idx <= j < s0.bad_captures@.len() && #[trigger] s0.bad_captures@[j] == x;
                                        assert(j != idx);
                                    }
                                }
                                assert forall|x: Move| #[trigger] self.orig_killer(x) && self.target(b, x) implies self.handed@.contains(x) by {
                                    assert(s0.orig_killer(x) && s0.target(b, x));
                                }
                            }
                        }
                        return Some(m);
                    }
                    proof {
                        if prog {
                            assert forall|x: Move| #[trigger] pseudo_move(*board, x, GenType::All) && Some(x) != old(self).excluded()
                                implies self.handed@.contains(x) by {
                                assert(self.target(b, x));
                            }
                        }
                    }
                    return None;
                },
            }
        }
    }
}

/// Pending moves depend on the stage, the lists, the index and the table
/// move only.
proof fn lemma_pending_frame(a: MovePicker, c: MovePicker, b: Board, m: Move)
    requires
        a.stage == c.stage,
        a.moves@ == c.moves@,
        a.index == c.index,
        a.bad_captures@ == c.bad_captures@,
        a.tt_move == c.tt_move,
        a.pending(b, m),
    ensures
        c.pending(b, m),
{
    if a.stage == Stage::GoodCaptures || a.stage == Stage::Quiets {
        if exists|j: int| a.index <= j < a.moves@.len() && #[trigger] a.moves@[j] == m {
            let j = choose|j: int| a.index <= j < a.moves@.len() && #[trigger] a.moves@[j] == m;
            assert(c.moves@[j] == m);
        }
    }
    if a.stage == Stage::BadCaptures {
        if exists|j: int| a.index <= j < a.bad_captures@.len() && #[trigger] a.bad_captures@[j] == m {
            let j = choose|j: int| a.index <= j < a.bad_captures@.len() && #[trigger] a.bad_captures@[j] == m;
            assert(c.bad_captures@[j] == m);
        }
    }
}

/// The killers still to try depend on their count and slots only.
proof fn lemma_killers_frame(a: MovePicker, c: MovePicker, m: Move)
    requires
        a.killers_count == c.killers_count,
        a.killers_to_search == c.killers_to_search,
        exists|i: int| 0 <= i < a.killers_count && #[trigger] a.killers_to_search[i] == m,
    ensures
        exists|i: int| 0 <= i < c.killers_count && #[trigger] c.killers_to_search[i] == m,
{
    let i = choose|i: int| 0 <= i < a.killers_count && #[trigger] a.killers_to_search[i] == m;
    assert(c.killers_to_search[i] == m);
}

/// After swapping the entries `idx` and `best` of a list, a move found at
/// or after `idx` is still found there, and after `idx` unless it is the
/// new entry at `idx`.
proof fn lemma_swap_rest(before: Seq<Move>, after: Seq<Move>, idx: int, best: int, m: Move, j: int)
    requires
        0 <= idx <= best < before.len(),
        after == before.update(idx, before[best]).update(best, before[idx]),
        idx <= j < before.len(),
        before[j] == m,
    ensures
        exists|k: int| idx <= k < after.len() && #[trigger] after[k] == m,
        m != after[idx] ==> exists|k: int| idx + 1 <= k < after.len() && #[trigger] after[k] == m,
{
    let k = if j == idx { best } else if j == best { idx } else { j };
    assert(after[k] == m);
}

/// A score slot for each move of a list.
fn vec_of_zeros() -> (v: Vec<i32>)
    ensures
        v@.len() == 256,
        forall|i: int| 0 <= i < 256 ==> #[trigger] v@[i] == 0,
{
    let mut v: Vec<i32> = Vec::new();
    let mut i: usize = 0;
    while i < 256
        invariant
            i <= 256,
            v@.len() == i,
            forall|j: int| 0 <= j < i ==> #[trigger] v@[j] == 0,
        decreases 256 - i,
    {
        v.push(0);
        i = i + 1;
    }
    v
}

} // verus!
