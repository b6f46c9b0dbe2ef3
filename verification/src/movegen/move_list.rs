//! A fixed-capacity list of moves.
use vstd::prelude::*;
use crate::board::moves::Move;

verus! {

pub const MAX_MOVES: usize = 256;

/// Up to 256 moves; pushes beyond the capacity are ignored.
pub struct MoveList {
    moves: [Move; 256],
    count: usize,
}

impl View for MoveList {
    type V = Seq<Move>;

    closed spec fn view(&self) -> Seq<Move> {
        self.moves@.take(self.count as int)
    }
}

impl MoveList {
    #[verifier::type_invariant]
    spec fn inv(self) -> bool {
        self.count <= 256
    }

    pub fn new() -> (l: MoveList)
        ensures
            l@ == Seq::<Move>::empty(),
            l@.len() == 0,
    {
        let l = MoveList { moves: [Move::from_raw(0); 256], count: 0 };
        assert(l@ =~= Seq::<Move>::empty());
        l
    }

    /// Appends a move unless the list is full.
    pub fn push(&mut self, m: Move)
        ensures
            old(self)@.len() < 256 ==> final(self)@ == old(self)@.push(m),
            old(self)@.len() >= 256 ==> final(self)@ == old(self)@,
            final(self)@.len() <= 256,
    {
        proof {
            use_type_invariant(&*self);
        }
        if self.count < MAX_MOVES {
            let ghost before = self.moves@;
            self.moves[self.count] = m;
            self.count = self.count + 1;
            assert(self.moves@.take(self.count as int) =~= before.take(self.count - 1).push(m));
        }
    }

    /// Exchanges the moves at two positions of the list.
    pub fn swap(&mut self, i: usize, j: usize)
        requires
            i < old(self)@.len(),
            j < old(self)@.len(),
        ensures
            final(self)@ == old(self)@.update(i as int, old(self)@[j as int]).update(j as int, old(self)@[i as int]),
    {
        proof {
            use_type_invariant(&*self);
        }
        let a = self.moves[i];
        let b = self.moves[j];
        let ghost before = self.moves@;
        self.moves[i] = b;
        self.moves[j] = a;
        assert(self.moves@.take(self.count as int) =~= before.take(self.count as int).update(i as int, before[j as int]).update(j as int, before[i as int]));
    }

    pub fn len(&self) -> (n: usize)
        ensures
            n == self@.len(),
            n <= 256,
    {
        proof {
            use_type_invariant(self);
        }
        self.count
    }

    pub fn is_empty(&self) -> (b: bool)
        ensures
            b <==> self@.len() == 0,
    {
        proof {
            use_type_invariant(self);
        }
        self.count == 0
    }

    pub fn get(&self, index: usize) -> (m: Move)
        requires
            index < self@.len(),
        ensures
            m == self@[index as int],
    {
        proof {
            use_type_invariant(self);
        }
        self.moves[index]
    }

    /// The moves of the list as a slice.
    pub fn as_slice(&self) -> (s: &[Move])
        ensures
            s@ == self@,
    {
        proof {
            use_type_invariant(self);
        }
        let all: &[Move] = self.moves.as_slice();
        vstd::slice::slice_subrange(all, 0, self.count)
    }

    /// The moves of the list as a mutable slice.
    pub fn as_mut_slice(&mut self) -> (s: &mut [Move])
        ensures
            s@ == old(self)@,
    {
        proof {
            use_type_invariant(&*self);
        }
        let n = self.count;
        let all: &mut [Move] = &mut self.moves;
        let (a, _) = all.split_at_mut(n);
        a
    }
}

/// The moves of a list handed out one at a time, in order.
pub struct MoveListIter {
    move_list: MoveList,
    index: usize,
}

impl MoveList {
    /// The moves of the list, to be handed out in order.
    pub fn into_iter(self) -> (it: MoveListIter)
        ensures
            it.remaining() == self@,
    {
        let it = MoveListIter { move_list: self, index: 0 };
        assert(it.move_list@.skip(0) =~= it.move_list@);
        it
    }
}

impl MoveListIter {
    #[verifier::type_invariant]
    spec fn inv(self) -> bool {
        self.index <= self.move_list@.len()
    }

    /// The moves not yet handed out.
    pub closed spec fn remaining(self) -> Seq<Move> {
        self.move_list@.skip(self.index as int)
    }

    /// The next move, if any.
    pub fn next(&mut self) -> (r: Option<Move>)
        ensures
            old(self).remaining().len() == 0 ==> r.is_none() && final(self).remaining() == old(self).remaining(),
            old(self).remaining().len() > 0 ==> r == Some(old(self).remaining()[0]) && final(self).remaining()
                == old(self).remaining().drop_first(),
    {
        proof {
            use_type_invariant(&*self);
        }
        if self.index < self.move_list.len() {
            let m = self.move_list.get(self.index);
            let ghost before = self.move_list@.skip(self.index as int);
            self.index = self.index + 1;
            assert(self.move_list@.skip(self.index as int) =~= before.drop_first());
            Some(m)
        } else {
            None
        }
    }
}

/// Pushes `mv` when `cond` holds, keeping the list-extension facts.
pub fn push_if(moves: &mut MoveList, cond: bool, mv: Move)
    ensures
        extends(old(moves)@, final(moves)@),
        added_satisfy(old(moves)@, final(moves)@, |m: Move| cond && m == mv),
        final(moves)@.len() < 256 && cond ==> final(moves)@.contains(mv),
        final(moves)@.len() <= 256,
        !cond ==> final(moves)@ == old(moves)@,
        added_distinct(old(moves)@, final(moves)@),
{
    let ghost before = moves@;
    let _ = moves.len();
    assert(before.take(before.len() as int) =~= before);
    if cond {
        moves.push(mv);
        proof {
            assert(moves@.take(before.len() as int) =~= before);
            if before.len() < 256 {
                assert(moves@[before.len() as int] == mv);
            }
        }
    }
}


/// One more generation stage: the moves it adds satisfy `q`, which implies
/// the overall property `p`; it covers every move of `r`, which implies
/// `q`; and what the earlier stages covered (`acc`) stays covered.
pub proof fn lemma_stage(
    a: Seq<Move>,
    b: Seq<Move>,
    c: Seq<Move>,
    p: spec_fn(Move) -> bool,
    q: spec_fn(Move) -> bool,
    acc: spec_fn(Move) -> bool,
    r: spec_fn(Move) -> bool,
)
    requires
        extends(a, b),
        extends(b, c),
        added_satisfy(a, b, p),
        added_satisfy(b, c, q),
        forall|m: Move| #[trigger] q(m) ==> p(m),
        complete_for(b, acc),
        complete_for(c, q),
        forall|m: Move| #[trigger] r(m) ==> q(m),
        c.len() <= 256,
    ensures
        extends(a, c),
        added_satisfy(a, c, p),
        complete_for(c, |m: Move| acc(m) || r(m)),
{
    lemma_extends_trans(a, b, c, p, q);
    assert forall|m: Move| c.len() < 256 && (acc(m) || r(m)) implies #[trigger] c.contains(m) by {
        if acc(m) {
            assert(b.contains(m));
        } else {
            assert(q(m));
        }
    }
}


/// After a push, every move that was in the list still is, and the pushed
/// move is in it unless the list is full.
pub proof fn lemma_push_contains(before: Seq<Move>, after: Seq<Move>, mv: Move)
    requires
        before.len() < 256 ==> after == before.push(mv),
        before.len() >= 256 ==> after == before,
    ensures
        forall|m: Move| #[trigger] before.contains(m) ==> after.contains(m),
        after.len() < 256 ==> after.contains(mv),
        extends(before, after),
{
    assert forall|m: Move| #[trigger] before.contains(m) implies after.contains(m) by {
        let j = choose|j: int| 0 <= j < before.len() && before[j] == m;
        assert(after[j] == m);
    }
    if after.len() < 256 {
        assert(after[after.len() - 1] == mv);
    }
    assert(after.take(before.len() as int) =~= before);
}


/// One more generation stage whose added moves satisfy the overall
/// property `p` and which covers every move of `r`.
pub proof fn lemma_stage_covered(
    a: Seq<Move>,
    b: Seq<Move>,
    c: Seq<Move>,
    p: spec_fn(Move) -> bool,
    acc: spec_fn(Move) -> bool,
    r: spec_fn(Move) -> bool,
)
    requires
        extends(a, b),
        extends(b, c),
        added_satisfy(a, b, p),
        added_satisfy(b, c, p),
        complete_for(b, acc),
        complete_for(c, r),
        c.len() <= 256,
    ensures
        extends(a, c),
        added_satisfy(a, c, p),
        complete_for(c, |m: Move| acc(m) || r(m)),
{
    lemma_extends_trans(a, b, c, p, p);
    assert forall|m: Move| c.len() < 256 && (acc(m) || r(m)) implies #[trigger] c.contains(m) by {
        if acc(m) {
            assert(b.contains(m));
        }
    }
}

/// The moves added after `old` are pairwise different.
pub open spec fn added_distinct(old: Seq<Move>, new: Seq<Move>) -> bool {
    forall|i: int, j: int| old.len() <= i < j < new.len() ==> #[trigger] new[i] != #[trigger] new[j]
}

/// Pushing a move that differs from every move added after `m0` keeps the
/// added moves pairwise different.
pub proof fn lemma_push_distinct(m0: Seq<Move>, before: Seq<Move>, after: Seq<Move>, mv: Move)
    requires
        extends(m0, before),
        added_distinct(m0, before),
        before.len() < 256 ==> after == before.push(mv),
        before.len() >= 256 ==> after == before,
        forall|i: int| m0.len() <= i < before.len() ==> #[trigger] before[i] != mv,
    ensures
        added_distinct(m0, after),
{
    assert forall|i: int, j: int| m0.len() <= i < j < after.len() implies #[trigger] after[i] != #[trigger] after[j] by {
        if j < before.len() {
            assert(after[i] == before[i] && after[j] == before[j]);
        } else {
            assert(after[j] == mv && after[i] == before[i]);
        }
    }
}

/// Two runs of additions, each pairwise different, whose moves satisfy
/// properties no move satisfies together, add pairwise different moves.
pub proof fn lemma_distinct_join(
    a: Seq<Move>,
    b: Seq<Move>,
    c: Seq<Move>,
    p: spec_fn(Move) -> bool,
    q: spec_fn(Move) -> bool,
)
    requires
        extends(a, b),
        extends(b, c),
        added_distinct(a, b),
        added_distinct(b, c),
        added_satisfy(a, b, p),
        added_satisfy(b, c, q),
        forall|m: Move| #[trigger] p(m) ==> !q(m),
    ensures
        added_distinct(a, c),
{
    assert forall|i: int, j: int| a.len() <= i < j < c.len() implies #[trigger] c[i] != #[trigger] c[j] by {
        if j < b.len() {
            assert(c[i] == c.take(b.len() as int)[i]);
            assert(c[j] == c.take(b.len() as int)[j]);
        } else if i >= b.len() {
        } else {
            assert(c[i] == c.take(b.len() as int)[i]);
            assert(p(b[i]));
            assert(q(c[j]));
        }
    }
}

/// One more run of pairwise different additions satisfying `q`, which no
/// earlier addition (all satisfying `acc`) satisfies.
pub proof fn lemma_join_stage(m0: Seq<Move>, b: Seq<Move>, c: Seq<Move>, acc: spec_fn(Move) -> bool, q: spec_fn(Move) -> bool)
    requires
        extends(m0, b),
        extends(b, c),
        added_distinct(m0, b),
        added_distinct(b, c),
        added_satisfy(m0, b, acc),
        added_satisfy(b, c, q),
        forall|m: Move| #[trigger] acc(m) ==> !q(m),
    ensures
        extends(m0, c),
        added_distinct(m0, c),
        added_satisfy(m0, c, |m: Move| acc(m) || q(m)),
{
    lemma_distinct_join(m0, b, c, acc, q);
    lemma_extends_trans(m0, b, c, |m: Move| acc(m) || q(m), q);
}

/// What every added move satisfies, a weaker property holds of too.
pub proof fn lemma_added_weaken(a: Seq<Move>, b: Seq<Move>, p: spec_fn(Move) -> bool, q: spec_fn(Move) -> bool)
    requires
        added_satisfy(a, b, p),
        forall|m: Move| #[trigger] p(m) ==> q(m),
    ensures
        added_satisfy(a, b, q),
{
    assert forall|i: int| a.len() <= i < b.len() implies q(#[trigger] b[i]) by {
        assert(p(b[i]));
    }
}

/// Keeping the moves of a list with no duplicates that satisfy `p` leaves
/// a list with no duplicates.
pub proof fn lemma_filter_no_duplicates(s: Seq<Move>, p: spec_fn(Move) -> bool)
    requires
        s.no_duplicates(),
    ensures
        s.filter(p).no_duplicates(),
    decreases s.len(),
{
    reveal(Seq::filter);
    if s.len() > 0 {
        let t = s.drop_last();
        assert(t.no_duplicates()) by {
            assert forall|i: int, j: int| 0 <= i < t.len() && 0 <= j < t.len() && i != j implies t[i] != t[j] by {
                assert(t[i] == s[i] && t[j] == s[j]);
            }
        }
        lemma_filter_no_duplicates(t, p);
        if p(s.last()) {
            if t.filter(p).contains(s.last()) {
                t.lemma_filter_contains_rev(p, s.last());
                let k = choose|k: int| 0 <= k < t.len() && t[k] == s.last();
                assert(s[k] == s[s.len() - 1]);
            }
            assert(s.filter(p) == t.filter(p).push(s.last()));
        }
    }
}

/// Moves added to an empty list pairwise different have no duplicates.
pub proof fn lemma_distinct_from_empty(s: Seq<Move>)
    requires
        added_distinct(Seq::empty(), s),
    ensures
        s.no_duplicates(),
{
}

/// `new` keeps `old` as its prefix.
pub open spec fn extends(old: Seq<Move>, new: Seq<Move>) -> bool {
    old.len() <= new.len() && new.take(old.len() as int) == old
}

/// Every move added after `old` satisfies `p`.
pub open spec fn added_satisfy(old: Seq<Move>, new: Seq<Move>, p: spec_fn(Move) -> bool) -> bool {
    forall|i: int| old.len() <= i < new.len() ==> p(#[trigger] new[i])
}

/// Unless the list is full, every move satisfying `p` is in it.
pub open spec fn complete_for(new: Seq<Move>, p: spec_fn(Move) -> bool) -> bool {
    new.len() < 256 ==> forall|m: Move| p(m) ==> #[trigger] new.contains(m)
}

/// Extending is transitive, keeps contained moves, and combines the
/// properties of the added moves.
pub proof fn lemma_extends_trans(a: Seq<Move>, b: Seq<Move>, c: Seq<Move>, p: spec_fn(Move) -> bool, q: spec_fn(Move) -> bool)
    requires
        extends(a, b),
        extends(b, c),
        added_satisfy(a, b, p),
        added_satisfy(b, c, q),
        forall|m: Move| #[trigger] q(m) ==> p(m),
    ensures
        extends(a, c),
        added_satisfy(a, c, p),
        forall|m: Move| #[trigger] b.contains(m) ==> c.contains(m),
{
    assert(c.take(a.len() as int) =~= a) by {
        assert forall|i: int| 0 <= i < a.len() implies c[i] == a[i] by {
            assert(c[i] == c.take(b.len() as int)[i]);
            assert(b[i] == b.take(a.len() as int)[i]);
        }
    }
    assert forall|i: int| a.len() <= i < c.len() implies p(#[trigger] c[i]) by {
        if i < b.len() {
            assert(c[i] == c.take(b.len() as int)[i]);
            assert(p(b[i]));
        } else {
            assert(q(c[i]));
        }
    }
    assert forall|m: Move| #[trigger] b.contains(m) implies c.contains(m) by {
        let j = choose|j: int| 0 <= j < b.len() && b[j] == m;
        assert(c[j] == c.take(b.len() as int)[j]);
    }
}

} // verus!
