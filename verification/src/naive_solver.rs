//! The backtracking search engine: a cursor over the empty positions of a
//! grid snapshot, a stack of untried candidate digits per empty position,
//! and an iterative depth-first search that either materialises a legal
//! completion or decides that a grid has zero, one, or at least two of
//! them (the count is capped at two, which is all uniqueness testing
//! needs).
use vstd::prelude::*;

use crate::game::{
    all_digits, all_digits_seq, can_place, cell_digit, has_empty, in_pos, is_completion,
    is_legal_full, lemma_all_digits_no_duplicates, no_dups, occupied, Board, Cell, Digit,
};
use crate::measure::{lemma_measure_lt, stacks_measure};

verus! {

/// The candidate tracker: a grid snapshot, one stack of untried digits
/// per tracked (initially empty) position, and a cursor over the tracked
/// positions in row-major order.
pub struct CandidatesBoard {
    board: Board,
    cands: Vec<Option<Vec<Digit>>>,
    first_pos: usize,
    last_pos: usize,
    current_pos: usize,
    init: Ghost<Seq<Cell>>,
}

impl CandidatesBoard {
    /// The grid snapshot the tracker was built over.
    pub closed spec fn init_seq(&self) -> Seq<Cell> {
        self.init@
    }

    /// The grid as the search has currently filled it.
    pub closed spec fn board_seq(&self) -> Seq<Cell> {
        self.board@
    }

    /// Whether position `p` is tracked: empty in the snapshot, so walked
    /// by the search.
    pub closed spec fn tracked_pos(&self, p: int) -> bool {
        self.cands@[p] is Some
    }

    /// The candidate stack at a tracked position, top last.
    pub closed spec fn stack_at(&self, p: int) -> Seq<Digit> {
        self.cands@[p]->0@
    }

    /// The candidate-stack length at a position (zero where untracked).
    pub closed spec fn len_at(&self, p: int) -> nat {
        if self.cands@[p] is Some {
            self.cands@[p]->0@.len()
        } else {
            0
        }
    }

    /// All 81 stack lengths in traversal order; the search's termination
    /// measure reads them as digits of a base-ten number.
    pub closed spec fn lens(&self) -> Seq<nat> {
        Seq::new(81, |i: int| self.len_at(i))
    }

    /// The cursor.
    pub closed spec fn cur(&self) -> int {
        self.current_pos as int
    }

    /// The first tracked position.
    pub closed spec fn first(&self) -> int {
        self.first_pos as int
    }

    /// The last tracked position.
    pub closed spec fn last(&self) -> int {
        self.last_pos as int
    }

    /// Structural well-formedness: the tracked set is exactly the
    /// snapshot's empty cells, untracked cells still hold their snapshot
    /// value, stacks hold at most nine digits, and the cursor lies between
    /// the first and last tracked positions.
    pub closed spec fn wf_base(&self) -> bool {
        &&& self.board@.len() == 81
        &&& self.init@.len() == 81
        &&& self.cands@.len() == 81
        &&& forall|p: int| in_pos(p) ==> (self.tracked_pos(p) <==> !occupied(self.init@[p]))
        &&& forall|p: int|
            in_pos(p) && !self.tracked_pos(p) ==> self.board@[p] == self.init@[p]
        &&& forall|p: int| in_pos(p) ==> self.len_at(p) <= 9
        &&& in_pos(self.first()) && self.tracked_pos(self.first())
        &&& forall|p: int| 0 <= p < self.first() ==> !self.tracked_pos(p)
        &&& in_pos(self.last()) && self.tracked_pos(self.last())
        &&& forall|p: int| self.last() < p < 81 ==> !self.tracked_pos(p)
        &&& self.first() <= self.cur() <= self.last()
        &&& self.tracked_pos(self.cur())
    }

    /// The search has tentatively placed a digit at every tracked
    /// position before `k` and none from `k` on.
    pub closed spec fn placed_prefix(&self, k: int) -> bool {
        &&& forall|p: int|
            in_pos(p) && #[trigger] self.tracked_pos(p) && p < k ==> (self.board@[p] is NonGiven
                && self.len_at(p) >= 1)
        &&& forall|p: int|
            in_pos(p) && #[trigger] self.tracked_pos(p) && p >= k ==> self.board@[p] is Empty
    }

    /// Build a tracker over the empty cells of `board`, each with a full
    /// stack of the nine digits in their natural order, the cursor on the
    /// first empty cell.
    pub fn new(board: Board) -> (cb: CandidatesBoard)
        requires
            board@.len() == 81,
            has_empty(board@),
            no_dups(board@),
        ensures
            cb.wf_base(),
            cb.placed_prefix(cb.cur()),
            cb.cur() == cb.first(),
            cb.init_seq() == board@,
            cb.board_seq() == board@,
            forall|p: int| in_pos(p) ==> (cb.tracked_pos(p) <==> !occupied(board@[p])),
            forall|p: int|
                in_pos(p) && #[trigger] cb.tracked_pos(p) ==> cb.stack_at(p) == all_digits_seq(),
    {
        let mut cands: Vec<Option<Vec<Digit>>> = Vec::new();
        let mut first: usize = 81;
        let mut last: usize = 0;
        let mut p: usize = 0;
        while p < 81
            invariant
                p <= 81,
                first <= 81,
                last < 81,
                board@.len() == 81,
                cands@.len() == p,
                forall|q: int|
                    0 <= q < p ==> ((#[trigger] cands@[q]) is Some <==> !occupied(board@[q])),
                forall|q: int|
                    0 <= q < p && cands@[q] is Some ==> (#[trigger] cands@[q])->0@
                        == all_digits_seq(),
                first == 81 ==> forall|q: int| 0 <= q < p ==> occupied(#[trigger] board@[q]),
                first < 81 ==> first < p && !occupied(board@[first as int]) && (forall|q: int|
                    0 <= q < first ==> occupied(#[trigger] board@[q])),
                first < 81 ==> last < p && first <= last && !occupied(board@[last as int]) && (
                forall|q: int| last < q < p ==> occupied(#[trigger] board@[q])),
            decreases 81 - p,
        {
            let (r, c) = crate::utilities::coords_from_pos(p);
            if let Cell::Empty = board.at(r, c) {
                if first == 81 {
                    first = p;
                }
                last = p;
                cands.push(Some(all_digits()));
            } else {
                cands.push(None);
            }
            p = p + 1;
        }
        proof {
            assert(first < 81) by {
                if first == 81 {
                    assert(forall|q: int| 0 <= q < 81 ==> occupied(#[trigger] board@[q]));
                    assert(!has_empty(board@));
                }
            }
        }
        let cb = CandidatesBoard {
            board,
            cands,
            first_pos: first,
            last_pos: last,
            current_pos: first,
            init: Ghost(board@),
        };
        proof {
            assert forall|p: int| in_pos(p) implies (cb.tracked_pos(p) <==> !occupied(
                cb.init@[p],
            )) by {
                assert(cb.cands@[p] == cands@[p]);
            }
            assert forall|p: int| in_pos(p) implies cb.len_at(p) <= 9 by {
                if cands@[p] is Some {
                    assert(cands@[p]->0@ == all_digits_seq());
                }
            }
            assert forall|p: int|
                in_pos(p) && cb.tracked_pos(p) && p >= cb.cur() implies cb.board@[p]
                is Empty by {
                assert(cands@[p] is Some);
                assert(!occupied(board@[p]));
            }
            assert forall|p: int| in_pos(p) && #[trigger] cb.tracked_pos(p) implies cb.stack_at(p)
                == all_digits_seq() by {
                assert(cands@[p] is Some);
                assert(cands@[p]->0@ == all_digits_seq());
            }
        }
        cb
    }

    /// Whether the cursor is on the first tracked position.
    pub fn is_first_nongiven(&self) -> (r: bool)
        ensures
            r == (self.cur() == self.first()),
    {
        self.current_pos == self.first_pos
    }

    /// Whether the cursor is on the last tracked position.
    pub fn is_last_nongiven(&self) -> (r: bool)
        ensures
            r == (self.cur() == self.last()),
    {
        self.current_pos == self.last_pos
    }

    /// The candidate stack at the cursor, if the cursor's position is
    /// tracked.
    pub fn current_cell_candidates(&self) -> (r: Option<Vec<Digit>>)
        requires
            self.wf_base(),
        ensures
            r is Some <==> self.tracked_pos(self.cur()),
            r is Some ==> r->0@ == self.stack_at(self.cur()),
    {
        match &self.cands[self.current_pos] {
            Some(v) => Some(v.clone()),
            None => None,
        }
    }

    /// The still-untried top candidate at the cursor, or nothing if the
    /// stack there is exhausted.
    pub fn current_candidate(&self) -> (d: Option<Digit>)
        requires
            self.wf_base(),
        ensures
            d == if self.len_at(self.cur()) >= 1 {
                Some(self.stack_at(self.cur()).last())
            } else {
                None::<Digit>
            },
    {
        match &self.cands[self.current_pos] {
            Some(v) => {
                if v.len() > 0 {
                    Some(v[v.len() - 1])
                } else {
                    None
                }
            },
            None => None,
        }
    }

    /// Whether the cursor's candidate stack is exhausted.
    pub fn curr_cell_no_candidates(&self) -> (r: bool)
        requires
            self.wf_base(),
        ensures
            r == (self.len_at(self.cur()) == 0),
    {
        match &self.cands[self.current_pos] {
            Some(v) => v.len() == 0,
            None => true,
        }
    }

    /// A copy of the grid as the search has currently filled it.
    pub fn snapshot(&self) -> (b: Board)
        ensures
            b@ == self.board_seq(),
    {
        self.board
    }

    /// All candidate stacks at once, for framing contracts.
    pub closed spec fn cands_seq(&self) -> Seq<Option<Vec<Digit>>> {
        self.cands@
    }

    /// Well-formedness carries over to a modified tracker whose tracked
    /// set, snapshot and cursor bookkeeping are unchanged.
    proof fn lemma_wf_carries(a: CandidatesBoard, b: CandidatesBoard)
        requires
            a.wf_base(),
            b.init@ == a.init@,
            b.first_pos == a.first_pos,
            b.last_pos == a.last_pos,
            a.first() <= b.cur() <= a.last(),
            b.tracked_pos(b.cur()),
            b.board@.len() == 81,
            b.cands@.len() == 81,
            forall|p: int| in_pos(p) ==> (b.tracked_pos(p) <==> a.tracked_pos(p)),
            forall|p: int| in_pos(p) ==> b.len_at(p) <= 9,
            forall|p: int| in_pos(p) && !a.tracked_pos(p) ==> b.board@[p] == a.board@[p],
        ensures
            b.wf_base(),
    {
        assert forall|p: int| in_pos(p) implies (b.tracked_pos(p) <==> !occupied(
            b.init@[p],
        )) by {
            assert(a.tracked_pos(p) <==> !occupied(a.init@[p]));
        }
        assert forall|p: int| in_pos(p) && !b.tracked_pos(p) implies b.board@[p] == b.init@[p] by {
            assert(!a.tracked_pos(p));
            assert(a.board@[p] == a.init@[p]);
        }
        assert(b.first() == a.first());
        assert(b.last() == a.last());
        assert forall|p: int| 0 <= p < b.first() implies !b.tracked_pos(p) by {
            assert(0 <= p < a.first());
            assert(!a.tracked_pos(p));
            assert(in_pos(p));
        }
        assert forall|p: int| b.last() < p < 81 implies !b.tracked_pos(p) by {
            assert(a.last() < p < 81);
            assert(!a.tracked_pos(p));
            assert(in_pos(p));
        }
        assert(b.tracked_pos(b.first()) <==> a.tracked_pos(a.first()));
        assert(b.tracked_pos(b.last()) <==> a.tracked_pos(a.last()));
    }

    /// Discard the top candidate at the cursor: it has been tried and
    /// rejected for this visit.
    pub fn pop_current_candidate(&mut self)
        requires
            old(self).wf_base(),
            old(self).len_at(old(self).cur()) >= 1,
        ensures
            final(self).wf_base(),
            final(self).board_seq() == old(self).board_seq(),
            final(self).init_seq() == old(self).init_seq(),
            final(self).cur() == old(self).cur(),
            final(self).first() == old(self).first(),
            final(self).last() == old(self).last(),
            forall|p: int|
                in_pos(p) ==> (#[trigger] final(self).tracked_pos(p) <==> old(self).tracked_pos(p)),
            final(self).stack_at(final(self).cur()) == old(self).stack_at(
                old(self).cur(),
            ).drop_last(),
            forall|p: int|
                in_pos(p) && p != old(self).cur() ==> #[trigger] final(self).len_at(p) == old(
                    self,
                ).len_at(p) && (final(self).tracked_pos(p) ==> final(self).stack_at(p) == old(
                    self,
                ).stack_at(p)),
            final(self).lens() == old(self).lens().update(
                old(self).cur(),
                (old(self).len_at(old(self).cur()) - 1) as nat,
            ),
    {
        let pos = self.current_pos;
        if let Some(v) = &mut self.cands[pos] {
            v.pop();
        }
        proof {
            assert(final(self).lens() =~= old(self).lens().update(
                old(self).cur(),
                (old(self).len_at(old(self).cur()) - 1) as nat,
            ));
            assert forall|p: int| in_pos(p) implies (self.tracked_pos(p) <==> old(
                self,
            ).tracked_pos(p)) by {
                if p != old(self).cur() {
                    assert(self.cands@[p] == old(self).cands@[p]);
                }
            }
            assert forall|p: int| in_pos(p) implies self.len_at(p) <= 9 by {
                assert(self.len_at(p) == self.lens()[p]);
                assert(old(self).len_at(p) == old(self).lens()[p]);
            }
            Self::lemma_wf_carries(*old(self), *self);
        }
    }

    /// Refill the cursor's stack with all nine digits; used when the
    /// search backtracks past this position, whose constraints may differ
    /// on the next visit.
    pub fn reset_current_candidates(&mut self)
        requires
            old(self).wf_base(),
        ensures
            final(self).wf_base(),
            final(self).board_seq() == old(self).board_seq(),
            final(self).init_seq() == old(self).init_seq(),
            final(self).cur() == old(self).cur(),
            final(self).first() == old(self).first(),
            final(self).last() == old(self).last(),
            forall|p: int|
                in_pos(p) ==> (#[trigger] final(self).tracked_pos(p) <==> old(self).tracked_pos(p)),
            final(self).stack_at(final(self).cur()) == all_digits_seq(),
            forall|p: int|
                in_pos(p) && p != old(self).cur() ==> #[trigger] final(self).len_at(p) == old(
                    self,
                ).len_at(p) && (final(self).tracked_pos(p) ==> final(self).stack_at(p) == old(
                    self,
                ).stack_at(p)),
            final(self).lens() == old(self).lens().update(old(self).cur(), 9nat),
    {
        let pos = self.current_pos;
        self.cands[pos] = Some(all_digits());
        proof {
            assert(final(self).lens() =~= old(self).lens().update(old(self).cur(), 9nat));
            assert forall|p: int| in_pos(p) implies (self.tracked_pos(p) <==> old(
                self,
            ).tracked_pos(p)) by {
                if p != old(self).cur() {
                    assert(self.cands@[p] == old(self).cands@[p]);
                }
            }
            assert forall|p: int| in_pos(p) implies self.len_at(p) <= 9 by {
                assert(self.len_at(p) == self.lens()[p]);
                assert(old(self).len_at(p) == old(self).lens()[p]);
            }
            Self::lemma_wf_carries(*old(self), *self);
        }
    }

    /// Tentatively place digit `d` at the cursor's (empty) cell.
    pub fn place_current(&mut self, d: Digit)
        requires
            old(self).wf_base(),
            old(self).board_seq()[old(self).cur()] is Empty,
            no_dups(old(self).board_seq()),
            can_place(old(self).board_seq(), d, old(self).cur()),
        ensures
            final(self).wf_base(),
            final(self).board_seq() == old(self).board_seq().update(
                old(self).cur(),
                Cell::NonGiven(d),
            ),
            no_dups(final(self).board_seq()),
            final(self).init_seq() == old(self).init_seq(),
            final(self).cands_seq() == old(self).cands_seq(),
            final(self).lens() == old(self).lens(),
            final(self).cur() == old(self).cur(),
            final(self).first() == old(self).first(),
            final(self).last() == old(self).last(),
    {
        let ghost old_b = self.board@;
        let (r, c) = crate::utilities::coords_from_pos(self.current_pos);
        self.board.set(r, c, Cell::NonGiven(d));
        proof {
            crate::game::lemma_coords_pos(old(self).cur());
            crate::game::lemma_place_keeps_no_dups(old_b, Cell::NonGiven(d), old(self).cur());
            assert(final(self).lens() =~= old(self).lens());
            assert forall|p: int|
                in_pos(p) && !old(self).tracked_pos(p) implies self.board@[p] == old(
                self,
            ).board@[p] by {
                assert(old(self).tracked_pos(old(self).cur()));
            }
            Self::lemma_wf_carries(*old(self), *self);
        }
    }

    /// Take back the tentative placement at the cursor's cell.
    pub fn clear_current(&mut self)
        requires
            old(self).wf_base(),
        ensures
            final(self).wf_base(),
            final(self).board_seq() == old(self).board_seq().update(old(self).cur(), Cell::Empty),
            no_dups(old(self).board_seq()) ==> no_dups(final(self).board_seq()),
            final(self).init_seq() == old(self).init_seq(),
            final(self).cands_seq() == old(self).cands_seq(),
            final(self).lens() == old(self).lens(),
            final(self).cur() == old(self).cur(),
            final(self).first() == old(self).first(),
            final(self).last() == old(self).last(),
    {
        let ghost old_b = self.board@;
        let (r, c) = crate::utilities::coords_from_pos(self.current_pos);
        self.board.set(r, c, Cell::Empty);
        proof {
            crate::game::lemma_coords_pos(old(self).cur());
            if no_dups(old_b) {
                crate::game::lemma_clear_keeps_no_dups(old_b, old(self).cur());
            }
            assert(final(self).lens() =~= old(self).lens());
            assert forall|p: int|
                in_pos(p) && !old(self).tracked_pos(p) implies self.board@[p] == old(
                self,
            ).board@[p] by {
                assert(old(self).tracked_pos(old(self).cur()));
            }
            Self::lemma_wf_carries(*old(self), *self);
        }
    }

    /// Move the cursor forward to the next tracked position.
    pub fn next_non_given(&mut self)
        requires
            old(self).wf_base(),
            old(self).cur() < old(self).last(),
        ensures
            final(self).wf_base(),
            final(self).board_seq() == old(self).board_seq(),
            final(self).init_seq() == old(self).init_seq(),
            final(self).cands_seq() == old(self).cands_seq(),
            final(self).lens() == old(self).lens(),
            final(self).first() == old(self).first(),
            final(self).last() == old(self).last(),
            old(self).cur() < final(self).cur() <= old(self).last(),
            final(self).tracked_pos(final(self).cur()),
            forall|q: int| old(self).cur() < q < final(self).cur() ==> !final(self).tracked_pos(q),
    {
        let mut i: usize = self.current_pos + 1;
        while i < 81
            invariant
                *self == *old(self),
                old(self).wf_base(),
                old(self).cur() < i <= 81,
                forall|q: int| old(self).cur() < q < i ==> !old(self).tracked_pos(q),
            decreases 81 - i,
        {
            if self.cands[i].is_some() {
                self.current_pos = i;
                proof {
                    assert(final(self).lens() =~= old(self).lens());
                    assert(i <= old(self).last()) by {
                        if i > old(self).last() {
                            assert(!old(self).tracked_pos(i as int));
                        }
                    }
                    assert forall|q: int|
                        old(self).cur() < q < final(self).cur() implies !final(self).tracked_pos(
                        q,
                    ) by {
                        assert(!old(self).tracked_pos(q));
                    }
                    Self::lemma_wf_carries(*old(self), *self);
                }
                return;
            }
            i = i + 1;
        }
        proof {
            assert(!old(self).tracked_pos(old(self).last()));
            assert(false);
        }
    }

    /// Move the cursor back to the previous tracked position.
    pub fn prev_non_given(&mut self)
        requires
            old(self).wf_base(),
            old(self).cur() > old(self).first(),
        ensures
            final(self).wf_base(),
            final(self).board_seq() == old(self).board_seq(),
            final(self).init_seq() == old(self).init_seq(),
            final(self).cands_seq() == old(self).cands_seq(),
            final(self).lens() == old(self).lens(),
            final(self).first() == old(self).first(),
            final(self).last() == old(self).last(),
            old(self).first() <= final(self).cur() < old(self).cur(),
            final(self).tracked_pos(final(self).cur()),
            forall|q: int| final(self).cur() < q < old(self).cur() ==> !final(self).tracked_pos(q),
    {
        let mut i: usize = self.current_pos;
        while i > 0
            invariant
                *self == *old(self),
                old(self).wf_base(),
                i <= old(self).cur(),
                forall|q: int| i <= q < old(self).cur() ==> !old(self).tracked_pos(q),
            decreases i,
        {
            i = i - 1;
            if self.cands[i].is_some() {
                self.current_pos = i;
                proof {
                    assert(final(self).lens() =~= old(self).lens());
                    assert(i >= old(self).first()) by {
                        if (i as int) < old(self).first() {
                            assert(!old(self).tracked_pos(i as int));
                        }
                    }
                    assert forall|q: int|
                        final(self).cur() < q < old(self).cur() implies !final(self).tracked_pos(
                        q,
                    ) by {
                        assert(!old(self).tracked_pos(q));
                    }
                    Self::lemma_wf_carries(*old(self), *self);
                }
                return;
            }
        }
        proof {
            assert(!old(self).tracked_pos(old(self).first()));
            assert(false);
        }
    }

    /// Whether the top candidate at the cursor may be placed there: no
    /// occupied cell in the same row, column or box already holds it.
    pub fn is_current_candidate_valid(&self) -> (ok: bool)
        requires
            self.wf_base(),
            self.len_at(self.cur()) >= 1,
        ensures
            ok == can_place(self.board_seq(), self.stack_at(self.cur()).last(), self.cur()),
    {
        match self.current_candidate() {
            Some(d) => {
                let (r, c) = crate::utilities::coords_from_pos(self.current_pos);
                let ok = crate::evaluator::is_valid_candidate(&self.board, d, r, c);
                proof {
                    crate::game::lemma_coords_pos(self.cur());
                }
                ok
            },
            None => {
                proof {
                    assert(false);
                }
                false
            },
        }
    }

    /// Push the digits of every stack into a random order, so that the
    /// fill search produces varied grids.
    pub fn shuffle_stacks(&mut self, rng: &mut rand::rngs::ThreadRng)
        requires
            old(self).wf_base(),
        ensures
            final(self).wf_base(),
            final(self).board_seq() == old(self).board_seq(),
            final(self).init_seq() == old(self).init_seq(),
            final(self).cur() == old(self).cur(),
            final(self).first() == old(self).first(),
            final(self).last() == old(self).last(),
            forall|p: int|
                in_pos(p) ==> (#[trigger] final(self).tracked_pos(p) <==> old(self).tracked_pos(p)),
            forall|p: int| in_pos(p) ==> final(self).len_at(p) == old(self).len_at(p),
            forall|p: int|
                in_pos(p) && #[trigger] final(self).tracked_pos(p) ==> final(self).stack_at(
                    p,
                ).to_multiset() == old(self).stack_at(p).to_multiset(),
            old(self).placed_prefix(old(self).cur()) ==> final(self).placed_prefix(
                final(self).cur(),
            ),
    {
        let mut p: usize = 0;
        while p < 81
            invariant
                p <= 81,
                self.wf_base(),
                self.board == old(self).board,
                self.init == old(self).init,
                self.current_pos == old(self).current_pos,
                self.first_pos == old(self).first_pos,
                self.last_pos == old(self).last_pos,
                self.cands@.len() == 81,
                forall|q: int|
                    in_pos(q) ==> (self.tracked_pos(q) <==> old(self).tracked_pos(q)),
                forall|q: int| in_pos(q) ==> self.len_at(q) == old(self).len_at(q),
                forall|q: int|
                    in_pos(q) && #[trigger] self.tracked_pos(q) ==> self.stack_at(
                        q,
                    ).to_multiset() == old(self).stack_at(q).to_multiset(),
            decreases 81 - p,
        {
            let ghost prev = *self;
            if let Some(v) = &mut self.cands[p] {
                crate::rng::shuffle(rng, v);
            }
            proof {
                assert forall|q: int| in_pos(q) implies (self.tracked_pos(q) <==> prev.tracked_pos(
                    q,
                )) by {
                    if q != p {
                        assert(self.cands@[q] == prev.cands@[q]);
                    }
                }
                assert forall|q: int| in_pos(q) implies self.len_at(q) == prev.len_at(q) by {
                    if q != p {
                        assert(self.cands@[q] == prev.cands@[q]);
                    }
                }
                assert forall|q: int|
                    in_pos(q) && #[trigger] self.tracked_pos(q) implies self.stack_at(
                    q,
                ).to_multiset() == prev.stack_at(q).to_multiset() by {
                    if q != p {
                        assert(self.cands@[q] == prev.cands@[q]);
                    }
                }
                Self::lemma_wf_carries(prev, *self);
            }
            p = p + 1;
        }
        proof {
            if old(self).placed_prefix(old(self).cur()) {
                assert forall|p: int|
                    in_pos(p) && self.tracked_pos(p) && p < self.cur() implies (self.board@[p]
                    is NonGiven && self.len_at(p) >= 1) by {
                    assert(old(self).tracked_pos(p));
                    assert(old(self).len_at(p) >= 1);
                }
                assert forall|p: int|
                    in_pos(p) && self.tracked_pos(p) && p >= self.cur() implies self.board@[p]
                    is Empty by {
                    assert(old(self).tracked_pos(p));
                }
            }
        }
    }

    /// Write the top candidate of every empty cell's stack into the grid
    /// as a `NonGiven`, materialising the assignment the search has found.
    pub fn generate_solution(&mut self)
        requires
            old(self).wf_base(),
            forall|p: int|
                in_pos(p) && #[trigger] old(self).tracked_pos(p) ==> old(self).len_at(p) >= 1,
        ensures
            final(self).wf_base(),
            final(self).init_seq() == old(self).init_seq(),
            final(self).cands_seq() == old(self).cands_seq(),
            final(self).cur() == old(self).cur(),
            final(self).first() == old(self).first(),
            final(self).last() == old(self).last(),
            forall|p: int|
                in_pos(p) ==> final(self).board_seq()[p] == (if old(self).board_seq()[p]
                    is Empty {
                    Cell::NonGiven(old(self).stack_at(p).last())
                } else {
                    old(self).board_seq()[p]
                }),
    {
        let mut p: usize = 0;
        while p < 81
            invariant
                p <= 81,
                self.wf_base(),
                old(self).wf_base(),
                forall|q: int|
                    in_pos(q) && #[trigger] old(self).tracked_pos(q) ==> old(self).len_at(q) >= 1,
                self.init == old(self).init,
                self.cands@ == old(self).cands@,
                self.current_pos == old(self).current_pos,
                self.first_pos == old(self).first_pos,
                self.last_pos == old(self).last_pos,
                self.board@.len() == 81,
                forall|q: int|
                    0 <= q < p ==> self.board@[q] == (if old(self).board_seq()[q] is Empty {
                        Cell::NonGiven(old(self).stack_at(q).last())
                    } else {
                        old(self).board_seq()[q]
                    }),
                forall|q: int| p <= q < 81 ==> self.board@[q] == old(self).board_seq()[q],
            decreases 81 - p,
        {
            let ghost prev = *self;
            let (r, c) = crate::utilities::coords_from_pos(p);
            if let Cell::Empty = self.board.at(r, c) {
                proof {
                    crate::game::lemma_coords_pos(p as int);
                    assert(old(self).tracked_pos(p as int)) by {
                        if !old(self).tracked_pos(p as int) {
                            let q = p as int;
                            assert(old(self).board_seq()[q] == old(self).init_seq()[q]);
                        }
                    }
                    assert(old(self).len_at(p as int) >= 1);
                    assert(self.cands@[p as int] == old(self).cands@[p as int]);
                }
                match &self.cands[p] {
                    Some(v) => {
                        if v.len() > 0 {
                            let d = v[v.len() - 1];
                            self.board.set(r, c, Cell::NonGiven(d));
                        } else {
                            proof {
                                assert(false);
                            }
                        }
                    },
                    None => {
                        proof {
                            assert(false);
                        }
                    },
                }
            }
            proof {
                assert forall|q: int|
                    in_pos(q) && !prev.tracked_pos(q) implies self.board@[q]
                        == prev.board@[q] by {
                    if q != p {
                        assert(self.board@[q] == prev.board@[q]);
                    } else {
                        assert(occupied(prev.init_seq()[q]));
                    }
                }
                assert forall|q: int| in_pos(q) implies (self.tracked_pos(q) <==> prev.tracked_pos(
                    q,
                )) by {}
                Self::lemma_wf_carries(prev, *self);
            }
            p = p + 1;
        }
    }
}

/// The digit a grid holds at an occupied position.
pub open spec fn digit_at(s: Seq<Cell>, p: int) -> Digit {
    cell_digit(s[p])->0
}

/// In a duplicate-free stack the top is not among the entries below it.
proof fn lemma_top_not_below(s: Seq<Digit>)
    requires
        s.len() >= 1,
        s.no_duplicates(),
    ensures
        !s.drop_last().contains(s.last()),
{
    if s.drop_last().contains(s.last()) {
        let i = choose|i: int| 0 <= i < s.drop_last().len() && s.drop_last()[i] == s.last();
        assert(s[i] == s[s.len() - 1]);
    }
}

/// Membership in a stack splits into the top and the entries below it.
proof fn lemma_contains_split(s: Seq<Digit>, e: Digit)
    requires
        s.len() >= 1,
    ensures
        s.contains(e) <==> (e == s.last() || s.drop_last().contains(e)),
{
    if s.contains(e) {
        let i = choose|i: int| 0 <= i < s.len() && s[i] == e;
        if i < s.len() - 1 {
            assert(s.drop_last()[i] == e);
        }
    }
    if s.drop_last().contains(e) {
        let i = choose|i: int| 0 <= i < s.drop_last().len() && s.drop_last()[i] == e;
        assert(s[i] == e);
    }
}

/// Discarding the top keeps a stack duplicate-free.
proof fn lemma_drop_last_no_duplicates(s: Seq<Digit>)
    requires
        s.len() >= 1,
        s.no_duplicates(),
    ensures
        s.drop_last().no_duplicates(),
{
    assert forall|i: int, j: int|
        0 <= i < s.drop_last().len() && 0 <= j < s.drop_last().len() && i != j implies s.drop_last()[i]
        != s.drop_last()[j] by {
        assert(s.drop_last()[i] == s[i] && s.drop_last()[j] == s[j]);
    }
}

/// An occupied `NonGiven` cell is determined by its digit.
proof fn lemma_nongiven_shape(c: Cell)
    requires
        c is NonGiven,
    ensures
        c == Cell::NonGiven(cell_digit(c)->0),
{
}

impl CandidatesBoard {
    /// `s` agrees with every tentative placement strictly before `k`.
    pub closed spec fn agrees_below(&self, s: Seq<Cell>, k: int) -> bool {
        forall|q: int|
            in_pos(q) && #[trigger] self.tracked_pos(q) && q < k ==> s[q] == self.board_seq()[q]
    }

    /// The search has not yet ruled `s` out, witnessed at tracked
    /// position `p`: `s` agrees with the placements strictly before `p`,
    /// and its digit at `p` is still untried there — anywhere in the
    /// stack at the cursor, strictly below the top behind the cursor
    /// (tops behind the cursor are the placements being explored).
    pub closed spec fn ahead_at(&self, s: Seq<Cell>, p: int) -> bool {
        &&& in_pos(p)
        &&& self.tracked_pos(p)
        &&& p <= self.cur()
        &&& self.agrees_below(s, p)
        &&& if p == self.cur() {
            self.stack_at(p).contains(digit_at(s, p))
        } else {
            self.stack_at(p).drop_last().contains(digit_at(s, p))
        }
    }

    /// The search still has `s` in front of it.
    pub closed spec fn ahead(&self, s: Seq<Cell>) -> bool {
        exists|p: int| self.ahead_at(s, p)
    }

    /// The stack discipline the search maintains: every stack holds
    /// pairwise distinct digits, stacks strictly beyond the cursor are
    /// still full, and each placement is the top of its own stack.
    pub closed spec fn stacks_wf(&self) -> bool {
        &&& forall|p: int|
            in_pos(p) && #[trigger] self.tracked_pos(p) ==> self.stack_at(p).no_duplicates()
        &&& forall|p: int, d: Digit|
            in_pos(p) && self.tracked_pos(p) && p > self.cur() ==> #[trigger] self.stack_at(
                p,
            ).contains(d)
        &&& forall|p: int|
            in_pos(p) && #[trigger] self.tracked_pos(p) && p < self.cur()
                ==> self.board_seq()[p] == Cell::NonGiven(self.stack_at(p).last())
    }

    /// A completion that agrees with the placements below the cursor
    /// agrees with every occupied cell of the working grid.
    proof fn lemma_completion_agrees(&self, s: Seq<Cell>)
        requires
            self.wf_base(),
            self.placed_prefix(self.cur()),
            is_completion(s, self.init_seq()),
            self.agrees_below(s, self.cur()),
        ensures
            forall|q: int|
                in_pos(q) && occupied(#[trigger] self.board_seq()[q]) ==> s[q]
                    == self.board_seq()[q],
    {
        assert forall|q: int|
            in_pos(q) && occupied(#[trigger] self.board_seq()[q]) implies s[q]
            == self.board_seq()[q] by {
            if self.tracked_pos(q) {
                if q >= self.cur() {
                    assert(self.board_seq()[q] is Empty);
                }
            } else {
                assert(self.board_seq()[q] == self.init_seq()[q]);
                assert(occupied(self.init_seq()[q]));
            }
        }
    }

    /// A cursor candidate that conflicts with an occupied cell is the
    /// digit of no completion that agrees with the placements so far.
    proof fn lemma_pruned_not_completion(&self, s: Seq<Cell>, d: Digit)
        requires
            self.wf_base(),
            self.placed_prefix(self.cur()),
            self.agrees_below(s, self.cur()),
            digit_at(s, self.cur()) == d,
            !can_place(self.board_seq(), d, self.cur()),
        ensures
            !is_completion(s, self.init_seq()),
    {
        if is_completion(s, self.init_seq()) {
            self.lemma_completion_agrees(s);
            let cur = self.cur();
            let q = choose|q: int|
                in_pos(q) && crate::game::sees(cur, q) && occupied(
                    #[trigger] self.board_seq()[q],
                ) && cell_digit(self.board_seq()[q]) == Some(d);
            assert(s[q] == self.board_seq()[q]);
            assert(!occupied(self.init_seq()[cur]));
            assert(s[cur] is NonGiven);
            assert(cell_digit(s[cur]) == Some(d));
            assert(occupied(s[cur]) && occupied(s[q]));
            assert(!no_dups(s));
        }
    }
}

/// The verdict of the uniqueness check: `Invalid` when at least two legal
/// completions were found (the grid is not a proper puzzle), `Valid` when
/// at most one was.
#[derive(Copy, Clone, Debug, PartialEq, Eq, Structural)]
pub enum SolverResult {
    Invalid,
    Valid,
}

/// Run the depth-first search until `cap` legal completions have been
/// found or the space is exhausted. The returned count is correct:
/// exhaustion with zero or one finds means the grid has exactly that
/// many completions (and the one found is returned), while reaching the
/// cap of two exhibits two distinct completions. Whenever the search ran
/// to exhaustion, the tracker's grid is fully unwound to its snapshot.
#[verifier::rlimit(100)]
pub(crate) fn search(cb: &mut CandidatesBoard, cap: u8) -> (r: (u8, Option<Board>))
    requires
        1 <= cap <= 2,
        old(cb).wf_base(),
        old(cb).placed_prefix(old(cb).cur()),
        old(cb).cur() == old(cb).first(),
        no_dups(old(cb).board_seq()),
        forall|p: int, d: Digit|
            in_pos(p) && old(cb).tracked_pos(p) ==> #[trigger] old(cb).stack_at(p).contains(d),
        forall|p: int|
            in_pos(p) && #[trigger] old(cb).tracked_pos(p) ==> old(cb).stack_at(
                p,
            ).no_duplicates(),
    ensures
        final(cb).wf_base(),
        final(cb).init_seq() == old(cb).init_seq(),
        r.0 <= cap,
        (r.0 >= 1) <==> (r.1 is Some),
        r.1 is Some ==> is_completion(r.1->0@, old(cb).init_seq()),
        r.0 < cap ==> final(cb).board_seq() == old(cb).init_seq(),
        r.0 == 0 ==> forall|s: Seq<Cell>| !is_completion(s, old(cb).init_seq()),
        r.0 == 1 && cap == 2 ==> forall|s: Seq<Cell>|
            is_completion(s, old(cb).init_seq()) ==> s == r.1->0@,
        r.0 == 2 ==> exists|s1: Seq<Cell>, s2: Seq<Cell>|
            is_completion(s1, old(cb).init_seq()) && is_completion(s2, old(cb).init_seq()) && s1
                != s2,
{
    let ghost init0 = cb.init_seq();
    let mut count: u8 = 0;
    let mut found: Option<Board> = None;
    proof {
        // every completion starts out ahead, witnessed at the first
        // tracked position, whose stack is still full
        assert forall|s: Seq<Cell>| is_completion(s, init0) implies cb.ahead(s) by {
            assert(cb.stack_at(cb.cur()).contains(digit_at(s, cb.cur())));
            assert(cb.ahead_at(s, cb.cur()));
        }
    }
    loop
        invariant
            1 <= cap <= 2,
            cb.wf_base(),
            cb.placed_prefix(cb.cur()),
            cb.stacks_wf(),
            no_dups(cb.board_seq()),
            cb.init_seq() == init0,
            init0 == old(cb).init_seq(),
            count < cap,
            (count >= 1) <==> (found is Some),
            found is Some ==> is_completion(found->0@, init0),
            count == 0 ==> forall|s: Seq<Cell>| is_completion(s, init0) ==> cb.ahead(s),
            count == 1 ==> !cb.ahead(found->0@),
            count == 1 ==> forall|s: Seq<Cell>|
                is_completion(s, init0) && s != found->0@ ==> cb.ahead(s),
        decreases stacks_measure(cb.lens()), 81 - cb.cur(),
    {
        let ghost pre = *cb;
        match cb.current_candidate() {
            None => {
                // The cursor's stack is exhausted: unwind one level, or
                // finish if there is nothing left to unwind.
                if cb.is_first_nongiven() {
                    proof {
                        assert forall|p: int| in_pos(p) implies cb.board_seq()[p]
                            == init0[p] by {
                            if cb.tracked_pos(p) {
                                assert(cb.board_seq()[p] is Empty);
                                assert(!occupied(init0[p]));
                            }
                        }
                        assert(cb.board_seq() =~= init0);
                        // nothing is ahead any more: the only possible
                        // witness is the cursor, whose stack is empty
                        assert forall|s: Seq<Cell>| !cb.ahead(s) by {
                            if cb.ahead(s) {
                                let p = choose|p: int| cb.ahead_at(s, p);
                                assert(cb.tracked_pos(p));
                                assert(p == cb.cur());
                                assert(cb.stack_at(p).len() == 0);
                                assert(!cb.stack_at(p).contains(digit_at(s, p)));
                            }
                        }
                        if count == 0 {
                            assert forall|s: Seq<Cell>| !is_completion(s, init0) by {
                                if is_completion(s, init0) {
                                    assert(cb.ahead(s));
                                }
                            }
                        } else {
                            assert forall|s: Seq<Cell>| is_completion(s, init0) implies s
                                == found->0@ by {
                                if s != found->0@ {
                                    assert(cb.ahead(s));
                                }
                            }
                        }
                    }
                    return (count, found);
                }
                cb.reset_current_candidates();
                let ghost s1 = *cb;
                cb.prev_non_given();
                proof {
                    assert(cb.cands@ == s1.cands@);
                    assert(cb.tracked_pos(cb.cur()));
                    assert(s1.tracked_pos(cb.cur()));
                    assert(cb.cur() < pre.cur());
                    assert(s1.len_at(cb.cur()) == pre.len_at(cb.cur()));
                    assert(pre.tracked_pos(cb.cur()));
                    assert(cb.len_at(cb.cur()) == pre.len_at(cb.cur()));
                    assert(cb.stack_at(cb.cur()) == pre.stack_at(cb.cur()));
                    assert(cb.len_at(cb.cur()) >= 1);
                    assert(cb.board_seq() == pre.board_seq());
                    assert(cb.board_seq()[cb.cur()] is NonGiven);
                    assert(cb.lens() == s1.lens());
                    assert(s1.lens() == pre.lens().update(pre.cur(), 9nat));
                }
                let ghost k = cb.len_at(cb.cur());
                let ghost s2 = *cb;
                cb.clear_current();
                let ghost s3 = *cb;
                cb.pop_current_candidate();
                proof {
                    // The candidate tried at the new cursor position is
                    // now proven inconsistent and discarded; the refilled
                    // stack further right makes the measure's lower digit
                    // larger, but the popped higher digit dominates.
                    assert(s3.lens() == s2.lens());
                    assert(s3.len_at(s3.cur()) == k);
                    assert(cb.lens() == s3.lens().update(s3.cur(), (k - 1) as nat));
                    assert(cb.lens() == pre.lens().update(pre.cur(), 9nat).update(
                        cb.cur(),
                        (k - 1) as nat,
                    ));
                    assert forall|i: int| 0 <= i < cb.lens().len() implies cb.lens()[i] <= 9 by {
                        assert(cb.lens()[i] == cb.len_at(i));
                    }
                    assert(cb.lens()[cb.cur()] < pre.lens()[cb.cur()]);
                    lemma_measure_lt(cb.lens(), pre.lens(), cb.cur());
                    // tracked sets and the untouched stacks carry over
                    assert forall|p: int| in_pos(p) implies (cb.tracked_pos(p)
                        <==> pre.tracked_pos(p)) by {
                        assert(cb.len_at(p) == s3.len_at(p) || p == cb.cur());
                        assert(s3.cands@ == s2.cands@ && s2.cands@ == s1.cands@);
                        assert(s1.len_at(p) == pre.len_at(p) || p == pre.cur());
                    }
                    assert(cb.stack_at(pre.cur()) == all_digits_seq()) by {
                        assert(s1.stack_at(pre.cur()) == all_digits_seq());
                        assert(s3.cands@ == s1.cands@);
                        assert(cb.len_at(pre.cur()) == s3.len_at(pre.cur()));
                        assert(cb.stack_at(pre.cur()) == s3.stack_at(pre.cur()));
                    }
                    assert(cb.stack_at(cb.cur()) == pre.stack_at(cb.cur()).drop_last()) by {
                        assert(s3.stack_at(cb.cur()) == pre.stack_at(cb.cur()));
                    }
                    assert forall|p: int|
                        in_pos(p) && #[trigger] cb.tracked_pos(p) && p != pre.cur() && p
                            != cb.cur() implies cb.stack_at(p) == pre.stack_at(p) by {
                        assert(cb.len_at(p) == s3.len_at(p));
                        assert(cb.stack_at(p) == s3.stack_at(p));
                        assert(s3.cands@ == s1.cands@);
                        assert(s1.tracked_pos(p));
                        assert(s1.len_at(p) == pre.len_at(p));
                        assert(s1.stack_at(p) == pre.stack_at(p));
                    }
                    // the board lost exactly the placement at the new cursor
                    assert(cb.board_seq() == pre.board_seq().update(cb.cur(), Cell::Empty)) by {
                        assert(s2.board_seq() == pre.board_seq());
                        assert(s3.board_seq() == s2.board_seq().update(s2.cur(), Cell::Empty));
                        assert(cb.board_seq() == s3.board_seq());
                    }
                    // the placement protocol still holds at the new cursor
                    assert forall|p: int|
                        in_pos(p) && #[trigger] cb.tracked_pos(p) && p < cb.cur() implies (
                        cb.board_seq()[p] is NonGiven && cb.len_at(p) >= 1) by {
                        assert(pre.tracked_pos(p));
                        assert(p < pre.cur());
                    }
                    assert forall|p: int|
                        in_pos(p) && #[trigger] cb.tracked_pos(p) && p >= cb.cur() implies
                        cb.board_seq()[p] is Empty by {
                        assert(pre.tracked_pos(p));
                        if p > cb.cur() && p < pre.cur() {
                            assert(false);
                        }
                    }
                    // stack discipline
                    assert forall|p: int|
                        in_pos(p) && #[trigger] cb.tracked_pos(p) implies cb.stack_at(
                        p,
                    ).no_duplicates() by {
                        assert(pre.tracked_pos(p));
                        if p == pre.cur() {
                            lemma_all_digits_no_duplicates();
                        } else if p == cb.cur() {
                            lemma_drop_last_no_duplicates(pre.stack_at(p));
                        }
                    }
                    assert forall|p: int, d: Digit|
                        in_pos(p) && cb.tracked_pos(p) && p > cb.cur() implies #[trigger] cb.stack_at(
                        p,
                    ).contains(d) by {
                        assert(pre.tracked_pos(p));
                        if p == pre.cur() {
                            lemma_all_digits_no_duplicates();
                            assert(all_digits_seq().contains(d));
                        } else {
                            if p < pre.cur() {
                                assert(false);
                            }
                            assert(pre.stack_at(p).contains(d));
                        }
                    }
                    assert forall|p: int|
                        in_pos(p) && #[trigger] cb.tracked_pos(p) && p < cb.cur() implies
                        cb.board_seq()[p] == Cell::NonGiven(cb.stack_at(p).last()) by {
                        assert(pre.tracked_pos(p));
                        assert(cb.stack_at(p) == pre.stack_at(p));
                        assert(cb.board_seq()[p] == pre.board_seq()[p]);
                    }
                    // what was ahead is exactly what is still ahead: the
                    // new cursor's remaining candidates are the entries
                    // that already sat below the discarded placement
                    assert forall|s: Seq<Cell>| #[trigger] is_completion(s, init0) implies (
                    cb.ahead(s) <==> pre.ahead(s)) by {
                        if pre.ahead(s) {
                            let p = choose|p: int| pre.ahead_at(s, p);
                            if p < cb.cur() {
                                assert forall|q: int|
                                    in_pos(q) && #[trigger] cb.tracked_pos(q) && q < p implies
                                    s[q] == cb.board_seq()[q] by {
                                    assert(pre.tracked_pos(q));
                                    assert(s[q] == pre.board_seq()[q]);
                                }
                                assert(cb.ahead_at(s, p));
                                assert(cb.ahead(s));
                            } else if p == cb.cur() {
                                assert forall|q: int|
                                    in_pos(q) && #[trigger] cb.tracked_pos(q) && q < p implies
                                    s[q] == cb.board_seq()[q] by {
                                    assert(pre.tracked_pos(q));
                                    assert(s[q] == pre.board_seq()[q]);
                                }
                                assert(pre.stack_at(p).drop_last().contains(digit_at(s, p)));
                                assert(cb.ahead_at(s, p));
                                assert(cb.ahead(s));
                            } else {
                                assert(pre.tracked_pos(p));
                                if p < pre.cur() {
                                    assert(false);
                                }
                                assert(p == pre.cur());
                                assert(pre.stack_at(p).contains(digit_at(s, p)));
                                assert(pre.len_at(p) == 0);
                                assert(false);
                            }
                        }
                        if cb.ahead(s) {
                            let p = choose|p: int| cb.ahead_at(s, p);
                            assert forall|q: int|
                                in_pos(q) && #[trigger] pre.tracked_pos(q) && q < p implies s[q]
                                == pre.board_seq()[q] by {
                                assert(cb.tracked_pos(q));
                                assert(s[q] == cb.board_seq()[q]);
                                assert(q != cb.cur());
                            }
                            if p < cb.cur() {
                                assert(pre.ahead_at(s, p));
                            } else {
                                assert(p == cb.cur());
                                assert(cb.stack_at(p).contains(digit_at(s, p)));
                                lemma_contains_split(pre.stack_at(p), digit_at(s, p));
                                assert(pre.stack_at(p).drop_last().contains(digit_at(s, p)));
                                assert(pre.ahead_at(s, p));
                            }
                            assert(pre.ahead(s));
                        }
                    }
                    if count == 1 {
                        assert(!cb.ahead(found->0@));
                        assert forall|s: Seq<Cell>|
                            is_completion(s, init0) && s != found->0@ implies cb.ahead(s) by {}
                    }
                }
            },
            Some(d) => {
                if cb.is_current_candidate_valid() {
                    if cb.is_last_nongiven() {
                        // A full legal completion has been reached.
                        proof {
                            assert(cb.stack_at(cb.cur()).last() == d);
                            assert(can_place(cb.board_seq(), d, cb.cur()));
                        }
                        cb.place_current(d);
                        count = count + 1;
                        let sol = cb.snapshot();
                        proof {
                            assert forall|p: int| in_pos(p) implies occupied(
                                cb.board_seq()[p],
                            ) by {
                                if cb.tracked_pos(p) {
                                    assert(pre.tracked_pos(p));
                                    if p != pre.cur() {
                                        assert(p <= pre.last());
                                        assert(p < pre.cur());
                                        assert(pre.board_seq()[p] is NonGiven);
                                    }
                                } else {
                                    assert(cb.board_seq()[p] == init0[p]);
                                    assert(occupied(init0[p]));
                                }
                            }
                            assert forall|p: int|
                                in_pos(p) && occupied(init0[p]) implies cb.board_seq()[p]
                                == init0[p] by {
                                assert(!cb.tracked_pos(p));
                            }
                            assert forall|p: int|
                                in_pos(p) && !occupied(init0[p]) implies cb.board_seq()[p]
                                is NonGiven by {
                                assert(cb.tracked_pos(p));
                                assert(pre.tracked_pos(p));
                                if p != pre.cur() {
                                    assert(p <= pre.last());
                                    assert(p < pre.cur());
                                    assert(pre.board_seq()[p] is NonGiven);
                                }
                            }
                            assert(is_completion(sol@, init0));
                            // the grid just completed was still ahead,
                            // witnessed at the cursor itself
                            assert(pre.ahead_at(sol@, pre.cur())) by {
                                assert forall|q: int|
                                    in_pos(q) && #[trigger] pre.tracked_pos(q) && q
                                        < pre.cur() implies sol@[q] == pre.board_seq()[q] by {}
                                assert(digit_at(sol@, pre.cur()) == d);
                                assert(pre.stack_at(pre.cur()).contains(d));
                            }
                            assert(pre.ahead(sol@));
                        }
                        if count >= cap {
                            proof {
                                if count == 2 {
                                    // the completion found earlier is not
                                    // ahead, this one is: they differ
                                    let ghost c1 = found->0@;
                                    assert(!pre.ahead(c1));
                                    assert(c1 != sol@);
                                    assert(is_completion(c1, init0) && is_completion(sol@, init0)
                                        && c1 != sol@);
                                }
                            }
                            if found.is_none() {
                                found = Some(sol);
                            }
                            return (count, found);
                        }
                        // Look for a second completion: take the
                        // placement back and discard its candidate.
                        let ghost sigma = sol@;
                        found = Some(sol);
                        let ghost s2 = *cb;
                        proof {
                            assert(s2.len_at(s2.cur()) == pre.len_at(pre.cur()));
                        }
                        cb.clear_current();
                        let ghost s3 = *cb;
                        proof {
                            assert(s3.cands@ == s2.cands@);
                            assert(s3.len_at(s3.cur()) == s2.len_at(s2.cur()));
                        }
                        cb.pop_current_candidate();
                        proof {
                            assert(cb.wf_base());
                            assert(sigma == pre.board_seq().update(
                                pre.cur(),
                                Cell::NonGiven(d),
                            )) by {
                                assert(sigma == s2.board_seq());
                            }
                            assert(cb.lens() == pre.lens().update(
                                pre.cur(),
                                (pre.len_at(pre.cur()) - 1) as nat,
                            )) by {
                                assert(s2.lens() == pre.lens());
                                assert(s3.lens() == s2.lens());
                                assert(s3.cur() == pre.cur());
                                assert(cb.lens() == s3.lens().update(
                                    s3.cur(),
                                    (s3.len_at(s3.cur()) - 1) as nat,
                                ));
                            }
                            assert forall|i: int|
                                0 <= i < cb.lens().len() implies cb.lens()[i] <= 9 by {
                                assert(in_pos(i));
                                assert(cb.len_at(i) <= 9);
                                assert(cb.lens()[i] == cb.len_at(i));
                            }
                            assert(cb.lens()[cb.cur()] < pre.lens()[cb.cur()]);
                            lemma_measure_lt(cb.lens(), pre.lens(), cb.cur());
                            assert forall|p: int| in_pos(p) implies (cb.tracked_pos(p)
                                <==> pre.tracked_pos(p)) by {
                                assert(cb.len_at(p) == s3.len_at(p) || p == cb.cur());
                                assert(s3.cands@ == s2.cands@ && s2.cands@ == pre.cands@);
                            }
                            assert(cb.cur() == pre.cur());
                            assert(cb.stack_at(cb.cur()) == pre.stack_at(cb.cur()).drop_last())
                                by {
                                assert(s3.stack_at(cb.cur()) == pre.stack_at(cb.cur()));
                            }
                            assert forall|p: int|
                                in_pos(p) && #[trigger] cb.tracked_pos(p) && p
                                    != cb.cur() implies cb.stack_at(p) == pre.stack_at(p) by {
                                assert(cb.len_at(p) == s3.len_at(p));
                                assert(cb.stack_at(p) == s3.stack_at(p));
                                assert(s3.cands@ == pre.cands@);
                            }
                            assert(cb.board_seq() == pre.board_seq()) by {
                                assert(s2.board_seq() == pre.board_seq().update(
                                    pre.cur(),
                                    Cell::NonGiven(d),
                                ));
                                assert(s3.board_seq() == s2.board_seq().update(
                                    s2.cur(),
                                    Cell::Empty,
                                ));
                                assert(cb.board_seq() == s3.board_seq());
                                assert(pre.board_seq()[pre.cur()] is Empty);
                                assert(cb.board_seq() =~= pre.board_seq());
                            }
                            assert forall|p: int|
                                in_pos(p) && #[trigger] cb.tracked_pos(p) && p < cb.cur() implies (
                                cb.board_seq()[p] is NonGiven && cb.len_at(p) >= 1) by {
                                assert(pre.tracked_pos(p));
                            }
                            assert forall|p: int|
                                in_pos(p) && #[trigger] cb.tracked_pos(p) && p >= cb.cur() implies
                                cb.board_seq()[p] is Empty by {
                                assert(pre.tracked_pos(p));
                                if p > cb.cur() {
                                    assert(p > pre.last());
                                    assert(false);
                                }
                            }
                            assert forall|p: int|
                                in_pos(p) && #[trigger] cb.tracked_pos(p) implies cb.stack_at(
                                p,
                            ).no_duplicates() by {
                                assert(pre.tracked_pos(p));
                                if p == cb.cur() {
                                    lemma_drop_last_no_duplicates(pre.stack_at(p));
                                }
                            }
                            assert forall|p: int, dd: Digit|
                                in_pos(p) && cb.tracked_pos(p) && p > cb.cur() implies #[trigger] cb.stack_at(
                                p,
                            ).contains(dd) by {
                                assert(pre.tracked_pos(p));
                                assert(p > pre.last());
                                assert(false);
                            }
                            assert forall|p: int|
                                in_pos(p) && #[trigger] cb.tracked_pos(p) && p < cb.cur() implies
                                cb.board_seq()[p] == Cell::NonGiven(cb.stack_at(p).last()) by {
                                assert(pre.tracked_pos(p));
                                assert(cb.stack_at(p) == pre.stack_at(p));
                                assert(cb.board_seq()[p] == pre.board_seq()[p]);
                            }
                            // sigma itself is no longer ahead
                            assert(!cb.ahead(sigma)) by {
                                if cb.ahead(sigma) {
                                    let p = choose|p: int| cb.ahead_at(sigma, p);
                                    if p < cb.cur() {
                                        assert(sigma[p] == cb.board_seq()[p]);
                                        assert(cb.board_seq()[p] == Cell::NonGiven(
                                            cb.stack_at(p).last(),
                                        ));
                                        assert(digit_at(sigma, p) == cb.stack_at(p).last());
                                        lemma_top_not_below(cb.stack_at(p));
                                        assert(false);
                                    } else {
                                        assert(p == cb.cur());
                                        assert(digit_at(sigma, p) == d);
                                        lemma_contains_split(pre.stack_at(p), d);
                                        lemma_top_not_below(pre.stack_at(p));
                                        assert(!cb.stack_at(p).contains(d));
                                        assert(false);
                                    }
                                }
                            }
                            // every other completion keeps its witness
                            assert forall|s: Seq<Cell>|
                                #[trigger] is_completion(s, init0) && s != sigma implies (
                            cb.ahead(s) <==> pre.ahead(s)) by {
                                if pre.ahead(s) {
                                    let p = choose|p: int| pre.ahead_at(s, p);
                                    assert forall|q: int|
                                        in_pos(q) && #[trigger] cb.tracked_pos(q) && q
                                            < p implies s[q] == cb.board_seq()[q] by {
                                        assert(pre.tracked_pos(q));
                                        assert(s[q] == pre.board_seq()[q]);
                                    }
                                    if p < cb.cur() {
                                        assert(cb.ahead_at(s, p));
                                    } else {
                                        assert(p == cb.cur());
                                        let e = digit_at(s, p);
                                        assert(pre.stack_at(p).contains(e));
                                        if e == d {
                                            // a completion agreeing below
                                            // the last cell and holding d
                                            // there is sigma itself
                                            assert forall|q: int|
                                                0 <= q < 81 implies #[trigger] s[q]
                                                == sigma[q] by {
                                                assert(in_pos(q));
                                                if cb.tracked_pos(q) {
                                                    assert(pre.tracked_pos(q));
                                                    if q < pre.cur() {
                                                        assert(s[q] == pre.board_seq()[q]);
                                                    } else {
                                                        assert(q == pre.cur());
                                                        assert(!occupied(init0[q]));
                                                        assert(s[q] is NonGiven);
                                                        lemma_nongiven_shape(s[q]);
                                                        assert(s[q] == Cell::NonGiven(d));
                                                    }
                                                } else {
                                                    assert(s[q] == init0[q]);
                                                    assert(sigma[q] == init0[q]);
                                                }
                                            }
                                            assert(s.len() == 81);
                                            assert(sigma.len() == 81);
                                            assert(s =~= sigma);
                                            assert(false);
                                        }
                                        lemma_contains_split(pre.stack_at(p), e);
                                        assert(cb.stack_at(p).contains(e));
                                        assert(cb.ahead_at(s, p));
                                    }
                                    assert(cb.ahead(s));
                                }
                                if cb.ahead(s) {
                                    let p = choose|p: int| cb.ahead_at(s, p);
                                    assert forall|q: int|
                                        in_pos(q) && #[trigger] pre.tracked_pos(q) && q
                                            < p implies s[q] == pre.board_seq()[q] by {
                                        assert(cb.tracked_pos(q));
                                        assert(s[q] == cb.board_seq()[q]);
                                    }
                                    if p < cb.cur() {
                                        assert(pre.ahead_at(s, p));
                                    } else {
                                        assert(p == cb.cur());
                                        lemma_contains_split(pre.stack_at(p), digit_at(s, p));
                                        assert(pre.stack_at(p).contains(digit_at(s, p)));
                                        assert(pre.ahead_at(s, p));
                                    }
                                    assert(pre.ahead(s));
                                }
                            }
                            // first find: everything else is still ahead
                            assert forall|s: Seq<Cell>|
                                is_completion(s, init0) && s != sigma implies cb.ahead(s) by {
                                assert(pre.ahead(s));
                            }
                        }
                    } else {
                        // The candidate fits: place it and advance.
                        proof {
                            assert(cb.stack_at(cb.cur()).last() == d);
                            assert(can_place(cb.board_seq(), d, cb.cur()));
                        }
                        cb.place_current(d);
                        let ghost s2 = *cb;
                        cb.next_non_given();
                        proof {
                            assert(cb.lens() == pre.lens());
                            assert(stacks_measure(cb.lens()) == stacks_measure(pre.lens()));
                            assert forall|p: int| in_pos(p) implies (cb.tracked_pos(p)
                                <==> pre.tracked_pos(p)) by {
                                assert(cb.cands@ == s2.cands@ && s2.cands@ == pre.cands@);
                            }
                            assert forall|p: int|
                                in_pos(p) && #[trigger] cb.tracked_pos(p) implies cb.stack_at(p)
                                == pre.stack_at(p) by {
                                assert(cb.cands@ == pre.cands@);
                            }
                            assert(cb.board_seq() == pre.board_seq().update(
                                pre.cur(),
                                Cell::NonGiven(d),
                            ));
                            assert forall|p: int|
                                in_pos(p) && #[trigger] cb.tracked_pos(p) && p < cb.cur() implies (
                                cb.board_seq()[p] is NonGiven && cb.len_at(p) >= 1) by {
                                assert(pre.tracked_pos(p));
                                if p != pre.cur() {
                                    assert(p < pre.cur() || (pre.cur() < p < cb.cur()));
                                    if pre.cur() < p < cb.cur() {
                                        assert(false);
                                    }
                                }
                            }
                            assert forall|p: int|
                                in_pos(p) && #[trigger] cb.tracked_pos(p) && p >= cb.cur() implies
                                cb.board_seq()[p] is Empty by {
                                assert(pre.tracked_pos(p));
                                assert(p != pre.cur());
                                assert(pre.board_seq()[p] is Empty);
                            }
                            assert forall|p: int|
                                in_pos(p) && #[trigger] cb.tracked_pos(p) implies cb.stack_at(
                                p,
                            ).no_duplicates() by {
                                assert(pre.tracked_pos(p));
                            }
                            assert forall|p: int, dd: Digit|
                                in_pos(p) && cb.tracked_pos(p) && p > cb.cur() implies #[trigger] cb.stack_at(
                                p,
                            ).contains(dd) by {
                                assert(pre.tracked_pos(p));
                                assert(p > pre.cur());
                                assert(pre.stack_at(p).contains(dd));
                            }
                            assert forall|p: int|
                                in_pos(p) && #[trigger] cb.tracked_pos(p) && p < cb.cur() implies
                                cb.board_seq()[p] == Cell::NonGiven(cb.stack_at(p).last()) by {
                                assert(pre.tracked_pos(p));
                                if p < pre.cur() {
                                    assert(cb.board_seq()[p] == pre.board_seq()[p]);
                                } else {
                                    assert(p == pre.cur());
                                    assert(cb.board_seq()[p] == Cell::NonGiven(d));
                                }
                            }
                            // the advanced-past candidate's completions
                            // move their witness to the new cursor, whose
                            // stack is still full
                            assert forall|s: Seq<Cell>| #[trigger] is_completion(s, init0) implies (
                            cb.ahead(s) <==> pre.ahead(s)) by {
                                if pre.ahead(s) {
                                    let p = choose|p: int| pre.ahead_at(s, p);
                                    assert forall|q: int|
                                        in_pos(q) && #[trigger] cb.tracked_pos(q) && q
                                            < p implies s[q] == cb.board_seq()[q] by {
                                        assert(pre.tracked_pos(q));
                                        assert(s[q] == pre.board_seq()[q]);
                                        assert(q != pre.cur());
                                    }
                                    if p < pre.cur() {
                                        assert(cb.ahead_at(s, p));
                                    } else {
                                        assert(p == pre.cur());
                                        let e = digit_at(s, p);
                                        assert(pre.stack_at(p).contains(e));
                                        if e == d {
                                            // witness moves to the new cursor
                                            assert forall|q: int|
                                                in_pos(q) && #[trigger] cb.tracked_pos(q) && q
                                                    < cb.cur() implies s[q]
                                                == cb.board_seq()[q] by {
                                                assert(pre.tracked_pos(q));
                                                if q < pre.cur() {
                                                    assert(s[q] == pre.board_seq()[q]);
                                                } else if q == pre.cur() {
                                                    assert(!occupied(init0[q]));
                                                    assert(s[q] is NonGiven);
                                                    lemma_nongiven_shape(s[q]);
                                                    assert(s[q] == Cell::NonGiven(d));
                                                } else {
                                                    assert(false);
                                                }
                                            }
                                            assert(cb.stack_at(cb.cur()).contains(
                                                digit_at(s, cb.cur()),
                                            ));
                                            assert(cb.ahead_at(s, cb.cur()));
                                        } else {
                                            lemma_contains_split(pre.stack_at(p), e);
                                            assert(cb.stack_at(p).drop_last().contains(e));
                                            assert(cb.ahead_at(s, p));
                                        }
                                    }
                                    assert(cb.ahead(s));
                                }
                                if cb.ahead(s) {
                                    let p = choose|p: int| cb.ahead_at(s, p);
                                    if p < pre.cur() {
                                        assert forall|q: int|
                                            in_pos(q) && #[trigger] pre.tracked_pos(q) && q
                                                < p implies s[q] == pre.board_seq()[q] by {
                                            assert(cb.tracked_pos(q));
                                            assert(s[q] == cb.board_seq()[q]);
                                            assert(q != pre.cur());
                                        }
                                        lemma_contains_split(pre.stack_at(p), digit_at(s, p));
                                        assert(pre.ahead_at(s, p));
                                    } else if p == pre.cur() {
                                        assert forall|q: int|
                                            in_pos(q) && #[trigger] pre.tracked_pos(q) && q
                                                < p implies s[q] == pre.board_seq()[q] by {
                                            assert(cb.tracked_pos(q));
                                            assert(s[q] == cb.board_seq()[q]);
                                        }
                                        lemma_contains_split(pre.stack_at(p), digit_at(s, p));
                                        assert(pre.stack_at(p).contains(digit_at(s, p)));
                                        assert(pre.ahead_at(s, p));
                                    } else {
                                        assert(p == cb.cur());
                                        // the witness falls back to the
                                        // old cursor: s holds d there
                                        assert(s[pre.cur()] == cb.board_seq()[pre.cur()]) by {
                                            assert(cb.tracked_pos(pre.cur()));
                                        }
                                        assert(digit_at(s, pre.cur()) == d);
                                        assert forall|q: int|
                                            in_pos(q) && #[trigger] pre.tracked_pos(q) && q
                                                < pre.cur() implies s[q]
                                            == pre.board_seq()[q] by {
                                            assert(cb.tracked_pos(q));
                                            assert(s[q] == cb.board_seq()[q]);
                                        }
                                        assert(pre.stack_at(pre.cur()).contains(d));
                                        assert(pre.ahead_at(s, pre.cur()));
                                    }
                                    assert(pre.ahead(s));
                                }
                            }
                            if count == 1 {
                                assert(!cb.ahead(found->0@));
                                assert forall|s: Seq<Cell>|
                                    is_completion(s, init0) && s != found->0@ implies cb.ahead(
                                    s,
                                ) by {}
                            }
                        }
                    }
                } else {
                    // The candidate conflicts with an occupied cell:
                    // discard it; no completion is lost, because any
                    // completion holding it here would repeat the digit.
                    let ghost dpruned = d;
                    cb.pop_current_candidate();
                    proof {
                        assert(cb.lens() == pre.lens().update(
                            pre.cur(),
                            (pre.len_at(pre.cur()) - 1) as nat,
                        ));
                        assert forall|i: int| 0 <= i < cb.lens().len() implies cb.lens()[i]
                            <= 9 by {
                            assert(in_pos(i));
                            assert(cb.len_at(i) <= 9);
                            assert(cb.lens()[i] == cb.len_at(i));
                        }
                        assert(cb.lens()[cb.cur()] < pre.lens()[cb.cur()]);
                        lemma_measure_lt(cb.lens(), pre.lens(), cb.cur());
                        assert forall|p: int| in_pos(p) implies (cb.tracked_pos(p)
                            <==> pre.tracked_pos(p)) by {
                            assert(cb.len_at(p) == pre.len_at(p) || p == cb.cur());
                        }
                        assert(cb.board_seq() == pre.board_seq());
                        assert(cb.stack_at(cb.cur()) == pre.stack_at(cb.cur()).drop_last());
                        assert forall|p: int|
                            in_pos(p) && #[trigger] cb.tracked_pos(p) && p != cb.cur() implies
                            cb.stack_at(p) == pre.stack_at(p) by {
                            assert(cb.len_at(p) == pre.len_at(p));
                        }
                        assert forall|p: int|
                            in_pos(p) && #[trigger] cb.tracked_pos(p) && p < cb.cur() implies (
                            cb.board_seq()[p] is NonGiven && cb.len_at(p) >= 1) by {
                            assert(pre.tracked_pos(p));
                        }
                        assert forall|p: int|
                            in_pos(p) && #[trigger] cb.tracked_pos(p) && p >= cb.cur() implies
                            cb.board_seq()[p] is Empty by {
                            assert(pre.tracked_pos(p));
                        }
                        assert forall|p: int|
                            in_pos(p) && #[trigger] cb.tracked_pos(p) implies cb.stack_at(
                            p,
                        ).no_duplicates() by {
                            assert(pre.tracked_pos(p));
                            if p == cb.cur() {
                                lemma_drop_last_no_duplicates(pre.stack_at(p));
                            }
                        }
                        assert forall|p: int, dd: Digit|
                            in_pos(p) && cb.tracked_pos(p) && p > cb.cur() implies #[trigger] cb.stack_at(
                            p,
                        ).contains(dd) by {
                            assert(pre.tracked_pos(p));
                            assert(pre.stack_at(p).contains(dd));
                        }
                        assert forall|p: int|
                            in_pos(p) && #[trigger] cb.tracked_pos(p) && p < cb.cur() implies
                            cb.board_seq()[p] == Cell::NonGiven(cb.stack_at(p).last()) by {
                            assert(pre.tracked_pos(p));
                            assert(cb.stack_at(p) == pre.stack_at(p));
                        }
                        assert forall|s: Seq<Cell>| #[trigger] is_completion(s, init0) implies (
                        cb.ahead(s) <==> pre.ahead(s)) by {
                            if pre.ahead(s) {
                                let p = choose|p: int| pre.ahead_at(s, p);
                                assert forall|q: int|
                                    in_pos(q) && #[trigger] cb.tracked_pos(q) && q < p implies
                                    s[q] == cb.board_seq()[q] by {
                                    assert(pre.tracked_pos(q));
                                }
                                if p < cb.cur() {
                                    assert(cb.ahead_at(s, p));
                                } else {
                                    assert(p == cb.cur());
                                    let e = digit_at(s, p);
                                    assert(pre.stack_at(p).contains(e));
                                    if e == dpruned {
                                        pre.lemma_pruned_not_completion(s, dpruned);
                                        assert(false);
                                    }
                                    lemma_contains_split(pre.stack_at(p), e);
                                    assert(cb.stack_at(p).contains(e));
                                    assert(cb.ahead_at(s, p));
                                }
                                assert(cb.ahead(s));
                            }
                            if cb.ahead(s) {
                                let p = choose|p: int| cb.ahead_at(s, p);
                                assert forall|q: int|
                                    in_pos(q) && #[trigger] pre.tracked_pos(q) && q < p implies
                                    s[q] == pre.board_seq()[q] by {
                                    assert(cb.tracked_pos(q));
                                }
                                if p < cb.cur() {
                                    assert(pre.ahead_at(s, p));
                                } else {
                                    assert(p == cb.cur());
                                    lemma_contains_split(pre.stack_at(p), digit_at(s, p));
                                    assert(pre.stack_at(p).contains(digit_at(s, p)));
                                    assert(pre.ahead_at(s, p));
                                }
                                assert(pre.ahead(s));
                            }
                        }
                        if count == 1 {
                            assert(!cb.ahead(found->0@));
                            assert forall|s: Seq<Cell>|
                                is_completion(s, init0) && s != found->0@ implies cb.ahead(
                                s,
                            ) by {}
                        }
                    }
                }
            },
        }
    }
}

/// Count the legal completions of `board` (treating every `Given` and
/// `NonGiven` cell as fixed), stopping as soon as `cap` of them have been
/// found; `cap` is 1 to look for some completion and 2 to test
/// uniqueness. Returns the capped count and the first completion found.
pub fn count_solutions(board: &Board, cap: u8) -> (r: (u8, Option<Board>))
    requires
        board@.len() == 81,
        1 <= cap <= 2,
    ensures
        r.0 <= cap,
        (r.0 >= 1) <==> (r.1 is Some),
        r.1 is Some ==> is_completion(r.1->0@, board@),
        r.0 == 0 ==> forall|s: Seq<Cell>| !is_completion(s, board@),
        r.0 == 1 && cap == 2 ==> forall|s: Seq<Cell>| is_completion(s, board@) ==> s == r.1->0@,
        r.0 == 2 ==> exists|s1: Seq<Cell>, s2: Seq<Cell>|
            is_completion(s1, board@) && is_completion(s2, board@) && s1 != s2,
        !no_dups(board@) ==> r.0 == 0,
        is_legal_full(board@) ==> r.0 == 1 && r.1 == Some(*board),
{
    if !crate::evaluator::board_no_dups(board) {
        // two fixed cells already conflict: nothing can complete this grid
        proof {
            crate::game::lemma_conflict_no_completion(board@);
        }
        return (0, None);
    }
    if crate::evaluator::board_is_full(board) {
        // no empty cell is left: the grid itself is its one completion
        proof {
            crate::game::lemma_full_grid_unique_completion(board@);
        }
        return (1, Some(*board));
    }
    proof {
        assert(has_empty(board@));
    }
    let mut cb = CandidatesBoard::new(*board);
    proof {
        lemma_all_digits_no_duplicates();
        assert forall|p: int, d: Digit|
            in_pos(p) && cb.tracked_pos(p) implies #[trigger] cb.stack_at(p).contains(d) by {
            assert(cb.stack_at(p) == all_digits_seq());
        }
        assert forall|p: int|
            in_pos(p) && #[trigger] cb.tracked_pos(p) implies cb.stack_at(
            p,
        ).no_duplicates() by {
            assert(cb.stack_at(p) == all_digits_seq());
        }
    }
    search(&mut cb, cap)
}

/// Decide whether the grid is a proper puzzle: `Valid` when it has at
/// most one legal completion, `Invalid` when it has at least two. When a
/// completion was found, the grid is overwritten with the first one.
pub fn solve(board: &mut Board) -> (res: SolverResult)
    requires
        old(board)@.len() == 81,
    ensures
        final(board)@.len() == 81,
        res is Invalid <==> exists|s1: Seq<Cell>, s2: Seq<Cell>|
            is_completion(s1, old(board)@) && is_completion(s2, old(board)@) && s1 != s2,
        crate::game::has_unique_completion(old(board)@) ==> (res is Valid && is_completion(
            final(board)@,
            old(board)@,
        )),
        !no_dups(old(board)@) ==> (res is Valid && final(board)@ == old(board)@),
        is_legal_full(old(board)@) ==> (res is Valid && final(board)@ == old(board)@),
        res is Invalid ==> is_completion(final(board)@, old(board)@),
        res is Valid ==> (final(board)@ == old(board)@ || is_completion(
            final(board)@,
            old(board)@,
        )),
{
    let (count, sol) = count_solutions(board, 2);
    proof {
        if count == 1 {
            // a second, different completion would contradict uniqueness
            // of the one that exhausting the search left behind
            assert forall|s1: Seq<Cell>, s2: Seq<Cell>|
                is_completion(s1, old(board)@) && is_completion(s2, old(board)@) implies s1
                == s2 by {}
        }
    }
    match sol {
        Some(s) => {
            *board = s;
            if count >= 2 {
                SolverResult::Invalid
            } else {
                SolverResult::Valid
            }
        },
        None => SolverResult::Valid,
    }
}

} // verus!
