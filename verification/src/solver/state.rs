//! The assignment of truth values to the ground atoms, the trail of the
//! steps that made it, and the stack of decision levels.

use crate::bitops::{Bit2, BOOL_FALSE, BOOL_TRUE, BOOL_UNDEF};
use crate::buffer::Buffer2;
use crate::shape::{bulk_of, lemma_bulk, lemma_distinct_length, volume_of, Shape};
use vstd::prelude::*;

verus! {

/// Why a ground atom got its value.
#[derive(Debug)]
pub enum Reason {
    /// It was set before the search began.
    Initial,
    /// The search chose the value.
    Decision,
    /// A clause forced it; the positions are those of the other literals
    /// of the clause, which were all false.
    Clause(Vec<usize>),
    /// An axiom of existence forced it.
    Exists,
}

/// The mathematical value of a reason.
pub enum ReasonView {
    Initial,
    Decision,
    Clause(Seq<usize>),
    Exists,
}

impl Reason {
    /// The mathematical value of this reason.
    pub open spec fn view(&self) -> ReasonView {
        match self {
            Reason::Initial => ReasonView::Initial,
            Reason::Decision => ReasonView::Decision,
            Reason::Clause(positions) => ReasonView::Clause(positions@),
            Reason::Exists => ReasonView::Exists,
        }
    }
}

/// One step of the trail: a position of the assignment that got a value,
/// and why.
#[derive(Debug)]
pub struct Step {
    bvar: usize,
    reason: Reason,
}

/// The mathematical value of a step.
pub struct StepView {
    pub pos: usize,
    pub reason: ReasonView,
}

impl Step {
    /// The mathematical value of this step.
    pub closed spec fn view(&self) -> StepView {
        StepView { pos: self.bvar, reason: self.reason@ }
    }

    /// Makes a step.
    pub fn new(pos: usize, reason: Reason) -> (r: Self)
        ensures
            r@ == (StepView { pos, reason: reason@ }),
    {
        Step { bvar: pos, reason }
    }

    /// The position that got a value.
    pub fn position(&self) -> (r: usize)
        ensures
            r == self@.pos,
    {
        self.bvar
    }

    /// Why the position got its value.
    pub fn reason(&self) -> (r: &Reason)
        ensures
            r@ == self@.reason,
    {
        &self.reason
    }
}

/// The mathematical value of a state.
pub struct StateView {
    /// The propositional value of every ground atom.
    pub assignment: Seq<nat>,
    /// The steps that gave the assigned atoms their values, in their order.
    pub trail: Seq<StepView>,
    /// The indices into the trail at which the decisions stand.
    pub levels: Seq<usize>,
}

impl StateView {
    /// Whether the position occurs in the trail at an index from `from` on.
    pub open spec fn on_trail(self, pos: int, from: int) -> bool {
        exists|j: int| from <= j < self.trail.len() && (#[trigger] self.trail[j]).pos == pos
    }

    /// The trail and the assignment agree, and the levels point to
    /// decisions in rising order.
    #[verifier::opaque]
    pub open spec fn wf(self) -> bool {
        &&& forall|p: int| 0 <= p < self.assignment.len() ==> #[trigger] self.assignment[p] <= 2
        &&& forall|j: int|
            0 <= j < self.trail.len() ==> (#[trigger] self.trail[j]).pos < self.assignment.len()
                && self.assignment[self.trail[j].pos as int] != BOOL_UNDEF
        &&& forall|i: int, j: int|
            0 <= i < j < self.trail.len() ==> (#[trigger] self.trail[i]).pos != (#[trigger] self.trail[j]).pos
        &&& forall|p: int|
            0 <= p < self.assignment.len() && #[trigger] self.assignment[p] != BOOL_UNDEF
                ==> self.on_trail(p, 0)
        &&& forall|i: int|
            0 <= i < self.levels.len() ==> (#[trigger] self.levels[i]) < self.trail.len()
                && self.trail[self.levels[i] as int].reason == ReasonView::Decision
        &&& forall|i: int, j: int|
            0 <= i < j < self.levels.len() ==> (#[trigger] self.levels[i]) < (#[trigger] self.levels[j])
    }

    /// The state after the atom at `pos` got the value of `sign`.
    pub open spec fn assigned(self, pos: usize, sign: bool, reason: ReasonView) -> StateView {
        StateView {
            assignment: self.assignment.update(
                pos as int,
                if sign {
                    BOOL_TRUE as nat
                } else {
                    BOOL_FALSE as nat
                },
            ),
            trail: self.trail.push(StepView { pos, reason }),
            levels: self.levels,
        }
    }

    /// The state after the atom at `pos` was decided to be true.
    pub open spec fn decided(self, pos: usize) -> StateView {
        StateView {
            assignment: self.assignment.update(pos as int, BOOL_TRUE as nat),
            trail: self.trail.push(StepView { pos, reason: ReasonView::Decision }),
            levels: self.levels.push(self.trail.len() as usize),
        }
    }

    /// Whether `pos` is the first position without a value.
    pub open spec fn first_undef(self, pos: int) -> bool {
        &&& 0 <= pos < self.assignment.len()
        &&& self.assignment[pos] == BOOL_UNDEF
        &&& forall|q: int| 0 <= q < pos ==> self.assignment[q] != BOOL_UNDEF
    }

    /// Whether every atom has a value.
    pub open spec fn complete(self) -> bool {
        forall|p: int| 0 <= p < self.assignment.len() ==> self.assignment[p] != BOOL_UNDEF
    }

    /// The assignment after the steps of the trail from index `from` on
    /// were undone.
    pub open spec fn undone(self, from: int) -> Seq<nat> {
        undo(self.assignment, self.trail, from)
    }

    /// The state after a return to the last decision that was not yet
    /// turned: all later steps are undone, the decision is turned to false.
    /// Levels whose decision was already turned are given up on the way. The
    /// result is `None` when no level is left.
    pub open spec fn backtracked(self) -> Option<StateView>
        decreases self.levels.len(),
    {
        if self.levels.len() == 0 {
            None
        } else {
            let level = self.levels.last() as int;
            let pos = self.trail[level].pos as int;
            if self.assignment[pos] == BOOL_FALSE {
                (StateView { levels: self.levels.drop_last(), ..self }).backtracked()
            } else {
                Some(
                    StateView {
                        assignment: self.undone(level + 1).update(pos, BOOL_FALSE as nat),
                        trail: self.trail.take(level + 1),
                        levels: self.levels,
                    },
                )
            }
        }
    }

    /// Undoing steps makes just the positions of these steps undefined.
    pub proof fn lemma_undone(self, from: int)
        requires
            0 <= from,
            forall|j: int|
                0 <= j < self.trail.len() ==> (#[trigger] self.trail[j]).pos < self.assignment.len(),
        ensures
            self.undone(from).len() == self.assignment.len(),
            forall|p: int|
                0 <= p < self.assignment.len() ==> #[trigger] self.undone(from)[p] == if self.on_trail(
                    p,
                    from,
                ) {
                    BOOL_UNDEF as nat
                } else {
                    self.assignment[p]
                },
        decreases self.trail.len() - from,
    {
        if from < self.trail.len() {
            let next = StateView {
                assignment: self.assignment.update(self.trail[from].pos as int, BOOL_UNDEF as nat),
                ..self
            };
            next.lemma_undone(from + 1);
            assert(self.undone(from) == next.undone(from + 1));
            assert forall|p: int| 0 <= p < self.assignment.len() implies #[trigger] self.undone(from)[p]
                == if self.on_trail(p, from) {
                BOOL_UNDEF as nat
            } else {
                self.assignment[p]
            } by {
                if next.on_trail(p, from + 1) {
                    let j = choose|j: int|
                        from + 1 <= j < next.trail.len() && (#[trigger] next.trail[j]).pos == p;
                    assert(self.trail[j].pos == p);
                } else if self.trail[from].pos == p {
                } else if self.on_trail(p, from) {
                    let j = choose|j: int| from <= j < self.trail.len() && (#[trigger] self.trail[j]).pos == p;
                    assert(next.trail[j].pos == p);
                }
            }
        }
    }

    /// What a well-formed state says of the positions on its trail and of
    /// its levels.
    pub proof fn lemma_wf(self)
        requires
            self.wf(),
        ensures
            forall|p: int| 0 <= p < self.assignment.len() ==> #[trigger] self.assignment[p] <= 2,
            forall|j: int|
                0 <= j < self.trail.len() ==> (#[trigger] self.trail[j]).pos < self.assignment.len()
                    && self.assignment[self.trail[j].pos as int] != BOOL_UNDEF,
            forall|i: int|
                0 <= i < self.levels.len() ==> (#[trigger] self.levels[i]) < self.trail.len()
                    && self.trail[self.levels[i] as int].reason == ReasonView::Decision,
            self.trail.len() <= self.assignment.len(),
    {
        reveal(StateView::wf);
        lemma_trail_length(self);
    }

    /// A well-formed state stays so when an atom without a value gets one.
    pub proof fn lemma_assigned(self, pos: usize, sign: bool, reason: ReasonView)
        requires
            self.wf(),
            pos < self.assignment.len(),
            self.assignment[pos as int] == BOOL_UNDEF,
        ensures
            self.assigned(pos, sign, reason).wf(),
    {
        reveal(StateView::wf);
        lemma_after_step(self, self.assigned(pos, sign, reason), pos);
    }

    /// A well-formed state stays so when an atom without a value is decided.
    pub proof fn lemma_decided(self, pos: usize)
        requires
            self.wf(),
            pos < self.assignment.len(),
            self.assignment.len() <= usize::MAX,
            self.assignment[pos as int] == BOOL_UNDEF,
        ensures
            self.decided(pos).wf(),
    {
        reveal(StateView::wf);
        lemma_trail_length(self);
        let after = self.decided(pos);
        lemma_after_step(self, after, pos);
        assert forall|i: int| 0 <= i < after.levels.len() implies (#[trigger] after.levels[i])
            < after.trail.len() && after.trail[after.levels[i] as int].reason == ReasonView::Decision by {
            if i < self.levels.len() {
                assert(after.levels[i] == self.levels[i]);
                assert(after.trail[self.levels[i] as int] == self.trail[self.levels[i] as int]);
            }
        }
        assert forall|i: int, j: int| 0 <= i < j < after.levels.len() implies (#[trigger] after.levels[i]) < (
        #[trigger] after.levels[j]) by {
            assert(after.levels[i] == self.levels[i]);
            if j < self.levels.len() {
                assert(after.levels[j] == self.levels[j]);
            }
        }
    }

    /// A well-formed state stays so when atoms without a value are added.
    pub proof fn lemma_grown(self, count: nat)
        requires
            self.wf(),
        ensures
            (StateView {
                assignment: self.assignment + Seq::new(count, |i: int| BOOL_UNDEF as nat),
                ..self
            }).wf(),
    {
        reveal(StateView::wf);
        let after = StateView {
            assignment: self.assignment + Seq::new(count, |i: int| BOOL_UNDEF as nat),
            ..self
        };
        assert forall|p: int|
            0 <= p < after.assignment.len() && #[trigger] after.assignment[p] != BOOL_UNDEF implies after.on_trail(
            p,
            0,
        ) by {
            assert(self.assignment[p] == after.assignment[p]);
            assert(self.on_trail(p, 0));
            let j = choose|j: int| 0 <= j < self.trail.len() && (#[trigger] self.trail[j]).pos == p;
            assert(after.trail[j].pos == p);
        }
        assert forall|j: int| 0 <= j < after.trail.len() implies (#[trigger] after.trail[j]).pos
            < after.assignment.len() && after.assignment[after.trail[j].pos as int] != BOOL_UNDEF by {
            assert(self.trail[j].pos < self.assignment.len());
        }
        assert forall|p: int| 0 <= p < after.assignment.len() implies #[trigger] after.assignment[p] <= 2 by {
            if p < self.assignment.len() {
                assert(self.assignment[p] <= 2);
            }
        }
    }

    /// A state that is well formed stays so when a level is given up.
    pub proof fn lemma_drop_level(self)
        requires
            self.wf(),
            self.levels.len() > 0,
        ensures
            (StateView { levels: self.levels.drop_last(), ..self }).wf(),
    {
        reveal(StateView::wf);
        let next = StateView { levels: self.levels.drop_last(), ..self };
        assert forall|p: int|
            0 <= p < next.assignment.len() && #[trigger] next.assignment[p] != BOOL_UNDEF implies next.on_trail(
            p,
            0,
        ) by {
            assert(self.on_trail(p, 0));
            let j = choose|j: int| 0 <= j < self.trail.len() && (#[trigger] self.trail[j]).pos == p;
            assert(next.trail[j].pos == p);
        }
        assert forall|i: int| 0 <= i < next.levels.len() implies (#[trigger] next.levels[i]) < next.trail.len()
            && next.trail[next.levels[i] as int].reason == ReasonView::Decision by {
            assert(next.levels[i] == self.levels[i]);
        }
        assert forall|i: int, j: int| 0 <= i < j < next.levels.len() implies (#[trigger] next.levels[i]) < (
        #[trigger] next.levels[j]) by {
            assert(next.levels[i] == self.levels[i]);
            assert(next.levels[j] == self.levels[j]);
        }
    }

    /// A state that is well formed stays so when it returns to a decision.
    pub proof fn lemma_backtracked(self)
        requires
            self.wf(),
        ensures
            self.backtracked() matches Some(next) ==> next.wf() && next.assignment.len()
                == self.assignment.len(),
        decreases self.levels.len(),
    {
        reveal(StateView::wf);
        if self.levels.len() > 0 {
            let level = self.levels.last() as int;
            let pos = self.trail[level].pos as int;
            assert(self.levels[self.levels.len() - 1] < self.trail.len());
            if self.assignment[pos] == BOOL_FALSE {
                self.lemma_drop_level();
                (StateView { levels: self.levels.drop_last(), ..self }).lemma_backtracked();
            } else {
                let next = self.backtracked().unwrap();
                self.lemma_undone(level + 1);
                assert(self.trail[level].pos < self.assignment.len());
                assert forall|j: int| 0 <= j < next.trail.len() implies (#[trigger] next.trail[j]).pos
                    < next.assignment.len() && next.assignment[next.trail[j].pos as int] != BOOL_UNDEF by {
                    let p = self.trail[j].pos as int;
                    assert(next.trail[j] == self.trail[j]);
                    if self.on_trail(p, level + 1) {
                        let k = choose|k: int|
                            level + 1 <= k < self.trail.len() && (#[trigger] self.trail[k]).pos == p;
                        assert(self.trail[j].pos != self.trail[k].pos);
                    }
                    assert(self.undone(level + 1)[p] == self.assignment[p]);
                }
                assert forall|i: int, j: int| 0 <= i < j < next.trail.len() implies (
                #[trigger] next.trail[i]).pos != (#[trigger] next.trail[j]).pos by {
                    assert(next.trail[i] == self.trail[i]);
                    assert(next.trail[j] == self.trail[j]);
                }
                assert forall|p: int|
                    0 <= p < next.assignment.len() && #[trigger] next.assignment[p]
                        != BOOL_UNDEF implies next.on_trail(p, 0) by {
                    if p == pos {
                        assert(next.trail[level].pos == p);
                    } else {
                        assert(self.undone(level + 1)[p] == next.assignment[p]);
                        assert(!self.on_trail(p, level + 1));
                        assert(self.assignment[p] != BOOL_UNDEF);
                        assert(self.on_trail(p, 0));
                        let j = choose|j: int| 0 <= j < self.trail.len() && (#[trigger] self.trail[j]).pos == p;
                        if j > level {
                            assert(self.on_trail(p, level + 1));
                        }
                        assert(next.trail[j].pos == p);
                    }
                }
                assert forall|p: int| 0 <= p < next.assignment.len() implies #[trigger] next.assignment[p]
                    <= 2 by {
                    if p != pos {
                        assert(self.undone(level + 1)[p] == next.assignment[p]);
                        assert(self.assignment[p] <= 2);
                    }
                }
                assert forall|i: int| 0 <= i < next.levels.len() implies (#[trigger] next.levels[i])
                    < next.trail.len() && next.trail[next.levels[i] as int].reason
                    == ReasonView::Decision by {
                    if i < self.levels.len() - 1 {
                        assert(self.levels[i] < self.levels[self.levels.len() - 1]);
                    }
                    assert(next.trail[self.levels[i] as int] == self.trail[self.levels[i] as int]);
                }
            }
        }
    }
}

/// The assignment after the steps of the trail from index `from` on were
/// undone: their positions are without a value again.
pub open spec fn undo(assignment: Seq<nat>, trail: Seq<StepView>, from: int) -> Seq<nat>
    decreases trail.len() - from,
{
    if from < 0 || from >= trail.len() {
        assignment
    } else {
        undo(assignment.update(trail[from].pos as int, BOOL_UNDEF as nat), trail, from + 1)
    }
}

/// The assignment, the trail and the decision levels of a search.
#[derive(Debug)]
pub struct State {
    assignment: Buffer2,
    steps: Vec<Step>,
    levels: Vec<usize>,
}

impl State {
    /// The mathematical value of the state.
    pub closed spec fn view(&self) -> StateView {
        StateView {
            assignment: self.assignment@,
            trail: Seq::new(self.steps@.len(), |j: int| self.steps@[j]@),
            levels: self.levels@,
        }
    }

    /// The buffer of the assignment is well formed, and so is the state.
    pub closed spec fn wf(&self) -> bool {
        &&& self.assignment.wf()
        &&& self@.wf()
    }

    /// A well-formed state has a well-formed value, whose assignment can
    /// still grow by a word.
    pub proof fn lemma_wf(&self)
        requires
            self.wf(),
        ensures
            self@.wf(),
            self@.assignment.len() + 15 <= usize::MAX,
            self@.trail.len() <= self@.assignment.len(),
    {
        self.assignment.lemma_view();
        self@.lemma_wf();
    }

    /// The state without atoms.
    pub fn new() -> (r: Self)
        ensures
            r.wf(),
            r@.assignment.len() == 0,
            r@.trail.len() == 0,
            r@.levels.len() == 0,
    {
        let r = State { assignment: Buffer2::default(), steps: Vec::new(), levels: Vec::new() };
        proof {
            reveal(StateView::wf);
            assert(r@.trail =~= Seq::empty());
        }
        r
    }

    /// The buffer that holds the assignment.
    pub fn assignment(&self) -> (r: &Buffer2)
        requires
            self.wf(),
        ensures
            r.wf(),
            r@ == self@.assignment,
    {
        &self.assignment
    }

    /// The steps of the trail.
    pub fn steps(&self) -> (r: &Vec<Step>)
        ensures
            r@.len() == self@.trail.len(),
            forall|j: int| 0 <= j < r@.len() ==> r@[j]@ == self@.trail[j],
    {
        &self.steps
    }

    /// The indices into the trail at which the decisions stand.
    pub fn levels(&self) -> (r: &Vec<usize>)
        ensures
            r@ == self@.levels,
    {
        &self.levels
    }

    /// Makes room for a table with the given side lengths behind the atoms
    /// that exist, all of its atoms without a value, and returns its shape.
    pub fn create_table(&mut self, lengths: Vec<usize>) -> (r: Shape)
        requires
            old(self).wf(),
            old(self)@.assignment.len() + bulk_of(lengths@) + 15 <= usize::MAX,
        ensures
            final(self).wf(),
            r.wf(),
            r.spec_lengths() == lengths@,
            r.spec_offset() == old(self)@.assignment.len(),
            final(self)@.assignment == old(self)@.assignment + Seq::new(
                volume_of(lengths@),
                |i: int| BOOL_UNDEF as nat,
            ),
            final(self)@.trail == old(self)@.trail,
            final(self)@.levels == old(self)@.levels,
    {
        let ghost before = self@;
        let ghost sides = lengths@;
        proof {
            lemma_bulk(lengths@);
            self.assignment.lemma_view();
        }
        let shape = Shape::new(lengths, self.assignment.len());
        self.assignment.append(shape.volume(), Bit2::new(BOOL_UNDEF));
        proof {
            let after = self@;
            assert(after.trail =~= before.trail);
            before.lemma_grown(volume_of(sides));
            assert(after == (StateView {
                assignment: before.assignment + Seq::new(volume_of(sides), |i: int| BOOL_UNDEF as nat),
                ..before
            }));
        }
        shape
    }

    /// Gives the atom at the given position the value of `sign` and
    /// records the step with its reason. The atom must be without a value.
    pub fn assign(&mut self, pos: usize, sign: bool, reason: Reason)
        requires
            old(self).wf(),
            pos < old(self)@.assignment.len(),
            old(self)@.assignment[pos as int] == BOOL_UNDEF,
        ensures
            final(self).wf(),
            final(self)@ == old(self)@.assigned(pos, sign, reason@),
    {
        let ghost before = self@;
        let ghost why = reason@;
        let val = if sign {
            Bit2::new(BOOL_TRUE)
        } else {
            Bit2::new(BOOL_FALSE)
        };
        self.assignment.set(pos, val);
        self.steps.push(Step { bvar: pos, reason });
        proof {
            let after = self@;
            assert(after.trail =~= before.trail.push(StepView { pos, reason: why }));
            before.lemma_assigned(pos, sign, why);
        }
    }

    /// Decides that the first atom without a value is true, and opens a
    /// new level for it. Returns false, and changes nothing, when every atom
    /// has a value.
    pub fn make_decision(&mut self) -> (r: bool)
        requires
            old(self).wf(),
        ensures
            final(self).wf(),
            r == !old(self)@.complete(),
            !r ==> final(self)@ == old(self)@,
            r ==> old(self)@.first_undef(final(self)@.trail.last().pos as int) && final(self)@ == old(self)@.decided(final(self)@.trail.last().pos),
    {
        let ghost before = self@;
        let n = self.assignment.len();
        let mut pos: usize = 0;
        let mut found = false;
        while pos < n && !found
            invariant
                pos <= n,
                n == self@.assignment.len(),
                self.wf(),
                self@ == before,
                forall|q: int| 0 <= q < pos ==> before.assignment[q] != BOOL_UNDEF,
                found ==> pos < n && before.assignment[pos as int] == BOOL_UNDEF,
            decreases n - pos + if found { 0int } else { 1int },
        {
            if self.assignment.get(pos) == Bit2::new(BOOL_UNDEF) {
                found = true;
            } else {
                pos += 1;
            }
        }
        if found {
            proof {
                self.lemma_wf();
            }
            self.levels.push(self.steps.len());
            self.assignment.set(pos, Bit2::new(BOOL_TRUE));
            self.steps.push(Step { bvar: pos, reason: Reason::Decision });
            proof {
                let after = self@;
                assert(after.trail =~= before.trail.push(
                    StepView { pos, reason: ReasonView::Decision },
                ));
                assert(after == before.decided(pos));
                before.lemma_decided(pos);
            }
            true
        } else {
            false
        }
    }

    /// Returns to the last decision that was not yet turned, undoes all
    /// later steps and turns the decision to false. Returns false when no
    /// such decision is left; then no level is left either.
    #[verifier::loop_isolation(false)]
    pub fn next_decision(&mut self) -> (r: bool)
        requires
            old(self).wf(),
        ensures
            final(self).wf(),
            r == old(self)@.backtracked().is_some(),
            r ==> final(self)@ == old(self)@.backtracked().unwrap(),
            !r ==> final(self)@ == (StateView { levels: Seq::empty(), ..old(self)@ }),
    {
        let ghost before = self@;
        loop
            invariant
                self.wf(),
                self@.backtracked() == before.backtracked(),
                self@.assignment == before.assignment,
                self@.trail == before.trail,
            decreases self@.levels.len(),
        {
            let ghost here = self@;
            let top = self.levels.pop();
            if top.is_none() {
                proof {
                    assert(self@.levels =~= Seq::empty());
                    assert(self@.trail =~= here.trail);
                }
                return false;
            }
            let level = top.unwrap();
            proof {
                assert(here.levels[here.levels.len() - 1] == level);
                assert(self@.trail =~= here.trail);
                assert(self@ == (StateView { levels: here.levels.drop_last(), ..here }));
                here.lemma_drop_level();
                here.lemma_backtracked();
                here.lemma_wf();
            }
            let pos = self.steps[level].bvar;
            proof {
                assert(here.trail[level as int].pos == pos);
            }
            let val = self.assignment.get(pos);
            if val == Bit2::new(BOOL_FALSE) {
                continue;
            }
            let n = self.steps.len();
            let mut j: usize = level + 1;
            while j < n
                invariant
                    level < j <= n,
                    n == self.steps@.len(),
                    self.assignment.wf(),
                    self@.trail == here.trail,
                    self@.levels == here.levels.drop_last(),
                    self@.assignment.len() == here.assignment.len(),
                    self@.undone(j as int) == here.undone(level + 1),
                    forall|k: int|
                        0 <= k < here.trail.len() ==> (#[trigger] here.trail[k]).pos < here.assignment.len(),
                decreases n - j,
            {
                let ghost now = self@;
                let at = self.steps[j].bvar;
                proof {
                    assert(now.trail[j as int].pos == at);
                    assert(here.trail[j as int].pos < here.assignment.len());
                }
                self.assignment.set(at, Bit2::new(BOOL_UNDEF));
                proof {
                    assert(self@.trail =~= now.trail);
                    assert(now.undone(j as int) == self@.undone(j + 1));
                }
                j += 1;
            }
            self.levels.push(level);
            self.assignment.set(pos, Bit2::new(BOOL_FALSE));
            self.steps.truncate(level + 1);
            proof {
                let after = self@;
                assert(after.levels =~= here.levels);
                assert(after.trail =~= here.trail.take(level + 1));
                assert(after == here.backtracked().unwrap());
            }
            return true;
        }
    }
}

/// No more steps stand on the trail than there are atoms.
pub proof fn lemma_trail_length(state: StateView)
    requires
        state.wf(),
    ensures
        state.trail.len() <= state.assignment.len(),
{
    reveal(StateView::wf);
    let positions = Seq::new(state.trail.len(), |j: int| state.trail[j].pos as int);
    assert forall|i: int, j: int| 0 <= i < j < positions.len() implies positions[i] != positions[j] by {
        assert(state.trail[i].pos != state.trail[j].pos);
    }
    assert forall|j: int| 0 <= j < positions.len() implies 0 <= #[trigger] positions[j]
        < state.assignment.len() by {
        assert(state.trail[j].pos < state.assignment.len());
    }
    lemma_distinct_length(positions, state.assignment.len());
}

/// A well-formed state stays so when an atom without a value gets one and
/// the step is put on the trail.
proof fn lemma_after_step(before: StateView, after: StateView, pos: usize)
    requires
        before.wf(),
        pos < before.assignment.len(),
        before.assignment[pos as int] == BOOL_UNDEF,
        after.assignment.len() == before.assignment.len(),
        after.assignment[pos as int] == BOOL_TRUE || after.assignment[pos as int] == BOOL_FALSE,
        forall|p: int| 0 <= p < before.assignment.len() && p != pos ==> after.assignment[p] == before.assignment[p],
        after.trail.len() == before.trail.len() + 1,
        after.trail.last().pos == pos,
        forall|j: int| 0 <= j < before.trail.len() ==> after.trail[j] == before.trail[j],
    ensures
        forall|p: int| 0 <= p < after.assignment.len() ==> #[trigger] after.assignment[p] <= 2,
        forall|j: int|
            0 <= j < after.trail.len() ==> (#[trigger] after.trail[j]).pos < after.assignment.len()
                && after.assignment[after.trail[j].pos as int] != BOOL_UNDEF,
        forall|i: int, j: int|
            0 <= i < j < after.trail.len() ==> (#[trigger] after.trail[i]).pos != (#[trigger] after.trail[j]).pos,
        forall|p: int|
            0 <= p < after.assignment.len() && #[trigger] after.assignment[p] != BOOL_UNDEF
                ==> after.on_trail(p, 0),
        after.levels == before.levels ==> after.wf(),
{
    reveal(StateView::wf);
    let n = before.trail.len() as int;
    assert forall|p: int| 0 <= p < after.assignment.len() implies #[trigger] after.assignment[p] <= 2 by {
        if p != pos {
            assert(before.assignment[p] <= 2);
        }
    }
    assert forall|j: int| 0 <= j < after.trail.len() implies (#[trigger] after.trail[j]).pos
        < after.assignment.len() && after.assignment[after.trail[j].pos as int] != BOOL_UNDEF by {
        if j < n {
            assert(before.trail[j].pos < before.assignment.len());
        }
    }
    assert forall|i: int, j: int| 0 <= i < j < after.trail.len() implies (#[trigger] after.trail[i]).pos != (
    #[trigger] after.trail[j]).pos by {
        assert(before.trail[i].pos < before.assignment.len());
        if j < n {
            assert(before.trail[i].pos != before.trail[j].pos);
        }
    }
    assert forall|p: int|
        0 <= p < after.assignment.len() && #[trigger] after.assignment[p] != BOOL_UNDEF implies after.on_trail(
        p,
        0,
    ) by {
        if p == pos {
            assert(after.trail[n].pos == p);
        } else {
            assert(before.on_trail(p, 0));
            let j = choose|j: int| 0 <= j < before.trail.len() && (#[trigger] before.trail[j]).pos == p;
            assert(after.trail[j].pos == p);
        }
    }
    if after.levels == before.levels {
        assert forall|i: int| 0 <= i < after.levels.len() implies (#[trigger] after.levels[i])
            < after.trail.len() && after.trail[after.levels[i] as int].reason == ReasonView::Decision by {
            assert(before.levels[i] < before.trail.len());
            assert(after.trail[before.levels[i] as int] == before.trail[before.levels[i] as int]);
        }
    }
}


/// Three to the power of `n`.
pub open spec fn pow3(n: nat) -> nat
    decreases n,
{
    if n == 0 {
        1
    } else {
        3 * pow3((n - 1) as nat)
    }
}

impl StateView {
    /// Whether the step `j` of the trail is a decision that was not yet
    /// turned: a level points to it, and its atom is true.
    pub open spec fn open_decision(self, j: int) -> bool {
        &&& exists|i: int| 0 <= i < self.levels.len() && #[trigger] self.levels[i] == j
        &&& self.assignment[self.trail[j].pos as int] == BOOL_TRUE
    }

    /// The digit of the step `j`: one for a decision that was not yet
    /// turned, two for every other step.
    pub open spec fn digit(self, j: int) -> nat {
        if self.open_decision(j) {
            1
        } else {
            2
        }
    }

    /// The number that the digits of the first `upto` steps write in the
    /// ternary system, with as many places as there are atoms. The search
    /// counts up in this number.
    pub open spec fn progress(self, upto: int) -> nat
        decreases upto,
    {
        if upto <= 0 || upto > self.assignment.len() {
            0
        } else {
            self.progress(upto - 1) + self.digit(upto - 1) * pow3((self.assignment.len() - upto) as nat)
        }
    }

    /// The progress of all steps of the trail.
    pub open spec fn measure(self) -> nat {
        self.progress(self.trail.len() as int)
    }

    /// The progress of the steps from `from` up to `upto` is below the
    /// weight of the place before `from`.
    pub proof fn lemma_progress_bound(self, from: int, upto: int)
        requires
            0 <= from <= upto <= self.assignment.len(),
        ensures
            self.progress(from) <= self.progress(upto),
            self.progress(upto) - self.progress(from) + pow3((self.assignment.len() - upto) as nat) <= pow3(
                (self.assignment.len() - from) as nat,
            ),
        decreases upto - from,
    {
        if from < upto {
            self.lemma_progress_bound(from, upto - 1);
            let w = pow3((self.assignment.len() - upto) as nat) as int;
            assert(pow3((self.assignment.len() - upto + 1) as nat) == 3 * w);
            let d = self.digit(upto - 1) as int;
            assert(d * w <= 2 * w) by (nonlinear_arith)
                requires
                    1 <= d <= 2,
                    w >= 0,
            ;
            assert(d * w >= 0) by (nonlinear_arith)
                requires
                    1 <= d <= 2,
                    w >= 0,
            ;
        }
    }

    /// Two states with as many atoms whose first `upto` steps have the same
    /// digits have made the same progress with them.
    pub proof fn lemma_progress_same(self, other: StateView, upto: int)
        requires
            self.assignment.len() == other.assignment.len(),
            forall|j: int| 0 <= j < upto ==> self.digit(j) == other.digit(j),
        ensures
            self.progress(upto) == other.progress(upto),
        decreases upto,
    {
        if 0 < upto <= self.assignment.len() {
            self.lemma_progress_same(other, upto - 1);
        }
    }

    /// A state that continues another has made no less progress.
    pub proof fn lemma_measure_grows(self, later: StateView)
        requires
            self.wf(),
            later.wf(),
            later.assignment.len() == self.assignment.len(),
            later.levels == self.levels,
            later.trail.len() >= self.trail.len(),
            later.trail.take(self.trail.len() as int) == self.trail,
            forall|p: int|
                0 <= p < self.assignment.len() && self.assignment[p] != BOOL_UNDEF ==> #[trigger] later.assignment[p]
                    == self.assignment[p],
        ensures
            later.measure() >= self.measure(),
            later.trail.len() > self.trail.len() ==> later.measure() > self.measure(),
    {
        let n = self.trail.len() as int;
        self.lemma_wf();
        later.lemma_wf();
        assert forall|j: int| 0 <= j < n implies self.digit(j) == later.digit(j) by {
            assert(later.trail.take(n)[j] == self.trail[j]);
            assert(later.trail[j] == self.trail[j]);
            assert(self.trail[j].pos < self.assignment.len());
            assert(self.assignment[self.trail[j].pos as int] != BOOL_UNDEF);
        }
        self.lemma_progress_same(later, n);
        later.lemma_progress_bound(n, later.trail.len() as int);
        if later.trail.len() > n {
            later.lemma_progress_bound(n + 1, later.trail.len() as int);
            lemma_pow3_positive((later.assignment.len() - n - 1) as nat);
            let d = later.digit(n) as int;
            let w = pow3((later.assignment.len() - n - 1) as nat) as int;
            assert(d * w > 0) by (nonlinear_arith)
                requires
                    1 <= d,
                    w > 0,
            ;
        }
    }

    /// A decision is progress.
    pub proof fn lemma_measure_decided(self, pos: usize)
        requires
            self.wf(),
            pos < self.assignment.len(),
            self.assignment.len() <= usize::MAX,
            self.assignment[pos as int] == BOOL_UNDEF,
        ensures
            self.decided(pos).measure() > self.measure(),
    {
        let later = self.decided(pos);
        let n = self.trail.len() as int;
        self.lemma_wf();
        self.lemma_decided(pos);
        later.lemma_wf();
        assert forall|j: int| 0 <= j < n implies self.digit(j) == later.digit(j) by {
            assert(later.trail[j] == self.trail[j]);
            assert(self.trail[j].pos < self.assignment.len());
            assert(self.assignment[self.trail[j].pos as int] != BOOL_UNDEF);
            if self.open_decision(j) {
                let i = choose|i: int| 0 <= i < self.levels.len() && #[trigger] self.levels[i] == j;
                assert(later.levels[i] == j);
            }
            if later.open_decision(j) {
                let i = choose|i: int| 0 <= i < later.levels.len() && #[trigger] later.levels[i] == j;
                assert(i < self.levels.len());
                assert(self.levels[i] == j);
            }
        }
        self.lemma_progress_same(later, n);
        lemma_pow3_positive((later.assignment.len() - n - 1) as nat);
        let d = later.digit(n) as int;
        let w = pow3((later.assignment.len() - n - 1) as nat) as int;
        assert(d * w > 0) by (nonlinear_arith)
            requires
                1 <= d,
                w > 0,
        ;
    }

    /// Giving up a level whose decision was turned changes no digit.
    pub proof fn lemma_measure_drop(self)
        requires
            self.wf(),
            self.levels.len() > 0,
            self.assignment[self.trail[self.levels.last() as int].pos as int] == BOOL_FALSE,
        ensures
            (StateView { levels: self.levels.drop_last(), ..self }).measure() == self.measure(),
    {
        let next = StateView { levels: self.levels.drop_last(), ..self };
        assert forall|j: int| 0 <= j < self.trail.len() implies self.digit(j) == next.digit(j) by {
            if self.open_decision(j) {
                let i = choose|i: int| 0 <= i < self.levels.len() && #[trigger] self.levels[i] == j;
                assert(i < self.levels.len() - 1);
                assert(next.levels[i] == j);
            }
            if next.open_decision(j) {
                let i = choose|i: int| 0 <= i < next.levels.len() && #[trigger] next.levels[i] == j;
                assert(self.levels[i] == j);
            }
        }
        self.lemma_progress_same(next, self.trail.len() as int);
    }

    /// A return to a decision is progress.
    pub proof fn lemma_measure_backtracked(self)
        requires
            self.wf(),
        ensures
            self.backtracked() matches Some(next) ==> next.measure() > self.measure(),
        decreases self.levels.len(),
    {
        reveal(StateView::wf);
        if self.levels.len() > 0 {
            let level = self.levels.last() as int;
            let pos = self.trail[level].pos as int;
            assert(self.levels[self.levels.len() - 1] < self.trail.len());
            if self.assignment[pos] == BOOL_FALSE {
                self.lemma_drop_level();
                self.lemma_measure_drop();
                (StateView { levels: self.levels.drop_last(), ..self }).lemma_measure_backtracked();
            } else {
                let next = self.backtracked().unwrap();
                let n = self.assignment.len();
                self.lemma_undone(level + 1);
                lemma_trail_length(self);
                assert(self.assignment[pos] == BOOL_TRUE) by {
                    assert(self.trail[level].pos < self.assignment.len());
                    assert(self.assignment[pos] <= 2);
                }
                assert forall|j: int| 0 <= j < level implies self.digit(j) == next.digit(j) by {
                    let p = self.trail[j].pos as int;
                    assert(next.trail[j] == self.trail[j]);
                    assert(self.trail[j].pos != self.trail[level].pos);
                    if self.on_trail(p, level + 1) {
                        let k = choose|k: int|
                            level + 1 <= k < self.trail.len() && (#[trigger] self.trail[k]).pos == p;
                        assert(self.trail[j].pos != self.trail[k].pos);
                    }
                    assert(self.trail[j].pos < self.assignment.len());
                    assert(!self.on_trail(p, level + 1));
                    assert(self.undone(level + 1)[p] == self.assignment[p]);
                    assert(p != pos);
                    assert(next.assignment[p] == self.assignment[p]);
                    assert(next.levels == self.levels);
                    assert(self.open_decision(j) == next.open_decision(j));
                }
                self.lemma_progress_same(next, level);
                assert(self.open_decision(level)) by {
                    assert(self.levels[self.levels.len() - 1] == level);
                }
                assert(!next.open_decision(level));
                assert(next.trail.len() == level + 1);
                self.lemma_progress_bound(level + 1, self.trail.len() as int);
                lemma_pow3_positive((n - self.trail.len()) as nat);
                let w = pow3((n - level - 1) as nat) as int;
                assert(self.progress(level + 1) == self.progress(level) + 1 * w);
                assert(next.progress(level + 1) == next.progress(level) + 2 * w);
            }
        }
    }

    /// The progress of a state is below three to the power of the number of
    /// its atoms.
    pub proof fn lemma_measure_bound(self)
        requires
            self.wf(),
        ensures
            self.measure() < pow3(self.assignment.len()),
    {
        lemma_trail_length(self);
        self.lemma_progress_bound(0, self.trail.len() as int);
        lemma_pow3_positive((self.assignment.len() - self.trail.len()) as nat);
    }
}

/// A power of three is positive.
pub proof fn lemma_pow3_positive(n: nat)
    ensures
        pow3(n) > 0,
    decreases n,
{
    if n > 0 {
        lemma_pow3_positive((n - 1) as nat);
    }
}

} // verus!
