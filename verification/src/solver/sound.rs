//! Unit propagation is sound: a total assignment that keeps the values
//! of a state and makes a clause true keeps the values that a scan of the
//! clause adds.

use crate::bitops::{and_value, BOOL_FALSE, BOOL_TRUE, BOOL_UNDEF, EVAL_FALSE, EVAL_TRUE, EVAL_UNIT};
use crate::shape::{coords_of, volume_of};
use crate::solver::clause::{
    cell_value, lemma_cell_range, lemma_cell_value, lemma_lowest, lowest, lemma_open_count_falls, lemma_open_literal, open_count, open_literal, proper,
    true_count, ClauseView, LiteralView,
};
use crate::bitops::{lemma_fold_neg, lemma_fold_pos};
use crate::solver::exist::{
    fiber_open, fiber_value, lemma_fiber_open, lemma_fiber_range, lemma_fiber_step, ExistView,
};
use crate::solver::state::{ReasonView, StateView};
use vstd::prelude::*;

verus! {

/// Whether every atom is false or true.
pub open spec fn total(assignment: Seq<nat>) -> bool {
    forall|p: int| 0 <= p < assignment.len() ==> #[trigger] assignment[p] == BOOL_FALSE || assignment[p] == BOOL_TRUE
}

/// Whether the second assignment keeps every value of the first.
pub open spec fn extends(first: Seq<nat>, second: Seq<nat>) -> bool {
    &&& second.len() == first.len()
    &&& forall|p: int| 0 <= p < first.len() && first[p] != BOOL_UNDEF ==> #[trigger] second[p] == first[p]
}

/// The value of an atom that makes the literal true.
pub open spec fn pleasing(literal: LiteralView) -> nat {
    if literal.sign {
        BOOL_TRUE as nat
    } else {
        BOOL_FALSE as nat
    }
}

impl ClauseView {
    /// Whether the assignment makes the clause true: whether every cell
    /// is true.
    pub open spec fn holds(self, assignment: Seq<nat>) -> bool {
        forall|index: int|
            0 <= index < volume_of(self.lengths) ==> #[trigger] cell_value(
                self.literals,
                assignment,
                coords_of(self.lengths, index as nat),
                self.literals.len() as int,
            ) == EVAL_TRUE
    }
}

/// Where a literal is true, the count of the true literals is positive,
/// and the other way round.
pub proof fn lemma_true_count(literals: Seq<LiteralView>, assignment: Seq<nat>, coords: Seq<usize>, upto: int)
    requires
        0 <= upto <= literals.len(),
    ensures
        true_count(literals, assignment, coords, upto) > 0 <==> exists|k: int|
            0 <= k < upto && assignment[(#[trigger] literals[k]).position(coords) as int] == pleasing(literals[k]),
    decreases upto,
{
    if upto > 0 {
        lemma_true_count(literals, assignment, coords, upto - 1);
        let last = literals[upto - 1];
        if assignment[last.position(coords) as int] == pleasing(last) {
        } else if true_count(literals, assignment, coords, upto) > 0 {
            let k = choose|k: int|
                0 <= k < upto - 1 && assignment[(#[trigger] literals[k]).position(coords) as int] == pleasing(
                    literals[k],
                );
            assert(0 <= k < upto);
        } else {
            if exists|k: int|
                0 <= k < upto && assignment[(#[trigger] literals[k]).position(coords) as int] == pleasing(literals[k]) {
                let k = choose|k: int|
                    0 <= k < upto && assignment[(#[trigger] literals[k]).position(coords) as int] == pleasing(
                        literals[k],
                    );
                assert(k < upto - 1);
            }
        }
    }
}

/// Where at most one literal is without a value, two literals without
/// a value are one.
pub proof fn lemma_one_open(
    literals: Seq<LiteralView>,
    assignment: Seq<nat>,
    coords: Seq<usize>,
    upto: int,
    j: int,
    k: int,
)
    requires
        0 <= j < upto <= literals.len(),
        0 <= k < upto,
        open_count(literals, assignment, coords, upto) <= 1,
        assignment[literals[j].position(coords) as int] == BOOL_UNDEF,
        assignment[literals[k].position(coords) as int] == BOOL_UNDEF,
    ensures
        j == k,
    decreases upto,
{
    if j < upto - 1 && k < upto - 1 {
        lemma_one_open(literals, assignment, coords, upto - 1, j, k);
    } else if j != k {
        let other = if j < k {
            j
        } else {
            k
        };
        lemma_open_positive(literals, assignment, coords, upto - 1, other);
    }
}

/// A literal without a value makes the count of such literals positive.
pub proof fn lemma_open_positive(
    literals: Seq<LiteralView>,
    assignment: Seq<nat>,
    coords: Seq<usize>,
    upto: int,
    k: int,
)
    requires
        0 <= k < upto <= literals.len(),
        assignment[literals[k].position(coords) as int] == BOOL_UNDEF,
    ensures
        open_count(literals, assignment, coords, upto) > 0,
    decreases upto,
{
    if k < upto - 1 {
        lemma_open_positive(literals, assignment, coords, upto - 1, k);
    }
}

impl ClauseView {
    /// The step at a cell that was a unit when the cells were computed is
    /// forced: a total assignment that keeps the values of the state and
    /// makes the cell true keeps the value that the step adds.
    pub proof fn lemma_unit_sound(self, origin: StateView, state: StateView, index: nat, model: Seq<nat>)
        requires
            self.wf(),
            origin.wf(),
            state.wf(),
            self.within(state.assignment.len()),
            state.assignment.len() <= usize::MAX,
            extends(origin.assignment, state.assignment),
            index < volume_of(self.lengths),
            cell_value(self.literals, origin.assignment, coords_of(self.lengths, index), self.literals.len() as int)
                == EVAL_UNIT,
            extends(state.assignment, model),
            cell_value(self.literals, model, coords_of(self.lengths, index), self.literals.len() as int)
                == EVAL_TRUE,
            forall|p: int| 0 <= p < model.len() ==> #[trigger] model[p] <= 2,
        ensures
            self.unit_step(state, coords_of(self.lengths, index)) matches Some(next) && extends(
                next.assignment,
                model,
            ),
    {
        let coords = coords_of(self.lengths, index);
        let all = self.literals.len() as int;
        let lits = self.literals;
        self.lemma_positions(state.assignment.len(), index);
        origin.lemma_wf();
        state.lemma_wf();
        assert(proper(lits, origin.assignment, coords, all));
        assert(proper(lits, model, coords, all));
        lemma_cell_value(lits, origin.assignment, coords, all);
        lemma_cell_value(lits, model, coords, all);
        lemma_open_count_falls(lits, origin.assignment, state.assignment, coords, all);
        // the one literal that was without a value
        lemma_open_literal(lits, origin.assignment, coords, all);
        let first = open_literal(lits, origin.assignment, coords, all);
        // a literal that the model makes true
        lemma_true_count(lits, model, coords, all);
        lemma_true_count(lits, origin.assignment, coords, all);
        let t = choose|k: int| 0 <= k < all && model[(#[trigger] lits[k]).position(coords) as int] == pleasing(lits[k]);
        let place = lits[t].position(coords) as int;
        if origin.assignment[place] != BOOL_UNDEF {
            assert(state.assignment[place] == origin.assignment[place]);
            assert(model[place] == state.assignment[place]);
            assert(origin.assignment[place] == pleasing(lits[t]));
            assert(false);
        }
        lemma_one_open(lits, origin.assignment, coords, all, t, first);
        if open_count(lits, state.assignment, coords, all) == 1 {
            lemma_open_literal(lits, state.assignment, coords, all);
            let k = open_literal(lits, state.assignment, coords, all);
            let at = lits[k].position(coords) as int;
            if origin.assignment[at] != BOOL_UNDEF {
                assert(state.assignment[at] == origin.assignment[at]);
            }
            lemma_one_open(lits, origin.assignment, coords, all, k, first);
            let next = self.unit_step(state, coords).unwrap();
            assert(at < state.assignment.len());
            assert(next.assignment == state.assignment.update(at, pleasing(lits[k])));
            assert forall|p: int| 0 <= p < next.assignment.len() && next.assignment[p] != BOOL_UNDEF implies #[trigger] model[p]
                == next.assignment[p] by {
                if p != at {
                    assert(next.assignment[p] == state.assignment[p]);
                }
            }
        }
    }

    /// A scan of cells that the assignment of an earlier state evaluates
    /// to is sound: a total assignment that keeps the values of the state
    /// and makes the clause true keeps the values that the scan adds.
    pub proof fn lemma_scan_sound(self, origin: StateView, state: StateView, from: int, status: nat, model: Seq<nat>)
        requires
            self.wf(),
            origin.wf(),
            state.wf(),
            self.within(state.assignment.len()),
            state.assignment.len() <= usize::MAX,
            extends(origin.assignment, state.assignment),
            self.cells == self.evaluated(origin.assignment),
            0 <= from <= self.cells.len(),
            total(model),
            extends(state.assignment, model),
            self.holds(model),
        ensures
            extends(self.scan(state, from, status).state.assignment, model),
        decreases self.cells.len() - from,
    {
        if from < self.cells.len() && self.cells[from] != EVAL_FALSE {
            let next_status = and_value(status, self.cells[from]);
            if self.cells[from] == EVAL_UNIT {
                let coords = coords_of(self.lengths, from as nat);
                assert(cell_value(self.literals, model, coords, self.literals.len() as int) == EVAL_TRUE);
                self.lemma_unit_sound(origin, state, from as nat, model);
                self.lemma_unit_step(state, from as nat);
                let next = self.unit_step(state, coords).unwrap();
                assert forall|p: int|
                    0 <= p < origin.assignment.len() && origin.assignment[p] != BOOL_UNDEF implies #[trigger] next.assignment[p]
                    == origin.assignment[p] by {
                    assert(state.assignment[p] == origin.assignment[p]);
                }
                self.lemma_scan_sound(origin, next, from + 1, next_status, model);
            } else {
                self.lemma_scan_sound(origin, state, from + 1, next_status, model);
            }
        }
    }
}

/// Whether one of the `count` atoms from `start` on is true.
pub open spec fn fiber_true(assignment: Seq<nat>, start: int, count: int) -> bool {
    exists|p: int| start <= p < start + count && #[trigger] assignment[p] == BOOL_TRUE
}

/// A fiber that is false has only false atoms.
pub proof fn lemma_fiber_false(assignment: Seq<nat>, start: int, count: int)
    requires
        forall|p: int| start <= p < start + count ==> #[trigger] assignment[p] <= 2,
        fiber_value(assignment, start, count) == EVAL_FALSE,
    ensures
        forall|p: int| start <= p < start + count ==> #[trigger] assignment[p] == BOOL_FALSE,
    decreases count,
{
    if count > 0 {
        let e = fiber_value(assignment, start, count - 1);
        let b = assignment[start + count - 1];
        assert(b <= 2);
        lemma_fiber_range(assignment, start, count - 1);
        lemma_fold_pos(e, b);
        lemma_fiber_false(assignment, start, count - 1);
    }
}

/// A fiber that is a unit has one atom without a value, and its other
/// atoms are false.
pub proof fn lemma_fiber_unit(assignment: Seq<nat>, start: int, count: int)
    requires
        forall|p: int| start <= p < start + count ==> #[trigger] assignment[p] <= 2,
        fiber_value(assignment, start, count) == EVAL_UNIT,
    ensures
        fiber_open(assignment, start, count) matches Some(pos) && start <= pos < start + count && forall|p: int|
            start <= p < start + count && p != pos ==> #[trigger] assignment[p] == BOOL_FALSE,
    decreases count,
{
    if count > 0 {
        let e = fiber_value(assignment, start, count - 1);
        let b = assignment[start + count - 1];
        assert(b <= 2);
        lemma_fiber_range(assignment, start, count - 1);
        lemma_fold_pos(e, b);
        if b == BOOL_UNDEF {
            lemma_fiber_false(assignment, start, count - 1);
        } else {
            lemma_fiber_unit(assignment, start, count - 1);
        }
    }
}

impl ExistView {
    /// Whether the assignment makes the axiom true: whether every fiber
    /// holds an atom that is true.
    pub open spec fn holds(self, assignment: Seq<nat>) -> bool {
        forall|fiber: int|
            0 <= fiber < self.fibers() ==> fiber_true(assignment, #[trigger] self.fiber_start(fiber), self.block())
    }

    /// A propagation is sound: a total assignment that keeps the values
    /// of the state and makes the axiom true keeps the values that the
    /// propagation adds.
    pub proof fn lemma_sweep_sound(self, state: StateView, from: int, status: nat, model: Seq<nat>)
        requires
            self.wf(),
            state.wf(),
            self.within(state.assignment.len()),
            state.assignment.len() <= usize::MAX,
            0 <= from,
            total(model),
            extends(state.assignment, model),
            self.holds(model),
        ensures
            extends(self.sweep(state, from, status).state.assignment, model),
        decreases self.fibers() - from,
    {
        if from < self.fibers() {
            let start = self.fiber_start(from);
            let value = fiber_value(state.assignment, start, self.block());
            self.lemma_fibers();
            lemma_fiber_step(self.offset as int, self.fibers(), self.block(), from);
            state.lemma_wf();
            if value != EVAL_FALSE {
                let next_status = and_value(status, value);
                if value == EVAL_UNIT {
                    lemma_fiber_unit(state.assignment, start, self.block());
                    let pos = fiber_open(state.assignment, start, self.block()).unwrap();
                    lemma_fiber_open(state.assignment, start, self.block());
                    let next = state.assigned(pos as usize, true, ReasonView::Exists);
                    state.lemma_assigned(pos as usize, true, ReasonView::Exists);
                    assert(fiber_true(model, self.fiber_start(from), self.block()));
                    let p = choose|p: int| start <= p < start + self.block() && #[trigger] model[p] == BOOL_TRUE;
                    if p != pos {
                        assert(state.assignment[p] == BOOL_FALSE);
                        assert(model[p] == state.assignment[p]);
                    }
                    assert forall|q: int| 0 <= q < next.assignment.len() && next.assignment[q] != BOOL_UNDEF implies #[trigger] model[q]
                        == next.assignment[q] by {
                        if q != pos {
                            assert(next.assignment[q] == state.assignment[q]);
                        }
                    }
                    self.lemma_sweep_sound(next, from + 1, next_status, model);
                } else {
                    self.lemma_sweep_sound(state, from + 1, next_status, model);
                }
            }
        }
    }
}

/// A cell that is false stays false when more atoms get values.
pub proof fn lemma_cell_false(
    literals: Seq<LiteralView>,
    origin: Seq<nat>,
    later: Seq<nat>,
    coords: Seq<usize>,
    upto: int,
)
    requires
        0 <= upto <= literals.len(),
        forall|k: int| 0 <= k < upto ==> (#[trigger] literals[k]).position(coords) < origin.len(),
        proper(literals, origin, coords, upto),
        extends(origin, later),
        cell_value(literals, origin, coords, upto) == EVAL_FALSE,
    ensures
        cell_value(literals, later, coords, upto) == EVAL_FALSE,
    decreases upto,
{
    if upto > 0 {
        let lit = literals[upto - 1];
        let e = cell_value(literals, origin, coords, upto - 1);
        let b = origin[lit.position(coords) as int];
        assert(b <= 2);
        lemma_cell_range(literals, origin, coords, upto - 1);
        lemma_fold_pos(e, b);
        lemma_fold_neg(e, b);
        assert(later[lit.position(coords) as int] == b);
        lemma_cell_false(literals, origin, later, coords, upto - 1);
    }
}

/// A cell that is true stays true when more atoms get values.
pub proof fn lemma_cell_true(
    literals: Seq<LiteralView>,
    origin: Seq<nat>,
    later: Seq<nat>,
    coords: Seq<usize>,
    upto: int,
)
    requires
        0 <= upto <= literals.len(),
        forall|k: int| 0 <= k < upto ==> (#[trigger] literals[k]).position(coords) < origin.len(),
        proper(literals, origin, coords, upto),
        proper(literals, later, coords, upto),
        extends(origin, later),
        cell_value(literals, origin, coords, upto) == EVAL_TRUE,
    ensures
        cell_value(literals, later, coords, upto) == EVAL_TRUE,
    decreases upto,
{
    if upto > 0 {
        let lit = literals[upto - 1];
        let e = cell_value(literals, origin, coords, upto - 1);
        let b = origin[lit.position(coords) as int];
        let e2 = cell_value(literals, later, coords, upto - 1);
        let b2 = later[lit.position(coords) as int];
        assert(b <= 2);
        assert(b2 <= 2);
        lemma_cell_range(literals, origin, coords, upto - 1);
        lemma_cell_range(literals, later, coords, upto - 1);
        lemma_fold_pos(e, b);
        lemma_fold_neg(e, b);
        lemma_fold_pos(e2, b2);
        lemma_fold_neg(e2, b2);
        if e == EVAL_TRUE {
            lemma_cell_true(literals, origin, later, coords, upto - 1);
        } else {
            assert(b != BOOL_UNDEF);
            assert(b2 == b);
        }
    }
}

/// A fiber that is true holds an atom that is true.
pub proof fn lemma_fiber_true(assignment: Seq<nat>, start: int, count: int)
    requires
        forall|p: int| start <= p < start + count ==> #[trigger] assignment[p] <= 2,
        fiber_value(assignment, start, count) == EVAL_TRUE,
    ensures
        fiber_true(assignment, start, count),
    decreases count,
{
    if count > 0 {
        let e = fiber_value(assignment, start, count - 1);
        let b = assignment[start + count - 1];
        assert(b <= 2);
        lemma_fiber_range(assignment, start, count - 1);
        lemma_fold_pos(e, b);
        if b == BOOL_TRUE {
            assert(assignment[start + count - 1] == BOOL_TRUE);
        } else {
            lemma_fiber_true(assignment, start, count - 1);
            let p = choose|p: int| start <= p < start + count - 1 && #[trigger] assignment[p] == BOOL_TRUE;
            assert(start <= p < start + count);
        }
    }
}

impl ClauseView {
    /// No assignment that keeps the values of an assignment under which a
    /// cell is false makes the clause true.
    pub proof fn lemma_refuted(self, origin: StateView, index: nat, model: Seq<nat>)
        requires
            self.wf(),
            origin.wf(),
            self.within(origin.assignment.len()),
            index < volume_of(self.lengths),
            cell_value(self.literals, origin.assignment, coords_of(self.lengths, index), self.literals.len() as int)
                == EVAL_FALSE,
            extends(origin.assignment, model),
        ensures
            !self.holds(model),
    {
        let coords = coords_of(self.lengths, index);
        let all = self.literals.len() as int;
        self.lemma_positions(origin.assignment.len(), index);
        origin.lemma_wf();
        assert(proper(self.literals, origin.assignment, coords, all));
        lemma_cell_false(self.literals, origin.assignment, model, coords, all);
        if self.holds(model) {
            let i = index as int;
            assert(i as nat == index);
            assert(cell_value(self.literals, model, coords_of(self.lengths, i as nat), all) == EVAL_TRUE);
        }
    }

    /// A total assignment that keeps the values of an assignment under
    /// which every cell is true makes the clause true.
    pub proof fn lemma_kept(self, origin: StateView, model: Seq<nat>)
        requires
            self.wf(),
            origin.wf(),
            self.within(origin.assignment.len()),
            lowest(self.evaluated(origin.assignment)) == EVAL_TRUE,
            extends(origin.assignment, model),
            total(model),
        ensures
            self.holds(model),
    {
        let all = self.literals.len() as int;
        let cells = self.evaluated(origin.assignment);
        lemma_lowest(cells);
        origin.lemma_wf();
        assert forall|index: int| 0 <= index < volume_of(self.lengths) implies #[trigger] cell_value(
            self.literals,
            model,
            coords_of(self.lengths, index as nat),
            all,
        ) == EVAL_TRUE by {
            let coords = coords_of(self.lengths, index as nat);
            self.lemma_positions(origin.assignment.len(), index as nat);
            lemma_cell_range(self.literals, origin.assignment, coords, all);
            assert(cells[index] == cell_value(self.literals, origin.assignment, coords, all));
            assert(lowest(cells) <= cells[index]);
            assert(proper(self.literals, origin.assignment, coords, all));
            assert(proper(self.literals, model, coords, all)) by {
                assert forall|k: int| 0 <= k < all implies model[(#[trigger] self.literals[k]).position(coords) as int]
                    <= 2 by {
                    let p = self.literals[k].position(coords) as int;
                    assert(model[p] == BOOL_FALSE || model[p] == BOOL_TRUE);
                }
            }
            lemma_cell_true(self.literals, origin.assignment, model, coords, all);
        }
    }
}

} // verus!
