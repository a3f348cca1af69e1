//! What the search owes to the models of a theory: propagation keeps
//! every model that it could still reach, a false status rules all of
//! them out, and a solution stands for models only.

use crate::bitops::{BOOL_FALSE, BOOL_TRUE, BOOL_UNDEF, EVAL_FALSE, EVAL_TRUE};
use crate::solver::clause::{lemma_lowest, lowest};
use crate::solver::driver::{exists_status, is_model, lemma_exists_status_range, same_theory, SolverView};
use crate::solver::exist::{fiber_status, fiber_value, lemma_fiber_range, lemma_fiber_step, ExistView};
use crate::solver::sound::{extends, fiber_true, lemma_fiber_false, lemma_fiber_true, total};
use crate::solver::state::StateView;
use vstd::prelude::*;

verus! {

/// Whether the assignment makes every clause and every axiom of existence
/// of the solver true.
pub open spec fn satisfies(solver: SolverView, model: Seq<nat>) -> bool {
    &&& forall|c: int| 0 <= c < solver.clauses.len() ==> (#[trigger] solver.clauses[c]).holds(model)
    &&& forall|e: int| 0 <= e < solver.exists.len() ==> (#[trigger] solver.exists[e]).holds(model)
}

/// Whether every model of the solver that keeps the values of the first
/// assignment keeps the values of the second.
pub open spec fn forced(solver: SolverView, before: Seq<nat>, after: Seq<nat>) -> bool {
    forall|model: Seq<nat>|
        total(model) && extends(before, model) && #[trigger] satisfies(solver, model) ==> extends(after, model)
}

/// Whether no model of the solver keeps the values of the assignment.
pub open spec fn hopeless(solver: SolverView, assignment: Seq<nat>) -> bool {
    forall|model: Seq<nat>| total(model) && extends(assignment, model) ==> !#[trigger] satisfies(solver, model)
}

/// What stands in the cells of the clauses does not matter for the models.
pub proof fn lemma_satisfies_theory(a: SolverView, b: SolverView, model: Seq<nat>)
    requires
        same_theory(a, b),
    ensures
        satisfies(a, model) == satisfies(b, model),
{
    if satisfies(a, model) {
        assert forall|c: int| 0 <= c < b.clauses.len() implies (#[trigger] b.clauses[c]).holds(model) by {
            assert(a.clauses[c].holds(model));
            assert(b.clauses[c].literals == a.clauses[c].literals);
            assert(b.clauses[c].lengths == a.clauses[c].lengths);
        }
    }
    if satisfies(b, model) {
        assert forall|c: int| 0 <= c < a.clauses.len() implies (#[trigger] a.clauses[c]).holds(model) by {
            assert(b.clauses[c].holds(model));
            assert(b.clauses[c].literals == a.clauses[c].literals);
            assert(b.clauses[c].lengths == a.clauses[c].lengths);
        }
    }
}

/// Keeping values is transitive.
pub proof fn lemma_extends(first: Seq<nat>, second: Seq<nat>, third: Seq<nat>)
    requires
        extends(first, second),
        extends(second, third),
    ensures
        extends(first, third),
{
    assert forall|p: int| 0 <= p < first.len() && first[p] != BOOL_UNDEF implies #[trigger] third[p] == first[p] by {
        assert(second[p] == first[p]);
    }
}

/// What was forced in two steps was forced.
pub proof fn lemma_forced_step(solver: SolverView, first: Seq<nat>, second: Seq<nat>, third: Seq<nat>)
    requires
        forced(solver, first, second),
        forced(solver, second, third),
    ensures
        forced(solver, first, third),
{
}

/// What is forced in a solver is forced in every solver of the same
/// theory.
pub proof fn lemma_forced_theory(a: SolverView, b: SolverView, before: Seq<nat>, after: Seq<nat>)
    requires
        same_theory(a, b),
        forced(b, before, after),
    ensures
        forced(a, before, after),
{
    assert forall|model: Seq<nat>|
        total(model) && extends(before, model) && #[trigger] satisfies(a, model) implies extends(after, model) by {
        lemma_satisfies_theory(a, b, model);
    }
}

/// The scan of a clause whose cells the assignment evaluates to adds
/// forced values only.
pub proof fn lemma_scan_forced(solver: SolverView, c: int)
    requires
        solver.wf(),
        0 <= c < solver.clauses.len(),
        solver.clauses[c].cells == solver.clauses[c].evaluated(solver.state.assignment),
    ensures
        forced(
            solver,
            solver.state.assignment,
            solver.clauses[c].scan(solver.state, 0, EVAL_TRUE as nat).state.assignment,
        ),
{
    let clause = solver.clauses[c];
    solver.lemma_clause_within(c);
    solver.lemma_domain_free();
    assert forall|model: Seq<nat>|
        total(model) && extends(solver.state.assignment, model) && #[trigger] satisfies(solver, model) implies extends(
        clause.scan(solver.state, 0, EVAL_TRUE as nat).state.assignment,
        model,
    ) by {
        assert(clause.holds(model));
        clause.lemma_scan_sound(solver.state, solver.state, 0, EVAL_TRUE as nat, model);
    }
}

/// The propagation of an axiom of existence adds forced values only.
pub proof fn lemma_sweep_forced(solver: SolverView, state: StateView, e: int)
    requires
        solver.wf(),
        state.wf(),
        state.assignment.len() == solver.state.assignment.len(),
        0 <= e < solver.exists.len(),
    ensures
        forced(solver, state.assignment, solver.exists[e].sweep(state, 0, EVAL_TRUE as nat).state.assignment),
{
    let exist = solver.exists[e];
    solver.lemma_exist(e);
    solver.lemma_domain_free();
    assert forall|model: Seq<nat>|
        total(model) && extends(state.assignment, model) && #[trigger] satisfies(solver, model) implies extends(
        exist.sweep(state, 0, EVAL_TRUE as nat).state.assignment,
        model,
    ) by {
        assert(exist.holds(model));
        exist.lemma_sweep_sound(state, 0, EVAL_TRUE as nat, model);
    }
}

/// A clause with a false cell, computed under an assignment whose values
/// a later one keeps, rules out every model that keeps the values of the
/// later one.
pub proof fn lemma_false_clause(solver: SolverView, c: int, origin: StateView, later: Seq<nat>)
    requires
        solver.wf(),
        0 <= c < solver.clauses.len(),
        origin.wf(),
        origin.assignment.len() == solver.state.assignment.len(),
        solver.clauses[c].cells == solver.clauses[c].evaluated(origin.assignment),
        lowest(solver.clauses[c].cells) == EVAL_FALSE,
        extends(origin.assignment, later),
    ensures
        hopeless(solver, later),
{
    let clause = solver.clauses[c];
    solver.lemma_clause_within(c);
    lemma_lowest(clause.cells);
    let j = choose|j: int| 0 <= j < clause.cells.len() && #[trigger] clause.cells[j] == lowest(clause.cells);
    assert forall|model: Seq<nat>| total(model) && extends(later, model) implies !#[trigger] satisfies(
        solver,
        model,
    ) by {
        lemma_extends(origin.assignment, later, model);
        clause.lemma_refuted(origin, j as nat, model);
    }
}

/// A status that is false comes from a fiber that is false.
pub proof fn lemma_false_fiber(exist: ExistView, assignment: Seq<nat>, upto: int)
    requires
        exist.status(assignment, upto) == EVAL_FALSE,
    ensures
        exists|fiber: int|
            0 <= fiber < upto && #[trigger] fiber_value(assignment, exist.fiber_start(fiber), exist.block())
                == EVAL_FALSE,
    decreases upto,
{
    if upto > 0 {
        if fiber_status(assignment, exist.fiber_start(upto - 1), exist.block()) == EVAL_FALSE {
            assert(fiber_value(assignment, exist.fiber_start(upto - 1), exist.block()) == EVAL_FALSE);
        } else {
            lemma_false_fiber(exist, assignment, upto - 1);
            let fiber = choose|fiber: int|
                0 <= fiber < upto - 1 && #[trigger] fiber_value(assignment, exist.fiber_start(fiber), exist.block())
                    == EVAL_FALSE;
            assert(0 <= fiber < upto);
        }
    }
}

/// A status that is true comes from fibers that are true.
pub proof fn lemma_true_fibers(exist: ExistView, assignment: Seq<nat>, upto: int, fiber: int)
    requires
        exist.status(assignment, upto) == EVAL_TRUE,
        0 <= fiber < upto,
    ensures
        fiber_value(assignment, exist.fiber_start(fiber), exist.block()) == EVAL_TRUE,
    decreases upto,
{
    lemma_fiber_range(assignment, exist.fiber_start(upto - 1), exist.block());
    lemma_exist_range(exist, assignment, upto - 1);
    if fiber < upto - 1 {
        lemma_true_fibers(exist, assignment, upto - 1, fiber);
    }
}

/// The status of an axiom of existence is an evaluation value.
pub proof fn lemma_exist_range(exist: ExistView, assignment: Seq<nat>, upto: int)
    ensures
        exist.status(assignment, upto) <= 3,
    decreases upto,
{
    if upto > 0 {
        lemma_exist_range(exist, assignment, upto - 1);
    }
}

/// The status of some axioms that is false comes from an axiom whose
/// status is false, one that is true from axioms whose status is true.
pub proof fn lemma_exists_witness(exists: Seq<ExistView>, assignment: Seq<nat>, upto: int)
    requires
        0 <= upto <= exists.len(),
    ensures
        exists_status(exists, assignment, upto) == EVAL_FALSE ==> exists|e: int|
            0 <= e < upto && (#[trigger] exists[e]).status(assignment, exists[e].fibers()) == EVAL_FALSE,
        exists_status(exists, assignment, upto) == EVAL_TRUE ==> forall|e: int|
            0 <= e < upto ==> (#[trigger] exists[e]).status(assignment, exists[e].fibers()) == EVAL_TRUE,
    decreases upto,
{
    if upto > 0 {
        lemma_exists_witness(exists, assignment, upto - 1);
        lemma_exist_range(exists[upto - 1], assignment, exists[upto - 1].fibers());
        lemma_exists_status_range(exists, assignment, upto - 1);
        if exists_status(exists, assignment, upto) == EVAL_FALSE {
            if exists[upto - 1].status(assignment, exists[upto - 1].fibers()) == EVAL_FALSE {
            } else {
                let e = choose|e: int|
                    0 <= e < upto - 1 && (#[trigger] exists[e]).status(assignment, exists[e].fibers()) == EVAL_FALSE;
                assert(0 <= e < upto);
            }
        }
    }
}

/// Axioms of existence whose status is false rule out every model that
/// keeps the values of the assignment.
pub proof fn lemma_false_exists(solver: SolverView)
    requires
        solver.wf(),
        exists_status(solver.exists, solver.state.assignment, solver.exists.len() as int) == EVAL_FALSE,
    ensures
        hopeless(solver, solver.state.assignment),
{
    let assignment = solver.state.assignment;
    lemma_exists_witness(solver.exists, assignment, solver.exists.len() as int);
    let e = choose|e: int|
        0 <= e < solver.exists.len() && (#[trigger] solver.exists[e]).status(assignment, solver.exists[e].fibers())
            == EVAL_FALSE;
    let exist = solver.exists[e];
    lemma_false_fiber(exist, assignment, exist.fibers());
    let fiber = choose|fiber: int|
        0 <= fiber < exist.fibers() && #[trigger] fiber_value(assignment, exist.fiber_start(fiber), exist.block())
            == EVAL_FALSE;
    let start = exist.fiber_start(fiber);
    solver.lemma_exist(e);
    solver.lemma_domain_free();
    solver.state.lemma_wf();
    exist.lemma_fibers();
    lemma_fiber_step(exist.offset as int, exist.fibers(), exist.block(), fiber);
    lemma_fiber_false(assignment, start, exist.block());
    assert forall|model: Seq<nat>| total(model) && extends(assignment, model) implies !#[trigger] satisfies(
        solver,
        model,
    ) by {
        if exist.holds(model) {
            assert(fiber_true(model, exist.fiber_start(fiber), exist.block()));
            let p = choose|p: int| start <= p < start + exist.block() && #[trigger] model[p] == BOOL_TRUE;
            assert(assignment[p] == BOOL_FALSE);
            assert(model[p] == assignment[p]);
        }
    }
}

/// A solution stands for models only: every total assignment that keeps
/// the values of an assignment that makes every clause and every axiom of
/// existence true is a model.
pub proof fn lemma_solution(solver: SolverView, origin: StateView, model: Seq<nat>)
    requires
        solver.wf(),
        origin.wf(),
        origin.assignment.len() == solver.state.assignment.len(),
        is_model(solver, origin.assignment),
        extends(origin.assignment, model),
        total(model),
    ensures
        satisfies(solver, model),
{
    let assignment = origin.assignment;
    origin.lemma_wf();
    assert forall|c: int| 0 <= c < solver.clauses.len() implies (#[trigger] solver.clauses[c]).holds(model) by {
        solver.lemma_clause_within(c);
        solver.clauses[c].lemma_kept(origin, model);
    }
    lemma_exists_witness(solver.exists, assignment, solver.exists.len() as int);
    assert forall|e: int| 0 <= e < solver.exists.len() implies (#[trigger] solver.exists[e]).holds(model) by {
        let exist = solver.exists[e];
        solver.lemma_exist(e);
        exist.lemma_fibers();
        assert forall|fiber: int| 0 <= fiber < exist.fibers() implies fiber_true(
            model,
            #[trigger] exist.fiber_start(fiber),
            exist.block(),
        ) by {
            let start = exist.fiber_start(fiber);
            lemma_true_fibers(exist, assignment, exist.fibers(), fiber);
            lemma_fiber_step(exist.offset as int, exist.fibers(), exist.block(), fiber);
            lemma_fiber_true(assignment, start, exist.block());
            let p = choose|p: int| start <= p < start + exist.block() && #[trigger] assignment[p] == BOOL_TRUE;
            assert(model[p] == assignment[p]);
        }
    }
}

/// The assignment of the branch that opens when the decision of the
/// level `i` is turned: the later steps are undone, and the atom of the
/// decision is false.
pub open spec fn turned(state: StateView, i: int) -> Seq<nat> {
    let level = state.levels[i] as int;
    state.undone(level + 1).update(state.trail[level].pos as int, BOOL_FALSE as nat)
}

/// Whether the decision of the level `i` is not turned yet.
pub open spec fn open_level(state: StateView, i: int) -> bool {
    &&& 0 <= i < state.levels.len()
    &&& state.assignment[state.trail[state.levels[i] as int].pos as int] == BOOL_TRUE
}

/// Whether the search can still reach the model from the state: the model
/// keeps the values of the assignment, or those of a branch that opens
/// when a decision is turned.
pub open spec fn pending(state: StateView, model: Seq<nat>) -> bool {
    ||| extends(state.assignment, model)
    ||| exists|i: int| open_level(state, i) && extends(#[trigger] turned(state, i), model)
}

/// Whether the second state goes on from the first: it has the same
/// atoms, its trail and its levels begin with those of the first, and
/// every atom that had a value has kept it.
pub open spec fn grows(before: StateView, after: StateView) -> bool {
    &&& after.assignment.len() == before.assignment.len()
    &&& after.levels.len() >= before.levels.len()
    &&& after.levels.take(before.levels.len() as int) == before.levels
    &&& after.trail.len() >= before.trail.len()
    &&& after.trail.take(before.trail.len() as int) == before.trail
    &&& extends(before.assignment, after.assignment)
}

/// The branches of the levels of a state stay what they are when the
/// state goes on.
pub proof fn lemma_turned_kept(before: StateView, after: StateView, i: int)
    requires
        before.wf(),
        after.wf(),
        grows(before, after),
        0 <= i < before.levels.len(),
    ensures
        turned(after, i) == turned(before, i),
        open_level(before, i) ==> open_level(after, i),
{
    reveal(StateView::wf);
    assert(after.levels.take(before.levels.len() as int)[i] == before.levels[i]);
    let level = before.levels[i] as int;
    let from = level + 1;
    assert(after.trail.take(before.trail.len() as int)[level] == before.trail[level]);
    before.lemma_undone(from);
    after.lemma_undone(from);
    let a = before.undone(from);
    let b = after.undone(from);
    assert forall|p: int| 0 <= p < a.len() implies a[p] == b[p] by {
        if before.on_trail(p, from) {
            let j = choose|j: int| from <= j < before.trail.len() && (#[trigger] before.trail[j]).pos == p;
            assert(after.trail.take(before.trail.len() as int)[j] == before.trail[j]);
            assert(after.trail[j].pos == p);
            assert(after.on_trail(p, from));
        } else if after.on_trail(p, from) {
            let j = choose|j: int| from <= j < after.trail.len() && (#[trigger] after.trail[j]).pos == p;
            if j < before.trail.len() {
                assert(after.trail.take(before.trail.len() as int)[j] == before.trail[j]);
                assert(before.trail[j].pos == p);
            }
            if before.assignment[p] != BOOL_UNDEF {
                assert(before.on_trail(p, 0));
                let k = choose|k: int| 0 <= k < before.trail.len() && (#[trigger] before.trail[k]).pos == p;
                assert(after.trail.take(before.trail.len() as int)[k] == before.trail[k]);
                assert(after.trail[k].pos == after.trail[j].pos);
            }
        } else {
            if before.assignment[p] == BOOL_UNDEF && after.assignment[p] != BOOL_UNDEF {
                assert(after.on_trail(p, 0));
                let j = choose|j: int| 0 <= j < after.trail.len() && (#[trigger] after.trail[j]).pos == p;
                assert(j < from);
                assert(after.trail.take(before.trail.len() as int)[j] == before.trail[j]);
                assert(before.trail[j].pos == p);
            }
        }
    }
    assert(a =~= b);
    if open_level(before, i) {
        let pos = before.trail[level].pos as int;
        assert(after.assignment[pos] == before.assignment[pos]);
    }
}

/// A model that can be reached from a state can be reached from a state
/// that goes on from it, if it keeps the values that were added.
pub proof fn lemma_pending_grows(before: StateView, after: StateView, model: Seq<nat>)
    requires
        before.wf(),
        after.wf(),
        grows(before, after),
        pending(before, model),
        extends(before.assignment, model) ==> pending(after, model),
    ensures
        pending(after, model),
{
    if !extends(before.assignment, model) {
        let i = choose|i: int| open_level(before, i) && extends(#[trigger] turned(before, i), model);
        lemma_turned_kept(before, after, i);
        assert(open_level(after, i) && extends(turned(after, i), model));
    }
}

/// A total model that can be reached from a state can be reached after
/// the first atom without a value was decided.
pub proof fn lemma_pending_decided(state: StateView, pos: usize, model: Seq<nat>)
    requires
        state.wf(),
        state.assignment.len() <= usize::MAX,
        pos < state.assignment.len(),
        state.assignment[pos as int] == BOOL_UNDEF,
        model.len() == state.assignment.len(),
        total(model),
        pending(state, model),
    ensures
        pending(state.decided(pos), model),
{
    let after = state.decided(pos);
    state.lemma_decided(pos);
    state.lemma_wf();
    reveal(StateView::wf);
    assert(after.levels.take(state.levels.len() as int) =~= state.levels);
    assert(after.trail.take(state.trail.len() as int) =~= state.trail);
    assert(grows(state, after));
    if extends(state.assignment, model) {
        if model[pos as int] == BOOL_TRUE {
            assert(extends(after.assignment, model));
        } else {
            let i = state.levels.len() as int;
            after.lemma_undone(after.trail.len() as int);
            assert(after.levels[i] == state.trail.len());
            assert(after.trail[state.trail.len() as int].pos == pos);
            let branch = turned(after, i);
            assert forall|p: int| 0 <= p < branch.len() && branch[p] != BOOL_UNDEF implies #[trigger] model[p]
                == branch[p] by {
                if p != pos {
                    assert(!after.on_trail(p, after.trail.len() as int));
                    assert(branch[p] == after.assignment[p]);
                    assert(after.assignment[p] == state.assignment[p]);
                }
            }
            assert(open_level(after, i) && extends(turned(after, i), model));
        }
    }
    lemma_pending_grows(state, after, model);
}

/// A model that can be reached from a state, but does not keep the values
/// of its assignment, can be reached after the return to the last decision
/// that was not turned; and there is such a decision.
pub proof fn lemma_pending_backtracked(state: StateView, model: Seq<nat>)
    requires
        state.wf(),
        pending(state, model),
        !extends(state.assignment, model),
    ensures
        state.backtracked() matches Some(next) && pending(next, model),
    decreases state.levels.len(),
{
    reveal(StateView::wf);
    let i = choose|i: int| open_level(state, i) && extends(#[trigger] turned(state, i), model);
    let last = state.levels.len() - 1;
    let level = state.levels[last] as int;
    let pos = state.trail[level].pos as int;
    if state.assignment[pos] == BOOL_FALSE {
        let rest = StateView { levels: state.levels.drop_last(), ..state };
        state.lemma_drop_level();
        assert(i < last);
        assert(rest.levels[i] == state.levels[i]);
        assert(turned(rest, i) == turned(state, i));
        assert(open_level(rest, i) && extends(turned(rest, i), model));
        lemma_pending_backtracked(rest, model);
    } else {
        let next = state.backtracked().unwrap();
        state.lemma_backtracked();
        if i == last {
            assert(next.assignment == turned(state, i));
        } else {
            let at = state.trail[state.levels[i] as int].pos as int;
            assert(state.levels[i] < state.levels[last]);
            state.lemma_undone(level + 1);
            lemma_turned_returned(state, i);
            assert(at != pos);
            if state.on_trail(at, level + 1) {
                let j = choose|j: int| level + 1 <= j < state.trail.len() && (#[trigger] state.trail[j]).pos == at;
                assert(state.trail[state.levels[i] as int].pos != state.trail[j].pos);
            }
            assert(next.assignment[at] == state.assignment[at]);
            assert(open_level(next, i) && extends(turned(next, i), model));
        }
    }
}

/// Whether the model keeps the values of one of the found assignments.
pub open spec fn covered(found: Seq<Seq<nat>>, model: Seq<nat>) -> bool {
    exists|k: int| 0 <= k < found.len() && extends(#[trigger] found[k], model)
}

/// Whether no model was lost: every model of the solver that keeps the
/// values of the assignment `start` keeps those of a found assignment, or
/// can still be reached from the state.
pub open spec fn keeps_models(solver: SolverView, start: Seq<nat>, found: Seq<Seq<nat>>, state: StateView) -> bool {
    forall|model: Seq<nat>|
        total(model) && extends(start, model) && #[trigger] satisfies(solver, model) ==> covered(found, model)
            || pending(state, model)
}

/// Whether every model of the solver that keeps the values of the
/// assignment `start` keeps those of a found assignment.
pub open spec fn exhaustive(solver: SolverView, start: Seq<nat>, found: Seq<Seq<nat>>) -> bool {
    forall|model: Seq<nat>|
        total(model) && extends(start, model) && #[trigger] satisfies(solver, model) ==> covered(found, model)
}

/// What is hopeless in a solver is hopeless in every solver of the same
/// theory.
pub proof fn lemma_hopeless_theory(a: SolverView, b: SolverView, assignment: Seq<nat>)
    requires
        same_theory(a, b),
        hopeless(b, assignment),
    ensures
        hopeless(a, assignment),
{
    assert forall|model: Seq<nat>| total(model) && extends(assignment, model) implies !#[trigger] satisfies(
        a,
        model,
    ) by {
        lemma_satisfies_theory(a, b, model);
    }
}

/// At the start every model can be reached.
pub proof fn lemma_kept_start(solver: SolverView, state: StateView)
    ensures
        keeps_models(solver, state.assignment, Seq::empty(), state),
{
}

/// No model is lost when forced values are added.
pub proof fn lemma_kept_forced(
    solver: SolverView,
    start: Seq<nat>,
    found: Seq<Seq<nat>>,
    before: StateView,
    after: StateView,
)
    requires
        keeps_models(solver, start, found, before),
        before.wf(),
        after.wf(),
        grows(before, after),
        forced(solver, before.assignment, after.assignment),
    ensures
        keeps_models(solver, start, found, after),
{
    assert forall|model: Seq<nat>|
        total(model) && extends(start, model) && #[trigger] satisfies(solver, model) implies covered(found, model)
        || pending(after, model) by {
        if !covered(found, model) {
            lemma_pending_grows(before, after, model);
        }
    }
}

/// No model is lost when the first atom without a value is decided.
pub proof fn lemma_kept_decided(
    solver: SolverView,
    start: Seq<nat>,
    found: Seq<Seq<nat>>,
    state: StateView,
    pos: usize,
)
    requires
        keeps_models(solver, start, found, state),
        state.wf(),
        state.assignment.len() <= usize::MAX,
        start.len() == state.assignment.len(),
        pos < state.assignment.len(),
        state.assignment[pos as int] == BOOL_UNDEF,
    ensures
        keeps_models(solver, start, found, state.decided(pos)),
{
    assert forall|model: Seq<nat>|
        total(model) && extends(start, model) && #[trigger] satisfies(solver, model) implies covered(found, model)
        || pending(state.decided(pos), model) by {
        if !covered(found, model) {
            lemma_pending_decided(state, pos, model);
        }
    }
}

/// No model is lost when an assignment is found.
pub proof fn lemma_kept_found(solver: SolverView, start: Seq<nat>, found: Seq<Seq<nat>>, state: StateView)
    requires
        keeps_models(solver, start, found, state),
    ensures
        keeps_models(solver, start, found.push(state.assignment), state),
{
    let more = found.push(state.assignment);
    assert forall|model: Seq<nat>|
        total(model) && extends(start, model) && #[trigger] satisfies(solver, model) implies covered(more, model)
        || pending(state, model) by {
        if covered(found, model) {
            let k = choose|k: int| 0 <= k < found.len() && extends(#[trigger] found[k], model);
            assert(more[k] == found[k]);
        }
    }
}

/// No model is lost in the return to the last decision that was not
/// turned, after a state without models or a state that was found; when
/// no decision is left, every model keeps the values of a found
/// assignment.
pub proof fn lemma_kept_turned(solver: SolverView, start: Seq<nat>, found: Seq<Seq<nat>>, state: StateView)
    requires
        keeps_models(solver, start, found, state),
        state.wf(),
        hopeless(solver, state.assignment) || (found.len() > 0 && found.last() == state.assignment),
    ensures
        match state.backtracked() {
            Some(next) => keeps_models(solver, start, found, next),
            None => exhaustive(solver, start, found),
        },
{
    assert forall|model: Seq<nat>|
        total(model) && extends(start, model) && #[trigger] satisfies(solver, model) && !covered(
            found,
            model,
        ) implies (state.backtracked() matches Some(next) && pending(next, model)) by {
        if extends(state.assignment, model) {
            assert(found.len() > 0 && found.last() == state.assignment);
            assert(extends(found[found.len() - 1], model));
        }
        lemma_pending_backtracked(state, model);
    }
}

/// Whether no assignment keeps the values of two of the found
/// assignments.
pub open spec fn apart(found: Seq<Seq<nat>>) -> bool {
    forall|j: int, k: int, model: Seq<nat>|
        #![trigger extends(found[j], model), extends(found[k], model)]
        0 <= j < k < found.len() && extends(found[j], model) ==> !extends(found[k], model)
}

/// Whether the search is done with the found assignments: no assignment
/// that keeps the values of one of them can be reached from the state.
pub open spec fn behind(found: Seq<Seq<nat>>, state: StateView) -> bool {
    forall|k: int, model: Seq<nat>| 0 <= k < found.len() && #[trigger] extends(found[k], model) ==> !pending(state, model)
}

/// What can be reached from a state that goes on from another one with
/// the same levels could be reached from that one.
pub proof fn lemma_pending_before(before: StateView, after: StateView, model: Seq<nat>)
    requires
        before.wf(),
        after.wf(),
        grows(before, after),
        after.levels.len() == before.levels.len(),
        pending(after, model),
    ensures
        pending(before, model),
{
    reveal(StateView::wf);
    if extends(after.assignment, model) {
        lemma_extends(before.assignment, after.assignment, model);
    } else {
        let i = choose|i: int| open_level(after, i) && extends(#[trigger] turned(after, i), model);
        lemma_turned_kept(before, after, i);
        assert(after.levels.take(before.levels.len() as int)[i] == before.levels[i]);
        let level = before.levels[i] as int;
        assert(after.trail.take(before.trail.len() as int)[level] == before.trail[level]);
        let pos = before.trail[level].pos as int;
        assert(before.assignment[pos] != BOOL_UNDEF);
        assert(after.assignment[pos] == before.assignment[pos]);
        assert(open_level(before, i) && extends(turned(before, i), model));
    }
}

/// What can be reached after a decision could be reached before it.
pub proof fn lemma_pending_undecided(state: StateView, pos: usize, model: Seq<nat>)
    requires
        state.wf(),
        state.assignment.len() <= usize::MAX,
        pos < state.assignment.len(),
        state.assignment[pos as int] == BOOL_UNDEF,
        pending(state.decided(pos), model),
    ensures
        pending(state, model),
{
    let after = state.decided(pos);
    state.lemma_decided(pos);
    state.lemma_wf();
    reveal(StateView::wf);
    assert(after.levels.take(state.levels.len() as int) =~= state.levels);
    assert(after.trail.take(state.trail.len() as int) =~= state.trail);
    assert(grows(state, after));
    if extends(after.assignment, model) {
        lemma_extends(state.assignment, after.assignment, model);
    } else {
        let i = choose|i: int| open_level(after, i) && extends(#[trigger] turned(after, i), model);
        if i == state.levels.len() {
            after.lemma_undone(after.trail.len() as int);
            assert(after.levels[i] == state.trail.len());
            assert(after.trail[state.trail.len() as int].pos == pos);
            let branch = turned(after, i);
            assert forall|p: int| 0 <= p < state.assignment.len() && state.assignment[p] != BOOL_UNDEF implies #[trigger] model[p]
                == state.assignment[p] by {
                assert(p != pos);
                assert(!after.on_trail(p, after.trail.len() as int));
                assert(branch[p] == after.assignment[p]);
            }
        } else {
            lemma_turned_kept(state, after, i);
            assert(after.levels[i] == state.levels[i]);
            let level = state.levels[i] as int;
            assert(after.trail[level] == state.trail[level]);
            let at = state.trail[level].pos as int;
            assert(state.assignment[at] != BOOL_UNDEF);
            assert(open_level(state, i) && extends(turned(state, i), model));
        }
    }
}

/// What can be reached after the return to a decision could be reached
/// before it, and does not keep the values that the atoms had then.
pub proof fn lemma_pending_returned(state: StateView, model: Seq<nat>)
    requires
        state.wf(),
        state.backtracked() matches Some(next) && pending(next, model),
    ensures
        pending(state, model),
        !extends(state.assignment, model),
    decreases state.levels.len(),
{
    reveal(StateView::wf);
    let last = state.levels.len() - 1;
    let level = state.levels[last] as int;
    let pos = state.trail[level].pos as int;
    if state.assignment[pos] == BOOL_FALSE {
        let rest = StateView { levels: state.levels.drop_last(), ..state };
        state.lemma_drop_level();
        lemma_pending_returned(rest, model);
        if !extends(rest.assignment, model) {
            let i = choose|i: int| open_level(rest, i) && extends(#[trigger] turned(rest, i), model);
            assert(rest.levels[i] == state.levels[i]);
            assert(turned(rest, i) == turned(state, i));
            assert(open_level(state, i) && extends(turned(state, i), model));
        }
    } else {
        let next = state.backtracked().unwrap();
        state.lemma_backtracked();
        state.lemma_wf();
        state.lemma_undone(level + 1);
        assert(state.assignment[pos] == BOOL_TRUE);
        if extends(next.assignment, model) {
            assert(next.assignment == turned(state, last));
            assert(open_level(state, last) && extends(turned(state, last), model));
            assert(next.assignment[pos] == BOOL_FALSE);
            assert(model[pos] == BOOL_FALSE);
        } else {
            let i = choose|i: int| open_level(next, i) && extends(#[trigger] turned(next, i), model);
            let at = state.trail[state.levels[i] as int].pos as int;
            assert(next.trail[state.levels[i] as int] == state.trail[state.levels[i] as int]);
            assert(i != last) by {
                assert(next.assignment[pos] == BOOL_FALSE);
            }
            assert(state.levels[i] < state.levels[last]);
            assert(at != pos);
            if state.on_trail(at, level + 1) {
                let j = choose|j: int| level + 1 <= j < state.trail.len() && (#[trigger] state.trail[j]).pos == at;
                assert(state.trail[state.levels[i] as int].pos != state.trail[j].pos);
            }
            assert(next.assignment[at] == state.assignment[at]);
            assert(open_level(state, i));
            lemma_turned_returned(state, i);
            assert(extends(turned(state, i), model));
            let branch = turned(state, i);
            state.lemma_undone(state.levels[i] as int + 1);
            assert(branch[at] == BOOL_FALSE);
            assert(model[at] == BOOL_FALSE);
        }
    }
}

/// The branches of the levels below the last decision that is not turned
/// stay what they are in the return to it.
pub proof fn lemma_turned_returned(state: StateView, i: int)
    requires
        state.wf(),
        state.levels.len() > 0,
        state.assignment[state.trail[state.levels.last() as int].pos as int] != BOOL_FALSE,
        0 <= i < state.levels.len() - 1,
    ensures
        state.backtracked() matches Some(next) && turned(next, i) == turned(state, i),
{
    reveal(StateView::wf);
    let last = state.levels.len() - 1;
    let level = state.levels[last] as int;
    let pos = state.trail[level].pos as int;
    let next = state.backtracked().unwrap();
    let from = state.levels[i] as int + 1;
    assert(state.levels[i] < state.levels[last]);
    state.lemma_backtracked();
    state.lemma_undone(from);
    state.lemma_undone(level + 1);
    next.lemma_undone(from);
    let a = state.undone(from);
    let b = next.undone(from);
    assert forall|p: int| 0 <= p < a.len() implies a[p] == b[p] by {
        if next.on_trail(p, from) {
            let j = choose|j: int| from <= j < next.trail.len() && (#[trigger] next.trail[j]).pos == p;
            assert(state.trail[j].pos == p);
            assert(state.on_trail(p, from));
        } else {
            assert(next.trail[level].pos == pos);
            assert(p != pos);
            if state.on_trail(p, from) {
                let j = choose|j: int| from <= j < state.trail.len() && (#[trigger] state.trail[j]).pos == p;
                if j <= level {
                    assert(next.trail[j].pos == p);
                }
                assert(state.on_trail(p, level + 1));
            } else {
                if state.on_trail(p, level + 1) {
                    let j = choose|j: int| level + 1 <= j < state.trail.len() && (#[trigger] state.trail[j]).pos == p;
                    assert(from <= j);
                }
            }
        }
    }
    assert(a =~= b);
    assert(next.trail[state.levels[i] as int] == state.trail[state.levels[i] as int]);
}

/// An assignment that is found lies apart from the assignments that were
/// found before.
pub proof fn lemma_apart_found(found: Seq<Seq<nat>>, state: StateView)
    requires
        apart(found),
        behind(found, state),
    ensures
        apart(found.push(state.assignment)),
{
    let more = found.push(state.assignment);
    assert forall|j: int, k: int, model: Seq<nat>|
        #![trigger extends(more[j], model), extends(more[k], model)]
        0 <= j < k < more.len() && extends(more[j], model) implies !extends(more[k], model) by {
        assert(more[j] == found[j]);
        if k < found.len() {
            assert(more[k] == found[k]);
        } else {
            assert(extends(found[j], model));
            assert(!pending(state, model));
        }
    }
}

/// The search stays done with the found assignments when the state goes
/// on with the same levels.
pub proof fn lemma_behind_grows(found: Seq<Seq<nat>>, before: StateView, after: StateView)
    requires
        behind(found, before),
        before.wf(),
        after.wf(),
        grows(before, after),
        after.levels.len() == before.levels.len(),
    ensures
        behind(found, after),
{
    assert forall|k: int, model: Seq<nat>| 0 <= k < found.len() && #[trigger] extends(found[k], model) implies !pending(
        after,
        model,
    ) by {
        if pending(after, model) {
            lemma_pending_before(before, after, model);
        }
    }
}

/// The search stays done with the found assignments when an atom is
/// decided.
pub proof fn lemma_behind_decided(found: Seq<Seq<nat>>, state: StateView, pos: usize)
    requires
        behind(found, state),
        state.wf(),
        state.assignment.len() <= usize::MAX,
        pos < state.assignment.len(),
        state.assignment[pos as int] == BOOL_UNDEF,
    ensures
        behind(found, state.decided(pos)),
{
    assert forall|k: int, model: Seq<nat>| 0 <= k < found.len() && #[trigger] extends(found[k], model) implies !pending(
        state.decided(pos),
        model,
    ) by {
        if pending(state.decided(pos), model) {
            lemma_pending_undecided(state, pos, model);
        }
    }
}

/// After the return to a decision the search is done with the found
/// assignments, and with the assignment that it returned from.
pub proof fn lemma_behind_returned(found: Seq<Seq<nat>>, state: StateView)
    requires
        behind(found, state),
        state.wf(),
    ensures
        state.backtracked() matches Some(next) ==> behind(found, next) && behind(
            found.push(state.assignment),
            next,
        ),
{
    if state.backtracked().is_some() {
        let next = state.backtracked().unwrap();
        let more = found.push(state.assignment);
        assert forall|k: int, model: Seq<nat>| 0 <= k < more.len() && #[trigger] extends(more[k], model) implies !pending(
            next,
            model,
        ) by {
            if pending(next, model) {
                lemma_pending_returned(state, model);
                if k < found.len() {
                    assert(more[k] == found[k]);
                    assert(extends(found[k], model));
                }
            }
        }
        assert forall|k: int, model: Seq<nat>| 0 <= k < found.len() && #[trigger] extends(found[k], model) implies !pending(
            next,
            model,
        ) by {
            assert(more[k] == found[k]);
        }
    }
}

/// The index of the first decision on the trail that has a level, or the
/// length of the trail if there is none: the steps before it are never
/// taken back.
pub open spec fn base(state: StateView) -> int {
    if state.levels.len() > 0 {
        state.levels[0] as int
    } else {
        state.trail.len() as int
    }
}

/// The values that no return to a decision takes back: those of the
/// steps before the first level. Where no level is open, these are the
/// values of all atoms.
pub open spec fn root(state: StateView) -> Seq<nat> {
    state.undone(base(state))
}

/// Whether the state has kept what the search started with: the steps
/// before the first level of the state `start`, and their values.
pub open spec fn anchored(start: StateView, state: StateView) -> bool {
    let from = base(start);
    &&& state.assignment.len() == start.assignment.len()
    &&& state.trail.len() >= from
    &&& state.trail.take(from) == start.trail.take(from)
    &&& forall|i: int| 0 <= i < state.levels.len() ==> (#[trigger] state.levels[i]) >= from
    &&& extends(root(start), state.assignment)
}

/// A state without levels has its assignment as its root.
pub proof fn lemma_root(state: StateView)
    requires
        state.levels.len() == 0,
    ensures
        root(state) == state.assignment,
{
}

/// At its start a search has all that it started with.
pub proof fn lemma_anchored_start(start: StateView)
    requires
        start.wf(),
    ensures
        anchored(start, start),
{
    reveal(StateView::wf);
    start.lemma_wf();
    let from = base(start);
    start.lemma_undone(from);
    assert forall|i: int| 0 <= i < start.levels.len() implies (#[trigger] start.levels[i]) >= from by {
        if i > 0 {
            assert(start.levels[0] < start.levels[i]);
        }
    }
}

/// A root value belongs to a step before the first level.
proof fn lemma_root_step(start: StateView, p: int) -> (j: int)
    requires
        start.wf(),
        0 <= p < start.assignment.len(),
        root(start)[p] != BOOL_UNDEF,
    ensures
        0 <= j < base(start),
        j < start.trail.len(),
        start.trail[j].pos == p,
        root(start)[p] == start.assignment[p],
{
    reveal(StateView::wf);
    start.lemma_wf();
    let from = base(start);
    start.lemma_undone(from);
    assert(!start.on_trail(p, from));
    assert(start.on_trail(p, 0));
    let j = choose|j: int| 0 <= j < start.trail.len() && (#[trigger] start.trail[j]).pos == p;
    j
}

/// A state that goes on from one that kept what the search started with
/// has kept it too, if its new levels lie behind the old trail.
pub proof fn lemma_anchored_grows(start: StateView, before: StateView, after: StateView)
    requires
        start.wf(),
        anchored(start, before),
        grows(before, after),
        forall|i: int|
            before.levels.len() <= i < after.levels.len() ==> (#[trigger] after.levels[i]) >= before.trail.len(),
    ensures
        anchored(start, after),
{
    let from = base(start);
    start.lemma_wf();
    assert(0 <= from <= start.trail.len());
    assert(after.trail.take(from) =~= start.trail.take(from)) by {
        assert forall|j: int| 0 <= j < from implies after.trail[j] == start.trail[j] by {
            assert(after.trail.take(before.trail.len() as int)[j] == before.trail[j]);
            assert(before.trail.take(from)[j] == start.trail.take(from)[j]);
        }
    }
    assert forall|i: int| 0 <= i < after.levels.len() implies (#[trigger] after.levels[i]) >= from by {
        if i < before.levels.len() {
            assert(after.levels.take(before.levels.len() as int)[i] == before.levels[i]);
        }
    }
    lemma_extends(root(start), before.assignment, after.assignment);
}

/// The return to a decision keeps what the search started with.
pub proof fn lemma_anchored_returned(start: StateView, state: StateView)
    requires
        start.wf(),
        state.wf(),
        anchored(start, state),
    ensures
        state.backtracked() matches Some(next) ==> anchored(start, next),
        anchored(start, StateView { levels: Seq::empty(), ..state }),
    decreases state.levels.len(),
{
    reveal(StateView::wf);
    let from = base(start);
    start.lemma_wf();
    assert(0 <= from <= start.trail.len());
    if state.levels.len() > 0 {
        let last = state.levels.len() - 1;
        let level = state.levels[last] as int;
        let pos = state.trail[level].pos as int;
        if state.assignment[pos] == BOOL_FALSE {
            let rest = StateView { levels: state.levels.drop_last(), ..state };
            state.lemma_drop_level();
            assert forall|i: int| 0 <= i < rest.levels.len() implies (#[trigger] rest.levels[i]) >= from by {
                assert(rest.levels[i] == state.levels[i]);
            }
            lemma_anchored_returned(start, rest);
        } else {
            let next = state.backtracked().unwrap();
            state.lemma_backtracked();
            state.lemma_undone(level + 1);
            assert(state.levels[last] >= from);
            assert(next.trail.take(from) =~= start.trail.take(from)) by {
                assert forall|j: int| 0 <= j < from implies next.trail[j] == start.trail[j] by {
                    assert(state.trail.take(from)[j] == start.trail.take(from)[j]);
                }
            }
            assert forall|p: int| 0 <= p < start.assignment.len() && root(start)[p] != BOOL_UNDEF implies #[trigger] next.assignment[p]
                == root(start)[p] by {
                let j = lemma_root_step(start, p);
                assert(state.trail.take(from)[j] == start.trail.take(from)[j]);
                assert(state.trail[j].pos == p);
                assert(state.assignment[p] == root(start)[p]);
                if state.on_trail(p, level + 1) {
                    let k = choose|k: int| level + 1 <= k < state.trail.len() && (#[trigger] state.trail[k]).pos == p;
                    assert(state.trail[j].pos != state.trail[k].pos);
                }
                assert(state.trail[j].pos != state.trail[level].pos);
            }
        }
    }
}

} // verus!
