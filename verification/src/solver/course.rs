//! The course of a search, as a function of the solver that it starts
//! from: what a propagation leaves, where the search goes next, and which
//! solutions it finds on its way.

use crate::bitops::{and_value, BOOL_UNDEF, EVAL_FALSE, EVAL_TRUE, EVAL_UNIT};
use crate::solver::clause::{lemma_lowest, lowest, ClauseView};
use crate::solver::driver::{continues, exists_status, lemma_cells_range, same_theory, SolverView};
use crate::solver::state::{pow3, StateView};
use vstd::prelude::*;

verus! {

/// The solver after the clause with the number `c` was visited, and what
/// the visit found: the cells of the clause are computed under the
/// assignment and scanned for units.
pub open spec fn visited(solver: SolverView, c: int) -> (SolverView, nat) {
    let clause = ClauseView { cells: solver.clauses[c].evaluated(solver.state.assignment), ..solver.clauses[c] };
    let scan = clause.scan(solver.state, 0, EVAL_TRUE as nat);
    (
        SolverView { state: scan.state, clauses: solver.clauses.update(c, clause), ..solver },
        match scan.status {
            Some(status) => status,
            None => EVAL_FALSE as nat,
        },
    )
}

/// What a visit leaves: a well-formed solver of the same theory whose
/// state continues the old one, and the smallest value of the cells of the
/// clause. The state has changed if that is a unit, and only then.
pub proof fn lemma_visited(solver: SolverView, c: int)
    requires
        solver.wf(),
        0 <= c < solver.clauses.len(),
    ensures
        ({
            let (after, status) = visited(solver, c);
            &&& after.wf()
            &&& same_theory(solver, after)
            &&& continues(solver.state, after.state)
            &&& after.clauses[c].cells == after.clauses[c].evaluated(solver.state.assignment)
            &&& forall|k: int| 0 <= k < solver.clauses.len() && k != c ==> after.clauses[k] == solver.clauses[k]
            &&& status == lowest(after.clauses[c].cells)
            &&& status <= 3
            &&& status >= 2 ==> after.state == solver.state
            &&& status == EVAL_UNIT ==> after.state.trail.len() > solver.state.trail.len()
            &&& after.state.trail.len() <= after.state.assignment.len()
        }),
{
    let clause = ClauseView { cells: solver.clauses[c].evaluated(solver.state.assignment), ..solver.clauses[c] };
    let (after, status) = visited(solver, c);
    solver.lemma_clause(c);
    solver.lemma_clause_within(c);
    solver.lemma_domain_free();
    lemma_cells_range(clause, solver.state.assignment);
    assert(clause.evaluated(solver.state.assignment) =~= solver.clauses[c].evaluated(solver.state.assignment));
    assert(clause.cells.take(0) =~= Seq::empty());
    assert(clause.wf());
    assert(clause.within(solver.state.assignment.len()));
    clause.lemma_scan(solver.state, 0, EVAL_TRUE as nat);
    clause.lemma_scan_holds(solver.state, solver.state, 0, EVAL_TRUE as nat);
    lemma_lowest(clause.cells);
    if lowest(clause.cells) == EVAL_UNIT {
        assert forall|j: int| 0 <= j < clause.cells.len() implies #[trigger] clause.cells[j] != EVAL_FALSE by {
            assert(lowest(clause.cells) <= clause.cells[j]);
        }
        clause.lemma_scan_moves(solver.state, 0, EVAL_TRUE as nat);
    }
    solver.lemma_other_clause(c, clause);
    let middle = SolverView { clauses: solver.clauses.update(c, clause), ..solver };
    middle.lemma_other_state(after.state);
    after.state.lemma_wf();
}

/// The solver after a propagation, and the status that it finds, when
/// the clause `idx` comes next, the last `num` visits found neither a unit
/// nor a false cell, and `res` is the smallest value that they found. The
/// clauses are visited in their order, again and again, until a visit
/// finds a false cell or all clauses were visited in a row without a
/// unit.
pub open spec fn propagated(solver: SolverView, idx: int, num: int, res: nat) -> (SolverView, nat)
    decreases solver.state.assignment.len() - solver.state.trail.len(), solver.clauses.len() - num,
    via propagated_decreases
{
    let count = solver.clauses.len() as int;
    if !solver.wf() || num < 0 || num >= count || idx < 0 || idx > count {
        (solver, res)
    } else {
        let at = if idx >= count {
            0
        } else {
            idx
        };
        let (after, status) = visited(solver, at);
        if status == EVAL_FALSE {
            (after, status)
        } else if status == EVAL_UNIT {
            propagated(after, at + 1, 0, EVAL_TRUE as nat)
        } else {
            propagated(after, at + 1, num + 1, and_value(res, status))
        }
    }
}

#[via_fn]
proof fn propagated_decreases(solver: SolverView, idx: int, num: int, res: nat) {
    let count = solver.clauses.len() as int;
    if !(!solver.wf() || num < 0 || num >= count || idx < 0 || idx > count) {
        let at = if idx >= count {
            0
        } else {
            idx
        };
        lemma_visited(solver, at);
    }
}

/// What a propagation leaves: a well-formed solver of the same theory
/// whose state continues the old one.
pub proof fn lemma_propagated(solver: SolverView, idx: int, num: int, res: nat)
    requires
        solver.wf(),
    ensures
        propagated(solver, idx, num, res).0.wf(),
        same_theory(solver, propagated(solver, idx, num, res).0),
        continues(solver.state, propagated(solver, idx, num, res).0.state),
    decreases solver.state.assignment.len() - solver.state.trail.len(), solver.clauses.len() - num,
{
    let count = solver.clauses.len() as int;
    assert(solver.state.trail.take(solver.state.trail.len() as int) =~= solver.state.trail);
    if !(num < 0 || num >= count || idx < 0 || idx > count) {
        let at = if idx >= count {
            0
        } else {
            idx
        };
        lemma_visited(solver, at);
        let (after, status) = visited(solver, at);
        if status != EVAL_FALSE {
            let last = if status == EVAL_UNIT {
                lemma_propagated(after, at + 1, 0, EVAL_TRUE as nat);
                propagated(after, at + 1, 0, EVAL_TRUE as nat).0
            } else {
                lemma_propagated(after, at + 1, num + 1, and_value(res, status));
                propagated(after, at + 1, num + 1, and_value(res, status)).0
            };
            lemma_continues(solver.state, after.state, last.state);
            lemma_same_theory(solver, after, last);
        }
    }
}

/// Continuing is transitive.
pub proof fn lemma_continues(first: StateView, second: StateView, third: StateView)
    requires
        continues(first, second),
        continues(second, third),
    ensures
        continues(first, third),
{
    assert(third.trail.take(first.trail.len() as int) =~= first.trail) by {
        assert forall|j: int| 0 <= j < first.trail.len() implies third.trail[j] == first.trail[j] by {
            assert(third.trail.take(second.trail.len() as int)[j] == second.trail[j]);
            assert(second.trail.take(first.trail.len() as int)[j] == first.trail[j]);
        }
    }
    assert forall|p: int| 0 <= p < first.assignment.len() && first.assignment[p] != BOOL_UNDEF implies #[trigger] third.assignment[p]
        == first.assignment[p] by {
        assert(second.assignment[p] == first.assignment[p]);
    }
}

/// Having the same theory is transitive.
pub proof fn lemma_same_theory(first: SolverView, second: SolverView, third: SolverView)
    requires
        same_theory(first, second),
        same_theory(second, third),
    ensures
        same_theory(first, third),
{
    assert forall|c: int| 0 <= c < first.clauses.len() implies #[trigger] third.clauses[c] == (ClauseView {
        cells: third.clauses[c].cells,
        ..first.clauses[c]
    }) by {
        assert(second.clauses[c] == (ClauseView { cells: second.clauses[c].cells, ..first.clauses[c] }));
        assert(third.clauses[c] == (ClauseView { cells: third.clauses[c].cells, ..second.clauses[c] }));
    }
}

/// The solver after a propagation from the first clause on, and the
/// status of the search: the smaller of the status of the clauses and the
/// status of the axioms of existence.
pub open spec fn settled(solver: SolverView) -> (SolverView, nat) {
    let (after, status) = propagated(solver, 0, 0, EVAL_TRUE as nat);
    (after, and_value(status, exists_status(after.exists, after.state.assignment, after.exists.len() as int)))
}

/// The first position without a value.
pub open spec fn first_gap(state: StateView) -> int {
    choose|pos: int| state.first_undef(pos)
}

/// There is one first position without a value, unless every atom has a
/// value.
pub proof fn lemma_first_gap(state: StateView, upto: int)
    requires
        0 <= upto <= state.assignment.len(),
    ensures
        (forall|p: int| 0 <= p < upto ==> state.assignment[p] != BOOL_UNDEF) || (state.first_undef(first_gap(state))
            && first_gap(state) < upto),
        forall|pos: int| state.first_undef(pos) ==> pos == first_gap(state),
    decreases upto,
{
    if upto > 0 {
        lemma_first_gap(state, upto - 1);
        if (forall|p: int| 0 <= p < upto - 1 ==> state.assignment[p] != BOOL_UNDEF) && state.assignment[upto - 1]
            == BOOL_UNDEF {
            assert(state.first_undef(upto - 1));
        }
    }
    assert forall|pos: int| state.first_undef(pos) implies pos == first_gap(state) by {
        let gap = first_gap(state);
        assert(state.first_undef(gap));
        if pos < gap {
            assert(state.assignment[pos] != BOOL_UNDEF);
        }
        if gap < pos {
            assert(state.assignment[gap] != BOOL_UNDEF);
        }
    }
}

/// The state in which the search goes on after a status was found, if
/// it goes on: after false or true it returns to the last decision that
/// was not turned; else it decides the first atom without a value.
pub open spec fn next_state(state: StateView, status: nat) -> Option<StateView> {
    if status == EVAL_FALSE || status == EVAL_TRUE {
        state.backtracked()
    } else if state.complete() {
        None
    } else {
        Some(state.decided(first_gap(state) as usize))
    }
}

/// The state in which the search ends after a status was found: when it
/// ends after false or true, no level is left.
pub open spec fn last_state(state: StateView, status: nat) -> StateView {
    if status == EVAL_FALSE || status == EVAL_TRUE {
        StateView { levels: Seq::empty(), ..state }
    } else {
        state
    }
}

/// The solver at the end of a search that starts from the given solver,
/// and the solutions that it finds behind those that were `found` before,
/// in the order in which it finds them. The search propagates; after the
/// status true it takes down the assignment as a solution; then it goes on
/// to the next state, until there is none.
pub open spec fn searched(solver: SolverView, found: Seq<Seq<nat>>) -> (SolverView, Seq<Seq<nat>>)
    decreases pow3(solver.state.assignment.len()) - solver.state.measure(),
    via searched_decreases
{
    if !solver.wf() {
        (solver, found)
    } else {
        let (after, status) = settled(solver);
        let more = if status == EVAL_TRUE {
            found.push(after.state.assignment)
        } else {
            found
        };
        match next_state(after.state, status) {
            Some(next) => searched(SolverView { state: next, ..after }, more),
            None => (SolverView { state: last_state(after.state, status), ..after }, more),
        }
    }
}

/// A step of the search is progress.
pub proof fn lemma_search_step(solver: SolverView)
    requires
        solver.wf(),
    ensures
        ({
            let (after, status) = settled(solver);
            &&& after.wf()
            &&& same_theory(solver, after)
            &&& continues(solver.state, after.state)
            &&& next_state(after.state, status) matches Some(next) ==> {
                &&& (SolverView { state: next, ..after }).wf()
                &&& next.assignment.len() == solver.state.assignment.len()
                &&& next.measure() > solver.state.measure()
                &&& next.measure() < pow3(solver.state.assignment.len())
            }
        }),
{
    let (after, status) = settled(solver);
    lemma_propagated(solver, 0, 0, EVAL_TRUE as nat);
    solver.lemma_domain_free();
    after.lemma_domain_free();
    solver.state.lemma_measure_grows(after.state);
    if next_state(after.state, status).is_some() {
        let next = next_state(after.state, status).unwrap();
        if status == EVAL_FALSE || status == EVAL_TRUE {
            after.state.lemma_backtracked();
            after.state.lemma_measure_backtracked();
        } else {
            lemma_first_gap(after.state, after.state.assignment.len() as int);
            let pos = first_gap(after.state);
            after.state.lemma_decided(pos as usize);
            after.state.lemma_measure_decided(pos as usize);
        }
        after.lemma_other_state(next);
        next.lemma_measure_bound();
    }
}

#[via_fn]
proof fn searched_decreases(solver: SolverView, found: Seq<Seq<nat>>) {
    if solver.wf() {
        lemma_search_step(solver);
    }
}

} // verus!
