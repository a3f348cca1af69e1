//! Evaluation of a universal formula by a program of nested loops: a loop
//! runs a variable of the formula through its domain, an atom step reads
//! the literal of an atom under the values chosen so far.

use crate::ground::{
    atom_literal, enqueued, literal_value, numbers, picked, Clause, Coord, FormulaView, Literal, State,
    UniversalFormula,
};
use crate::shape::valid_coords;
use std::rc::Rc;
use vstd::prelude::*;

verus! {

/// A step of a program.
#[derive(Debug, Clone, Copy)]
pub enum EvalStep {
    /// Runs the variable with the given number through its domain.
    Loop(u32),
    /// Reads the literal of the atom with the given number.
    Atom(u32),
}

/// A formula with a program that walks its instances.
#[derive(Debug)]
pub struct Evaluator {
    pub formula: Rc<UniversalFormula>,
    pub program: Vec<EvalStep>,
}

/// The coordinate of a variable that has no value yet.
pub const UNSET: usize = usize::MAX;

/// For every variable, whether it has a value.
pub open spec fn bound(coords: Seq<usize>) -> Seq<bool> {
    Seq::new(coords.len(), |v: int| coords[v] != UNSET)
}

/// Whether every variable either has no value or has an element of its
/// domain as its value.
pub open spec fn partial(sizes: Seq<usize>, coords: Seq<usize>) -> bool {
    &&& coords.len() == sizes.len()
    &&& forall|v: int| 0 <= v < sizes.len() ==> #[trigger] coords[v] == UNSET || coords[v] < sizes[v]
}

/// The coordinates with the value `c` for the variable `v`.
pub open spec fn bind(coords: Seq<usize>, v: int, c: int) -> Seq<usize> {
    coords.update(v, c as usize)
}

/// Whether the program can run from the given step on when the variables
/// marked in `bound` have values: an atom step finds a value for every
/// variable of its atom, and a loop runs a variable that has none.
pub open spec fn ready(formula: FormulaView, program: Seq<EvalStep>, bound: Seq<bool>, step: int) -> bool
    decreases program.len() - step,
{
    if step < 0 || step >= program.len() {
        true
    } else {
        match program[step] {
            EvalStep::Atom(a) => {
                &&& a < formula.disjunction.len()
                &&& forall|i: int|
                    0 <= i < formula.disjunction[a as int].variables.len() ==> (
                    #[trigger] formula.disjunction[a as int].variables[i]) < bound.len()
                        && bound[formula.disjunction[a as int].variables[i] as int]
                &&& ready(formula, program, bound, step + 1)
            },
            EvalStep::Loop(v) => {
                &&& v < bound.len()
                &&& !bound[v as int]
                &&& ready(formula, program, bound.update(v as int, true), step + 1)
            },
        }
    }
}

/// Whether a state with the given number of atoms has a value for every
/// literal of the atoms of the formula.
pub open spec fn covers(formula: FormulaView, atoms: nat) -> bool {
    forall|l: int| 0 <= l < formula.disjunction.len() ==> (#[trigger] formula.disjunction[l]).predicate.var_count <= atoms
}

/// Whether the loops from the given step on can choose values under which
/// every literal that the atom steps from there on read is false.
pub open spec fn conflict(
    formula: FormulaView,
    program: Seq<EvalStep>,
    state: Seq<int>,
    coords: Seq<usize>,
    step: int,
) -> bool
    decreases program.len() - step,
{
    if step < 0 || step >= program.len() {
        true
    } else {
        match program[step] {
            EvalStep::Atom(a) => literal_value(state, atom_literal(formula.disjunction[a as int], coords)) < 0
                && conflict(formula, program, state, coords, step + 1),
            EvalStep::Loop(v) => exists|c: int|
                0 <= c < formula.sizes[v as int] && conflict(
                    formula,
                    program,
                    state,
                    #[trigger] bind(coords, v as int, c),
                    step + 1,
                ),
        }
    }
}

/// The state after the program ran from the given step on, and whether
/// it came to its end with every literal on its way false. A loop stops
/// at the first value with which the rest of the program comes to its
/// end. An atom step with a false literal goes on; with an undefined
/// literal it makes the literal true if the rest of the program can only
/// find false literals, and gives up; with a true literal it gives up.
pub open spec fn run(
    formula: FormulaView,
    program: Seq<EvalStep>,
    state: Seq<int>,
    coords: Seq<usize>,
    step: int,
) -> (Seq<int>, bool)
    decreases program.len() - step, 1int, 0int,
{
    if step < 0 || step >= program.len() {
        (state, true)
    } else {
        match program[step] {
            EvalStep::Atom(a) => {
                let lit = atom_literal(formula.disjunction[a as int], coords);
                let val = literal_value(state, lit);
                if val < 0 {
                    run(formula, program, state, coords, step + 1)
                } else if val == 0 && conflict(formula, program, state, coords, step + 1) {
                    (enqueued(state, lit), false)
                } else {
                    (state, false)
                }
            },
            EvalStep::Loop(v) => sweep(formula, program, state, coords, step, v as int, 0),
        }
    }
}

/// What `run` gives for a loop of the variable `v` at the given step that
/// has the values from `from` on still to try.
pub open spec fn sweep(
    formula: FormulaView,
    program: Seq<EvalStep>,
    state: Seq<int>,
    coords: Seq<usize>,
    step: int,
    v: int,
    from: int,
) -> (Seq<int>, bool)
    decreases program.len() - step, 0int, formula.sizes[v] - from,
{
    if step < 0 || step >= program.len() || from < 0 || from >= formula.sizes[v] {
        (state, false)
    } else {
        let next = run(formula, program, state, bind(coords, v, from), step + 1);
        if next.1 {
            next
        } else {
            sweep(formula, program, next.0, coords, step, v, from + 1)
        }
    }
}

/// The coordinates of the variables of a formula after the first `n`
/// variables of an atom got the values of a tuple.
pub open spec fn seeded(arity: nat, variables: Seq<usize>, values: Seq<usize>, n: int) -> Seq<usize>
    decreases n,
{
    if n <= 0 {
        Seq::new(arity, |v: int| UNSET)
    } else {
        seeded(arity, variables, values, n - 1).update(variables[n - 1] as int, values[n - 1])
    }
}

/// Whether a variable stands at two axes.
pub open spec fn repeated(variables: Seq<usize>) -> bool {
    exists|i: int, j: int| 0 <= i < j < variables.len() && #[trigger] variables[i] == #[trigger] variables[j]
}

/// Whether the variable `v` stands at one of the first `n` axes.
pub open spec fn seen(variables: Seq<usize>, n: int, v: int) -> bool {
    exists|j: int| 0 <= j < n && #[trigger] variables[j] == v
}

/// The number of the atom of the first step, if that is an atom step.
pub open spec fn first_atom(program: Seq<EvalStep>) -> Option<int> {
    if program.len() == 0 {
        None
    } else {
        match program[0] {
            EvalStep::Atom(a) => Some(a as int),
            EvalStep::Loop(_) => None,
        }
    }
}

/// An atom step that is ready finds the coordinates of an atom of its
/// predicate.
pub proof fn lemma_ready_atom(formula: FormulaView, program: Seq<EvalStep>, coords: Seq<usize>, step: int, a: int)
    requires
        formula.wf(),
        partial(formula.sizes, coords),
        0 <= step < program.len(),
        program[step] == EvalStep::Atom(a as u32),
        0 <= a <= u32::MAX,
        ready(formula, program, bound(coords), step),
    ensures
        0 <= a < formula.disjunction.len(),
        forall|i: int|
            0 <= i < formula.disjunction[a].variables.len() ==> (#[trigger] formula.disjunction[a].variables[i])
                < coords.len(),
        valid_coords(formula.disjunction[a].predicate.sizes, picked(coords, formula.disjunction[a].variables)),
        ready(formula, program, bound(coords), step + 1),
{
    let atom = formula.disjunction[a];
    assert forall|i: int| 0 <= i < atom.variables.len() implies (#[trigger] atom.variables[i]) < coords.len()
        && picked(coords, atom.variables)[i] < atom.predicate.sizes[i] by {
        let v = formula.disjunction[a].variables[i] as int;
        assert(bound(coords)[v]);
        assert(coords[v] == UNSET || coords[v] < formula.sizes[v]);
    }
}

/// A loop that is ready leaves the rest of the program ready with every
/// element of the domain of its variable.
pub proof fn lemma_ready_loop(
    formula: FormulaView,
    program: Seq<EvalStep>,
    coords: Seq<usize>,
    step: int,
    v: int,
    c: int,
)
    requires
        partial(formula.sizes, coords),
        0 <= step < program.len(),
        program[step] == EvalStep::Loop(v as u32),
        0 <= v <= u32::MAX,
        ready(formula, program, bound(coords), step),
        0 <= c < formula.sizes[v],
    ensures
        coords[v] == UNSET,
        partial(formula.sizes, bind(coords, v, c)),
        ready(formula, program, bound(bind(coords, v, c)), step + 1),
{
    assert(bound(bind(coords, v, c)) =~= bound(coords).update(v, true));
}

impl Evaluator {
    /// The formula is well formed.
    pub open spec fn wf(&self) -> bool {
        self.formula.wf()
    }

    /// Whether the loops from the given step on can choose values under
    /// which every literal that the atom steps read is false. The
    /// coordinates are left as they were.
    #[verifier::loop_isolation(false)]
    pub fn conflicting(&self, state: &State, coords: &mut Vec<Coord>, step: usize) -> (r: bool)
        requires
            self.wf(),
            partial(self.formula@.sizes, numbers(old(coords)@)),
            ready(self.formula@, self.program@, bound(numbers(old(coords)@)), step as int),
            covers(self.formula@, state@.len()),
        ensures
            final(coords)@ == old(coords)@,
            r == conflict(self.formula@, self.program@, state@, numbers(old(coords)@), step as int),
        decreases self.program@.len() - step,
    {
        if step >= self.program.len() {
            return true;
        }
        let ghost begin = coords@;
        let ghost start = numbers(begin);
        proof {
            self.formula.lemma_wf();
        }
        match self.program[step] {
            EvalStep::Atom(idx) => {
                proof {
                    lemma_ready_atom(self.formula@, self.program@, start, step as int, idx as int);
                }
                let atom = self.formula.disjunction(idx as usize);
                let lit = atom.get_literal(coords);
                if state.get_value(lit).is_false() {
                    self.conflicting(state, coords, step + 1)
                } else {
                    false
                }
            },
            EvalStep::Loop(var) => {
                let v = var as usize;
                let size = self.formula.domain(v).size();
                let mut coord: usize = 0;
                while coord < size
                    invariant
                        coord <= size,
                        coords@.len() == begin.len(),
                        forall|k: int| 0 <= k < begin.len() && k != v ==> coords@[k] == begin[k],
                        forall|c: int|
                            0 <= c < coord ==> !conflict(
                                self.formula@,
                                self.program@,
                                state@,
                                #[trigger] bind(start, v as int, c),
                                step + 1,
                            ),
                    decreases size - coord,
                {
                    coords.set(v, Coord(coord));
                    proof {
                        lemma_ready_loop(self.formula@, self.program@, start, step as int, v as int, coord as int);
                        assert(numbers(coords@) =~= bind(start, v as int, coord as int));
                    }
                    if self.conflicting(state, coords, step + 1) {
                        coords.set(v, Coord(UNSET));
                        proof {
                            assert(coords@ =~= begin);
                        }
                        return true;
                    }
                    coord += 1;
                }
                coords.set(v, Coord(UNSET));
                proof {
                    assert(!bound(start)[v as int]);
                    assert(coords@ =~= begin);
                }
                false
            },
        }
    }

    /// Runs the program from the given step on. Returns whether it came
    /// to its end with every literal on its way false; where one literal
    /// is undefined and the rest can only be false, that literal becomes
    /// true. The coordinates are left as they were, and no atom that had
    /// a value gets another.
    #[verifier::loop_isolation(false)]
    pub fn propagate(&self, state: &mut State, coords: &mut Vec<Coord>, step: usize) -> (r: bool)
        requires
            self.wf(),
            partial(self.formula@.sizes, numbers(old(coords)@)),
            ready(self.formula@, self.program@, bound(numbers(old(coords)@)), step as int),
            covers(self.formula@, old(state)@.len()),
        ensures
            final(coords)@ == old(coords)@,
            final(state)@.len() == old(state)@.len(),
            (final(state)@, r) == run(
                self.formula@,
                self.program@,
                old(state)@,
                numbers(old(coords)@),
                step as int,
            ),
            forall|k: int|
                0 <= k < old(state)@.len() && old(state)@[k] != 0 ==> final(state)@[k] == old(state)@[k],
        decreases self.program@.len() - step,
    {
        if step >= self.program.len() {
            return true;
        }
        let ghost begin = coords@;
        let ghost start = numbers(begin);
        let ghost first = state@;
        proof {
            self.formula.lemma_wf();
        }
        match self.program[step] {
            EvalStep::Atom(idx) => {
                proof {
                    lemma_ready_atom(self.formula@, self.program@, start, step as int, idx as int);
                }
                let atom = self.formula.disjunction(idx as usize);
                let lit = atom.get_literal(coords);
                let val = state.get_value(lit);
                if val.is_false() {
                    self.propagate(state, coords, step + 1)
                } else {
                    if val.is_undef() {
                        if self.conflicting(state, coords, step + 1) {
                            state.enqueue(lit);
                        }
                    }
                    false
                }
            },
            EvalStep::Loop(var) => {
                let v = var as usize;
                let size = self.formula.domain(v).size();
                let mut coord: usize = 0;
                while coord < size
                    invariant
                        coord <= size,
                        coords@.len() == begin.len(),
                        forall|k: int| 0 <= k < begin.len() && k != v ==> coords@[k] == begin[k],
                        state@.len() == first.len(),
                        forall|k: int| 0 <= k < first.len() && first[k] != 0 ==> state@[k] == first[k],
                        run(self.formula@, self.program@, first, start, step as int) == sweep(
                            self.formula@,
                            self.program@,
                            state@,
                            start,
                            step as int,
                            v as int,
                            coord as int,
                        ),
                    decreases size - coord,
                {
                    coords.set(v, Coord(coord));
                    proof {
                        lemma_ready_loop(self.formula@, self.program@, start, step as int, v as int, coord as int);
                        assert(numbers(coords@) =~= bind(start, v as int, coord as int));
                    }
                    if self.propagate(state, coords, step + 1) {
                        coords.set(v, Coord(UNSET));
                        proof {
                            assert(coords@ =~= begin);
                        }
                        return true;
                    }
                    coord += 1;
                }
                coords.set(v, Coord(UNSET));
                proof {
                    assert(!bound(start)[v as int]);
                    assert(coords@ =~= begin);
                }
                false
            },
        }
    }

    /// Takes up the instances of the formula whose first atom is the atom
    /// of the given literal: the variables of the first atom of the formula
    /// get the coordinates of the literal, and the program runs from its
    /// second step on. Returns the instance at which the program came to its end, if it
    /// did; the variables of the loops have no value in it. Returns nothing,
    /// and leaves the state as it is, where a variable stands at two axes
    /// of the atom.
    #[verifier::loop_isolation(false)]
    pub fn watch<'a>(&'a self, state: &mut State, lit: &Literal) -> (r: Option<Clause<'a>>)
        requires
            self.wf(),
            first_atom(self.program@) matches Some(a) && a < self.formula@.disjunction.len() && lit.spec_predicate().sizes
                == self.formula@.disjunction[a].predicate.sizes && (!repeated(self.formula@.disjunction[a].variables)
                ==> ready(
                self.formula@,
                self.program@,
                bound(
                    seeded(
                        self.formula@.sizes.len(),
                        self.formula@.disjunction[a].variables,
                        lit.spec_coords(),
                        lit.spec_coords().len() as int,
                    ),
                ),
                1,
            )),
            lit.wf(),
            covers(self.formula@, old(state)@.len()),
        ensures
            final(state)@.len() == old(state)@.len(),
            forall|k: int|
                0 <= k < old(state)@.len() && old(state)@[k] != 0 ==> final(state)@[k] == old(state)@[k],
            first_atom(self.program@) matches Some(a) && ({
                let variables = self.formula@.disjunction[a].variables;
                let seed = seeded(self.formula@.sizes.len(), variables, lit.spec_coords(), variables.len() as int);
                if repeated(variables) {
                    r.is_none() && final(state)@ == old(state)@
                } else {
                    &&& (final(state)@, r.is_some()) == run(self.formula@, self.program@, old(state)@, seed, 1)
                    &&& r matches Some(clause) ==> clause.wf() && clause.spec_formula() == self.formula@
                        && clause.spec_coords() == seed
                }
            }),
    {
        let ghost first = first_atom(self.program@).unwrap();
        proof {
            self.formula.lemma_wf();
        }
        match self.program[0] {
            EvalStep::Loop(_) => None,
            EvalStep::Atom(idx) => {
                let atom = self.formula.disjunction(idx as usize);
                let arity = self.formula.arity();
                let variables = atom.variables();
                let values = lit.coords();
                let ghost vars = variables@;
                let ghost vals = numbers(values@);
                let mut coords: Vec<Coord> = Vec::new();
                while coords.len() < arity
                    invariant
                        coords@.len() <= arity,
                        forall|v: int| 0 <= v < coords@.len() ==> (#[trigger] coords@[v]).0 == UNSET,
                    decreases arity - coords@.len(),
                {
                    coords.push(Coord(UNSET));
                }
                proof {
                    assert(numbers(coords@) =~= seeded(arity as nat, vars, vals, 0));
                }
                let mut i: usize = 0;
                while i < variables.len()
                    invariant
                        i <= vars.len(),
                        vars.len() == vals.len(),
                        coords@.len() == arity,
                        numbers(coords@) == seeded(arity as nat, vars, vals, i as int),
                        partial(self.formula@.sizes, numbers(coords@)),
                        forall|j: int, k: int| 0 <= j < k < i ==> #[trigger] vars[j] != #[trigger] vars[k],
                        forall|v: int| 0 <= v < arity ==> (#[trigger] coords@[v]).0 == UNSET || seen(vars, i as int, v),
                        forall|j: int| 0 <= j < i ==> coords@[(#[trigger] vars[j]) as int].0 != UNSET,
                    decreases vars.len() - i,
                {
                    let var = variables[i];
                    let ghost sofar = coords@;
                    proof {
                        assert(self.formula@.disjunction[first].variables[i as int] < self.formula@.sizes.len());
                    }
                    if coords[var].0 != UNSET {
                        proof {
                            assert(seen(vars, i as int, var as int));
                            let j = choose|j: int| 0 <= j < i && #[trigger] vars[j] == var;
                            assert(vars[j] == vars[i as int]);
                        }
                        return None;
                    }
                    coords.set(var, values[i]);
                    proof {
                        assert(vals[i as int] == values@[i as int].0);
                        assert(vals[i as int] < self.formula@.disjunction[first].predicate.sizes[i as int]);
                        assert(numbers(coords@) =~= numbers(sofar).update(var as int, vals[i as int]));
                        assert forall|j: int, k: int| 0 <= j < k < i + 1 implies #[trigger] vars[j]
                            != #[trigger] vars[k] by {
                            if k == i && vars[j] == vars[k] {
                                assert(sofar[vars[j] as int].0 != UNSET);
                            }
                        }
                        assert forall|v: int| 0 <= v < arity implies (#[trigger] coords@[v]).0 == UNSET || seen(
                            vars,
                            i + 1,
                            v,
                        ) by {
                            if v == var {
                                assert(vars[i as int] == v);
                            } else if sofar[v].0 != UNSET {
                                assert(seen(vars, i as int, v));
                                let j = choose|j: int| 0 <= j < i && #[trigger] vars[j] == v;
                                assert(vars[j] == v);
                            }
                        }
                        assert forall|j: int| 0 <= j < i + 1 implies coords@[(#[trigger] vars[j]) as int].0
                            != UNSET by {
                            if j < i {
                                assert(sofar[vars[j] as int].0 != UNSET);
                            }
                        }
                    }
                    i += 1;
                }
                proof {
                    if repeated(vars) {
                        let (j, k) = choose|j: int, k: int|
                            0 <= j < k < vars.len() && #[trigger] vars[j] == #[trigger] vars[k];
                        assert(vars[j] != vars[k]);
                    }
                }
                if self.propagate(state, &mut coords, 1) {
                    Some(Clause::new(&self.formula, coords))
                } else {
                    None
                }
            },
        }
    }
}

} // verus!
