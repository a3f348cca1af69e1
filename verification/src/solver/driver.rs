//! The solver: the domains, the variables, the clauses and the axioms of
//! existence of a theory, the state of the search for its models, and
//! the steps of that search.

use crate::bitops::{
    and_value, eval_and, lemma_eval_and, Bit2, BOOL_UNDEF, EVAL_FALSE,
    EVAL_TRUE, EVAL_UNIT,
};
use crate::shape::{
    bulk_of, canonical_axes, coords_of, fits_lengths, flat_index, lemma_bulk, lemma_canonical,
    valid_coords, volume_of, Shape,
};
use crate::solver::clause::{lemma_lowest, lowest, Clause, ClauseView, Literal, LiteralView};
use crate::solver::complete::{
    anchored, lemma_anchored_grows, lemma_anchored_returned, lemma_anchored_start, lemma_root, root, apart, behind, lemma_apart_found, lemma_behind_decided, lemma_behind_grows, lemma_behind_returned, exhaustive, forced, grows, hopeless, keeps_models, lemma_false_clause, lemma_false_exists, lemma_forced_step,
    lemma_forced_theory, lemma_hopeless_theory, lemma_kept_decided, lemma_kept_forced, lemma_kept_found,
    lemma_kept_start, lemma_kept_turned, lemma_scan_forced, lemma_sweep_forced,
};
use crate::solver::course::{self, propagated, visited};
use crate::solver::sound::extends;
use crate::solver::domain::{Dom, Domain, DomainView, Var, Variable, VariableView};
use crate::solver::error::SolverError;
use crate::solver::exist::{Exist, ExistView};
use crate::solver::state::{pow3, Reason, ReasonView, State, StateView};
use vstd::prelude::*;

verus! {

/// The position behind the table of the variable before the `upto`-th.
pub open spec fn table_end(variables: Seq<VariableView>, upto: int) -> nat {
    if upto <= 0 || upto > variables.len() {
        0
    } else {
        variables[upto - 1].offset as nat + volume_of(variables[upto - 1].lengths)
    }
}

/// Whether a domain of this name exists.
pub open spec fn has_domain(domains: Seq<DomainView>, name: Seq<char>) -> bool {
    exists|d: int| 0 <= d < domains.len() && (#[trigger] domains[d]).name == name
}

/// Whether a variable of this name exists.
pub open spec fn has_variable(variables: Seq<VariableView>, name: Seq<char>) -> bool {
    exists|v: int| 0 <= v < variables.len() && (#[trigger] variables[v]).name == name
}

/// The sizes of the domains with the given handles.
pub open spec fn sizes_of(domains: Seq<DomainView>, handles: Seq<Dom>) -> Seq<usize> {
    Seq::new(handles.len(), |k: int| domains[handles[k].0 as int].size)
}

/// Every domain has an element, and no two domains have the same name.
pub open spec fn domains_ok(domains: Seq<DomainView>) -> bool {
    &&& forall|d: int| 0 <= d < domains.len() ==> (#[trigger] domains[d]).size >= 1
    &&& forall|d: int, e: int|
        0 <= d < e < domains.len() ==> (#[trigger] domains[d]).name != (#[trigger] domains[e]).name
}

/// The domains of the variable exist, and its table has their sizes.
pub open spec fn variable_ok(variable: VariableView, domains: Seq<DomainView>) -> bool {
    &&& variable.domains.len() == variable.lengths.len()
    &&& forall|k: int|
        0 <= k < variable.domains.len() ==> (#[trigger] variable.domains[k]).0 < domains.len()
    &&& variable.lengths == sizes_of(domains, variable.domains)
    &&& variable.offset + bulk_of(variable.lengths) <= usize::MAX
}

/// The variables have different names, and their tables lie one behind
/// the other and fill an assignment of `count` atoms.
pub open spec fn variables_ok(variables: Seq<VariableView>, domains: Seq<DomainView>, count: nat) -> bool {
    &&& forall|v: int| 0 <= v < variables.len() ==> variable_ok(#[trigger] variables[v], domains)
    &&& forall|v: int, w: int|
        0 <= v < w < variables.len() ==> (#[trigger] variables[v]).name != (#[trigger] variables[w]).name
    &&& forall|v: int| 0 <= v < variables.len() ==> (#[trigger] variables[v]).offset == table_end(variables, v)
    &&& table_end(variables, variables.len() as int) == count
}

/// The literal stands for a variable that exists, with its table.
pub open spec fn literal_ok(literal: LiteralView, variables: Seq<VariableView>) -> bool {
    &&& literal.variable < variables.len()
    &&& literal.lengths == variables[literal.variable as int].lengths
    &&& literal.offset == variables[literal.variable as int].offset
}

/// The clause is well formed, and its literals stand for variables that
/// exist.
pub open spec fn clause_ok(clause: ClauseView, variables: Seq<VariableView>, domains: Seq<DomainView>) -> bool {
    &&& clause.wf()
    &&& forall|k: int| 0 <= k < clause.literals.len() ==> literal_ok(#[trigger] clause.literals[k], variables)
    &&& forall|x: int| 0 <= x < clause.domains.len() ==> (#[trigger] clause.domains[x]).0 < domains.len()
    &&& clause.lengths == sizes_of(domains, clause.domains)
}

/// The axiom is well formed and stands for a variable that exists.
pub open spec fn exist_ok(exist: ExistView, variables: Seq<VariableView>) -> bool {
    &&& exist.wf()
    &&& exist.variable < variables.len()
    &&& exist.lengths == variables[exist.variable as int].lengths
    &&& exist.offset == variables[exist.variable as int].offset
}

/// The smallest status of the first `upto` clauses, or true if there is none.
pub open spec fn clauses_status(clauses: Seq<ClauseView>, upto: int) -> nat
    decreases upto,
{
    if upto <= 0 {
        EVAL_TRUE as nat
    } else {
        and_value(clauses_status(clauses, upto - 1), lowest(clauses[upto - 1].cells))
    }
}

/// The smallest status of the first `upto` axioms of existence, or true
/// if there is none.
pub open spec fn exists_status(exists: Seq<ExistView>, assignment: Seq<nat>, upto: int) -> nat
    decreases upto,
{
    if upto <= 0 {
        EVAL_TRUE as nat
    } else {
        and_value(
            exists_status(exists, assignment, upto - 1),
            exists[upto - 1].status(assignment, exists[upto - 1].fibers()),
        )
    }
}

/// The state after the atoms of a square table that begins at `offset`
/// got their values, the first `upto` of them: true on the diagonal, false
/// elsewhere.
pub open spec fn equalized(state: StateView, offset: int, size: int, upto: int) -> StateView
    decreases upto,
{
    if upto <= 0 {
        state
    } else {
        equalized(state, offset, size, upto - 1).assigned(
            (offset + upto - 1) as usize,
            (upto - 1) / size == (upto - 1) % size,
            ReasonView::Initial,
        )
    }
}

/// The mathematical value of a solver.
pub struct SolverView {
    pub state: StateView,
    pub domains: Seq<DomainView>,
    pub variables: Seq<VariableView>,
    pub clauses: Seq<ClauseView>,
    pub exists: Seq<ExistView>,
}

impl SolverView {
    /// The parts of the solver are well formed and fit together.
    #[verifier::opaque]
    pub open spec fn wf(self) -> bool {
        &&& self.state.wf()
        &&& self.state.assignment.len() + 15 <= usize::MAX
        &&& domains_ok(self.domains)
        &&& variables_ok(self.variables, self.domains, self.state.assignment.len())
        &&& forall|c: int|
            0 <= c < self.clauses.len() ==> clause_ok(#[trigger] self.clauses[c], self.variables, self.domains)
        &&& forall|e: int| 0 <= e < self.exists.len() ==> exist_ok(#[trigger] self.exists[e], self.variables)
    }

    /// Why a domain with this name and size cannot be added, if it cannot.
    pub open spec fn domain_refusal(self, name: Seq<char>, size: usize) -> Option<SolverError> {
        if has_domain(self.domains, name) {
            Some(SolverError::DuplicateName)
        } else if size == 0 {
            Some(SolverError::EmptyDomain)
        } else {
            None
        }
    }

    /// Why a variable with this name over these domains cannot be added,
    /// if it cannot.
    pub open spec fn variable_refusal(self, name: Seq<char>, handles: Seq<Dom>) -> Option<SolverError> {
        if has_variable(self.variables, name) {
            Some(SolverError::DuplicateName)
        } else if exists|k: int| 0 <= k < handles.len() && (#[trigger] handles[k]).0 >= self.domains.len() {
            Some(SolverError::UnknownHandle)
        } else if self.state.assignment.len() + bulk_of(sizes_of(self.domains, handles)) + 15 > usize::MAX {
            Some(SolverError::TooLarge)
        } else {
            None
        }
    }

    /// Why the atom of the variable at the given coordinates cannot get a
    /// value, if it cannot.
    pub open spec fn value_refusal(self, var: Var, coords: Seq<usize>) -> Option<SolverError> {
        if var.0 >= self.variables.len() {
            Some(SolverError::UnknownHandle)
        } else if coords.len() != self.variables[var.0 as int].lengths.len() {
            Some(SolverError::ArityMismatch)
        } else if !valid_coords(self.variables[var.0 as int].lengths, coords) {
            Some(SolverError::OutOfRange)
        } else if self.state.assignment[self.atom(var, coords) as int] != BOOL_UNDEF {
            Some(SolverError::AlreadyAssigned)
        } else {
            None
        }
    }

    /// The position of the atom of the variable at the given coordinates.
    pub open spec fn atom(self, var: Var, coords: Seq<usize>) -> nat {
        self.variables[var.0 as int].offset as nat + flat_index(self.variables[var.0 as int].lengths, coords)
    }

    /// Why an axiom of existence cannot be added for the variable, if it
    /// cannot.
    pub open spec fn exist_refusal(self, var: Var) -> Option<SolverError> {
        if var.0 >= self.variables.len() {
            Some(SolverError::UnknownHandle)
        } else if self.variables[var.0 as int].lengths.len() == 0 {
            Some(SolverError::ArityMismatch)
        } else {
            None
        }
    }

    /// Whether an atom of the table of the variable has a value.
    pub open spec fn touched(self, var: Var) -> bool {
        exists|p: int|
            self.variables[var.0 as int].offset <= p < table_end(self.variables, var.0 + 1)
                && #[trigger] self.state.assignment[p] != BOOL_UNDEF
    }

    /// Why the variable cannot be made the equality, if it cannot.
    pub open spec fn equality_refusal(self, var: Var) -> Option<SolverError> {
        if var.0 >= self.variables.len() {
            Some(SolverError::UnknownHandle)
        } else if self.variables[var.0 as int].lengths.len() != 2 {
            Some(SolverError::ArityMismatch)
        } else if self.variables[var.0 as int].domains[0] != self.variables[var.0 as int].domains[1] {
            Some(SolverError::DomainMismatch)
        } else if self.touched(var) {
            Some(SolverError::AlreadyAssigned)
        } else {
            None
        }
    }

    /// What a well-formed solver says of the state and of a domain.
    pub proof fn lemma_domain(self, d: int)
        requires
            self.wf(),
            0 <= d < self.domains.len(),
        ensures
            self.state.wf(),
            self.state.assignment.len() + 15 <= usize::MAX,
            self.domains[d].size >= 1,
    {
        reveal(SolverView::wf);
    }

    /// A well-formed solver without variables has no atoms.
    pub proof fn lemma_empty(self)
        requires
            self.wf(),
            self.variables.len() == 0,
        ensures
            self.state.assignment.len() == 0,
    {
        reveal(SolverView::wf);
    }

    /// What a well-formed solver says of a variable.
    pub proof fn lemma_variable(self, v: int)
        requires
            self.wf(),
            0 <= v < self.variables.len(),
        ensures
            variable_ok(self.variables[v], self.domains),
            self.variables[v].offset == table_end(self.variables, v),
            table_end(self.variables, self.variables.len() as int) == self.state.assignment.len(),
    {
        reveal(SolverView::wf);
    }

    /// What a well-formed solver says of a clause.
    pub proof fn lemma_clause(self, c: int)
        requires
            self.wf(),
            0 <= c < self.clauses.len(),
        ensures
            clause_ok(self.clauses[c], self.variables, self.domains),
    {
        reveal(SolverView::wf);
    }

    /// A well-formed solver stays so when a clause is added that fits it.
    pub proof fn lemma_more_clauses(self, added: ClauseView)
        requires
            self.wf(),
            clause_ok(added, self.variables, self.domains),
        ensures
            (SolverView { clauses: self.clauses.push(added), ..self }).wf(),
    {
        reveal(SolverView::wf);
        let after = SolverView { clauses: self.clauses.push(added), ..self };
        assert forall|c: int| 0 <= c < after.clauses.len() implies clause_ok(
            #[trigger] after.clauses[c],
            after.variables,
            after.domains,
        ) by {
            if c < self.clauses.len() {
                assert(after.clauses[c] == self.clauses[c]);
            }
        }
    }

    /// A well-formed solver stays so when a clause is replaced by one
    /// that fits it.
    pub proof fn lemma_other_clause(self, index: int, fresh: ClauseView)
        requires
            self.wf(),
            0 <= index < self.clauses.len(),
            clause_ok(fresh, self.variables, self.domains),
        ensures
            (SolverView { clauses: self.clauses.update(index, fresh), ..self }).wf(),
    {
        reveal(SolverView::wf);
        let after = SolverView { clauses: self.clauses.update(index, fresh), ..self };
        assert forall|c: int| 0 <= c < after.clauses.len() implies clause_ok(
            #[trigger] after.clauses[c],
            after.variables,
            after.domains,
        ) by {
            if c != index {
                assert(after.clauses[c] == self.clauses[c]);
            }
        }
    }

    /// A well-formed solver stays so when an axiom of existence is added
    /// that fits it.
    pub proof fn lemma_more_exists(self, added: ExistView)
        requires
            self.wf(),
            exist_ok(added, self.variables),
        ensures
            (SolverView { exists: self.exists.push(added), ..self }).wf(),
    {
        reveal(SolverView::wf);
        let after = SolverView { exists: self.exists.push(added), ..self };
        assert forall|e: int| 0 <= e < after.exists.len() implies exist_ok(
            #[trigger] after.exists[e],
            after.variables,
        ) by {
            if e < self.exists.len() {
                assert(after.exists[e] == self.exists[e]);
            }
        }
    }

    /// A well-formed solver stays so when its state is replaced by a
    /// well-formed state with as many atoms.
    pub proof fn lemma_other_state(self, state: StateView)
        requires
            self.wf(),
            state.wf(),
            state.assignment.len() == self.state.assignment.len(),
        ensures
            (SolverView { state, ..self }).wf(),
    {
        reveal(SolverView::wf);
    }

    /// The tables of the variables follow one another: a later table ends
    /// behind an earlier one.
    pub proof fn lemma_tables_rise(self, v: int, w: int)
        requires
            self.wf(),
            0 <= v <= w <= self.variables.len(),
        ensures
            table_end(self.variables, v) <= table_end(self.variables, w),
        decreases w - v,
    {
        reveal(SolverView::wf);
        if v < w {
            self.lemma_tables_rise(v, w - 1);
            if w - 1 > 0 {
                assert(self.variables[w - 1].offset == table_end(self.variables, w - 1));
            }
        }
    }

    /// An atom stands in the table of one variable only.
    pub proof fn lemma_unique_table(self, pos: int, v: int)
        requires
            self.wf(),
            0 <= v < self.variables.len(),
            self.variables[v].offset <= pos < self.variables[v].offset + volume_of(self.variables[v].lengths),
        ensures
            forall|w: int|
                0 <= w < self.variables.len() && (#[trigger] self.variables[w]).offset <= pos
                    < self.variables[w].offset + volume_of(self.variables[w].lengths) ==> w == v,
    {
        reveal(SolverView::wf);
        assert forall|w: int|
            0 <= w < self.variables.len() && (#[trigger] self.variables[w]).offset <= pos
                < self.variables[w].offset + volume_of(self.variables[w].lengths) implies w == v by {
            assert(self.variables[v].offset == table_end(self.variables, v));
            assert(self.variables[w].offset == table_end(self.variables, w));
            if w < v {
                self.lemma_tables_rise(w + 1, v);
            } else if v < w {
                self.lemma_tables_rise(v + 1, w);
            }
        }
    }

    /// The tables of all variables lie within the assignment.
    pub proof fn lemma_tables(self, v: int)
        requires
            self.wf(),
            0 <= v < self.variables.len(),
        ensures
            self.variables[v].offset + volume_of(self.variables[v].lengths) <= self.state.assignment.len(),
            table_end(self.variables, v + 1) == self.variables[v].offset + volume_of(
                self.variables[v].lengths,
            ),
        decreases self.variables.len() - v,
    {
        reveal(SolverView::wf);
        if v + 1 < self.variables.len() {
            self.lemma_tables(v + 1);
            assert(self.variables[v + 1].offset == table_end(self.variables, v + 1));
        }
    }
}

/// The solver for the models of a theory.
pub struct Solver {
    state: State,
    domains: Vec<Domain>,
    variables: Vec<Variable>,
    clauses: Vec<Clause>,
    exists: Vec<Exist>,
}

impl Solver {
    /// The mathematical value of the solver.
    pub closed spec fn view(&self) -> SolverView {
        SolverView {
            state: self.state@,
            domains: Seq::new(self.domains@.len(), |d: int| self.domains@[d]@),
            variables: Seq::new(self.variables@.len(), |v: int| self.variables@[v]@),
            clauses: Seq::new(self.clauses@.len(), |c: int| self.clauses@[c]@),
            exists: Seq::new(self.exists@.len(), |e: int| self.exists@[e]@),
        }
    }

    /// The parts of the solver are well formed and fit together.
    pub closed spec fn wf(&self) -> bool {
        &&& self.state.wf()
        &&& forall|v: int| 0 <= v < self.variables@.len() ==> (#[trigger] self.variables@[v]).wf()
        &&& forall|c: int|
            0 <= c < self.clauses@.len() ==> (#[trigger] self.clauses@[c]).wf() && self.clauses@[c]@.within(
                self.state@.assignment.len(),
            )
        &&& forall|e: int|
            0 <= e < self.exists@.len() ==> (#[trigger] self.exists@[e]).wf() && self.exists@[e]@.within(
                self.state@.assignment.len(),
            )
        &&& self@.wf()
    }

    /// A well-formed solver has a well-formed value.
    pub proof fn lemma_wf(&self)
        requires
            self.wf(),
        ensures
            self@.wf(),
    {
    }

    /// The solver of the empty theory.
    pub fn new() -> (r: Self)
        ensures
            r.wf(),
            r@.state.assignment.len() == 0,
            r@.state.trail.len() == 0,
            r@.state.levels.len() == 0,
            r@.domains.len() == 0,
            r@.variables.len() == 0,
            r@.clauses.len() == 0,
            r@.exists.len() == 0,
    {
        let r = Solver {
            state: State::new(),
            domains: Vec::new(),
            variables: Vec::new(),
            clauses: Vec::new(),
            exists: Vec::new(),
        };
        proof {
            reveal(SolverView::wf);
            r.state.lemma_wf();
        }
        r
    }

    /// The state of the search.
    pub fn state(&self) -> (r: &State)
        requires
            self.wf(),
        ensures
            r.wf(),
            r@ == self@.state,
    {
        &self.state
    }

    /// The domain with the given handle.
    pub fn domain(&self, dom: Dom) -> (r: &Domain)
        requires
            dom.0 < self@.domains.len(),
        ensures
            r@ == self@.domains[dom.0 as int],
    {
        &self.domains[dom.0]
    }

    /// The variable with the given handle.
    pub fn variable(&self, var: Var) -> (r: &Variable)
        requires
            self.wf(),
            var.0 < self@.variables.len(),
        ensures
            r.wf(),
            r@ == self@.variables[var.0 as int],
    {
        &self.variables[var.0]
    }

    /// The number of domains.
    pub fn domain_count(&self) -> (r: usize)
        ensures
            r == self@.domains.len(),
    {
        self.domains.len()
    }

    /// The number of variables.
    pub fn variable_count(&self) -> (r: usize)
        ensures
            r == self@.variables.len(),
    {
        self.variables.len()
    }

    /// The number of axioms of existence.
    pub fn exist_count(&self) -> (r: usize)
        ensures
            r == self@.exists.len(),
    {
        self.exists.len()
    }

    /// The axiom of existence with the given number.
    pub fn exist(&self, index: usize) -> (r: &Exist)
        requires
            self.wf(),
            index < self@.exists.len(),
        ensures
            r.wf(),
            r@ == self@.exists[index as int],
            r@.within(self@.state.assignment.len()),
    {
        &self.exists[index]
    }

    /// The number of clauses.
    pub fn clause_count(&self) -> (r: usize)
        ensures
            r == self@.clauses.len(),
    {
        self.clauses.len()
    }

    /// The clause with the given number.
    pub fn clause(&self, index: usize) -> (r: &Clause)
        requires
            self.wf(),
            index < self@.clauses.len(),
        ensures
            r.wf(),
            r@ == self@.clauses[index as int],
    {
        &self.clauses[index]
    }

    /// Adds a domain with the given name and number of elements, and
    /// returns its handle.
    ///
    /// Fails with `DuplicateName` if a domain of this name exists, else
    /// with `EmptyDomain` if the size is zero.
    pub fn add_domain(&mut self, name: &str, size: usize) -> (r: Result<Dom, SolverError>)
        requires
            old(self).wf(),
        ensures
            final(self).wf(),
            match r {
                Ok(dom) => old(self)@.domain_refusal(name@, size).is_none() && dom.0 == old(self)@.domains.len() && final(self)@ == (SolverView {
                    domains: old(self)@.domains.push(DomainView { name: name@, size }),
                    ..old(self)@
                }),
                Err(e) => old(self)@.domain_refusal(name@, size) == Some(e) && final(self)@ == old(self)@,
            },
    {
        let ghost before = self@;
        let n = self.domains.len();
        let mut d: usize = 0;
        while d < n
            invariant
                d <= n,
                n == self.domains@.len(),
                self.wf(),
                self@ == before,
                forall|k: int| 0 <= k < d ==> (#[trigger] before.domains[k]).name != name@,
            decreases n - d,
        {
            if Self::same_text(self.domains[d].name(), name) {
                proof {
                    assert(before.domains[d as int].name == name@);
                }
                return Err(SolverError::DuplicateName);
            }
            d += 1;
        }
        if size == 0 {
            return Err(SolverError::EmptyDomain);
        }
        self.domains.push(Domain::new(name, size));
        proof {
            let after = self@;
            let grown = before.domains.push(DomainView { name: name@, size });
            assert(after.domains =~= grown);
            assert(after.variables =~= before.variables);
            assert(after.clauses =~= before.clauses);
            assert(after.exists =~= before.exists);
            lemma_more_domains(before, DomainView { name: name@, size });
        }
        Ok(Dom(n))
    }

    /// Whether two texts are the same.
    fn same_text(a: &str, b: &str) -> (r: bool)
        ensures
            r == (a@ == b@),
    {
        let x = a.to_owned();
        let y = b.to_owned();
        x == y
    }

    /// Adds a variable with the given name over the given domains, all of
    /// its atoms without a value, and returns its handle.
    ///
    /// Fails with `DuplicateName` if a variable of this name exists, else
    /// with `UnknownHandle` if one of the domains does not exist, else with
    /// `TooLarge` if the table does not fit into the address space.
    #[verifier::loop_isolation(false)]
    pub fn add_variable(&mut self, name: &str, domains: Vec<Dom>) -> (r: Result<Var, SolverError>)
        requires
            old(self).wf(),
        ensures
            final(self).wf(),
            match r {
                Ok(var) => old(self)@.variable_refusal(name@, domains@).is_none() && var.0 == old(self)@.variables.len() && final(self)@ == (SolverView {
                    state: StateView {
                        assignment: old(self)@.state.assignment + Seq::new(
                            volume_of(sizes_of(old(self)@.domains, domains@)),
                            |i: int| BOOL_UNDEF as nat,
                        ),
                        ..old(self)@.state
                    },
                    variables: old(self)@.variables.push(
                        VariableView {
                            name: name@,
                            domains: domains@,
                            lengths: sizes_of(old(self)@.domains, domains@),
                            offset: old(self)@.state.assignment.len() as usize,
                        },
                    ),
                    ..old(self)@
                }),
                Err(e) => old(self)@.variable_refusal(name@, domains@) == Some(e) && final(self)@ == old(self)@,
            },
    {
        let ghost before = self@;
        let n = self.variables.len();
        let mut v: usize = 0;
        while v < n
            invariant
                v <= n,
                self.wf(),
                self@ == before,
                forall|k: int| 0 <= k < v ==> (#[trigger] before.variables[k]).name != name@,
            decreases n - v,
        {
            if Self::same_text(self.variables[v].name(), name) {
                proof {
                    assert(before.variables[v as int].name == name@);
                }
                return Err(SolverError::DuplicateName);
            }
            v += 1;
        }
        let ghost handles = domains@;
        let ghost goal = sizes_of(before.domains, handles);
        let mut sizes: Vec<usize> = Vec::new();
        let mut k: usize = 0;
        while k < domains.len()
            invariant
                k <= handles.len(),
                handles == domains@,
                self.wf(),
                self@ == before,
                forall|j: int| 0 <= j < k ==> (#[trigger] handles[j]).0 < before.domains.len(),
                sizes@ == goal.take(k as int),
            decreases handles.len() - k,
        {
            let dom = domains[k];
            if dom.0 >= self.domains.len() {
                proof {
                    assert(handles[k as int].0 >= before.domains.len());
                }
                return Err(SolverError::UnknownHandle);
            }
            sizes.push(self.domains[dom.0].size());
            proof {
                assert(sizes@ =~= goal.take(k + 1));
            }
            k += 1;
        }
        proof {
            assert(sizes@ =~= goal);
            self.state.lemma_wf();
        }
        let room = Self::bulk(&sizes);
        let total = match room {
            Some(bulk) => match bulk.checked_add(15) {
                Some(padded) => self.state.assignment().len().checked_add(padded),
                None => None,
            },
            None => None,
        };
        if total.is_none() {
            return Err(SolverError::TooLarge);
        }
        let variable = Variable::new(&mut self.state, name, domains, sizes);
        self.variables.push(variable);
        proof {
            let after = self@;
            let added = VariableView {
                name: name@,
                domains: handles,
                lengths: goal,
                offset: before.state.assignment.len() as usize,
            };
            assert(after.variables =~= before.variables.push(added));
            assert(after.domains =~= before.domains);
            assert(after.clauses =~= before.clauses);
            assert(after.exists =~= before.exists);
            assert(variable_ok(added, before.domains));
            lemma_more_variables(before, added);
            assert(after == with_variable(before, added));
            assert forall|w: int| 0 <= w < self.variables@.len() implies (#[trigger] self.variables@[w]).wf() by {
                if w < n {
                    assert(self.variables@[w] == old(self).variables@[w]);
                }
            }
        }
        Ok(Var(n))
    }

    /// The product of the sizes in which every zero counts as one, if it
    /// fits into a machine word.
    pub fn bulk(sizes: &Vec<usize>) -> (r: Option<usize>)
        ensures
            match r {
                Some(bulk) => bulk == bulk_of(sizes@),
                None => bulk_of(sizes@) > usize::MAX,
            },
    {
        let mut product: usize = 1;
        let mut k: usize = 0;
        proof {
            assert(sizes@.take(0) =~= Seq::empty());
        }
        while k < sizes.len()
            invariant
                k <= sizes@.len(),
                product == bulk_of(sizes@.take(k as int)),
            decreases sizes@.len() - k,
        {
            proof {
                assert(sizes@.take(k + 1).drop_last() =~= sizes@.take(k as int));
                crate::shape::lemma_bulk_prefix(sizes@, k + 1);
            }
            if sizes[k] != 0 {
                let next = product.checked_mul(sizes[k]);
                if next.is_none() {
                    return None;
                }
                product = next.unwrap();
            }
            k += 1;
        }
        proof {
            assert(sizes@.take(k as int) =~= sizes@);
        }
        Some(product)
    }

    /// Adds the axiom that along the last axis of the variable every fiber
    /// holds an atom that is true.
    ///
    /// Fails with `UnknownHandle` if the variable does not exist, else with
    /// `ArityMismatch` if it has no axis.
    pub fn add_exist(&mut self, var: Var) -> (r: Result<(), SolverError>)
        requires
            old(self).wf(),
        ensures
            final(self).wf(),
            match r {
                Ok(_) => old(self)@.exist_refusal(var).is_none() && final(self)@ == (SolverView {
                    exists: old(self)@.exists.push(
                        ExistView {
                            variable: var.0,
                            lengths: old(self)@.variables[var.0 as int].lengths,
                            offset: old(self)@.variables[var.0 as int].offset,
                        },
                    ),
                    ..old(self)@
                }),
                Err(e) => old(self)@.exist_refusal(var) == Some(e) && final(self)@ == old(self)@,
            },
    {
        let ghost before = self@;
        if var.0 >= self.variables.len() {
            return Err(SolverError::UnknownHandle);
        }
        proof {
            assert(before.variables[var.0 as int] == self.variables@[var.0 as int]@);
            before.lemma_variable(var.0 as int);
            before.lemma_tables(var.0 as int);
        }
        if self.variables[var.0].arity() == 0 {
            return Err(SolverError::ArityMismatch);
        }
        let exist = Exist::new(var, self.variables[var.0].shape());
        self.exists.push(exist);
        proof {
            let after = self@;
            let added = ExistView {
                variable: var.0,
                lengths: before.variables[var.0 as int].lengths,
                offset: before.variables[var.0 as int].offset,
            };
            assert(after.exists =~= before.exists.push(added));
            assert(after.domains =~= before.domains);
            assert(after.variables =~= before.variables);
            assert(after.clauses =~= before.clauses);
            before.lemma_more_exists(added);
            assert forall|e: int| 0 <= e < self.exists@.len() implies (#[trigger] self.exists@[e]).wf()
                && self.exists@[e]@.within(self.state@.assignment.len()) by {
                if e < before.exists.len() {
                    assert(self.exists@[e] == old(self).exists@[e]);
                }
            }
        }
        Ok(())
    }

    /// Gives the atom of the variable at the given coordinates the value
    /// of `sign`, before the search begins.
    ///
    /// Fails with `UnknownHandle` if the variable does not exist, else with
    /// `ArityMismatch` if there is not one coordinate for every axis, else
    /// with `OutOfRange` if a coordinate is not below the size of its
    /// domain, else with `AlreadyAssigned` if the atom has a value.
    #[verifier::loop_isolation(false)]
    pub fn set_value(&mut self, sign: bool, var: Var, coordinates: &[usize]) -> (r: Result<(), SolverError>)
        requires
            old(self).wf(),
        ensures
            final(self).wf(),
            match r {
                Ok(_) => old(self)@.value_refusal(var, coordinates@).is_none() && final(self)@ == (
                SolverView {
                    state: old(self)@.state.assigned(
                        old(self)@.atom(var, coordinates@) as usize,
                        sign,
                        ReasonView::Initial,
                    ),
                    ..old(self)@
                }),
                Err(e) => old(self)@.value_refusal(var, coordinates@) == Some(e) && final(self)@ == old(self)@,
            },
    {
        let ghost before = self@;
        if var.0 >= self.variables.len() {
            return Err(SolverError::UnknownHandle);
        }
        proof {
            assert(before.variables[var.0 as int] == self.variables@[var.0 as int]@);
            before.lemma_tables(var.0 as int);
        }
        let shape = self.variables[var.0].shape();
        if coordinates.len() != shape.dimension() {
            return Err(SolverError::ArityMismatch);
        }
        let mut k: usize = 0;
        while k < coordinates.len()
            invariant
                k <= coordinates@.len(),
                forall|j: int| 0 <= j < k ==> coordinates@[j] < shape.spec_lengths()[j],
            decreases coordinates@.len() - k,
        {
            if coordinates[k] >= shape.length(k) {
                return Err(SolverError::OutOfRange);
            }
            k += 1;
        }
        let pos = shape.position(coordinates);
        if self.state.assignment().get(pos) != Bit2::new(BOOL_UNDEF) {
            return Err(SolverError::AlreadyAssigned);
        }
        self.state.assign(pos, sign, Reason::Initial);
        proof {
            self.lemma_state_changed(old(self));
        }
        Ok(())
    }

    /// A solver stays well formed when its state changes but keeps the
    /// number of its atoms.
    proof fn lemma_state_changed(&self, before: &Self)
        requires
            before.wf(),
            self.state.wf(),
            self.state@.assignment.len() == before.state@.assignment.len(),
            self.domains == before.domains,
            self.variables == before.variables,
            self.clauses == before.clauses,
            self.exists == before.exists,
        ensures
            self.wf(),
            self@ == (SolverView { state: self.state@, ..before@ }),
    {
        self.state.lemma_wf();
        before@.lemma_other_state(self.state@);
    }

    /// The smallest status of the clauses, as their cells stand.
    pub fn get_clauses_status(&self) -> (r: Bit2)
        requires
            self.wf(),
        ensures
            r@ == clauses_status(self@.clauses, self@.clauses.len() as int),
    {
        let mut res = Bit2::new(EVAL_TRUE);
        let mut c: usize = 0;
        while c < self.clauses.len()
            invariant
                c <= self.clauses@.len(),
                self.wf(),
                res@ <= 3,
                res@ == clauses_status(self@.clauses, c as int),
            decreases self.clauses@.len() - c,
        {
            let status = self.clauses[c].get_status();
            proof {
                assert(self@.clauses[c as int] == self.clauses@[c as int]@);
                lemma_lowest_range(self@.clauses[c as int].cells);
                lemma_eval_and(res@, status@);
            }
            res = eval_and().of(res, status);
            c += 1;
        }
        res
    }

    /// The smallest status of the axioms of existence in the current state.
    pub fn get_exists_status(&self) -> (r: Bit2)
        requires
            self.wf(),
        ensures
            r@ == exists_status(self@.exists, self@.state.assignment, self@.exists.len() as int),
    {
        let mut res = Bit2::new(EVAL_TRUE);
        let mut e: usize = 0;
        while e < self.exists.len()
            invariant
                e <= self.exists@.len(),
                self.wf(),
                res@ <= 3,
                res@ == exists_status(self@.exists, self@.state.assignment, e as int),
            decreases self.exists@.len() - e,
        {
            let status = self.exists[e].get_status(&self.state);
            proof {
                assert(self@.exists[e as int] == self.exists@[e as int]@);
                lemma_exist_status_range(self@.exists[e as int], self@.state.assignment, self@.exists[e as int].fibers());
                lemma_eval_and(res@, status@);
            }
            res = eval_and().of(res, status);
            e += 1;
        }
        res
    }

    /// The smallest status of the clauses and of the axioms of existence.
    pub fn get_status(&self) -> (r: Bit2)
        requires
            self.wf(),
        ensures
            r@ == and_value(
                clauses_status(self@.clauses, self@.clauses.len() as int),
                exists_status(self@.exists, self@.state.assignment, self@.exists.len() as int),
            ),
    {
        let a = self.get_clauses_status();
        let b = self.get_exists_status();
        proof {
            lemma_clauses_status_range(self@.clauses, self@.clauses.len() as int);
            lemma_exists_status_range(self@.exists, self@.state.assignment, self@.exists.len() as int);
            lemma_eval_and(a@, b@);
        }
        eval_and().of(a, b)
    }

    /// Computes the cells of all clauses under the current assignment.
    pub fn evaluate_all(&mut self)
        requires
            old(self).wf(),
        ensures
            final(self).wf(),
            final(self)@.state == old(self)@.state,
            final(self)@.domains == old(self)@.domains,
            final(self)@.variables == old(self)@.variables,
            final(self)@.exists == old(self)@.exists,
            final(self)@.clauses.len() == old(self)@.clauses.len(),
            forall|c: int|
                0 <= c < old(self)@.clauses.len() ==> #[trigger] final(self)@.clauses[c] == (ClauseView {
                    cells: old(self)@.clauses[c].evaluated(old(self)@.state.assignment),
                    ..old(self)@.clauses[c]
                }),
    {
        let ghost before = self@;
        let n = self.clauses.len();
        let mut c: usize = 0;
        while c < n
            invariant
                c <= n,
                n == self@.clauses.len(),
                self.wf(),
                self@.state == before.state,
                self@.domains == before.domains,
                self@.variables == before.variables,
                self@.exists == before.exists,
                self@.clauses.len() == before.clauses.len(),
                forall|k: int|
                    0 <= k < c ==> #[trigger] self@.clauses[k] == (ClauseView {
                        cells: before.clauses[k].evaluated(before.state.assignment),
                        ..before.clauses[k]
                    }),
                forall|k: int| c <= k < n ==> #[trigger] self@.clauses[k] == before.clauses[k],
            decreases n - c,
        {
            self.evaluate_clause(c);
            c += 1;
        }
    }

    /// Computes the cells of the clause with the given number under the
    /// current assignment.
    pub fn evaluate_clause(&mut self, index: usize)
        requires
            old(self).wf(),
            index < old(self)@.clauses.len(),
        ensures
            final(self).wf(),
            final(self)@.state == old(self)@.state,
            final(self)@.domains == old(self)@.domains,
            final(self)@.variables == old(self)@.variables,
            final(self)@.exists == old(self)@.exists,
            final(self)@.clauses == old(self)@.clauses.update(
                index as int,
                ClauseView {
                    cells: old(self)@.clauses[index as int].evaluated(old(self)@.state.assignment),
                    ..old(self)@.clauses[index as int]
                },
            ),
    {
        let ghost before = self@;
        let ghost clauses = self.clauses@;
        proof {
            assert(before.clauses[index as int] == self.clauses@[index as int]@);
        }
        self.clauses[index].evaluate(&self.state);
        proof {
            let after = self@;
            let fresh = ClauseView {
                cells: before.clauses[index as int].evaluated(before.state.assignment),
                ..before.clauses[index as int]
            };
            assert(after.clauses =~= before.clauses.update(index as int, fresh)) by {
                assert forall|k: int| 0 <= k < after.clauses.len() implies after.clauses[k]
                    == before.clauses.update(index as int, fresh)[k] by {
                    if k != index {
                        assert(self.clauses@[k] == clauses[k]);
                        assert(before.clauses[k] == clauses[k]@);
                    }
                }
            }
            assert(after.domains =~= before.domains);
            assert(after.variables =~= before.variables);
            assert(after.exists =~= before.exists);
            before.lemma_clause(index as int);
            self.clauses@[index as int].lemma_wf();
            assert(clause_ok(fresh, before.variables, before.domains));
            before.lemma_other_clause(index as int, fresh);
            assert forall|k: int| 0 <= k < self.clauses@.len() implies (#[trigger] self.clauses@[k]).wf()
                && self.clauses@[k]@.within(self.state@.assignment.len()) by {
                if k != index {
                    assert(self.clauses@[k] == clauses[k]);
                }
            }
        }
    }
}

/// The smallest of some evaluation values is an evaluation value.
pub proof fn lemma_lowest_range(cells: Seq<nat>)
    ensures
        lowest(cells) <= 3,
    decreases cells.len(),
{
    if cells.len() > 0 {
        lemma_lowest_range(cells.drop_last());
    }
}

/// The status of some clauses is an evaluation value.
pub proof fn lemma_clauses_status_range(clauses: Seq<ClauseView>, upto: int)
    ensures
        clauses_status(clauses, upto) <= 3,
    decreases upto,
{
    if upto > 0 {
        lemma_clauses_status_range(clauses, upto - 1);
    }
}

/// The status of an axiom of existence is an evaluation value.
pub proof fn lemma_exist_status_range(exist: ExistView, assignment: Seq<nat>, upto: int)
    ensures
        exist.status(assignment, upto) <= 3,
    decreases upto,
{
    if upto > 0 {
        lemma_exist_status_range(exist, assignment, upto - 1);
    }
}

/// The status of an axiom of existence is never a unit.
pub proof fn lemma_exist_status_plain(exist: ExistView, assignment: Seq<nat>, upto: int)
    ensures
        exist.status(assignment, upto) != EVAL_UNIT,
    decreases upto,
{
    if upto > 0 {
        lemma_exist_status_plain(exist, assignment, upto - 1);
    }
}

/// The status of some axioms of existence is never a unit.
pub proof fn lemma_exists_status_plain(exists: Seq<ExistView>, assignment: Seq<nat>, upto: int)
    ensures
        exists_status(exists, assignment, upto) != EVAL_UNIT,
    decreases upto,
{
    if upto > 0 {
        lemma_exists_status_plain(exists, assignment, upto - 1);
        lemma_exist_status_plain(exists[upto - 1], assignment, exists[upto - 1].fibers());
    }
}

/// The status of some axioms of existence is an evaluation value.
pub proof fn lemma_exists_status_range(exists: Seq<ExistView>, assignment: Seq<nat>, upto: int)
    ensures
        exists_status(exists, assignment, upto) <= 3,
    decreases upto,
{
    if upto > 0 {
        lemma_exists_status_range(exists, assignment, upto - 1);
    }
}

/// A well-formed solver stays so when a domain with a new name and at
/// least one element is added.
proof fn lemma_more_domains(before: SolverView, added: DomainView)
    requires
        before.wf(),
        !has_domain(before.domains, added.name),
        added.size >= 1,
    ensures
        (SolverView { domains: before.domains.push(added), ..before }).wf(),
{
    reveal(SolverView::wf);
    let after = SolverView { domains: before.domains.push(added), ..before };
    assert forall|d: int, e: int| 0 <= d < e < after.domains.len() implies (#[trigger] after.domains[d]).name
        != (#[trigger] after.domains[e]).name by {
        if e < before.domains.len() {
            assert(before.domains[d].name != before.domains[e].name);
        } else {
            assert(before.domains[d].name != added.name);
        }
    }
    assert forall|v: int| 0 <= v < after.variables.len() implies variable_ok(
        #[trigger] after.variables[v],
        after.domains,
    ) by {
        let variable = before.variables[v];
        assert(variable_ok(variable, before.domains));
        assert(sizes_of(after.domains, variable.domains) =~= sizes_of(before.domains, variable.domains)) by {
            assert forall|k: int| 0 <= k < variable.domains.len() implies after.domains[variable.domains[k].0 as int]
                == before.domains[variable.domains[k].0 as int] by {
                assert(variable.domains[k].0 < before.domains.len());
            }
        }
    }
    assert forall|c: int| 0 <= c < after.clauses.len() implies clause_ok(
        #[trigger] after.clauses[c],
        after.variables,
        after.domains,
    ) by {
        let clause = before.clauses[c];
        assert(clause_ok(clause, before.variables, before.domains));
        assert(sizes_of(after.domains, clause.domains) =~= sizes_of(before.domains, clause.domains)) by {
            assert forall|k: int| 0 <= k < clause.domains.len() implies after.domains[clause.domains[k].0 as int]
                == before.domains[clause.domains[k].0 as int] by {
                assert(clause.domains[k].0 < before.domains.len());
            }
        }
    }
}

/// The value of a solver after a variable was added behind the others.
pub open spec fn with_variable(before: SolverView, added: VariableView) -> SolverView {
    SolverView {
        state: StateView {
            assignment: before.state.assignment + Seq::new(
                volume_of(added.lengths),
                |i: int| BOOL_UNDEF as nat,
            ),
            ..before.state
        },
        variables: before.variables.push(added),
        ..before
    }
}

/// A well-formed solver stays so when a variable with a new name is added
/// behind the others.
proof fn lemma_more_variables(before: SolverView, added: VariableView)
    requires
        before.wf(),
        !has_variable(before.variables, added.name),
        variable_ok(added, before.domains),
        added.offset == before.state.assignment.len(),
        before.state.assignment.len() + bulk_of(added.lengths) + 15 <= usize::MAX,
    ensures
        with_variable(before, added).wf(),
{
    reveal(SolverView::wf);
    let after = with_variable(before, added);
    let n = before.variables.len() as int;
    before.state.lemma_grown(volume_of(added.lengths));
    lemma_bulk(added.lengths);
    assert forall|v: int, w: int| 0 <= v < w < after.variables.len() implies (
    #[trigger] after.variables[v]).name != (#[trigger] after.variables[w]).name by {
        if w < n {
            assert(before.variables[v].name != before.variables[w].name);
        } else {
            assert(before.variables[v].name != added.name);
        }
    }
    assert forall|v: int| 0 <= v < after.variables.len() implies (#[trigger] after.variables[v]).offset
        == table_end(after.variables, v) by {
        if v < n {
            assert(before.variables[v].offset == table_end(before.variables, v));
        }
    }
    assert forall|v: int| 0 <= v < after.variables.len() implies variable_ok(
        #[trigger] after.variables[v],
        after.domains,
    ) by {
        if v < n {
            assert(variable_ok(before.variables[v], before.domains));
        }
    }
    assert forall|c: int| 0 <= c < after.clauses.len() implies clause_ok(
        #[trigger] after.clauses[c],
        after.variables,
        after.domains,
    ) by {
        let clause = before.clauses[c];
        assert(clause_ok(clause, before.variables, before.domains));
        assert forall|k: int| 0 <= k < clause.literals.len() implies literal_ok(
            #[trigger] clause.literals[k],
            after.variables,
        ) by {
            assert(literal_ok(clause.literals[k], before.variables));
        }
    }
    assert forall|e: int| 0 <= e < after.exists.len() implies exist_ok(
        #[trigger] after.exists[e],
        after.variables,
    ) by {
        assert(exist_ok(before.exists[e], before.variables));
    }
}


/// The draft of a literal: its sign, its variable, and the variables of
/// the clause that stand at the axes of the variable.
pub type Draft = (bool, Var, Vec<usize>);

/// The variable of the clause that stands at axis `i` of draft `l`.
pub open spec fn slot(drafts: Seq<Draft>, l: int, i: int) -> usize {
    drafts[l].2@[i]
}

/// Whether `(l, i)` is an axis of a draft that comes before axis `pos` of
/// draft `upto`.
pub open spec fn earlier(drafts: Seq<Draft>, l: int, i: int, upto: int, pos: int) -> bool {
    &&& 0 <= l < drafts.len()
    &&& 0 <= i < drafts[l].2@.len()
    &&& l < upto || (l == upto && i < pos)
}

/// Whether the variable `x` of the clause stands at an axis of a draft
/// that comes before axis `pos` of draft `upto`.
pub open spec fn mentioned(drafts: Seq<Draft>, upto: int, pos: int, x: int) -> bool {
    exists|l: int, i: int| earlier(drafts, l, i, upto, pos) && #[trigger] slot(drafts, l, i) == x
}

/// Whether the variable `x` of the clause stands at no axis of a draft,
/// while the later variable `y` does.
pub open spec fn left_out(drafts: Seq<Draft>, x: int, y: int) -> bool {
    &&& 0 <= x < y
    &&& !mentioned(drafts, drafts.len() as int, 0, x)
    &&& mentioned(drafts, drafts.len() as int, 0, y)
}

impl SolverView {
    /// The domain of axis `i` of the variable of draft `l`.
    pub open spec fn draft_domain(self, drafts: Seq<Draft>, l: int, i: int) -> Dom {
        self.variables[drafts[l].1.0 as int].domains[i]
    }

    /// The draft has a variable that exists, and an index for every axis
    /// of it.
    pub open spec fn draft_ok(self, draft: Draft) -> bool {
        &&& draft.1.0 < self.variables.len()
        &&& draft.2@.len() == self.variables[draft.1.0 as int].domains.len()
    }

    /// Two axes of drafts have the same variable of the clause and
    /// different domains.
    pub open spec fn conflict(self, drafts: Seq<Draft>) -> bool {
        exists|l: int, i: int, m: int, j: int|
            earlier(drafts, l, i, drafts.len() as int, 0) && earlier(drafts, m, j, drafts.len() as int, 0)
                && #[trigger] slot(drafts, l, i) == #[trigger] slot(drafts, m, j) && self.draft_domain(
                drafts,
                l,
                i,
            ) != self.draft_domain(drafts, m, j)
    }

    /// A variable of the clause stands at no axis, while a later one does.
    pub open spec fn gap(self, drafts: Seq<Draft>) -> bool {
        exists|x: int, y: int| #[trigger] left_out(drafts, x, y)
    }

    /// The domains of the variables of the clause: the domain of every
    /// axis of a draft is the domain of the variable that stands there,
    /// and every variable stands at some axis.
    pub open spec fn frame_fits(self, drafts: Seq<Draft>, frame: Seq<Dom>) -> bool {
        &&& forall|l: int, i: int|
            earlier(drafts, l, i, drafts.len() as int, 0) ==> (#[trigger] slot(drafts, l, i)) < frame.len()
                && frame[slot(drafts, l, i) as int] == self.draft_domain(drafts, l, i)
        &&& forall|x: int| 0 <= x < frame.len() ==> #[trigger] mentioned(drafts, drafts.len() as int, 0, x)
    }

    /// The value of the literal that the draft stands for.
    pub open spec fn drafted(self, draft: Draft) -> LiteralView {
        LiteralView {
            sign: draft.0,
            variable: draft.1.0,
            lengths: self.variables[draft.1.0 as int].lengths,
            offset: self.variables[draft.1.0 as int].offset,
            axes: draft.2@,
        }
    }

    /// The clause of the given drafts has no room: its cells do not fit
    /// into the address space, or the sweep of a literal leaves it.
    pub open spec fn crowded(self, drafts: Seq<Draft>) -> bool {
        exists|frame: Seq<Dom>| #[trigger]
            self.frame_fits(drafts, frame) && {
                let sizes = sizes_of(self.domains, frame);
                ||| bulk_of(sizes) + 15 > usize::MAX
                ||| exists|l: int| 0 <= l < drafts.len() && !(#[trigger] self.drafted(drafts[l])).wf(sizes)
            }
    }

    /// Whether a draft has a variable that does not exist.
    pub open spec fn stray(self, drafts: Seq<Draft>) -> bool {
        exists|l: int| 0 <= l < drafts.len() && (#[trigger] drafts[l]).1.0 >= self.variables.len()
    }

    /// Whether a draft has not one index for every axis of its variable.
    pub open spec fn ragged(self, drafts: Seq<Draft>) -> bool {
        exists|l: int| 0 <= l < drafts.len() && !self.draft_ok(#[trigger] drafts[l])
    }

    /// Why the clause of the given drafts is refused, if it is: the first
    /// of the faults in this order.
    pub open spec fn clause_refusal(self, drafts: Seq<Draft>) -> Option<SolverError> {
        if self.stray(drafts) {
            Some(SolverError::UnknownHandle)
        } else if self.ragged(drafts) {
            Some(SolverError::ArityMismatch)
        } else if self.conflict(drafts) || self.gap(drafts) {
            Some(SolverError::DomainMismatch)
        } else if self.crowded(drafts) {
            Some(SolverError::TooLarge)
        } else {
            None
        }
    }

    /// The drafts of a clause determine the domains of its variables, and
    /// drafts with such domains show neither a conflict nor a gap.
    pub proof fn lemma_frame(self, drafts: Seq<Draft>, frame: Seq<Dom>, other: Seq<Dom>)
        requires
            self.frame_fits(drafts, frame),
            self.frame_fits(drafts, other),
        ensures
            frame == other,
            !self.conflict(drafts),
            !self.gap(drafts),
    {
        let n = drafts.len() as int;
        if self.conflict(drafts) {
            let (l, i, m, j) = choose|l: int, i: int, m: int, j: int|
                earlier(drafts, l, i, n, 0) && earlier(drafts, m, j, n, 0) && #[trigger] slot(drafts, l, i)
                    == #[trigger] slot(drafts, m, j) && self.draft_domain(drafts, l, i) != self.draft_domain(
                    drafts,
                    m,
                    j,
                );
            assert(frame[slot(drafts, l, i) as int] == self.draft_domain(drafts, l, i));
            assert(frame[slot(drafts, m, j) as int] == self.draft_domain(drafts, m, j));
        }
        if self.gap(drafts) {
            let (x, y) = choose|x: int, y: int| #[trigger] left_out(drafts, x, y);
            let (l, i) = choose|l: int, i: int| earlier(drafts, l, i, n, 0) && #[trigger] slot(drafts, l, i) == y;
            assert(slot(drafts, l, i) < frame.len());
            assert(mentioned(drafts, n, 0, x));
        }
        if frame.len() < other.len() {
            let x = frame.len() as int;
            assert(mentioned(drafts, n, 0, x));
            let (l, i) = choose|l: int, i: int| earlier(drafts, l, i, n, 0) && #[trigger] slot(drafts, l, i) == x;
            assert(slot(drafts, l, i) < frame.len());
        }
        if other.len() < frame.len() {
            let x = other.len() as int;
            assert(mentioned(drafts, n, 0, x));
            let (l, i) = choose|l: int, i: int| earlier(drafts, l, i, n, 0) && #[trigger] slot(drafts, l, i) == x;
            assert(slot(drafts, l, i) < other.len());
        }
        assert forall|x: int| 0 <= x < frame.len() implies frame[x] == other[x] by {
            assert(mentioned(drafts, n, 0, x));
            let (l, i) = choose|l: int, i: int| earlier(drafts, l, i, n, 0) && #[trigger] slot(drafts, l, i) == x;
            assert(frame[slot(drafts, l, i) as int] == self.draft_domain(drafts, l, i));
            assert(other[slot(drafts, l, i) as int] == self.draft_domain(drafts, l, i));
        }
        assert(frame =~= other);
    }
}

impl Solver {
    /// Finds the domains of the variables of the clause of the given
    /// drafts: for every variable the domain of the axes at which it stands.
    ///
    /// Fails with `UnknownHandle` if a variable does not exist, else with
    /// `ArityMismatch` if a draft has not one index for every axis of its
    /// variable, else with `DomainMismatch` if two axes with the same index
    /// have different domains, or if an index is left out.
    #[verifier::loop_isolation(false)]
    pub fn infer_frame(&self, drafts: &Vec<Draft>) -> (r: Result<Vec<Dom>, SolverError>)
        requires
            self.wf(),
        ensures
            match r {
                Ok(frame) => {
                    &&& self@.frame_fits(drafts@, frame@)
                    &&& forall|l: int| 0 <= l < drafts@.len() ==> self@.draft_ok(#[trigger] drafts@[l])
                    &&& !self@.stray(drafts@)
                    &&& !self@.ragged(drafts@)
                    &&& !self@.conflict(drafts@)
                    &&& !self@.gap(drafts@)
                },
                Err(e) => self@.clause_refusal(drafts@) == Some(e) && e != SolverError::TooLarge,
            },
    {
        let ghost model = self@;
        let ghost all = drafts@;
        let ghost n = all.len() as int;
        let mut k: usize = 0;
        while k < drafts.len()
            invariant
                k <= n,
                forall|m: int| 0 <= m < k ==> (#[trigger] all[m]).1.0 < model.variables.len(),
            decreases n - k,
        {
            if drafts[k].1.0 >= self.variables.len() {
                return Err(SolverError::UnknownHandle);
            }
            k += 1;
        }
        let mut k: usize = 0;
        while k < drafts.len()
            invariant
                k <= n,
                forall|m: int| 0 <= m < k ==> model.draft_ok(#[trigger] all[m]),
            decreases n - k,
        {
            proof {
                assert(model.variables[all[k as int].1.0 as int] == self.variables@[all[k as int].1.0 as int]@);
            }
            if self.variables[drafts[k].1.0].arity() != drafts[k].2.len() {
                proof {
                    assert(!model.draft_ok(all[k as int]));
                }
                return Err(SolverError::ArityMismatch);
            }
            k += 1;
        }
        let mut slots: Vec<Option<Dom>> = Vec::new();
        let mut l: usize = 0;
        while l < drafts.len()
            invariant
                l <= n,
                forall|m: int, j: int|
                    earlier(all, m, j, l as int, 0) ==> (#[trigger] slot(all, m, j)) < slots@.len()
                        && slots@[slot(all, m, j) as int] == Some(model.draft_domain(all, m, j)),
                forall|x: int|
                    0 <= x < slots@.len() && (#[trigger] slots@[x]).is_some() ==> mentioned(all, l as int, 0, x),
                slots@.len() > 0 ==> mentioned(all, l as int, 0, slots@.len() - 1),
            decreases n - l,
        {
            let var = drafts[l].1;
            proof {
                assert(model.draft_ok(all[l as int]));
                assert(model.variables[var.0 as int] == self.variables@[var.0 as int]@);
            }
            let variable = &self.variables[var.0];
            let count = drafts[l].2.len();
            let mut pos: usize = 0;
            while pos < count
                invariant
                    pos <= count,
                    forall|m: int, j: int|
                        earlier(all, m, j, l as int, pos as int) ==> (#[trigger] slot(all, m, j)) < slots@.len()
                            && slots@[slot(all, m, j) as int] == Some(model.draft_domain(all, m, j)),
                    forall|x: int|
                        0 <= x < slots@.len() && (#[trigger] slots@[x]).is_some() ==> mentioned(
                            all,
                            l as int,
                            pos as int,
                            x,
                        ),
                    slots@.len() > 0 ==> mentioned(all, l as int, pos as int, slots@.len() - 1),
                decreases count - pos,
            {
                let idx = drafts[l].2[pos];
                let ghost before = slots@;
                proof {
                    assert(slot(all, l as int, pos as int) == idx);
                    assert(earlier(all, l as int, pos as int, l as int, pos + 1));
                    assert forall|m: int, j: int| earlier(all, m, j, l as int, pos as int) implies earlier(
                        all,
                        m,
                        j,
                        l as int,
                        pos + 1,
                    ) by {}
                }
                while slots.len() <= idx
                    invariant
                        before.len() <= slots@.len(),
                        slots@.take(before.len() as int) == before,
                        forall|x: int| before.len() <= x < slots@.len() ==> (#[trigger] slots@[x]).is_none(),
                        slots@.len() <= idx + 1 || slots@.len() == before.len(),
                    decreases idx + 1 - slots@.len(),
                {
                    slots.push(None);
                    proof {
                        assert(slots@.take(before.len() as int) =~= before);
                    }
                }
                let ghost grown = slots@;
                proof {
                    assert forall|x: int| 0 <= x < before.len() implies grown[x] == before[x] by {
                        assert(grown.take(before.len() as int)[x] == before[x]);
                    }
                }
                let dom1 = variable.domains()[pos];
                proof {
                    assert(model.draft_domain(all, l as int, pos as int) == dom1);
                }
                match slots[idx] {
                    None => {
                        slots[idx] = Some(dom1);
                    },
                    Some(dom2) => {
                        if !Domain::eq(dom1, dom2) {
                            proof {
                                assert(idx < before.len());
                                assert(mentioned(all, l as int, pos as int, idx as int));
                                let (m, j) = choose|m: int, j: int|
                                    earlier(all, m, j, l as int, pos as int) && #[trigger] slot(all, m, j)
                                        == idx as int;
                                assert(before[slot(all, m, j) as int] == Some(model.draft_domain(all, m, j)));
                                assert(earlier(all, m, j, n, 0));
                                assert(earlier(all, l as int, pos as int, n, 0));
                                assert(model.conflict(all));
                            }
                            return Err(SolverError::DomainMismatch);
                        }
                    },
                }
                proof {
                    let after = slots@;
                    assert forall|m: int, j: int| earlier(all, m, j, l as int, pos + 1) implies (
                    #[trigger] slot(all, m, j)) < after.len() && after[slot(all, m, j) as int] == Some(
                        model.draft_domain(all, m, j),
                    ) by {
                        if m == l && j == pos {
                        } else {
                            assert(earlier(all, m, j, l as int, pos as int));
                            assert(before[slot(all, m, j) as int] == Some(model.draft_domain(all, m, j)));
                        }
                    }
                    assert forall|x: int| 0 <= x < after.len() && (#[trigger] after[x]).is_some() implies mentioned(
                        all,
                        l as int,
                        pos + 1,
                        x,
                    ) by {
                        if x == idx {
                            assert(slot(all, l as int, pos as int) == x);
                        } else {
                            assert(x < before.len());
                            assert(before[x].is_some());
                            assert(mentioned(all, l as int, pos as int, x));
                            let (m, j) = choose|m: int, j: int|
                                earlier(all, m, j, l as int, pos as int) && #[trigger] slot(all, m, j) == x;
                            assert(earlier(all, m, j, l as int, pos + 1));
                        }
                    }
                    if after.len() > 0 {
                        let top = after.len() - 1;
                        if top == idx {
                            assert(slot(all, l as int, pos as int) == top);
                        } else {
                            assert(after.len() == before.len());
                            assert(mentioned(all, l as int, pos as int, top));
                            let (m, j) = choose|m: int, j: int|
                                earlier(all, m, j, l as int, pos as int) && #[trigger] slot(all, m, j) == top;
                            assert(earlier(all, m, j, l as int, pos + 1));
                        }
                    }
                }
                pos += 1;
            }
            proof {
                assert forall|m: int, j: int| earlier(all, m, j, l + 1, 0) implies earlier(
                    all,
                    m,
                    j,
                    l as int,
                    count as int,
                ) by {}
                assert forall|x: int| mentioned(all, l as int, count as int, x) implies mentioned(
                    all,
                    l + 1,
                    0,
                    x,
                ) by {
                    let (m, j) = choose|m: int, j: int|
                        earlier(all, m, j, l as int, count as int) && #[trigger] slot(all, m, j) == x;
                    assert(earlier(all, m, j, l + 1, 0));
                }
            }
            l += 1;
        }
        let mut frame: Vec<Dom> = Vec::new();
        let mut x: usize = 0;
        while x < slots.len()
            invariant
                x <= slots@.len(),
                frame@.len() == x,
                forall|y: int| 0 <= y < x ==> slots@[y] == Some(#[trigger] frame@[y]),
            decreases slots@.len() - x,
        {
            match slots[x] {
                None => {
                    proof {
                        let top = slots@.len() - 1;
                        assert(mentioned(all, n, 0, top));
                        if mentioned(all, n, 0, x as int) {
                            let (m, j) = choose|m: int, j: int|
                                earlier(all, m, j, n, 0) && #[trigger] slot(all, m, j) == x as int;
                            assert(slots@[slot(all, m, j) as int].is_some());
                        }
                        let (m, j) = choose|m: int, j: int|
                            earlier(all, m, j, n, 0) && #[trigger] slot(all, m, j) == top;
                        assert(slots@[slot(all, m, j) as int].is_some());
                        assert(left_out(all, x as int, top));
                        assert(model.gap(all));
                    }
                    return Err(SolverError::DomainMismatch);
                },
                Some(dom) => {
                    frame.push(dom);
                },
            }
            x += 1;
        }
        proof {
            assert forall|m: int, j: int| earlier(all, m, j, n, 0) implies (#[trigger] slot(all, m, j))
                < frame@.len() && frame@[slot(all, m, j) as int] == model.draft_domain(all, m, j) by {
                assert(slots@[slot(all, m, j) as int] == Some(model.draft_domain(all, m, j)));
            }
            assert forall|y: int| 0 <= y < frame@.len() implies #[trigger] mentioned(all, n, 0, y) by {
                assert(slots@[y] == Some(frame@[y]));
            }
            model.lemma_frame(all, frame@, frame@);
        }
        Ok(frame)
    }
}


/// Whether the second solver has the theory of the first: the same
/// domains, variables and axioms of existence, and the same clauses but
/// for what stands in their cells.
pub open spec fn same_theory(before: SolverView, after: SolverView) -> bool {
    &&& after.domains == before.domains
    &&& after.variables == before.variables
    &&& after.exists == before.exists
    &&& after.clauses.len() == before.clauses.len()
    &&& forall|c: int|
        0 <= c < before.clauses.len() ==> #[trigger] after.clauses[c] == (ClauseView {
            cells: after.clauses[c].cells,
            ..before.clauses[c]
        })
}

/// Whether the second state continues the first: it has the same atoms
/// and levels, its trail begins with the trail of the first, and every atom
/// that had a value has kept it.
pub open spec fn continues(before: StateView, after: StateView) -> bool {
    &&& after.assignment.len() == before.assignment.len()
    &&& after.levels == before.levels
    &&& after.trail.len() >= before.trail.len()
    &&& after.trail.take(before.trail.len() as int) == before.trail
    &&& forall|p: int|
        0 <= p < before.assignment.len() && before.assignment[p] != BOOL_UNDEF ==> #[trigger] after.assignment[p]
            == before.assignment[p]
}

/// Whether the clause `c` is one of the `num` clauses that were visited
/// last, when the clause `idx` comes next and the visits go round.
pub open spec fn in_window(c: int, idx: int, num: int, count: int) -> bool {
    &&& 0 <= c < count
    &&& if num <= idx {
        idx - num <= c < idx
    } else {
        c < idx || c >= count - (num - idx)
    }
}

/// The status of some clauses is the smallest status of one of them, or
/// true.
pub proof fn lemma_clauses_status(clauses: Seq<ClauseView>, upto: int)
    requires
        0 <= upto <= clauses.len(),
    ensures
        clauses_status(clauses, upto) <= 3,
        forall|c: int| 0 <= c < upto ==> clauses_status(clauses, upto) <= lowest(#[trigger] clauses[c].cells),
        clauses_status(clauses, upto) == EVAL_TRUE || exists|c: int|
            0 <= c < upto && lowest(#[trigger] clauses[c].cells) == clauses_status(clauses, upto),
    decreases upto,
{
    if upto > 0 {
        lemma_clauses_status(clauses, upto - 1);
        lemma_lowest(clauses[upto - 1].cells);
        let here = clauses_status(clauses, upto);
        if here != EVAL_TRUE {
            if here == lowest(clauses[upto - 1].cells) {
            } else {
                let c = choose|c: int|
                    0 <= c < upto - 1 && lowest(#[trigger] clauses[c].cells) == clauses_status(clauses, upto - 1);
                assert(lowest(clauses[c].cells) == here);
            }
        }
    }
}

/// Giving values to the atoms of a square table changes no other atom
/// and keeps the number of atoms.
pub proof fn lemma_equalized(state: StateView, offset: int, size: int, upto: int)
    requires
        0 <= offset,
        0 <= upto,
        offset + upto <= state.assignment.len() <= usize::MAX,
    ensures
        equalized(state, offset, size, upto).assignment.len() == state.assignment.len(),
        equalized(state, offset, size, upto).levels == state.levels,
        forall|p: int|
            0 <= p < state.assignment.len() && !(offset <= p < offset + upto) ==> #[trigger] equalized(
                state,
                offset,
                size,
                upto,
            ).assignment[p] == state.assignment[p],
    decreases upto,
{
    if upto > 0 {
        lemma_equalized(state, offset, size, upto - 1);
    }
}

impl Solver {
    /// Makes a copy of some indices.
    fn copy_indices(indices: &Vec<usize>) -> (r: Vec<usize>)
        ensures
            r@ == indices@,
    {
        let mut copy: Vec<usize> = Vec::new();
        let mut i: usize = 0;
        while i < indices.len()
            invariant
                i <= indices@.len(),
                copy@ == indices@.take(i as int),
            decreases indices@.len() - i,
        {
            copy.push(indices[i]);
            proof {
                assert(copy@ =~= indices@.take(i + 1));
            }
            i += 1;
        }
        proof {
            assert(copy@ =~= indices@);
        }
        copy
    }

    /// Adds the clause of the given literals, each a sign, a variable, and
    /// for every axis of the variable the variable of the clause that stands
    /// there. The domains of the variables of the clause are those of the
    /// axes at which they stand. All cells of the clause are false at first.
    ///
    /// Fails with `UnknownHandle` if a variable does not exist, else with
    /// `ArityMismatch` if a literal has not one index for every axis of its
    /// variable, else with `DomainMismatch` if two axes with the same index
    /// have different domains or an index is left out, else with `TooLarge`
    /// if the clause has no room in the address space.
    #[verifier::loop_isolation(false)]
    pub fn add_clause(&mut self, literals: Vec<Draft>) -> (r: Result<(), SolverError>)
        requires
            old(self).wf(),
        ensures
            final(self).wf(),
            match r {
                Ok(_) => {
                    let added = final(self)@.clauses.last();
                    &&& old(self)@.clause_refusal(literals@) is None
                    &&& final(self)@ == (SolverView { clauses: old(self)@.clauses.push(added), ..old(self)@ })
                    &&& old(self)@.frame_fits(literals@, added.domains)
                    &&& added.lengths == sizes_of(old(self)@.domains, added.domains)
                    &&& added.literals == Seq::new(literals@.len(), |l: int| old(self)@.drafted(literals@[l]))
                    &&& added.cells == Seq::new(volume_of(added.lengths), |n: int| EVAL_FALSE as nat)
                },
                Err(e) => final(self)@ == old(self)@ && old(self)@.clause_refusal(literals@) == Some(e),
            },
    {
        let ghost model = self@;
        let ghost all = literals@;
        let framed = self.infer_frame(&literals);
        if framed.is_err() {
            return Err(framed.unwrap_err());
        }
        let frame = framed.unwrap();
        let ghost doms = frame@;
        proof {
            assert forall|x: int| 0 <= x < doms.len() implies (#[trigger] doms[x]).0 < model.domains.len() by {
                assert(mentioned(all, all.len() as int, 0, x));
                let (l, i) = choose|l: int, i: int|
                    earlier(all, l, i, all.len() as int, 0) && #[trigger] slot(all, l, i) == x;
                assert(model.draft_ok(all[l]));
                model.lemma_variable(all[l].1.0 as int);
                assert(doms[slot(all, l, i) as int] == model.draft_domain(all, l, i));
                assert(model.variables[all[l].1.0 as int].domains[i].0 < model.domains.len());
            }
        }
        let ghost goal = sizes_of(model.domains, doms);
        let mut sizes: Vec<usize> = Vec::new();
        let mut x: usize = 0;
        while x < frame.len()
            invariant
                x <= doms.len(),
                sizes@ == goal.take(x as int),
            decreases doms.len() - x,
        {
            proof {
                assert(model.domains[doms[x as int].0 as int] == self.domains@[doms[x as int].0 as int]@);
            }
            sizes.push(self.domains[frame[x].0].size());
            proof {
                assert(sizes@ =~= goal.take(x + 1));
            }
            x += 1;
        }
        proof {
            assert(sizes@ =~= goal);
            assert forall|y: int| 0 <= y < goal.len() implies goal[y] > 0 by {
                model.lemma_domain(doms[y].0 as int);
            }
            lemma_bulk(goal);
        }
        let room = Self::bulk(&sizes);
        if room.is_none() || room.unwrap() > usize::MAX - 15 {
            proof {
                assert(model.crowded(all));
            }
            return Err(SolverError::TooLarge);
        }
        let shape = Shape::new(sizes, 0);
        let mut lits: Vec<Literal> = Vec::new();
        let mut l: usize = 0;
        while l < literals.len()
            invariant
                l <= all.len(),
                self.wf(),
                self@ == model,
                *self == *old(self),
                shape.wf(),
                shape.spec_lengths() == goal,
                shape.spec_offset() == 0,
                lits@.len() == l,
                forall|k: int|
                    0 <= k < l ==> (#[trigger] lits@[k]).wf() && lits@[k].spec_frame() == goal && lits@[k]@
                        == model.drafted(all[k]),
            decreases all.len() - l,
        {
            let sign = literals[l].0;
            let var = literals[l].1;
            let ghost draft = all[l as int];
            proof {
                assert(model.draft_ok(draft));
                assert(model.variables[var.0 as int] == self.variables@[var.0 as int]@);
                model.lemma_variable(var.0 as int);
            }
            let axes = Self::copy_indices(&literals[l].2);
            let table = self.variables[var.0].shape();
            proof {
                let lengths = table.spec_lengths();
                lemma_canonical(lengths, lengths);
                assert forall|i: int| 0 <= i < axes@.len() implies (#[trigger] axes@[i]) < goal.len()
                    && canonical_axes(lengths)[i].0 == goal[axes@[i] as int] by {
                    assert(earlier(all, l as int, i, all.len() as int, 0));
                    assert(slot(all, l as int, i) == axes@[i]);
                    assert(doms[slot(all, l as int, i) as int] == model.draft_domain(all, l as int, i));
                    assert(lengths[i] == sizes_of(model.domains, model.variables[var.0 as int].domains)[i]);
                }
                assert(fits_lengths(canonical_axes(lengths), goal, axes@));
            }
            match Literal::new(&shape, sign, var, table, axes) {
                Err(e) => {
                    proof {
                        assert(!model.drafted(draft).wf(goal));
                        assert(e == SolverError::TooLarge);
                        assert(model.crowded(all));
                    }
                    return Err(SolverError::TooLarge);
                },
                Ok(lit) => {
                    lits.push(lit);
                },
            }
            l += 1;
        }
        let ghost made = lits@;
        let clause = Clause::new(shape, frame, lits);
        proof {
            clause.lemma_wf();
            assert forall|k: int| 0 <= k < clause@.literals.len() implies (#[trigger] clause@.literals[k]).within(
                self.state@.assignment.len(),
            ) && literal_ok(clause@.literals[k], model.variables) by {
                assert(clause@.literals[k] == made[k]@);
                assert(model.draft_ok(all[k]));
                model.lemma_tables(all[k].1.0 as int);
            }
            assert(clause_ok(clause@, model.variables, model.domains));
            assert(clause@.literals =~= Seq::new(all.len(), |l: int| model.drafted(all[l])));
        }
        let ghost added = clause@;
        proof {
            if model.crowded(all) {
                let other = choose|other: Seq<Dom>| #[trigger]
                    model.frame_fits(all, other) && {
                        let sizes = sizes_of(model.domains, other);
                        ||| bulk_of(sizes) + 15 > usize::MAX
                        ||| exists|l: int| 0 <= l < all.len() && !(#[trigger] model.drafted(all[l])).wf(sizes)
                    };
                model.lemma_frame(all, doms, other);
                let l = choose|l: int| 0 <= l < all.len() && !(#[trigger] model.drafted(all[l])).wf(goal);
                made[l].lemma_wf();
            }
        }
        self.clauses.push(clause);
        proof {
            let after = self@;
            assert(after.clauses =~= model.clauses.push(added));
            assert(after.domains =~= model.domains);
            assert(after.variables =~= model.variables);
            assert(after.exists =~= model.exists);
            model.lemma_more_clauses(added);
            assert forall|c: int| 0 <= c < self.clauses@.len() implies (#[trigger] self.clauses@[c]).wf()
                && self.clauses@[c]@.within(self.state@.assignment.len()) by {
                if c < model.clauses.len() {
                    assert(self.clauses@[c] == old(self).clauses@[c]);
                }
            }
        }
        Ok(())
    }

    /// Makes the variable the equality of its domain: the atom at `(i, j)`
    /// becomes true if `i` is `j`, and false otherwise.
    ///
    /// Fails with `UnknownHandle` if the variable does not exist, else with
    /// `ArityMismatch` if it has not two axes, else with `DomainMismatch` if
    /// its two domains differ, else with `AlreadyAssigned` if one of its
    /// atoms has a value.
    #[verifier::loop_isolation(false)]
    pub fn set_equality(&mut self, var: Var) -> (r: Result<(), SolverError>)
        requires
            old(self).wf(),
        ensures
            final(self).wf(),
            match r {
                Ok(_) => old(self)@.equality_refusal(var).is_none() && final(self)@ == (SolverView {
                    state: equalized(
                        old(self)@.state,
                        old(self)@.variables[var.0 as int].offset as int,
                        old(self)@.variables[var.0 as int].lengths[0] as int,
                        volume_of(old(self)@.variables[var.0 as int].lengths) as int,
                    ),
                    ..old(self)@
                }),
                Err(e) => old(self)@.equality_refusal(var) == Some(e) && final(self)@ == old(self)@,
            },
    {
        let ghost model = self@;
        if var.0 >= self.variables.len() {
            return Err(SolverError::UnknownHandle);
        }
        proof {
            assert(model.variables[var.0 as int] == self.variables@[var.0 as int]@);
            model.lemma_variable(var.0 as int);
            model.lemma_tables(var.0 as int);
            self.state.lemma_wf();
        }
        let ghost lengths = model.variables[var.0 as int].lengths;
        if self.variables[var.0].arity() != 2 {
            return Err(SolverError::ArityMismatch);
        }
        let first = self.variables[var.0].domains()[0];
        let second = self.variables[var.0].domains()[1];
        if !Domain::eq(first, second) {
            return Err(SolverError::DomainMismatch);
        }
        let offset = self.variables[var.0].shape().positions().start;
        let size = self.variables[var.0].shape().length(0);
        let volume = self.variables[var.0].shape().volume();
        proof {
            assert(lengths[0] == lengths[1]);
            model.lemma_domain(first.0 as int);
        }
        let mut n: usize = 0;
        while n < volume
            invariant
                n <= volume,
                self.wf(),
                self@ == model,
                *self == *old(self),
                forall|p: int| offset <= p < offset + n ==> model.state.assignment[p] == BOOL_UNDEF,
            decreases volume - n,
        {
            if self.state.assignment().get(offset + n) != Bit2::new(BOOL_UNDEF) {
                proof {
                    assert(model.state.assignment[offset + n] != BOOL_UNDEF);
                    assert(model.touched(var));
                }
                return Err(SolverError::AlreadyAssigned);
            }
            n += 1;
        }
        proof {
            if model.touched(var) {
                let p = choose|p: int|
                    model.variables[var.0 as int].offset <= p < table_end(model.variables, var.0 + 1)
                        && #[trigger] model.state.assignment[p] != BOOL_UNDEF;
                assert(false);
            }
        }
        n = 0;
        while n < volume
            invariant
                n <= volume,
                self.state.wf(),
                self.domains == old(self).domains,
                self.variables == old(self).variables,
                self.clauses == old(self).clauses,
                self.exists == old(self).exists,
                self.state@ == equalized(model.state, offset as int, size as int, n as int),
            decreases volume - n,
        {
            proof {
                lemma_equalized(model.state, offset as int, size as int, n as int);
            }
            self.state.assign(offset + n, n / size == n % size, Reason::Initial);
            n += 1;
        }
        proof {
            lemma_equalized(model.state, offset as int, size as int, volume as int);
            self.lemma_state_changed(old(self));
        }
        Ok(())
    }

    /// The variable in whose table the atom at the given position stands.
    #[verifier::loop_isolation(false)]
    pub fn lookup_var(&self, bvar: usize) -> (r: Var)
        requires
            self.wf(),
            bvar < self@.state.assignment.len(),
        ensures
            r.0 < self@.variables.len(),
            self@.variables[r.0 as int].offset <= bvar < self@.variables[r.0 as int].offset + volume_of(
                self@.variables[r.0 as int].lengths,
            ),
    {
        let ghost model = self@;
        let mut v: usize = 0;
        while v < self.variables.len()
            invariant
                v <= model.variables.len(),
                table_end(model.variables, v as int) <= bvar,
            decreases model.variables.len() - v,
        {
            proof {
                assert(model.variables[v as int] == self.variables@[v as int]@);
                model.lemma_tables(v as int);
                model.lemma_variable(v as int);
            }
            let range = self.variables[v].shape().positions();
            if bvar < range.end {
                return Var(v);
            }
            v += 1;
        }
        proof {
            if model.variables.len() > 0 {
                model.lemma_variable(0);
            } else {
                model.lemma_empty();
            }
            assert(false);
        }
        Var(0)
    }

    /// Propagates units over the clauses until nothing changes. The clauses
    /// are visited in their order, again and again. A visit computes the
    /// cells of the clause and scans them for units. The propagation is
    /// over when a clause has a cell that is false, or when all clauses
    /// were visited in a row without a change.
    ///
    /// The result is the status of the clauses: false, or true, or
    /// undefined. Unless it is false, the cells of all clauses stand as the
    /// assignment evaluates them.
    ///
    /// Every value that is added is forced: a model of the theory that
    /// keeps the values that the atoms had keeps the values that they have
    /// now. When the result is false, no model does.
    ///
    /// The solver that is left and the result are those of the course of
    /// the propagation from the first clause on: so every new step has the
    /// position and the reason that the scan of its clause gives it.
    #[verifier::loop_isolation(false)]
    pub fn propagate(&mut self) -> (status: Bit2)
        requires
            old(self).wf(),
        ensures
            final(self).wf(),
            same_theory(old(self)@, final(self)@),
            continues(old(self)@.state, final(self)@.state),
            status@ == clauses_status(final(self)@.clauses, final(self)@.clauses.len() as int),
            status@ != EVAL_UNIT,
            status@ != EVAL_FALSE ==> forall|c: int|
                0 <= c < final(self)@.clauses.len() ==> (#[trigger] final(self)@.clauses[c]).cells == final(self)@.clauses[c].evaluated(final(self)@.state.assignment),
            forced(old(self)@, old(self)@.state.assignment, final(self)@.state.assignment),
            status@ == EVAL_FALSE ==> hopeless(old(self)@, final(self)@.state.assignment),
            (final(self)@, status@ as nat) == propagated(old(self)@, 0, 0, EVAL_TRUE as nat),
    {
        let ghost model = self@;
        let count = self.clauses.len();
        let mut num: usize = 0;
        let mut res = Bit2::new(EVAL_TRUE);
        let mut idx: usize = 0;
        proof {
            self.state.lemma_wf();
            assert(model.state.trail.take(model.state.trail.len() as int) =~= model.state.trail);
        }
        while num < count
            invariant
                self.wf(),
                count == model.clauses.len(),
                same_theory(model, self@),
                continues(model.state, self@.state),
                forced(model, model.state.assignment, self@.state.assignment),
                propagated(model, 0, 0, EVAL_TRUE as nat) == propagated(self@, idx as int, num as int, res@ as nat),
                idx <= count,
                num <= count,
                self@.state.trail.len() <= self@.state.assignment.len(),
                res@ == 2 || res@ == 3,
                forall|c: int|
                    in_window(c, idx as int, num as int, count as int) ==> (#[trigger] self@.clauses[c]).cells
                        == self@.clauses[c].evaluated(self@.state.assignment) && res@ <= lowest(
                        self@.clauses[c].cells,
                    ),
                res@ == 3 || exists|c: int|
                    in_window(c, idx as int, num as int, count as int) && lowest(
                        (#[trigger] self@.clauses[c]).cells,
                    ) == res@,
            decreases self@.state.assignment.len() - self@.state.trail.len(), count - num,
        {
            let ghost entry = idx as int;
            if idx >= count {
                idx = 0;
            }
            let ghost round = self@;
            proof {
                assert(propagated(round, entry, num as int, res@ as nat) == propagated(
                    round,
                    idx as int,
                    num as int,
                    res@ as nat,
                ));
                assert forall|c: int| in_window(c, idx as int, num as int, count as int) implies (
                #[trigger] round.clauses[c]).cells == round.clauses[c].evaluated(round.state.assignment)
                    && res@ <= lowest(round.clauses[c].cells) by {
                    assert(in_window(c, count as int, num as int, count as int) || in_window(
                        c,
                        idx as int,
                        num as int,
                        count as int,
                    ));
                }
            }
            self.evaluate_clause(idx);
            let ghost fresh = self@;
            let ghost clause = fresh.clauses[idx as int];
            proof {
                assert(fresh.clauses.len() == self.clauses@.len());
                assert(clause == self.clauses@[idx as int]@);
                fresh.lemma_clause(idx as int);
                self.clauses@[idx as int].lemma_wf();
                self.state.lemma_wf();
                assert(clause.cells =~= clause.evaluated(fresh.state.assignment));
                lemma_cells_range(clause, fresh.state.assignment);
                assert(clause.cells.take(0) =~= Seq::empty());
                clause.lemma_scan(fresh.state, 0, EVAL_TRUE as nat);
                clause.lemma_scan_holds(fresh.state, fresh.state, 0, EVAL_TRUE as nat);
                lemma_lowest(clause.cells);
                if lowest(clause.cells) == EVAL_UNIT {
                    assert forall|j: int| 0 <= j < clause.cells.len() implies #[trigger] clause.cells[j]
                        != EVAL_FALSE by {
                        assert(lowest(clause.cells) <= clause.cells[j]);
                    }
                    clause.lemma_scan_moves(fresh.state, 0, EVAL_TRUE as nat);
                }
            }
            let scanned = self.clauses[idx].propagate(&mut self.state);
            proof {
                self.lemma_state_changed_from(old(self), fresh);
                let after = self@;
                assert(same_theory(model, after)) by {
                    assert forall|c: int| 0 <= c < model.clauses.len() implies #[trigger] after.clauses[c] == (
                    ClauseView { cells: after.clauses[c].cells, ..model.clauses[c] }) by {
                        assert(round.clauses[c] == (ClauseView { cells: round.clauses[c].cells, ..model.clauses[c] }));
                    }
                }
                assert(continues(model.state, after.state)) by {
                    assert(after.state.trail.take(model.state.trail.len() as int) =~= model.state.trail) by {
                        assert forall|j: int| 0 <= j < model.state.trail.len() implies after.state.trail[j]
                            == model.state.trail[j] by {
                            assert(after.state.trail.take(fresh.state.trail.len() as int)[j] == fresh.state.trail[j]);
                            assert(fresh.state.trail.take(model.state.trail.len() as int)[j] == model.state.trail[j]);
                        }
                    }
                    assert forall|p: int|
                        0 <= p < model.state.assignment.len() && model.state.assignment[p]
                            != BOOL_UNDEF implies #[trigger] after.state.assignment[p] == model.state.assignment[p] by {
                        assert(fresh.state.assignment[p] == model.state.assignment[p]);
                    }
                }
                self.state.lemma_wf();
                lemma_scan_forced(fresh, idx as int);
                lemma_forced_theory(model, fresh, fresh.state.assignment, after.state.assignment);
                lemma_forced_step(
                    model,
                    model.state.assignment,
                    fresh.state.assignment,
                    after.state.assignment,
                );
            }
            let val = match scanned {
                Ok(val) => val,
                Err(_) => Bit2::new(EVAL_FALSE),
            };
            proof {
                let after = self@;
                let seen = visited(round, idx as int);
                assert(after.clauses =~= seen.0.clauses);
                assert(after == seen.0);
                assert(val@ == seen.1);
            }
            let ghost here = idx as int;
            idx += 1;
            if val == Bit2::new(EVAL_FALSE) {
                proof {
                    let after = self@;
                    lemma_clauses_status(after.clauses, count as int);
                    assert(lowest(after.clauses[here].cells) == 0);
                    fresh.lemma_domain_free();
                    lemma_false_clause(after, here, fresh.state, after.state.assignment);
                    lemma_hopeless_theory(model, after, after.state.assignment);
                }
                return val;
            } else if val == Bit2::new(EVAL_UNIT) {
                res = Bit2::new(EVAL_TRUE);
                num = 0;
            } else {
                proof {
                    lemma_eval_and(res@, val@);
                    let after = self@;
                    assert(after.state == fresh.state);
                    assert forall|c: int| in_window(c, idx as int, num + 1, count as int) implies (
                    #[trigger] after.clauses[c]).cells == after.clauses[c].evaluated(after.state.assignment)
                        && and_value(res@, val@) <= lowest(after.clauses[c].cells) by {
                        if c != here {
                            assert(in_window(c, here, num as int, count as int));
                            assert(after.clauses[c] == round.clauses[c]);
                        }
                    }
                    if and_value(res@, val@) != 3 {
                        if and_value(res@, val@) == val@ {
                            assert(in_window(here, idx as int, num + 1, count as int));
                            assert(lowest(after.clauses[here].cells) == val@);
                        } else {
                            let c = choose|c: int|
                                in_window(c, here, num as int, count as int) && lowest(
                                    (#[trigger] round.clauses[c]).cells,
                                ) == res@;
                            assert(c != here);
                            assert(after.clauses[c] == round.clauses[c]);
                            assert(in_window(c, idx as int, num + 1, count as int));
                        }
                    }
                }
                res = eval_and().of(res, val);
                num += 1;
            }
        }
        proof {
            let after = self@;
            lemma_clauses_status(after.clauses, count as int);
            assert forall|c: int| 0 <= c < count implies in_window(c, idx as int, num as int, count as int) by {}
            if res@ != 3 {
                let c = choose|c: int|
                    in_window(c, idx as int, num as int, count as int) && lowest(
                        (#[trigger] after.clauses[c]).cells,
                    ) == res@;
                assert(clauses_status(after.clauses, count as int) <= lowest(after.clauses[c].cells));
            }
            if clauses_status(after.clauses, count as int) != 3 {
                let c = choose|c: int|
                    0 <= c < count && lowest(#[trigger] after.clauses[c].cells) == clauses_status(
                        after.clauses,
                        count as int,
                    );
                assert(in_window(c, idx as int, num as int, count as int));
            }
        }
        res
    }

    /// A solver stays well formed when its state changes but keeps the
    /// number of its atoms, whatever stood in the cells of its clauses.
    proof fn lemma_state_changed_from(&self, first: &Self, before: SolverView)
        requires
            before.wf(),
            self.state.wf(),
            self.state@.assignment.len() == before.state.assignment.len(),
            self@.domains == before.domains,
            self@.variables == before.variables,
            self@.clauses == before.clauses,
            self@.exists == before.exists,
            forall|v: int| 0 <= v < self.variables@.len() ==> (#[trigger] self.variables@[v]).wf(),
            forall|c: int|
                0 <= c < self.clauses@.len() ==> (#[trigger] self.clauses@[c]).wf() && self.clauses@[c]@.within(
                    before.state.assignment.len(),
                ),
            forall|e: int|
                0 <= e < self.exists@.len() ==> (#[trigger] self.exists@[e]).wf() && self.exists@[e]@.within(
                    before.state.assignment.len(),
                ),
        ensures
            self.wf(),
    {
        self.state.lemma_wf();
        before.lemma_other_state(self.state@);
        assert(self@ == (SolverView { state: self.state@, ..before }));
    }

    /// Propagates, and then takes the axioms of existence into account: the
    /// result is the smaller of the status of the clauses and the status of
    /// the axioms of existence. When it is false, no model of the theory
    /// keeps the values that the atoms have now.
    pub fn search_status(&mut self) -> (status: Bit2)
        requires
            old(self).wf(),
        ensures
            final(self).wf(),
            same_theory(old(self)@, final(self)@),
            continues(old(self)@.state, final(self)@.state),
            status@ == and_value(
                clauses_status(final(self)@.clauses, final(self)@.clauses.len() as int),
                exists_status(final(self)@.exists, final(self)@.state.assignment, final(self)@.exists.len() as int),
            ),
            status@ != EVAL_UNIT,
            clauses_status(final(self)@.clauses, final(self)@.clauses.len() as int) != EVAL_FALSE ==> forall|c: int|
                0 <= c < final(self)@.clauses.len() ==> (#[trigger] final(self)@.clauses[c]).cells == final(self)@.clauses[c].evaluated(final(self)@.state.assignment),
            forced(old(self)@, old(self)@.state.assignment, final(self)@.state.assignment),
            status@ == EVAL_FALSE ==> hopeless(old(self)@, final(self)@.state.assignment),
            (final(self)@, status@ as nat) == course::settled(old(self)@),
    {
        let val1 = self.propagate();
        let val2 = self.get_exists_status();
        proof {
            if val2@ == EVAL_FALSE {
                lemma_false_exists(self@);
                lemma_hopeless_theory(old(self)@, self@, self@.state.assignment);
            }
            lemma_clauses_status_range(self@.clauses, self@.clauses.len() as int);
            lemma_exists_status_range(self@.exists, self@.state.assignment, self@.exists.len() as int);
            lemma_exists_status_plain(self@.exists, self@.state.assignment, self@.exists.len() as int);
            lemma_eval_and(val1@, val2@);
        }
        eval_and().of(val1, val2)
    }

    /// Moves the search on after a status was found. After false or true,
    /// the search returns to the last decision that was not yet turned, and
    /// turns it. Otherwise it decides that the first atom without a value
    /// is true. The result says whether the search goes on: it is over when
    /// no decision is left to turn, or no atom to decide.
    pub fn search_next(&mut self, status: Bit2) -> (r: bool)
        requires
            old(self).wf(),
        ensures
            final(self).wf(),
            final(self)@.domains == old(self)@.domains,
            final(self)@.variables == old(self)@.variables,
            final(self)@.clauses == old(self)@.clauses,
            final(self)@.exists == old(self)@.exists,
            if status@ == EVAL_FALSE || status@ == EVAL_TRUE {
                &&& r == old(self)@.state.backtracked().is_some()
                &&& r ==> final(self)@.state == old(self)@.state.backtracked().unwrap()
                &&& !r ==> final(self)@.state == (StateView { levels: Seq::empty(), ..old(self)@.state })
            } else {
                &&& r == !old(self)@.state.complete()
                &&& !r ==> final(self)@.state == old(self)@.state
                &&& r ==> old(self)@.state.first_undef(final(self)@.state.trail.last().pos as int)
                    && final(self)@.state == old(self)@.state.decided(final(self)@.state.trail.last().pos)
            },
            match course::next_state(old(self)@.state, status@ as nat) {
                Some(next) => r && final(self)@.state == next,
                None => !r && final(self)@.state == course::last_state(old(self)@.state, status@ as nat),
            },
    {
        let ghost before = self@;
        proof {
            self.state.lemma_wf();
            before.state.lemma_backtracked();
            course::lemma_first_gap(before.state, before.state.assignment.len() as int);
        }
        let more = if status == Bit2::new(EVAL_FALSE) || status == Bit2::new(EVAL_TRUE) {
            self.state.next_decision()
        } else {
            self.state.make_decision()
        };
        proof {
            self.lemma_state_changed(old(self));
        }
        more
    }
}

/// The cells of an evaluated clause are evaluation values.
pub proof fn lemma_cells_range(clause: ClauseView, assignment: Seq<nat>)
    ensures
        forall|j: int|
            0 <= j < clause.evaluated(assignment).len() ==> #[trigger] clause.evaluated(assignment)[j] <= 3,
{
    assert forall|j: int| 0 <= j < clause.evaluated(assignment).len() implies #[trigger] clause.evaluated(
        assignment,
    )[j] <= 3 by {
        crate::solver::clause::lemma_cell_range(
            clause.literals,
            assignment,
            coords_of(clause.lengths, j as nat),
            clause.literals.len() as int,
        );
    }
}


/// The state after the first `upto` clauses were visited in a sweep: the
/// cells of each were computed in the state that the clauses before it
/// left, and scanned for units.
pub open spec fn swept_state(clauses: Seq<ClauseView>, state: StateView, upto: int) -> StateView
    decreases upto,
{
    if upto <= 0 {
        state
    } else {
        let before = swept_state(clauses, state, upto - 1);
        (ClauseView { cells: clauses[upto - 1].evaluated(before.assignment), ..clauses[upto - 1] }).scan(
            before,
            0,
            EVAL_TRUE as nat,
        ).state
    }
}

/// The cells of the clause `index` as a sweep leaves them.
pub open spec fn swept_cells(clauses: Seq<ClauseView>, state: StateView, index: int) -> Seq<nat> {
    clauses[index].evaluated(swept_state(clauses, state, index).assignment)
}

/// The smallest status that the scans of the first `upto` clauses found in
/// a sweep. It is a unit if a scan found a unit and no scan found a
/// false cell.
pub open spec fn swept_status(clauses: Seq<ClauseView>, state: StateView, upto: int) -> nat
    decreases upto,
{
    if upto <= 0 {
        EVAL_TRUE as nat
    } else {
        and_value(swept_status(clauses, state, upto - 1), lowest(swept_cells(clauses, state, upto - 1)))
    }
}

/// The state after the first `upto` axioms of existence were propagated,
/// one after the other.
pub open spec fn existed_state(exists: Seq<ExistView>, state: StateView, upto: int) -> StateView
    decreases upto,
{
    if upto <= 0 {
        state
    } else {
        exists[upto - 1].sweep(existed_state(exists, state, upto - 1), 0, EVAL_TRUE as nat).state
    }
}

/// The smallest evaluation that the propagations of the first `upto`
/// axioms of existence found.
pub open spec fn existed_status(exists: Seq<ExistView>, state: StateView, upto: int) -> nat
    decreases upto,
{
    if upto <= 0 {
        EVAL_TRUE as nat
    } else {
        and_value(
            existed_status(exists, state, upto - 1),
            exists[upto - 1].sweep(existed_state(exists, state, upto - 1), 0, EVAL_TRUE as nat).status,
        )
    }
}

impl Solver {
    /// Visits every clause once, in their order: computes its cells and
    /// scans them for units. The result is the smallest status that the
    /// scans found: a unit, if units were found and no false cell. Every
    /// value that is added is forced.
    pub fn propagate_clauses(&mut self) -> (status: Bit2)
        requires
            old(self).wf(),
        ensures
            final(self).wf(),
            same_theory(old(self)@, final(self)@),
            final(self)@.state == swept_state(old(self)@.clauses, old(self)@.state, old(self)@.clauses.len() as int),
            forall|c: int|
                0 <= c < old(self)@.clauses.len() ==> (#[trigger] final(self)@.clauses[c]).cells == swept_cells(
                    old(self)@.clauses,
                    old(self)@.state,
                    c,
                ),
            status@ == swept_status(old(self)@.clauses, old(self)@.state, old(self)@.clauses.len() as int),
            forced(old(self)@, old(self)@.state.assignment, final(self)@.state.assignment),
    {
        let ghost model = self@;
        let count = self.clauses.len();
        let mut result = Bit2::new(EVAL_TRUE);
        let mut c: usize = 0;
        while c < count
            invariant
                c <= count,
                count == model.clauses.len(),
                self.wf(),
                same_theory(model, self@),
                forced(model, model.state.assignment, self@.state.assignment),
                self@.state == swept_state(model.clauses, model.state, c as int),
                forall|k: int|
                    0 <= k < c ==> (#[trigger] self@.clauses[k]).cells == swept_cells(
                        model.clauses,
                        model.state,
                        k,
                    ),
                forall|k: int| c <= k < count ==> (#[trigger] self@.clauses[k]) == model.clauses[k],
                result@ <= 3,
                result@ == swept_status(model.clauses, model.state, c as int),
            decreases count - c,
        {
            let ghost round = self@;
            self.evaluate_clause(c);
            let ghost fresh = self@;
            let ghost clause = fresh.clauses[c as int];
            proof {
                assert(fresh.clauses.len() == self.clauses@.len());
                assert(clause == self.clauses@[c as int]@);
                assert(round.clauses[c as int] == model.clauses[c as int]);
                assert(clause == (ClauseView {
                    cells: model.clauses[c as int].evaluated(fresh.state.assignment),
                    ..model.clauses[c as int]
                }));
                fresh.lemma_clause(c as int);
                self.clauses@[c as int].lemma_wf();
                self.state.lemma_wf();
                assert(clause.evaluated(fresh.state.assignment) =~= model.clauses[c as int].evaluated(
                    fresh.state.assignment,
                ));
                lemma_cells_range(clause, fresh.state.assignment);
                assert(clause.cells.take(0) =~= Seq::empty());
                clause.lemma_scan(fresh.state, 0, EVAL_TRUE as nat);
                clause.lemma_scan_holds(fresh.state, fresh.state, 0, EVAL_TRUE as nat);
                lemma_lowest(clause.cells);
            }
            let scanned = self.clauses[c].propagate(&mut self.state);
            proof {
                self.lemma_state_changed_from(old(self), fresh);
                let after = self@;
                assert(same_theory(model, after)) by {
                    assert forall|k: int| 0 <= k < model.clauses.len() implies #[trigger] after.clauses[k] == (
                    ClauseView { cells: after.clauses[k].cells, ..model.clauses[k] }) by {
                        assert(round.clauses[k] == (ClauseView { cells: round.clauses[k].cells, ..model.clauses[k] }));
                    }
                }
                assert forall|k: int| 0 <= k < c + 1 implies (#[trigger] after.clauses[k]).cells == swept_cells(
                    model.clauses,
                    model.state,
                    k,
                ) by {
                    if k < c {
                        assert(after.clauses[k] == round.clauses[k]);
                    }
                }
                assert forall|k: int| c + 1 <= k < count implies (#[trigger] after.clauses[k])
                    == model.clauses[k] by {
                    assert(after.clauses[k] == round.clauses[k]);
                }
                lemma_scan_forced(fresh, c as int);
                lemma_forced_theory(model, fresh, fresh.state.assignment, after.state.assignment);
                lemma_forced_step(
                    model,
                    model.state.assignment,
                    fresh.state.assignment,
                    after.state.assignment,
                );
            }
            let val = match scanned {
                Ok(val) => val,
                Err(_) => Bit2::new(EVAL_FALSE),
            };
            proof {
                lemma_eval_and(result@, val@);
            }
            result = eval_and().of(result, val);
            c += 1;
        }
        result
    }

    /// Propagates every axiom of existence once, in their order. The
    /// result is the smallest evaluation that the propagations found: a
    /// unit, if units were found and no fiber whose atoms are all false.
    /// Every value that is added is forced.
    pub fn propagate_exists(&mut self) -> (status: Bit2)
        requires
            old(self).wf(),
        ensures
            final(self).wf(),
            final(self)@.domains == old(self)@.domains,
            final(self)@.variables == old(self)@.variables,
            final(self)@.clauses == old(self)@.clauses,
            final(self)@.exists == old(self)@.exists,
            final(self)@.state == existed_state(old(self)@.exists, old(self)@.state, old(self)@.exists.len() as int),
            status@ == existed_status(old(self)@.exists, old(self)@.state, old(self)@.exists.len() as int),
            forced(old(self)@, old(self)@.state.assignment, final(self)@.state.assignment),
    {
        let ghost model = self@;
        let count = self.exists.len();
        let mut result = Bit2::new(EVAL_TRUE);
        let mut e: usize = 0;
        while e < count
            invariant
                e <= count,
                count == model.exists.len(),
                self.state.wf(),
                self.domains == old(self).domains,
                self.variables == old(self).variables,
                self.clauses == old(self).clauses,
                self.exists == old(self).exists,
                old(self).wf(),
                model == old(self)@,
                self.state@.assignment.len() == model.state.assignment.len(),
                self.state@ == existed_state(model.exists, model.state, e as int),
                forced(model, model.state.assignment, self.state@.assignment),
                result@ <= 3,
                result@ == existed_status(model.exists, model.state, e as int),
            decreases count - e,
        {
            proof {
                assert(model.exists[e as int] == self.exists@[e as int]@);
                self.exists@[e as int].lemma_wf();
                self.state.lemma_wf();
                crate::solver::exist::lemma_sweep(model.exists[e as int], self.state@, 0, EVAL_TRUE as nat);
            }
            let ghost fresh = self.state@;
            let val = self.exists[e].propagate(&mut self.state);
            proof {
                lemma_eval_and(result@, val@);
                lemma_sweep_forced(model, fresh, e as int);
                lemma_forced_step(model, model.state.assignment, fresh.assignment, self.state@.assignment);
            }
            result = eval_and().of(result, val);
            e += 1;
        }
        proof {
            self.lemma_state_changed(old(self));
        }
        result
    }
}


/// Whether the assignment makes every clause and every axiom of existence
/// of the solver true, whatever values the atoms get that it leaves
/// without one.
pub open spec fn is_model(solver: SolverView, assignment: Seq<nat>) -> bool {
    &&& forall|c: int|
        0 <= c < solver.clauses.len() ==> lowest((#[trigger] solver.clauses[c]).evaluated(assignment)) == EVAL_TRUE
    &&& exists_status(solver.exists, assignment, solver.exists.len() as int) == EVAL_TRUE
}

/// Whether the assignment has a value for every atom of the state, and has
/// kept the values that no return to a decision takes back.
pub open spec fn plain(start: StateView, assignment: Seq<nat>) -> bool {
    &&& assignment.len() == start.assignment.len()
    &&& forall|p: int| 0 <= p < assignment.len() ==> #[trigger] assignment[p] <= 2
    &&& extends(root(start), assignment)
}

/// Whether every found assignment gives the atoms of the state values, and
/// has kept the values that the search started with.
pub open spec fn rooted(start: StateView, found: Seq<Seq<nat>>) -> bool {
    forall|k: int| 0 <= k < found.len() ==> plain(start, #[trigger] found[k])
}

/// Whether `count` counts the found assignments, all of them models of the
/// solver; the largest number stands for itself and for all numbers above.
pub open spec fn counted(solver: SolverView, found: Seq<Seq<nat>>, count: usize) -> bool {
    &&& found.len() >= count
    &&& found.len() == count || count == usize::MAX
    &&& forall|k: int| 0 <= k < found.len() ==> is_model(solver, #[trigger] found[k])
}

/// Where every atom has a value, the status of the axioms of existence
/// is false or true.
pub proof fn lemma_settled_exists(solver: SolverView, upto: int)
    requires
        solver.wf(),
        solver.state.complete(),
        0 <= upto <= solver.exists.len(),
    ensures
        exists_status(solver.exists, solver.state.assignment, upto) == EVAL_FALSE || exists_status(
            solver.exists,
            solver.state.assignment,
            upto,
        ) == EVAL_TRUE,
    decreases upto,
{
    if upto > 0 {
        lemma_settled_exists(solver, upto - 1);
        solver.lemma_exist(upto - 1);
        solver.lemma_domain_free();
        solver.exists[upto - 1].lemma_settled(solver.state, solver.exists[upto - 1].fibers());
    }
}

impl SolverView {
    /// What a well-formed solver says of its state.
    pub proof fn lemma_domain_free(self)
        requires
            self.wf(),
        ensures
            self.state.wf(),
            self.state.assignment.len() + 15 <= usize::MAX,
    {
        reveal(SolverView::wf);
    }

    /// What a well-formed solver says of an axiom of existence.
    pub proof fn lemma_exist(self, e: int)
        requires
            self.wf(),
            0 <= e < self.exists.len(),
        ensures
            exist_ok(self.exists[e], self.variables),
            self.exists[e].within(self.state.assignment.len()),
    {
        reveal(SolverView::wf);
        self.lemma_tables(self.exists[e].variable as int);
    }

    /// The tables of the literals of a clause lie within the assignment.
    pub proof fn lemma_clause_within(self, c: int)
        requires
            self.wf(),
            0 <= c < self.clauses.len(),
        ensures
            self.clauses[c].wf(),
            self.clauses[c].within(self.state.assignment.len()),
    {
        self.lemma_clause(c);
        let clause = self.clauses[c];
        assert forall|k: int| 0 <= k < clause.literals.len() implies (#[trigger] clause.literals[k]).within(
            self.state.assignment.len(),
        ) by {
            assert(literal_ok(clause.literals[k], self.variables));
            self.lemma_tables(clause.literals[k].variable as int);
        }
    }

    /// Where every atom has a value and the cells of the clauses stand as
    /// the assignment evaluates them, the status of the solver is false or
    /// true.
    pub proof fn lemma_settled(self)
        requires
            self.wf(),
            self.state.complete(),
            forall|c: int|
                0 <= c < self.clauses.len() ==> (#[trigger] self.clauses[c]).cells == self.clauses[c].evaluated(
                    self.state.assignment,
                ),
        ensures
            ({
                let status = and_value(
                    clauses_status(self.clauses, self.clauses.len() as int),
                    exists_status(self.exists, self.state.assignment, self.exists.len() as int),
                );
                status == EVAL_FALSE || status == EVAL_TRUE
            }),
    {
        lemma_settled_exists(self, self.exists.len() as int);
        lemma_clauses_status(self.clauses, self.clauses.len() as int);
        self.lemma_domain_free();
        let status = clauses_status(self.clauses, self.clauses.len() as int);
        if status != EVAL_TRUE {
            let c = choose|c: int|
                0 <= c < self.clauses.len() && lowest(#[trigger] self.clauses[c].cells) == status;
            self.lemma_clause_within(c);
            self.clauses[c].lemma_settled(self.state);
        }
    }
}

impl Solver {
    /// Searches for all models: propagates, and then returns to the last
    /// decision after a contradiction or a solution, or decides the first
    /// atom without a value, until no decision is left. The result is the
    /// number of solutions, or the largest number if there are more.
    ///
    /// A solution is an assignment that makes every clause and every axiom
    /// of existence true. It may leave atoms without a value: then it
    /// stands for all the models that give these atoms some values. No
    /// model is left out, and none is counted twice: every model of the
    /// theory that keeps the values that the atoms had at the start keeps
    /// the values of one solution.
    ///
    /// The solutions are those of the course of the search, in the order
    /// in which it finds them, and the solver is left as the search
    /// leaves it. Every solution has kept the values that the atoms had
    /// before the first level of the start; where the start has no level,
    /// these are the values of all atoms.
    #[verifier::loop_isolation(false)]
    pub fn search_all(&mut self) -> (count: usize)
        requires
            old(self).wf(),
        ensures
            final(self).wf(),
            same_theory(old(self)@, final(self)@),
            final(self)@.state.assignment.len() == old(self)@.state.assignment.len(),
            final(self)@.state.levels.len() == 0,
            final(self)@ == course::searched(old(self)@, Seq::empty()).0,
            counted(old(self)@, course::searched(old(self)@, Seq::empty()).1, count),
            rooted(old(self)@.state, course::searched(old(self)@, Seq::empty()).1),
            old(self)@.state.levels.len() == 0 ==> forall|k: int|
                0 <= k < course::searched(old(self)@, Seq::empty()).1.len() ==> extends(
                    old(self)@.state.assignment,
                    #[trigger] course::searched(old(self)@, Seq::empty()).1[k],
                ),
            apart(course::searched(old(self)@, Seq::empty()).1),
            exhaustive(old(self)@, old(self)@.state.assignment, course::searched(old(self)@, Seq::empty()).1),
    {
        let ghost model = self@;
        let ghost atoms = model.state.assignment.len();
        let ghost start = model.state.assignment;
        let ghost mut found: Seq<Seq<nat>> = Seq::empty();
        let mut count: usize = 0;
        proof {
            model.lemma_domain_free();
            model.state.lemma_measure_bound();
            lemma_kept_start(model, model.state);
            lemma_anchored_start(model.state);
        }
        loop
            invariant
                self.wf(),
                same_theory(model, self@),
                self@.state.assignment.len() == atoms,
                self@.state.measure() < pow3(atoms),
                counted(model, found, count),
                keeps_models(model, start, found, self@.state),
                apart(found),
                behind(found, self@.state),
                anchored(model.state, self@.state),
                rooted(model.state, found),
                course::searched(model, Seq::empty()) == course::searched(self@, found),
            decreases pow3(atoms) - self@.state.measure(),
        {
            let ghost before = self@;
            let status = self.search_status();
            let ghost settled = self@;
            proof {
                before.lemma_domain_free();
                settled.lemma_domain_free();
                assert(settled.state.levels.take(before.state.levels.len() as int) =~= before.state.levels);
                assert(grows(before.state, settled.state));
                lemma_forced_theory(model, before, before.state.assignment, settled.state.assignment);
                lemma_kept_forced(model, start, found, before.state, settled.state);
                lemma_behind_grows(found, before.state, settled.state);
                lemma_anchored_grows(model.state, before.state, settled.state);
                if status@ == EVAL_FALSE {
                    lemma_hopeless_theory(model, before, settled.state.assignment);
                }
            }
            proof {
                before.state.lemma_measure_grows(settled.state);
                lemma_clauses_status(settled.clauses, settled.clauses.len() as int);
                lemma_exists_status_range(settled.exists, settled.state.assignment, settled.exists.len() as int);
                assert(same_theory(model, settled)) by {
                    assert forall|c: int| 0 <= c < model.clauses.len() implies #[trigger] settled.clauses[c] == (
                    ClauseView { cells: settled.clauses[c].cells, ..model.clauses[c] }) by {
                        assert(before.clauses[c] == (ClauseView { cells: before.clauses[c].cells, ..model.clauses[c] }));
                        assert(settled.clauses[c] == (ClauseView { cells: settled.clauses[c].cells, ..before.clauses[c] }));
                    }
                }
            }
            if status == Bit2::new(EVAL_TRUE) {
                proof {
                    let assignment = settled.state.assignment;
                    assert forall|c: int| 0 <= c < model.clauses.len() implies lowest(
                        (#[trigger] model.clauses[c]).evaluated(assignment),
                    ) == EVAL_TRUE by {
                        assert(clauses_status(settled.clauses, settled.clauses.len() as int) <= lowest(
                            settled.clauses[c].cells,
                        ));
                        lemma_lowest(settled.clauses[c].cells);
                        assert(settled.clauses[c].cells == settled.clauses[c].evaluated(assignment));
                        assert(settled.clauses[c].evaluated(assignment) =~= model.clauses[c].evaluated(assignment));
                    }
                    let earlier = found;
                    lemma_kept_found(model, start, earlier, settled.state);
                    lemma_apart_found(earlier, settled.state);
                    lemma_behind_returned(earlier, settled.state);
                    found = found.push(assignment);
                    assert forall|k: int| 0 <= k < found.len() implies is_model(model, #[trigger] found[k]) by {
                        if k < earlier.len() {
                            assert(found[k] == earlier[k]);
                        }
                    }
                    settled.state.lemma_wf();
                    assert forall|k: int| 0 <= k < found.len() implies plain(
                        model.state,
                        #[trigger] found[k],
                    ) by {
                        if k < earlier.len() {
                            assert(found[k] == earlier[k]);
                        }
                    }
                }
                if count < usize::MAX {
                    count += 1;
                }
            }
            proof {
                assert(counted(model, found, count));
            }
            let more = self.search_next(status);
            proof {
                let after = self@;
                settled.state.lemma_measure_backtracked();
                settled.state.lemma_backtracked();
                after.lemma_domain_free();
                after.state.lemma_measure_bound();
                if !(status@ == EVAL_FALSE || status@ == EVAL_TRUE) {
                    if settled.state.complete() {
                        settled.lemma_settled();
                    }
                    let pos = after.state.trail.last().pos;
                    settled.state.lemma_measure_decided(pos);
                    lemma_kept_decided(model, start, found, settled.state, pos);
                    lemma_behind_decided(found, settled.state, pos);
                    if more {
                        assert(after.state.levels.take(settled.state.levels.len() as int) =~= settled.state.levels);
                        assert(after.state.trail.take(settled.state.trail.len() as int) =~= settled.state.trail);
                        lemma_anchored_grows(model.state, settled.state, after.state);
                    }
                } else {
                    lemma_kept_turned(model, start, found, settled.state);
                    lemma_anchored_returned(model.state, settled.state);
                    if status@ == EVAL_FALSE {
                        lemma_behind_returned(found, settled.state);
                    }
                }
                assert(after == (SolverView { state: after.state, ..settled }));
            }
            if !more {
                proof {
                    if model.state.levels.len() == 0 {
                        lemma_root(model.state);
                        assert forall|k: int| 0 <= k < found.len() implies extends(
                            model.state.assignment,
                            #[trigger] found[k],
                        ) by {
                            assert(plain(model.state, found[k]));
                        }
                    }
                }
                return count;
            }
        }
    }
}

} // verus!
