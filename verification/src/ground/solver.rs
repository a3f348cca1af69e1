//! The solver of ground clauses: it keeps the domains, the predicates with
//! the numbers of their atoms, the formulas with the numbers of their
//! clauses, and the truth values of the atoms.

use crate::ground::eval::{bound, covers, first_atom, ready, repeated, run, seeded, Evaluator};
use crate::ground::{
    enqueued, literal_value, Bool,
    atoms_of, count_tuples, typed, AtomView, numbers, sizes, Clause, ClauseIdx, Coord, Domain, DomainIdx, Draft, FormulaView, Literal,
    LiteralIdx, Predicate, PredicateIdx, PredicateView, State, UniversalFormula, formula_fault,
};
use crate::shape::{bulk_of, flat_index, lemma_coords_of, volume_of};
use crate::shared::share;
use crate::solver::error::SolverError;
use std::rc::Rc;
use vstd::pervasive::unreached;
use vstd::prelude::*;

verus! {

/// The mathematical value of a solver.
pub struct SolverView {
    /// The truth values of the atoms.
    pub state: Seq<int>,
    /// The names and the sizes of the domains.
    pub domains: Seq<(Seq<char>, usize)>,
    pub predicates: Seq<PredicateView>,
    pub formulas: Seq<FormulaView>,
}

/// The number of atoms of the first `n` predicates.
pub open spec fn atoms_upto(predicates: Seq<PredicateView>, n: int) -> int
    decreases n,
{
    if n <= 0 {
        0
    } else {
        atoms_upto(predicates, n - 1) + predicates[n - 1].var_count
    }
}

/// The number of clauses of the first `n` formulas.
pub open spec fn clauses_upto(formulas: Seq<FormulaView>, n: int) -> int
    decreases n,
{
    if n <= 0 {
        0
    } else {
        clauses_upto(formulas, n - 1) + formulas[n - 1].cla_count
    }
}

/// The count of the atoms of the first predicates depends on these
/// predicates only.
pub proof fn lemma_atoms_prefix(a: Seq<PredicateView>, b: Seq<PredicateView>, n: int)
    requires
        0 <= n <= a.len(),
        n <= b.len(),
        a.take(n) == b.take(n),
    ensures
        atoms_upto(a, n) == atoms_upto(b, n),
    decreases n,
{
    if n > 0 {
        assert(a.take(n - 1) =~= a.take(n).take(n - 1));
        assert(b.take(n - 1) =~= b.take(n).take(n - 1));
        lemma_atoms_prefix(a, b, n - 1);
        assert(a[n - 1] == a.take(n)[n - 1]);
        assert(b[n - 1] == b.take(n)[n - 1]);
    }
}

/// The count of the clauses of the first formulas depends on these
/// formulas only.
pub proof fn lemma_clauses_prefix(a: Seq<FormulaView>, b: Seq<FormulaView>, n: int)
    requires
        0 <= n <= a.len(),
        n <= b.len(),
        a.take(n) == b.take(n),
    ensures
        clauses_upto(a, n) == clauses_upto(b, n),
    decreases n,
{
    if n > 0 {
        assert(a.take(n - 1) =~= a.take(n).take(n - 1));
        assert(b.take(n - 1) =~= b.take(n).take(n - 1));
        lemma_clauses_prefix(a, b, n - 1);
        assert(a[n - 1] == a.take(n)[n - 1]);
        assert(b[n - 1] == b.take(n)[n - 1]);
    }
}

/// The counts grow with the number of predicates.
pub proof fn lemma_atoms_grow(predicates: Seq<PredicateView>, m: int, n: int)
    requires
        0 <= m <= n,
    ensures
        atoms_upto(predicates, m) <= atoms_upto(predicates, n),
    decreases n,
{
    if m < n {
        lemma_atoms_grow(predicates, m, n - 1);
    }
}

/// The counts grow with the number of formulas.
pub proof fn lemma_clauses_grow(formulas: Seq<FormulaView>, m: int, n: int)
    requires
        0 <= m <= n,
    ensures
        clauses_upto(formulas, m) <= clauses_upto(formulas, n),
    decreases n,
{
    if m < n {
        lemma_clauses_grow(formulas, m, n - 1);
    }
}

/// The sizes of the domains with the given handles.
pub open spec fn sizes_at(domains: Seq<(Seq<char>, usize)>, handles: Seq<DomainIdx>) -> Seq<usize> {
    Seq::new(handles.len(), |i: int| domains[handles[i].0 as int].1)
}

/// The names of the domains with the given handles.
pub open spec fn names_at(domains: Seq<(Seq<char>, usize)>, handles: Seq<DomainIdx>) -> Seq<Seq<char>> {
    Seq::new(handles.len(), |i: int| domains[handles[i].0 as int].0)
}

impl SolverView {
    /// The atoms of the predicates have consecutive numbers, the state has
    /// a truth value for every one of them, and the clauses of the formulas
    /// have consecutive numbers.
    pub open spec fn wf(self) -> bool {
        &&& forall|p: int|
            0 <= p < self.predicates.len() ==> (#[trigger] self.predicates[p]).var_start == atoms_upto(
                self.predicates,
                p,
            )
        &&& self.state.len() == atoms_upto(self.predicates, self.predicates.len() as int)
        &&& forall|f: int|
            0 <= f < self.formulas.len() ==> (#[trigger] self.formulas[f]).cla_start == clauses_upto(
                self.formulas,
                f,
            )
        &&& clauses_upto(self.formulas, self.formulas.len() as int) <= usize::MAX
    }

    /// Why a predicate over the domains with the given handles is refused,
    /// if it is.
    pub open spec fn predicate_refusal(self, handles: Seq<DomainIdx>) -> Option<SolverError> {
        if exists|i: int| 0 <= i < handles.len() && (#[trigger] handles[i]).0 >= self.domains.len() {
            Some(SolverError::UnknownHandle)
        } else if bulk_of(sizes_at(self.domains, handles)) > usize::MAX || self.state.len() + volume_of(
            sizes_at(self.domains, handles),
        ) > usize::MAX / 2 {
            Some(SolverError::TooLarge)
        } else {
            None
        }
    }
}

/// A solver of ground clauses.
#[derive(Debug)]
pub struct Solver {
    state: State,
    domains: Vec<Rc<Domain>>,
    predicates: Vec<Rc<Predicate>>,
    formulas: Vec<Rc<UniversalFormula>>,
    cla_count: usize,
}

impl Solver {
    /// The mathematical value of the solver.
    pub closed spec fn view(&self) -> SolverView {
        SolverView {
            state: self.state@,
            domains: Seq::new(self.domains@.len(), |d: int| (self.domains@[d].spec_name(), self.domains@[d].spec_size())),
            predicates: Seq::new(self.predicates@.len(), |p: int| self.predicates@[p]@),
            formulas: Seq::new(self.formulas@.len(), |f: int| self.formulas@[f]@),
        }
    }

    /// The predicates and formulas are well formed, and so is the value
    /// of the solver.
    pub closed spec fn wf(&self) -> bool {
        &&& self@.wf()
        &&& forall|p: int| 0 <= p < self.predicates@.len() ==> (#[trigger] self.predicates@[p]).wf()
        &&& forall|f: int| 0 <= f < self.formulas@.len() ==> (#[trigger] self.formulas@[f]).wf()
        &&& self.cla_count == clauses_upto(self@.formulas, self@.formulas.len() as int)
    }

    /// What a well-formed solver says of its value.
    pub proof fn lemma_wf(&self)
        requires
            self.wf(),
        ensures
            self@.wf(),
    {
    }

    /// The solver without domains, predicates and formulas.
    pub fn new() -> (r: Self)
        ensures
            r.wf(),
            r@.state.len() == 0,
            r@.domains.len() == 0,
            r@.predicates.len() == 0,
            r@.formulas.len() == 0,
    {
        Self { state: State::new(), domains: Vec::new(), predicates: Vec::new(), formulas: Vec::new(), cla_count: 0 }
    }

    /// The truth values of the atoms.
    pub fn state(&self) -> (r: &State)
        ensures
            r@ == self@.state,
    {
        &self.state
    }

    /// The number of ground clauses.
    pub fn cla_count(&self) -> (r: usize)
        requires
            self.wf(),
        ensures
            r == clauses_upto(self@.formulas, self@.formulas.len() as int),
    {
        self.cla_count
    }

    /// Adds a domain with the given name and size.
    pub fn add_domain(&mut self, name: String, size: usize) -> (r: DomainIdx)
        requires
            old(self).wf(),
        ensures
            final(self).wf(),
            r.0 == old(self)@.domains.len(),
            final(self)@ == (SolverView { domains: old(self)@.domains.push((name@, size)), ..old(self)@ }),
    {
        let idx = DomainIdx(self.domains.len());
        let domain = Rc::new(Domain::new(name, size));
        self.domains.push(domain);
        proof {
            assert(self@.domains =~= old(self)@.domains.push((name@, size)));
            assert(self@.predicates =~= old(self)@.predicates);
            assert(self@.formulas =~= old(self)@.formulas);
        }
        idx
    }

    /// Adds a predicate with the given name over the domains with the
    /// given handles. Its atoms get the numbers that follow those of the
    /// atoms so far, and are undefined.
    ///
    /// Fails with `UnknownHandle` if a handle is not one of a domain of
    /// the solver, and with `TooLarge` if the numbers of the literals of
    /// the atoms leave the machine word.
    #[verifier::loop_isolation(false)]
    pub fn add_predicate(&mut self, name: String, domains: Vec<DomainIdx>) -> (r: Result<PredicateIdx, SolverError>)
        requires
            old(self).wf(),
        ensures
            final(self).wf(),
            match r {
                Ok(idx) => {
                    &&& old(self)@.predicate_refusal(domains@) is None
                    &&& idx.0 == old(self)@.predicates.len()
                    &&& final(self)@.predicates == old(self)@.predicates.push(
                        PredicateView {
                            name: name@,
                            domains: names_at(old(self)@.domains, domains@),
                            sizes: sizes_at(old(self)@.domains, domains@),
                            var_start: old(self)@.state.len() as usize,
                            var_count: volume_of(sizes_at(old(self)@.domains, domains@)) as usize,
                        },
                    )
                    &&& final(self)@.state == old(self)@.state + Seq::new(
                        volume_of(sizes_at(old(self)@.domains, domains@)),
                        |k: int| 0int,
                    )
                    &&& final(self)@.domains == old(self)@.domains
                    &&& final(self)@.formulas == old(self)@.formulas
                },
                Err(e) => old(self)@.predicate_refusal(domains@) == Some(e) && final(self)@ == old(self)@,
            },
    {
        let ghost before = self@;
        let ghost goal = sizes_at(before.domains, domains@);
        let mut chosen: Vec<Rc<Domain>> = Vec::new();
        let mut i: usize = 0;
        while i < domains.len()
            invariant
                i <= domains@.len(),
                chosen@.len() == i,
                forall|k: int| 0 <= k < i ==> (#[trigger] domains@[k]).0 < before.domains.len(),
                forall|k: int|
                    0 <= k < i ==> (#[trigger] chosen@[k]).spec_size() == before.domains[domains@[k].0 as int].1
                        && chosen@[k].spec_name() == before.domains[domains@[k].0 as int].0,
            decreases domains@.len() - i,
        {
            let handle = domains[i];
            if handle.0 >= self.domains.len() {
                return Err(SolverError::UnknownHandle);
            }
            let ghost sofar = chosen@;
            chosen.push(share(&self.domains[handle.0]));
            proof {
                assert forall|k: int| 0 <= k < i + 1 implies (#[trigger] chosen@[k]).spec_size()
                    == before.domains[domains@[k].0 as int].1 && chosen@[k].spec_name()
                    == before.domains[domains@[k].0 as int].0 by {
                    if k < i {
                        assert(chosen@[k] == sofar[k]);
                    }
                }
            }
            i += 1;
        }
        proof {
            assert(sizes(chosen@) =~= goal);
        }
        let start = self.state.get_variables();
        let count = match count_tuples(&chosen) {
            Some(count) => count,
            None => {
                return Err(SolverError::TooLarge);
            },
        };
        if start > usize::MAX / 2 || count > usize::MAX / 2 - start {
            return Err(SolverError::TooLarge);
        }
        let pred = Rc::new(Predicate::new(name, chosen, start));
        self.state.set_variables(start + count);
        self.predicates.push(pred);
        proof {
            let old_preds = before.predicates;
            let new_preds = self@.predicates;
            let n = old_preds.len() as int;
            assert(pred@.domains =~= names_at(before.domains, domains@));
            assert(new_preds =~= old_preds.push(pred@));
            assert(self@.state =~= before.state + Seq::new(volume_of(goal), |k: int| 0int));
            assert(self@.domains =~= before.domains);
            assert(self@.formulas =~= before.formulas);
            assert(new_preds.take(n) =~= old_preds.take(n));
            assert forall|p: int| 0 <= p < new_preds.len() implies (#[trigger] new_preds[p]).var_start
                == atoms_upto(new_preds, p) by {
                assert(new_preds.take(p) =~= old_preds.take(p));
                lemma_atoms_prefix(new_preds, old_preds, p);
            }
            lemma_atoms_prefix(new_preds, old_preds, n);
            assert forall|p: int| 0 <= p < self.predicates@.len() implies (#[trigger] self.predicates@[p]).wf() by {
                if p < n {
                    assert(self.predicates@[p] == old(self).predicates@[p]);
                }
            }
        }
        Ok(PredicateIdx(self.predicates.len() - 1))
    }

    /// The number of domains.
    pub fn domain_count(&self) -> (r: usize)
        ensures
            r == self@.domains.len(),
    {
        self.domains.len()
    }

    /// The domain with the given handle.
    pub fn domain(&self, idx: DomainIdx) -> (r: &Rc<Domain>)
        requires
            idx.0 < self@.domains.len(),
        ensures
            (r.spec_name(), r.spec_size()) == self@.domains[idx.0 as int],
    {
        &self.domains[idx.0]
    }

    /// The number of predicates.
    pub fn predicate_count(&self) -> (r: usize)
        ensures
            r == self@.predicates.len(),
    {
        self.predicates.len()
    }

    /// The predicate with the given handle.
    pub fn predicate(&self, idx: PredicateIdx) -> (r: &Rc<Predicate>)
        requires
            self.wf(),
            idx.0 < self@.predicates.len(),
        ensures
            r.wf(),
            r@ == self@.predicates[idx.0 as int],
    {
        &self.predicates[idx.0]
    }

    /// The number of formulas.
    pub fn formula_count(&self) -> (r: usize)
        ensures
            r == self@.formulas.len(),
    {
        self.formulas.len()
    }

    /// The formula with the given number.
    pub fn formula(&self, idx: usize) -> (r: &Rc<UniversalFormula>)
        requires
            self.wf(),
            idx < self@.formulas.len(),
        ensures
            r.wf(),
            r@ == self@.formulas[idx as int],
    {
        &self.formulas[idx]
    }

    /// The truth value of the literal.
    pub fn get_value(&self, lit: LiteralIdx) -> (r: Bool)
        requires
            lit@ / 2 < self@.state.len(),
        ensures
            r@ == literal_value(self@.state, lit@ as int),
    {
        self.state.get_value(lit)
    }

    /// Sets the given literal to true.
    pub fn enqueue(&mut self, lit: LiteralIdx)
        requires
            old(self).wf(),
            lit@ / 2 < old(self)@.state.len(),
            old(self)@.state[(lit@ / 2) as int] == 0,
        ensures
            final(self).wf(),
            final(self)@ == (SolverView { state: enqueued(old(self)@.state, lit@ as int), ..old(self)@ }),
    {
        self.state.enqueue(lit);
        proof {
            assert(self@.domains =~= old(self)@.domains);
            assert(self@.predicates =~= old(self)@.predicates);
            assert(self@.formulas =~= old(self)@.formulas);
        }
    }

    /// Lets the evaluator take up the instances of its formula whose first
    /// atom is the atom of the given literal, on the truth values of the
    /// solver: see `Evaluator::watch`.
    pub fn watch<'a>(&mut self, evaluator: &'a Evaluator, lit: &Literal) -> (r: Option<Clause<'a>>)
        requires
            old(self).wf(),
            evaluator.wf(),
            first_atom(evaluator.program@) matches Some(a) && a < evaluator.formula@.disjunction.len()
                && lit.spec_predicate().sizes == evaluator.formula@.disjunction[a].predicate.sizes && (!repeated(
                evaluator.formula@.disjunction[a].variables,
            ) ==> ready(
                evaluator.formula@,
                evaluator.program@,
                bound(
                    seeded(
                        evaluator.formula@.sizes.len(),
                        evaluator.formula@.disjunction[a].variables,
                        lit.spec_coords(),
                        lit.spec_coords().len() as int,
                    ),
                ),
                1,
            )),
            lit.wf(),
            covers(evaluator.formula@, old(self)@.state.len()),
        ensures
            final(self).wf(),
            final(self)@ == (SolverView { state: final(self)@.state, ..old(self)@ }),
            final(self)@.state.len() == old(self)@.state.len(),
            forall|k: int|
                0 <= k < old(self)@.state.len() && old(self)@.state[k] != 0 ==> final(self)@.state[k]
                    == old(self)@.state[k],
            first_atom(evaluator.program@) matches Some(a) && ({
                let variables = evaluator.formula@.disjunction[a].variables;
                let seed = seeded(
                    evaluator.formula@.sizes.len(),
                    variables,
                    lit.spec_coords(),
                    variables.len() as int,
                );
                if repeated(variables) {
                    r.is_none() && final(self)@.state == old(self)@.state
                } else {
                    &&& (final(self)@.state, r.is_some()) == run(
                        evaluator.formula@,
                        evaluator.program@,
                        old(self)@.state,
                        seed,
                        1,
                    )
                    &&& r matches Some(clause) ==> clause.wf() && clause.spec_formula() == evaluator.formula@
                        && clause.spec_coords() == seed
                }
            }),
    {
        let found = evaluator.watch(&mut self.state, lit);
        proof {
            assert(self@.domains =~= old(self)@.domains);
            assert(self@.predicates =~= old(self)@.predicates);
            assert(self@.formulas =~= old(self)@.formulas);
        }
        found
    }

    /// Adds the disjunction of the given atoms: every atom has a sign, the
    /// handle of a predicate, and a variable of the formula for every axis
    /// of the predicate. The clauses of the formula get the numbers that
    /// follow those of the clauses so far.
    ///
    /// Fails with `UnknownHandle` if a handle is not one of a predicate
    /// of the solver, and else with what is wrong with the drafts made of
    /// the predicates.
    #[verifier::loop_isolation(false)]
    pub fn add_formula(&mut self, disjunction: Vec<(bool, PredicateIdx, Vec<usize>)>) -> (r: Result<
        (),
        SolverError,
    >)
        requires
            old(self).wf(),
        ensures
            final(self).wf(),
            final(self)@.state == old(self)@.state,
            final(self)@.domains == old(self)@.domains,
            final(self)@.predicates == old(self)@.predicates,
            match r {
                Ok(()) => {
                    &&& !unknown(old(self)@.predicates, disjunction@)
                    &&& final(self)@.formulas.len() == old(self)@.formulas.len() + 1
                    &&& final(self)@.formulas.drop_last() == old(self)@.formulas
                    &&& final(self)@.formulas.last().wf()
                    &&& final(self)@.formulas.last().disjunction == resolved(old(self)@.predicates, disjunction@)
                    &&& typed(
                        final(self)@.formulas.last().disjunction,
                        final(self)@.formulas.last().domains,
                        final(self)@.formulas.last().sizes,
                    )
                },
                Err(e) => {
                    &&& final(self)@.formulas == old(self)@.formulas
                    &&& if unknown(old(self)@.predicates, disjunction@) {
                        e == SolverError::UnknownHandle
                    } else {
                        formula_fault(
                            resolved(old(self)@.predicates, disjunction@),
                            clauses_upto(old(self)@.formulas, old(self)@.formulas.len() as int) as usize,
                            e,
                        )
                    }
                },
            },
    {
        let ghost before = self@;
        let ghost all = disjunction@;
        let ghost n = all.len() as int;
        let mut l: usize = 0;
        while l < disjunction.len()
            invariant
                l <= n,
                forall|m: int| 0 <= m < l ==> (#[trigger] all[m]).1.0 < before.predicates.len(),
            decreases n - l,
        {
            if disjunction[l].1.0 >= self.predicates.len() {
                return Err(SolverError::UnknownHandle);
            }
            l += 1;
        }
        let mut rest = disjunction;
        let mut reversed: Vec<Draft> = Vec::new();
        let mut k: usize = rest.len();
        while k > 0
            invariant
                k <= n,
                rest@ == all.take(k as int),
                reversed@.len() == n - k,
                forall|j: int|
                    0 <= j < n - k ==> (#[trigger] reversed@[j]).0 == all[n - 1 - j].0 && reversed@[j].1
                        == self.predicates@[all[n - 1 - j].1.0 as int] && reversed@[j].2 == all[n - 1 - j].2,
            decreases k,
        {
            let ghost sofar = reversed@;
            let draft = rest.pop().unwrap();
            k -= 1;
            proof {
                assert(draft == all[k as int]);
                assert(rest@ =~= all.take(k as int));
            }
            let predicate = share(&self.predicates[draft.1.0]);
            reversed.push((draft.0, predicate, draft.2));
            proof {
                assert forall|j: int| 0 <= j < n - k implies (#[trigger] reversed@[j]).0 == all[n - 1 - j].0
                    && reversed@[j].1 == self.predicates@[all[n - 1 - j].1.0 as int] && reversed@[j].2 == all[n
                    - 1 - j].2 by {
                    if j < n - k - 1 {
                        assert(reversed@[j] == sofar[j]);
                    }
                }
            }
        }
        let mut drafts: Vec<Draft> = Vec::new();
        while reversed.len() > 0
            invariant
                reversed@.len() + drafts@.len() == n,
                forall|j: int|
                    0 <= j < reversed@.len() ==> (#[trigger] reversed@[j]).0 == all[n - 1 - j].0 && reversed@[j].1
                        == self.predicates@[all[n - 1 - j].1.0 as int] && reversed@[j].2 == all[n - 1 - j].2,
                forall|j: int|
                    0 <= j < drafts@.len() ==> (#[trigger] drafts@[j]).0 == all[j].0 && drafts@[j].1
                        == self.predicates@[all[j].1.0 as int] && drafts@[j].2 == all[j].2,
            decreases reversed@.len(),
        {
            let ghost sofar = drafts@;
            let draft = reversed.pop().unwrap();
            drafts.push(draft);
            proof {
                assert forall|j: int| 0 <= j < drafts@.len() implies (#[trigger] drafts@[j]).0 == all[j].0
                    && drafts@[j].1 == self.predicates@[all[j].1.0 as int] && drafts@[j].2 == all[j].2 by {
                    if j < sofar.len() {
                        assert(drafts@[j] == sofar[j]);
                    }
                }
            }
        }
        proof {
            assert forall|j: int| 0 <= j < drafts@.len() implies (#[trigger] drafts@[j]).1.wf() by {
                assert(self.predicates@[all[j].1.0 as int].wf());
            }
        }
        proof {
            assert(atoms_of(drafts@) =~= resolved(before.predicates, all));
        }
        let formula = match UniversalFormula::new(drafts, self.cla_count) {
            Ok(formula) => formula,
            Err(e) => {
                return Err(e);
            },
        };
        let count = formula.cla_count();
        proof {
            formula.lemma_wf();
        }
        let next = self.cla_count + count;
        self.cla_count = next;
        self.formulas.push(Rc::new(formula));
        proof {
            let old_forms = before.formulas;
            let new_forms = self@.formulas;
            let f = old_forms.len() as int;
            assert(new_forms =~= old_forms.push(formula@));
            assert(new_forms.drop_last() =~= old_forms);
            assert(self@.predicates =~= before.predicates);
            assert(self@.domains =~= before.domains);
            assert forall|g: int| 0 <= g < new_forms.len() implies (#[trigger] new_forms[g]).cla_start
                == clauses_upto(new_forms, g) by {
                assert(new_forms.take(g) =~= old_forms.take(g));
                lemma_clauses_prefix(new_forms, old_forms, g);
            }
            assert(new_forms.take(f) =~= old_forms.take(f));
            lemma_clauses_prefix(new_forms, old_forms, f);
            assert forall|g: int| 0 <= g < self.formulas@.len() implies (#[trigger] self.formulas@[g]).wf() by {
                if g < f {
                    assert(self.formulas@[g] == old(self).formulas@[g]);
                }
            }
            assert(formula@.disjunction =~= resolved(before.predicates, all));
        }
        Ok(())
    }

    /// The literal with the given index: the atom of the predicate that
    /// holds the number of the atom, with the sign of the index.
    #[verifier::loop_isolation(false)]
    pub fn get_literal(&self, idx: LiteralIdx) -> (r: Literal<'_>)
        requires
            self.wf(),
            idx@ / 2 < self@.state.len(),
        ensures
            r.wf(),
            r.spec_negated() == (idx@ % 2 == 1),
            exists|p: int|
                0 <= p < self@.predicates.len() && r.spec_predicate() == #[trigger] self@.predicates[p],
            idx@ / 2 == r.spec_predicate().var_start + flat_index(r.spec_predicate().sizes, r.spec_coords()),
    {
        let negated = idx.negated();
        let mut offset = idx.variable();
        let ghost preds = self@.predicates;
        let mut p: usize = 0;
        while p < self.predicates.len()
            invariant
                p <= preds.len(),
                offset + atoms_upto(preds, p as int) == idx@ / 2,
            decreases preds.len() - p,
        {
            let predicate = &self.predicates[p];
            proof {
                assert(predicate@ == preds[p as int]);
                assert(predicate.wf());
            }
            if offset < predicate.var_count() {
                let mut coords: Vec<Coord> = Vec::new();
                while coords.len() < predicate.arity()
                    invariant
                        coords@.len() <= predicate@.sizes.len(),
                    decreases predicate@.sizes.len() - coords@.len(),
                {
                    coords.push(Coord(0));
                }
                predicate.get_coords(offset, &mut coords);
                proof {
                    lemma_coords_of(predicate@.sizes, offset as nat);
                }
                return Literal::new(negated, predicate, coords);
            }
            offset -= predicate.var_count();
            p += 1;
        }
        proof {
            assert(false);
        }
        unreached()
    }

    /// The clause with the given number: the instance of the formula that
    /// holds the number.
    #[verifier::loop_isolation(false)]
    pub fn get_clause(&self, idx: ClauseIdx) -> (r: Clause<'_>)
        requires
            self.wf(),
            idx.0 < clauses_upto(self@.formulas, self@.formulas.len() as int),
        ensures
            r.wf(),
            r.grounded(),
            exists|f: int| 0 <= f < self@.formulas.len() && r.spec_formula() == #[trigger] self@.formulas[f],
            idx.0 == r.spec_formula().cla_start + flat_index(r.spec_formula().sizes, r.spec_coords()),
    {
        let mut offset = idx.0;
        let ghost forms = self@.formulas;
        let mut f: usize = 0;
        while f < self.formulas.len()
            invariant
                f <= forms.len(),
                offset + clauses_upto(forms, f as int) == idx.0,
            decreases forms.len() - f,
        {
            let formula = &self.formulas[f];
            proof {
                assert(formula@ == forms[f as int]);
                assert(formula.wf());
                formula.lemma_wf();
            }
            if offset < formula.cla_count() {
                let mut coords: Vec<Coord> = Vec::new();
                while coords.len() < formula.arity()
                    invariant
                        coords@.len() <= formula@.sizes.len(),
                    decreases formula@.sizes.len() - coords@.len(),
                {
                    coords.push(Coord(0));
                }
                formula.get_coords(offset, &mut coords);
                proof {
                    lemma_coords_of(formula@.sizes, offset as nat);
                }
                return Clause::new(formula, coords);
            }
            offset -= formula.cla_count();
            f += 1;
        }
        proof {
            assert(false);
        }
        unreached()
    }
}

/// Whether a draft names a predicate that the solver has not.
pub open spec fn unknown(predicates: Seq<PredicateView>, drafts: Seq<(bool, PredicateIdx, Vec<usize>)>) -> bool {
    exists|l: int| 0 <= l < drafts.len() && (#[trigger] drafts[l]).1.0 >= predicates.len()
}

/// The atoms that the drafts stand for, with the predicates that their
/// handles name.
pub open spec fn resolved(predicates: Seq<PredicateView>, drafts: Seq<(bool, PredicateIdx, Vec<usize>)>) -> Seq<
    AtomView,
> {
    Seq::new(
        drafts.len(),
        |l: int| AtomView { negated: drafts[l].0, predicate: predicates[drafts[l].1.0 as int], variables: drafts[l].2@ },
    )
}

} // verus!
