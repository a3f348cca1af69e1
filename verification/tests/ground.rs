use finmodel::ground::eval::{EvalStep, Evaluator};
use finmodel::ground::solver::Solver;
use finmodel::ground::{
    count_tuples, get_coords, get_offset, AtomicFormula, Bool, Clause, ClauseIdx, Coord, Domain, DomainIdx, Literal,
    LiteralIdx, Predicate, PredicateIdx, State, UniversalFormula,
};
use finmodel::solver::error::SolverError;
use std::rc::Rc;

fn group_solver() -> (Solver, Vec<PredicateIdx>) {
    let mut sol = Solver::new();
    let set = sol.add_domain("set".into(), 3);

    let equ = sol.add_predicate("equ".into(), vec![set, set]).unwrap();
    let one = sol.add_predicate("one".into(), vec![set]).unwrap();
    let inv = sol.add_predicate("inv".into(), vec![set, set]).unwrap();
    let mul = sol.add_predicate("mul".into(), vec![set, set, set]).unwrap();

    sol.add_formula(vec![(false, equ, vec![0, 0])]).unwrap();
    sol.add_formula(vec![(true, equ, vec![0, 1]), (false, equ, vec![1, 0])]).unwrap();
    sol.add_formula(vec![
        (true, equ, vec![0, 1]),
        (true, equ, vec![1, 2]),
        (false, equ, vec![0, 2]),
    ])
    .unwrap();
    sol.add_formula(vec![
        (true, mul, vec![0, 1, 3]),
        (true, mul, vec![3, 2, 4]),
        (true, mul, vec![1, 2, 5]),
        (false, mul, vec![0, 5, 4]),
    ])
    .unwrap();
    sol.add_formula(vec![
        (true, mul, vec![1, 2, 3]),
        (true, mul, vec![0, 3, 4]),
        (true, mul, vec![0, 1, 5]),
        (false, mul, vec![5, 2, 4]),
    ])
    .unwrap();
    sol.add_formula(vec![
        (true, inv, vec![0, 1]),
        (true, mul, vec![1, 0, 2]),
        (false, one, vec![2]),
    ])
    .unwrap();
    sol.add_formula(vec![(true, one, vec![0]), (false, mul, vec![0, 1, 1])]).unwrap();
    (sol, vec![equ, one, inv, mul])
}

#[test]
fn truth_values_negate_and_combine() {
    let f = Bool::falsity();
    let u = Bool::undefined();
    let t = Bool::truth();
    assert!(f.is_false() && !f.is_undef() && !f.is_true());
    assert!(u.is_undef() && !u.is_false() && !u.is_true());
    assert!(t.is_true() && !t.is_undef() && !t.is_false());
    assert!(f.negate().is_true());
    assert!(u.negate().is_undef());
    assert!(t.negate().is_false());
    assert!(t.and(u).is_undef());
    assert!(t.and(f).is_false());
    assert!(u.and(f).is_false());
    assert!(t.or(u).is_true());
    assert!(u.or(f).is_undef());
    assert!(f.or(f).is_false());
    assert!(t.flip(true).is_false());
    assert!(t.flip(false).is_true());
    assert_eq!(t.name(), "true");
    assert_eq!(u.name(), "undef");
    assert_eq!(f.name(), "false");
    assert!(Bool::default().is_undef());
}

#[test]
fn tuples_have_row_major_numbers() {
    let a = Rc::new(Domain::new("a".into(), 2));
    let b = Rc::new(Domain::new("b".into(), 3));
    let domains = vec![a.clone(), b.clone(), a.clone()];
    assert_eq!(count_tuples(&domains), Some(12));
    assert_eq!(get_offset(&domains, &vec![Coord(1), Coord(2), Coord(1)]), 11);
    assert_eq!(get_offset(&domains, &vec![Coord(0), Coord(1), Coord(0)]), 2);
    let mut coords = vec![Coord(0); 3];
    for offset in 0..12 {
        get_coords(&domains, offset, &mut coords);
        assert_eq!(get_offset(&domains, &coords), offset);
    }
    get_coords(&domains, 7, &mut coords);
    assert_eq!(coords, vec![Coord(1), Coord(0), Coord(1)]);
    assert!(a.ptr_eq(&a));
    assert!(a.ptr_eq(&domains[2]));
    assert!(!a.ptr_eq(&b));
    assert_eq!(b.name(), "b");
    assert_eq!(b.size(), 3);
}

#[test]
fn literal_indices_hold_atom_and_sign() {
    let pos = LiteralIdx::new(false, 5);
    let neg = LiteralIdx::new(true, 5);
    assert_eq!(pos.variable(), 5);
    assert_eq!(neg.variable(), 5);
    assert!(!pos.negated());
    assert!(neg.negated());
    assert_eq!(pos.not(), neg);
    assert_eq!(neg.not(), pos);
    assert_eq!(pos.xor(true), neg);
    assert_eq!(pos.xor(false), pos);
    assert_eq!(neg.xor(true), pos);
}

#[test]
fn predicates_number_their_atoms() {
    let set = Rc::new(Domain::new("set".into(), 3));
    let pred = Rc::new(Predicate::new("mul".into(), vec![set.clone(), set.clone(), set.clone()], 10));
    assert_eq!(pred.name(), "mul");
    assert_eq!(pred.arity(), 3);
    assert_eq!(pred.var_count(), 27);
    assert_eq!(pred.var_start(), 10);
    assert_eq!(pred.domain(1).size(), 3);
    assert_eq!(pred.get_offset(&vec![Coord(1), Coord(2), Coord(0)]), 15);
    let mut coords = vec![Coord(0); 3];
    pred.get_coords(15, &mut coords);
    assert_eq!(coords, vec![Coord(1), Coord(2), Coord(0)]);

    let lit = Literal::new(true, &pred, vec![Coord(1), Coord(2), Coord(0)]);
    assert_eq!(lit.idx(), LiteralIdx::new(true, 25));
    assert!(lit.negated());
    assert!(lit.predicate().ptr_eq(&pred));
    assert_eq!(lit.coords(), &vec![Coord(1), Coord(2), Coord(0)]);
    assert_eq!(lit.destroy(), vec![Coord(1), Coord(2), Coord(0)]);
}

#[test]
fn states_grow_with_undefined_atoms() {
    let mut state = State::new();
    assert_eq!(state.get_variables(), 0);
    state.set_variables(4);
    assert_eq!(state.get_variables(), 4);
    for var in 0..4 {
        assert!(state.get_value(LiteralIdx::new(false, var)).is_undef());
    }
    state.enqueue(LiteralIdx::new(true, 2));
    assert!(state.get_value(LiteralIdx::new(true, 2)).is_true());
    assert!(state.get_value(LiteralIdx::new(false, 2)).is_false());
    state.enqueue(LiteralIdx::new(false, 1));
    assert!(state.get_value(LiteralIdx::new(false, 1)).is_true());
    state.set_variables(6);
    assert!(state.get_value(LiteralIdx::new(false, 2)).is_false());
    assert!(state.get_value(LiteralIdx::new(false, 5)).is_undef());
    state.set_variables(2);
    assert_eq!(state.get_variables(), 2);
    assert!(state.get_value(LiteralIdx::new(false, 1)).is_true());
}

#[test]
fn atoms_read_their_variables() {
    let set = Rc::new(Domain::new("set".into(), 3));
    let pred = Rc::new(Predicate::new("equ".into(), vec![set.clone(), set.clone()], 0));
    let atom = AtomicFormula::new(true, pred.clone(), vec![2, 0]);
    assert!(atom.negated());
    assert_eq!(atom.variables(), &vec![2, 0]);
    assert!(atom.predicate().ptr_eq(&pred));
    // the atom at (coords[2], coords[0]) = (1, 2) has the number 5
    let lit = atom.get_literal(&vec![Coord(2), Coord(0), Coord(1)]);
    assert_eq!(lit, LiteralIdx::new(true, 5));
}

#[test]
fn formulas_take_domains_from_their_atoms() {
    let small = Rc::new(Domain::new("small".into(), 2));
    let large = Rc::new(Domain::new("large".into(), 3));
    let rel = Rc::new(Predicate::new("rel".into(), vec![small.clone(), large.clone()], 0));
    let formula =
        UniversalFormula::new(vec![(false, rel.clone(), vec![1, 0]), (true, rel.clone(), vec![1, 2])], 7).unwrap();
    assert_eq!(formula.arity(), 3);
    assert_eq!(formula.domain(0).name(), "large");
    assert_eq!(formula.domain(1).name(), "small");
    assert_eq!(formula.domain(2).name(), "large");
    assert_eq!(formula.cla_count(), 18);
    assert_eq!(formula.cla_start(), 7);
    assert_eq!(formula.atom_count(), 2);
    assert!(formula.disjunction(1).negated());
    assert_eq!(formula.get_offset(&vec![Coord(2), Coord(1), Coord(0)]), 15);
    let mut coords = vec![Coord(0); 3];
    formula.get_coords(15, &mut coords);
    assert_eq!(coords, vec![Coord(2), Coord(1), Coord(0)]);

    let formula = Rc::new(formula);
    let clause = Clause::new(&formula, vec![Coord(2), Coord(1), Coord(0)]);
    assert_eq!(clause.idx(), ClauseIdx(22));
    let literals = clause.literals();
    assert_eq!(literals.len(), 2);
    assert_eq!(literals[0].coords(), &vec![Coord(1), Coord(2)]);
    assert!(!literals[0].negated());
    assert_eq!(literals[1].coords(), &vec![Coord(1), Coord(0)]);
    assert!(literals[1].negated());
    assert_eq!(clause.destroy(), vec![Coord(2), Coord(1), Coord(0)]);
}

#[test]
fn formulas_refuse_faulty_drafts() {
    let small = Rc::new(Domain::new("small".into(), 2));
    let large = Rc::new(Domain::new("large".into(), 3));
    let rel = Rc::new(Predicate::new("rel".into(), vec![small.clone(), large.clone()], 0));
    let arity = UniversalFormula::new(vec![(false, rel.clone(), vec![0])], 0);
    assert_eq!(arity.err(), Some(SolverError::ArityMismatch));
    let clash = UniversalFormula::new(vec![(false, rel.clone(), vec![0, 0])], 0);
    assert_eq!(clash.err(), Some(SolverError::DomainMismatch));
    let skipped = UniversalFormula::new(vec![(false, rel.clone(), vec![0, 2])], 0);
    assert_eq!(skipped.err(), Some(SolverError::DomainMismatch));
    let late = UniversalFormula::new(vec![(false, rel.clone(), vec![0, 1])], usize::MAX - 5);
    assert_eq!(late.err(), Some(SolverError::TooLarge));
    let fits = UniversalFormula::new(vec![(false, rel.clone(), vec![0, 1])], usize::MAX - 6);
    assert!(fits.is_ok());
}

#[test]
fn group_theory_counts_atoms_and_clauses() {
    let (sol, preds) = group_solver();
    assert_eq!(sol.domain_count(), 1);
    assert_eq!(sol.domain(DomainIdx(0)).name(), "set");
    assert_eq!(sol.predicate_count(), 4);
    assert_eq!(sol.formula_count(), 7);
    assert_eq!(sol.state().get_variables(), 9 + 3 + 9 + 27);
    assert_eq!(sol.cla_count(), 3 + 9 + 27 + 729 + 729 + 27 + 9);
    assert_eq!(sol.predicate(preds[0]).var_start(), 0);
    assert_eq!(sol.predicate(preds[1]).var_start(), 9);
    assert_eq!(sol.predicate(preds[2]).var_start(), 12);
    assert_eq!(sol.predicate(preds[3]).var_start(), 21);
    assert_eq!(sol.formula(3).arity(), 6);
    assert_eq!(sol.formula(3).cla_start(), 39);
}

#[test]
fn literals_and_clauses_are_found_by_number() {
    let (sol, preds) = group_solver();
    // atom 25 is atom 4 of `mul`: mul(0, 1, 1)
    let lit = sol.get_literal(LiteralIdx::new(true, 25));
    assert!(lit.negated());
    assert!(lit.predicate().ptr_eq(sol.predicate(preds[3])));
    assert_eq!(lit.coords(), &vec![Coord(0), Coord(1), Coord(1)]);
    assert_eq!(lit.idx(), LiteralIdx::new(true, 25));
    for var in 0..48 {
        assert_eq!(sol.get_literal(LiteralIdx::new(false, var)).idx(), LiteralIdx::new(false, var));
    }
    // clause 14 is clause 2 of the third formula
    let clause = sol.get_clause(ClauseIdx(14));
    assert_eq!(clause.idx(), ClauseIdx(14));
    assert_eq!(clause.literals().len(), 3);
    assert_eq!(clause.destroy(), vec![Coord(0), Coord(0), Coord(2)]);
    for idx in [0, 2, 3, 11, 12, 38, 39, 767, 768, 1532] {
        assert_eq!(sol.get_clause(ClauseIdx(idx)).idx(), ClauseIdx(idx));
    }
}

#[test]
fn solver_refuses_unknown_handles() {
    let mut sol = Solver::new();
    let set = sol.add_domain("set".into(), 3);
    assert_eq!(
        sol.add_predicate("p".into(), vec![set, DomainIdx(1)]).err(),
        Some(SolverError::UnknownHandle)
    );
    let p = sol.add_predicate("p".into(), vec![set]).unwrap();
    assert_eq!(
        sol.add_formula(vec![(false, PredicateIdx(1), vec![0])]).err(),
        Some(SolverError::UnknownHandle)
    );
    assert_eq!(sol.add_formula(vec![(false, p, vec![0, 1])]).err(), Some(SolverError::ArityMismatch));
    assert_eq!(sol.add_formula(vec![(false, p, vec![1])]).err(), Some(SolverError::DomainMismatch));
    assert_eq!(sol.formula_count(), 0);
    assert_eq!(sol.predicate_count(), 1);
    let huge = sol.add_domain("huge".into(), usize::MAX / 2);
    assert_eq!(sol.add_predicate("q".into(), vec![huge]).err(), Some(SolverError::TooLarge));
    assert_eq!(sol.add_predicate("r".into(), vec![huge, huge, huge]).err(), Some(SolverError::TooLarge));
    assert_eq!(sol.state().get_variables(), 3);
}

#[test]
fn watching_makes_the_last_open_literal_true() {
    let (mut sol, preds) = group_solver();
    let watcher = Evaluator { formula: sol.formula(1).clone(), program: vec![EvalStep::Atom(0), EvalStep::Atom(1)] };
    let equ = sol.predicate(preds[0]).clone();

    let lit1 = Literal::new(true, &equ, vec![Coord(1), Coord(2)]);
    sol.enqueue(lit1.idx().not());
    let lit2 = Literal::new(false, &equ, vec![Coord(2), Coord(1)]);
    assert!(sol.get_value(lit1.idx()).is_false());
    assert!(sol.get_value(lit2.idx()).is_undef());

    // -equ(1,2) is false, so +equ(2,1) is the last literal of the clause
    assert!(sol.watch(&watcher, &lit1).is_none());
    assert!(sol.get_value(lit1.idx()).is_false());
    assert!(sol.get_value(lit2.idx()).is_true());

    // now the clause holds, and nothing changes
    assert!(sol.watch(&watcher, &lit1).is_none());
    assert!(sol.get_value(lit2.idx()).is_true());
}

#[test]
fn watching_finds_the_clause_that_fails() {
    let (mut sol, preds) = group_solver();
    let watcher = Evaluator { formula: sol.formula(1).clone(), program: vec![EvalStep::Atom(0), EvalStep::Atom(1)] };
    let equ = sol.predicate(preds[0]).clone();
    let lit1 = Literal::new(true, &equ, vec![Coord(1), Coord(2)]);
    sol.enqueue(LiteralIdx::new(false, 5));
    sol.enqueue(LiteralIdx::new(true, 7));
    let found = sol.watch(&watcher, &lit1).unwrap();
    assert_eq!(found.idx(), ClauseIdx(3 + 5));
    assert_eq!(found.destroy(), vec![Coord(1), Coord(2)]);

    // a variable at two axes of the watched atom is not taken up
    let reflexive = Evaluator { formula: sol.formula(0).clone(), program: vec![EvalStep::Atom(0)] };
    let lit = Literal::new(false, &equ, vec![Coord(1), Coord(1)]);
    assert!(sol.watch(&reflexive, &lit).is_none());
}

#[test]
fn loops_run_through_the_domain() {
    let (sol, preds) = group_solver();
    // transitivity: -equ(x0,x1) -equ(x1,x2) +equ(x0,x2), watched at its first atom
    let watcher = Evaluator {
        formula: sol.formula(2).clone(),
        program: vec![EvalStep::Atom(0), EvalStep::Loop(2), EvalStep::Atom(1), EvalStep::Atom(2)],
    };
    let equ = sol.predicate(preds[0]).clone();
    let mut state = State::new();
    state.set_variables(sol.state().get_variables());
    // equ(0,1) and equ(1,2) hold, equ(0,2) is open
    state.enqueue(LiteralIdx::new(false, 1));
    state.enqueue(LiteralIdx::new(false, 5));
    let lit = Literal::new(true, &equ, vec![Coord(0), Coord(1)]);
    assert!(watcher.watch(&mut state, &lit).is_none());
    assert!(state.get_value(LiteralIdx::new(false, 2)).is_true());
    // equ(0,0) stays open: with x2 = 0 the literal -equ(1,0) is open too
    assert!(state.get_value(LiteralIdx::new(false, 0)).is_undef());
    assert!(state.get_value(LiteralIdx::new(false, 3)).is_undef());

    let mut coords = vec![Coord(0), Coord(1), Coord(usize::MAX)];
    assert!(!watcher.conflicting(&state, &mut coords, 1));
    assert_eq!(coords, vec![Coord(0), Coord(1), Coord(usize::MAX)]);
    assert!(!watcher.propagate(&mut state, &mut coords, 1));
    assert!(watcher.propagate(&mut state, &mut coords, 4));

    // with equ(0,2) false the instance x2 = 2 fails
    let mut state = State::new();
    state.set_variables(sol.state().get_variables());
    state.enqueue(LiteralIdx::new(false, 1));
    state.enqueue(LiteralIdx::new(false, 5));
    state.enqueue(LiteralIdx::new(true, 2));
    assert!(watcher.conflicting(&state, &mut coords, 1));
    assert!(watcher.propagate(&mut state, &mut coords, 1));
    assert_eq!(coords, vec![Coord(0), Coord(1), Coord(usize::MAX)]);
}

#[test]
fn places_tell_domains_of_one_name_apart() {
    let a = Rc::new(Domain::new("set".into(), 3));
    let b = Rc::new(Domain::new("set".into(), 3));
    let shared = a.clone();
    assert!(a.ptr_eq(&shared));
    assert!(!a.ptr_eq(&b));
    assert_eq!((a.name(), a.size()), (b.name(), b.size()));
    let p = Rc::new(Predicate::new("p".into(), vec![a.clone()], 0));
    let q = Rc::new(Predicate::new("p".into(), vec![b.clone()], 0));
    assert!(p.ptr_eq(&p));
    assert!(!p.ptr_eq(&q));
    // one variable cannot stand for elements of both domains
    let mixed = UniversalFormula::new(vec![(false, p.clone(), vec![0]), (true, q.clone(), vec![0])], 0);
    assert_eq!(mixed.err(), Some(SolverError::DomainMismatch));
    let apart = UniversalFormula::new(vec![(false, p.clone(), vec![0]), (true, q.clone(), vec![1])], 0).unwrap();
    assert_eq!(apart.cla_count(), 9);
    assert!(apart.domain(0).ptr_eq(&a));
    assert!(apart.domain(1).ptr_eq(&b));

    // the solver tells its domains apart in the same way
    let mut sol = Solver::new();
    let one = sol.add_domain("set".into(), 2);
    let two = sol.add_domain("set".into(), 2);
    let r = sol.add_predicate("r".into(), vec![one, two]).unwrap();
    assert_eq!(sol.add_formula(vec![(false, r, vec![0, 0])]).err(), Some(SolverError::DomainMismatch));
    assert_eq!(sol.add_formula(vec![(false, r, vec![0, 1]), (true, r, vec![0, 1])]), Ok(()));
    assert_eq!(sol.add_formula(vec![(false, r, vec![0, 1]), (true, r, vec![1, 0])]).err(), Some(SolverError::DomainMismatch));
}

#[test]
fn ragged_drafts_come_first() {
    let small = Rc::new(Domain::new("small".into(), 2));
    let large = Rc::new(Domain::new("large".into(), 3));
    let rel = Rc::new(Predicate::new("rel".into(), vec![small.clone(), large.clone()], 0));
    let both = UniversalFormula::new(vec![(false, rel.clone(), vec![0, 0]), (true, rel.clone(), vec![0])], 0);
    assert_eq!(both.err(), Some(SolverError::ArityMismatch));
    let late = UniversalFormula::new(vec![(false, rel.clone(), vec![0, 1, 2])], usize::MAX);
    assert_eq!(late.err(), Some(SolverError::ArityMismatch));
}
