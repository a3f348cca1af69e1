use finmodel::bitops::{Bit2, BOOL_FALSE, BOOL_TRUE, BOOL_UNDEF, EVAL_FALSE, EVAL_TRUE, EVAL_UNDEF, EVAL_UNIT};
use finmodel::solver::domain::{Dom, Var};
use finmodel::solver::driver::Solver;
use finmodel::solver::error::SolverError;

fn values(sol: &Solver, var: Var) -> Vec<u32> {
    let shape = sol.variable(var).shape();
    shape.positions().map(|pos| sol.state().assignment().get(pos).idx()).collect()
}

fn search_all(sol: &mut Solver, watch: &[Var]) -> Vec<Vec<Vec<u32>>> {
    let mut solutions = Vec::new();
    let mut steps = 0;
    loop {
        steps += 1;
        assert!(steps < 100000);
        let status = sol.search_status();
        if status == Bit2::new(EVAL_TRUE) {
            solutions.push(watch.iter().map(|&var| values(sol, var)).collect());
        }
        if !sol.search_next(status) {
            break;
        }
    }
    solutions
}

#[test]
fn one_positive_literal_has_one_model() {
    let mut sol = Solver::new();
    let set = sol.add_domain("set", 2).unwrap();
    let p = sol.add_variable("p", vec![set]).unwrap();
    sol.add_clause(vec![(true, p, vec![0])]).unwrap();
    let solutions = search_all(&mut sol, &[p]);
    assert_eq!(solutions, vec![vec![vec![BOOL_TRUE, BOOL_TRUE]]]);
}

#[test]
fn a_disjunction_over_two_atoms_has_three_models_in_two_solutions() {
    let mut sol = Solver::new();
    let set = sol.add_domain("set", 2).unwrap();
    let one = sol.add_domain("one", 1).unwrap();
    let p = sol.add_variable("p", vec![set]).unwrap();
    let zero = sol.add_variable("zero", vec![set]).unwrap();
    let first = sol.add_variable("first", vec![one, set]).unwrap();
    let second = sol.add_variable("second", vec![one, set]).unwrap();
    sol.set_value(true, first, &[0, 0]).unwrap();
    sol.set_value(false, first, &[0, 1]).unwrap();
    sol.set_value(false, second, &[0, 0]).unwrap();
    sol.set_value(true, second, &[0, 1]).unwrap();
    sol.set_value(true, zero, &[0]).unwrap();
    sol.set_value(true, zero, &[1]).unwrap();
    // p(x) or p(y) for the first element x and the second element y
    sol.add_clause(vec![
        (false, first, vec![2, 0]),
        (false, second, vec![2, 1]),
        (true, p, vec![0]),
        (true, p, vec![1]),
    ])
    .unwrap();
    let solutions = search_all(&mut sol, &[p]);
    // the first solution leaves p(1) open: it stands for two models
    assert_eq!(
        solutions,
        vec![vec![vec![BOOL_TRUE, BOOL_UNDEF]], vec![vec![BOOL_FALSE, BOOL_TRUE]]]
    );
}

#[test]
fn equality_is_fixed_without_decisions() {
    let mut sol = Solver::new();
    let set = sol.add_domain("set", 3).unwrap();
    let equ = sol.add_variable("equ", vec![set, set]).unwrap();
    sol.set_equality(equ).unwrap();
    sol.add_clause(vec![(true, equ, vec![0, 0])]).unwrap();
    sol.add_clause(vec![(false, equ, vec![0, 1]), (true, equ, vec![1, 0])]).unwrap();
    sol.add_clause(vec![
        (false, equ, vec![0, 1]),
        (false, equ, vec![1, 2]),
        (true, equ, vec![0, 2]),
    ])
    .unwrap();
    assert_eq!(sol.propagate(), Bit2::new(EVAL_TRUE));
    assert_eq!(sol.get_status(), Bit2::new(EVAL_TRUE));
    assert_eq!(sol.state().levels().len(), 0);
    let t = BOOL_TRUE;
    let f = BOOL_FALSE;
    assert_eq!(values(&sol, equ), vec![t, f, f, f, t, f, f, f, t]);
    assert_eq!(sol.state().steps().len(), 9);
}

fn group_theory(size: usize, fix_equality: bool) -> (Solver, Vec<Var>) {
    let mut sol = Solver::new();
    let set = sol.add_domain("set", size).unwrap();
    let equ = sol.add_variable("equ", vec![set, set]).unwrap();
    let one = sol.add_variable("one", vec![set]).unwrap();
    let inv = sol.add_variable("inv", vec![set, set]).unwrap();
    let mul = sol.add_variable("mul", vec![set, set, set]).unwrap();

    // the product is associative
    sol.add_clause(vec![
        (false, mul, vec![0, 1, 3]),
        (false, mul, vec![3, 2, 4]),
        (false, mul, vec![1, 2, 5]),
        (true, mul, vec![0, 5, 4]),
    ])
    .unwrap();
    sol.add_clause(vec![
        (false, mul, vec![1, 2, 3]),
        (false, mul, vec![0, 3, 4]),
        (false, mul, vec![0, 1, 5]),
        (true, mul, vec![5, 2, 4]),
    ])
    .unwrap();
    // the inverse and the unit
    sol.add_clause(vec![(false, inv, vec![0, 1]), (false, mul, vec![1, 0, 2]), (true, one, vec![2])])
        .unwrap();
    sol.add_clause(vec![(false, one, vec![0]), (true, mul, vec![0, 1, 1])]).unwrap();
    // the operations are functions
    sol.add_clause(vec![
        (false, mul, vec![0, 1, 2]),
        (false, mul, vec![0, 1, 3]),
        (true, equ, vec![2, 3]),
    ])
    .unwrap();
    sol.add_exist(mul).unwrap();
    sol.add_clause(vec![(false, inv, vec![0, 1]), (false, inv, vec![0, 2]), (true, equ, vec![1, 2])])
        .unwrap();
    sol.add_exist(inv).unwrap();
    sol.add_clause(vec![(false, one, vec![0]), (false, one, vec![1]), (true, equ, vec![0, 1])])
        .unwrap();
    sol.add_exist(one).unwrap();
    if fix_equality {
        sol.set_equality(equ).unwrap();
    }
    (sol, vec![equ, one, inv, mul])
}

#[test]
fn the_trivial_group_is_the_only_group_with_one_element() {
    let (mut sol, watch) = group_theory(1, true);
    let solutions = search_all(&mut sol, &watch);
    let t = BOOL_TRUE;
    assert_eq!(solutions, vec![vec![vec![t], vec![t], vec![t], vec![t]]]);
}

#[test]
fn there_are_two_labellings_of_the_group_with_two_elements() {
    let (mut sol, watch) = group_theory(2, true);
    let solutions = search_all(&mut sol, &watch);
    assert_eq!(solutions.len(), 2);
    let t = BOOL_TRUE;
    let f = BOOL_FALSE;
    for solution in solutions.iter() {
        assert_eq!(solution[0], vec![t, f, f, t]);
        let unit = if solution[1] == vec![t, f] { 0 } else { 1 };
        assert_eq!(solution[1][unit], t);
        assert_eq!(solution[1][1 - unit], f);
        assert_eq!(solution[2], vec![t, f, f, t]);
        for a in 0..2 {
            for b in 0..2 {
                let product = if a == unit { b } else if b == unit { a } else { unit };
                for c in 0..2 {
                    assert_eq!(solution[3][4 * a + 2 * b + c], if c == product { t } else { f });
                }
            }
        }
    }
    assert_ne!(solutions[0], solutions[1]);
}

#[test]
fn a_value_cannot_be_set_twice() {
    let mut sol = Solver::new();
    let set = sol.add_domain("set", 2).unwrap();
    let p = sol.add_variable("p", vec![set]).unwrap();
    assert_eq!(sol.set_value(true, p, &[0]), Ok(()));
    let steps = sol.state().steps().len();
    assert_eq!(sol.set_value(false, p, &[0]), Err(SolverError::AlreadyAssigned));
    assert_eq!(sol.set_value(true, p, &[0]), Err(SolverError::AlreadyAssigned));
    assert_eq!(sol.state().steps().len(), steps);
    assert_eq!(values(&sol, p), vec![BOOL_TRUE, BOOL_UNDEF]);
    assert_eq!(sol.set_value(true, p, &[2]), Err(SolverError::OutOfRange));
    assert_eq!(sol.set_value(true, p, &[0, 0]), Err(SolverError::ArityMismatch));
    assert_eq!(sol.set_value(true, Var(3), &[0]), Err(SolverError::UnknownHandle));
}

#[test]
fn the_solver_rejects_what_does_not_fit() {
    let mut sol = Solver::new();
    let set = sol.add_domain("set", 2).unwrap();
    let num = sol.add_domain("num", 3).unwrap();
    assert_eq!(set, Dom(0));
    assert_eq!(num, Dom(1));
    assert_eq!(sol.add_domain("set", 5), Err(SolverError::DuplicateName));
    assert_eq!(sol.add_domain("none", 0), Err(SolverError::EmptyDomain));
    let p = sol.add_variable("p", vec![set, num]).unwrap();
    assert_eq!(sol.add_variable("p", vec![set]), Err(SolverError::DuplicateName));
    assert_eq!(sol.add_variable("q", vec![Dom(7)]), Err(SolverError::UnknownHandle));
    let huge = sol.add_domain("huge", usize::MAX / 2).unwrap();
    assert_eq!(sol.add_variable("r", vec![huge, huge]), Err(SolverError::TooLarge));
    assert_eq!(sol.add_clause(vec![(true, p, vec![0])]), Err(SolverError::ArityMismatch));
    assert_eq!(sol.add_clause(vec![(true, p, vec![0, 0])]), Err(SolverError::DomainMismatch));
    assert_eq!(sol.add_clause(vec![(true, p, vec![0, 2])]), Err(SolverError::DomainMismatch));
    assert_eq!(sol.add_clause(vec![(true, Var(9), vec![0, 1])]), Err(SolverError::UnknownHandle));
    assert_eq!(
        sol.add_clause(vec![(true, p, vec![0, 1]), (false, p, vec![1, 2])]),
        Err(SolverError::DomainMismatch)
    );
    assert_eq!(sol.clause_count(), 0);
    assert_eq!(sol.add_clause(vec![(true, p, vec![0, 1]), (false, p, vec![0, 2])]), Ok(()));
    assert_eq!(sol.clause_count(), 1);
    assert_eq!(sol.add_exist(Var(5)), Err(SolverError::UnknownHandle));
    let c = sol.add_variable("c", vec![]).unwrap();
    assert_eq!(sol.add_exist(c), Err(SolverError::ArityMismatch));
    assert_eq!(sol.set_equality(p), Err(SolverError::DomainMismatch));
    assert_eq!(sol.set_equality(c), Err(SolverError::ArityMismatch));
    let e = sol.add_variable("e", vec![set, set]).unwrap();
    sol.set_value(true, e, &[1, 0]).unwrap();
    assert_eq!(sol.set_equality(e), Err(SolverError::AlreadyAssigned));
    assert_eq!(sol.lookup_var(0), p);
    assert_eq!(sol.lookup_var(5), p);
    assert_eq!(sol.lookup_var(6), c);
    assert_eq!(sol.lookup_var(7), e);
    assert_eq!(sol.lookup_var(10), e);
}

#[test]
fn clauses_evaluate_to_the_four_values() {
    let mut sol = Solver::new();
    let set = sol.add_domain("set", 2).unwrap();
    let p = sol.add_variable("p", vec![set, set]).unwrap();
    // -p(x, y) or p(y, x)
    sol.add_clause(vec![(false, p, vec![0, 1]), (true, p, vec![1, 0])]).unwrap();
    sol.set_value(true, p, &[0, 1]).unwrap();
    sol.set_value(false, p, &[1, 1]).unwrap();
    sol.evaluate_all();
    let cells: Vec<u32> = (0..4).map(|n| sol.clause(0).cell(n).idx()).collect();
    assert_eq!(cells, vec![EVAL_UNDEF, EVAL_UNIT, EVAL_TRUE, EVAL_TRUE]);
    assert_eq!(sol.get_clauses_status(), Bit2::new(EVAL_UNIT));
    assert_eq!(sol.clause(0).get_failure(), None);
    assert_eq!(sol.propagate(), Bit2::new(EVAL_UNDEF));
    assert_eq!(values(&sol, p), vec![BOOL_UNDEF, BOOL_TRUE, BOOL_TRUE, BOOL_FALSE]);
    assert_eq!(sol.state().steps().len(), 3);
    assert_eq!(sol.state().steps()[2].position(), 2);
}

#[test]
fn a_false_cell_stops_the_propagation() {
    let mut sol = Solver::new();
    let set = sol.add_domain("set", 2).unwrap();
    let p = sol.add_variable("p", vec![set]).unwrap();
    let q = sol.add_variable("q", vec![set]).unwrap();
    sol.add_clause(vec![(true, p, vec![0]), (true, q, vec![0])]).unwrap();
    sol.set_value(false, p, &[0]).unwrap();
    sol.set_value(false, q, &[0]).unwrap();
    sol.set_value(false, p, &[1]).unwrap();
    assert_eq!(sol.propagate(), Bit2::new(EVAL_FALSE));
    assert_eq!(values(&sol, q), vec![BOOL_FALSE, BOOL_UNDEF]);
    assert_eq!(sol.clause(0).get_failure(), Some(vec![0, 2]));
    assert_eq!(sol.get_clauses_status(), Bit2::new(EVAL_FALSE));
    assert!(!sol.search_next(Bit2::new(EVAL_FALSE)));
}

#[test]
fn axioms_of_existence_look_at_the_fibers() {
    let mut sol = Solver::new();
    let set = sol.add_domain("set", 2).unwrap();
    let f = sol.add_variable("f", vec![set, set]).unwrap();
    sol.add_exist(f).unwrap();
    assert_eq!(sol.get_exists_status(), Bit2::new(EVAL_UNDEF));
    sol.set_value(false, f, &[0, 0]).unwrap();
    assert_eq!(sol.get_exists_status(), Bit2::new(EVAL_UNDEF));
    sol.set_value(true, f, &[1, 1]).unwrap();
    assert_eq!(sol.get_exists_status(), Bit2::new(EVAL_UNDEF));
    sol.set_value(true, f, &[0, 1]).unwrap();
    assert_eq!(sol.get_exists_status(), Bit2::new(EVAL_TRUE));
    assert_eq!(sol.get_status(), Bit2::new(EVAL_TRUE));
    let mut other = Solver::new();
    let set = other.add_domain("set", 2).unwrap();
    let g = other.add_variable("g", vec![set, set]).unwrap();
    other.add_exist(g).unwrap();
    other.set_value(false, g, &[1, 0]).unwrap();
    other.set_value(false, g, &[1, 1]).unwrap();
    assert_eq!(other.get_exists_status(), Bit2::new(EVAL_FALSE));
}

#[test]
fn all_models_are_counted() {
    let (mut sol, _) = group_theory(1, true);
    assert_eq!(sol.search_all(), 1);
    assert_eq!(sol.state().levels().len(), 0);
    let (mut sol, _) = group_theory(2, true);
    assert_eq!(sol.search_all(), 2);
    let (mut sol, _) = group_theory(3, true);
    assert_eq!(sol.search_all(), 3);

    let mut sol = Solver::new();
    let set = sol.add_domain("set", 2).unwrap();
    let p = sol.add_variable("p", vec![set]).unwrap();
    sol.add_clause(vec![(true, p, vec![0])]).unwrap();
    assert_eq!(sol.search_all(), 1);

    let mut free = Solver::new();
    let set = free.add_domain("set", 2).unwrap();
    free.add_variable("p", vec![set]).unwrap();
    assert_eq!(free.search_all(), 1);

    let mut none = Solver::new();
    let set = none.add_domain("set", 1).unwrap();
    let q = none.add_variable("q", vec![set]).unwrap();
    none.add_clause(vec![(true, q, vec![0])]).unwrap();
    none.add_clause(vec![(false, q, vec![0])]).unwrap();
    assert_eq!(none.search_all(), 0);
}

#[test]
fn a_sweep_reports_units() {
    let mut sol = Solver::new();
    let set = sol.add_domain("set", 2).unwrap();
    let p = sol.add_variable("p", vec![set]).unwrap();
    let q = sol.add_variable("q", vec![set]).unwrap();
    sol.add_clause(vec![(false, p, vec![0]), (true, q, vec![0])]).unwrap();
    sol.add_exist(p).unwrap();
    sol.set_value(false, p, &[0]).unwrap();
    assert_eq!(sol.propagate_clauses(), Bit2::new(EVAL_UNDEF));
    assert_eq!(sol.propagate_exists(), Bit2::new(EVAL_UNIT));
    assert_eq!(values(&sol, p), vec![BOOL_FALSE, BOOL_TRUE]);
    assert_eq!(sol.propagate_exists(), Bit2::new(EVAL_TRUE));
    assert_eq!(sol.propagate_clauses(), Bit2::new(EVAL_UNIT));
    assert_eq!(values(&sol, q), vec![BOOL_UNDEF, BOOL_TRUE]);
    assert_eq!(sol.propagate_clauses(), Bit2::new(EVAL_TRUE));
    assert_eq!(sol.get_status(), Bit2::new(EVAL_TRUE));
}

#[test]
fn the_solver_shows_its_parts() {
    let mut sol = Solver::new();
    let set = sol.add_domain("set", 2).unwrap();
    let num = sol.add_domain("num", 12).unwrap();
    let p = sol.add_variable("p", vec![set, num]).unwrap();
    let c = sol.add_variable("c", vec![]).unwrap();
    sol.add_clause(vec![(true, p, vec![0, 1]), (false, p, vec![0, 2]), (true, c, vec![])]).unwrap();
    assert_eq!(sol.domain(set).text(), "set = 2");
    assert_eq!(sol.domain(num).text(), "num = 12");
    assert_eq!(sol.format_variable(p), "p(set,num)");
    assert_eq!(sol.format_variable(c), "c()");
    assert_eq!(sol.format_literal(0, 0), "+p(x0,x1)");
    assert_eq!(sol.format_literal(0, 1), "-p(x0,x2)");
    assert_eq!(sol.format_literal(0, 2), "+c()");
    assert_eq!(sol.format_clause(0), "+p(x0,x1) -p(x0,x2) +c() = false");
    sol.evaluate_all();
    assert_eq!(sol.format_clause(0), "+p(x0,x1) -p(x0,x2) +c() = undef");
    sol.set_value(true, p, &[1, 10]).unwrap();
    sol.set_value(false, c, &[]).unwrap();
    assert_eq!(sol.format_var(22), "+p[1, 10]");
    assert_eq!(sol.format_var(24), "-c[]");
    assert_eq!(sol.propagate(), Bit2::new(EVAL_UNDEF));
    let lines = sol.print_steps();
    assert_eq!(lines.len(), 13);
    assert_eq!(lines[0], "step +p[1, 10] from initial");
    assert_eq!(lines[1], "step -c[] from initial");
    assert_eq!(lines[2], "step +p[1, 0] from +p[1, 10] -c[]");
    assert!(sol.search_next(Bit2::new(EVAL_UNDEF)));
    let lines = sol.print_steps();
    assert_eq!(lines[13], "step +p[0, 0] from decision");
    let table = sol.format_table(c);
    assert_eq!(table, vec!["  [] = 0"]);
    let table = sol.format_table(p);
    assert_eq!(table.len(), 24);
    assert_eq!(table[0], "  [0, 0] = 1");
    assert_eq!(table[1], "  [0, 1] = ?");
    assert_eq!(table[22], "  [1, 10] = 1");
}

fn solutions(sol: &mut Solver) -> Vec<Vec<u32>> {
    let mut found = Vec::new();
    loop {
        let status = sol.search_status();
        if status == Bit2::new(EVAL_TRUE) {
            let buffer = sol.state().assignment();
            found.push((0..buffer.len()).map(|pos| buffer.get(pos).idx()).collect());
        }
        if !sol.search_next(status) {
            return found;
        }
    }
}

fn keeps(partial: &[u32], model: &[u32]) -> bool {
    partial.iter().zip(model).all(|(&a, &b)| a == BOOL_UNDEF || a == b)
}

#[test]
fn search_finds_every_model_of_a_small_theory() {
    // every element has an image under p, and none is its own image
    let mut sol = Solver::new();
    let set = sol.add_domain("set", 2).unwrap();
    let p = sol.add_variable("p", vec![set, set]).unwrap();
    sol.add_exist(p).unwrap();
    sol.add_clause(vec![(false, p, vec![0, 0])]).unwrap();
    assert_eq!(sol.search_all(), 1);

    // every element has an image under p: three choices for each of two rows
    let mut sol = Solver::new();
    let set = sol.add_domain("set", 2).unwrap();
    let p = sol.add_variable("p", vec![set, set]).unwrap();
    sol.add_exist(p).unwrap();
    let found = solutions(&mut sol);
    let mut models = 0;
    for code in 0..16u32 {
        let model: Vec<u32> =
            (0..4).map(|pos| if code >> pos & 1 == 1 { BOOL_TRUE } else { BOOL_FALSE }).collect();
        let holds = (model[0] == BOOL_TRUE || model[1] == BOOL_TRUE) && (model[2] == BOOL_TRUE || model[3] == BOOL_TRUE);
        let covering = found.iter().filter(|partial| keeps(partial, &model)).count();
        if holds {
            models += 1;
            assert_eq!(covering, 1);
        } else {
            assert_eq!(covering, 0);
        }
    }
    assert_eq!(models, 9);

    let mut again = Solver::new();
    let set = again.add_domain("set", 2).unwrap();
    let p = again.add_variable("p", vec![set, set]).unwrap();
    again.add_exist(p).unwrap();
    assert_eq!(again.search_all(), found.len());
}

#[test]
fn search_takes_back_a_decision_that_fails() {
    // -p | q and -p | -q over one element: p cannot hold, q is free
    let mut sol = Solver::new();
    let d = sol.add_domain("d", 1).unwrap();
    let p = sol.add_variable("p", vec![d]).unwrap();
    let q = sol.add_variable("q", vec![d]).unwrap();
    sol.add_clause(vec![(false, p, vec![0]), (true, q, vec![0])]).unwrap();
    sol.add_clause(vec![(false, p, vec![0]), (false, q, vec![0])]).unwrap();
    assert_eq!(sol.search_all(), 1);
    assert_eq!(sol.state().assignment().get(0).idx(), BOOL_FALSE);
    assert_eq!(sol.state().assignment().get(1).idx(), BOOL_UNDEF);
    assert!(sol.state().levels().is_empty());

    let mut sol = Solver::new();
    let d = sol.add_domain("d", 1).unwrap();
    let p = sol.add_variable("p", vec![d]).unwrap();
    let q = sol.add_variable("q", vec![d]).unwrap();
    sol.add_clause(vec![(false, p, vec![0]), (true, q, vec![0])]).unwrap();
    sol.add_clause(vec![(false, p, vec![0]), (false, q, vec![0])]).unwrap();
    let found = solutions(&mut sol);
    assert_eq!(found, vec![vec![BOOL_FALSE, BOOL_UNDEF]]);
}

#[test]
fn search_keeps_the_values_it_starts_with() {
    // one atom, no clause, no axiom: one solution, which leaves the atom open
    let mut sol = Solver::new();
    let d = sol.add_domain("d", 1).unwrap();
    sol.add_variable("p", vec![d]).unwrap();
    assert_eq!(sol.search_all(), 1);
    assert_eq!(sol.state().assignment().get(0).idx(), BOOL_UNDEF);

    // the atom is true at the start: the one solution has it true
    let mut sol = Solver::new();
    let d = sol.add_domain("d", 1).unwrap();
    let p = sol.add_variable("p", vec![d]).unwrap();
    sol.set_value(true, p, &[0]).unwrap();
    let found = solutions(&mut sol);
    assert_eq!(found, vec![vec![BOOL_TRUE]]);
    assert_eq!(sol.state().assignment().get(0).idx(), BOOL_TRUE);

    // two atoms, the first false at the start, and one of them must hold
    let mut sol = Solver::new();
    let d = sol.add_domain("d", 1).unwrap();
    let p = sol.add_variable("p", vec![d]).unwrap();
    let q = sol.add_variable("q", vec![d]).unwrap();
    sol.add_clause(vec![(true, p, vec![0]), (true, q, vec![0])]).unwrap();
    sol.set_value(false, p, &[0]).unwrap();
    assert_eq!(sol.search_all(), 1);
    assert_eq!(sol.state().assignment().get(0).idx(), BOOL_FALSE);
    assert_eq!(sol.state().assignment().get(1).idx(), BOOL_TRUE);
}

#[test]
fn clause_faults_come_in_a_fixed_order() {
    let mut sol = Solver::new();
    let a = sol.add_domain("a", 2).unwrap();
    let b = sol.add_domain("b", 3).unwrap();
    let r = sol.add_variable("r", vec![a, b]).unwrap();
    let p = sol.add_variable("p", vec![a]).unwrap();
    // one index for two axes
    assert_eq!(sol.add_clause(vec![(true, r, vec![0])]), Err(SolverError::ArityMismatch));
    // a handle that does not exist comes before everything else
    assert_eq!(
        sol.add_clause(vec![(true, r, vec![0, 0]), (true, p, vec![0, 1]), (false, Var(7), vec![0])]),
        Err(SolverError::UnknownHandle)
    );
    // a ragged literal comes before a conflict of domains in an earlier one
    assert_eq!(
        sol.add_clause(vec![(true, r, vec![0, 0]), (true, p, vec![0, 1])]),
        Err(SolverError::ArityMismatch)
    );
    assert_eq!(sol.add_clause(vec![(true, r, vec![0, 0]), (true, p, vec![0])]), Err(SolverError::DomainMismatch));
    assert_eq!(sol.add_clause(vec![(true, r, vec![0, 2])]), Err(SolverError::DomainMismatch));
    assert_eq!(sol.clause_count(), 0);
    assert_eq!(sol.add_clause(vec![(true, r, vec![0, 1]), (false, p, vec![0])]), Ok(()));
    assert_eq!(sol.clause_count(), 1);
}
