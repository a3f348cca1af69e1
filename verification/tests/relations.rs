use finmodel::solver::error::SolverError;
use finmodel::strided::solver::{Dom, Rel, Solver, Var, NO_DOMAIN};

#[test]
fn relations_lie_one_behind_the_other() {
    let mut sol = Solver::new();
    let set = sol.add_domain("set".into(), 7).unwrap();
    let one = sol.add_relation("one".into(), vec![set]).unwrap();
    let inv = sol.add_relation("inv".into(), vec![set, set]).unwrap();
    let mul = sol.add_relation("mul".into(), vec![set, set, set]).unwrap();
    assert_eq!((set, one, inv, mul), (Dom(0), Rel(0), Rel(1), Rel(2)));
    assert_eq!(sol.domain_count(), 1);
    assert_eq!(sol.domain_name(set), "set");
    assert_eq!(sol.domain_size(set), 7);
    assert_eq!(sol.relation_count(), 3);
    assert_eq!(sol.relation_name(mul), "mul");
    assert_eq!(sol.relation_domains(mul), &vec![set, set, set]);
    assert_eq!(sol.relation_shape(inv).volume(), 49);
    assert_eq!(sol.relation_shape(mul).position(&[0, 0, 0]), 7 + 49);
    assert_eq!(sol.assignment().len(), 7 + 49 + 343);
    for pos in 0..sol.assignment().len() {
        assert_eq!(sol.assignment().get(pos).idx(), 1);
    }

    sol.add_clause(vec![
        (false, mul, vec![0, 1, 3]),
        (false, mul, vec![3, 2, 4]),
        (false, mul, vec![1, 2, 5]),
        (true, mul, vec![0, 5, 4]),
    ])
    .unwrap();
    assert_eq!(sol.clause_count(), 1);
    assert_eq!(sol.clause_domains(0), &vec![set; 6]);
    assert_eq!(sol.literal_count(0), 4);
    assert_eq!(sol.literal(0, 3), (true, mul));
    assert_eq!(sol.literal(0, 1), (false, mul));
    assert_eq!(sol.literal_variables(0, 1), &vec![Var(3), Var(2), Var(4)]);
}

#[test]
fn first_coordinate_runs_fastest() {
    let mut sol = Solver::new();
    let small = sol.add_domain("small".into(), 2).unwrap();
    let large = sol.add_domain("large".into(), 3).unwrap();
    let first = sol.add_relation("first".into(), vec![large]).unwrap();
    let rel = sol.add_relation("rel".into(), vec![small, large]).unwrap();
    sol.set_value(true, rel, &[1, 2]).unwrap();
    sol.set_value(false, rel, &[0, 1]).unwrap();
    sol.set_value(true, first, &[2]).unwrap();
    assert_eq!(sol.step_count(), 3);
    assert_eq!(sol.step_position(0), 3 + 1 + 2 * 2);
    assert_eq!(sol.step_position(1), 3 + 0 + 1 * 2);
    assert_eq!(sol.step_position(2), 2);
    assert_eq!(sol.assignment().get(8).idx(), 2);
    assert_eq!(sol.assignment().get(5).idx(), 0);
    assert_eq!(sol.assignment().get(2).idx(), 2);
    assert_eq!(sol.assignment().get(3).idx(), 1);
}

#[test]
fn relational_solver_refuses_faulty_input() {
    let mut sol = Solver::new();
    let small = sol.add_domain("small".into(), 2).unwrap();
    let large = sol.add_domain("large".into(), 3).unwrap();
    assert_eq!(sol.add_domain("small".into(), 5), Err(SolverError::DuplicateName));
    let rel = sol.add_relation("rel".into(), vec![small, large]).unwrap();
    assert_eq!(sol.add_relation("rel".into(), vec![small]), Err(SolverError::DuplicateName));
    assert_eq!(sol.add_relation("other".into(), vec![small, Dom(2)]), Err(SolverError::UnknownHandle));
    let huge = sol.add_domain("huge".into(), usize::MAX / 2).unwrap();
    assert_eq!(sol.add_relation("wide".into(), vec![huge, huge]), Err(SolverError::TooLarge));
    assert_eq!(sol.add_relation("long".into(), vec![huge, small]), Err(SolverError::TooLarge));
    assert_eq!(sol.relation_count(), 1);
    assert_eq!(sol.assignment().len(), 6);

    assert_eq!(sol.set_value(true, Rel(1), &[0, 0]), Err(SolverError::UnknownHandle));
    assert_eq!(sol.set_value(true, rel, &[0]), Err(SolverError::ArityMismatch));
    assert_eq!(sol.set_value(true, rel, &[2, 0]), Err(SolverError::OutOfRange));
    assert_eq!(sol.set_value(true, rel, &[1, 3]), Err(SolverError::OutOfRange));
    assert_eq!(sol.set_value(true, rel, &[1, 1]), Ok(()));
    assert_eq!(sol.set_value(false, rel, &[1, 1]), Err(SolverError::AlreadyAssigned));
    assert_eq!(sol.step_count(), 1);

    assert_eq!(sol.add_clause(vec![(true, Rel(1), vec![0, 1])]), Err(SolverError::UnknownHandle));
    assert_eq!(sol.add_clause(vec![(true, rel, vec![0])]), Err(SolverError::ArityMismatch));
    assert_eq!(sol.add_clause(vec![(true, rel, vec![0, 0])]), Err(SolverError::DomainMismatch));
    assert_eq!(
        sol.add_clause(vec![(true, rel, vec![0, 1]), (false, rel, vec![1, 2])]),
        Err(SolverError::DomainMismatch)
    );
    assert_eq!(sol.clause_count(), 0);
}

#[test]
fn unused_variables_have_no_domain() {
    let mut sol = Solver::new();
    let small = sol.add_domain("small".into(), 2).unwrap();
    let large = sol.add_domain("large".into(), 3).unwrap();
    let rel = sol.add_relation("rel".into(), vec![small, large]).unwrap();
    sol.add_clause(vec![(true, rel, vec![3, 1]), (false, rel, vec![3, 1])]).unwrap();
    assert_eq!(sol.clause_domains(0), &vec![Dom(NO_DOMAIN), large, Dom(NO_DOMAIN), small]);
    sol.add_clause(vec![]).unwrap();
    assert_eq!(sol.clause_domains(1), &Vec::<Dom>::new());
    assert_eq!(sol.literal_count(1), 0);
}

#[test]
fn relational_clause_faults_come_in_a_fixed_order() {
    let mut sol = Solver::new();
    let small = sol.add_domain("small".into(), 2).unwrap();
    let large = sol.add_domain("large".into(), 3).unwrap();
    let rel = sol.add_relation("rel".into(), vec![small, large]).unwrap();
    assert_eq!(
        sol.add_clause(vec![(true, rel, vec![0, 0]), (true, rel, vec![0]), (true, Rel(5), vec![0])]),
        Err(SolverError::UnknownHandle)
    );
    assert_eq!(
        sol.add_clause(vec![(true, rel, vec![0, 0]), (true, rel, vec![0])]),
        Err(SolverError::ArityMismatch)
    );
    assert_eq!(sol.add_clause(vec![(true, rel, vec![0, 0])]), Err(SolverError::DomainMismatch));
    assert_eq!(sol.clause_count(), 0);
}
