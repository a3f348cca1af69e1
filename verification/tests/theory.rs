use finmodel::solver::error::SolverError;
use finmodel::theory::{AtomicFormula, Domain, Predicate, Theory, UniversalFormula};
use std::rc::Rc;

#[test]
fn test() {
    let set = Rc::new(Domain::new("set".into()));
    let equ = Rc::new(Predicate::new("equ".into(), vec![set.clone(), set.clone()]));

    let equ_reflexive = Rc::new(
        UniversalFormula::new(vec![AtomicFormula::new(true, equ.clone(), vec![0, 0])]).unwrap(),
    );

    let equ_symmetric = Rc::new(
        UniversalFormula::new(vec![
            AtomicFormula::new(false, equ.clone(), vec![0, 1]),
            AtomicFormula::new(true, equ.clone(), vec![1, 0]),
        ])
        .unwrap(),
    );

    let equ_transitive = Rc::new(
        UniversalFormula::new(vec![
            AtomicFormula::new(false, equ.clone(), vec![0, 1]),
            AtomicFormula::new(false, equ.clone(), vec![1, 2]),
            AtomicFormula::new(true, equ.clone(), vec![0, 2]),
        ])
        .unwrap(),
    );

    println!("{}", set.name());
    println!("{}", equ.name());
    println!("{:?}", equ_reflexive);
    println!("{:?}", equ_symmetric);
    println!("{:?}", equ_transitive);
}

#[test]
fn theory_test() {
    let mut thy = Theory::new();

    let set = Rc::new(Domain::new("set".into()));
    thy.add_domain(set.clone()).unwrap();

    let equ = Rc::new(Predicate::new("equ".into(), vec![set.clone(), set.clone()]));
    thy.add_predicate(equ.clone()).unwrap();

    thy.add_clause(Rc::new(
        UniversalFormula::new(vec![AtomicFormula::new(true, equ.clone(), vec![0, 0])]).unwrap(),
    ))
    .unwrap();

    thy.add_clause(Rc::new(
        UniversalFormula::new(vec![
            AtomicFormula::new(false, equ.clone(), vec![0, 1]),
            AtomicFormula::new(true, equ.clone(), vec![1, 0]),
        ])
        .unwrap(),
    ))
    .unwrap();

    thy.add_clause(Rc::new(
        UniversalFormula::new(vec![
            AtomicFormula::new(false, equ.clone(), vec![0, 1]),
            AtomicFormula::new(false, equ.clone(), vec![1, 2]),
            AtomicFormula::new(true, equ.clone(), vec![0, 2]),
        ])
        .unwrap(),
    ))
    .unwrap();

    println!("{:?}", thy);
}

#[test]
fn formulas_take_their_domains_from_their_atoms() {
    let set = Rc::new(Domain::new("set".into()));
    let num = Rc::new(Domain::new("num".into()));
    let size = Rc::new(Predicate::new("size".into(), vec![set.clone(), num.clone()]));
    let formula = UniversalFormula::new(vec![
        AtomicFormula::new(true, size.clone(), vec![1, 0]),
        AtomicFormula::new(false, size.clone(), vec![1, 2]),
    ])
    .unwrap();
    let names: Vec<&str> = formula.variables().iter().map(|d| d.name()).collect();
    assert_eq!(names, vec!["num", "set", "num"]);
    assert_eq!(formula.disjunction().len(), 2);
    assert_eq!(formula.disjunction()[1].arity(), 2);
    assert!(!formula.disjunction()[1].sign());
    assert_eq!(formula.disjunction()[1].variables(), &vec![1, 2]);
    assert_eq!(formula.disjunction()[0].predicate().name(), "size");
    assert_eq!(formula.disjunction()[0].domains().len(), 2);
    assert!(set.ptr_eq(&formula.variables()[1]));
    assert!(num.ptr_eq(&formula.variables()[0]));
    assert!(!set.ptr_eq(&num));
}

#[test]
fn formulas_reject_mixed_domains_and_gaps() {
    let set = Rc::new(Domain::new("set".into()));
    let num = Rc::new(Domain::new("num".into()));
    let size = Rc::new(Predicate::new("size".into(), vec![set.clone(), num.clone()]));
    let mixed = UniversalFormula::new(vec![AtomicFormula::new(true, size.clone(), vec![0, 0])]);
    assert_eq!(mixed.err(), Some(SolverError::DomainMismatch));
    let gap = UniversalFormula::new(vec![AtomicFormula::new(true, size.clone(), vec![0, 2])]);
    assert_eq!(gap.err(), Some(SolverError::DomainMismatch));
}

#[test]
fn theories_reject_what_they_do_not_know() {
    let mut thy = Theory::new();
    let set = Rc::new(Domain::new("set".into()));
    let num = Rc::new(Domain::new("num".into()));
    assert_eq!(thy.add_domain(set.clone()), Ok(()));
    assert_eq!(thy.add_domain(set.clone()), Err(SolverError::DuplicateName));
    assert!(thy.has_domain(&set));
    assert!(!thy.has_domain(&num));
    let size = Rc::new(Predicate::new("size".into(), vec![set.clone(), num.clone()]));
    assert_eq!(thy.add_predicate(size.clone()), Err(SolverError::UnknownHandle));
    assert!(!thy.has_predicate(&size));
    let formula = Rc::new(UniversalFormula::new(vec![AtomicFormula::new(true, size.clone(), vec![0, 1])]).unwrap());
    assert_eq!(thy.add_clause(formula.clone()), Err(SolverError::UnknownHandle));
    assert_eq!(thy.add_domain(num.clone()), Ok(()));
    assert_eq!(thy.add_clause(formula.clone()), Err(SolverError::UnknownHandle));
    assert_eq!(thy.add_predicate(size.clone()), Ok(()));
    assert_eq!(thy.add_predicate(size.clone()), Err(SolverError::DuplicateName));
    assert!(thy.has_predicate(&size));
    assert_eq!(size.arity(), 2);
    assert!(size.ptr_eq(formula.disjunction()[0].predicate()));
    assert!(!size.ptr_eq(&Predicate::new("size".into(), vec![set.clone(), num.clone()])));
    assert_eq!(thy.add_clause(formula), Ok(()));
}

#[test]
fn places_tell_values_of_one_name_apart() {
    let a = Domain::new("set".to_string());
    let b = Domain::new("set".to_string());
    assert!(a.ptr_eq(&a));
    assert!(!a.ptr_eq(&b));
    assert_eq!(a.name(), b.name());
}

#[test]
fn domains_of_one_name_are_not_one_domain() {
    // two domains that were made apart, with one name
    let first = Rc::new(Domain::new("set".into()));
    let second = Rc::new(Domain::new("set".into()));
    let p = Rc::new(Predicate::new("p".into(), vec![first.clone()]));
    let q = Rc::new(Predicate::new("q".into(), vec![second.clone()]));
    let mixed = UniversalFormula::new(vec![
        AtomicFormula::new(true, p.clone(), vec![0]),
        AtomicFormula::new(false, q.clone(), vec![0]),
    ]);
    assert_eq!(mixed.err(), Some(SolverError::DomainMismatch));
    let apart = UniversalFormula::new(vec![
        AtomicFormula::new(true, p.clone(), vec![0]),
        AtomicFormula::new(false, q.clone(), vec![1]),
    ])
    .unwrap();
    assert!(first.ptr_eq(&apart.variables()[0]));
    assert!(second.ptr_eq(&apart.variables()[1]));

    // a theory takes both, and knows each of them only
    let mut thy = Theory::new();
    assert_eq!(thy.add_domain(first.clone()), Ok(()));
    assert!(thy.has_domain(&first));
    assert!(!thy.has_domain(&second));
    assert_eq!(thy.add_predicate(q.clone()), Err(SolverError::UnknownHandle));
    assert_eq!(thy.add_domain(second.clone()), Ok(()));
    assert_eq!(thy.add_domain(second.clone()), Err(SolverError::DuplicateName));
    assert_eq!(thy.add_predicate(q.clone()), Ok(()));
    assert_eq!(thy.add_predicate(p.clone()), Ok(()));
    // a predicate of a name that is taken is refused, whatever it is
    let other = Rc::new(Predicate::new("p".into(), vec![]));
    assert_eq!(thy.add_predicate(other.clone()), Err(SolverError::DuplicateName));
    assert!(thy.has_predicate(&p));
    assert!(!thy.has_predicate(&other));
    assert_eq!(thy.add_clause(Rc::new(apart)), Ok(()));
    let unknown = UniversalFormula::new(vec![AtomicFormula::new(true, other.clone(), vec![])]).unwrap();
    assert_eq!(thy.add_clause(Rc::new(unknown)), Err(SolverError::UnknownHandle));
    assert_eq!(thy.add_clause(Rc::new(UniversalFormula::new(vec![]).unwrap())), Ok(()));
}
