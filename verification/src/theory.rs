//! The description of a theory: domains, predicates over them, and
//! universally quantified disjunctions of signed atoms.
//!
//! Domains and predicates are shared, and two of them are the same if
//! they are one object: domains that were made apart are different
//! domains, whatever their names are.

use crate::solver::error::SolverError;
use crate::shared::{same_allocation, share};
use std::rc::Rc;
use vstd::prelude::*;

verus! {

/// Whether two domains lie at the same place. This is `std::ptr::eq` of
/// the standard library, which compares the addresses. A domain takes up
/// room, so two references to one place refer to one domain; nothing is
/// said of domains at different places, which may be equal all the same.
#[verifier::external_body]
fn same_domain(a: &Domain, b: &Domain) -> (r: bool)
    ensures
        r ==> *a == *b,
{
    std::ptr::eq(a, b)
}

/// Whether two predicates lie at the same place. This is `std::ptr::eq`
/// of the standard library, which compares the addresses. A predicate
/// takes up room, so two references to one place refer to one predicate;
/// nothing is said of predicates at different places, which may be equal
/// all the same.
#[verifier::external_body]
fn same_predicate(a: &Predicate, b: &Predicate) -> (r: bool)
    ensures
        r ==> *a == *b,
{
    std::ptr::eq(a, b)
}

/// A named set of elements.
#[derive(Debug)]
pub struct Domain {
    name: String,
}

impl Domain {
    /// The name of the domain.
    pub closed spec fn view(&self) -> Seq<char> {
        self.name@
    }

    /// Makes the domain of the given name.
    pub fn new(name: String) -> (r: Self)
        ensures
            r@ == name@,
    {
        Self { name }
    }

    /// The name of the domain.
    pub fn name(&self) -> (r: &str)
        ensures
            r@ == self@,
    {
        self.name.as_str()
    }

    /// Whether the other domain is this one: whether it lies at the same
    /// place. Domains that were made apart are told apart, whatever their
    /// names are; a domain that is this one has its name.
    pub fn ptr_eq(&self, other: &Domain) -> (r: bool)
        ensures
            r ==> *self == *other,
    {
        same_domain(self, other)
    }
}

/// The mathematical value of a predicate: its name and the names of its
/// domains.
pub struct PredicateView {
    pub name: Seq<char>,
    pub domains: Seq<Seq<char>>,
}

/// A named relation over some domains.
#[derive(Debug)]
pub struct Predicate {
    name: String,
    domains: Vec<Rc<Domain>>,
}

impl Predicate {
    /// The mathematical value of the predicate.
    pub closed spec fn view(&self) -> PredicateView {
        PredicateView { name: self.name@, domains: Seq::new(self.domains@.len(), |k: int| self.domains@[k]@) }
    }

    /// Makes the predicate of the given name over the given domains.
    pub fn new(name: String, domains: Vec<Rc<Domain>>) -> (r: Self)
        ensures
            r@.name == name@,
            r@.domains == Seq::new(domains@.len(), |k: int| domains@[k]@),
    {
        Self { name, domains }
    }

    /// The name of the predicate.
    pub fn name(&self) -> (r: &str)
        ensures
            r@ == self@.name,
    {
        self.name.as_str()
    }

    /// The number of domains of the predicate.
    pub fn arity(&self) -> (r: usize)
        ensures
            r == self@.domains.len(),
    {
        self.domains.len()
    }

    /// The domains of the predicate.
    pub fn domains(&self) -> (r: &Vec<Rc<Domain>>)
        ensures
            r@.len() == self@.domains.len(),
            forall|k: int| 0 <= k < r@.len() ==> r@[k]@ == self@.domains[k],
    {
        &self.domains
    }

    /// Whether the other predicate is this one: whether it lies at the
    /// same place. A predicate that is this one has its name and its
    /// domains.
    pub fn ptr_eq(&self, other: &Predicate) -> (r: bool)
        ensures
            r ==> *self == *other,
    {
        same_predicate(self, other)
    }
}

/// The mathematical value of an atomic formula.
pub struct AtomView {
    pub sign: bool,
    pub predicate: PredicateView,
    /// For every axis of the predicate, the variable of the formula that
    /// stands there.
    pub variables: Seq<usize>,
}

/// A signed atom: a predicate with a variable for every one of its axes.
#[derive(Debug)]
pub struct AtomicFormula {
    sign: bool,
    predicate: Rc<Predicate>,
    variables: Vec<usize>,
}

impl AtomicFormula {
    /// The mathematical value of the formula.
    pub closed spec fn view(&self) -> AtomView {
        AtomView { sign: self.sign, predicate: self.predicate@, variables: self.variables@ }
    }

    /// Makes the atom of the given predicate with the given sign and the
    /// given variables at its axes, one for every axis.
    pub fn new(sign: bool, predicate: Rc<Predicate>, variables: Vec<usize>) -> (r: Self)
        requires
            predicate@.domains.len() == variables@.len(),
        ensures
            r@ == (AtomView { sign, predicate: predicate@, variables: variables@ }),
            r.wf(),
    {
        Self { sign, predicate, variables }
    }

    /// There is one variable for every axis of the predicate.
    pub open spec fn wf(&self) -> bool {
        self@.predicate.domains.len() == self@.variables.len()
    }

    /// Whether the atom is positive.
    pub fn sign(&self) -> (r: bool)
        ensures
            r == self@.sign,
    {
        self.sign
    }

    /// The predicate of the atom.
    pub fn predicate(&self) -> (r: &Rc<Predicate>)
        ensures
            r@ == self@.predicate,
    {
        &self.predicate
    }

    /// The number of variables of the atom.
    pub fn arity(&self) -> (r: usize)
        ensures
            r == self@.variables.len(),
    {
        self.variables.len()
    }

    /// The domains of the axes of the predicate.
    pub fn domains(&self) -> (r: &Vec<Rc<Domain>>)
        ensures
            r@.len() == self@.predicate.domains.len(),
            forall|k: int| 0 <= k < r@.len() ==> r@[k]@ == self@.predicate.domains[k],
    {
        self.predicate.domains()
    }

    /// The variables that stand at the axes of the predicate.
    pub fn variables(&self) -> (r: &Vec<usize>)
        ensures
            r@ == self@.variables,
    {
        &self.variables
    }
}

/// Whether `(l, i)` is an axis of an atom that comes before axis `pos` of
/// atom `upto`.
pub open spec fn before(atoms: Seq<AtomView>, l: int, i: int, upto: int, pos: int) -> bool {
    &&& 0 <= l < atoms.len()
    &&& 0 <= i < atoms[l].variables.len()
    &&& l < upto || (l == upto && i < pos)
}

/// The variable that stands at axis `i` of atom `l`.
pub open spec fn place(atoms: Seq<AtomView>, l: int, i: int) -> usize {
    atoms[l].variables[i]
}

/// Whether the variable `x` stands at an axis of an atom that comes before
/// axis `pos` of atom `upto`.
pub open spec fn used(atoms: Seq<AtomView>, upto: int, pos: int, x: int) -> bool {
    exists|l: int, i: int| before(atoms, l, i, upto, pos) && #[trigger] place(atoms, l, i) == x
}

/// Whether the axis `(m, j)` has the domain of the axis `first`, which is
/// an axis of an atom too.
pub open spec fn rooted(atoms: Seq<AtomView>, first: (usize, usize), m: int, j: int) -> bool {
    &&& first.0 < atoms.len()
    &&& first.1 < atoms[first.0 as int].variables.len()
    &&& atoms[first.0 as int].predicate.domains[first.1 as int] == atoms[m].predicate.domains[j]
}

/// Whether the slot holds an axis of an atom, and `name` is the domain of
/// that axis.
pub open spec fn anchored(atoms: Seq<AtomView>, slot: Option<(usize, usize)>, name: Seq<char>) -> bool {
    slot matches Some(first) && name == atoms[first.0 as int].predicate.domains[first.1 as int]
}

/// Two axes of atoms have the same variable and different domains.
pub open spec fn clash(atoms: Seq<AtomView>) -> bool {
    exists|l: int, i: int, m: int, j: int|
        before(atoms, l, i, atoms.len() as int, 0) && before(atoms, m, j, atoms.len() as int, 0)
            && #[trigger] place(atoms, l, i) == #[trigger] place(atoms, m, j) && atoms[l].predicate.domains[i]
            != atoms[m].predicate.domains[j]
}

/// A variable stands at two axes of atoms.
pub open spec fn shared(atoms: Seq<AtomView>) -> bool {
    exists|l: int, i: int, m: int, j: int|
        before(atoms, l, i, atoms.len() as int, 0) && before(atoms, m, j, atoms.len() as int, 0) && (l != m || i
            != j) && #[trigger] place(atoms, l, i) == #[trigger] place(atoms, m, j)
}

/// Atoms whose variables have domains show no clash of domains.
pub proof fn lemma_typed(atoms: Seq<AtomView>, variables: Seq<Seq<char>>)
    requires
        typed(atoms, variables),
    ensures
        !clash(atoms),
{
    if clash(atoms) {
        let (l, i, m, j) = choose|l: int, i: int, m: int, j: int|
            before(atoms, l, i, atoms.len() as int, 0) && before(atoms, m, j, atoms.len() as int, 0)
                && #[trigger] place(atoms, l, i) == #[trigger] place(atoms, m, j) && atoms[l].predicate.domains[i]
                != atoms[m].predicate.domains[j];
        assert(variables[place(atoms, l, i) as int] == atoms[l].predicate.domains[i]);
        assert(variables[place(atoms, m, j) as int] == atoms[m].predicate.domains[j]);
    }
}

/// The variable `x` stands at no axis of an atom, while the later variable
/// `y` does.
pub open spec fn skipped(atoms: Seq<AtomView>, x: int, y: int) -> bool {
    &&& 0 <= x < y
    &&& !used(atoms, atoms.len() as int, 0, x)
    &&& used(atoms, atoms.len() as int, 0, y)
}

/// The domains of the variables of a formula: the domain of every axis of
/// an atom is the domain of the variable that stands there, and every
/// variable stands at some axis.
pub open spec fn typed(atoms: Seq<AtomView>, variables: Seq<Seq<char>>) -> bool {
    &&& forall|l: int, i: int|
        before(atoms, l, i, atoms.len() as int, 0) ==> (#[trigger] place(atoms, l, i)) < variables.len()
            && variables[place(atoms, l, i) as int] == atoms[l].predicate.domains[i]
    &&& forall|x: int| 0 <= x < variables.len() ==> #[trigger] used(atoms, atoms.len() as int, 0, x)
}

/// The mathematical value of a universal formula.
pub struct FormulaView {
    /// The names of the domains of the variables.
    pub variables: Seq<Seq<char>>,
    /// The atoms of the disjunction.
    pub disjunction: Seq<AtomView>,
}

/// A universally quantified disjunction of signed atoms.
#[derive(Debug)]
pub struct UniversalFormula {
    variables: Vec<Rc<Domain>>,
    disjunction: Vec<AtomicFormula>,
}

impl UniversalFormula {
    /// The mathematical value of the formula.
    pub closed spec fn view(&self) -> FormulaView {
        FormulaView {
            variables: Seq::new(self.variables@.len(), |x: int| self.variables@[x]@),
            disjunction: Seq::new(self.disjunction@.len(), |l: int| self.disjunction@[l]@),
        }
    }

    /// Makes the disjunction of the given atoms. The domain of a variable
    /// is the domain of the axes at which it stands.
    ///
    /// Fails with `DomainMismatch` if two axes with the same variable have
    /// domains that are not one and the same, or if a variable is left out
    /// while a later one is used. Whether two domains are the same is a
    /// matter of where they lie: so the formula is made for certain if no
    /// variable stands at two axes and none is left out, and it is not made
    /// if the domains of two axes with the same variable differ in their
    /// names.
    #[verifier::loop_isolation(false)]
    pub fn new(disjunction: Vec<AtomicFormula>) -> (r: Result<Self, SolverError>)
        requires
            forall|l: int| 0 <= l < disjunction@.len() ==> (#[trigger] disjunction@[l]).wf(),
        ensures
            match r {
                Ok(formula) => formula@.disjunction == Seq::new(disjunction@.len(), |l: int| disjunction@[l]@)
                    && typed(formula@.disjunction, formula@.variables),
                Err(e) => {
                    let atoms = Seq::new(disjunction@.len(), |l: int| disjunction@[l]@);
                    e == SolverError::DomainMismatch && (shared(atoms) || exists|x: int, y: int| #[trigger]
                        skipped(atoms, x, y))
                },
            },
            clash(Seq::new(disjunction@.len(), |l: int| disjunction@[l]@)) ==> r is Err,
    {
        let ghost all = Seq::new(disjunction@.len(), |l: int| disjunction@[l]@);
        let ghost n = all.len() as int;
        let mut slots: Vec<Option<(usize, usize)>> = Vec::new();
        let mut l: usize = 0;
        while l < disjunction.len()
            invariant
                l <= n,
                forall|m: int, j: int|
                    before(all, m, j, l as int, 0) ==> (#[trigger] place(all, m, j)) < slots@.len() && (
                    slots@[place(all, m, j) as int] matches Some(first) && rooted(all, first, m, j)),
                forall|x: int|
                    0 <= x < slots@.len() ==> ((#[trigger] slots@[x]) matches Some(first) ==> before(
                        all,
                        first.0 as int,
                        first.1 as int,
                        l as int,
                        0,
                    ) && place(all, first.0 as int, first.1 as int) == x),
                slots@.len() > 0 ==> slots@[slots@.len() - 1].is_some(),
            decreases n - l,
        {
            let atom = &disjunction[l];
            proof {
                assert(all[l as int] == atom@);
                assert(atom.wf());
            }
            let count = atom.variables().len();
            let mut pos: usize = 0;
            while pos < count
                invariant
                    pos <= count,
                    forall|m: int, j: int|
                        before(all, m, j, l as int, pos as int) ==> (#[trigger] place(all, m, j)) < slots@.len()
                            && (slots@[place(all, m, j) as int] matches Some(first) && rooted(all, first, m, j)),
                    forall|x: int|
                        0 <= x < slots@.len() ==> ((#[trigger] slots@[x]) matches Some(first) ==> before(
                            all,
                            first.0 as int,
                            first.1 as int,
                            l as int,
                            pos as int,
                        ) && place(all, first.0 as int, first.1 as int) == x),
                    slots@.len() > 0 ==> slots@[slots@.len() - 1].is_some(),
                decreases count - pos,
            {
                let idx = atom.variables()[pos];
                let ghost earlier = slots@;
                proof {
                    assert(place(all, l as int, pos as int) == idx);
                    assert(before(all, l as int, pos as int, l as int, pos + 1));
                }
                while slots.len() <= idx
                    invariant
                        earlier.len() <= slots@.len(),
                        slots@.take(earlier.len() as int) == earlier,
                        forall|x: int| earlier.len() <= x < slots@.len() ==> (#[trigger] slots@[x]).is_none(),
                        slots@.len() <= idx + 1 || slots@.len() == earlier.len(),
                    decreases idx + 1 - slots@.len(),
                {
                    slots.push(None);
                    proof {
                        assert(slots@.take(earlier.len() as int) =~= earlier);
                    }
                }
                let ghost grown = slots@;
                proof {
                    assert forall|x: int| 0 <= x < earlier.len() implies grown[x] == earlier[x] by {
                        assert(grown.take(earlier.len() as int)[x] == earlier[x]);
                    }
                }
                match slots[idx] {
                    None => {
                        slots[idx] = Some((l, pos));
                    },
                    Some(first) => {
                        proof {
                            assert(earlier[idx as int] == Some(first));
                            assert(all[first.0 as int] == disjunction@[first.0 as int]@);
                            assert(disjunction@[first.0 as int].wf());
                        }
                        let dom1 = &atom.domains()[pos];
                        let dom2 = &disjunction[first.0].domains()[first.1];
                        if !dom1.ptr_eq(dom2) {
                            proof {
                                assert(before(all, first.0 as int, first.1 as int, n, 0));
                                assert(before(all, l as int, pos as int, n, 0));
                                assert(place(all, first.0 as int, first.1 as int) == place(all, l as int, pos as int));
                                assert(shared(all));
                            }
                            return Err(SolverError::DomainMismatch);
                        }
                    },
                }
                proof {
                    let after = slots@;
                    assert forall|m: int, j: int| before(all, m, j, l as int, pos + 1) implies (
                    #[trigger] place(all, m, j)) < after.len() && (after[place(all, m, j) as int] matches Some(
                        first,
                    ) && rooted(all, first, m, j)) by {
                        if m == l && j == pos {
                        } else {
                            assert(before(all, m, j, l as int, pos as int));
                            assert(earlier[place(all, m, j) as int] matches Some(first) && rooted(all, first, m, j));
                            if place(all, m, j) == idx {
                                assert(grown[idx as int] == earlier[idx as int]);
                            }
                        }
                    }
                    assert forall|x: int| 0 <= x < after.len() implies ((#[trigger] after[x]) matches Some(
                        first,
                    ) ==> before(all, first.0 as int, first.1 as int, l as int, pos + 1) && place(
                        all,
                        first.0 as int,
                        first.1 as int,
                    ) == x) by {
                        if x != idx && x < earlier.len() {
                            assert(after[x] == earlier[x]);
                        } else if x == idx && x < earlier.len() {
                            assert(grown[x] == earlier[x]);
                        }
                    }
                }
                pos += 1;
            }
            l += 1;
        }
        let mut variables: Vec<Rc<Domain>> = Vec::new();
        let mut x: usize = 0;
        while x < slots.len()
            invariant
                x <= slots@.len(),
                variables@.len() == x,
                forall|y: int| 0 <= y < x ==> anchored(all, slots@[y], (#[trigger] variables@[y])@),
            decreases slots@.len() - x,
        {
            match slots[x] {
                None => {
                    proof {
                        let top = slots@.len() - 1;
                        let first = slots@[top].unwrap();
                        assert(before(all, first.0 as int, first.1 as int, n, 0));
                        assert(place(all, first.0 as int, first.1 as int) == top);
                        assert(used(all, n, 0, top));
                        if used(all, n, 0, x as int) {
                            let (m, j) = choose|m: int, j: int|
                                before(all, m, j, n, 0) && #[trigger] place(all, m, j) == x as int;
                            assert(slots@[place(all, m, j) as int].is_some());
                        }
                        assert(skipped(all, x as int, top));
                    }
                    return Err(SolverError::DomainMismatch);
                },
                Some(first) => {
                    proof {
                        assert(all[first.0 as int] == disjunction@[first.0 as int]@);
                        assert(disjunction@[first.0 as int].wf());
                        assert(before(all, first.0 as int, first.1 as int, n, 0));
                    }
                    let ghost sofar = variables@;
                    let domain = share(&disjunction[first.0].domains()[first.1]);
                    proof {
                        assert(domain@ == all[first.0 as int].predicate.domains[first.1 as int]);
                    }
                    variables.push(domain);
                    proof {
                        assert forall|y: int| 0 <= y < x + 1 implies anchored(
                            all,
                            slots@[y],
                            (#[trigger] variables@[y])@,
                        ) by {
                            if y < x {
                                assert(variables@[y] == sofar[y]);
                            }
                        }
                    }
                },
            }
            x += 1;
        }
        let ghost found = variables@;
        let formula = Self { variables, disjunction };
        proof {
            let names = formula@.variables;
            assert(formula@.disjunction =~= all);

            assert forall|m: int, j: int| before(all, m, j, n, 0) implies (#[trigger] place(all, m, j))
                < names.len() && names[place(all, m, j) as int] == all[m].predicate.domains[j] by {
                let y = place(all, m, j) as int;
                assert(slots@[y] matches Some(first) && rooted(all, first, m, j));
                assert(anchored(all, slots@[y], found[y]@));
            }
            assert forall|y: int| 0 <= y < names.len() implies #[trigger] used(all, n, 0, y) by {
                assert(anchored(all, slots@[y], found[y]@));
                let first = slots@[y].unwrap();
                assert(before(all, first.0 as int, first.1 as int, n, 0));
                assert(place(all, first.0 as int, first.1 as int) == y);
            }
            lemma_typed(all, names);
        }
        Ok(formula)
    }

    /// The domains of the variables of the formula.
    pub fn variables(&self) -> (r: &Vec<Rc<Domain>>)
        ensures
            r@.len() == self@.variables.len(),
            forall|x: int| 0 <= x < r@.len() ==> r@[x]@ == self@.variables[x],
    {
        &self.variables
    }

    /// The atoms of the disjunction.
    pub fn disjunction(&self) -> (r: &Vec<AtomicFormula>)
        ensures
            r@.len() == self@.disjunction.len(),
            forall|l: int| 0 <= l < r@.len() ==> r@[l]@ == self@.disjunction[l],
    {
        &self.disjunction
    }
}

/// The mathematical value of a theory.
pub struct TheoryView {
    /// The names of the domains.
    pub domains: Seq<Seq<char>>,
    pub predicates: Seq<PredicateView>,
    pub formulas: Seq<FormulaView>,
}

/// Whether the name is among the given names.
pub open spec fn listed(names: Seq<Seq<char>>, name: Seq<char>) -> bool {
    exists|k: int| 0 <= k < names.len() && #[trigger] names[k] == name
}

/// Whether a predicate of this name is among the given predicates.
pub open spec fn declared(predicates: Seq<PredicateView>, name: Seq<char>) -> bool {
    exists|k: int| 0 <= k < predicates.len() && (#[trigger] predicates[k]).name == name
}

/// Whether the predicate is among the given predicates.
pub open spec fn held(predicates: Seq<PredicateView>, predicate: PredicateView) -> bool {
    exists|k: int| 0 <= k < predicates.len() && #[trigger] predicates[k] == predicate
}

/// A theory: its domains, its predicates and its formulas.
#[derive(Debug)]
pub struct Theory {
    domains: Vec<Rc<Domain>>,
    predicates: Vec<Rc<Predicate>>,
    formulas: Vec<Rc<UniversalFormula>>,
}

impl Theory {
    /// The mathematical value of the theory.
    pub closed spec fn view(&self) -> TheoryView {
        TheoryView {
            domains: Seq::new(self.domains@.len(), |k: int| self.domains@[k]@),
            predicates: Seq::new(self.predicates@.len(), |k: int| self.predicates@[k]@),
            formulas: Seq::new(self.formulas@.len(), |k: int| self.formulas@[k]@),
        }
    }

    /// The theory without domains, predicates and formulas.
    pub fn new() -> (r: Self)
        ensures
            r@.domains.len() == 0,
            r@.predicates.len() == 0,
            r@.formulas.len() == 0,
    {
        Self { domains: Vec::new(), predicates: Vec::new(), formulas: Vec::new() }
    }

    /// Whether the theory has the domain: whether one of its domains is
    /// the given one. A domain that the theory has stands in its list;
    /// of a domain that was made apart nothing is found, whatever its name
    /// is.
    #[verifier::loop_isolation(false)]
    pub fn has_domain(&self, domain: &Rc<Domain>) -> (r: bool)
        ensures
            r ==> listed(self@.domains, domain@),
    {
        let mut k: usize = 0;
        while k < self.domains.len()
            invariant
                k <= self.domains@.len(),
            decreases self.domains@.len() - k,
        {
            if same_allocation(&self.domains[k], domain) {
                proof {
                    assert(self@.domains[k as int] == domain@);
                }
                return true;
            }
            k += 1;
        }
        false
    }

    /// Whether the theory has the predicate: whether one of its
    /// predicates is the given one.
    #[verifier::loop_isolation(false)]
    pub fn has_predicate(&self, predicate: &Rc<Predicate>) -> (r: bool)
        ensures
            r ==> held(self@.predicates, predicate@),
    {
        let mut k: usize = 0;
        while k < self.predicates.len()
            invariant
                k <= self.predicates@.len(),
            decreases self.predicates@.len() - k,
        {
            if same_allocation(&self.predicates[k], predicate) {
                proof {
                    assert(self@.predicates[k as int] == predicate@);
                }
                return true;
            }
            k += 1;
        }
        false
    }

    /// Adds the domain. Fails with `DuplicateName` if the theory has this
    /// very domain; a domain whose name no domain of the theory has is
    /// added for certain.
    #[verifier::loop_isolation(false)]
    pub fn add_domain(&mut self, domain: Rc<Domain>) -> (r: Result<(), SolverError>)
        ensures
            match r {
                Ok(_) => final(self)@ == (TheoryView { domains: old(self)@.domains.push(domain@), ..old(self)@ }),
                Err(e) => e == SolverError::DuplicateName && listed(old(self)@.domains, domain@) && final(self)@ == old(
                    self,
                )@,
            },
    {
        let mut k: usize = 0;
        while k < self.domains.len()
            invariant
                k <= self.domains@.len(),
            decreases self.domains@.len() - k,
        {
            if self.domains[k].ptr_eq(&domain) {
                proof {
                    assert(self@.domains[k as int] == domain@);
                }
                return Err(SolverError::DuplicateName);
            }
            k += 1;
        }
        let ghost before = self@;
        self.domains.push(domain);
        proof {
            let after = self@;
            assert(after.domains =~= before.domains.push(domain@));
            assert(after.predicates =~= before.predicates);
            assert(after.formulas =~= before.formulas);
        }
        Ok(())
    }

    /// Adds the predicate. Fails with `DuplicateName` if the theory has a
    /// predicate of this name, else with `UnknownHandle` if one of the
    /// domains of the predicate is none of the theory: so a predicate
    /// without domains whose name is new is added for certain.
    #[verifier::loop_isolation(false)]
    pub fn add_predicate(&mut self, predicate: Rc<Predicate>) -> (r: Result<(), SolverError>)
        ensures
            match r {
                Ok(_) => {
                    &&& !declared(old(self)@.predicates, predicate@.name)
                    &&& forall|k: int|
                        0 <= k < predicate@.domains.len() ==> listed(
                            old(self)@.domains,
                            #[trigger] predicate@.domains[k],
                        )
                    &&& final(self)@ == (TheoryView {
                        predicates: old(self)@.predicates.push(predicate@),
                        ..old(self)@
                    })
                },
                Err(e) => {
                    &&& final(self)@ == old(self)@
                    &&& if declared(old(self)@.predicates, predicate@.name) {
                        e == SolverError::DuplicateName
                    } else {
                        e == SolverError::UnknownHandle && predicate@.domains.len() > 0
                    }
                },
            },
    {
        let ghost before = self@;
        let mut p: usize = 0;
        while p < self.predicates.len()
            invariant
                p <= self.predicates@.len(),
                forall|j: int| 0 <= j < p ==> (#[trigger] before.predicates[j]).name != predicate@.name,
            decreases self.predicates@.len() - p,
        {
            if self.predicates[p].name == predicate.name {
                proof {
                    assert(before.predicates[p as int].name == predicate@.name);
                }
                return Err(SolverError::DuplicateName);
            }
            p += 1;
        }
        let mut k: usize = 0;
        while k < predicate.domains().len()
            invariant
                k <= predicate@.domains.len(),
                self@ == before,
                forall|j: int| 0 <= j < k ==> listed(before.domains, #[trigger] predicate@.domains[j]),
            decreases predicate@.domains.len() - k,
        {
            if !self.has_domain(&predicate.domains()[k]) {
                return Err(SolverError::UnknownHandle);
            }
            k += 1;
        }
        self.predicates.push(predicate);
        proof {
            let after = self@;
            assert(after.predicates =~= before.predicates.push(predicate@));
            assert(after.domains =~= before.domains);
            assert(after.formulas =~= before.formulas);
        }
        Ok(())
    }

    /// Adds the formula. Fails with `UnknownHandle` if the domain of one
    /// of its variables or the predicate of one of its atoms is none of the
    /// theory: so a formula without atoms is added for certain.
    #[verifier::loop_isolation(false)]
    pub fn add_clause(&mut self, formula: Rc<UniversalFormula>) -> (r: Result<(), SolverError>)
        ensures
            match r {
                Ok(_) => {
                    &&& forall|x: int|
                        0 <= x < formula@.variables.len() ==> listed(
                            old(self)@.domains,
                            #[trigger] formula@.variables[x],
                        )
                    &&& forall|l: int|
                        0 <= l < formula@.disjunction.len() ==> held(
                            old(self)@.predicates,
                            (#[trigger] formula@.disjunction[l]).predicate,
                        )
                    &&& final(self)@ == (TheoryView { formulas: old(self)@.formulas.push(formula@), ..old(self)@ })
                },
                Err(e) => e == SolverError::UnknownHandle && final(self)@ == old(self)@ && (formula@.variables.len()
                    > 0 || formula@.disjunction.len() > 0),
            },
    {
        let ghost before = self@;
        let mut x: usize = 0;
        while x < formula.variables().len()
            invariant
                x <= formula@.variables.len(),
                self@ == before,
                forall|j: int| 0 <= j < x ==> listed(before.domains, #[trigger] formula@.variables[j]),
            decreases formula@.variables.len() - x,
        {
            if !self.has_domain(&formula.variables()[x]) {
                return Err(SolverError::UnknownHandle);
            }
            x += 1;
        }
        let mut l: usize = 0;
        while l < formula.disjunction().len()
            invariant
                l <= formula@.disjunction.len(),
                self@ == before,
                forall|j: int|
                    0 <= j < l ==> held(before.predicates, (#[trigger] formula@.disjunction[j]).predicate),
            decreases formula@.disjunction.len() - l,
        {
            if !self.has_predicate(formula.disjunction()[l].predicate()) {
                return Err(SolverError::UnknownHandle);
            }
            l += 1;
        }
        self.formulas.push(formula);
        proof {
            let after = self@;
            assert(after.formulas =~= before.formulas.push(formula@));
            assert(after.domains =~= before.domains);
            assert(after.predicates =~= before.predicates);
        }
        Ok(())
    }
}

} // verus!
