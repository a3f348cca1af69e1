//! A solver over relations: the tables of the relations lie one behind the
//! other in one assignment, and a clause is a disjunction of literals over
//! variables whose domains are taken from the relations.

use crate::bitops::{Bit2, BOOL_FALSE, BOOL_TRUE, BOOL_UNDEF};
use crate::buffer::{appended, lemma_appended, Buffer2};
use crate::shape::{bulk_of, dot, lemma_bulk, lemma_dot_bound, lengths_of, valid_coords, volume_of};
use crate::solver::driver::Solver as Tables;
use crate::solver::error::SolverError;
use crate::strided::{lemma_packed, packed_axes, Shape};
use vstd::prelude::*;

verus! {

/// The handle of a domain.
#[derive(Debug, Clone, Copy, PartialEq, Eq, Structural)]
pub struct Dom(pub usize);

/// The handle of a relation.
#[derive(Debug, Clone, Copy, PartialEq, Eq, Structural)]
pub struct Rel(pub usize);

/// A variable of a clause.
#[derive(Debug, Clone, Copy, PartialEq, Eq, Structural)]
pub struct Var(pub usize);

/// The number that stands for the domain of a variable that no literal of
/// its clause uses.
pub const NO_DOMAIN: usize = usize::MAX;

#[derive(Debug)]
struct Domain {
    name: String,
    size: usize,
}

#[derive(Debug)]
struct Relation {
    name: String,
    shape: Shape,
    domains: Vec<Dom>,
}

#[derive(Debug)]
struct Literal {
    sign: bool,
    relation: Rel,
    variables: Vec<Var>,
}

#[derive(Debug)]
struct Clause {
    literals: Vec<Literal>,
    domains: Vec<Dom>,
}

#[derive(Debug)]
struct Step {
    pos: usize,
    reason: Vec<usize>,
}

/// The mathematical value of a relation.
pub struct RelationView {
    pub name: Seq<char>,
    pub domains: Seq<Dom>,
    /// The sizes of the domains.
    pub lengths: Seq<usize>,
    /// The position of the first atom of the table.
    pub offset: usize,
}

/// The mathematical value of a literal.
pub struct LiteralView {
    pub sign: bool,
    pub relation: Rel,
    pub variables: Seq<Var>,
}

/// The mathematical value of a clause.
pub struct ClauseView {
    pub literals: Seq<LiteralView>,
    /// The domains of the variables.
    pub domains: Seq<Dom>,
}

/// The mathematical value of a step: the position of the atom that got
/// a value, and the positions of the atoms that forced it.
pub struct StepView {
    pub pos: usize,
    pub reason: Seq<usize>,
}

/// The mathematical value of a solver.
pub struct SolverView {
    pub assignment: Seq<nat>,
    pub steps: Seq<StepView>,
    /// The names and the sizes of the domains.
    pub domains: Seq<(Seq<char>, usize)>,
    pub relations: Seq<RelationView>,
    pub clauses: Seq<ClauseView>,
}

/// The sizes of the domains with the given handles.
pub open spec fn sizes_at(domains: Seq<(Seq<char>, usize)>, handles: Seq<Dom>) -> Seq<usize> {
    Seq::new(handles.len(), |i: int| domains[handles[i].0 as int].1)
}

/// The value that an atom gets with the given sign.
pub open spec fn value_of(sign: bool) -> nat {
    if sign {
        BOOL_TRUE as nat
    } else {
        BOOL_FALSE as nat
    }
}

impl SolverView {
    /// Whether a domain has the given name.
    pub open spec fn has_domain(self, name: Seq<char>) -> bool {
        exists|d: int| 0 <= d < self.domains.len() && (#[trigger] self.domains[d]).0 == name
    }

    /// Whether a relation has the given name.
    pub open spec fn has_relation(self, name: Seq<char>) -> bool {
        exists|r: int| 0 <= r < self.relations.len() && (#[trigger] self.relations[r]).name == name
    }

    /// Whether the relation is one over domains of the solver whose table
    /// lies within the assignment.
    pub open spec fn relation_ok(self, relation: RelationView) -> bool {
        &&& forall|i: int| 0 <= i < relation.domains.len() ==> (#[trigger] relation.domains[i]).0 < self.domains.len()
        &&& relation.lengths == sizes_at(self.domains, relation.domains)
        &&& relation.offset + bulk_of(relation.lengths) <= usize::MAX
        &&& relation.offset + volume_of(relation.lengths) <= self.assignment.len()
    }

    /// The tables of the relations lie within the assignment.
    pub open spec fn wf(self) -> bool {
        &&& self.assignment.len() + 15 <= usize::MAX
        &&& forall|r: int| 0 <= r < self.relations.len() ==> self.relation_ok(#[trigger] self.relations[r])
    }

    /// Why a relation with the given name over the domains with the given
    /// handles is refused, if it is.
    pub open spec fn relation_refusal(self, name: Seq<char>, handles: Seq<Dom>) -> Option<SolverError> {
        if self.has_relation(name) {
            Some(SolverError::DuplicateName)
        } else if exists|i: int| 0 <= i < handles.len() && (#[trigger] handles[i]).0 >= self.domains.len() {
            Some(SolverError::UnknownHandle)
        } else if self.assignment.len() + bulk_of(sizes_at(self.domains, handles)) + 15 > usize::MAX {
            Some(SolverError::TooLarge)
        } else {
            None
        }
    }

    /// The position of the atom of the relation at the given coordinates:
    /// the first coordinate counts once, every other one as often as there
    /// are tuples of the coordinates before it.
    pub open spec fn atom(self, rel: Rel, coords: Seq<usize>) -> int {
        self.relations[rel.0 as int].offset + dot(packed_axes(self.relations[rel.0 as int].lengths), coords)
    }

    /// The atoms of a relation lie within its table.
    pub proof fn lemma_atom(self, rel: Rel, coords: Seq<usize>)
        requires
            self.wf(),
            rel.0 < self.relations.len(),
            valid_coords(self.relations[rel.0 as int].lengths, coords),
        ensures
            self.relations[rel.0 as int].offset <= self.atom(rel, coords) < self.relations[rel.0 as int].offset
                + volume_of(self.relations[rel.0 as int].lengths),
            self.atom(rel, coords) < self.assignment.len(),
    {
        let relation = self.relations[rel.0 as int];
        assert(self.relation_ok(relation));
        lemma_packed(relation.lengths);
        lemma_dot_bound(packed_axes(relation.lengths), coords);
        lemma_bulk(relation.lengths);
        assert forall|k: int| 0 <= k < relation.lengths.len() implies relation.lengths[k] > 0 by {
            assert(coords[k] < relation.lengths[k]);
        }
    }

    /// Why a value for the atom of the relation at the given coordinates
    /// is refused, if it is.
    pub open spec fn value_refusal(self, rel: Rel, coords: Seq<usize>) -> Option<SolverError> {
        if rel.0 >= self.relations.len() {
            Some(SolverError::UnknownHandle)
        } else if coords.len() != self.relations[rel.0 as int].lengths.len() {
            Some(SolverError::ArityMismatch)
        } else if !valid_coords(self.relations[rel.0 as int].lengths, coords) {
            Some(SolverError::OutOfRange)
        } else if self.assignment[self.atom(rel, coords)] != BOOL_UNDEF {
            Some(SolverError::AlreadyAssigned)
        } else {
            None
        }
    }
}

/// The draft of a literal: its sign, its relation, and the variables of
/// the clause that stand at the axes of the relation.
pub type Draft = (bool, Rel, Vec<usize>);

/// Whether `(l, i)` is an axis of a draft that comes before axis `pos` of
/// draft `upto`.
pub open spec fn before(drafts: Seq<Draft>, l: int, i: int, upto: int, pos: int) -> bool {
    &&& 0 <= l < drafts.len()
    &&& 0 <= i < drafts[l].2@.len()
    &&& l < upto || (l == upto && i < pos)
}

/// The variable that stands at axis `i` of draft `l`.
pub open spec fn place(drafts: Seq<Draft>, l: int, i: int) -> usize {
    drafts[l].2@[i]
}

/// Whether the variable `x` stands at an axis of a draft that comes before
/// axis `pos` of draft `upto`.
pub open spec fn used(drafts: Seq<Draft>, upto: int, pos: int, x: int) -> bool {
    exists|l: int, i: int| before(drafts, l, i, upto, pos) && #[trigger] place(drafts, l, i) == x
}

/// The literals that the drafts stand for.
pub open spec fn drafted(drafts: Seq<Draft>) -> Seq<LiteralView> {
    Seq::new(
        drafts.len(),
        |l: int|
            LiteralView {
                sign: drafts[l].0,
                relation: drafts[l].1,
                variables: Seq::new(drafts[l].2@.len(), |i: int| Var(drafts[l].2@[i])),
            },
    )
}

impl SolverView {
    /// The domain of axis `i` of the relation of draft `l`.
    pub open spec fn axis_domain(self, drafts: Seq<Draft>, l: int, i: int) -> Dom {
        self.relations[drafts[l].1.0 as int].domains[i]
    }

    /// Whether the draft names a relation of the solver and has a
    /// variable for every one of its axes.
    pub open spec fn fitting(self, draft: Draft) -> bool {
        draft.1.0 < self.relations.len() && self.relations[draft.1.0 as int].domains.len() == draft.2@.len()
    }

    /// The domains of the variables of a clause: the domain of every axis
    /// of a draft is the domain of the variable that stands there, a
    /// variable that stands nowhere has none, and the last variable stands
    /// somewhere.
    pub open spec fn typed(self, drafts: Seq<Draft>, domains: Seq<Dom>) -> bool {
        let n = drafts.len() as int;
        &&& forall|l: int, i: int|
            before(drafts, l, i, n, 0) ==> (#[trigger] place(drafts, l, i)) < domains.len() && domains[place(
                drafts,
                l,
                i,
            ) as int] == self.axis_domain(drafts, l, i)
        &&& forall|x: int| 0 <= x < domains.len() ==> (#[trigger] domains[x]).0 == NO_DOMAIN || used(drafts, n, 0, x)
        &&& domains.len() > 0 ==> used(drafts, n, 0, domains.len() - 1)
    }

    /// The drafts of a clause determine the domains of its variables, and
    /// drafts with such domains show no clash.
    pub proof fn lemma_typed(self, drafts: Seq<Draft>, domains: Seq<Dom>, others: Seq<Dom>)
        requires
            self.typed(drafts, domains),
            self.typed(drafts, others),
        ensures
            domains == others,
            !self.clash(drafts),
    {
        let n = drafts.len() as int;
        if domains.len() < others.len() {
            let x = others.len() - 1;
            let (l, i) = choose|l: int, i: int| before(drafts, l, i, n, 0) && #[trigger] place(drafts, l, i) == x;
            assert(place(drafts, l, i) < domains.len());
        }
        if others.len() < domains.len() {
            let x = domains.len() - 1;
            let (l, i) = choose|l: int, i: int| before(drafts, l, i, n, 0) && #[trigger] place(drafts, l, i) == x;
            assert(place(drafts, l, i) < others.len());
        }
        assert forall|x: int| 0 <= x < domains.len() implies domains[x] == others[x] by {
            if used(drafts, n, 0, x) {
                let (l, i) = choose|l: int, i: int| before(drafts, l, i, n, 0) && #[trigger] place(drafts, l, i) == x;
                assert(domains[place(drafts, l, i) as int] == self.axis_domain(drafts, l, i));
                assert(others[place(drafts, l, i) as int] == self.axis_domain(drafts, l, i));
            } else {
                assert(domains[x].0 == NO_DOMAIN);
                assert(others[x].0 == NO_DOMAIN);
            }
        }
        assert(domains =~= others);
        if self.clash(drafts) {
            let (l, i, m, j) = choose|l: int, i: int, m: int, j: int|
                before(drafts, l, i, n, 0) && before(drafts, m, j, n, 0) && self.fitting(drafts[l]) && self.fitting(
                    drafts[m],
                ) && #[trigger] place(drafts, l, i) == #[trigger] place(drafts, m, j) && self.axis_domain(
                    drafts,
                    l,
                    i,
                ) != self.axis_domain(drafts, m, j);
            assert(domains[place(drafts, l, i) as int] == self.axis_domain(drafts, l, i));
            assert(domains[place(drafts, m, j) as int] == self.axis_domain(drafts, m, j));
        }
    }

    /// Two axes of fitting drafts have the same variable and different
    /// domains.
    pub open spec fn clash(self, drafts: Seq<Draft>) -> bool {
        let n = drafts.len() as int;
        exists|l: int, i: int, m: int, j: int|
            before(drafts, l, i, n, 0) && before(drafts, m, j, n, 0) && self.fitting(drafts[l]) && self.fitting(
                drafts[m],
            ) && #[trigger] place(drafts, l, i) == #[trigger] place(drafts, m, j) && self.axis_domain(drafts, l, i)
                != self.axis_domain(drafts, m, j)
    }

    /// Why the clause of the given drafts is refused, if it is: the first
    /// of the faults in this order.
    pub open spec fn clause_refusal(self, drafts: Seq<Draft>) -> Option<SolverError> {
        if exists|l: int| 0 <= l < drafts.len() && (#[trigger] drafts[l]).1.0 >= self.relations.len() {
            Some(SolverError::UnknownHandle)
        } else if exists|l: int| 0 <= l < drafts.len() && !self.fitting(#[trigger] drafts[l]) {
            Some(SolverError::ArityMismatch)
        } else if self.clash(drafts) {
            Some(SolverError::DomainMismatch)
        } else {
            None
        }
    }
}

/// A solver over relations.
#[derive(Debug)]
pub struct Solver {
    assignment: Buffer2,
    steps: Vec<Step>,
    domains: Vec<Domain>,
    relations: Vec<Relation>,
    clauses: Vec<Clause>,
}

impl Relation {
    spec fn view(&self) -> RelationView {
        RelationView {
            name: self.name@,
            domains: self.domains@,
            lengths: lengths_of(self.shape.spec_axes()),
            offset: self.shape.spec_offset(),
        }
    }
}

impl Literal {
    spec fn view(&self) -> LiteralView {
        LiteralView { sign: self.sign, relation: self.relation, variables: self.variables@ }
    }
}

impl Clause {
    spec fn view(&self) -> ClauseView {
        ClauseView {
            literals: Seq::new(self.literals@.len(), |l: int| self.literals@[l]@),
            domains: self.domains@,
        }
    }
}

impl Solver {
    /// The mathematical value of the solver.
    pub closed spec fn view(&self) -> SolverView {
        SolverView {
            assignment: self.assignment@,
            steps: Seq::new(
                self.steps@.len(),
                |s: int| StepView { pos: self.steps@[s].pos, reason: self.steps@[s].reason@ },
            ),
            domains: Seq::new(self.domains@.len(), |d: int| (self.domains@[d].name@, self.domains@[d].size)),
            relations: Seq::new(self.relations@.len(), |r: int| self.relations@[r]@),
            clauses: Seq::new(self.clauses@.len(), |c: int| self.clauses@[c]@),
        }
    }

    /// The buffer and the shapes are well formed, the tables are packed,
    /// and the value of the solver is well formed.
    pub closed spec fn wf(&self) -> bool {
        &&& self.assignment.wf()
        &&& self@.wf()
        &&& forall|r: int|
            0 <= r < self.relations@.len() ==> (#[trigger] self.relations@[r]).shape.wf()
                && self.relations@[r].shape.spec_axes() == packed_axes(
                lengths_of(self.relations@[r].shape.spec_axes()),
            )
    }

    /// What a well-formed solver says of its value.
    pub proof fn lemma_wf(&self)
        requires
            self.wf(),
        ensures
            self@.wf(),
    {
    }

    /// The solver without domains, relations and clauses.
    pub fn new() -> (r: Self)
        ensures
            r.wf(),
            r@.assignment.len() == 0,
            r@.steps.len() == 0,
            r@.domains.len() == 0,
            r@.relations.len() == 0,
            r@.clauses.len() == 0,
    {
        Self {
            assignment: Buffer2::new(0, Bit2::new(BOOL_UNDEF)),
            steps: Vec::new(),
            domains: Vec::new(),
            relations: Vec::new(),
            clauses: Vec::new(),
        }
    }

    /// The buffer that holds the values of the atoms.
    pub fn assignment(&self) -> (r: &Buffer2)
        requires
            self.wf(),
        ensures
            r.wf(),
            r@ == self@.assignment,
    {
        &self.assignment
    }

    /// The number of steps.
    pub fn step_count(&self) -> (r: usize)
        ensures
            r == self@.steps.len(),
    {
        self.steps.len()
    }

    /// The position of the atom that got a value at the given step.
    pub fn step_position(&self, step: usize) -> (r: usize)
        requires
            step < self@.steps.len(),
        ensures
            r == self@.steps[step as int].pos,
    {
        self.steps[step].pos
    }

    /// The number of domains.
    pub fn domain_count(&self) -> (r: usize)
        ensures
            r == self@.domains.len(),
    {
        self.domains.len()
    }

    /// The name of the domain.
    pub fn domain_name(&self, dom: Dom) -> (r: &str)
        requires
            dom.0 < self@.domains.len(),
        ensures
            r@ == self@.domains[dom.0 as int].0,
    {
        self.domains[dom.0].name.as_str()
    }

    /// The size of the domain.
    pub fn domain_size(&self, dom: Dom) -> (r: usize)
        requires
            dom.0 < self@.domains.len(),
        ensures
            r == self@.domains[dom.0 as int].1,
    {
        self.domains[dom.0].size
    }

    /// The number of relations.
    pub fn relation_count(&self) -> (r: usize)
        ensures
            r == self@.relations.len(),
    {
        self.relations.len()
    }

    /// The name of the relation.
    pub fn relation_name(&self, rel: Rel) -> (r: &str)
        requires
            rel.0 < self@.relations.len(),
        ensures
            r@ == self@.relations[rel.0 as int].name,
    {
        self.relations[rel.0].name.as_str()
    }

    /// The domains of the relation.
    pub fn relation_domains(&self, rel: Rel) -> (r: &Vec<Dom>)
        requires
            rel.0 < self@.relations.len(),
        ensures
            r@ == self@.relations[rel.0 as int].domains,
    {
        &self.relations[rel.0].domains
    }

    /// The shape of the table of the relation.
    pub fn relation_shape(&self, rel: Rel) -> (r: &Shape)
        requires
            self.wf(),
            rel.0 < self@.relations.len(),
        ensures
            r.wf(),
            r.spec_axes() == packed_axes(self@.relations[rel.0 as int].lengths),
            r.spec_offset() == self@.relations[rel.0 as int].offset,
    {
        &self.relations[rel.0].shape
    }

    /// Adds a domain with the given name and size.
    ///
    /// Fails with `DuplicateName` if a domain of this name exists.
    #[verifier::loop_isolation(false)]
    pub fn add_domain(&mut self, name: String, size: usize) -> (r: Result<Dom, SolverError>)
        requires
            old(self).wf(),
        ensures
            final(self).wf(),
            match r {
                Ok(dom) => {
                    &&& !old(self)@.has_domain(name@)
                    &&& dom.0 == old(self)@.domains.len()
                    &&& final(self)@ == (SolverView { domains: old(self)@.domains.push((name@, size)), ..old(self)@ })
                },
                Err(e) => e == SolverError::DuplicateName && old(self)@.has_domain(name@) && final(self)@ == old(
                    self,
                )@,
            },
    {
        let mut d: usize = 0;
        while d < self.domains.len()
            invariant
                d <= self.domains@.len(),
                forall|k: int| 0 <= k < d ==> (#[trigger] self@.domains[k]).0 != name@,
            decreases self.domains@.len() - d,
        {
            if self.domains[d].name == name {
                proof {
                    assert(self@.domains[d as int].0 == name@);
                }
                return Err(SolverError::DuplicateName);
            }
            d += 1;
        }
        let dom = self.domains.len();
        self.domains.push(Domain { name, size });
        proof {
            assert(self@.domains =~= old(self)@.domains.push((name@, size)));
            assert(self@.steps =~= old(self)@.steps);
            assert(self@.relations =~= old(self)@.relations);
            assert(self@.clauses =~= old(self)@.clauses);
            assert forall|r: int| 0 <= r < self@.relations.len() implies self@.relation_ok(
                #[trigger] self@.relations[r],
            ) by {
                let relation = self@.relations[r];
                assert(old(self)@.relation_ok(old(self)@.relations[r]));
                assert(sizes_at(self@.domains, relation.domains) =~= sizes_at(old(self)@.domains, relation.domains));
            }
        }
        Ok(Dom(dom))
    }

    /// Adds a relation with the given name over the domains with the given
    /// handles: its table lies behind the atoms so far, and its atoms have
    /// no value.
    ///
    /// Fails with `DuplicateName` if a relation of this name exists, else
    /// with `UnknownHandle` if a handle is not one of a domain of the
    /// solver, else with `TooLarge` if the table leaves the machine word.
    #[verifier::loop_isolation(false)]
    pub fn add_relation(&mut self, name: String, domains: Vec<Dom>) -> (r: Result<Rel, SolverError>)
        requires
            old(self).wf(),
        ensures
            final(self).wf(),
            match r {
                Ok(rel) => {
                    &&& old(self)@.relation_refusal(name@, domains@) is None
                    &&& rel.0 == old(self)@.relations.len()
                    &&& final(self)@ == (SolverView {
                        assignment: appended(
                            old(self)@.assignment,
                            volume_of(sizes_at(old(self)@.domains, domains@)),
                            BOOL_UNDEF as nat,
                        ),
                        relations: old(self)@.relations.push(
                            RelationView {
                                name: name@,
                                domains: domains@,
                                lengths: sizes_at(old(self)@.domains, domains@),
                                offset: old(self)@.assignment.len() as usize,
                            },
                        ),
                        ..old(self)@
                    })
                },
                Err(e) => old(self)@.relation_refusal(name@, domains@) == Some(e) && final(self)@ == old(self)@,
            },
    {
        let ghost before = self@;
        let mut r: usize = 0;
        while r < self.relations.len()
            invariant
                r <= self.relations@.len(),
                forall|k: int| 0 <= k < r ==> (#[trigger] self@.relations[k]).name != name@,
            decreases self.relations@.len() - r,
        {
            if self.relations[r].name == name {
                proof {
                    assert(self@.relations[r as int].name == name@);
                }
                return Err(SolverError::DuplicateName);
            }
            r += 1;
        }
        let ghost goal = sizes_at(before.domains, domains@);
        let mut lengths: Vec<usize> = Vec::new();
        let mut i: usize = 0;
        while i < domains.len()
            invariant
                i <= domains@.len(),
                lengths@.len() == i,
                forall|k: int| 0 <= k < i ==> (#[trigger] domains@[k]).0 < before.domains.len(),
                forall|k: int| 0 <= k < i ==> lengths@[k] == goal[k],
            decreases domains@.len() - i,
        {
            let dom = domains[i];
            if dom.0 >= self.domains.len() {
                return Err(SolverError::UnknownHandle);
            }
            lengths.push(self.domains[dom.0].size);
            i += 1;
        }
        proof {
            assert(lengths@ =~= goal);
            lemma_bulk(goal);
        }
        let offset = self.assignment.len();
        let bulk = match Tables::bulk(&lengths) {
            Some(bulk) => bulk,
            None => {
                return Err(SolverError::TooLarge);
            },
        };
        if bulk > usize::MAX - 15 || offset > usize::MAX - 15 - bulk {
            return Err(SolverError::TooLarge);
        }
        let shape = Shape::new(lengths, offset);
        proof {
            lemma_packed(goal);
        }
        let volume = shape.volume();
        self.assignment.append(volume, Bit2::new(BOOL_UNDEF));
        let rel = self.relations.len();
        self.relations.push(Relation { name, shape, domains });
        proof {
            let added = RelationView { name: name@, domains: domains@, lengths: goal, offset };
            lemma_appended(before.assignment, volume as nat, BOOL_UNDEF as nat);
            assert(self@.relations =~= before.relations.push(added));
            assert(self@.steps =~= before.steps);
            assert(self@.domains =~= before.domains);
            assert(self@.clauses =~= before.clauses);
            assert forall|k: int| 0 <= k < self@.relations.len() implies self@.relation_ok(
                #[trigger] self@.relations[k],
            ) by {
                if k < rel {
                    assert(before.relation_ok(before.relations[k]));
                }
            }
            assert forall|k: int| 0 <= k < self.relations@.len() implies (#[trigger] self.relations@[k]).shape.wf()
                && self.relations@[k].shape.spec_axes() == packed_axes(
                lengths_of(self.relations@[k].shape.spec_axes()),
            ) by {
                if k < rel {
                    assert(self.relations@[k] == old(self).relations@[k]);
                }
            }
        }
        Ok(Rel(rel))
    }

    /// The number of clauses.
    pub fn clause_count(&self) -> (r: usize)
        ensures
            r == self@.clauses.len(),
    {
        self.clauses.len()
    }

    /// The domains of the variables of the clause.
    pub fn clause_domains(&self, clause: usize) -> (r: &Vec<Dom>)
        requires
            clause < self@.clauses.len(),
        ensures
            r@ == self@.clauses[clause as int].domains,
    {
        &self.clauses[clause].domains
    }

    /// The number of literals of the clause.
    pub fn literal_count(&self, clause: usize) -> (r: usize)
        requires
            clause < self@.clauses.len(),
        ensures
            r == self@.clauses[clause as int].literals.len(),
    {
        self.clauses[clause].literals.len()
    }

    /// The sign and the relation of a literal of the clause.
    pub fn literal(&self, clause: usize, literal: usize) -> (r: (bool, Rel))
        requires
            clause < self@.clauses.len(),
            literal < self@.clauses[clause as int].literals.len(),
        ensures
            r.0 == self@.clauses[clause as int].literals[literal as int].sign,
            r.1 == self@.clauses[clause as int].literals[literal as int].relation,
    {
        let lit = &self.clauses[clause].literals[literal];
        (lit.sign, lit.relation)
    }

    /// The variables of a literal of the clause.
    pub fn literal_variables(&self, clause: usize, literal: usize) -> (r: &Vec<Var>)
        requires
            clause < self@.clauses.len(),
            literal < self@.clauses[clause as int].literals.len(),
        ensures
            r@ == self@.clauses[clause as int].literals[literal as int].variables,
    {
        &self.clauses[clause].literals[literal].variables
    }

    /// Adds the disjunction of the given literals: every literal has a
    /// sign, a relation, and a variable of the clause for every axis of
    /// the relation. The domain of a variable is the domain of the axes
    /// at which it stands.
    ///
    /// Fails with `UnknownHandle` if a handle is not one of a relation of
    /// the solver, else with `ArityMismatch` if a draft has not one
    /// variable for every axis of its relation, else with `DomainMismatch`
    /// if two axes with the same variable have different domains.
    #[verifier::loop_isolation(false)]
    pub fn add_clause(&mut self, literals: Vec<Draft>) -> (r: Result<(), SolverError>)
        requires
            old(self).wf(),
        ensures
            final(self).wf(),
            match r {
                Ok(()) => {
                    &&& old(self)@.clause_refusal(literals@) is None
                    &&& forall|l: int| 0 <= l < literals@.len() ==> old(self)@.fitting(#[trigger] literals@[l])
                    &&& final(self)@ == (SolverView { clauses: final(self)@.clauses, ..old(self)@ })
                    &&& final(self)@.clauses.len() == old(self)@.clauses.len() + 1
                    &&& final(self)@.clauses.drop_last() == old(self)@.clauses
                    &&& final(self)@.clauses.last().literals == drafted(literals@)
                    &&& old(self)@.typed(literals@, final(self)@.clauses.last().domains)
                },
                Err(e) => old(self)@.clause_refusal(literals@) == Some(e) && final(self)@ == old(self)@,
            },
    {
        let ghost before_view = self@;
        let ghost all = literals@;
        let ghost n = all.len() as int;
        let limit = self.domains.len();
        let mut k: usize = 0;
        while k < literals.len()
            invariant
                k <= n,
                forall|m: int| 0 <= m < k ==> (#[trigger] all[m]).1.0 < before_view.relations.len(),
            decreases n - k,
        {
            if literals[k].1.0 >= self.relations.len() {
                return Err(SolverError::UnknownHandle);
            }
            k += 1;
        }
        let mut k: usize = 0;
        while k < literals.len()
            invariant
                k <= n,
                forall|m: int| 0 <= m < k ==> before_view.fitting(#[trigger] all[m]),
            decreases n - k,
        {
            proof {
                assert(self.relations@[all[k as int].1.0 as int]@ == before_view.relations[all[k as int].1.0 as int]);
            }
            if self.relations[literals[k].1.0].domains.len() != literals[k].2.len() {
                proof {
                    assert(!before_view.fitting(all[k as int]));
                }
                return Err(SolverError::ArityMismatch);
            }
            k += 1;
        }
        let mut domains: Vec<Dom> = Vec::new();
        let mut l: usize = 0;
        while l < literals.len()
            invariant
                l <= n,
                forall|m: int, j: int|
                    before(all, m, j, l as int, 0) ==> (#[trigger] place(all, m, j)) < domains@.len() && domains@[place(
                        all,
                        m,
                        j,
                    ) as int] == before_view.axis_domain(all, m, j),
                forall|x: int|
                    0 <= x < domains@.len() ==> (#[trigger] domains@[x]).0 == NO_DOMAIN || used(all, l as int, 0, x),
                domains@.len() > 0 ==> used(all, l as int, 0, domains@.len() - 1),
            decreases n - l,
        {
            let rel = literals[l].1;
            let count = literals[l].2.len();
            let ghost relation = before_view.relations[rel.0 as int];
            proof {
                assert(before_view.fitting(all[l as int]));
                assert(self.relations@[rel.0 as int]@ == relation);
                assert(before_view.relation_ok(relation));
            }
            let mut pos: usize = 0;
            while pos < count
                invariant
                    pos <= count,
                    forall|m: int, j: int|
                        before(all, m, j, l as int, pos as int) ==> (#[trigger] place(all, m, j)) < domains@.len()
                            && domains@[place(all, m, j) as int] == before_view.axis_domain(all, m, j),
                    forall|x: int|
                        0 <= x < domains@.len() ==> (#[trigger] domains@[x]).0 == NO_DOMAIN || used(
                            all,
                            l as int,
                            pos as int,
                            x,
                        ),
                    domains@.len() > 0 ==> used(all, l as int, pos as int, domains@.len() - 1),
                decreases count - pos,
            {
                let var = literals[l].2[pos];
                let ghost earlier = domains@;
                proof {
                    assert(place(all, l as int, pos as int) == var);
                    assert(before(all, l as int, pos as int, l as int, pos + 1));
                }
                while domains.len() <= var
                    invariant
                        earlier.len() <= domains@.len(),
                        domains@.take(earlier.len() as int) == earlier,
                        forall|x: int| earlier.len() <= x < domains@.len() ==> (#[trigger] domains@[x]).0 == NO_DOMAIN,
                        domains@.len() <= var + 1 || domains@.len() == earlier.len(),
                    decreases var + 1 - domains@.len(),
                {
                    domains.push(Dom(NO_DOMAIN));
                    proof {
                        assert(domains@.take(earlier.len() as int) =~= earlier);
                    }
                }
                let ghost grown = domains@;
                proof {
                    assert forall|x: int| 0 <= x < earlier.len() implies grown[x] == earlier[x] by {
                        assert(grown.take(earlier.len() as int)[x] == earlier[x]);
                    }
                }
                let dom1 = self.relations[rel.0].domains[pos];
                let dom2 = domains[var];
                proof {
                    assert(relation.domains[pos as int].0 < before_view.domains.len());
                    assert(dom1 == before_view.axis_domain(all, l as int, pos as int));
                }
                if dom2.0 != NO_DOMAIN && dom2.0 != dom1.0 {
                    proof {
                        assert(earlier[var as int] == dom2);
                        assert(used(all, l as int, pos as int, var as int));
                        let (m, j) = choose|m: int, j: int|
                            before(all, m, j, l as int, pos as int) && #[trigger] place(all, m, j) == var;
                        assert(before(all, m, j, n, 0));
                        assert(before(all, l as int, pos as int, n, 0));
                        assert(before_view.fitting(all[m]));
                        assert(before_view.fitting(all[l as int]));
                        assert(place(all, m, j) == place(all, l as int, pos as int));
                        assert(before_view.clash(all));
                    }
                    return Err(SolverError::DomainMismatch);
                }
                domains.set(var, dom1);
                proof {
                    let after = domains@;
                    assert forall|m: int, j: int| before(all, m, j, l as int, pos + 1) implies (#[trigger] place(
                        all,
                        m,
                        j,
                    )) < after.len() && after[place(all, m, j) as int] == before_view.axis_domain(all, m, j) by {
                        if m == l && j == pos {
                        } else {
                            assert(before(all, m, j, l as int, pos as int));
                            assert(earlier[place(all, m, j) as int] == before_view.axis_domain(all, m, j));
                            if place(all, m, j) == var {
                                assert(grown[var as int] == earlier[var as int]);
                                assert(dom2 == grown[var as int]);
                                assert(before_view.fitting(all[m]));
                                let other = before_view.relations[all[m].1.0 as int];
                                assert(before_view.relation_ok(other));
                                assert(other.domains[j].0 < before_view.domains.len());
                                assert(before_view.domains.len() == limit);
                                assert(dom2.0 != NO_DOMAIN);
                                assert(dom2 == dom1);
                            } else {
                                assert(after[place(all, m, j) as int] == grown[place(all, m, j) as int]);
                            }
                        }
                    }
                    assert forall|x: int| 0 <= x < after.len() implies (#[trigger] after[x]).0 == NO_DOMAIN || used(
                        all,
                        l as int,
                        pos + 1,
                        x,
                    ) by {
                        if x == var {
                        } else if x < earlier.len() {
                            assert(after[x] == earlier[x]);
                            if earlier[x].0 != NO_DOMAIN {
                                assert(used(all, l as int, pos as int, x));
                                let (m, j) = choose|m: int, j: int|
                                    before(all, m, j, l as int, pos as int) && #[trigger] place(all, m, j) == x;
                                assert(before(all, m, j, l as int, pos + 1));
                            }
                        }
                    }
                    if after.len() - 1 != var {
                        let x = after.len() - 1;
                        assert(after.len() == earlier.len());
                        assert(used(all, l as int, pos as int, x));
                        let (m, j) = choose|m: int, j: int|
                            before(all, m, j, l as int, pos as int) && #[trigger] place(all, m, j) == x;
                        assert(before(all, m, j, l as int, pos + 1));
                    }
                }
                pos += 1;
            }
            proof {
                assert forall|m: int, j: int| before(all, m, j, l + 1, 0) implies before(
                    all,
                    m,
                    j,
                    l as int,
                    count as int,
                ) by {}
                assert forall|x: int| 0 <= x < domains@.len() implies (#[trigger] domains@[x]).0 == NO_DOMAIN
                    || used(all, l + 1, 0, x) by {
                    if domains@[x].0 != NO_DOMAIN {
                        assert(used(all, l as int, count as int, x));
                        let (m, j) = choose|m: int, j: int|
                            before(all, m, j, l as int, count as int) && #[trigger] place(all, m, j) == x;
                        assert(before(all, m, j, l + 1, 0));
                    }
                }
                if domains@.len() > 0 {
                    let x = domains@.len() - 1;
                    let (m, j) = choose|m: int, j: int|
                        before(all, m, j, l as int, count as int) && #[trigger] place(all, m, j) == x;
                    assert(before(all, m, j, l + 1, 0));
                }
            }
            l += 1;
        }
        let mut made: Vec<Literal> = Vec::new();
        let mut k: usize = 0;
        while k < literals.len()
            invariant
                k <= n,
                made@.len() == k,
                forall|m: int| 0 <= m < k ==> (#[trigger] made@[m])@ == drafted(all)[m],
            decreases n - k,
        {
            let mut variables: Vec<Var> = Vec::new();
            let mut i: usize = 0;
            while i < literals[k].2.len()
                invariant
                    i <= all[k as int].2@.len(),
                    variables@.len() == i,
                    forall|j: int| 0 <= j < i ==> variables@[j] == Var(all[k as int].2@[j]),
                decreases all[k as int].2@.len() - i,
            {
                variables.push(Var(literals[k].2[i]));
                i += 1;
            }
            let ghost sofar = made@;
            made.push(Literal { sign: literals[k].0, relation: literals[k].1, variables });
            proof {
                assert(made@[k as int]@.variables =~= drafted(all)[k as int].variables);
                assert forall|m: int| 0 <= m < k + 1 implies (#[trigger] made@[m])@ == drafted(all)[m] by {
                    if m < k {
                        assert(made@[m] == sofar[m]);
                    }
                }
            }
            k += 1;
        }
        let ghost chosen = domains@;
        proof {
            before_view.lemma_typed(all, chosen, chosen);
        }
        let clause = Clause { literals: made, domains };
        proof {
            assert(clause@.literals =~= drafted(all));
        }
        self.clauses.push(clause);
        proof {
            assert(self@.clauses =~= before_view.clauses.push(clause@));
            assert(self@.clauses.drop_last() =~= before_view.clauses);
            assert(self@.steps =~= before_view.steps);
            assert(self@.domains =~= before_view.domains);
            assert(self@.relations =~= before_view.relations);
            assert forall|r: int| 0 <= r < self@.relations.len() implies self@.relation_ok(
                #[trigger] self@.relations[r],
            ) by {
                assert(before_view.relation_ok(before_view.relations[r]));
            }
        }
        Ok(())
    }

    /// Gives the atom of the relation at the given coordinates the value
    /// of `sign`, and records the step.
    ///
    /// Fails with `UnknownHandle` if the handle is not one of a relation
    /// of the solver, else with `ArityMismatch` if there is not one
    /// coordinate for every domain of the relation, else with `OutOfRange`
    /// if a coordinate is no element of its domain, else with
    /// `AlreadyAssigned` if the atom has a value.
    pub fn set_value(&mut self, sign: bool, rel: Rel, coordinates: &[usize]) -> (r: Result<(), SolverError>)
        requires
            old(self).wf(),
        ensures
            final(self).wf(),
            match r {
                Ok(()) => {
                    &&& old(self)@.value_refusal(rel, coordinates@) is None
                    &&& final(self)@ == (SolverView {
                        assignment: old(self)@.assignment.update(
                            old(self)@.atom(rel, coordinates@),
                            value_of(sign),
                        ),
                        steps: old(self)@.steps.push(
                            StepView { pos: old(self)@.atom(rel, coordinates@) as usize, reason: Seq::empty() },
                        ),
                        ..old(self)@
                    })
                },
                Err(e) => old(self)@.value_refusal(rel, coordinates@) == Some(e) && final(self)@ == old(self)@,
            },
    {
        let pos = match self.locate(rel, coordinates) {
            Ok(pos) => pos,
            Err(e) => {
                return Err(e);
            },
        };
        if self.assignment.get(pos).idx() != BOOL_UNDEF {
            return Err(SolverError::AlreadyAssigned);
        }
        self.assign(pos, sign, Vec::new());
        Ok(())
    }

    /// The position of the atom of the relation at the given coordinates,
    /// or why there is no such atom.
    #[verifier::loop_isolation(false)]
    fn locate(&self, rel: Rel, coordinates: &[usize]) -> (r: Result<usize, SolverError>)
        requires
            self.wf(),
        ensures
            match r {
                Ok(pos) => {
                    &&& rel.0 < self@.relations.len()
                    &&& valid_coords(self@.relations[rel.0 as int].lengths, coordinates@)
                    &&& pos == self@.atom(rel, coordinates@)
                    &&& pos < self@.assignment.len()
                },
                Err(e) => e != SolverError::AlreadyAssigned && self@.value_refusal(rel, coordinates@) == Some(e),
            },
    {
        if rel.0 >= self.relations.len() {
            return Err(SolverError::UnknownHandle);
        }
        let shape = &self.relations[rel.0].shape;
        let ghost relation = self@.relations[rel.0 as int];
        proof {
            assert(self.relations@[rel.0 as int]@ == relation);
        }
        if coordinates.len() != shape.dimension() {
            return Err(SolverError::ArityMismatch);
        }
        let mut i: usize = 0;
        while i < coordinates.len()
            invariant
                i <= coordinates@.len(),
                coordinates@.len() == relation.lengths.len(),
                relation.lengths == lengths_of(shape.spec_axes()),
                forall|k: int| 0 <= k < i ==> coordinates@[k] < relation.lengths[k],
            decreases coordinates@.len() - i,
        {
            if coordinates[i] >= shape.length(i) {
                proof {
                    assert(!(coordinates@[i as int] < relation.lengths[i as int]));
                }
                return Err(SolverError::OutOfRange);
            }
            i += 1;
        }
        proof {
            self@.lemma_atom(rel, coordinates@);
        }
        Ok(shape.position(coordinates))
    }

    /// Gives the atom at the given position the value of `sign`, and
    /// records the step with its reason.
    fn assign(&mut self, pos: usize, sign: bool, reason: Vec<usize>)
        requires
            old(self).wf(),
            pos < old(self)@.assignment.len(),
        ensures
            final(self).wf(),
            final(self)@ == (SolverView {
                assignment: old(self)@.assignment.update(pos as int, value_of(sign)),
                steps: old(self)@.steps.push(StepView { pos, reason: reason@ }),
                ..old(self)@
            }),
    {
        let val = if sign {
            Bit2::new(BOOL_TRUE)
        } else {
            Bit2::new(BOOL_FALSE)
        };
        self.assignment.set(pos, val);
        self.steps.push(Step { pos, reason });
        proof {
            assert(self@.steps =~= old(self)@.steps.push(StepView { pos, reason: reason@ }));
            assert(self@.domains =~= old(self)@.domains);
            assert(self@.relations =~= old(self)@.relations);
            assert(self@.clauses =~= old(self)@.clauses);
            assert forall|k: int| 0 <= k < self@.relations.len() implies self@.relation_ok(
                #[trigger] self@.relations[k],
            ) by {
                assert(old(self)@.relation_ok(old(self)@.relations[k]));
            }
        }
    }
}

} // verus!
