//! Ground literals and clauses: every atom of every predicate has a
//! number, every literal an index made of the number of its atom and of
//! its sign, and every instance of a formula the number of a clause.

pub mod eval;
pub mod solver;

use crate::shape::{
    bulk_of, coords_of, flat_index, lemma_bulk, lemma_bulk_prefix, lemma_coords_of, lemma_coords_prefix,
    lemma_flat_index, valid_coords, volume_of,
};
use crate::solver::error::SolverError;
use crate::shared::share;
use std::rc::Rc;
use vstd::prelude::*;

verus! {

/// A truth value: false, undefined or true.
#[derive(Debug, Clone, Copy)]
pub struct Bool(i8);

impl Bool {
    /// The number of the value: minus one for false, zero for undefined,
    /// one for true.
    pub closed spec fn view(self) -> int {
        self.0 as int
    }

    #[verifier::type_invariant]
    spec fn inv(self) -> bool {
        -1 <= self.0 <= 1
    }

    /// The value false.
    pub fn falsity() -> (r: Bool)
        ensures
            r@ == -1,
    {
        Bool(-1)
    }

    /// The undefined value.
    pub fn undefined() -> (r: Bool)
        ensures
            r@ == 0,
    {
        Bool(0)
    }

    /// The value true.
    pub fn truth() -> (r: Bool)
        ensures
            r@ == 1,
    {
        Bool(1)
    }

    /// Whether the value is true.
    pub fn is_true(self) -> (r: bool)
        ensures
            r == (self@ > 0),
            -1 <= self@ <= 1,
    {
        proof {
            use_type_invariant(&self);
        }
        self.0 > 0
    }

    /// Whether the value is undefined.
    pub fn is_undef(self) -> (r: bool)
        ensures
            r == (self@ == 0),
            -1 <= self@ <= 1,
    {
        proof {
            use_type_invariant(&self);
        }
        self.0 == 0
    }

    /// Whether the value is false.
    pub fn is_false(self) -> (r: bool)
        ensures
            r == (self@ < 0),
            -1 <= self@ <= 1,
    {
        proof {
            use_type_invariant(&self);
        }
        self.0 < 0
    }

    /// The negation of the value.
    pub fn negate(self) -> (r: Bool)
        ensures
            r@ == -self@,
    {
        proof {
            use_type_invariant(&self);
        }
        Bool(-self.0)
    }

    /// The conjunction of two values: the smaller one.
    pub fn and(self, other: Bool) -> (r: Bool)
        ensures
            r@ == if self@ <= other@ { self@ } else { other@ },
    {
        proof {
            use_type_invariant(&self);
            use_type_invariant(&other);
        }
        if self.0 <= other.0 {
            self
        } else {
            other
        }
    }

    /// The disjunction of two values: the larger one.
    pub fn or(self, other: Bool) -> (r: Bool)
        ensures
            r@ == if self@ >= other@ { self@ } else { other@ },
    {
        proof {
            use_type_invariant(&self);
            use_type_invariant(&other);
        }
        if self.0 >= other.0 {
            self
        } else {
            other
        }
    }

    /// The value, negated if `negated` holds.
    pub fn flip(self, negated: bool) -> (r: Bool)
        ensures
            r@ == if negated { -self@ } else { self@ },
    {
        if negated {
            self.negate()
        } else {
            self
        }
    }

    /// The name of the value: `false`, `undef` or `true`.
    pub fn name(self) -> (r: &'static str)
        ensures
            r@ == if self@ > 0 {
                "true"@
            } else if self@ < 0 {
                "false"@
            } else {
                "undef"@
            },
    {
        if self.0 > 0 {
            "true"
        } else if self.0 < 0 {
            "false"
        } else {
            "undef"
        }
    }
}

impl Default for Bool {
    fn default() -> (r: Self)
        ensures
            r@ == 0,
    {
        Bool(0)
    }
}

/// Whether two domains lie at the same place. This is `std::ptr::eq` of
/// the standard library, which compares the addresses. A domain takes up
/// room, so two references to one place refer to one domain; nothing is
/// said of domains at different places, which may be equal all the same.
#[verifier::external_body]
fn same_domain(a: &Domain, b: &Domain) -> (r: bool)
    ensures
        r ==> *a == *b,
{
    std::ptr::eq(a, b)
}

/// Whether two predicates lie at the same place. This is `std::ptr::eq`
/// of the standard library, which compares the addresses. A predicate
/// takes up room, so two references to one place refer to one predicate;
/// nothing is said of predicates at different places, which may be equal
/// all the same.
#[verifier::external_body]
fn same_predicate(a: &Predicate, b: &Predicate) -> (r: bool)
    ensures
        r ==> *a == *b,
{
    std::ptr::eq(a, b)
}

/// A named finite set of elements, of which only the number matters.
#[derive(Debug)]
pub struct Domain {
    size: usize,
    name: String,
}

impl Domain {
    /// The name of the domain.
    pub closed spec fn spec_name(&self) -> Seq<char> {
        self.name@
    }

    /// The number of elements of the domain.
    pub closed spec fn spec_size(&self) -> usize {
        self.size
    }

    /// Makes the domain with the given name and number of elements.
    pub fn new(name: String, size: usize) -> (r: Self)
        ensures
            r.spec_name() == name@,
            r.spec_size() == size,
    {
        Self { name, size }
    }

    /// The number of elements of the domain.
    pub fn size(&self) -> (r: usize)
        ensures
            r == self.spec_size(),
    {
        self.size
    }

    /// The name of the domain.
    pub fn name(&self) -> (r: &str)
        ensures
            r@ == self.spec_name(),
    {
        self.name.as_str()
    }

    /// Whether the other domain is this one: whether it lies at the same
    /// place. Domains that were made apart are told apart, whatever their
    /// names and sizes are; a domain that is this one has its name and
    /// its size.
    pub fn ptr_eq(&self, other: &Domain) -> (r: bool)
        ensures
            r ==> *self == *other,
    {
        same_domain(self, other)
    }
}

/// The number of an element of a domain.
#[derive(Debug, Clone, Copy, PartialEq, Eq, Structural)]
pub struct Coord(pub usize);

/// The sizes of the domains.
pub open spec fn sizes(domains: Seq<Rc<Domain>>) -> Seq<usize> {
    Seq::new(domains.len(), |k: int| domains[k].spec_size())
}

/// The numbers of the coordinates.
pub open spec fn numbers(coords: Seq<Coord>) -> Seq<usize> {
    Seq::new(coords.len(), |k: int| coords[k].0)
}

/// Sets the coordinates of the tuple that has the given row-major offset
/// among the tuples over the domains.
pub fn get_coords(domains: &Vec<Rc<Domain>>, offset: usize, coords: &mut Vec<Coord>)
    requires
        domains@.len() == old(coords)@.len(),
        offset < volume_of(sizes(domains@)),
    ensures
        numbers(final(coords)@) == coords_of(sizes(domains@), offset as nat),
        valid_coords(sizes(domains@), numbers(final(coords)@)),
{
    let ghost lengths = sizes(domains@);
    let ghost goal = coords_of(lengths, offset as nat);
    let n = domains.len();
    let mut rest = offset;
    let mut i: usize = n;
    proof {
        assert(lengths.take(i as int) =~= lengths);
        lemma_coords_of(lengths, offset as nat);
        assert(goal.take(i as int) =~= goal);
    }
    while i > 0
        invariant
            i <= n,
            n == domains@.len(),
            lengths == sizes(domains@),
            coords@.len() == n,
            goal.len() == n,
            rest < volume_of(lengths.take(i as int)),
            goal.take(i as int) == coords_of(lengths.take(i as int), rest as nat),
            forall|k: int| i <= k < n ==> coords@[k].0 == goal[k],
        decreases i,
    {
        proof {
            lemma_coords_prefix(lengths, rest as nat, i as int);
            assert(goal[i - 1] == goal.take(i as int)[i - 1]);
            assert(goal.take(i - 1) =~= goal.take(i as int).take(i - 1));
        }
        i -= 1;
        let size = domains[i].size();
        coords[i] = Coord(rest % size);
        rest = rest / size;
    }
    proof {
        assert(numbers(coords@) =~= goal);
    }
}

/// The row-major offset of the tuple with the given coordinates among
/// the tuples over the domains.
pub fn get_offset(domains: &Vec<Rc<Domain>>, coords: &Vec<Coord>) -> (r: usize)
    requires
        bulk_of(sizes(domains@)) <= usize::MAX,
        valid_coords(sizes(domains@), numbers(coords@)),
    ensures
        r == flat_index(sizes(domains@), numbers(coords@)),
        r < volume_of(sizes(domains@)),
{
    let ghost lengths = sizes(domains@);
    let ghost cs = numbers(coords@);
    let mut offset: usize = 0;
    let mut i: usize = 0;
    while i < domains.len()
        invariant
            i <= domains@.len(),
            lengths == sizes(domains@),
            cs == numbers(coords@),
            bulk_of(lengths) <= usize::MAX,
            valid_coords(lengths, cs),
            offset == flat_index(lengths.take(i as int), cs.take(i as int)),
        decreases domains@.len() - i,
    {
        proof {
            let cut = lengths.take(i + 1);
            let part = cs.take(i + 1);
            assert(cut.drop_last() =~= lengths.take(i as int));
            assert(part.drop_last() =~= cs.take(i as int));
            lemma_flat_index(cut, part);
            lemma_bulk_prefix(lengths, i + 1);
            assert(cs[i as int] == coords@[i as int].0);
            assert(lengths[i as int] == domains@[i as int].spec_size());
        }
        let size = domains[i].size();
        offset = offset * size;
        offset = offset + coords[i].0;
        i += 1;
    }
    proof {
        assert(lengths.take(i as int) =~= lengths);
        assert(cs.take(i as int) =~= cs);
        lemma_flat_index(lengths, cs);
    }
    offset
}

/// The product of the sizes of the domains, if it fits into a machine
/// word and no domain is empty.
pub fn count_tuples(domains: &Vec<Rc<Domain>>) -> (r: Option<usize>)
    ensures
        match r {
            Some(count) => count == volume_of(sizes(domains@)) && bulk_of(sizes(domains@)) <= usize::MAX,
            None => bulk_of(sizes(domains@)) > usize::MAX,
        },
{
    let ghost lengths = sizes(domains@);
    let mut product: usize = 1;
    let mut bulk: usize = 1;
    let mut k: usize = 0;
    proof {
        assert(lengths.take(0) =~= Seq::empty());
    }
    while k < domains.len()
        invariant
            k <= domains@.len(),
            lengths == sizes(domains@),
            product == volume_of(lengths.take(k as int)),
            bulk == bulk_of(lengths.take(k as int)),
        decreases domains@.len() - k,
    {
        proof {
            assert(lengths.take(k + 1).drop_last() =~= lengths.take(k as int));
            lemma_bulk_prefix(lengths, k + 1);
            lemma_bulk(lengths.take(k as int));
            assert(lengths[k as int] == domains@[k as int].spec_size());
        }
        let size = domains[k].size();
        if size != 0 {
            let next = bulk.checked_mul(size);
            if next.is_none() {
                return None;
            }
            bulk = next.unwrap();
        }
        proof {
            vstd::arithmetic::mul::lemma_mul_inequality(
                volume_of(lengths.take(k as int)) as int,
                bulk_of(lengths.take(k as int)) as int,
                size as int,
            );
            lemma_bulk(lengths.take(k + 1));
        }
        product = product * size;
        k += 1;
    }
    proof {
        assert(lengths.take(k as int) =~= lengths);
    }
    Some(product)
}

/// The mathematical value of a predicate.
pub struct PredicateView {
    pub name: Seq<char>,
    /// The names of the domains.
    pub domains: Seq<Seq<char>>,
    /// The sizes of the domains.
    pub sizes: Seq<usize>,
    /// The number of the first atom.
    pub var_start: usize,
    /// The number of atoms.
    pub var_count: usize,
}

/// A named relation over some domains, whose atoms have the numbers from
/// `var_start` on.
#[derive(Debug)]
pub struct Predicate {
    name: String,
    domains: Vec<Rc<Domain>>,
    var_start: usize,
    var_count: usize,
}

impl Predicate {
    /// The mathematical value of the predicate.
    pub closed spec fn view(&self) -> PredicateView {
        PredicateView {
            name: self.name@,
            domains: Seq::new(self.domains@.len(), |k: int| self.domains@[k].spec_name()),
            sizes: sizes(self.domains@),
            var_start: self.var_start,
            var_count: self.var_count,
        }
    }

    /// The predicate has an atom for every tuple over its domains.
    pub open spec fn wf(&self) -> bool {
        &&& bulk_of(self@.sizes) <= usize::MAX
        &&& self@.var_count == volume_of(self@.sizes)
        &&& self@.var_start + self@.var_count <= usize::MAX / 2
        &&& self@.domains.len() == self@.sizes.len()
    }

    /// Makes the predicate with the given name over the given domains,
    /// whose atoms have the numbers from `var_start` on.
    pub fn new(name: String, domains: Vec<Rc<Domain>>, var_start: usize) -> (r: Self)
        requires
            bulk_of(sizes(domains@)) <= usize::MAX,
            var_start + volume_of(sizes(domains@)) <= usize::MAX / 2,
        ensures
            r.wf(),
            r@.name == name@,
            r@.sizes == sizes(domains@),
            r@.domains == Seq::new(domains@.len(), |k: int| domains@[k].spec_name()),
            r@.var_start == var_start,
    {
        proof {
            lemma_bulk(sizes(domains@));
        }
        let count = count_tuples(&domains);
        let var_count = match count {
            Some(count) => count,
            None => 0,
        };
        Self { name, domains, var_start, var_count }
    }

    /// The name of the predicate.
    pub fn name(&self) -> (r: &str)
        ensures
            r@ == self@.name,
    {
        self.name.as_str()
    }

    /// The number of domains of the predicate.
    pub fn arity(&self) -> (r: usize)
        ensures
            r == self@.sizes.len(),
    {
        self.domains.len()
    }

    /// The domain of the axis with the given number.
    pub fn domain(&self, pos: usize) -> (r: &Rc<Domain>)
        requires
            pos < self@.sizes.len(),
        ensures
            r.spec_size() == self@.sizes[pos as int],
            r.spec_name() == self@.domains[pos as int],
    {
        &self.domains[pos]
    }

    /// The number of atoms of the predicate.
    pub fn var_count(&self) -> (r: usize)
        ensures
            r == self@.var_count,
    {
        self.var_count
    }

    /// The number of the first atom of the predicate.
    pub fn var_start(&self) -> (r: usize)
        ensures
            r == self@.var_start,
    {
        self.var_start
    }

    /// Sets the coordinates of the atom with the given number within the
    /// predicate.
    pub fn get_coords(&self, offset: usize, coords: &mut Vec<Coord>)
        requires
            self.wf(),
            old(coords)@.len() == self@.sizes.len(),
            offset < self@.var_count,
        ensures
            numbers(final(coords)@) == coords_of(self@.sizes, offset as nat),
            valid_coords(self@.sizes, numbers(final(coords)@)),
    {
        get_coords(&self.domains, offset, coords);
    }

    /// The number within the predicate of the atom with the given
    /// coordinates.
    pub fn get_offset(&self, coords: &Vec<Coord>) -> (r: usize)
        requires
            self.wf(),
            valid_coords(self@.sizes, numbers(coords@)),
        ensures
            r == flat_index(self@.sizes, numbers(coords@)),
            r < self@.var_count,
    {
        get_offset(&self.domains, coords)
    }

    /// Whether the other predicate is this one: whether it lies at the
    /// same place. A predicate that is this one has its name, its domains
    /// and the numbers of its atoms.
    pub fn ptr_eq(&self, other: &Predicate) -> (r: bool)
        ensures
            r ==> *self == *other,
    {
        same_predicate(self, other)
    }
}

/// The index of a literal: twice the number of its atom, plus one if the
/// literal is negated.
#[derive(Debug, Clone, Copy, PartialEq, Eq, Structural)]
pub struct LiteralIdx(usize);

impl LiteralIdx {
    /// The index as a number.
    pub closed spec fn view(self) -> usize {
        self.0
    }

    /// The index of the literal of the atom with the given number.
    pub fn new(negated: bool, variable: usize) -> (r: Self)
        requires
            variable <= usize::MAX / 2,
        ensures
            r@ == 2 * variable + if negated { 1int } else { 0int },
    {
        Self(variable * 2 + if negated { 1 } else { 0 })
    }

    /// Whether the literal is negated.
    pub fn negated(self) -> (r: bool)
        ensures
            r == (self@ % 2 == 1),
    {
        self.0 % 2 != 0
    }

    /// The number of the atom of the literal.
    pub fn variable(self) -> (r: usize)
        ensures
            r == self@ / 2,
    {
        self.0 / 2
    }

    /// The index of the opposite literal.
    pub fn not(self) -> (r: Self)
        ensures
            r@ / 2 == self@ / 2,
            r@ % 2 != self@ % 2,
    {
        if self.0 % 2 == 0 {
            Self(self.0 + 1)
        } else {
            Self(self.0 - 1)
        }
    }

    /// The index of the opposite literal if `flip` holds, else the index
    /// itself.
    pub fn xor(self, flip: bool) -> (r: Self)
        ensures
            r@ / 2 == self@ / 2,
            (r@ % 2 != self@ % 2) == flip,
    {
        if flip {
            self.not()
        } else {
            self
        }
    }
}

/// A ground literal: an atom of a predicate, given by its coordinates,
/// with a sign.
#[derive(Debug)]
pub struct Literal<'a> {
    negated: bool,
    predicate: &'a Rc<Predicate>,
    coords: Vec<Coord>,
}

impl<'a> Literal<'a> {
    /// The predicate of the literal.
    pub closed spec fn spec_predicate(&self) -> PredicateView {
        self.predicate@
    }

    /// The numbers of the coordinates of the atom.
    pub closed spec fn spec_coords(&self) -> Seq<usize> {
        numbers(self.coords@)
    }

    /// Whether the literal is negated.
    pub closed spec fn spec_negated(&self) -> bool {
        self.negated
    }

    /// The predicate is well formed, and the coordinates are those of
    /// one of its atoms.
    pub closed spec fn wf(&self) -> bool {
        &&& self.predicate.wf()
        &&& valid_coords(self.predicate@.sizes, numbers(self.coords@))
    }

    /// Makes the literal of the atom of the predicate at the given
    /// coordinates.
    pub fn new(negated: bool, predicate: &'a Rc<Predicate>, coords: Vec<Coord>) -> (r: Self)
        requires
            predicate.wf(),
            valid_coords(predicate@.sizes, numbers(coords@)),
        ensures
            r.wf(),
            r.spec_negated() == negated,
            r.spec_predicate() == predicate@,
            r.spec_coords() == numbers(coords@),
    {
        Self { negated, predicate, coords }
    }

    /// The index of the literal.
    pub fn idx(&self) -> (r: LiteralIdx)
        requires
            self.wf(),
        ensures
            r@ == 2 * (self.spec_predicate().var_start + flat_index(
                self.spec_predicate().sizes,
                self.spec_coords(),
            )) + if self.spec_negated() { 1int } else { 0int },
    {
        let var = self.predicate.var_start() + self.predicate.get_offset(&self.coords);
        LiteralIdx::new(self.negated, var)
    }

    /// Whether the literal is negated.
    pub fn negated(&self) -> (r: bool)
        ensures
            r == self.spec_negated(),
    {
        self.negated
    }

    /// The predicate of the literal.
    pub fn predicate(&self) -> (r: &Rc<Predicate>)
        ensures
            r@ == self.spec_predicate(),
    {
        self.predicate
    }

    /// The coordinates of the atom.
    pub fn coords(&self) -> (r: &Vec<Coord>)
        ensures
            numbers(r@) == self.spec_coords(),
            self.wf() ==> valid_coords(self.spec_predicate().sizes, numbers(r@)),
    {
        &self.coords
    }

    /// Gives up the literal and hands out its coordinates.
    pub fn destroy(self) -> (r: Vec<Coord>)
        ensures
            numbers(r@) == self.spec_coords(),
    {
        self.coords
    }
}

/// The assignment of truth values to the atoms.
#[derive(Debug)]
pub struct State {
    values: Vec<Bool>,
}

impl State {
    /// The numbers of the truth values of the atoms.
    pub closed spec fn view(&self) -> Seq<int> {
        Seq::new(self.values@.len(), |k: int| self.values@[k]@)
    }

    /// The state without atoms.
    pub fn new() -> (r: Self)
        ensures
            r@.len() == 0,
    {
        Self { values: Vec::new() }
    }

    /// The number of atoms.
    pub fn get_variables(&self) -> (r: usize)
        ensures
            r == self@.len(),
    {
        self.values.len()
    }

    /// Sets the number of atoms: atoms behind the new number are given
    /// up, new atoms are undefined.
    pub fn set_variables(&mut self, count: usize)
        ensures
            final(self)@.len() == count,
            forall|k: int| 0 <= k < count && k < old(self)@.len() ==> final(self)@[k] == old(self)@[k],
            forall|k: int| old(self)@.len() <= k < count ==> final(self)@[k] == 0,
    {
        let ghost before = self@;
        if count <= self.values.len() {
            self.values.truncate(count);
        } else {
            while self.values.len() < count
                invariant
                    before.len() <= self.values@.len() <= count,
                    forall|k: int| 0 <= k < before.len() ==> self@[k] == before[k],
                    forall|k: int| before.len() <= k < self.values@.len() ==> self@[k] == 0,
                decreases count - self.values@.len(),
            {
                let ghost sofar = self@;
                self.values.push(Bool::undefined());
                proof {
                    assert forall|k: int| before.len() <= k < self.values@.len() implies self@[k] == 0 by {
                        if k < sofar.len() {
                            assert(self@[k] == sofar[k]);
                        }
                    }
                    assert forall|k: int| 0 <= k < before.len() implies self@[k] == before[k] by {
                        assert(self@[k] == sofar[k]);
                    }
                }
            }
        }
    }

    /// The truth value of the literal.
    pub fn get_value(&self, lit: LiteralIdx) -> (r: Bool)
        requires
            lit@ / 2 < self@.len(),
        ensures
            r@ == literal_value(self@, lit@ as int),
    {
        let val = self.values[lit.variable()];
        val.flip(lit.negated())
    }

    /// Sets the given literal to true and enqueues it for unit propagation.
    pub fn enqueue(&mut self, lit: LiteralIdx)
        requires
            lit@ / 2 < old(self)@.len(),
            old(self)@[(lit@ / 2) as int] == 0,
        ensures
            final(self)@ == enqueued(old(self)@, lit@ as int),
    {
        let var = lit.variable();
        let ghost before = self@;
        self.values[var] = if lit.negated() {
            Bool::falsity()
        } else {
            Bool::truth()
        };
        proof {
            assert(self@ =~= enqueued(before, lit@ as int));
        }
    }
}

/// The truth value of the literal with the given index.
pub open spec fn literal_value(values: Seq<int>, lit: int) -> int {
    if lit % 2 == 1 {
        -values[lit / 2]
    } else {
        values[lit / 2]
    }
}

/// The truth values after the literal with the given index became true.
pub open spec fn enqueued(values: Seq<int>, lit: int) -> Seq<int> {
    values.update(lit / 2, if lit % 2 == 1 { -1int } else { 1int })
}

/// The handle of a domain of a solver.
#[derive(Debug, Clone, Copy, PartialEq, Eq, Structural)]
pub struct DomainIdx(pub usize);

/// The handle of a predicate of a solver.
#[derive(Debug, Clone, Copy, PartialEq, Eq, Structural)]
pub struct PredicateIdx(pub usize);

/// The number of a ground clause.
#[derive(Debug, Clone, Copy, PartialEq, Eq, Structural)]
pub struct ClauseIdx(pub usize);


/// The mathematical value of an atomic formula.
pub struct AtomView {
    pub negated: bool,
    pub predicate: PredicateView,
    /// For every axis of the predicate, the variable of the formula that
    /// stands there.
    pub variables: Seq<usize>,
}

/// A signed atom of a formula: a predicate with a variable of the
/// formula for every one of its axes.
#[derive(Debug)]
pub struct AtomicFormula {
    negated: bool,
    predicate: Rc<Predicate>,
    variables: Vec<usize>,
}

/// The coordinates of the variables that stand at the axes of an atom.
pub open spec fn picked(coords: Seq<usize>, variables: Seq<usize>) -> Seq<usize> {
    Seq::new(variables.len(), |i: int| coords[variables[i] as int])
}

impl AtomicFormula {
    /// The mathematical value of the formula.
    pub closed spec fn view(&self) -> AtomView {
        AtomView { negated: self.negated, predicate: self.predicate@, variables: self.variables@ }
    }

    /// The predicate is well formed, and there is one variable for every
    /// axis of it.
    pub closed spec fn wf(&self) -> bool {
        &&& self.predicate.wf()
        &&& self.predicate@.sizes.len() == self.variables@.len()
    }

    /// What a well-formed formula says of its value.
    pub proof fn lemma_wf(&self)
        requires
            self.wf(),
        ensures
            self@.predicate.sizes.len() == self@.variables.len(),
            bulk_of(self@.predicate.sizes) <= usize::MAX,
            self@.predicate.var_count == volume_of(self@.predicate.sizes),
            self@.predicate.var_start + self@.predicate.var_count <= usize::MAX / 2,
    {
    }

    /// Makes the atom of the given predicate with the given sign and the
    /// given variables at its axes, one for every axis.
    pub fn new(negated: bool, predicate: Rc<Predicate>, variables: Vec<usize>) -> (r: Self)
        requires
            predicate.wf(),
            predicate@.sizes.len() == variables@.len(),
        ensures
            r.wf(),
            r@ == (AtomView { negated, predicate: predicate@, variables: variables@ }),
    {
        Self { negated, predicate, variables }
    }

    /// Whether the atom is negated.
    pub fn negated(&self) -> (r: bool)
        ensures
            r == self@.negated,
    {
        self.negated
    }

    /// The predicate of the atom.
    pub fn predicate(&self) -> (r: &Rc<Predicate>)
        requires
            self.wf(),
        ensures
            r@ == self@.predicate,
            r.wf(),
    {
        &self.predicate
    }

    /// The variables that stand at the axes of the predicate.
    pub fn variables(&self) -> (r: &Vec<usize>)
        ensures
            r@ == self@.variables,
    {
        &self.variables
    }

    /// The index of the literal of the atom under the given values of the
    /// variables: the number of the atom within its predicate, with the
    /// sign of the formula.
    pub fn get_literal(&self, coords: &Vec<Coord>) -> (r: LiteralIdx)
        requires
            self.wf(),
            forall|i: int| 0 <= i < self@.variables.len() ==> (#[trigger] self@.variables[i]) < coords@.len(),
            valid_coords(self@.predicate.sizes, picked(numbers(coords@), self@.variables)),
        ensures
            r@ == atom_literal(self@, numbers(coords@)),
            r@ / 2 < self@.predicate.var_count,
    {
        let ghost goal = picked(numbers(coords@), self.variables@);
        let mut taken: Vec<Coord> = Vec::new();
        let mut i: usize = 0;
        while i < self.variables.len()
            invariant
                i <= self.variables@.len(),
                goal == picked(numbers(coords@), self.variables@),
                forall|i: int| 0 <= i < self.variables@.len() ==> (#[trigger] self.variables@[i]) < coords@.len(),
                taken@.len() == i,
                numbers(taken@) == goal.take(i as int),
            decreases self.variables@.len() - i,
        {
            let ghost sofar = taken@;
            taken.push(coords[self.variables[i]]);
            proof {
                assert forall|k: int| 0 <= k < i + 1 implies numbers(taken@)[k] == goal.take(i + 1)[k] by {
                    if k < i {
                        assert(taken@[k] == sofar[k]);
                        assert(numbers(sofar)[k] == goal.take(i as int)[k]);
                    }
                }
                assert(numbers(taken@) =~= goal.take(i + 1));
            }
            i += 1;
        }
        proof {
            assert(numbers(taken@) =~= goal);
        }
        let offset = self.predicate.get_offset(&taken);
        LiteralIdx::new(self.negated, offset)
    }
}

/// The index of the literal of an atom under the given values of the
/// variables.
pub open spec fn atom_literal(atom: AtomView, coords: Seq<usize>) -> int {
    2 * flat_index(atom.predicate.sizes, picked(coords, atom.variables)) + if atom.negated {
        1int
    } else {
        0int
    }
}

/// The draft of an atom: its sign, its predicate, and the variables of
/// the formula that stand at the axes of the predicate.
pub type Draft = (bool, Rc<Predicate>, Vec<usize>);

/// The atoms that the drafts stand for.
pub open spec fn atoms_of(drafts: Seq<Draft>) -> Seq<AtomView> {
    Seq::new(
        drafts.len(),
        |l: int| AtomView { negated: drafts[l].0, predicate: drafts[l].1@, variables: drafts[l].2@ },
    )
}

/// Whether `(l, i)` is an axis of an atom.
pub open spec fn axis_of(atoms: Seq<AtomView>, l: int, i: int) -> bool {
    0 <= l < atoms.len() && 0 <= i < atoms[l].variables.len()
}

/// The variable that stands at axis `i` of draft `l`.
pub open spec fn place(atoms: Seq<AtomView>, l: int, i: int) -> usize {
    atoms[l].variables[i]
}

/// Whether the variable `x` stands at an axis of a draft.
pub open spec fn used(atoms: Seq<AtomView>, x: int) -> bool {
    exists|l: int, i: int| axis_of(atoms, l, i) && #[trigger] place(atoms, l, i) == x
}

/// Two axes of atoms have the same variable and domains of different
/// names or sizes.
pub open spec fn clash(atoms: Seq<AtomView>) -> bool {
    exists|l: int, i: int, m: int, j: int|
        axis_of(atoms, l, i) && axis_of(atoms, m, j) && #[trigger] place(atoms, l, i) == #[trigger] place(
            atoms,
            m,
            j,
        ) && (atoms[l].predicate.domains[i] != atoms[m].predicate.domains[j] || atoms[l].predicate.sizes[i] != atoms[m].predicate.sizes[j])
}

/// A variable stands at two axes of atoms.
pub open spec fn shared(atoms: Seq<AtomView>) -> bool {
    exists|l: int, i: int, m: int, j: int|
        axis_of(atoms, l, i) && axis_of(atoms, m, j) && (l != m || i != j) && #[trigger] place(atoms, l, i)
            == #[trigger] place(atoms, m, j)
}

/// The variable `x` stands at no axis of a draft, while the later
/// variable `y` does.
pub open spec fn skipped(atoms: Seq<AtomView>, x: int, y: int) -> bool {
    &&& 0 <= x < y
    &&& !used(atoms, x)
    &&& used(atoms, y)
}

/// The domains of the variables of a formula: the domain of every axis of
/// a draft is the domain of the variable that stands there, and every
/// variable stands at some axis.
pub open spec fn typed(atoms: Seq<AtomView>, domains: Seq<Seq<char>>, sizes: Seq<usize>) -> bool {
    &&& domains.len() == sizes.len()
    &&& forall|l: int, i: int|
        axis_of(atoms, l, i) ==> (#[trigger] place(atoms, l, i)) < sizes.len() && axis_domain(
            atoms,
            l,
            i,
            domains[place(atoms, l, i) as int],
            sizes[place(atoms, l, i) as int],
        )
    &&& forall|x: int| 0 <= x < sizes.len() ==> #[trigger] used(atoms, x)
}

/// Whether an atom has not one variable for every axis of its predicate.
pub open spec fn ragged(atoms: Seq<AtomView>) -> bool {
    exists|l: int| 0 <= l < atoms.len() && (#[trigger] atoms[l]).predicate.sizes.len() != atoms[l].variables.len()
}

/// What is wrong with the atoms of a formula that is refused with the
/// given error. A ragged atom comes first; then the typing of the
/// variables; then the numbers of the clauses.
pub open spec fn formula_fault(atoms: Seq<AtomView>, cla_start: usize, e: SolverError) -> bool {
    if ragged(atoms) {
        e == SolverError::ArityMismatch
    } else {
        match e {
            SolverError::DomainMismatch => shared(atoms) || exists|x: int, y: int| #[trigger] skipped(atoms, x, y),
            SolverError::TooLarge => exists|domains: Seq<Seq<char>>, sizes: Seq<usize>| #[trigger]
                typed(atoms, domains, sizes) && (bulk_of(sizes) > usize::MAX || cla_start + volume_of(sizes)
                    > usize::MAX),
            _ => false,
        }
    }
}

/// Atoms whose variables have domains show no fault of typing, and the
/// domains of their variables are determined.
pub proof fn lemma_typed(
    atoms: Seq<AtomView>,
    domains: Seq<Seq<char>>,
    sizes: Seq<usize>,
    other_domains: Seq<Seq<char>>,
    other_sizes: Seq<usize>,
)
    requires
        typed(atoms, domains, sizes),
        typed(atoms, other_domains, other_sizes),
    ensures
        !clash(atoms),
        forall|x: int, y: int| !skipped(atoms, x, y),
        domains == other_domains,
        sizes == other_sizes,
{
    if clash(atoms) {
        let (l, i, m, j) = choose|l: int, i: int, m: int, j: int|
            axis_of(atoms, l, i) && axis_of(atoms, m, j) && #[trigger] place(atoms, l, i) == #[trigger] place(
                atoms,
                m,
                j,
            ) && (atoms[l].predicate.domains[i] != atoms[m].predicate.domains[j] || atoms[l].predicate.sizes[i]
                != atoms[m].predicate.sizes[j]);
        let x = place(atoms, l, i) as int;
        assert(axis_domain(atoms, l, i, domains[x], sizes[x]));
        assert(axis_domain(atoms, m, j, domains[x], sizes[x]));
    }
    assert forall|x: int, y: int| !skipped(atoms, x, y) by {
        if skipped(atoms, x, y) {
            let (l, i) = choose|l: int, i: int| axis_of(atoms, l, i) && #[trigger] place(atoms, l, i) == y;
            assert(place(atoms, l, i) < sizes.len());
            assert(used(atoms, x));
        }
    }
    if sizes.len() < other_sizes.len() {
        let x = sizes.len() as int;
        assert(used(atoms, x));
        let (l, i) = choose|l: int, i: int| axis_of(atoms, l, i) && #[trigger] place(atoms, l, i) == x;
        assert(place(atoms, l, i) < sizes.len());
    }
    if other_sizes.len() < sizes.len() {
        let x = other_sizes.len() as int;
        assert(used(atoms, x));
        let (l, i) = choose|l: int, i: int| axis_of(atoms, l, i) && #[trigger] place(atoms, l, i) == x;
        assert(place(atoms, l, i) < other_sizes.len());
    }
    assert forall|x: int| 0 <= x < sizes.len() implies domains[x] == other_domains[x] && sizes[x]
        == other_sizes[x] by {
        assert(used(atoms, x));
        let (l, i) = choose|l: int, i: int| axis_of(atoms, l, i) && #[trigger] place(atoms, l, i) == x;
        assert(axis_domain(atoms, l, i, domains[x], sizes[x]));
        assert(axis_domain(atoms, l, i, other_domains[x], other_sizes[x]));
    }
    assert(domains =~= other_domains);
    assert(sizes =~= other_sizes);
}

/// Whether the domain of axis `i` of atom `l` has the given name and
/// size.
pub open spec fn axis_domain(atoms: Seq<AtomView>, l: int, i: int, name: Seq<char>, size: usize) -> bool {
    atoms[l].predicate.domains[i] == name && atoms[l].predicate.sizes[i] == size
}

/// The mathematical value of a universal formula.
pub struct FormulaView {
    /// The names of the domains of the variables.
    pub domains: Seq<Seq<char>>,
    /// The sizes of the domains of the variables.
    pub sizes: Seq<usize>,
    pub disjunction: Seq<AtomView>,
    /// The number of the first clause of the formula.
    pub cla_start: usize,
    /// The number of clauses of the formula.
    pub cla_count: usize,
}

/// A universally quantified disjunction of atoms, whose instances are the
/// clauses with the numbers from `cla_start` on.
#[derive(Debug)]
pub struct UniversalFormula {
    domains: Vec<Rc<Domain>>,
    disjunction: Vec<AtomicFormula>,
    cla_start: usize,
    cla_count: usize,
}

impl UniversalFormula {
    /// The mathematical value of the formula.
    pub closed spec fn view(&self) -> FormulaView {
        FormulaView {
            domains: Seq::new(self.domains@.len(), |x: int| self.domains@[x].spec_name()),
            sizes: sizes(self.domains@),
            disjunction: Seq::new(self.disjunction@.len(), |l: int| self.disjunction@[l]@),
            cla_start: self.cla_start,
            cla_count: self.cla_count,
        }
    }

    /// The atoms are well formed, their variables are variables of the
    /// formula of the right size, and the formula has a clause for every
    /// tuple over the domains of its variables.
    pub closed spec fn wf(&self) -> bool {
        &&& bulk_of(sizes(self.domains@)) <= usize::MAX
        &&& self.cla_count == volume_of(sizes(self.domains@))
        &&& self.cla_start + self.cla_count <= usize::MAX
        &&& forall|l: int| 0 <= l < self.disjunction@.len() ==> (#[trigger] self.disjunction@[l]).wf()
        &&& forall|l: int, i: int|
            0 <= l < self.disjunction@.len() && 0 <= i < self.disjunction@[l]@.variables.len() ==> (
            #[trigger] self.disjunction@[l]@.variables[i]) < self.domains@.len()
                && self.disjunction@[l]@.predicate.sizes[i] == self.domains@[self.disjunction@[l]@.variables[i] as int].spec_size()
    }

    /// What a well-formed formula says of its value.
    pub proof fn lemma_wf(&self)
        requires
            self.wf(),
        ensures
            self@.wf(),
    {
        assert forall|l: int, i: int|
            0 <= l < self@.disjunction.len() && 0 <= i < self@.disjunction[l].variables.len() implies (
        #[trigger] self@.disjunction[l].variables[i]) < self@.sizes.len() && self@.disjunction[l].predicate.sizes[i]
            == self@.sizes[self@.disjunction[l].variables[i] as int] by {
            assert(self.disjunction@[l]@.variables[i] < self.domains@.len());
        }
        assert forall|l: int| 0 <= l < self@.disjunction.len() implies atom_ok(#[trigger] self@.disjunction[l]) by {
            self.disjunction@[l].lemma_wf();
        }
    }

    /// Makes the disjunction of the given atoms, whose clauses have the
    /// numbers from `cla_start` on. The domain of a variable is the domain
    /// of the axes at which it stands.
    ///
    /// Fails with `ArityMismatch` if a draft has not one variable for
    /// every axis of its predicate, else with `DomainMismatch` if two axes with
    /// the same variable have domains that are not one and the same, or if
    /// a variable is left out while a later one is used, and with `TooLarge`
    /// if the numbers of the clauses leave the machine word. Whether two
    /// domains are the same is a matter of where they lie: so no domain
    /// decides where no variable stands at two axes, and the formula is not
    /// made if the domains of two axes with the same variable differ in
    /// name or size.
    #[verifier::loop_isolation(false)]
    pub fn new(disjunction: Vec<Draft>, cla_start: usize) -> (r: Result<Self, SolverError>)
        requires
            forall|l: int| 0 <= l < disjunction@.len() ==> (#[trigger] disjunction@[l]).1.wf(),
        ensures
            match r {
                Ok(formula) => {
                    &&& formula.wf()
                    &&& formula@.cla_start == cla_start
                    &&& formula@.disjunction == atoms_of(disjunction@)
                    &&& typed(formula@.disjunction, formula@.domains, formula@.sizes)
                },
                Err(e) => formula_fault(atoms_of(disjunction@), cla_start, e),
            },
            clash(atoms_of(disjunction@)) ==> r is Err,
    {
        let ghost raw = disjunction@;
        let ghost all = atoms_of(raw);
        let ghost n = all.len() as int;
        let mut k: usize = 0;
        while k < disjunction.len()
            invariant
                k <= n,
                forall|m: int| 0 <= m < k ==> (#[trigger] all[m]).predicate.sizes.len() == all[m].variables.len(),
            decreases n - k,
        {
            if disjunction[k].1.arity() != disjunction[k].2.len() {
                proof {
                    assert(all[k as int].predicate.sizes.len() != all[k as int].variables.len());
                }
                return Err(SolverError::ArityMismatch);
            }
            k += 1;
        }
        let mut slots: Vec<Option<(usize, usize)>> = Vec::new();
        let mut l: usize = 0;
        while l < disjunction.len()
            invariant
                l <= n,
                forall|m: int, j: int|
                    axis_of(all, m, j) && m < l ==> (#[trigger] place(all, m, j)) < slots@.len() && rooted(
                        all,
                        slots@[place(all, m, j) as int],
                        m,
                        j,
                    ),
                forall|x: int| 0 <= x < slots@.len() ==> anchored(all, #[trigger] slots@[x], l as int, 0, x),
                slots@.len() > 0 ==> slots@[slots@.len() - 1].is_some(),
            decreases n - l,
        {
            let count = disjunction[l].2.len();
            proof {
                assert(all[l as int].predicate.sizes.len() == all[l as int].variables.len());
            }
            let mut pos: usize = 0;
            while pos < count
                invariant
                    pos <= count,
                    forall|m: int, j: int|
                        axis_of(all, m, j) && (m < l || (m == l && j < pos)) ==> (#[trigger] place(all, m, j))
                            < slots@.len() && rooted(all, slots@[place(all, m, j) as int], m, j),
                    forall|x: int|
                        0 <= x < slots@.len() ==> anchored(all, #[trigger] slots@[x], l as int, pos as int, x),
                    slots@.len() > 0 ==> slots@[slots@.len() - 1].is_some(),
                decreases count - pos,
            {
                let idx = disjunction[l].2[pos];
                let ghost earlier = slots@;
                proof {
                    assert(place(all, l as int, pos as int) == idx);
                }
                while slots.len() <= idx
                    invariant
                        earlier.len() <= slots@.len(),
                        slots@.take(earlier.len() as int) == earlier,
                        forall|x: int| earlier.len() <= x < slots@.len() ==> (#[trigger] slots@[x]).is_none(),
                        slots@.len() <= idx + 1 || slots@.len() == earlier.len(),
                    decreases idx + 1 - slots@.len(),
                {
                    slots.push(None);
                    proof {
                        assert(slots@.take(earlier.len() as int) =~= earlier);
                    }
                }
                let ghost grown = slots@;
                proof {
                    assert forall|x: int| 0 <= x < earlier.len() implies grown[x] == earlier[x] by {
                        assert(grown.take(earlier.len() as int)[x] == earlier[x]);
                    }
                }
                match slots[idx] {
                    None => {
                        slots[idx] = Some((l, pos));
                    },
                    Some(first) => {
                        proof {
                            assert(earlier[idx as int] == Some(first));
                            assert(anchored(all, earlier[idx as int], l as int, pos as int, idx as int));
                        }
                        let dom1 = disjunction[l].1.domain(pos);
                        let dom2 = disjunction[first.0].1.domain(first.1);
                        if !dom1.ptr_eq(dom2) {
                            proof {
                                assert(axis_of(all, l as int, pos as int));
                                assert(place(all, first.0 as int, first.1 as int) == place(all, l as int, pos as int));
                                assert(shared(all));
                            }
                            return Err(SolverError::DomainMismatch);
                        }
                    },
                }
                proof {
                    let after = slots@;
                    assert forall|m: int, j: int|
                        axis_of(all, m, j) && (m < l || (m == l && j < pos + 1)) implies (#[trigger] place(
                            all,
                            m,
                            j,
                        )) < after.len() && rooted(all, after[place(all, m, j) as int], m, j) by {
                        if m == l && j == pos {
                            if idx < earlier.len() {
                                assert(grown[idx as int] == earlier[idx as int]);
                            }
                        } else {
                            assert(rooted(all, earlier[place(all, m, j) as int], m, j));
                            if place(all, m, j) == idx {
                                assert(grown[idx as int] == earlier[idx as int]);
                            }
                        }
                    }
                    assert forall|x: int| 0 <= x < after.len() implies anchored(
                        all,
                        #[trigger] after[x],
                        l as int,
                        pos + 1,
                        x,
                    ) by {
                        if x < earlier.len() {
                            assert(anchored(all, earlier[x], l as int, pos as int, x));
                            assert(grown[x] == earlier[x]);
                        }
                    }
                }
                pos += 1;
            }
            proof {
                assert forall|x: int| 0 <= x < slots@.len() implies anchored(all, #[trigger] slots@[x], l + 1, 0, x) by {
                    assert(anchored(all, slots@[x], l as int, count as int, x));
                }
            }
            l += 1;
        }
        let mut domains: Vec<Rc<Domain>> = Vec::new();
        let mut x: usize = 0;
        while x < slots.len()
            invariant
                x <= slots@.len(),
                domains@.len() == x,
                forall|y: int| 0 <= y < x ==> held(all, slots@[y], #[trigger] domains@[y]),
            decreases slots@.len() - x,
        {
            match slots[x] {
                None => {
                    proof {
                        let y = slots@.len() - 1;
                        assert(anchored(all, slots@[y], n, 0, y));
                        let last = slots@[y].unwrap();
                        assert(place(all, last.0 as int, last.1 as int) == y);
                        assert(used(all, y));
                        if used(all, x as int) {
                            let (m, j) = choose|m: int, j: int| axis_of(all, m, j) && #[trigger] place(all, m, j) == x;
                            assert(rooted(all, slots@[place(all, m, j) as int], m, j));
                        }
                        assert(skipped(all, x as int, y));
                    }
                    return Err(SolverError::DomainMismatch);
                },
                Some(first) => {
                    proof {
                        assert(anchored(all, slots@[x as int], n, 0, x as int));
                    }
                    let ghost sofar = domains@;
                    let domain = share(disjunction[first.0].1.domain(first.1));
                    domains.push(domain);
                    proof {
                        assert forall|y: int| 0 <= y < x + 1 implies held(all, slots@[y], #[trigger] domains@[y]) by {
                            if y < x {
                                assert(domains@[y] == sofar[y]);
                            }
                        }
                    }
                },
            }
            x += 1;
        }
        let ghost chosen = domains@;
        let ghost names = Seq::new(chosen.len(), |x: int| chosen[x].spec_name());
        proof {
            assert forall|m: int, j: int| axis_of(all, m, j) implies (#[trigger] place(all, m, j)) < chosen.len()
                && axis_domain(
                all,
                m,
                j,
                chosen[place(all, m, j) as int].spec_name(),
                chosen[place(all, m, j) as int].spec_size(),
            ) by {
                let y = place(all, m, j) as int;
                assert(rooted(all, slots@[y], m, j));
                assert(held(all, slots@[y], chosen[y]));
            }
            assert forall|y: int| 0 <= y < chosen.len() implies #[trigger] used(all, y) by {
                assert(held(all, slots@[y], chosen[y]));
                assert(anchored(all, slots@[y], n, 0, y));
                let first = slots@[y].unwrap();
                assert(axis_of(all, first.0 as int, first.1 as int));
                assert(place(all, first.0 as int, first.1 as int) == y);
            }
            assert(typed(all, names, sizes(chosen)));
        }
        let counted = count_tuples(&domains);
        if counted.is_none() {
            return Err(SolverError::TooLarge);
        }
        let cla_count = counted.unwrap();
        if cla_count > usize::MAX - cla_start {
            return Err(SolverError::TooLarge);
        }
        let mut atoms: Vec<AtomicFormula> = Vec::new();
        let mut drafts = disjunction;
        let mut k: usize = drafts.len();
        let mut reversed: Vec<AtomicFormula> = Vec::new();
        while k > 0
            invariant
                k <= n,
                drafts@ == raw.take(k as int),
                reversed@.len() == n - k,
                forall|j: int|
                    0 <= j < n - k ==> (#[trigger] reversed@[j]).wf() && reversed@[j]@ == (all[n - 1 - j]),
            decreases k,
        {
            let draft = drafts.pop().unwrap();
            k -= 1;
            proof {
                assert(draft == raw[k as int]);
                assert(drafts@ =~= raw.take(k as int));
                assert(raw[k as int].1.wf());
                assert(all[k as int].predicate.sizes.len() == all[k as int].variables.len());
            }
            reversed.push(AtomicFormula::new(draft.0, draft.1, draft.2));
        }
        while reversed.len() > 0
            invariant
                reversed@.len() + atoms@.len() == n,
                forall|j: int|
                    0 <= j < reversed@.len() ==> (#[trigger] reversed@[j]).wf() && reversed@[j]@ == (all[n - 1 - j]),
                forall|j: int|
                    0 <= j < atoms@.len() ==> (#[trigger] atoms@[j]).wf() && atoms@[j]@ == (all[j]),
            decreases reversed@.len(),
        {
            let ghost before = atoms@;
            let ghost at = reversed@.len() - 1;
            let atom = reversed.pop().unwrap();
            atoms.push(atom);
            proof {
                assert forall|j: int| 0 <= j < atoms@.len() implies (#[trigger] atoms@[j]).wf() && atoms@[j]@ == (
                all[j]) by {
                    if j < before.len() {
                        assert(atoms@[j] == before[j]);
                    }
                }
            }
        }
        let formula = Self { domains, disjunction: atoms, cla_start, cla_count };
        proof {
            lemma_typed(all, names, sizes(chosen), names, sizes(chosen));
            assert(formula@.domains =~= names);
            assert(formula@.disjunction =~= all);
            assert forall|l: int, i: int|
                0 <= l < formula.disjunction@.len() && 0 <= i < formula.disjunction@[l]@.variables.len() implies (
            #[trigger] formula.disjunction@[l]@.variables[i]) < formula.domains@.len()
                && formula.disjunction@[l]@.predicate.sizes[i] == formula.domains@[formula.disjunction@[l]@.variables[i] as int].spec_size() by {
                assert(axis_of(all, l, i));
                assert(place(all, l, i) == formula.disjunction@[l]@.variables[i]);
            }
        }
        Ok(formula)
    }

    /// The number of variables of the formula.
    pub fn arity(&self) -> (r: usize)
        ensures
            r == self@.sizes.len(),
    {
        self.domains.len()
    }

    /// The domain of the variable with the given number.
    pub fn domain(&self, var: usize) -> (r: &Rc<Domain>)
        requires
            var < self@.sizes.len(),
        ensures
            r.spec_size() == self@.sizes[var as int],
            r.spec_name() == self@.domains[var as int],
    {
        &self.domains[var]
    }

    /// The atom with the given number.
    pub fn disjunction(&self, pos: usize) -> (r: &AtomicFormula)
        requires
            self.wf(),
            pos < self@.disjunction.len(),
        ensures
            r.wf(),
            r@ == self@.disjunction[pos as int],
    {
        &self.disjunction[pos]
    }

    /// The number of atoms.
    pub fn atom_count(&self) -> (r: usize)
        ensures
            r == self@.disjunction.len(),
    {
        self.disjunction.len()
    }

    /// The number of clauses of the formula.
    pub fn cla_count(&self) -> (r: usize)
        ensures
            r == self@.cla_count,
    {
        self.cla_count
    }

    /// The number of the first clause of the formula.
    pub fn cla_start(&self) -> (r: usize)
        ensures
            r == self@.cla_start,
    {
        self.cla_start
    }

    /// Sets the coordinates of the clause with the given number within the
    /// formula.
    pub fn get_coords(&self, offset: usize, coords: &mut Vec<Coord>)
        requires
            self.wf(),
            old(coords)@.len() == self@.sizes.len(),
            offset < self@.cla_count,
        ensures
            numbers(final(coords)@) == coords_of(self@.sizes, offset as nat),
            valid_coords(self@.sizes, numbers(final(coords)@)),
    {
        get_coords(&self.domains, offset, coords);
    }

    /// The number within the formula of the clause with the given
    /// coordinates.
    pub fn get_offset(&self, coords: &Vec<Coord>) -> (r: usize)
        requires
            self.wf(),
            valid_coords(self@.sizes, numbers(coords@)),
        ensures
            r == flat_index(self@.sizes, numbers(coords@)),
            r < self@.cla_count,
    {
        get_offset(&self.domains, coords)
    }
}

/// Whether the atom has a variable for every axis of its predicate, and
/// its predicate an atom for every tuple.
pub open spec fn atom_ok(atom: AtomView) -> bool {
    &&& atom.predicate.sizes.len() == atom.variables.len()
    &&& bulk_of(atom.predicate.sizes) <= usize::MAX
    &&& atom.predicate.var_count == volume_of(atom.predicate.sizes)
    &&& atom.predicate.var_start + atom.predicate.var_count <= usize::MAX / 2
}

impl FormulaView {
    /// The atoms are well formed, their variables are variables of the
    /// formula of the right size, and the formula has a clause for every
    /// tuple over the domains of its variables.
    pub open spec fn wf(self) -> bool {
        &&& bulk_of(self.sizes) <= usize::MAX
        &&& self.cla_count == volume_of(self.sizes)
        &&& self.cla_start + self.cla_count <= usize::MAX
        &&& forall|l: int| 0 <= l < self.disjunction.len() ==> atom_ok(#[trigger] self.disjunction[l])
        &&& forall|l: int, i: int|
            0 <= l < self.disjunction.len() && 0 <= i < self.disjunction[l].variables.len() ==> (
            #[trigger] self.disjunction[l].variables[i]) < self.sizes.len() && self.disjunction[l].predicate.sizes[i]
                == self.sizes[self.disjunction[l].variables[i] as int]
    }
}

/// Whether the slot holds an axis of a draft that has the domain of the
/// axis `(m, j)`.
pub open spec fn rooted(atoms: Seq<AtomView>, slot: Option<(usize, usize)>, m: int, j: int) -> bool {
    slot matches Some(first) && axis_of(atoms, first.0 as int, first.1 as int) && atoms[first.0 as int].predicate.domains[first.1 as int]
        == atoms[m].predicate.domains[j] && atoms[first.0 as int].predicate.sizes[first.1 as int] == atoms[m].predicate.sizes[j]
}

/// Whether the slot, if it holds an axis, holds one that comes before
/// axis `pos` of draft `upto`, at which the variable `x` stands, and whose
/// draft has an index for every axis of its predicate.
pub open spec fn anchored(atoms: Seq<AtomView>, slot: Option<(usize, usize)>, upto: int, pos: int, x: int) -> bool {
    slot matches Some(first) ==> axis_of(atoms, first.0 as int, first.1 as int) && (first.0 < upto || (first.0
        == upto && first.1 < pos)) && place(atoms, first.0 as int, first.1 as int) == x
        && atoms[first.0 as int].predicate.sizes.len() == atoms[first.0 as int].variables.len()
}

/// Whether the slot holds an axis of a draft whose domain is the given one.
pub open spec fn held(atoms: Seq<AtomView>, slot: Option<(usize, usize)>, domain: Rc<Domain>) -> bool {
    slot matches Some(first) && domain.spec_name() == atoms[first.0 as int].predicate.domains[first.1 as int]
        && domain.spec_size() == atoms[first.0 as int].predicate.sizes[first.1 as int]
}

/// An instance of a formula: the formula with a value for every one of
/// its variables.
#[derive(Debug)]
pub struct Clause<'a> {
    formula: &'a Rc<UniversalFormula>,
    coords: Vec<Coord>,
}

impl<'a> Clause<'a> {
    /// The formula of the clause.
    pub closed spec fn spec_formula(&self) -> FormulaView {
        self.formula@
    }

    /// The values of the variables.
    pub closed spec fn spec_coords(&self) -> Seq<usize> {
        numbers(self.coords@)
    }

    /// The formula is well formed, and there is a value for every one of
    /// its variables.
    pub closed spec fn wf(&self) -> bool {
        &&& self.formula.wf()
        &&& self.coords@.len() == self.formula@.sizes.len()
    }

    /// Whether every value is an element of the domain of its variable.
    pub open spec fn grounded(&self) -> bool {
        valid_coords(self.spec_formula().sizes, self.spec_coords())
    }

    /// Makes the instance of the formula with the given values of its
    /// variables.
    pub fn new(formula: &'a Rc<UniversalFormula>, coords: Vec<Coord>) -> (r: Self)
        requires
            formula.wf(),
            coords@.len() == formula@.sizes.len(),
        ensures
            r.wf(),
            r.spec_formula() == formula@,
            r.spec_coords() == numbers(coords@),
    {
        Self { formula, coords }
    }

    /// The number of the clause.
    pub fn idx(&self) -> (r: ClauseIdx)
        requires
            self.wf(),
            self.grounded(),
        ensures
            r.0 == self.spec_formula().cla_start + flat_index(self.spec_formula().sizes, self.spec_coords()),
    {
        let cla_offset = self.formula.get_offset(&self.coords);
        ClauseIdx(self.formula.cla_start() + cla_offset)
    }

    /// The literals of the clause: for every atom of the formula, the atom
    /// of its predicate at the values of its variables, with its sign.
    pub fn literals(&self) -> (r: Vec<Literal<'a>>)
        requires
            self.wf(),
            self.grounded(),
        ensures
            r@.len() == self.spec_formula().disjunction.len(),
            forall|l: int|
                0 <= l < r@.len() ==> (#[trigger] r@[l]).wf() && r@[l].spec_negated()
                    == self.spec_formula().disjunction[l].negated && r@[l].spec_predicate()
                    == self.spec_formula().disjunction[l].predicate && r@[l].spec_coords() == picked(
                    self.spec_coords(),
                    self.spec_formula().disjunction[l].variables,
                ),
    {
        let formula: &'a Rc<UniversalFormula> = self.formula;
        let mut literals: Vec<Literal<'a>> = Vec::new();
        let mut l: usize = 0;
        proof {
            formula.lemma_wf();
        }
        while l < formula.atom_count()
            invariant
                l <= formula@.disjunction.len(),
                formula == self.formula,
                formula@.wf(),
                self.wf(),
                self.grounded(),
                literals@.len() == l,
                forall|m: int|
                    0 <= m < l ==> (#[trigger] literals@[m]).wf() && literals@[m].spec_negated()
                        == formula@.disjunction[m].negated && literals@[m].spec_predicate()
                        == formula@.disjunction[m].predicate && literals@[m].spec_coords() == picked(
                        numbers(self.coords@),
                        formula@.disjunction[m].variables,
                    ),
            decreases formula@.disjunction.len() - l,
        {
            let atom = formula.disjunction(l);
            let ghost goal = picked(numbers(self.coords@), atom@.variables);
            proof {
                lemma_picked(formula@, l as int, numbers(self.coords@));
            }
            let variables = atom.variables();
            let mut taken: Vec<Coord> = Vec::new();
            let mut i: usize = 0;
            while i < variables.len()
                invariant
                    i <= variables@.len(),
                    variables@ == atom@.variables,
                    goal == picked(numbers(self.coords@), variables@),
                    forall|i: int| 0 <= i < variables@.len() ==> (#[trigger] variables@[i]) < self.coords@.len(),
                    taken@.len() == i,
                    numbers(taken@) == goal.take(i as int),
                decreases variables@.len() - i,
            {
                let ghost sofar = taken@;
                taken.push(self.coords[variables[i]]);
                proof {
                    assert forall|k: int| 0 <= k < i + 1 implies numbers(taken@)[k] == goal.take(i + 1)[k] by {
                        if k < i {
                            assert(taken@[k] == sofar[k]);
                            assert(numbers(sofar)[k] == goal.take(i as int)[k]);
                        }
                    }
                    assert(numbers(taken@) =~= goal.take(i + 1));
                }
                i += 1;
            }
            proof {
                assert(numbers(taken@) =~= goal);
            }
            let ghost before = literals@;
            let literal = Literal::new(atom.negated(), atom.predicate(), taken);
            literals.push(literal);
            proof {
                assert forall|m: int| 0 <= m < l + 1 implies (#[trigger] literals@[m]).wf()
                    && literals@[m].spec_negated() == formula@.disjunction[m].negated
                    && literals@[m].spec_predicate() == formula@.disjunction[m].predicate
                    && literals@[m].spec_coords() == picked(
                    numbers(self.coords@),
                    formula@.disjunction[m].variables,
                ) by {
                    if m < l {
                        assert(literals@[m] == before[m]);
                    }
                }
            }
            l += 1;
        }
        literals
    }

    /// Gives up the clause and hands out the values of its variables.
    pub fn destroy(self) -> (r: Vec<Coord>)
        ensures
            numbers(r@) == self.spec_coords(),
    {
        self.coords
    }
}

/// The values of the variables at the axes of an atom of a formula are
/// coordinates of an atom of its predicate.
pub proof fn lemma_picked(formula: FormulaView, atom: int, coords: Seq<usize>)
    requires
        formula.wf(),
        0 <= atom < formula.disjunction.len(),
        valid_coords(formula.sizes, coords),
    ensures
        forall|i: int|
            0 <= i < formula.disjunction[atom].variables.len() ==> (#[trigger] formula.disjunction[atom].variables[i])
                < coords.len(),
        valid_coords(formula.disjunction[atom].predicate.sizes, picked(coords, formula.disjunction[atom].variables)),
{
    let a = formula.disjunction[atom];
    assert(atom_ok(a));
    assert forall|i: int| 0 <= i < a.variables.len() implies (#[trigger] a.variables[i]) < coords.len() && picked(
        coords,
        a.variables,
    )[i] < a.predicate.sizes[i] by {
        assert(formula.disjunction[atom].variables[i] < formula.sizes.len());
        assert(coords[a.variables[i] as int] < formula.sizes[a.variables[i] as int]);
    }
}

} // verus!
