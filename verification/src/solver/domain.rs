//! Domains and the relation variables over them.

use crate::shape::{bulk_of, Shape};
use crate::solver::state::State;
use crate::bitops::BOOL_UNDEF;
use crate::shape::volume_of;
use vstd::prelude::*;

verus! {

/// The handle of a domain of a solver: its number in the order of creation.
#[derive(Debug, Clone, Copy, PartialEq, Eq, Structural)]
pub struct Dom(pub usize);

/// The handle of a variable of a solver: its number in the order of creation.
#[derive(Debug, Clone, Copy, PartialEq, Eq, Structural)]
pub struct Var(pub usize);

/// The mathematical value of a domain.
pub struct DomainView {
    pub name: Seq<char>,
    pub size: usize,
}

/// The mathematical value of a variable.
pub struct VariableView {
    pub name: Seq<char>,
    /// The handles of the domains.
    pub domains: Seq<Dom>,
    /// The side lengths of the table: the sizes of the domains.
    pub lengths: Seq<usize>,
    /// The position in the assignment at which the table begins.
    pub offset: usize,
}

/// A named finite set of elements, of which only the number matters.
#[derive(Debug)]
pub struct Domain {
    name: String,
    size: usize,
}

impl Domain {
    /// The name of the domain.
    pub closed spec fn spec_name(&self) -> Seq<char> {
        self.name@
    }

    /// The number of elements of the domain.
    pub closed spec fn spec_size(&self) -> usize {
        self.size
    }

    /// The mathematical value of the domain.
    pub open spec fn view(&self) -> DomainView {
        DomainView { name: self.spec_name(), size: self.spec_size() }
    }

    /// Makes a domain with the given name and number of elements.
    pub fn new(name: &str, size: usize) -> (r: Self)
        ensures
            r.spec_name() == name@,
            r.spec_size() == size,
    {
        Self { name: name.to_owned(), size }
    }

    /// The name of the domain.
    pub fn name(&self) -> (r: &str)
        ensures
            r@ == self.spec_name(),
    {
        self.name.as_str()
    }

    /// The number of elements of the domain.
    pub fn size(&self) -> (r: usize)
        ensures
            r == self.spec_size(),
    {
        self.size
    }

    /// Whether two handles stand for the same domain.
    pub fn eq(dom1: Dom, dom2: Dom) -> (r: bool)
        ensures
            r == (dom1 == dom2),
    {
        dom1.0 == dom2.0
    }
}

/// A named relation over some domains. Its truth values stand in a table
/// that is a block of the assignment.
#[derive(Debug)]
pub struct Variable {
    shape: Shape,
    name: String,
    domains: Vec<Dom>,
}

impl Variable {
    /// The name of the variable.
    pub closed spec fn spec_name(&self) -> Seq<char> {
        self.name@
    }

    /// The handles of the domains of the variable.
    pub closed spec fn spec_domains(&self) -> Seq<Dom> {
        self.domains@
    }

    /// The side lengths of the table of the variable.
    pub closed spec fn spec_lengths(&self) -> Seq<usize> {
        self.shape.spec_lengths()
    }

    /// The position in the assignment at which the table begins.
    pub closed spec fn spec_offset(&self) -> usize {
        self.shape.spec_offset()
    }

    /// The mathematical value of the variable.
    pub open spec fn view(&self) -> VariableView {
        VariableView {
            name: self.spec_name(),
            domains: self.spec_domains(),
            lengths: self.spec_lengths(),
            offset: self.spec_offset(),
        }
    }

    /// The table has one side for every domain, and it is well formed.
    pub closed spec fn wf(&self) -> bool {
        &&& self.shape.wf()
        &&& self.domains@.len() == self.shape.spec_lengths().len()
    }

    /// Makes a variable over the given domains, whose sizes are `sizes`,
    /// and gives it a table of atoms without values behind the atoms that
    /// exist.
    pub fn new(state: &mut State, name: &str, domains: Vec<Dom>, sizes: Vec<usize>) -> (r: Self)
        requires
            old(state).wf(),
            domains@.len() == sizes@.len(),
            old(state)@.assignment.len() + bulk_of(sizes@) + 15 <= usize::MAX,
        ensures
            final(state).wf(),
            r.wf(),
            r.spec_name() == name@,
            r.spec_domains() == domains@,
            r.spec_lengths() == sizes@,
            r.spec_offset() == old(state)@.assignment.len(),
            final(state)@.assignment == old(state)@.assignment + Seq::new(
                volume_of(sizes@),
                |i: int| BOOL_UNDEF as nat,
            ),
            final(state)@.trail == old(state)@.trail,
            final(state)@.levels == old(state)@.levels,
    {
        let shape = state.create_table(sizes);
        Self { shape, name: name.to_owned(), domains }
    }

    /// The name of the variable.
    pub fn name(&self) -> (r: &str)
        ensures
            r@ == self.spec_name(),
    {
        self.name.as_str()
    }

    /// The number of domains of the variable.
    pub fn arity(&self) -> (r: usize)
        ensures
            r == self.spec_domains().len(),
    {
        self.domains.len()
    }

    /// The handles of the domains of the variable.
    pub fn domains(&self) -> (r: &Vec<Dom>)
        ensures
            r@ == self.spec_domains(),
    {
        &self.domains
    }

    /// The shape of the table of the variable.
    pub fn shape(&self) -> (r: &Shape)
        requires
            self.wf(),
        ensures
            r.wf(),
            r.spec_lengths() == self.spec_lengths(),
            r.spec_offset() == self.spec_offset(),
    {
        &self.shape
    }
}

} // verus!
