//! Literals and universally quantified clauses with their evaluation buffers.
//!
//! A clause has one cell for every assignment of elements to its variables.
//! The cell holds the evaluation of the disjunction of the literals under
//! the current truth values of their atoms.

use crate::bitops::{
    and_value, binary, eval_and, fold_neg, fold_pos, lemma_entry_range, lemma_eval_and, lemma_fold_neg,
    lemma_fold_pos, Bit2, BOOL_FALSE, BOOL_TRUE, BOOL_UNDEF, EVAL_FALSE, EVAL_TRUE, EVAL_UNDEF,
    EVAL_UNIT, FOLD_NEG, FOLD_POS,
};
use crate::buffer::Buffer2;
use crate::shape::{
    bulk_of, canonical_axes, coords_of, fits_lengths, flat_index, lemma_bulk, lemma_canonical,
    lemma_coords_of, lemma_flat_index, lemma_polymer, lemma_simplified_positions, lengths_of,
    nth_position, polymer_axes, pull_coords, simplified_axes, span, stride_sum, valid_coords,
    volume_of, Shape, ShapeIter,
};
use crate::solver::domain::{Dom, Var};
use crate::solver::error::SolverError;
use crate::solver::state::{Reason, ReasonView, State, StateView};
use vstd::prelude::*;

verus! {

/// The mathematical value of a literal.
pub struct LiteralView {
    /// Whether the literal is positive.
    pub sign: bool,
    /// The number of the variable.
    pub variable: usize,
    /// The side lengths of the table of the variable.
    pub lengths: Seq<usize>,
    /// The position at which the table of the variable begins.
    pub offset: usize,
    /// For every axis of the variable, the variable of the clause that
    /// stands there.
    pub axes: Seq<usize>,
}

impl LiteralView {
    /// The axes of the sweep over the index space of a clause with the given
    /// side lengths, before they are simplified.
    pub open spec fn sweep(self, frame: Seq<usize>) -> Seq<(usize, usize)> {
        polymer_axes(canonical_axes(self.lengths), frame, self.axes, self.axes.len() as int)
    }

    /// The literal fits a clause with the given side lengths: every axis of
    /// the variable is as long as the variable of the clause that stands
    /// there, and the sweep stays within the machine word.
    pub open spec fn wf(self, frame: Seq<usize>) -> bool {
        &&& self.offset + bulk_of(self.lengths) <= usize::MAX
        &&& bulk_of(frame) <= usize::MAX
        &&& fits_lengths(canonical_axes(self.lengths), frame, self.axes)
        &&& forall|x: int|
            0 <= x < frame.len() ==> stride_sum(
                canonical_axes(self.lengths),
                self.axes,
                x,
                self.axes.len() as int,
            ) <= usize::MAX
        &&& self.offset + span(self.sweep(frame)) <= usize::MAX
    }

    /// The table of the variable lies within an assignment of `count` atoms.
    pub open spec fn within(self, count: nat) -> bool {
        self.offset + volume_of(self.lengths) <= count
    }

    /// The position of the atom of the literal under the given values of the
    /// variables of the clause.
    pub open spec fn position(self, coords: Seq<usize>) -> nat {
        self.offset as nat + flat_index(self.lengths, pull_coords(coords, self.axes))
    }

    /// The evaluation of a disjunction after this literal, whose atom has
    /// the propositional value `b`, joins a disjunction that evaluated to `e`.
    pub open spec fn fold(self, e: nat, b: nat) -> nat {
        binary(
            if self.sign {
                FOLD_POS
            } else {
                FOLD_NEG
            },
            e,
            b,
        )
    }

    /// The position of the atom lies in the table of the variable, and the
    /// sweep arrives there at the cell of these values.
    pub proof fn lemma_position(self, frame: Seq<usize>, index: nat)
        requires
            self.wf(frame),
            index < volume_of(frame),
        ensures
            self.offset <= self.position(coords_of(frame, index)) < self.offset + volume_of(self.lengths),
            self.offset + nth_position(simplified_axes(self.sweep(frame)), index) == self.position(
                coords_of(frame, index),
            ),
            valid_coords(frame, coords_of(frame, index)),
            valid_coords(self.lengths, pull_coords(coords_of(frame, index), self.axes)),
    {
        let coords = coords_of(frame, index);
        let table = canonical_axes(self.lengths);
        lemma_coords_of(frame, index);
        lemma_bulk(self.lengths);
        lemma_canonical(self.lengths, pull_coords(coords, self.axes));
        lemma_polymer(table, frame, self.axes, coords);
        lemma_flat_index(self.lengths, pull_coords(coords, self.axes));
        assert(lengths_of(self.sweep(frame)) =~= frame);
        lemma_simplified_positions(self.sweep(frame));
    }
}

/// A signed atom of a clause: a variable with, for every one of its axes,
/// the variable of the clause that stands there.
pub struct Literal {
    variable: Var,
    shape: Shape,
    axes: Vec<usize>,
    positions: ShapeIter,
    sign: bool,
    frame: Ghost<Seq<usize>>,
}

impl Literal {
    /// The mathematical value of the literal.
    pub closed spec fn view(&self) -> LiteralView {
        LiteralView {
            sign: self.sign,
            variable: self.variable.0,
            lengths: self.shape.spec_lengths(),
            offset: self.shape.spec_offset(),
            axes: self.axes@,
        }
    }

    /// The side lengths of the clause that the literal was made for.
    pub closed spec fn spec_frame(&self) -> Seq<usize> {
        self.frame@
    }

    /// The literal fits its clause, and its sweep is prepared.
    pub closed spec fn wf(&self) -> bool {
        &&& self@.wf(self.frame@)
        &&& self.shape.wf()
        &&& self.positions.wf()
        &&& self.positions.spec_axes() == simplified_axes(self@.sweep(self.frame@))
        &&& self.positions.spec_offset() == self.shape.spec_offset()
    }

    /// A well-formed literal has a well-formed value.
    pub proof fn lemma_wf(&self)
        requires
            self.wf(),
        ensures
            self@.wf(self.spec_frame()),
    {
    }

    /// Makes the literal of a clause with the given shape from a sign, a
    /// variable with the shape of its table, and the variables of the clause
    /// that stand at the axes of the variable.
    ///
    /// Fails with `ArityMismatch` if there is not one variable of the clause
    /// for every axis, with `DomainMismatch` if one of them is not a
    /// variable of the clause or has another length than its axis, and with
    /// `TooLarge` if the sweep leaves the machine word.
    pub fn new(shape: &Shape, sign: bool, var: Var, table: &Shape, axes: Vec<usize>) -> (r: Result<
        Literal,
        SolverError,
    >)
        requires
            shape.wf(),
            table.wf(),
        ensures
            r matches Ok(lit) ==> lit.wf() && lit.spec_frame() == shape.spec_lengths() && lit@ == (
            LiteralView {
                sign,
                variable: var.0,
                lengths: table.spec_lengths(),
                offset: table.spec_offset(),
                axes: axes@,
            }),
            r matches Err(e) ==> e == Self::refusal(shape.spec_lengths(), table.spec_lengths(), table.spec_offset(), axes@),
            r.is_ok() == (LiteralView {
                sign,
                variable: var.0,
                lengths: table.spec_lengths(),
                offset: table.spec_offset(),
                axes: axes@,
            }).wf(shape.spec_lengths()),
    {
        let ghost frame = shape.spec_lengths();
        let ghost lengths = table.spec_lengths();
        let ghost model = LiteralView {
            sign,
            variable: var.0,
            lengths,
            offset: table.spec_offset(),
            axes: axes@,
        };
        proof {
            lemma_canonical(lengths, lengths);
            lemma_bulk(frame);
        }
        let n = axes.len();
        if n != table.dimension() {
            return Err(SolverError::ArityMismatch);
        }
        let mut i: usize = 0;
        while i < n
            invariant
                i <= n,
                n == axes@.len(),
                n == lengths.len(),
                lengths == table.spec_lengths(),
                frame == shape.spec_lengths(),
                forall|k: int|
                    0 <= k < i ==> (#[trigger] axes@[k]) < frame.len() && lengths[k] == frame[axes@[k] as int],
            decreases n - i,
        {
            if axes[i] >= shape.dimension() || table.length(i) != shape.length(axes[i]) {
                proof {
                    assert(!(axes@[i as int] < frame.len() && canonical_axes(lengths)[i as int].0
                        == frame[axes@[i as int] as int]));
                }
                return Err(SolverError::DomainMismatch);
            }
            i += 1;
        }
        proof {
            assert(fits_lengths(canonical_axes(lengths), frame, axes@));
        }
        let view = table.view();
        let polymer = view.checked_polymer(shape, axes.as_slice());
        if polymer.is_none() {
            return Err(SolverError::TooLarge);
        }
        let positions = polymer.unwrap().simplify().positions();
        Ok(Literal { variable: var, shape: table.duplicate(), axes, positions, sign, frame: Ghost(frame) })
    }

    /// Why a literal cannot be made.
    pub open spec fn refusal(frame: Seq<usize>, lengths: Seq<usize>, offset: usize, axes: Seq<usize>) -> SolverError {
        if axes.len() != lengths.len() {
            SolverError::ArityMismatch
        } else if !fits_lengths(canonical_axes(lengths), frame, axes) {
            SolverError::DomainMismatch
        } else {
            SolverError::TooLarge
        }
    }

    /// Whether the literal is positive.
    pub fn sign(&self) -> (r: bool)
        ensures
            r == self@.sign,
    {
        self.sign
    }

    /// The handle of the variable of the literal.
    pub fn variable(&self) -> (r: Var)
        ensures
            r.0 == self@.variable,
    {
        self.variable
    }

    /// The variables of the clause that stand at the axes of the variable.
    pub fn variables(&self) -> (r: &Vec<usize>)
        ensures
            r@ == self@.axes,
    {
        &self.axes
    }

    /// The number of axes of the variable.
    pub fn arity(&self) -> (r: usize)
        ensures
            r == self@.axes.len(),
    {
        self.axes.len()
    }

    /// Folds the values of the atoms of the literal into the cells of the
    /// evaluation buffer of its clause.
    pub fn evaluate(&mut self, state: &State, target: &mut Buffer2)
        requires
            old(self).wf(),
            state.wf(),
            old(self)@.within(state@.assignment.len()),
            old(target).wf(),
            old(target)@.len() == volume_of(old(self).spec_frame()),
        ensures
            final(self).wf(),
            final(self)@ == old(self)@,
            final(self).spec_frame() == old(self).spec_frame(),
            final(target).wf(),
            final(target).padding() == old(target).padding(),
            final(target)@ == Seq::new(
                old(target)@.len(),
                |n: int|
                    old(self)@.fold(
                        old(target)@[n],
                        state@.assignment[old(self)@.position(coords_of(old(self).spec_frame(), n as nat)) as int],
                    ),
            ),
    {
        let ghost model = self@;
        let ghost frame = self.frame@;
        self.positions.reset();
        let op = if self.sign {
            fold_pos()
        } else {
            fold_neg()
        };
        proof {
            let pending = self.positions.spec_remaining();
            assert(lengths_of(model.sweep(frame)) =~= frame);
            lemma_simplified_positions(model.sweep(frame));
            assert(pending.len() == volume_of(frame));
            assert forall|i: int| 0 <= i < pending.len() implies pending[i] == model.position(
                coords_of(frame, i as nat),
            ) && pending[i] < state@.assignment.len() by {
                model.lemma_position(frame, i as nat);
            }
        }
        let ghost pending = self.positions.spec_remaining();
        let ghost before = target@;
        target.apply(op, state.assignment(), &mut self.positions);
        proof {
            assert(target@ =~= Seq::new(
                before.len(),
                |n: int|
                    model.fold(
                        before[n],
                        state@.assignment[model.position(coords_of(frame, n as nat)) as int],
                    ),
            ));
        }
    }

    /// The position of the atom of the literal under the given values of
    /// the variables of the clause.
    pub fn position(&self, coordinates: &[usize]) -> (r: usize)
        requires
            self.wf(),
            valid_coords(self.spec_frame(), coordinates@),
        ensures
            r == self@.position(coordinates@),
            self@.offset <= r < self@.offset + volume_of(self@.lengths),
    {
        let ghost goal = pull_coords(coordinates@, self.axes@);
        let mut pulled: Vec<usize> = Vec::new();
        let mut i: usize = 0;
        while i < self.axes.len()
            invariant
                i <= self.axes@.len(),
                self.wf(),
                valid_coords(self.frame@, coordinates@),
                goal == pull_coords(coordinates@, self.axes@),
                pulled@ == goal.take(i as int),
            decreases self.axes@.len() - i,
        {
            proof {
                assert(self.axes@[i as int] < self.frame@.len());
            }
            pulled.push(coordinates[self.axes[i]]);
            proof {
                assert(pulled@ =~= goal.take(i + 1));
            }
            i += 1;
        }
        proof {
            assert(pulled@ =~= goal);
            assert forall|k: int| 0 <= k < self.shape.spec_lengths().len() implies goal[k]
                < self.shape.spec_lengths()[k] by {
                assert(self.axes@[k] < self.frame@.len());
                assert(canonical_axes(self.shape.spec_lengths())[k].0 == self.frame@[self.axes@[k] as int]);
                assert(coordinates@[self.axes@[k] as int] < self.frame@[self.axes@[k] as int]);
            }
        }
        self.shape.position(pulled.as_slice())
    }
}

/// The evaluation of the disjunction of the first `upto` literals under the
/// given values of the variables of the clause.
pub open spec fn cell_value(
    literals: Seq<LiteralView>,
    assignment: Seq<nat>,
    coords: Seq<usize>,
    upto: int,
) -> nat
    decreases upto,
{
    if upto <= 0 {
        EVAL_FALSE as nat
    } else {
        literals[upto - 1].fold(
            cell_value(literals, assignment, coords, upto - 1),
            assignment[literals[upto - 1].position(coords) as int],
        )
    }
}

/// The smallest of the given evaluation values, or true if there is none.
pub open spec fn lowest(cells: Seq<nat>) -> nat
    decreases cells.len(),
{
    if cells.len() == 0 {
        EVAL_TRUE as nat
    } else {
        and_value(lowest(cells.drop_last()), cells.last())
    }
}

/// The number of literals among the first `upto` whose atom has no value.
pub open spec fn open_count(literals: Seq<LiteralView>, assignment: Seq<nat>, coords: Seq<usize>, upto: int) -> nat
    decreases upto,
{
    if upto <= 0 {
        0
    } else {
        open_count(literals, assignment, coords, upto - 1) + if assignment[literals[upto
            - 1].position(coords) as int] == BOOL_UNDEF {
            1nat
        } else {
            0nat
        }
    }
}

/// The first literal among the first `upto` whose atom has no value, or
/// `upto` if there is none.
pub open spec fn open_literal(literals: Seq<LiteralView>, assignment: Seq<nat>, coords: Seq<usize>, upto: int) -> int
    decreases upto,
{
    if upto <= 0 {
        0
    } else if open_count(literals, assignment, coords, upto - 1) > 0 {
        open_literal(literals, assignment, coords, upto - 1)
    } else {
        upto - 1
    }
}

/// The positions of the atoms that have a value, of the first `upto`
/// literals, in their order.
pub open spec fn closed_positions(
    literals: Seq<LiteralView>,
    assignment: Seq<nat>,
    coords: Seq<usize>,
    upto: int,
) -> Seq<usize>
    decreases upto,
{
    if upto <= 0 {
        Seq::empty()
    } else if assignment[literals[upto - 1].position(coords) as int] == BOOL_UNDEF {
        closed_positions(literals, assignment, coords, upto - 1)
    } else {
        closed_positions(literals, assignment, coords, upto - 1).push(
            literals[upto - 1].position(coords) as usize,
        )
    }
}

/// The mathematical value of a clause.
pub struct ClauseView {
    /// The sizes of the domains of the variables of the clause.
    pub lengths: Seq<usize>,
    /// The domains of the variables of the clause.
    pub domains: Seq<Dom>,
    /// The literals of the clause.
    pub literals: Seq<LiteralView>,
    /// The cells of the evaluation buffer.
    pub cells: Seq<nat>,
}

/// How a scan for units ended: with the state it left, and with the status
/// of the cells it saw, or with nothing if the unit invariant was broken.
pub struct Scan {
    pub state: StateView,
    pub status: Option<nat>,
}

impl ClauseView {
    /// The literals fit the clause, and there is one cell for every
    /// assignment of elements to the variables.
    pub open spec fn wf(self) -> bool {
        &&& bulk_of(self.lengths) <= usize::MAX
        &&& self.domains.len() == self.lengths.len()
        &&& self.cells.len() == volume_of(self.lengths)
        &&& forall|k: int| 0 <= k < self.literals.len() ==> (#[trigger] self.literals[k]).wf(self.lengths)
    }

    /// The tables of all literals lie within an assignment of `count` atoms.
    pub open spec fn within(self, count: nat) -> bool {
        forall|k: int| 0 <= k < self.literals.len() ==> (#[trigger] self.literals[k]).within(count)
    }

    /// The cells of the clause under the given assignment.
    pub open spec fn evaluated(self, assignment: Seq<nat>) -> Seq<nat> {
        Seq::new(
            volume_of(self.lengths),
            |n: int|
                cell_value(self.literals, assignment, coords_of(self.lengths, n as nat), self.literals.len() as int),
        )
    }

    /// The state after the unit cell at the given values of the variables
    /// was handled: unchanged if no literal is without a value, with the
    /// atom of the one such literal made to satisfy it, and nothing if there
    /// are more.
    pub open spec fn unit_step(self, state: StateView, coords: Seq<usize>) -> Option<StateView> {
        let all = self.literals.len() as int;
        let count = open_count(self.literals, state.assignment, coords, all);
        let k = open_literal(self.literals, state.assignment, coords, all);
        if count == 0 {
            Some(state)
        } else if count == 1 {
            Some(
                state.assigned(
                    self.literals[k].position(coords) as usize,
                    self.literals[k].sign,
                    ReasonView::Clause(closed_positions(self.literals, state.assignment, coords, all)),
                ),
            )
        } else {
            None
        }
    }

    /// The scan of the cells from the cell `from` on, in a state, where
    /// `status` is the smallest value of the cells before. A cell that is
    /// false ends the scan; a cell that is a unit is handled.
    pub open spec fn scan(self, state: StateView, from: int, status: nat) -> Scan
        decreases self.cells.len() - from,
    {
        if from < 0 || from >= self.cells.len() {
            Scan { state, status: Some(status) }
        } else if self.cells[from] == EVAL_FALSE {
            Scan { state, status: Some(EVAL_FALSE as nat) }
        } else if self.cells[from] == EVAL_UNIT {
            match self.unit_step(state, coords_of(self.lengths, from as nat)) {
                None => Scan { state, status: None },
                Some(next) => self.scan(next, from + 1, and_value(status, self.cells[from])),
            }
        } else {
            self.scan(state, from + 1, and_value(status, self.cells[from]))
        }
    }

    /// Whether `index` is the first cell that is false.
    pub open spec fn first_false(self, index: int) -> bool {
        &&& 0 <= index < self.cells.len()
        &&& self.cells[index] == EVAL_FALSE
        &&& forall|j: int| 0 <= j < index ==> self.cells[j] != EVAL_FALSE
    }

    /// The positions of the atoms of all literals at the cell `index`.
    pub open spec fn positions_at(self, index: int) -> Seq<usize> {
        Seq::new(
            self.literals.len(),
            |k: int| self.literals[k].position(coords_of(self.lengths, index as nat)) as usize,
        )
    }
}

/// A universally quantified disjunction of literals, with the buffer that
/// holds its evaluation for every assignment of elements to its variables.
pub struct Clause {
    domains: Vec<Dom>,
    literals: Vec<Literal>,
    shape: Shape,
    buffer: Buffer2,
}

impl Clause {
    /// The mathematical value of the clause.
    pub closed spec fn view(&self) -> ClauseView {
        ClauseView {
            lengths: self.shape.spec_lengths(),
            domains: self.domains@,
            literals: Seq::new(self.literals@.len(), |k: int| self.literals@[k]@),
            cells: self.buffer@,
        }
    }

    /// The clause and its literals are well formed, and its shape begins
    /// at position zero.
    pub closed spec fn wf(&self) -> bool {
        &&& self@.wf()
        &&& self.shape.wf()
        &&& self.shape.spec_offset() == 0
        &&& self.buffer.wf()
        &&& forall|k: int|
            0 <= k < self.literals@.len() ==> (#[trigger] self.literals@[k]).wf() && self.literals@[k].spec_frame()
                == self.shape.spec_lengths()
    }

    /// A well-formed clause has a well-formed value.
    pub proof fn lemma_wf(&self)
        requires
            self.wf(),
        ensures
            self@.wf(),
    {
    }

    /// Makes a clause from its shape, the domains of its variables and
    /// its literals. All cells are false at first.
    pub fn new(shape: Shape, domains: Vec<Dom>, literals: Vec<Literal>) -> (r: Self)
        requires
            shape.wf(),
            shape.spec_offset() == 0,
            volume_of(shape.spec_lengths()) + 15 <= usize::MAX,
            domains@.len() == shape.spec_lengths().len(),
            forall|k: int|
                0 <= k < literals@.len() ==> (#[trigger] literals@[k]).wf() && literals@[k].spec_frame()
                    == shape.spec_lengths(),
        ensures
            r.wf(),
            r@.lengths == shape.spec_lengths(),
            r@.domains == domains@,
            r@.literals == Seq::new(literals@.len(), |k: int| literals@[k]@),
            r@.cells == Seq::new(volume_of(shape.spec_lengths()), |n: int| EVAL_FALSE as nat),
    {
        let buffer = Buffer2::new(shape.volume(), Bit2::new(EVAL_FALSE));
        proof {
            lemma_bulk(shape.spec_lengths());
        }
        Self { shape, domains, literals, buffer }
    }

    /// The domains of the variables of the clause.
    pub fn domains(&self) -> (r: &Vec<Dom>)
        ensures
            r@ == self@.domains,
    {
        &self.domains
    }

    /// The literals of the clause.
    pub fn literals(&self) -> (r: &Vec<Literal>)
        ensures
            r@.len() == self@.literals.len(),
            forall|k: int| 0 <= k < r@.len() ==> r@[k]@ == self@.literals[k],
    {
        &self.literals
    }

    /// The number of cells of the clause.
    pub fn volume(&self) -> (r: usize)
        ensures
            r == self@.cells.len(),
    {
        self.buffer.len()
    }

    /// The value of the cell with the given number.
    pub fn cell(&self, index: usize) -> (r: Bit2)
        requires
            self.wf(),
            index < self@.cells.len(),
        ensures
            r@ == self@.cells[index as int],
    {
        self.buffer.get(index)
    }

    /// Computes the cells of the clause under the assignment of the state.
    pub fn evaluate(&mut self, state: &State)
        requires
            old(self).wf(),
            state.wf(),
            old(self)@.within(state@.assignment.len()),
        ensures
            final(self).wf(),
            final(self)@ == (ClauseView { cells: old(self)@.evaluated(state@.assignment), ..old(self)@ }),
    {
        let ghost model = self@;
        let ghost assignment = state@.assignment;
        self.buffer.fill(Bit2::new(EVAL_FALSE));
        let n = self.literals.len();
        let mut i: usize = 0;
        while i < n
            invariant
                i <= n,
                n == self.literals@.len(),
                self.wf(),
                state.wf(),
                assignment == state@.assignment,
                model.within(assignment.len()),
                self@.lengths == model.lengths,
                self@.domains == model.domains,
                self@.literals == model.literals,
                self@.cells == Seq::new(
                    volume_of(model.lengths),
                    |m: int| cell_value(model.literals, assignment, coords_of(model.lengths, m as nat), i as int),
                ),
            decreases n - i,
        {
            let ghost before = self.literals@;
            let ghost cells = self.buffer@;
            proof {
                assert(model.literals[i as int] == self.literals@[i as int]@);
                assert(model.literals[i as int].within(assignment.len()));
            }
            self.literals[i].evaluate(state, &mut self.buffer);
            proof {
                assert forall|k: int| 0 <= k < n implies (#[trigger] self.literals@[k]).wf()
                    && self.literals@[k].spec_frame() == self.shape.spec_lengths() && self.literals@[k]@
                    == model.literals[k] by {
                    if k != i {
                        assert(self.literals@[k] == before[k]);
                    }
                    assert(model.literals[k] == before[k]@);
                }
                assert(self@.literals =~= model.literals);
                assert(self@.cells =~= Seq::new(
                    volume_of(model.lengths),
                    |m: int|
                        cell_value(model.literals, assignment, coords_of(model.lengths, m as nat), i + 1),
                ));
            }
            i += 1;
        }
    }

    /// The smallest value of the cells: false if a cell is false, else unit
    /// if a cell is a unit, else undefined if a cell is undefined, else true.
    pub fn get_status(&self) -> (r: Bit2)
        requires
            self.wf(),
        ensures
            r@ == lowest(self@.cells),
    {
        let mut res = Bit2::new(EVAL_TRUE);
        let n = self.buffer.len();
        let mut pos: usize = 0;
        proof {
            assert(self.buffer@.take(0) =~= Seq::empty());
        }
        while pos < n
            invariant
                pos <= n,
                n == self.buffer@.len(),
                self.wf(),
                res@ <= 3,
                res@ == lowest(self.buffer@.take(pos as int)),
            decreases n - pos,
        {
            let val = self.buffer.get(pos);
            proof {
                assert(self.buffer@.take(pos + 1).drop_last() =~= self.buffer@.take(pos as int));
                self.buffer.lemma_view();
                lemma_eval_and(res@, val@);
            }
            res = eval_and().of(res, val);
            pos += 1;
        }
        proof {
            assert(self.buffer@.take(n as int) =~= self.buffer@);
        }
        res
    }

    /// Scans the cells for units. For every cell that is a unit the one
    /// literal without a value is satisfied, with the positions of the other
    /// literals as the reason; a cell whose literals all have a value is
    /// passed over. The scan stops at a cell that is false. The result is
    /// the smallest value of the cells that were seen.
    ///
    /// Fails with `UnitInvariantBroken` if a unit cell has two literals
    /// without a value.
    #[verifier::loop_isolation(false)]
    pub fn propagate(&self, state: &mut State) -> (r: Result<Bit2, SolverError>)
        requires
            self.wf(),
            old(state).wf(),
            self@.within(old(state)@.assignment.len()),
        ensures
            final(state).wf(),
            final(state)@ == self@.scan(old(state)@, 0, EVAL_TRUE as nat).state,
            match r {
                Ok(status) => self@.scan(old(state)@, 0, EVAL_TRUE as nat).status == Some(status@),
                Err(e) => e == SolverError::UnitInvariantBroken && self@.scan(
                    old(state)@,
                    0,
                    EVAL_TRUE as nat,
                ).status.is_none(),
            },
    {
        let ghost model = self@;
        let ghost start = state@;
        let ghost goal = model.scan(start, 0, EVAL_TRUE as nat);
        let mut coordinates: Vec<usize> = Vec::new();
        let dim = self.shape.dimension();
        while coordinates.len() < dim
            invariant
                coordinates@.len() <= dim,
            decreases dim - coordinates@.len(),
        {
            coordinates.push(0);
        }
        let mut res = Bit2::new(EVAL_TRUE);
        let n = self.buffer.len();
        let count = self.literals.len();
        let mut pos: usize = 0;
        while pos < n
            invariant
                pos <= n,
                n == model.cells.len(),
                state.wf(),
                state@.assignment.len() == start.assignment.len(),
                coordinates@.len() == dim,
                res@ <= 3,
                model.scan(state@, pos as int, res@) == goal,
            decreases n - pos,
        {
            let val = self.buffer.get(pos);
            proof {
                self.buffer.lemma_view();
                lemma_eval_and(res@, val@);
                lemma_bulk(model.lengths);
            }
            if val == Bit2::new(EVAL_FALSE) {
                return Ok(val);
            }
            if val == Bit2::new(EVAL_UNIT) {
                self.shape.coordinates(pos, &mut coordinates);
                let ghost coords = coordinates@;
                let ghost now = state@;
                let mut unit: usize = 0;
                let mut sign: Option<bool> = None;
                let mut reason: Vec<usize> = Vec::new();
                let mut k: usize = 0;
                while k < count
                    invariant
                        k <= count,
                        coordinates@ == coords,
                        state@ == now,
                        sign.is_some() == (open_count(model.literals, now.assignment, coords, k as int) == 1),
                        open_count(model.literals, now.assignment, coords, k as int) <= 1,
                        sign matches Some(s) ==> {
                            let j = open_literal(model.literals, now.assignment, coords, k as int);
                            &&& 0 <= j < k
                            &&& s == model.literals[j].sign
                            &&& unit == model.literals[j].position(coords)
                            &&& unit < now.assignment.len()
                            &&& now.assignment[unit as int] == BOOL_UNDEF
                        },
                        reason@ == closed_positions(model.literals, now.assignment, coords, k as int),
                    decreases count - k,
                {
                    proof {
                        assert(model.literals[k as int] == self.literals@[k as int]@);
                        assert(model.literals[k as int].within(now.assignment.len()));
                        assert(model.literals[k as int].wf(model.lengths));
                        model.literals[k as int].lemma_position(model.lengths, pos as nat);
                    }
                    let bvar = self.literals[k].position(coordinates.as_slice());
                    if state.assignment().get(bvar) == Bit2::new(BOOL_UNDEF) {
                        if sign.is_some() {
                            proof {
                                assert(open_count(model.literals, now.assignment, coords, k + 1) == 2);
                                lemma_open_count_grows(model.literals, now.assignment, coords, k + 1, count as int);
                            }
                            return Err(SolverError::UnitInvariantBroken);
                        }
                        sign = Some(self.literals[k].sign());
                        unit = bvar;
                    } else {
                        reason.push(bvar);
                    }
                    k += 1;
                }
                if sign.is_some() {
                    state.assign(unit, sign.unwrap(), Reason::Clause(reason));
                }
            }
            res = eval_and().of(res, val);
            pos += 1;
        }
        Ok(res)
    }

    /// The positions of the atoms of all literals at the first cell that is
    /// false, or nothing if no cell is false.
    #[verifier::loop_isolation(false)]
    pub fn get_failure(&self) -> (r: Option<Vec<usize>>)
        requires
            self.wf(),
        ensures
            r.is_none() <==> forall|j: int| 0 <= j < self@.cells.len() ==> self@.cells[j] != EVAL_FALSE,
            r matches Some(positions) ==> exists|index: int|
                #[trigger] self@.first_false(index) && positions@ == self@.positions_at(index),
    {
        let ghost model = self@;
        let n = self.buffer.len();
        let mut pos: usize = 0;
        while pos < n
            invariant
                pos <= n,
                forall|j: int| 0 <= j < pos ==> model.cells[j] != EVAL_FALSE,
            decreases n - pos,
        {
            if self.buffer.get(pos) == Bit2::new(EVAL_FALSE) {
                let mut coordinates: Vec<usize> = Vec::new();
                let dim = self.shape.dimension();
                while coordinates.len() < dim
                    invariant
                        coordinates@.len() <= dim,
                    decreases dim - coordinates@.len(),
                {
                    coordinates.push(0);
                }
                proof {
                    lemma_bulk(model.lengths);
                }
                self.shape.coordinates(pos, &mut coordinates);
                let mut positions: Vec<usize> = Vec::new();
                let mut k: usize = 0;
                while k < self.literals.len()
                    invariant
                        k <= self.literals@.len(),
                        positions@ == model.positions_at(pos as int).take(k as int),
                        coordinates@ == coords_of(model.lengths, pos as nat),
                    decreases self.literals@.len() - k,
                {
                    proof {
                        assert(model.literals[k as int] == self.literals@[k as int]@);
                        model.literals[k as int].lemma_position(model.lengths, pos as nat);
                    }
                    positions.push(self.literals[k].position(coordinates.as_slice()));
                    proof {
                        assert(positions@ =~= model.positions_at(pos as int).take(k + 1));
                    }
                    k += 1;
                }
                proof {
                    assert(positions@ =~= model.positions_at(pos as int));
                    assert(model.first_false(pos as int));
                }
                return Some(positions);
            }
            pos += 1;
        }
        None
    }
}

/// The number of literals without a value does not fall when more literals
/// are counted.
pub proof fn lemma_open_count_grows(
    literals: Seq<LiteralView>,
    assignment: Seq<nat>,
    coords: Seq<usize>,
    from: int,
    upto: int,
)
    requires
        from <= upto,
    ensures
        open_count(literals, assignment, coords, from) <= open_count(literals, assignment, coords, upto),
    decreases upto - from,
{
    if from < upto {
        lemma_open_count_grows(literals, assignment, coords, from, upto - 1);
    }
}


/// The smallest of some evaluation values is none of them exceeded, and it
/// is one of them unless it is true.
pub proof fn lemma_lowest(cells: Seq<nat>)
    ensures
        lowest(cells) <= 3,
        forall|j: int| 0 <= j < cells.len() ==> lowest(cells) <= #[trigger] cells[j],
        lowest(cells) == EVAL_TRUE || exists|j: int| 0 <= j < cells.len() && #[trigger] cells[j] == lowest(cells),
    decreases cells.len(),
{
    if cells.len() > 0 {
        let front = cells.drop_last();
        lemma_lowest(front);
        assert forall|j: int| 0 <= j < cells.len() implies lowest(cells) <= #[trigger] cells[j] by {
            if j < front.len() {
                assert(front[j] == cells[j]);
            }
        }
        if lowest(cells) != EVAL_TRUE {
            if lowest(cells) == cells.last() {
                assert(cells[cells.len() - 1] == lowest(cells));
            } else {
                let j = choose|j: int| 0 <= j < front.len() && #[trigger] front[j] == lowest(front);
                assert(cells[j] == lowest(cells));
            }
        }
    }
}

/// If a literal is without a value, the first such literal is one of
/// them.
pub proof fn lemma_open_literal(literals: Seq<LiteralView>, assignment: Seq<nat>, coords: Seq<usize>, upto: int)
    requires
        open_count(literals, assignment, coords, upto) > 0,
    ensures
        0 <= open_literal(literals, assignment, coords, upto) < upto,
        assignment[literals[open_literal(literals, assignment, coords, upto)].position(coords) as int]
            == BOOL_UNDEF,
    decreases upto,
{
    if upto > 0 {
        if open_count(literals, assignment, coords, upto - 1) > 0 {
            lemma_open_literal(literals, assignment, coords, upto - 1);
        }
    }
}

impl ClauseView {
    /// Handling a unit cell keeps a well-formed state well formed, and
    /// adds at most one step to its trail.
    pub proof fn lemma_unit_step(self, state: StateView, index: nat)
        requires
            self.wf(),
            state.wf(),
            self.within(state.assignment.len()),
            state.assignment.len() <= usize::MAX,
            index < volume_of(self.lengths),
        ensures
            self.unit_step(state, coords_of(self.lengths, index)) matches Some(next) ==> {
                &&& next.wf()
                &&& next.assignment.len() == state.assignment.len()
                &&& next.levels == state.levels
                &&& next.trail.len() >= state.trail.len()
                &&& next.trail.take(state.trail.len() as int) == state.trail
                &&& forall|p: int|
                    0 <= p < state.assignment.len() && state.assignment[p] != BOOL_UNDEF ==> next.assignment[p]
                        == state.assignment[p]
            },
    {
        let coords = coords_of(self.lengths, index);
        let all = self.literals.len() as int;
        let count = open_count(self.literals, state.assignment, coords, all);
        if count == 1 {
            lemma_open_literal(self.literals, state.assignment, coords, all);
            let k = open_literal(self.literals, state.assignment, coords, all);
            let lit = self.literals[k];
            assert(lit.wf(self.lengths));
            assert(lit.within(state.assignment.len()));
            lit.lemma_position(self.lengths, index);
            let pos = lit.position(coords) as usize;
            let reason = ReasonView::Clause(closed_positions(self.literals, state.assignment, coords, all));
            state.lemma_assigned(pos, lit.sign, reason);
            let next = state.assigned(pos, lit.sign, reason);
            assert(next.trail.take(state.trail.len() as int) =~= state.trail);
        } else if count == 0 {
            assert(state.trail.take(state.trail.len() as int) =~= state.trail);
        }
    }

    /// What a scan leaves: a well-formed state that extends the state it
    /// began in, and, unless the unit invariant was broken, the smallest
    /// value of the cells. A scan that finds neither a false cell nor a
    /// unit changes nothing.
    pub proof fn lemma_scan(self, state: StateView, from: int, status: nat)
        requires
            self.wf(),
            state.wf(),
            self.within(state.assignment.len()),
            state.assignment.len() <= usize::MAX,
            0 <= from <= self.cells.len(),
            forall|j: int| 0 <= j < self.cells.len() ==> #[trigger] self.cells[j] <= 3,
            status == lowest(self.cells.take(from)),
        ensures
            ({
                let r = self.scan(state, from, status);
                &&& r.state.wf()
                &&& r.state.assignment.len() == state.assignment.len()
                &&& r.state.levels == state.levels
                &&& r.state.trail.len() >= state.trail.len()
                &&& r.state.trail.take(state.trail.len() as int) == state.trail
                &&& forall|p: int|
                    0 <= p < state.assignment.len() && state.assignment[p] != BOOL_UNDEF ==> r.state.assignment[p]
                        == state.assignment[p]
                &&& r.status matches Some(v) ==> v == lowest(self.cells)
                &&& r.status matches Some(v) ==> v >= 2 ==> r.state == state
            }),
        decreases self.cells.len() - from,
    {
        lemma_lowest(self.cells);
        lemma_lowest(self.cells.take(from));
        if from >= self.cells.len() {
            assert(self.cells.take(from) =~= self.cells);
            assert(state.trail.take(state.trail.len() as int) =~= state.trail);
        } else if self.cells[from] == EVAL_FALSE {
            assert(state.trail.take(state.trail.len() as int) =~= state.trail);
        } else {
            assert(self.cells.take(from + 1).drop_last() =~= self.cells.take(from));
            let next_status = and_value(status, self.cells[from]);
            if self.cells[from] == EVAL_UNIT {
                self.lemma_unit_step(state, from as nat);
                match self.unit_step(state, coords_of(self.lengths, from as nat)) {
                    None => {
                        assert(state.trail.take(state.trail.len() as int) =~= state.trail);
                    },
                    Some(next) => {
                        self.lemma_scan(next, from + 1, next_status);
                        let r = self.scan(next, from + 1, next_status);
                        assert(r.state.trail.take(state.trail.len() as int) =~= state.trail) by {
                            assert forall|j: int| 0 <= j < state.trail.len() implies r.state.trail[j]
                                == state.trail[j] by {
                                assert(r.state.trail.take(next.trail.len() as int)[j] == next.trail[j]);
                                assert(next.trail.take(state.trail.len() as int)[j] == state.trail[j]);
                            }
                        }
                    },
                }
            } else {
                self.lemma_scan(state, from + 1, next_status);
            }
        }
    }
}


/// The evaluation of a disjunction is an evaluation value.
pub proof fn lemma_cell_range(literals: Seq<LiteralView>, assignment: Seq<nat>, coords: Seq<usize>, upto: int)
    ensures
        cell_value(literals, assignment, coords, upto) <= 3,
{
    if upto > 0 {
        let lit = literals[upto - 1];
        let e = cell_value(literals, assignment, coords, upto - 1);
        let b = assignment[lit.position(coords) as int];
        lemma_entry_range(FOLD_POS, 8 * e + 2 * b);
        lemma_entry_range(FOLD_NEG, 8 * e + 2 * b);
    }
}


/// The number of literals among the first `upto` that are true: that are
/// positive with a true atom, or negative with a false atom.
pub open spec fn true_count(literals: Seq<LiteralView>, assignment: Seq<nat>, coords: Seq<usize>, upto: int) -> nat
    decreases upto,
{
    if upto <= 0 {
        0
    } else {
        true_count(literals, assignment, coords, upto - 1) + if assignment[literals[upto - 1].position(
            coords,
        ) as int] == (if literals[upto - 1].sign {
            BOOL_TRUE
        } else {
            BOOL_FALSE
        }) {
            1nat
        } else {
            0nat
        }
    }
}

/// The evaluation of a disjunction with so many true literals and so many
/// literals without a value: true if a literal is true, else false if
/// every literal has a value, else a unit if one literal has none, else
/// undefined.
pub open spec fn classify(trues: nat, opens: nat) -> nat {
    if trues > 0 {
        EVAL_TRUE as nat
    } else if opens == 0 {
        EVAL_FALSE as nat
    } else if opens == 1 {
        EVAL_UNIT as nat
    } else {
        EVAL_UNDEF as nat
    }
}

/// Whether the atoms of the first `upto` literals are false, undefined or
/// true.
pub open spec fn proper(literals: Seq<LiteralView>, assignment: Seq<nat>, coords: Seq<usize>, upto: int) -> bool {
    forall|k: int| 0 <= k < upto ==> assignment[(#[trigger] literals[k]).position(coords) as int] <= 2
}

/// The value of a cell says how many of its literals are true and how
/// many are without a value.
pub proof fn lemma_cell_value(literals: Seq<LiteralView>, assignment: Seq<nat>, coords: Seq<usize>, upto: int)
    requires
        0 <= upto <= literals.len(),
        proper(literals, assignment, coords, upto),
    ensures
        cell_value(literals, assignment, coords, upto) == classify(
            true_count(literals, assignment, coords, upto),
            open_count(literals, assignment, coords, upto),
        ),
    decreases upto,
{
    if upto > 0 {
        lemma_cell_value(literals, assignment, coords, upto - 1);
        let lit = literals[upto - 1];
        let e = cell_value(literals, assignment, coords, upto - 1);
        let b = assignment[lit.position(coords) as int];
        assert(b <= 2);
        lemma_fold_pos(e, b);
        lemma_fold_neg(e, b);
    }
}

/// A literal without a value in a later state was without a value before:
/// no more literals are without a value in a state that continues another.
pub proof fn lemma_open_count_falls(
    literals: Seq<LiteralView>,
    before: Seq<nat>,
    after: Seq<nat>,
    coords: Seq<usize>,
    upto: int,
)
    requires
        0 <= upto <= literals.len(),
        before.len() == after.len(),
        forall|k: int| 0 <= k < upto ==> (#[trigger] literals[k]).position(coords) < before.len(),
        forall|p: int| 0 <= p < before.len() && before[p] != BOOL_UNDEF ==> #[trigger] after[p] == before[p],
    ensures
        open_count(literals, after, coords, upto) <= open_count(literals, before, coords, upto),
    decreases upto,
{
    if upto > 0 {
        lemma_open_count_falls(literals, before, after, coords, upto - 1);
        let p = literals[upto - 1].position(coords) as int;
        if before[p] != BOOL_UNDEF {
            assert(after[p] == before[p]);
        }
    }
}

impl ClauseView {
    /// The positions of all literals at a cell lie within the assignment.
    pub proof fn lemma_positions(self, count: nat, index: nat)
        requires
            self.wf(),
            self.within(count),
            index < volume_of(self.lengths),
        ensures
            forall|k: int|
                0 <= k < self.literals.len() ==> (#[trigger] self.literals[k]).position(
                    coords_of(self.lengths, index),
                ) < count,
    {
        assert forall|k: int| 0 <= k < self.literals.len() implies (#[trigger] self.literals[k]).position(
            coords_of(self.lengths, index),
        ) < count by {
            assert(self.literals[k].wf(self.lengths));
            assert(self.literals[k].within(count));
            self.literals[k].lemma_position(self.lengths, index);
        }
    }

    /// A scan of cells that the assignment of an earlier state evaluates
    /// to does not break the unit invariant.
    pub proof fn lemma_scan_holds(self, origin: StateView, state: StateView, from: int, status: nat)
        requires
            self.wf(),
            origin.wf(),
            state.wf(),
            self.within(state.assignment.len()),
            state.assignment.len() <= usize::MAX,
            origin.assignment.len() == state.assignment.len(),
            forall|p: int|
                0 <= p < origin.assignment.len() && origin.assignment[p] != BOOL_UNDEF ==> #[trigger] state.assignment[p]
                    == origin.assignment[p],
            self.cells == self.evaluated(origin.assignment),
            0 <= from <= self.cells.len(),
        ensures
            self.scan(state, from, status).status.is_some(),
        decreases self.cells.len() - from,
    {
        if from < self.cells.len() && self.cells[from] != EVAL_FALSE {
            let next_status = and_value(status, self.cells[from]);
            if self.cells[from] == EVAL_UNIT {
                let coords = coords_of(self.lengths, from as nat);
                let all = self.literals.len() as int;
                self.lemma_positions(state.assignment.len(), from as nat);
                origin.lemma_wf();
                assert(proper(self.literals, origin.assignment, coords, all));
                lemma_cell_value(self.literals, origin.assignment, coords, all);
                lemma_open_count_falls(self.literals, origin.assignment, state.assignment, coords, all);
                self.lemma_unit_step(state, from as nat);
                let next = self.unit_step(state, coords).unwrap();
                assert forall|p: int|
                    0 <= p < origin.assignment.len() && origin.assignment[p] != BOOL_UNDEF implies #[trigger] next.assignment[p]
                    == origin.assignment[p] by {
                    assert(state.assignment[p] == origin.assignment[p]);
                }
                self.lemma_scan_holds(origin, next, from + 1, next_status);
            } else {
                self.lemma_scan_holds(origin, state, from + 1, next_status);
            }
        }
    }

    /// A scan of cells that the assignment of the state evaluates to
    /// lengthens the trail if a cell from `from` on is a unit and no cell
    /// is false.
    pub proof fn lemma_scan_moves(self, state: StateView, from: int, status: nat)
        requires
            self.wf(),
            state.wf(),
            self.within(state.assignment.len()),
            state.assignment.len() <= usize::MAX,
            self.cells == self.evaluated(state.assignment),
            0 <= from <= self.cells.len(),
            forall|j: int| 0 <= j < self.cells.len() ==> #[trigger] self.cells[j] != EVAL_FALSE,
            exists|j: int| from <= j < self.cells.len() && #[trigger] self.cells[j] == EVAL_UNIT,
            status == lowest(self.cells.take(from)),
        ensures
            self.scan(state, from, status).state.trail.len() > state.trail.len(),
        decreases self.cells.len() - from,
    {
        let j = choose|j: int| from <= j < self.cells.len() && #[trigger] self.cells[j] == EVAL_UNIT;
        let next_status = and_value(status, self.cells[from]);
        assert(self.cells.take(from + 1).drop_last() =~= self.cells.take(from));
        assert forall|i: int| 0 <= i < self.cells.len() implies #[trigger] self.cells[i] <= 3 by {
            lemma_cell_range(
                self.literals,
                state.assignment,
                coords_of(self.lengths, i as nat),
                self.literals.len() as int,
            );
        }
        if self.cells[from] == EVAL_UNIT {
            let coords = coords_of(self.lengths, from as nat);
            let all = self.literals.len() as int;
            self.lemma_positions(state.assignment.len(), from as nat);
            state.lemma_wf();
            assert(proper(self.literals, state.assignment, coords, all));
            lemma_cell_value(self.literals, state.assignment, coords, all);
            self.lemma_unit_step(state, from as nat);
            let next = self.unit_step(state, coords).unwrap();
            assert(next.trail.len() == state.trail.len() + 1);
            self.lemma_scan(next, from + 1, next_status);
        } else {
            assert(self.cells[j] == EVAL_UNIT);
            self.lemma_scan_moves(state, from + 1, next_status);
        }
    }
}


/// Where every atom of the first `upto` literals has a value, no literal
/// is without one, and the cell is false or true.
pub proof fn lemma_settled_cell(literals: Seq<LiteralView>, assignment: Seq<nat>, coords: Seq<usize>, upto: int)
    requires
        0 <= upto <= literals.len(),
        forall|k: int|
            0 <= k < upto ==> assignment[(#[trigger] literals[k]).position(coords) as int] <= 2 && assignment[literals[k].position(
                coords,
            ) as int] != BOOL_UNDEF,
    ensures
        open_count(literals, assignment, coords, upto) == 0,
        cell_value(literals, assignment, coords, upto) == EVAL_FALSE || cell_value(
            literals,
            assignment,
            coords,
            upto,
        ) == EVAL_TRUE,
    decreases upto,
{
    if upto > 0 {
        lemma_settled_cell(literals, assignment, coords, upto - 1);
        assert(proper(literals, assignment, coords, upto));
        lemma_cell_value(literals, assignment, coords, upto);
    }
}

impl ClauseView {
    /// Where every atom has a value, the cells of the clause evaluate to
    /// false or true, and so does its status.
    pub proof fn lemma_settled(self, state: StateView)
        requires
            self.wf(),
            state.wf(),
            state.complete(),
            self.within(state.assignment.len()),
        ensures
            lowest(self.evaluated(state.assignment)) == EVAL_FALSE || lowest(self.evaluated(state.assignment))
                == EVAL_TRUE,
    {
        let cells = self.evaluated(state.assignment);
        state.lemma_wf();
        assert forall|n: int| 0 <= n < cells.len() implies #[trigger] cells[n] == EVAL_FALSE || cells[n]
            == EVAL_TRUE by {
            self.lemma_positions(state.assignment.len(), n as nat);
            lemma_settled_cell(
                self.literals,
                state.assignment,
                coords_of(self.lengths, n as nat),
                self.literals.len() as int,
            );
        }
        lemma_lowest(cells);
    }
}

} // verus!
