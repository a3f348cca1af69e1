//! Axioms of existence: along the last axis of a variable, every fiber
//! must hold an atom that is true. Such an axiom marks a relation as the
//! graph of a function that is defined everywhere.

use crate::bitops::{
    and_value, binary, eval_and, fold_pos, lemma_entry_range, lemma_eval_and, lemma_fold_pos, Bit2,
    BOOL_UNDEF, EVAL_FALSE, EVAL_TRUE, EVAL_UNDEF, EVAL_UNIT, FOLD_POS,
};
use crate::shape::{bulk_of, lemma_bulk, volume_of, Shape};
use crate::solver::domain::Var;
use crate::solver::state::{Reason, ReasonView, State, StateView};
use vstd::prelude::*;

verus! {

/// The evaluation of the disjunction of the atoms at the `count` positions
/// from `start` on.
pub open spec fn fiber_value(assignment: Seq<nat>, start: int, count: int) -> nat
    decreases count,
{
    if count <= 0 {
        EVAL_FALSE as nat
    } else {
        binary(FOLD_POS, fiber_value(assignment, start, count - 1), assignment[start + count - 1])
    }
}

/// The last position without a value among the `count` positions from
/// `start` on, if there is one.
pub open spec fn fiber_open(assignment: Seq<nat>, start: int, count: int) -> Option<int>
    decreases count,
{
    if count <= 0 {
        None
    } else if assignment[start + count - 1] == BOOL_UNDEF {
        Some(start + count - 1)
    } else {
        fiber_open(assignment, start, count - 1)
    }
}

/// The status of a fiber: its evaluation, where a unit counts as undefined.
pub open spec fn fiber_status(assignment: Seq<nat>, start: int, count: int) -> nat {
    if fiber_value(assignment, start, count) == EVAL_UNIT {
        EVAL_UNDEF as nat
    } else {
        fiber_value(assignment, start, count)
    }
}

/// The mathematical value of an axiom of existence.
pub struct ExistView {
    /// The number of the variable.
    pub variable: usize,
    /// The side lengths of the table of the variable.
    pub lengths: Seq<usize>,
    /// The position at which the table of the variable begins.
    pub offset: usize,
}

/// How the propagation of an axiom ended: with the state it left and the
/// smallest evaluation of the fibers it saw.
pub struct Sweep {
    pub state: StateView,
    pub status: nat,
}

impl ExistView {
    /// The variable has a last axis, and its table fits the machine word.
    pub open spec fn wf(self) -> bool {
        &&& self.lengths.len() > 0
        &&& self.offset + bulk_of(self.lengths) <= usize::MAX
    }

    /// The table of the variable lies within an assignment of `count` atoms.
    pub open spec fn within(self, count: nat) -> bool {
        self.offset + volume_of(self.lengths) <= count
    }

    /// The length of a fiber.
    pub open spec fn block(self) -> int {
        self.lengths.last() as int
    }

    /// The number of fibers; an empty table has none.
    pub open spec fn fibers(self) -> int {
        if self.lengths.last() == 0 {
            0
        } else {
            volume_of(self.lengths.drop_last()) as int
        }
    }

    /// The position at which the fiber with the given number begins.
    pub open spec fn fiber_start(self, fiber: int) -> int {
        self.offset + fiber * self.block()
    }

    /// The smallest status of the first `upto` fibers, or true if there
    /// is none.
    pub open spec fn status(self, assignment: Seq<nat>, upto: int) -> nat
        decreases upto,
    {
        if upto <= 0 {
            EVAL_TRUE as nat
        } else {
            and_value(
                self.status(assignment, upto - 1),
                fiber_status(assignment, self.fiber_start(upto - 1), self.block()),
            )
        }
    }

    /// Whether `fiber` is the first fiber whose atoms are all false.
    pub open spec fn first_failure(self, assignment: Seq<nat>, fiber: int) -> bool {
        &&& 0 <= fiber < self.fibers()
        &&& fiber_value(assignment, self.fiber_start(fiber), self.block()) == EVAL_FALSE
        &&& forall|g: int|
            0 <= g < fiber ==> fiber_value(assignment, self.fiber_start(g), self.block()) != EVAL_FALSE
    }

    /// The propagation over the fibers from the fiber `from` on, in a
    /// state, where `status` is the smallest evaluation of the fibers before.
    /// A fiber that is false ends it; in a fiber that is a unit the one
    /// atom without a value becomes true.
    pub open spec fn sweep(self, state: StateView, from: int, status: nat) -> Sweep
        decreases self.fibers() - from,
    {
        if from < 0 || from >= self.fibers() {
            Sweep { state, status }
        } else {
            let start = self.fiber_start(from);
            let value = fiber_value(state.assignment, start, self.block());
            if value == EVAL_FALSE {
                Sweep { state, status: EVAL_FALSE as nat }
            } else if value == EVAL_UNIT {
                match fiber_open(state.assignment, start, self.block()) {
                    Some(pos) => self.sweep(
                        state.assigned(pos as usize, true, ReasonView::Exists),
                        from + 1,
                        and_value(status, value),
                    ),
                    None => self.sweep(state, from + 1, and_value(status, value)),
                }
            } else {
                self.sweep(state, from + 1, and_value(status, value))
            }
        }
    }

    /// The table is made of its fibers.
    pub proof fn lemma_fibers(self)
        requires
            self.wf(),
        ensures
            volume_of(self.lengths) == self.fibers() * self.block(),
            self.fibers() >= 0,
            self.block() >= 0,
            volume_of(self.lengths) == 0 ==> self.fibers() == 0,
    {
        let f = self.fibers();
        let b = self.block();
        if b == 0 {
            assert(volume_of(self.lengths.drop_last()) * 0 == 0) by (nonlinear_arith);
        } else {
            assert(f * b == 0 ==> f == 0) by (nonlinear_arith)
                requires
                    b > 0,
                    f >= 0,
            ;
        }
    }
}

/// An axiom of existence on a variable.
#[derive(Debug)]
pub struct Exist {
    variable: Var,
    shape: Shape,
}

impl Exist {
    /// The mathematical value of the axiom.
    pub closed spec fn view(&self) -> ExistView {
        ExistView {
            variable: self.variable.0,
            lengths: self.shape.spec_lengths(),
            offset: self.shape.spec_offset(),
        }
    }

    /// The shape of the table is well formed and has a last axis.
    pub closed spec fn wf(&self) -> bool {
        &&& self.shape.wf()
        &&& self@.wf()
    }

    /// A well-formed axiom has a well-formed value.
    pub proof fn lemma_wf(&self)
        requires
            self.wf(),
        ensures
            self@.wf(),
    {
    }

    /// Makes the axiom for the variable with the given handle and table.
    pub fn new(variable: Var, table: &Shape) -> (r: Self)
        requires
            table.wf(),
            table.spec_lengths().len() > 0,
        ensures
            r.wf(),
            r@ == (ExistView {
                variable: variable.0,
                lengths: table.spec_lengths(),
                offset: table.spec_offset(),
            }),
    {
        Exist { variable, shape: table.duplicate() }
    }

    /// The handle of the variable of the axiom.
    pub fn variable(&self) -> (r: Var)
        ensures
            r.0 == self@.variable,
    {
        self.variable
    }

    /// The evaluation of the fiber that begins at `start`, and the last
    /// position without a value in it.
    fn fold_fiber(state: &State, start: usize, block: usize) -> (r: (Bit2, Option<usize>))
        requires
            state.wf(),
            start + block <= state@.assignment.len(),
        ensures
            r.0@ == fiber_value(state@.assignment, start as int, block as int),
            r.0@ <= 3,
            match r.1 {
                Some(pos) => fiber_open(state@.assignment, start as int, block as int) == Some(pos as int)
                    && start <= pos < start + block && state@.assignment[pos as int] == BOOL_UNDEF,
                None => fiber_open(state@.assignment, start as int, block as int).is_none(),
            },
    {
        let mut value = Bit2::new(EVAL_FALSE);
        let mut open: Option<usize> = None;
        let mut i: usize = 0;
        while i < block
            invariant
                i <= block,
                state.wf(),
                start + block <= state@.assignment.len(),
                value@ == fiber_value(state@.assignment, start as int, i as int),
                value@ <= 3,
                match open {
                    Some(pos) => fiber_open(state@.assignment, start as int, i as int) == Some(pos as int)
                        && start <= pos < start + i && state@.assignment[pos as int] == BOOL_UNDEF,
                    None => fiber_open(state@.assignment, start as int, i as int).is_none(),
                },
            decreases block - i,
        {
            proof {
                state.lemma_wf();
            }
            let cell = state.assignment().get(start + i);
            proof {
                lemma_entry_range(FOLD_POS, 8 * value@ + 2 * cell@);
            }
            value = fold_pos().of(value, cell);
            if cell == Bit2::new(BOOL_UNDEF) {
                open = Some(start + i);
            }
            i += 1;
        }
        (value, open)
    }

    /// The status of the axiom: the smallest status of its fibers. A fiber
    /// is true if one of its atoms is true, else false if all its atoms
    /// are false, else undefined.
    pub fn get_status(&self, state: &State) -> (r: Bit2)
        requires
            self.wf(),
            state.wf(),
            self@.within(state@.assignment.len()),
        ensures
            r@ == self@.status(state@.assignment, self@.fibers()),
    {
        let ghost model = self@;
        let range = self.shape.positions();
        let block = self.shape.length(self.shape.dimension() - 1);
        proof {
            lemma_bulk(model.lengths);
            model.lemma_fibers();
        }
        let mut value1 = Bit2::new(EVAL_TRUE);
        let mut pos = range.start;
        let ghost mut fiber: int = 0;
        while pos < range.end
            invariant
                state.wf(),
                model == self@,
                model.wf(),
                model.within(state@.assignment.len()),
                block == model.block(),
                range.start == model.offset,
                range.end == model.offset + model.fibers() * model.block(),
                0 <= fiber <= model.fibers(),
                pos == model.fiber_start(fiber),
                pos < range.end ==> fiber < model.fibers(),
                pos >= range.end ==> fiber == model.fibers(),
                value1@ <= 3,
                value1@ == model.status(state@.assignment, fiber),
            decreases range.end - pos,
        {
            proof {
                lemma_fiber_step(model.offset as int, model.fibers(), model.block(), fiber);
            }
            let folded = Self::fold_fiber(state, pos, block);
            let value2 = if folded.0 == Bit2::new(EVAL_UNIT) {
                Bit2::new(EVAL_UNDEF)
            } else {
                folded.0
            };
            proof {
                lemma_eval_and(value1@, value2@);
            }
            value1 = eval_and().of(value1, value2);
            pos += block;
            proof {
                fiber = fiber + 1;
            }
        }
        value1
    }

    /// Goes through the fibers. In a fiber that is a unit, the one atom
    /// without a value becomes true, with the axiom as the reason. A fiber
    /// whose atoms are all false ends the propagation. The result is the
    /// smallest evaluation of the fibers that were seen.
    #[verifier::loop_isolation(false)]
    pub fn propagate(&self, state: &mut State) -> (r: Bit2)
        requires
            self.wf(),
            old(state).wf(),
            self@.within(old(state)@.assignment.len()),
        ensures
            final(state).wf(),
            final(state)@ == self@.sweep(old(state)@, 0, EVAL_TRUE as nat).state,
            r@ == self@.sweep(old(state)@, 0, EVAL_TRUE as nat).status,
    {
        let ghost model = self@;
        let ghost goal = model.sweep(state@, 0, EVAL_TRUE as nat);
        let range = self.shape.positions();
        let block = self.shape.length(self.shape.dimension() - 1);
        proof {
            lemma_bulk(model.lengths);
            model.lemma_fibers();
        }
        let mut result = Bit2::new(EVAL_TRUE);
        let mut pos = range.start;
        let ghost mut fiber: int = 0;
        while pos < range.end
            invariant
                state.wf(),
                model.within(state@.assignment.len()),
                0 <= fiber <= model.fibers(),
                pos == model.fiber_start(fiber),
                pos < range.end ==> fiber < model.fibers(),
                pos >= range.end ==> fiber == model.fibers(),
                result@ <= 3,
                model.sweep(state@, fiber, result@) == goal,
            decreases range.end - pos,
        {
            proof {
                lemma_fiber_step(model.offset as int, model.fibers(), model.block(), fiber);
            }
            let folded = Self::fold_fiber(state, pos, block);
            let value2 = folded.0;
            proof {
                lemma_eval_and(result@, value2@);
            }
            if value2 == Bit2::new(EVAL_FALSE) {
                return value2;
            }
            result = eval_and().of(result, value2);
            if value2 == Bit2::new(EVAL_UNIT) {
                if folded.1.is_some() {
                    state.assign(folded.1.unwrap(), true, Reason::Exists);
                }
            }
            pos += block;
            proof {
                fiber = fiber + 1;
            }
        }
        result
    }

    /// The position at which the first fiber begins whose atoms are all
    /// false, or nothing if there is no such fiber.
    #[verifier::loop_isolation(false)]
    pub fn get_failure(&self, state: &State) -> (r: Option<usize>)
        requires
            self.wf(),
            state.wf(),
            self@.within(state@.assignment.len()),
        ensures
            r.is_none() <==> forall|g: int|
                0 <= g < self@.fibers() ==> fiber_value(
                    state@.assignment,
                    #[trigger] self@.fiber_start(g),
                    self@.block(),
                ) != EVAL_FALSE,
            r matches Some(pos) ==> exists|g: int|
                #[trigger] self@.first_failure(state@.assignment, g) && pos == self@.fiber_start(g),
    {
        let ghost model = self@;
        let range = self.shape.positions();
        let block = self.shape.length(self.shape.dimension() - 1);
        proof {
            lemma_bulk(model.lengths);
            model.lemma_fibers();
        }
        let mut pos = range.start;
        let ghost mut fiber: int = 0;
        while pos < range.end
            invariant
                0 <= fiber <= model.fibers(),
                pos == model.fiber_start(fiber),
                pos < range.end ==> fiber < model.fibers(),
                pos >= range.end ==> fiber == model.fibers(),
                forall|g: int|
                    0 <= g < fiber ==> fiber_value(
                        state@.assignment,
                        #[trigger] model.fiber_start(g),
                        model.block(),
                    ) != EVAL_FALSE,
            decreases range.end - pos,
        {
            proof {
                lemma_fiber_step(model.offset as int, model.fibers(), model.block(), fiber);
            }
            let folded = Self::fold_fiber(state, pos, block);
            if folded.0 == Bit2::new(EVAL_FALSE) {
                proof {
                    assert(model.first_failure(state@.assignment, fiber));
                }
                return Some(pos);
            }
            pos += block;
            proof {
                fiber = fiber + 1;
            }
        }
        None
    }
}

/// Where the fiber with number `fiber` ends, the next one begins, and
/// both lie within the table.
pub proof fn lemma_fiber_step(offset: int, fibers: int, block: int, fiber: int)
    requires
        0 <= fiber < fibers,
        0 <= block,
    ensures
        offset + (fiber + 1) * block == offset + fiber * block + block,
        offset + (fiber + 1) * block <= offset + fibers * block,
        fiber + 1 < fibers && block > 0 ==> offset + (fiber + 1) * block < offset + fibers * block,
        fiber + 1 == fibers ==> offset + (fiber + 1) * block == offset + fibers * block,
        block > 0 ==> offset + fiber * block < offset + fibers * block,
{
    assert((fiber + 1) * block == fiber * block + block) by (nonlinear_arith);
    assert((fiber + 1) * block <= fibers * block) by (nonlinear_arith)
        requires
            fiber + 1 <= fibers,
            0 <= block,
    ;
    if block > 0 {
        assert(fiber * block < fibers * block) by (nonlinear_arith)
            requires
                fiber < fibers,
                block > 0,
        ;
        if fiber + 1 < fibers {
            assert((fiber + 1) * block < fibers * block) by (nonlinear_arith)
                requires
                    fiber + 1 < fibers,
                    block > 0,
            ;
        }
    }
}


/// What a propagation leaves: an evaluation value, and a state with as
/// many atoms.
pub proof fn lemma_sweep(exist: ExistView, state: StateView, from: int, status: nat)
    requires
        exist.wf(),
        state.wf(),
        exist.within(state.assignment.len()),
        state.assignment.len() <= usize::MAX,
        0 <= from,
        status <= 3,
    ensures
        exist.sweep(state, from, status).status <= 3,
        exist.sweep(state, from, status).state.assignment.len() == state.assignment.len(),
    decreases exist.fibers() - from,
{
    if from < exist.fibers() {
        let start = exist.fiber_start(from);
        let value = fiber_value(state.assignment, start, exist.block());
        lemma_fiber_range(state.assignment, start, exist.block());
        if value != EVAL_FALSE {
            if value == EVAL_UNIT {
                match fiber_open(state.assignment, start, exist.block()) {
                    Some(pos) => {
                        lemma_fiber_open(state.assignment, start, exist.block());
                        exist.lemma_fibers();
                        lemma_fiber_step(exist.offset as int, exist.fibers(), exist.block(), from);
                        state.lemma_assigned(pos as usize, true, ReasonView::Exists);
                        lemma_sweep(
                            exist,
                            state.assigned(pos as usize, true, ReasonView::Exists),
                            from + 1,
                            and_value(status, value),
                        );
                    },
                    None => {
                        lemma_sweep(exist, state, from + 1, and_value(status, value));
                    },
                }
            } else {
                lemma_sweep(exist, state, from + 1, and_value(status, value));
            }
        }
    }
}

/// The evaluation of a fiber is an evaluation value.
pub proof fn lemma_fiber_range(assignment: Seq<nat>, start: int, count: int)
    ensures
        fiber_value(assignment, start, count) <= 3,
{
    if count > 0 {
        lemma_entry_range(FOLD_POS, 8 * fiber_value(assignment, start, count - 1) + 2 * assignment[start + count - 1]);
    }
}

/// The last position without a value in a fiber lies in the fiber, and
/// its atom has no value.
pub proof fn lemma_fiber_open(assignment: Seq<nat>, start: int, count: int)
    ensures
        fiber_open(assignment, start, count) matches Some(pos) ==> start <= pos < start + count
            && assignment[pos] == BOOL_UNDEF,
    decreases count,
{
    if count > 0 {
        lemma_fiber_open(assignment, start, count - 1);
    }
}


/// A fiber whose atoms all have a value is false or true.
pub proof fn lemma_settled_fiber(assignment: Seq<nat>, start: int, count: int)
    requires
        forall|p: int| start <= p < start + count ==> #[trigger] assignment[p] <= 2 && assignment[p] != BOOL_UNDEF,
    ensures
        fiber_value(assignment, start, count) == EVAL_FALSE || fiber_value(assignment, start, count)
            == EVAL_TRUE,
    decreases count,
{
    if count > 0 {
        lemma_settled_fiber(assignment, start, count - 1);
        assert(assignment[start + count - 1] <= 2);
        lemma_fold_pos(fiber_value(assignment, start, count - 1), assignment[start + count - 1]);
    }
}

impl ExistView {
    /// Where every atom has a value, the status of the axiom is false or
    /// true.
    pub proof fn lemma_settled(self, state: StateView, upto: int)
        requires
            self.wf(),
            state.wf(),
            state.complete(),
            self.within(state.assignment.len()),
            0 <= upto <= self.fibers(),
        ensures
            self.status(state.assignment, upto) == EVAL_FALSE || self.status(state.assignment, upto)
                == EVAL_TRUE,
        decreases upto,
    {
        if upto > 0 {
            self.lemma_settled(state, upto - 1);
            self.lemma_fibers();
            state.lemma_wf();
            lemma_fiber_step(self.offset as int, self.fibers(), self.block(), upto - 1);
            lemma_settled_fiber(state.assignment, self.fiber_start(upto - 1), self.block());
        }
    }
}

} // verus!
