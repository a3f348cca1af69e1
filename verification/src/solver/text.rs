//! The texts in which the solver shows its parts: diagnostic output, not
//! a format for interchange.

use crate::bitops::{Bit2, BOOL_TRUE};
use crate::shape::{coords_of, volume_of};
use crate::solver::clause::lowest;
use crate::solver::domain::{Dom, Domain, Var};
use crate::solver::driver::{Solver, SolverView};
use crate::solver::state::{Reason, ReasonView};
use vstd::prelude::*;
use vstd::string::*;

verus! {

/// The character of a digit.
pub open spec fn digit_char(d: nat) -> char {
    if d == 0 {
        '0'
    } else if d == 1 {
        '1'
    } else if d == 2 {
        '2'
    } else if d == 3 {
        '3'
    } else if d == 4 {
        '4'
    } else if d == 5 {
        '5'
    } else if d == 6 {
        '6'
    } else if d == 7 {
        '7'
    } else if d == 8 {
        '8'
    } else {
        '9'
    }
}

/// The number in the decimal system.
pub open spec fn decimal(n: nat) -> Seq<char>
    decreases n,
{
    if n < 10 {
        seq![digit_char(n)]
    } else {
        decimal(n / 10).push(digit_char(n % 10))
    }
}

/// The first `upto` parts, with the separator between them.
pub open spec fn joined(parts: Seq<Seq<char>>, separator: Seq<char>, upto: int) -> Seq<char>
    decreases upto,
{
    if upto <= 0 {
        Seq::empty()
    } else if upto == 1 {
        parts[0]
    } else {
        joined(parts, separator, upto - 1) + separator + parts[upto - 1]
    }
}

/// The numbers as a list in square brackets, with a comma and a blank
/// between them.
pub open spec fn list_text(numbers: Seq<usize>) -> Seq<char> {
    seq!['['] + joined(Seq::new(numbers.len(), |k: int| decimal(numbers[k] as nat)), seq![',', ' '], numbers.len() as int)
        + seq![']']
}

/// The numbers, each behind the letter `x`.
pub open spec fn indexed(numbers: Seq<usize>) -> Seq<Seq<char>> {
    Seq::new(numbers.len(), |k: int| seq!['x'] + decimal(numbers[k] as nat))
}

/// The glyph of a propositional value: `0` for false, `?` for undefined,
/// `1` for true and `x` for missing.
pub open spec fn glyph_of(value: nat) -> char {
    if value == 0 {
        '0'
    } else if value == 1 {
        '?'
    } else if value == 2 {
        '1'
    } else {
        'x'
    }
}

/// The name of an evaluation value.
pub open spec fn status_name(value: nat) -> Seq<char> {
    if value == 0 {
        seq!['f', 'a', 'l', 's', 'e']
    } else if value == 1 {
        seq!['u', 'n', 'i', 't']
    } else if value == 2 {
        seq!['u', 'n', 'd', 'e', 'f']
    } else {
        seq!['t', 'r', 'u', 'e']
    }
}

/// The sign of a literal: `+` or `-`.
pub open spec fn sign_char(sign: bool) -> char {
    if sign {
        '+'
    } else {
        '-'
    }
}

/// The text of a digit.
fn digit(d: usize) -> (r: &'static str)
    requires
        d < 10,
    ensures
        r@ == seq![digit_char(d as nat)],
{
    proof {
        reveal_strlit("0");
        reveal_strlit("1");
        reveal_strlit("2");
        reveal_strlit("3");
        reveal_strlit("4");
        reveal_strlit("5");
        reveal_strlit("6");
        reveal_strlit("7");
        reveal_strlit("8");
        reveal_strlit("9");
    }
    let r = if d == 0 {
        "0"
    } else if d == 1 {
        "1"
    } else if d == 2 {
        "2"
    } else if d == 3 {
        "3"
    } else if d == 4 {
        "4"
    } else if d == 5 {
        "5"
    } else if d == 6 {
        "6"
    } else if d == 7 {
        "7"
    } else if d == 8 {
        "8"
    } else {
        "9"
    };
    proof {
        assert(r@ =~= seq![digit_char(d as nat)]);
    }
    r
}

/// Writes the number in the decimal system behind the text.
pub fn push_decimal(text: &mut String, n: usize)
    ensures
        final(text)@ == old(text)@ + decimal(n as nat),
    decreases n,
{
    if n < 10 {
        text.append(digit(n));
    } else {
        push_decimal(text, n / 10);
        text.append(digit(n % 10));
        proof {
            assert(text@ =~= old(text)@ + decimal(n as nat));
        }
    }
}

/// The number in the decimal system.
pub fn decimal_text(n: usize) -> (r: String)
    ensures
        r@ == decimal(n as nat),
{
    let mut text = String::new();
    push_decimal(&mut text, n);
    proof {
        assert(text@ =~= decimal(n as nat));
    }
    text
}

/// Writes the numbers as a list in square brackets behind the text.
#[verifier::loop_isolation(false)]
pub fn push_list(text: &mut String, numbers: &Vec<usize>)
    ensures
        final(text)@ == old(text)@ + list_text(numbers@),
{
    proof {
        reveal_strlit("[");
        reveal_strlit("]");
        reveal_strlit(", ");
    }
    let ghost start = text@;
    let ghost parts = Seq::new(numbers@.len(), |k: int| decimal(numbers@[k] as nat));
    let ghost comma = seq![',', ' '];
    text.append("[");
    let mut k: usize = 0;
    while k < numbers.len()
        invariant
            k <= numbers@.len(),
            parts == Seq::new(numbers@.len(), |k: int| decimal(numbers@[k] as nat)),
            comma == seq![',', ' '],
            text@ == start + seq!['['] + joined(parts, comma, k as int),
        decreases numbers@.len() - k,
    {
        if k > 0 {
            text.append(", ");
        }
        push_decimal(text, numbers[k]);
        proof {
            assert(", "@ =~= comma);
            assert(text@ =~= start + seq!['['] + joined(parts, comma, k + 1));
        }
        k += 1;
    }
    text.append("]");
    proof {
        assert("["@ =~= seq!['[']);
        assert("]"@ =~= seq![']']);
        assert(text@ =~= start + list_text(numbers@));
    }
}

/// The glyph of a propositional value.
pub fn glyph(value: Bit2) -> (r: char)
    ensures
        r == glyph_of(value@),
{
    let v = value.idx();
    if v == 0 {
        '0'
    } else if v == 1 {
        '?'
    } else if v == 2 {
        '1'
    } else {
        'x'
    }
}

/// The name of an evaluation value: `false`, `unit`, `undef` or `true`.
pub fn status_text(value: Bit2) -> (r: &'static str)
    ensures
        r@ == status_name(value@),
{
    proof {
        reveal_strlit("false");
        reveal_strlit("unit");
        reveal_strlit("undef");
        reveal_strlit("true");
    }
    let v = value.idx();
    let r = if v == 0 {
        "false"
    } else if v == 1 {
        "unit"
    } else if v == 2 {
        "undef"
    } else {
        "true"
    };
    proof {
        assert(r@ =~= status_name(value@));
    }
    r
}

impl Domain {
    /// The text of a domain: its name, an equals sign between blanks,
    /// and its size.
    pub open spec fn spec_text(&self) -> Seq<char> {
        self@.name + seq![' ', '=', ' '] + decimal(self@.size as nat)
    }

    /// The text of the domain.
    pub fn text(&self) -> (r: String)
        ensures
            r@ == self.spec_text(),
    {
        proof {
            reveal_strlit(" = ");
        }
        let mut text = String::from_str(self.name());
        text.append(" = ");
        push_decimal(&mut text, self.size());
        proof {
            assert(" = "@ =~= seq![' ', '=', ' ']);
            assert(text@ =~= self.spec_text());
        }
        text
    }
}

impl SolverView {
    /// The names of the domains with the given handles.
    pub open spec fn domain_names(self, handles: Seq<Dom>) -> Seq<Seq<char>> {
        Seq::new(handles.len(), |k: int| self.domains[handles[k].0 as int].name)
    }

    /// The signature of a variable: its name, and in round brackets the
    /// names of its domains with commas between them.
    pub open spec fn signature(self, var: int) -> Seq<char> {
        self.variables[var].name + seq!['('] + joined(
            self.domain_names(self.variables[var].domains),
            seq![','],
            self.variables[var].domains.len() as int,
        ) + seq![')']
    }

    /// The text of a literal of a clause: its sign, the name of its
    /// variable, and in round brackets the variables of the clause at its
    /// axes, each behind the letter `x`, with commas between them.
    pub open spec fn literal_text(self, clause: int, literal: int) -> Seq<char> {
        let lit = self.clauses[clause].literals[literal];
        seq![sign_char(lit.sign)] + self.variables[lit.variable as int].name + seq!['('] + joined(
            indexed(lit.axes),
            seq![','],
            lit.axes.len() as int,
        ) + seq![')']
    }

    /// The text of a clause: the texts of its literals with blanks
    /// between them, an equals sign between blanks, and the name of its
    /// status.
    pub open spec fn clause_text(self, clause: int) -> Seq<char> {
        joined(
            Seq::new(self.clauses[clause].literals.len(), |l: int| self.literal_text(clause, l)),
            seq![' '],
            self.clauses[clause].literals.len() as int,
        ) + seq![' ', '=', ' '] + status_name(lowest(self.clauses[clause].cells))
    }

    /// The text of an atom that has a value: the sign of the value, the
    /// name of the variable, and the coordinates of the atom as a list.
    pub open spec fn atom_text(self, var: int, pos: int) -> Seq<char> {
        seq![sign_char(self.state.assignment[pos] == BOOL_TRUE)] + self.variables[var].name + list_text(
            coords_of(self.variables[var].lengths, (pos - self.variables[var].offset) as nat),
        )
    }
}

impl Solver {
    /// The signature of the variable.
    #[verifier::loop_isolation(false)]
    pub fn format_variable(&self, var: Var) -> (r: String)
        requires
            self.wf(),
            var.0 < self@.variables.len(),
        ensures
            r@ == self@.signature(var.0 as int),
    {
        proof {
            reveal_strlit("(");
            reveal_strlit(")");
            reveal_strlit(",");
            self.lemma_wf();
            self@.lemma_variable(var.0 as int);
        }
        let variable = self.variable(var);
        let ghost model = self@;
        let ghost handles = variable@.domains;
        let ghost names = model.domain_names(handles);
        let mut text = String::from_str(variable.name());
        text.append("(");
        let ghost head = text@;
        let mut k: usize = 0;
        while k < variable.domains().len()
            invariant
                k <= handles.len(),
                handles == variable@.domains,
                variable@ == model.variables[var.0 as int],
                model == self@,
                names == model.domain_names(handles),
                forall|j: int| 0 <= j < handles.len() ==> (#[trigger] handles[j]).0 < model.domains.len(),
                text@ == head + joined(names, seq![','], k as int),
            decreases handles.len() - k,
        {
            if k > 0 {
                text.append(",");
            }
            let dom = variable.domains()[k];
            text.append(self.domain(dom).name());
            proof {
                assert(","@ =~= seq![',']);
                assert(text@ =~= head + joined(names, seq![','], k + 1));
            }
            k += 1;
        }
        text.append(")");
        proof {
            assert("("@ =~= seq!['(']);
            assert(")"@ =~= seq![')']);
            assert(text@ =~= model.signature(var.0 as int));
        }
        text
    }

    /// The text of the atom at the given position, which has a value.
    #[verifier::loop_isolation(false)]
    pub fn format_var(&self, bvar: usize) -> (r: String)
        requires
            self.wf(),
            bvar < self@.state.assignment.len(),
        ensures
            r@ == self@.atom_text(self.spec_lookup(bvar as int), bvar as int),
            0 <= self.spec_lookup(bvar as int) < self@.variables.len(),
    {
        proof {
            reveal_strlit("+");
            reveal_strlit("-");
        }
        let var = self.lookup_var(bvar);
        proof {
            self.lemma_wf();
            self@.lemma_unique_table(bvar as int, var.0 as int);
            self@.lemma_variable(var.0 as int);
            self@.lemma_tables(var.0 as int);
        }
        let variable = self.variable(var);
        let mut coordinates: Vec<usize> = Vec::new();
        while coordinates.len() < variable.arity()
            invariant
                coordinates@.len() <= variable@.domains.len(),
            decreases variable@.domains.len() - coordinates@.len(),
        {
            coordinates.push(0);
        }
        variable.shape().coordinates(bvar, &mut coordinates);
        let value = self.state().assignment().get(bvar);
        let mut text = if value == Bit2::new(BOOL_TRUE) {
            String::from_str("+")
        } else {
            String::from_str("-")
        };
        text.append(variable.name());
        push_list(&mut text, &coordinates);
        proof {
            assert("+"@ =~= seq!['+']);
            assert("-"@ =~= seq!['-']);
            assert(text@ =~= self@.atom_text(var.0 as int, bvar as int));
        }
        text
    }

    /// The variable in whose table the atom at the position stands.
    pub open spec fn spec_lookup(&self, pos: int) -> int {
        choose|v: int|
            0 <= v < self@.variables.len() && (#[trigger] self@.variables[v]).offset <= pos
                < self@.variables[v].offset + volume_of(self@.variables[v].lengths)
    }

    /// The text of the literal with the given number of the clause with the
    /// given number.
    #[verifier::loop_isolation(false)]
    pub fn format_literal(&self, clause: usize, literal: usize) -> (r: String)
        requires
            self.wf(),
            clause < self@.clauses.len(),
            literal < self@.clauses[clause as int].literals.len(),
        ensures
            r@ == self@.literal_text(clause as int, literal as int),
    {
        proof {
            reveal_strlit("+");
            reveal_strlit("-");
            reveal_strlit("(");
            reveal_strlit(")");
            reveal_strlit(",");
            reveal_strlit("x");
            self.lemma_wf();
            self@.lemma_clause(clause as int);
        }
        let lit = &self.clause(clause).literals()[literal];
        let ghost model = self@;
        let ghost view = model.clauses[clause as int].literals[literal as int];
        proof {
            assert(lit@ == view);
            assert(crate::solver::driver::literal_ok(view, model.variables));
        }
        let mut text = if lit.sign() {
            String::from_str("+")
        } else {
            String::from_str("-")
        };
        text.append(self.variable(lit.variable()).name());
        text.append("(");
        let ghost head = text@;
        let ghost parts = indexed(view.axes);
        let mut k: usize = 0;
        while k < lit.variables().len()
            invariant
                k <= view.axes.len(),
                lit@ == view,
                parts == indexed(view.axes),
                text@ == head + joined(parts, seq![','], k as int),
            decreases view.axes.len() - k,
        {
            if k > 0 {
                text.append(",");
            }
            let ghost before = text@;
            text.append("x");
            push_decimal(&mut text, lit.variables()[k]);
            proof {
                assert(","@ =~= seq![',']);
                assert("x"@ =~= seq!['x']);
                assert(text@ =~= before + parts[k as int]);
                assert(text@ =~= head + joined(parts, seq![','], k + 1));
            }
            k += 1;
        }
        text.append(")");
        proof {
            assert("+"@ =~= seq!['+']);
            assert("-"@ =~= seq!['-']);
            assert("("@ =~= seq!['(']);
            assert(")"@ =~= seq![')']);
            assert(text@ =~= model.literal_text(clause as int, literal as int));
        }
        text
    }

    /// The text of the clause with the given number.
    #[verifier::loop_isolation(false)]
    pub fn format_clause(&self, clause: usize) -> (r: String)
        requires
            self.wf(),
            clause < self@.clauses.len(),
        ensures
            r@ == self@.clause_text(clause as int),
    {
        proof {
            reveal_strlit(" ");
            reveal_strlit(" = ");
        }
        let ghost model = self@;
        let ghost count = model.clauses[clause as int].literals.len();
        let ghost parts = Seq::new(count, |l: int| model.literal_text(clause as int, l));
        let mut text = String::new();
        let n = self.clause(clause).literals().len();
        let mut l: usize = 0;
        proof {
            assert(text@ =~= joined(parts, seq![' '], 0));
        }
        while l < n
            invariant
                l <= n,
                n == count,
                self.wf(),
                model == self@,
                clause < model.clauses.len(),
                count == model.clauses[clause as int].literals.len(),
                parts == Seq::new(count, |l: int| model.literal_text(clause as int, l)),
                text@ == joined(parts, seq![' '], l as int),
            decreases n - l,
        {
            if l > 0 {
                text.append(" ");
            }
            let literal = self.format_literal(clause, l);
            text.append(literal.as_str());
            proof {
                assert(" "@ =~= seq![' ']);
                assert(text@ =~= joined(parts, seq![' '], l + 1));
            }
            l += 1;
        }
        text.append(" = ");
        text.append(status_text(self.clause(clause).get_status()));
        proof {
            assert(" = "@ =~= seq![' ', '=', ' ']);
            assert(text@ =~= model.clause_text(clause as int));
        }
        text
    }
}


impl SolverView {
    /// The text of the atom at a position: its text if the position is
    /// that of an atom, else the position as a number.
    pub open spec fn position_text(self, lookup: spec_fn(int) -> int, pos: usize) -> Seq<char> {
        if pos < self.state.assignment.len() {
            self.atom_text(lookup(pos as int), pos as int)
        } else {
            decimal(pos as nat)
        }
    }

    /// The text of a reason: `initial`, `decision`, `exists`, or the texts
    /// of the atoms of a clause with blanks between them.
    pub open spec fn reason_text(self, lookup: spec_fn(int) -> int, reason: ReasonView) -> Seq<char> {
        match reason {
            ReasonView::Initial => seq!['i', 'n', 'i', 't', 'i', 'a', 'l'],
            ReasonView::Decision => seq!['d', 'e', 'c', 'i', 's', 'i', 'o', 'n'],
            ReasonView::Exists => seq!['e', 'x', 'i', 's', 't', 's'],
            ReasonView::Clause(positions) => joined(
                Seq::new(positions.len(), |k: int| self.position_text(lookup, positions[k])),
                seq![' '],
                positions.len() as int,
            ),
        }
    }

    /// The line of the step with the given number of the trail: the word
    /// `step`, the text of its atom, the word `from`, and the text of its
    /// reason.
    pub open spec fn step_text(self, lookup: spec_fn(int) -> int, step: int) -> Seq<char> {
        seq!['s', 't', 'e', 'p', ' '] + self.position_text(lookup, self.state.trail[step].pos) + seq![
            ' ',
            'f',
            'r',
            'o',
            'm',
            ' ',
        ] + self.reason_text(lookup, self.state.trail[step].reason)
    }
}

impl Solver {
    /// The text of the atom at the position, or the position as a number
    /// if no atom stands there.
    pub fn format_position(&self, pos: usize) -> (r: String)
        requires
            self.wf(),
        ensures
            r@ == self@.position_text(|p: int| self.spec_lookup(p), pos),
    {
        if pos < self.state().assignment().len() {
            self.format_var(pos)
        } else {
            decimal_text(pos)
        }
    }

    /// The text of the reason of a step.
    #[verifier::loop_isolation(false)]
    pub fn format_reason(&self, reason: &Reason) -> (r: String)
        requires
            self.wf(),
        ensures
            r@ == self@.reason_text(|p: int| self.spec_lookup(p), reason@),
    {
        proof {
            reveal_strlit("initial");
            reveal_strlit("decision");
            reveal_strlit("exists");
            reveal_strlit(" ");
        }
        let ghost lookup = |p: int| self.spec_lookup(p);
        match reason {
            Reason::Initial => {
                let text = String::from_str("initial");
                proof {
                    assert(text@ =~= self@.reason_text(lookup, reason@));
                }
                text
            },
            Reason::Decision => {
                let text = String::from_str("decision");
                proof {
                    assert(text@ =~= self@.reason_text(lookup, reason@));
                }
                text
            },
            Reason::Exists => {
                let text = String::from_str("exists");
                proof {
                    assert(text@ =~= self@.reason_text(lookup, reason@));
                }
                text
            },
            Reason::Clause(positions) => {
                let ghost parts = Seq::new(positions@.len(), |k: int| self@.position_text(lookup, positions@[k]));
                let mut text = String::new();
                let mut k: usize = 0;
                proof {
                    assert(text@ =~= joined(parts, seq![' '], 0));
                }
                while k < positions.len()
                    invariant
                        k <= positions@.len(),
                        text@ == joined(parts, seq![' '], k as int),
                    decreases positions@.len() - k,
                {
                    if k > 0 {
                        text.append(" ");
                    }
                    let atom = self.format_position(positions[k]);
                    text.append(atom.as_str());
                    proof {
                        assert(" "@ =~= seq![' ']);
                        assert(text@ =~= joined(parts, seq![' '], k + 1));
                    }
                    k += 1;
                }
                text
            },
        }
    }

    /// The lines that show the steps of the trail, one for every step.
    #[verifier::loop_isolation(false)]
    pub fn print_steps(&self) -> (r: Vec<String>)
        requires
            self.wf(),
        ensures
            r@.len() == self@.state.trail.len(),
            forall|j: int|
                0 <= j < r@.len() ==> (#[trigger] r@[j])@ == self@.step_text(|p: int| self.spec_lookup(p), j),
    {
        proof {
            reveal_strlit("step ");
            reveal_strlit(" from ");
        }
        let ghost lookup = |p: int| self.spec_lookup(p);
        let mut lines: Vec<String> = Vec::new();
        let steps = self.state().steps();
        let mut j: usize = 0;
        while j < steps.len()
            invariant
                j <= steps@.len(),
                lines@.len() == j,
                forall|i: int| 0 <= i < j ==> (#[trigger] lines@[i])@ == self@.step_text(lookup, i),
            decreases steps@.len() - j,
        {
            let mut line = String::from_str("step ");
            let atom = self.format_position(steps[j].position());
            line.append(atom.as_str());
            line.append(" from ");
            let reason = self.format_reason(steps[j].reason());
            line.append(reason.as_str());
            proof {
                assert("step "@ =~= seq!['s', 't', 'e', 'p', ' ']);
                assert(" from "@ =~= seq![' ', 'f', 'r', 'o', 'm', ' ']);
                assert(steps@[j as int]@ == self@.state.trail[j as int]);
                assert(line@ =~= self@.step_text(lookup, j as int));
            }
            lines.push(line);
            j += 1;
        }
        lines
    }

    /// The lines that show the table of a variable: for every atom its
    /// coordinates as a list, an equals sign between blanks, and the glyph
    /// of its value, behind two blanks.
    #[verifier::loop_isolation(false)]
    pub fn format_table(&self, var: Var) -> (r: Vec<String>)
        requires
            self.wf(),
            var.0 < self@.variables.len(),
        ensures
            r@.len() == volume_of(self@.variables[var.0 as int].lengths),
            forall|n: int|
                0 <= n < r@.len() ==> (#[trigger] r@[n])@ == seq![' ', ' '] + list_text(
                    coords_of(self@.variables[var.0 as int].lengths, n as nat),
                ) + seq![' ', '=', ' ', glyph_of(self@.state.assignment[self@.variables[var.0 as int].offset + n])],
    {
        proof {
            reveal_strlit("  ");
            reveal_strlit(" = ");
            reveal_strlit("0");
            reveal_strlit("?");
            reveal_strlit("1");
            reveal_strlit("x");
            self.lemma_wf();
            self@.lemma_variable(var.0 as int);
            self@.lemma_tables(var.0 as int);
        }
        let variable = self.variable(var);
        let shape = variable.shape();
        let range = shape.positions();
        let mut coordinates: Vec<usize> = Vec::new();
        while coordinates.len() < shape.dimension()
            invariant
                coordinates@.len() <= shape.spec_lengths().len(),
            decreases shape.spec_lengths().len() - coordinates@.len(),
        {
            coordinates.push(0);
        }
        let mut lines: Vec<String> = Vec::new();
        let mut pos = range.start;
        while pos < range.end
            invariant
                range.start <= pos <= range.end,
                coordinates@.len() == shape.spec_lengths().len(),
                lines@.len() == pos - range.start,
                forall|n: int|
                    0 <= n < lines@.len() ==> (#[trigger] lines@[n])@ == seq![' ', ' '] + list_text(
                        coords_of(self@.variables[var.0 as int].lengths, n as nat),
                    ) + seq![
                        ' ',
                        '=',
                        ' ',
                        glyph_of(self@.state.assignment[self@.variables[var.0 as int].offset + n]),
                    ],
            decreases range.end - pos,
        {
            shape.coordinates(pos, &mut coordinates);
            let mut line = String::from_str("  ");
            push_list(&mut line, &coordinates);
            line.append(" = ");
            let value = glyph(self.state().assignment().get(pos));
            line.append(if value == '0' {
                "0"
            } else if value == '?' {
                "?"
            } else if value == '1' {
                "1"
            } else {
                "x"
            });
            proof {
                assert("  "@ =~= seq![' ', ' ']);
                assert(" = "@ =~= seq![' ', '=', ' ']);
                assert("0"@ =~= seq!['0']);
                assert("?"@ =~= seq!['?']);
                assert("1"@ =~= seq!['1']);
                assert("x"@ =~= seq!['x']);
                let n = pos - range.start;
                assert(line@ =~= seq![' ', ' '] + list_text(
                    coords_of(self@.variables[var.0 as int].lengths, n as nat),
                ) + seq![
                    ' ',
                    '=',
                    ' ',
                    glyph_of(self@.state.assignment[self@.variables[var.0 as int].offset + n]),
                ]);
            }
            lines.push(line);
            pos += 1;
        }
        lines
    }
}

} // verus!
