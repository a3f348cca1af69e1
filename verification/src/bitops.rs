//! One- and two-bit values, and operators on two-bit values that are stored
//! as lookup tables packed into a single 32-bit word.
//!
//! Two four-valued algebras live on the two-bit values. The propositional
//! values describe what is known of a ground atom; the evaluation values
//! describe what is known of a disjunction of literals. The fold operators
//! absorb one more literal into the evaluation of a disjunction.

use vstd::prelude::*;
use vstd::set_lib::{lemma_int_range, lemma_map_size_bound, set_int_range};
use vstd::std_specs::cmp::PartialEqSpecImpl;

verus! {

/// Propositional value: the atom is false.
pub const BOOL_FALSE: u32 = 0;

/// Propositional value: the atom is not assigned yet.
pub const BOOL_UNDEF: u32 = 1;

/// Propositional value: the atom is true.
pub const BOOL_TRUE: u32 = 2;

/// Propositional value: there is no atom (the neutral element of the operators).
pub const BOOL_MISSING: u32 = 3;

/// Evaluation value: every literal of the disjunction is false.
pub const EVAL_FALSE: u32 = 0;

/// Evaluation value: one literal is unassigned and all others are false.
pub const EVAL_UNIT: u32 = 1;

/// Evaluation value: two or more literals are unassigned and none is true.
pub const EVAL_UNDEF: u32 = 2;

/// Evaluation value: some literal is true.
pub const EVAL_TRUE: u32 = 3;

/// Packed table of propositional negation.
pub const BOOL_NOT: u32 = 0xc6;

/// Packed table of propositional disjunction.
pub const BOOL_OR: u32 = 0xe4aa6524;

/// Packed table of propositional conjunction.
pub const BOOL_AND: u32 = 0xe4a45400;

/// Packed table that folds a positive literal into an evaluation value.
pub const FOLD_POS: u32 = 0xffba7934;

/// Packed table that folds a negative literal into an evaluation value.
pub const FOLD_NEG: u32 = 0xffab5b07;

/// Packed table of the conjunction of evaluation values.
pub const EVAL_AND: u32 = 0xe4a45400;

/// The two-bit entry of a packed table that starts at bit `shift`.
pub open spec fn entry(word: u32, shift: nat) -> nat {
    ((word >> (shift as u32)) & 3) as nat
}

/// The result of the unary operator packed in `word` on the value `a`.
pub open spec fn unary(word: u32, a: nat) -> nat {
    entry(word, 2 * a)
}

/// The result of the binary operator packed in `word` on the values `a` and `b`.
pub open spec fn binary(word: u32, a: nat, b: nat) -> nat {
    entry(word, 8 * a + 2 * b)
}

/// Propositional negation: swaps false and true, keeps the other two values.
pub open spec fn not_value(a: nat) -> nat {
    if a == BOOL_FALSE {
        BOOL_TRUE as nat
    } else if a == BOOL_TRUE {
        BOOL_FALSE as nat
    } else {
        a
    }
}

/// Propositional disjunction: the larger of two values, with the missing
/// value as neutral element.
pub open spec fn or_value(a: nat, b: nat) -> nat {
    if a == BOOL_MISSING {
        b
    } else if b == BOOL_MISSING {
        a
    } else if a <= b {
        b
    } else {
        a
    }
}

/// The smaller of two values. This is both the propositional conjunction
/// (with the missing value as neutral element) and the conjunction of
/// evaluation values.
pub open spec fn and_value(a: nat, b: nat) -> nat {
    if a <= b {
        a
    } else {
        b
    }
}

/// The evaluation of a disjunction after one more positive literal, whose
/// atom has the propositional value `b`, joins a disjunction that evaluated
/// to `e`.
pub open spec fn fold_pos_value(e: nat, b: nat) -> nat {
    if e == EVAL_TRUE || b == BOOL_TRUE {
        EVAL_TRUE as nat
    } else if b == BOOL_UNDEF {
        if e == EVAL_FALSE {
            EVAL_UNIT as nat
        } else {
            EVAL_UNDEF as nat
        }
    } else {
        e
    }
}

/// As `fold_pos_value`, for a negative literal.
pub open spec fn fold_neg_value(e: nat, b: nat) -> nat {
    fold_pos_value(e, not_value(b))
}

proof fn lemma_entry_bound(word: u32, shift: u32)
    by (bit_vector)
    ensures
        (word >> shift) & 3 <= 3,
{
}

proof fn lemma_entry_insert(word: u32, s: u32, p: u32, c: u32)
    by (bit_vector)
    requires
        s % 2 == 0,
        s <= 30,
        p % 2 == 0,
        p <= 30,
        c <= 3,
        (word >> s) & 3 == 0,
    ensures
        ((word | (c << s)) >> s) & 3 == c,
        p != s ==> ((word | (c << s)) >> p) & 3 == (word >> p) & 3,
{
}

proof fn lemma_zero_entry(p: u32)
    by (bit_vector)
    ensures
        (0u32 >> p) & 3 == 0,
{
}

proof fn lemma_not_table(a: u32)
    by (bit_vector)
    requires
        a <= 3,
    ensures
        (0xc6u32 >> (2 * a) as u32) & 3 == (if a == 0 {
            2u32
        } else if a == 2 {
            0u32
        } else {
            a
        }),
{
}

proof fn lemma_or_table(a: u32, b: u32)
    by (bit_vector)
    requires
        a <= 3,
        b <= 3,
    ensures
        (0xe4aa6524u32 >> (8 * a + 2 * b) as u32) & 3 == (if a == 3 {
            b
        } else if b == 3 {
            a
        } else if a <= b {
            b
        } else {
            a
        }),
{
}

proof fn lemma_and_table(a: u32, b: u32)
    by (bit_vector)
    requires
        a <= 3,
        b <= 3,
    ensures
        (0xe4a45400u32 >> (8 * a + 2 * b) as u32) & 3 == (if a <= b {
            a
        } else {
            b
        }),
{
}

proof fn lemma_fold_pos_table(e: u32, b: u32)
    by (bit_vector)
    requires
        e <= 3,
        b <= 3,
    ensures
        (0xffba7934u32 >> (8 * e + 2 * b) as u32) & 3 == (if e == 3 || b == 2 {
            3u32
        } else if b == 1 {
            if e == 0 {
                1u32
            } else {
                2u32
            }
        } else {
            e
        }),
{
}

proof fn lemma_fold_neg_table(e: u32, b: u32)
    by (bit_vector)
    requires
        e <= 3,
        b <= 3,
    ensures
        (0xffab5b07u32 >> (8 * e + 2 * b) as u32) & 3 == (if e == 3 || b == 0 {
            3u32
        } else if b == 1 {
            if e == 0 {
                1u32
            } else {
                2u32
            }
        } else {
            e
        }),
{
}

/// Every entry of a packed table is one of the four values.
pub proof fn lemma_entry_range(word: u32, shift: nat)
    ensures
        entry(word, shift) <= 3,
{
    lemma_entry_bound(word, shift as u32);
}

/// The table `BOOL_NOT` holds propositional negation.
pub proof fn lemma_bool_not(a: nat)
    requires
        a <= 3,
    ensures
        unary(BOOL_NOT, a) == not_value(a),
{
    lemma_not_table(a as u32);
}

/// The table `BOOL_OR` holds propositional disjunction.
pub proof fn lemma_bool_or(a: nat, b: nat)
    requires
        a <= 3,
        b <= 3,
    ensures
        binary(BOOL_OR, a, b) == or_value(a, b),
{
    lemma_or_table(a as u32, b as u32);
}

/// The table `BOOL_AND` holds propositional conjunction.
pub proof fn lemma_bool_and(a: nat, b: nat)
    requires
        a <= 3,
        b <= 3,
    ensures
        binary(BOOL_AND, a, b) == and_value(a, b),
{
    lemma_and_table(a as u32, b as u32);
}

/// The table `EVAL_AND` holds the conjunction of evaluation values.
pub proof fn lemma_eval_and(a: nat, b: nat)
    requires
        a <= 3,
        b <= 3,
    ensures
        binary(EVAL_AND, a, b) == and_value(a, b),
{
    lemma_and_table(a as u32, b as u32);
}

/// The table `FOLD_POS` folds a positive literal into an evaluation value.
pub proof fn lemma_fold_pos(e: nat, b: nat)
    requires
        e <= 3,
        b <= 3,
    ensures
        binary(FOLD_POS, e, b) == fold_pos_value(e, b),
{
    lemma_fold_pos_table(e as u32, b as u32);
}

/// The table `FOLD_NEG` folds a negative literal into an evaluation value.
pub proof fn lemma_fold_neg(e: nat, b: nat)
    requires
        e <= 3,
        b <= 3,
    ensures
        binary(FOLD_NEG, e, b) == fold_neg_value(e, b),
{
    lemma_fold_neg_table(e as u32, b as u32);
}

/// Propositional conjunction is idempotent, commutative and associative on
/// all four values.
pub proof fn lemma_bool_and_laws(a: nat, b: nat, c: nat)
    requires
        a <= 3,
        b <= 3,
        c <= 3,
    ensures
        binary(BOOL_AND, a, a) == a,
        binary(BOOL_AND, a, b) == binary(BOOL_AND, b, a),
        binary(BOOL_AND, binary(BOOL_AND, a, b), c) == binary(BOOL_AND, a, binary(BOOL_AND, b, c)),
{
    lemma_bool_and(a, a);
    lemma_bool_and(a, b);
    lemma_bool_and(b, a);
    lemma_bool_and(b, c);
    lemma_bool_and(and_value(a, b), c);
    lemma_bool_and(a, and_value(b, c));
}

/// Propositional disjunction is idempotent, commutative and associative on
/// all four values.
pub proof fn lemma_bool_or_laws(a: nat, b: nat, c: nat)
    requires
        a <= 3,
        b <= 3,
        c <= 3,
    ensures
        binary(BOOL_OR, a, a) == a,
        binary(BOOL_OR, a, b) == binary(BOOL_OR, b, a),
        binary(BOOL_OR, binary(BOOL_OR, a, b), c) == binary(BOOL_OR, a, binary(BOOL_OR, b, c)),
{
    lemma_bool_or(a, a);
    lemma_bool_or(a, b);
    lemma_bool_or(b, a);
    lemma_bool_or(b, c);
    lemma_bool_or(or_value(a, b), c);
    lemma_bool_or(a, or_value(b, c));
}

/// Propositional disjunction distributes over conjunction on the values
/// false, undefined and true.
pub proof fn lemma_bool_or_distributes(a: nat, b: nat, c: nat)
    requires
        a <= 2,
        b <= 2,
        c <= 2,
    ensures
        binary(BOOL_OR, a, binary(BOOL_AND, b, c)) == binary(
            BOOL_AND,
            binary(BOOL_OR, a, b),
            binary(BOOL_OR, a, c),
        ),
{
    lemma_bool_and(b, c);
    lemma_bool_or(a, and_value(b, c));
    lemma_bool_or(a, b);
    lemma_bool_or(a, c);
    lemma_bool_and(or_value(a, b), or_value(a, c));
}

/// The conjunction of evaluation values is idempotent, commutative and
/// associative on all four values, and it is their minimum.
pub proof fn lemma_eval_and_laws(a: nat, b: nat, c: nat)
    requires
        a <= 3,
        b <= 3,
        c <= 3,
    ensures
        binary(EVAL_AND, a, a) == a,
        binary(EVAL_AND, a, b) == binary(EVAL_AND, b, a),
        binary(EVAL_AND, binary(EVAL_AND, a, b), c) == binary(EVAL_AND, a, binary(EVAL_AND, b, c)),
        binary(EVAL_AND, a, b) == if a <= b { a } else { b },
{
    lemma_bool_and_laws(a, b, c);
    lemma_eval_and(a, b);
}

/// Folding a positive literal is folding a negative literal on the negated
/// value, and the other way round.
pub proof fn lemma_fold_negation(e: nat, b: nat)
    requires
        e <= 3,
        b <= 3,
    ensures
        binary(FOLD_POS, e, b) == binary(FOLD_NEG, e, unary(BOOL_NOT, b)),
        binary(FOLD_NEG, e, b) == binary(FOLD_POS, e, unary(BOOL_NOT, b)),
{
    lemma_bool_not(b);
    lemma_fold_pos(e, b);
    lemma_fold_neg(e, b);
    lemma_fold_neg(e, not_value(b));
    lemma_fold_pos(e, not_value(b));
}

/// The order in which two literals are folded into an evaluation value does
/// not matter, whatever their signs are.
pub proof fn lemma_fold_commutes(e: nat, b: nat, c: nat)
    requires
        e <= 3,
        b <= 3,
        c <= 3,
    ensures
        binary(FOLD_POS, binary(FOLD_POS, e, b), c) == binary(FOLD_POS, binary(FOLD_POS, e, c), b),
        binary(FOLD_NEG, binary(FOLD_NEG, e, b), c) == binary(FOLD_NEG, binary(FOLD_NEG, e, c), b),
        binary(FOLD_NEG, binary(FOLD_POS, e, b), c) == binary(FOLD_POS, binary(FOLD_NEG, e, c), b),
{
    lemma_fold_pos(e, b);
    lemma_fold_pos(e, c);
    lemma_fold_neg(e, b);
    lemma_fold_neg(e, c);
    lemma_fold_pos(fold_pos_value(e, b), c);
    lemma_fold_pos(fold_pos_value(e, c), b);
    lemma_fold_neg(fold_neg_value(e, b), c);
    lemma_fold_neg(fold_neg_value(e, c), b);
    lemma_fold_neg(fold_pos_value(e, b), c);
    lemma_fold_pos(fold_neg_value(e, c), b);
}

/// A single bit, stored as 0 or 1.
#[derive(Debug, Clone, Copy)]
pub struct Bit1(u32);

impl Bit1 {
    /// The number that this bit stands for.
    pub closed spec fn view(self) -> nat {
        self.0 as nat
    }

    #[verifier::type_invariant]
    spec fn inv(self) -> bool {
        self.0 <= 1
    }

    /// Makes the bit with the given value.
    pub fn new(val: u32) -> (r: Bit1)
        requires
            val <= 1,
        ensures
            r@ == val,
    {
        Bit1(val)
    }

    /// The value of the bit as a number.
    pub fn idx(self) -> (r: u32)
        ensures
            r == self@,
            r <= 1,
    {
        proof {
            use_type_invariant(&self);
        }
        self.0
    }
}

impl PartialEq for Bit1 {
    fn eq(&self, other: &Self) -> (r: bool) {
        self.0 == other.0
    }
}

impl PartialEqSpecImpl for Bit1 {
    open spec fn obeys_eq_spec() -> bool {
        true
    }

    open spec fn eq_spec(&self, other: &Self) -> bool {
        self@ == other@
    }
}

impl Eq for Bit1 {

}

impl Default for Bit1 {
    fn default() -> (r: Self)
        ensures
            r@ == 0,
    {
        Bit1(0)
    }
}

/// A two-bit value, stored as 0, 1, 2 or 3.
#[derive(Debug, Clone, Copy)]
pub struct Bit2(u32);

impl Bit2 {
    /// The number that this value stands for.
    pub closed spec fn view(self) -> nat {
        self.0 as nat
    }

    #[verifier::type_invariant]
    spec fn inv(self) -> bool {
        self.0 <= 3
    }

    /// Makes the two-bit value with the given number.
    pub fn new(val: u32) -> (r: Bit2)
        requires
            val <= 3,
        ensures
            r@ == val,
    {
        Bit2(val)
    }

    /// The value as a number.
    pub fn idx(self) -> (r: u32)
        ensures
            r == self@,
            r <= 3,
    {
        proof {
            use_type_invariant(&self);
        }
        self.0
    }
}

impl PartialEq for Bit2 {
    fn eq(&self, other: &Self) -> (r: bool) {
        self.0 == other.0
    }
}

impl PartialEqSpecImpl for Bit2 {
    open spec fn obeys_eq_spec() -> bool {
        true
    }

    open spec fn eq_spec(&self, other: &Self) -> bool {
        self@ == other@
    }
}

impl Eq for Bit2 {

}

impl Default for Bit2 {
    fn default() -> (r: Self)
        ensures
            r@ == 0,
    {
        Bit2(0)
    }
}

/// Whether the number `s` occurs in `slots`.
spec fn occurs(slots: Seq<int>, s: int) -> bool {
    exists|k: int| 0 <= k < slots.len() && slots[k] == s
}

/// Among `n` numbers below `n` in which every number below `n` occurs, none
/// occurs twice.
proof fn lemma_onto_is_one_to_one(slots: Seq<int>, i: int, j: int)
    requires
        forall|k: int| 0 <= k < slots.len() ==> 0 <= #[trigger] slots[k] < slots.len(),
        forall|s: int| 0 <= s < slots.len() ==> occurs(slots, s),
        0 <= i < slots.len(),
        0 <= j < slots.len(),
        i != j,
    ensures
        slots[i] != slots[j],
{
    if slots[i] == slots[j] {
        let n = slots.len() as int;
        let all = set_int_range(0, n);
        let rest = all.remove(j);
        let f = |k: int| slots[k];
        let image = rest.map(f);
        lemma_int_range(0, n);
        assert forall|s: int| all.contains(s) implies image.contains(s) by {
            assert(occurs(slots, s));
            let k = choose|k: int| 0 <= k < slots.len() && slots[k] == s;
            if k == j {
                assert(rest.contains(i) && f(i) == s);
            } else {
                assert(rest.contains(k) && f(k) == s);
            }
        }
        assert forall|s: int| image.contains(s) implies all.contains(s) by {
            let k = choose|k: int| rest.contains(k) && f(k) == s;
            assert(0 <= slots[k] < slots.len());
        }
        assert(image =~= all);
        lemma_map_size_bound(rest, image, f);
    }
}

/// A unary operator on two-bit values, stored as a packed table.
#[derive(Debug, Clone, Copy)]
pub struct Op22(u32);

impl Op22 {
    /// The packed table of the operator.
    pub closed spec fn view(self) -> u32 {
        self.0
    }

    /// The result of the operator on the value `a`.
    pub open spec fn spec_of(self, a: nat) -> nat {
        unary(self@, a)
    }

    /// Whether the argument `a` occurs among the cases.
    pub open spec fn covers(cases: Seq<(Bit2, Bit2)>, a: nat) -> bool {
        exists|i: int| 0 <= i < cases.len() && (#[trigger] cases[i]).0@ == a
    }

    /// Builds the operator from its four cases, each an argument with its
    /// result. Every argument must occur.
    pub fn new(cases: &[(Bit2, Bit2)]) -> (r: Self)
        requires
            cases@.len() == 4,
            forall|a: nat| a <= 3 ==> Self::covers(cases@, a),
        ensures
            forall|i: int| 0 <= i < 4 ==> r.spec_of((#[trigger] cases@[i]).0@) == cases@[i].1@,
    {
        let ghost slots = Seq::new(4, |k: int| (cases@[k].0@ % 4) as int);
        let mut val: u32 = 0;
        let mut idx: usize = 0;
        proof {
            assert forall|p: u32| (0u32 >> p) & 3 == 0 by {
                lemma_zero_entry(p);
            }
        }
        while idx < cases.len()
            invariant
                idx <= 4,
                cases@.len() == 4,
                slots == Seq::new(4, |k: int| (cases@[k].0@ % 4) as int),
                forall|a: nat| a <= 3 ==> Self::covers(cases@, a),
                forall|k: int|
                    0 <= k < idx ==> (#[trigger] cases@[k]).0@ <= 3 && entry(val, 2 * cases@[k].0@)
                        == cases@[k].1@,
                forall|a: nat|
                    a <= 3 && (forall|k: int| 0 <= k < idx ==> slots[k] != a) ==> #[trigger] entry(
                        val,
                        2 * a,
                    ) == 0,
            decreases 4 - idx,
        {
            let (a, b) = cases[idx];
            proof {
                use_type_invariant(&a);
                use_type_invariant(&b);
            }
            let pos: u32 = a.0 * 2;
            let ghost old_val = val;
            val = val | (b.0 << pos);
            proof {
                assert forall|s: int| 0 <= s < slots.len() implies occurs(slots, s) by {
                    assert(Self::covers(cases@, s as nat));
                    let k = choose|k: int| 0 <= k < cases@.len() && (#[trigger] cases@[k]).0@ == s;
                    assert(slots[k] == s);
                }
                assert forall|k: int| 0 <= k < idx implies slots[k] != slots[idx as int] by {
                    lemma_onto_is_one_to_one(slots, k, idx as int);
                }
                assert(slots[idx as int] == a@);
                assert(entry(old_val, 2 * a@) == 0);
                assert forall|k: int| 0 <= k < idx + 1 implies (#[trigger] cases@[k]).0@ <= 3
                    && entry(val, 2 * cases@[k].0@) == cases@[k].1@ by {
                    if k < idx {
                        assert(slots[k] != slots[idx as int]);
                    }
                    let p = (2 * cases@[k].0@) as u32;
                    lemma_entry_insert(old_val, pos, p, b.0);
                }
                assert forall|c: nat|
                    c <= 3 && (forall|k: int| 0 <= k < idx + 1 ==> slots[k] != c) implies #[trigger] entry(
                    val,
                    2 * c,
                ) == 0 by {
                    assert(slots[idx as int] != c);
                    assert(forall|k: int| 0 <= k < idx ==> slots[k] != c);
                    assert(entry(old_val, 2 * c) == 0);
                    lemma_entry_insert(old_val, pos, (2 * c) as u32, b.0);
                }
            }
            idx += 1;
        }
        Op22(val)
    }

    /// Applies the operator to a value.
    pub fn of(self, a: Bit2) -> (r: Bit2)
        ensures
            r@ == self.spec_of(a@),
    {
        proof {
            use_type_invariant(&a);
            lemma_entry_bound(self.0, (2 * a.0) as u32);
        }
        Bit2((self.0 >> (a.0 * 2)) & 3)
    }
}

/// A binary operator on two-bit values, stored as a packed table.
#[derive(Debug, Clone, Copy)]
pub struct Op222(u32);

impl Op222 {
    /// The packed table of the operator.
    pub closed spec fn view(self) -> u32 {
        self.0
    }

    /// The result of the operator on the values `a` and `b`.
    pub open spec fn spec_of(self, a: nat, b: nat) -> nat {
        binary(self@, a, b)
    }

    /// Whether the pair of arguments `a` and `b` occurs among the cases.
    pub open spec fn covers(cases: Seq<(Bit2, Bit2, Bit2)>, a: nat, b: nat) -> bool {
        exists|i: int| 0 <= i < cases.len() && (#[trigger] cases[i]).0@ == a && cases[i].1@ == b
    }

    /// Builds the operator from its sixteen cases, each a pair of arguments
    /// with its result. Every pair of arguments must occur.
    pub fn new(cases: &[(Bit2, Bit2, Bit2)]) -> (r: Self)
        requires
            cases@.len() == 16,
            forall|a: nat, b: nat| a <= 3 && b <= 3 ==> Self::covers(cases@, a, b),
        ensures
            forall|i: int|
                0 <= i < 16 ==> r.spec_of((#[trigger] cases@[i]).0@, cases@[i].1@) == cases@[i].2@,
    {
        let ghost slots = Seq::new(16, |k: int| (4 * (cases@[k].0@ % 4) + cases@[k].1@ % 4) as int);
        let mut val: u32 = 0;
        let mut idx: usize = 0;
        proof {
            assert forall|p: u32| (0u32 >> p) & 3 == 0 by {
                lemma_zero_entry(p);
            }
        }
        while idx < cases.len()
            invariant
                idx <= 16,
                cases@.len() == 16,
                slots == Seq::new(16, |k: int| (4 * (cases@[k].0@ % 4) + cases@[k].1@ % 4) as int),
                forall|a: nat, b: nat| a <= 3 && b <= 3 ==> Self::covers(cases@, a, b),
                forall|k: int|
                    0 <= k < idx ==> (#[trigger] cases@[k]).0@ <= 3 && cases@[k].1@ <= 3 && entry(
                        val,
                        8 * cases@[k].0@ + 2 * cases@[k].1@,
                    ) == cases@[k].2@,
                forall|s: nat|
                    s <= 15 && (forall|k: int| 0 <= k < idx ==> slots[k] != s) ==> #[trigger] entry(
                        val,
                        2 * s,
                    ) == 0,
            decreases 16 - idx,
        {
            let (a, b, c) = cases[idx];
            proof {
                use_type_invariant(&a);
                use_type_invariant(&b);
                use_type_invariant(&c);
            }
            let pos: u32 = a.0 * 8 + b.0 * 2;
            let ghost old_val = val;
            val = val | (c.0 << pos);
            proof {
                assert forall|s: int| 0 <= s < slots.len() implies occurs(slots, s) by {
                    assert(Self::covers(cases@, (s / 4) as nat, (s % 4) as nat));
                    let k = choose|k: int|
                        0 <= k < cases@.len() && (#[trigger] cases@[k]).0@ == (s / 4) as nat
                            && cases@[k].1@ == (s % 4) as nat;
                    assert(slots[k] == s);
                }
                assert forall|k: int| 0 <= k < idx implies slots[k] != slots[idx as int] by {
                    lemma_onto_is_one_to_one(slots, k, idx as int);
                }
                assert(slots[idx as int] == 4 * a@ + b@);
                assert(pos == 2 * slots[idx as int]);
                assert(entry(old_val, 2 * (slots[idx as int] as nat)) == 0);
                assert forall|k: int| 0 <= k < idx + 1 implies (#[trigger] cases@[k]).0@ <= 3
                    && cases@[k].1@ <= 3 && entry(val, 8 * cases@[k].0@ + 2 * cases@[k].1@)
                    == cases@[k].2@ by {
                    if k < idx {
                        assert(slots[k] != slots[idx as int]);
                    }
                    let p = (2 * slots[k]) as u32;
                    lemma_entry_insert(old_val, pos, p, c.0);
                }
                assert forall|s: nat|
                    s <= 15 && (forall|k: int| 0 <= k < idx + 1 ==> slots[k] != s) implies #[trigger] entry(
                    val,
                    2 * s,
                ) == 0 by {
                    assert(slots[idx as int] != s);
                    assert(forall|k: int| 0 <= k < idx ==> slots[k] != s);
                    assert(entry(old_val, 2 * s) == 0);
                    lemma_entry_insert(old_val, pos, (2 * s) as u32, c.0);
                }
            }
            idx += 1;
        }
        Op222(val)
    }

    /// Applies the operator to two values.
    pub fn of(self, a: Bit2, b: Bit2) -> (r: Bit2)
        ensures
            r@ == self.spec_of(a@, b@),
    {
        proof {
            use_type_invariant(&a);
            use_type_invariant(&b);
            lemma_entry_bound(self.0, (8 * a.0 + 2 * b.0) as u32);
        }
        Bit2((self.0 >> (a.0 * 8 + b.0 * 2)) & 3)
    }

    /// Whether the operator maps each of the values 0, 1 and 2, taken
    /// twice, to itself.
    pub fn idempotent(self) -> (r: bool)
        ensures
            r == forall|a: nat| a < 3 ==> #[trigger] self.spec_of(a, a) == a,
    {
        let mut a: u32 = 0;
        while a < 3
            invariant
                a <= 3,
                forall|x: nat| x < a ==> #[trigger] self.spec_of(x, x) == x,
            decreases 3 - a,
        {
            let v = Bit2::new(a);
            if self.of(v, v) != v {
                return false;
            }
            a += 1;
        }
        true
    }

    /// Whether the operator gives the same result on the values 0, 1 and
    /// 2 in either order.
    pub fn commutative(self) -> (r: bool)
        ensures
            r == forall|a: nat, b: nat|
                a < 3 && b < 3 ==> #[trigger] self.spec_of(a, b) == self.spec_of(b, a),
    {
        let mut a: u32 = 0;
        while a < 3
            invariant
                a <= 3,
                forall|x: nat, y: nat|
                    x < a && y < 3 ==> #[trigger] self.spec_of(x, y) == self.spec_of(y, x),
            decreases 3 - a,
        {
            let mut b: u32 = 0;
            while b < 3
                invariant
                    a < 3,
                    b <= 3,
                    forall|x: nat, y: nat|
                        x < a && y < 3 ==> #[trigger] self.spec_of(x, y) == self.spec_of(y, x),
                    forall|y: nat| y < b ==> #[trigger] self.spec_of(a as nat, y) == self.spec_of(y, a as nat),
                decreases 3 - b,
            {
                let va = Bit2::new(a);
                let vb = Bit2::new(b);
                if self.of(va, vb) != self.of(vb, va) {
                    return false;
                }
                b += 1;
            }
            a += 1;
        }
        true
    }

    /// The two sides of the associative law at the values `a`, `b`, `c`.
    pub open spec fn associates_at(self, a: nat, b: nat, c: nat) -> bool {
        self.spec_of(self.spec_of(a, b), c) == self.spec_of(a, self.spec_of(b, c))
    }

    /// Whether the operator is associative on the values 0, 1 and 2.
    pub fn associative(self) -> (r: bool)
        ensures
            r == forall|a: nat, b: nat, c: nat|
                a < 3 && b < 3 && c < 3 ==> #[trigger] self.associates_at(a, b, c),
    {
        let mut a: u32 = 0;
        while a < 3
            invariant
                a <= 3,
                forall|x: nat, y: nat, z: nat|
                    x < a && y < 3 && z < 3 ==> #[trigger] self.associates_at(x, y, z),
            decreases 3 - a,
        {
            let mut b: u32 = 0;
            while b < 3
                invariant
                    a < 3,
                    b <= 3,
                    forall|x: nat, y: nat, z: nat|
                        x < a && y < 3 && z < 3 ==> #[trigger] self.associates_at(x, y, z),
                    forall|y: nat, z: nat|
                        y < b && z < 3 ==> #[trigger] self.associates_at(a as nat, y, z),
                decreases 3 - b,
            {
                let mut c: u32 = 0;
                while c < 3
                    invariant
                        a < 3,
                        b < 3,
                        c <= 3,
                        forall|x: nat, y: nat, z: nat|
                            x < a && y < 3 && z < 3 ==> #[trigger] self.associates_at(x, y, z),
                        forall|y: nat, z: nat|
                            y < b && z < 3 ==> #[trigger] self.associates_at(a as nat, y, z),
                        forall|z: nat| z < c ==> #[trigger] self.associates_at(a as nat, b as nat, z),
                    decreases 3 - c,
                {
                    let va = Bit2::new(a);
                    let vb = Bit2::new(b);
                    let vc = Bit2::new(c);
                    if self.of(self.of(va, vb), vc) != self.of(va, self.of(vb, vc)) {
                        assert(!self.associates_at(a as nat, b as nat, c as nat));
                        return false;
                    }
                    c += 1;
                }
                b += 1;
            }
            a += 1;
        }
        true
    }
}

/// Propositional negation.
pub fn bool_not() -> (r: Op22)
    ensures
        r@ == BOOL_NOT,
{
    Op22(BOOL_NOT)
}

/// Propositional disjunction.
pub fn bool_or() -> (r: Op222)
    ensures
        r@ == BOOL_OR,
{
    Op222(BOOL_OR)
}

/// Propositional conjunction.
pub fn bool_and() -> (r: Op222)
    ensures
        r@ == BOOL_AND,
{
    Op222(BOOL_AND)
}

/// The operator that folds a positive literal into an evaluation value.
pub fn fold_pos() -> (r: Op222)
    ensures
        r@ == FOLD_POS,
{
    Op222(FOLD_POS)
}

/// The operator that folds a negative literal into an evaluation value.
pub fn fold_neg() -> (r: Op222)
    ensures
        r@ == FOLD_NEG,
{
    Op222(FOLD_NEG)
}

/// The conjunction of evaluation values.
pub fn eval_and() -> (r: Op222)
    ensures
        r@ == EVAL_AND,
{
    Op222(EVAL_AND)
}


/// The binary operator with the given packed table.
pub fn binary_operator(word: u32) -> (r: Op222)
    ensures
        r@ == word,
{
    Op222(word)
}

/// The unary operator with the given packed table.
pub fn unary_operator(word: u32) -> (r: Op22)
    ensures
        r@ == word,
{
    Op22(word)
}

} // verus!
