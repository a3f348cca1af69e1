//! The counting algebra: one four-valued algebra for atoms and for
//! disjunctions alike. A value says how a disjunction stands: it is false,
//! it has one member without a value, it has two or more of them, or it
//! is true. An atom without a value counts as a disjunction with one such
//! member.

use crate::bitops::{and_value, binary, lemma_bool_and, unary, Op22, Op222};
use vstd::prelude::*;

verus! {

/// The disjunction is false.
pub const BOOL_FALSE: u32 = 0;

/// One member of the disjunction has no value, and none is true.
pub const BOOL_UNDEF1: u32 = 1;

/// Two or more members of the disjunction have no value, and none is true.
pub const BOOL_UNDEF2: u32 = 2;

/// The disjunction is true.
pub const BOOL_TRUE: u32 = 3;

/// Packed table of negation.
pub const BOOL_NOT: u32 = 0x27;

/// Packed table of disjunction.
pub const BOOL_OR: u32 = 0xffeae9e4;

/// Packed table of the disjunction with the negation of the second value.
pub const BOOL_ORNOT: u32 = 0xffab6b27;

/// Packed table of conjunction.
pub const BOOL_AND: u32 = 0xe4a45400;

/// Negation: swaps false and true, keeps the other two values.
pub open spec fn not_value(a: nat) -> nat {
    if a == BOOL_FALSE {
        BOOL_TRUE as nat
    } else if a == BOOL_TRUE {
        BOOL_FALSE as nat
    } else {
        a
    }
}

/// Disjunction: true if one of the two is true, else the number of the
/// members without a value of both, where two stands for two or more.
pub open spec fn or_value(a: nat, b: nat) -> nat {
    if a == BOOL_TRUE || b == BOOL_TRUE {
        BOOL_TRUE as nat
    } else if a + b >= 2 {
        BOOL_UNDEF2 as nat
    } else {
        a + b
    }
}

proof fn lemma_not_table(a: u32)
    by (bit_vector)
    requires
        a <= 3,
    ensures
        (0x27u32 >> (2 * a) as u32) & 3 == (if a == 0 {
            3u32
        } else if a == 3 {
            0u32
        } else {
            a
        }),
{
}

proof fn lemma_or_table(a: u32, b: u32)
    by (bit_vector)
    requires
        a <= 3,
        b <= 3,
    ensures
        (0xffeae9e4u32 >> (8 * a + 2 * b) as u32) & 3 == (if a == 3 || b == 3 {
            3u32
        } else if a + b >= 2 {
            2u32
        } else {
            (a + b) as u32
        }),
{
}

proof fn lemma_ornot_table(a: u32, b: u32)
    by (bit_vector)
    requires
        a <= 3,
        b <= 3,
    ensures
        (0xffab6b27u32 >> (8 * a + 2 * b) as u32) & 3 == (if a == 3 || b == 0 {
            3u32
        } else if b == 3 {
            a
        } else if a + b >= 2 {
            2u32
        } else {
            (a + b) as u32
        }),
{
}

/// The tables hold negation, disjunction, disjunction with the negated
/// second value, and conjunction, which is the smaller of two values.
pub proof fn lemma_tables(a: nat, b: nat)
    requires
        a <= 3,
        b <= 3,
    ensures
        unary(BOOL_NOT, a) == not_value(a),
        binary(BOOL_OR, a, b) == or_value(a, b),
        binary(BOOL_ORNOT, a, b) == or_value(a, not_value(b)),
        binary(BOOL_AND, a, b) == and_value(a, b),
{
    lemma_not_table(a as u32);
    lemma_or_table(a as u32, b as u32);
    lemma_ornot_table(a as u32, b as u32);
    lemma_bool_and(a, b);
}

/// Conjunction is idempotent, commutative and associative. Disjunction
/// is commutative and associative, and it distributes over conjunction; it
/// is not idempotent, since two members without a value are more than one.
pub proof fn lemma_laws(a: nat, b: nat, c: nat)
    requires
        a <= 3,
        b <= 3,
        c <= 3,
    ensures
        binary(BOOL_AND, a, a) == a,
        binary(BOOL_AND, a, b) == binary(BOOL_AND, b, a),
        binary(BOOL_AND, binary(BOOL_AND, a, b), c) == binary(BOOL_AND, a, binary(BOOL_AND, b, c)),
        binary(BOOL_OR, a, b) == binary(BOOL_OR, b, a),
        binary(BOOL_OR, binary(BOOL_OR, a, b), c) == binary(BOOL_OR, a, binary(BOOL_OR, b, c)),
        binary(BOOL_OR, a, binary(BOOL_AND, b, c)) == binary(
            BOOL_AND,
            binary(BOOL_OR, a, b),
            binary(BOOL_OR, a, c),
        ),
        binary(BOOL_OR, BOOL_UNDEF1 as nat, BOOL_UNDEF1 as nat) == BOOL_UNDEF2,
        binary(BOOL_ORNOT, a, b) == binary(BOOL_OR, a, unary(BOOL_NOT, b)),
{
    lemma_tables(a, a);
    lemma_tables(a, b);
    lemma_tables(b, a);
    lemma_tables(b, c);
    lemma_tables(a, c);
    lemma_tables(and_value(a, b), c);
    lemma_tables(a, and_value(b, c));
    lemma_tables(or_value(a, b), c);
    lemma_tables(a, or_value(b, c));
    lemma_tables(or_value(a, b), or_value(a, c));
    lemma_tables(1, 1);
    lemma_tables(a, not_value(b));
}

/// Negation.
pub fn bool_not() -> (r: Op22)
    ensures
        r@ == BOOL_NOT,
{
    crate::bitops::unary_operator(BOOL_NOT)
}

/// Disjunction.
pub fn bool_or() -> (r: Op222)
    ensures
        r@ == BOOL_OR,
{
    crate::bitops::binary_operator(BOOL_OR)
}

/// Disjunction with the negation of the second value.
pub fn bool_ornot() -> (r: Op222)
    ensures
        r@ == BOOL_ORNOT,
{
    crate::bitops::binary_operator(BOOL_ORNOT)
}

/// Conjunction.
pub fn bool_and() -> (r: Op222)
    ensures
        r@ == BOOL_AND,
{
    crate::bitops::binary_operator(BOOL_AND)
}

} // verus!
