//! A tokenizer that breaks down an input string to standard tokens.
//!
//! Positions count characters. White space separates tokens. A token is a
//! word that begins with a letter, a number, a text between quotation marks,
//! or a single operator character; anything else is an error token.

use vstd::prelude::*;
use vstd::string::StrSliceExecFns;

verus! {

/// Whether the character is white space, as `char::is_whitespace` of the
/// standard library says.
pub uninterp spec fn whitespace(c: char) -> bool;

/// Whether the character is a letter, as `char::is_alphabetic` of the
/// standard library says.
pub uninterp spec fn alphabetic(c: char) -> bool;

/// Whether the character is a letter or a digit of some script, as
/// `char::is_alphanumeric` of the standard library says.
pub uninterp spec fn alphanumeric(c: char) -> bool;

/// Asks `char::is_whitespace` of the standard library whether the
/// character has the Unicode property `White_Space`. The answer depends on
/// the character alone.
#[verifier::external_body]
fn is_whitespace(c: char) -> (r: bool)
    ensures
        r == whitespace(c),
{
    c.is_whitespace()
}

/// Asks `char::is_alphabetic` of the standard library whether the character
/// has the Unicode property `Alphabetic`. The answer depends on the
/// character alone.
#[verifier::external_body]
fn is_alphabetic(c: char) -> (r: bool)
    ensures
        r == alphabetic(c),
{
    c.is_alphabetic()
}

/// Asks `char::is_alphanumeric` of the standard library whether the
/// character is alphabetic or numeric in Unicode. The answer depends on the
/// character alone.
#[verifier::external_body]
fn is_alphanumeric(c: char) -> (r: bool)
    ensures
        r == alphanumeric(c),
{
    c.is_alphanumeric()
}

/// Whether the character is one of the digits `0` to `9`.
pub open spec fn digit(c: char) -> bool {
    '0' <= c && c <= '9'
}

/// The kinds of characters of which runs are taken.
#[derive(Clone, Copy)]
pub enum Class {
    /// White space.
    Space,
    /// Letters and digits of all scripts.
    Word,
    /// The digits `0` to `9`.
    Digit,
    /// All characters but the quotation mark.
    Quoted,
}

/// Whether the character belongs to the class.
pub open spec fn in_class(c: char, class: Class) -> bool {
    match class {
        Class::Space => whitespace(c),
        Class::Word => alphanumeric(c),
        Class::Digit => digit(c),
        Class::Quoted => c != '"',
    }
}

/// The position at which the run of characters of the class ends that
/// begins at `from`: the first position from there on whose character is
/// not in the class, or the length of the input.
pub open spec fn run_end(input: Seq<char>, from: int, class: Class) -> int
    decreases input.len() - from,
{
    if from < 0 || from >= input.len() {
        input.len() as int
    } else if in_class(input[from], class) {
        run_end(input, from + 1, class)
    } else {
        from
    }
}

/// The number that the digits write in the decimal system.
pub open spec fn digits_value(digits: Seq<char>) -> nat
    decreases digits.len(),
{
    if digits.len() == 0 {
        0
    } else {
        digits_value(digits.drop_last()) * 10 + (digits.last() as nat - '0' as nat) as nat
    }
}

/// Standard token types.
#[derive(PartialEq, Eq, Debug)]
pub enum Token<'a> {
    Literal(&'a str),
    Integer(usize),
    Operator(char),
    String(&'a str),
    Error(&'a str),
}

/// The mathematical value of a token.
pub enum TokenView {
    Literal(Seq<char>),
    Integer(usize),
    Operator(char),
    String(Seq<char>),
    Error(Seq<char>),
}

impl<'a> Token<'a> {
    /// The mathematical value of the token.
    pub open spec fn view(&self) -> TokenView {
        match self {
            Token::Literal(text) => TokenView::Literal(text@),
            Token::Integer(number) => TokenView::Integer(*number),
            Token::Operator(c) => TokenView::Operator(*c),
            Token::String(text) => TokenView::String(text@),
            Token::Error(text) => TokenView::Error(text@),
        }
    }
}

/// What the tokenizer hands out next at a position: the token, if one
/// is left, and the position behind it.
pub struct Step {
    pub token: Option<TokenView>,
    pub index: int,
}

/// The token that begins at or behind the position `index`, and the position
/// behind it.
pub open spec fn next_token(input: Seq<char>, opers: Seq<char>, index: int) -> Step {
    let start = run_end(input, index, Class::Space);
    if start >= input.len() {
        Step { token: None, index: input.len() as int }
    } else {
        let head = input[start];
        if alphabetic(head) {
            let end = run_end(input, start + 1, Class::Word);
            Step { token: Some(TokenView::Literal(input.subrange(start, end))), index: end }
        } else if digit(head) {
            let end = run_end(input, start + 1, Class::Digit);
            let text = input.subrange(start, end);
            if digits_value(text) <= usize::MAX {
                Step { token: Some(TokenView::Integer(digits_value(text) as usize)), index: end }
            } else {
                Step { token: Some(TokenView::Error(text)), index: end }
            }
        } else if head == '"' {
            let end = run_end(input, start + 1, Class::Quoted);
            if end >= input.len() {
                Step {
                    token: Some(TokenView::Error(input.subrange(start, input.len() as int))),
                    index: input.len() as int,
                }
            } else {
                Step { token: Some(TokenView::String(input.subrange(start + 1, end))), index: end + 1 }
            }
        } else if opers.contains(head) {
            Step { token: Some(TokenView::Operator(head)), index: start + 1 }
        } else {
            Step { token: Some(TokenView::Error(input.subrange(start, start + 1))), index: start + 1 }
        }
    }
}

/// A run ends between its beginning and the end of the input.
pub proof fn lemma_run_end(input: Seq<char>, from: int, class: Class)
    requires
        0 <= from <= input.len(),
    ensures
        from <= run_end(input, from, class) <= input.len(),
    decreases input.len() - from,
{
    if from < input.len() && in_class(input[from], class) {
        lemma_run_end(input, from + 1, class);
    }
}

/// The digits of a longer number write a number that is no smaller.
proof fn lemma_digits_grow(digits: Seq<char>, shorter: int)
    requires
        0 <= shorter <= digits.len(),
    ensures
        digits_value(digits.take(shorter)) <= digits_value(digits),
    decreases digits.len() - shorter,
{
    if shorter < digits.len() {
        lemma_digits_grow(digits, shorter + 1);
        assert(digits.take(shorter + 1).drop_last() =~= digits.take(shorter));
    } else {
        assert(digits.take(shorter) =~= digits);
    }
}

/// A tokenizer that breaks down an input string into tokens separated by
/// whitespace.
pub struct Tokenizer<'a> {
    /// character position
    index: usize,
    /// input string
    input: &'a str,
    /// operator characters
    opers: &'a str,
}

impl<'a> Tokenizer<'a> {
    /// The input.
    pub closed spec fn spec_input(&self) -> Seq<char> {
        self.input@
    }

    /// The operator characters.
    pub closed spec fn spec_opers(&self) -> Seq<char> {
        self.opers@
    }

    /// The position in the input, counted in characters.
    pub closed spec fn spec_index(&self) -> int {
        self.index as int
    }

    /// The position is not behind the end of the input.
    pub open spec fn wf(&self) -> bool {
        0 <= self.spec_index() <= self.spec_input().len()
    }

    /// Creates a new tokenizer for the given input string and operator
    /// characters.
    pub fn new(input: &'a str, opers: &'a str) -> (r: Self)
        ensures
            r.wf(),
            r.spec_input() == input@,
            r.spec_opers() == opers@,
            r.spec_index() == 0,
    {
        Self { index: 0, input, opers }
    }

    /// Whether the character belongs to the class.
    fn classify(c: char, class: Class) -> (r: bool)
        ensures
            r == in_class(c, class),
    {
        match class {
            Class::Space => is_whitespace(c),
            Class::Word => is_alphanumeric(c),
            Class::Digit => '0' <= c && c <= '9',
            Class::Quoted => c != '"',
        }
    }

    /// The position at which the run of characters of the class ends that
    /// begins at `from`.
    fn run(&self, from: usize, class: Class, len: usize) -> (r: usize)
        requires
            from <= len,
            len == self.input@.len(),
        ensures
            r == run_end(self.input@, from as int, class),
            from <= r <= len,
    {
        let mut pos = from;
        let mut open = true;
        while pos < len && open
            invariant
                from <= pos <= len,
                len == self.input@.len(),
                run_end(self.input@, pos as int, class) == run_end(self.input@, from as int, class),
                !open ==> pos < len && !in_class(self.input@[pos as int], class),
            decreases len - pos + if open { 1int } else { 0int },
        {
            if Self::classify(self.input.get_char(pos), class) {
                pos += 1;
            } else {
                open = false;
            }
        }
        pos
    }

    /// Whether the character is an operator character.
    fn is_operator(&self, c: char) -> (r: bool)
        ensures
            r == self.opers@.contains(c),
    {
        let len = self.opers.unicode_len();
        let mut k: usize = 0;
        while k < len
            invariant
                k <= len,
                len == self.opers@.len(),
                forall|j: int| 0 <= j < k ==> self.opers@[j] != c,
            decreases len - k,
        {
            if self.opers.get_char(k) == c {
                return true;
            }
            k += 1;
        }
        false
    }

    /// The number that the digits from `start` up to `end` write, if it
    /// fits into a machine word.
    fn number(&self, start: usize, end: usize) -> (r: Option<usize>)
        requires
            start <= end <= self.input@.len(),
            forall|j: int| start <= j < end ==> digit(self.input@[j]),
        ensures
            match r {
                Some(value) => value == digits_value(self.input@.subrange(start as int, end as int)),
                None => digits_value(self.input@.subrange(start as int, end as int)) > usize::MAX,
            },
    {
        let ghost text = self.input@.subrange(start as int, end as int);
        let mut value: usize = 0;
        let mut pos = start;
        proof {
            assert(text.take(0) =~= Seq::empty());
        }
        while pos < end
            invariant
                start <= pos <= end,
                end <= self.input@.len(),
                text == self.input@.subrange(start as int, end as int),
                forall|j: int| start <= j < end ==> digit(self.input@[j]),
                value == digits_value(text.take(pos - start)),
            decreases end - pos,
        {
            let c = self.input.get_char(pos);
            let d: usize = (c as u32 - '0' as u32) as usize;
            proof {
                assert(text.take(pos - start + 1).drop_last() =~= text.take(pos - start));
                assert(text.take(pos - start + 1).last() == c);
                lemma_digits_grow(text, pos - start + 1);
            }
            let scaled = value.checked_mul(10);
            if scaled.is_none() {
                return None;
            }
            let next = scaled.unwrap().checked_add(d);
            if next.is_none() {
                return None;
            }
            value = next.unwrap();
            pos += 1;
        }
        proof {
            assert(text.take(end - start) =~= text);
        }
        Some(value)
    }

    /// Hands out the next token, or nothing when the input has no more.
    pub fn next(&mut self) -> (r: Option<Token<'a>>)
        requires
            old(self).wf(),
        ensures
            final(self).wf(),
            final(self).spec_input() == old(self).spec_input(),
            final(self).spec_opers() == old(self).spec_opers(),
            final(self).spec_index() == next_token(
                old(self).spec_input(),
                old(self).spec_opers(),
                old(self).spec_index(),
            ).index,
            match r {
                Some(token) => next_token(
                    old(self).spec_input(),
                    old(self).spec_opers(),
                    old(self).spec_index(),
                ).token == Some(token@),
                None => next_token(
                    old(self).spec_input(),
                    old(self).spec_opers(),
                    old(self).spec_index(),
                ).token.is_none(),
            },
    {
        let len = self.input.unicode_len();
        let start = self.run(self.index, Class::Space, len);
        if start >= len {
            self.index = len;
            return None;
        }
        let head = self.input.get_char(start);
        if is_alphabetic(head) {
            let end = self.run(start + 1, Class::Word, len);
            self.index = end;
            Some(Token::Literal(self.input.substring_char(start, end)))
        } else if '0' <= head && head <= '9' {
            let end = self.run(start + 1, Class::Digit, len);
            self.index = end;
            proof {
                lemma_digits_run(self.input@, start + 1, end as int);
            }
            match self.number(start, end) {
                Some(value) => Some(Token::Integer(value)),
                None => Some(Token::Error(self.input.substring_char(start, end))),
            }
        } else if head == '"' {
            let end = self.run(start + 1, Class::Quoted, len);
            if end >= len {
                self.index = len;
                Some(Token::Error(self.input.substring_char(start, len)))
            } else {
                self.index = end + 1;
                Some(Token::String(self.input.substring_char(start + 1, end)))
            }
        } else {
            self.index = start + 1;
            if self.is_operator(head) {
                Some(Token::Operator(head))
            } else {
                Some(Token::Error(self.input.substring_char(start, start + 1)))
            }
        }
    }
}

/// All characters of a run are in the class of the run.
proof fn lemma_digits_run(input: Seq<char>, from: int, end: int)
    requires
        0 <= from <= input.len(),
        end == run_end(input, from, Class::Digit),
    ensures
        forall|j: int| from <= j < end ==> digit(input[j]),
    decreases input.len() - from,
{
    if from < input.len() && in_class(input[from], Class::Digit) {
        lemma_digits_run(input, from + 1, end);
    }
}

} // verus!
