//! Structures for working with 1-bit and 2-bit vectors.
//!
//! The cells are packed into 32-bit words. A buffer keeps whole words, so
//! behind its last cell there may be unused cells: its padding. Two buffers
//! are equal when their cells and their padding are equal.

use crate::bitops::{Bit1, Bit2, Op222};
use crate::shape::ShapeIter;
use vstd::prelude::*;
use vstd::std_specs::cmp::PartialEqSpecImpl;

verus! {

proof fn lemma_set1(w: u32, s: u32, p: u32, v: u32)
    by (bit_vector)
    requires
        s % 1 == 0,
        s <= 31,
        p % 1 == 0,
        p <= 31,
        v <= 1,
    ensures
        (((w & !(1u32 << s)) | (v << s)) >> s) & 1 == v,
        p != s ==> (((w & !(1u32 << s)) | (v << s)) >> p) & 1 == (w >> p) & 1,
        (w >> p) & 1 <= 1,
{
}

proof fn lemma_fill1(v: u32, p: u32)
    by (bit_vector)
    requires
        v <= 1,
        p % 1 == 0,
        p <= 31,
    ensures
        ((if v == 0 {
            0u32
        } else {
            0xffffffffu32
        }) >> p) & 1 == v,
{
}

proof fn lemma_select1(w: u32, f: u32, m: u32, p: u32)
    by (bit_vector)
    requires
        p <= 31,
    ensures
        (m >> p) & 1 == 1 ==> (((w & !m) | (f & m)) >> p) & 1 == (f >> p) & 1,
        (m >> p) & 1 == 0 ==> (((w & !m) | (f & m)) >> p) & 1 == (w >> p) & 1,
{
}

proof fn lemma_mask1(s: u32, t: u32, p: u32, low: u32, high: u32)
    by (bit_vector)
    requires
        s % 1 == 0,
        t % 1 == 0,
        p % 1 == 0,
        s <= t,
        t <= 31,
        p <= 31,
        low == (1u32 << s) - 1,
        high == (1u32 << t) - 1,
    ensures
        (low >> p) & 1 == (if p < s {
            1u32
        } else {
            0u32
        }),
        ((low ^ high) >> p) & 1 == (if s <= p && p < t {
            1u32
        } else {
            0u32
        }),
{
}

proof fn lemma_shift1(s: u32)
    by (bit_vector)
    requires
        s <= 31,
    ensures
        (1u32 << s) >= 1,
{
}

proof fn lemma_same1(a: u32, b: u32)
    by (bit_vector)
    requires
        (a >> 0u32) & 1 == (b >> 0u32) & 1,
        (a >> 1u32) & 1 == (b >> 1u32) & 1,
        (a >> 2u32) & 1 == (b >> 2u32) & 1,
        (a >> 3u32) & 1 == (b >> 3u32) & 1,
        (a >> 4u32) & 1 == (b >> 4u32) & 1,
        (a >> 5u32) & 1 == (b >> 5u32) & 1,
        (a >> 6u32) & 1 == (b >> 6u32) & 1,
        (a >> 7u32) & 1 == (b >> 7u32) & 1,
        (a >> 8u32) & 1 == (b >> 8u32) & 1,
        (a >> 9u32) & 1 == (b >> 9u32) & 1,
        (a >> 10u32) & 1 == (b >> 10u32) & 1,
        (a >> 11u32) & 1 == (b >> 11u32) & 1,
        (a >> 12u32) & 1 == (b >> 12u32) & 1,
        (a >> 13u32) & 1 == (b >> 13u32) & 1,
        (a >> 14u32) & 1 == (b >> 14u32) & 1,
        (a >> 15u32) & 1 == (b >> 15u32) & 1,
        (a >> 16u32) & 1 == (b >> 16u32) & 1,
        (a >> 17u32) & 1 == (b >> 17u32) & 1,
        (a >> 18u32) & 1 == (b >> 18u32) & 1,
        (a >> 19u32) & 1 == (b >> 19u32) & 1,
        (a >> 20u32) & 1 == (b >> 20u32) & 1,
        (a >> 21u32) & 1 == (b >> 21u32) & 1,
        (a >> 22u32) & 1 == (b >> 22u32) & 1,
        (a >> 23u32) & 1 == (b >> 23u32) & 1,
        (a >> 24u32) & 1 == (b >> 24u32) & 1,
        (a >> 25u32) & 1 == (b >> 25u32) & 1,
        (a >> 26u32) & 1 == (b >> 26u32) & 1,
        (a >> 27u32) & 1 == (b >> 27u32) & 1,
        (a >> 28u32) & 1 == (b >> 28u32) & 1,
        (a >> 29u32) & 1 == (b >> 29u32) & 1,
        (a >> 30u32) & 1 == (b >> 30u32) & 1,
        (a >> 31u32) & 1 == (b >> 31u32) & 1,
    ensures
        a == b,
{
}

/// The cell with number `k` of a word.
spec fn cell1(word: u32, k: int) -> nat {
    ((word >> ((1 * k) as u32)) & 1) as nat
}

/// The word in which every cell has the value `v`.
spec fn fill1(v: nat) -> u32 {
    if v == 0 {
        0
    } else {
        0xffffffff
    }
}

/// The word in which every cell has the given value.
fn fill_word1(val: Bit1) -> (r: u32)
    ensures
        r == fill1(val@),
        forall|k: int| 0 <= k < 32 ==> cell1(r, k) == val@,
{
    let v = val.idx();
    let r: u32 = if v == 0 {
        0
    } else {
        0xffffffff
    };
    proof {
        assert forall|k: int| 0 <= k < 32 implies cell1(r, k) == val@ by {
            lemma_fill1(v, (1 * k) as u32);
        }
    }
    r
}

/// The word whose cells below `k` are all ones and whose other cells are zero.
fn low_mask1(k: usize) -> (r: u32)
    requires
        k < 32,
    ensures
        forall|j: int| 0 <= j < 32 ==> cell1(r, j) == if j < k { 1nat } else { 0nat },
{
    let s: u32 = (1 * k) as u32;
    proof {
        lemma_shift1(s);
    }
    let r: u32 = (1u32 << s) - 1;
    proof {
        assert forall|j: int| 0 <= j < 32 implies cell1(r, j) == if j < k { 1nat } else { 0nat } by {
            lemma_mask1(s, s, (1 * j) as u32, r, r);
        }
    }
    r
}

/// The word whose cells from `from` up to `to` are all ones and whose other
/// cells are zero.
fn range_mask1(from: usize, to: usize) -> (r: u32)
    requires
        from <= to < 32,
    ensures
        forall|j: int| 0 <= j < 32 ==> cell1(r, j) == if from <= j < to { 1nat } else { 0nat },
{
    let s: u32 = (1 * from) as u32;
    let t: u32 = (1 * to) as u32;
    proof {
        lemma_shift1(s);
        lemma_shift1(t);
    }
    let low: u32 = (1u32 << s) - 1;
    let high: u32 = (1u32 << t) - 1;
    let r = low ^ high;
    proof {
        assert forall|j: int| 0 <= j < 32 implies cell1(r, j) == if from <= j < to { 1nat } else { 0nat } by {
            lemma_mask1(s, t, (1 * j) as u32, low, high);
        }
    }
    r
}

/// The word that takes its cells from `fill` where the cell of `mask` is
/// all ones, and from `word` where it is zero.
fn select1(word: u32, fill: u32, mask: u32) -> (r: u32)
    ensures
        forall|j: int|
            0 <= j < 32 ==> (cell1(mask, j) == 1 ==> #[trigger] cell1(r, j) == cell1(fill, j)) && (cell1(mask, j)
                == 0 ==> cell1(r, j) == cell1(word, j)),
{
    let r = (word & !mask) | (fill & mask);
    proof {
        assert forall|j: int| 0 <= j < 32 implies (cell1(mask, j) == 1 ==> #[trigger] cell1(r, j) == cell1(
            fill,
            j,
        )) && (cell1(mask, j) == 0 ==> cell1(r, j) == cell1(word, j)) by {
            lemma_select1(word, fill, mask, (1 * j) as u32);
        }
    }
    r
}

/// The cells of a sequence of words, one after the other.
spec fn cells1(data: Seq<u32>) -> Seq<nat> {
    Seq::new(32 * data.len(), |i: int| cell1(data[i / 32], i % 32))
}

/// A vector for holding single bits represented as 0 or 1.
#[derive(Debug)]
pub struct Buffer1 {
    data: Vec<u32>,
    len: usize,
}

impl Buffer1 {
    /// The values of the cells, in their order.
    pub closed spec fn view(&self) -> Seq<nat> {
        Seq::new(self.len as nat, |i: int| cells1(self.data@)[i])
    }

    /// The values of the unused cells behind the last cell, up to the end of
    /// the last word.
    pub closed spec fn padding(&self) -> Seq<nat> {
        Seq::new((32 * self.data@.len() - self.len) as nat, |i: int| cells1(self.data@)[self.len + i])
    }

    /// The number of cells in the words that hold `len` cells.
    pub open spec fn capacity(len: nat) -> nat {
        (len + 31) / 32 * 32
    }

    /// The buffer has exactly the words that its cells need.
    pub closed spec fn wf(&self) -> bool {
        &&& self.len + 31 <= usize::MAX
        &&& self.data@.len() == (self.len + 31) / 32
    }

    /// Whether two buffers have the same length and the same words.
    pub closed spec fn same(&self, other: &Self) -> bool {
        self.len == other.len && self.data@ == other.data@
    }

    /// The view has the length of the buffer, the padding fills the last
    /// word, and every value is below two.
    pub proof fn lemma_view(&self)
        requires
            self.wf(),
        ensures
            self@.len() + 31 <= usize::MAX,
            self@.len() + self.padding().len() == Self::capacity(self@.len()),
            forall|i: int| 0 <= i < self@.len() ==> self@[i] <= 1,
            forall|i: int| 0 <= i < self.padding().len() ==> self.padding()[i] <= 1,
    {
        assert forall|i: int| 0 <= i < 32 * self.data@.len() implies cells1(self.data@)[i] <= 1 by {
            lemma_set1(self.data@[i / 32], 0, (1 * (i % 32)) as u32, 0);
        }
    }

    /// Two buffers are equal if and only if they have the same cells and
    /// the same padding.
    pub proof fn lemma_same(&self, other: &Self)
        requires
            self.wf(),
            other.wf(),
        ensures
            self.same(other) <==> (self@ == other@ && self.padding() == other.padding()),
    {
        let a = cells1(self.data@);
        let b = cells1(other.data@);
        if self@ == other@ && self.padding() == other.padding() {
            assert(self@.len() == other@.len());
            assert(self.len == other.len);
            assert forall|i: int| 0 <= i < a.len() implies a[i] == b[i] by {
                if i < self.len {
                    assert(a[i] == self@[i]);
                    assert(b[i] == other@[i]);
                } else {
                    assert(a[i] == self.padding()[i - self.len]);
                    assert(b[i] == other.padding()[i - self.len]);
                }
            }
            assert forall|n: int| 0 <= n < self.data@.len() implies self.data@[n] == other.data@[n] by {
                let x = self.data@[n];
                let y = other.data@[n];
                assert forall|p: u32| p % 1 == 0 && p <= 31 implies #[trigger] ((x >> p) & 1) == (y >> p) & 1 by {
                    let k = (p / 1) as int;
                    let i = 32 * n + k;
                    assert(i / 32 == n && i % 32 == k);
                    assert(a[i] == cell1(x, k));
                    assert(b[i] == cell1(y, k));
                    assert((1 * k) as u32 == p);
                    lemma_set1(x, 0, p, 0);
                    lemma_set1(y, 0, p, 0);
                }
                assert((x >> 0u32) & 1 == (y >> 0u32) & 1);
                assert((x >> 1u32) & 1 == (y >> 1u32) & 1);
                assert((x >> 2u32) & 1 == (y >> 2u32) & 1);
                assert((x >> 3u32) & 1 == (y >> 3u32) & 1);
                assert((x >> 4u32) & 1 == (y >> 4u32) & 1);
                assert((x >> 5u32) & 1 == (y >> 5u32) & 1);
                assert((x >> 6u32) & 1 == (y >> 6u32) & 1);
                assert((x >> 7u32) & 1 == (y >> 7u32) & 1);
                assert((x >> 8u32) & 1 == (y >> 8u32) & 1);
                assert((x >> 9u32) & 1 == (y >> 9u32) & 1);
                assert((x >> 10u32) & 1 == (y >> 10u32) & 1);
                assert((x >> 11u32) & 1 == (y >> 11u32) & 1);
                assert((x >> 12u32) & 1 == (y >> 12u32) & 1);
                assert((x >> 13u32) & 1 == (y >> 13u32) & 1);
                assert((x >> 14u32) & 1 == (y >> 14u32) & 1);
                assert((x >> 15u32) & 1 == (y >> 15u32) & 1);
                assert((x >> 16u32) & 1 == (y >> 16u32) & 1);
                assert((x >> 17u32) & 1 == (y >> 17u32) & 1);
                assert((x >> 18u32) & 1 == (y >> 18u32) & 1);
                assert((x >> 19u32) & 1 == (y >> 19u32) & 1);
                assert((x >> 20u32) & 1 == (y >> 20u32) & 1);
                assert((x >> 21u32) & 1 == (y >> 21u32) & 1);
                assert((x >> 22u32) & 1 == (y >> 22u32) & 1);
                assert((x >> 23u32) & 1 == (y >> 23u32) & 1);
                assert((x >> 24u32) & 1 == (y >> 24u32) & 1);
                assert((x >> 25u32) & 1 == (y >> 25u32) & 1);
                assert((x >> 26u32) & 1 == (y >> 26u32) & 1);
                assert((x >> 27u32) & 1 == (y >> 27u32) & 1);
                assert((x >> 28u32) & 1 == (y >> 28u32) & 1);
                assert((x >> 29u32) & 1 == (y >> 29u32) & 1);
                assert((x >> 30u32) & 1 == (y >> 30u32) & 1);
                assert((x >> 31u32) & 1 == (y >> 31u32) & 1);
                lemma_same1(x, y);
            }
            assert(self.data@ =~= other.data@);
        }
    }

    /// Creates a buffer of the given length in which every cell has the
    /// given value.
    pub fn new(len: usize, val: Bit1) -> (r: Self)
        requires
            len + 31 <= usize::MAX,
        ensures
            r.wf(),
            r@ == Seq::new(len as nat, |i: int| val@),
            r.padding() == Seq::new((Self::capacity(len as nat) - len) as nat, |i: int| val@),
    {
        let fill = fill_word1(val);
        let words = (len + 31) / 32;
        let mut data: Vec<u32> = Vec::new();
        while data.len() < words
            invariant
                data@.len() <= words,
                forall|n: int| 0 <= n < data@.len() ==> data@[n] == fill,
            decreases words - data@.len(),
        {
            data.push(fill);
        }
        let r = Self { data, len };
        proof {
            assert(r@ =~= Seq::new(len as nat, |i: int| val@));
            assert(r.padding() =~= Seq::new((Self::capacity(len as nat) - len) as nat, |i: int| val@));
        }
        r
    }

    /// Appends `len` cells with the given value. The cells that the buffer
    /// has keep their values, whatever its length is and whatever stood
    /// behind its last cell.
    pub fn append(&mut self, len: usize, val: Bit1)
        requires
            old(self).wf(),
            old(self)@.len() + len + 31 <= usize::MAX,
        ensures
            final(self).wf(),
            final(self)@ == appended(old(self)@, len as nat, val@),
            final(self)@.len() == old(self)@.len() + len,
            forall|i: int| 0 <= i < old(self)@.len() ==> final(self)@[i] == old(self)@[i],
            forall|i: int| old(self)@.len() <= i < final(self)@.len() ==> final(self)@[i] == val@,
            final(self).padding() == Seq::new(
                (Self::capacity(final(self)@.len()) - final(self)@.len()) as nat,
                |i: int| val@,
            ),
    {
        let fill = fill_word1(val);
        let ghost before = cells1(self.data@);
        let ghost old_len = self.len;
        if self.len % 32 != 0 {
            let mask = low_mask1(self.len % 32);
            let last = self.data.len() - 1;
            let word = self.data[last];
            self.data[last] = select1(fill, word, mask);
        }
        proof {
            assert forall|i: int| 0 <= i < before.len() implies cells1(self.data@)[i] == if i < old_len {
                before[i]
            } else {
                val@
            } by {
                if old_len % 32 != 0 && i / 32 == self.data@.len() - 1 {
                    assert(cell1(self.data@[i / 32], i % 32) == if i % 32 < old_len % 32 {
                        cell1(old(self).data@[i / 32], i % 32)
                    } else {
                        val@
                    });
                }
            }
        }
        self.len = self.len + len;
        let words = (self.len + 31) / 32;
        let ghost merged = self.data@;
        while self.data.len() < words
            invariant
                merged.len() <= self.data@.len() <= words,
                self.data@.take(merged.len() as int) == merged,
                forall|n: int| merged.len() <= n < self.data@.len() ==> self.data@[n] == fill,
                self.len == old_len + len,
                words == (self.len + 31) / 32,
                self.len + 31 <= usize::MAX,
            decreases words - self.data@.len(),
        {
            self.data.push(fill);
        }
        proof {
            let after = cells1(self.data@);
            assert forall|i: int| 0 <= i < after.len() implies after[i] == if i < old_len {
                before[i]
            } else {
                val@
            } by {
                if i < before.len() {
                    assert(self.data@[i / 32] == merged[i / 32]) by {
                        assert(self.data@.take(merged.len() as int)[i / 32] == merged[i / 32]);
                    }
                    assert(cells1(merged)[i] == after[i]);
                }
            }
            assert(self@ =~= appended(old(self)@, len as nat, val@));
            lemma_appended(old(self)@, len as nat, val@);
            assert(self.padding() =~= Seq::new(
                (Self::capacity(self@.len()) - self@.len()) as nat,
                |i: int| val@,
            ));
        }
    }

    /// The number of cells.
    pub fn len(&self) -> (r: usize)
        ensures
            r == self@.len(),
    {
        self.len
    }

    /// The value of the cell at the given position.
    pub fn get(&self, pos: usize) -> (r: Bit1)
        requires
            self.wf(),
            pos < self@.len(),
        ensures
            r@ == self@[pos as int],
    {
        let word = self.data[pos / 32];
        let shift: u32 = (1 * (pos % 32)) as u32;
        proof {
            lemma_set1(word, 0, shift, 0);
        }
        Bit1::new((word >> shift) & 1)
    }

    /// Gives the cell at the given position the given value.
    pub fn set(&mut self, pos: usize, val: Bit1)
        requires
            old(self).wf(),
            pos < old(self)@.len(),
        ensures
            final(self).wf(),
            final(self)@ == old(self)@.update(pos as int, val@),
            final(self).padding() == old(self).padding(),
    {
        let at = pos / 32;
        let shift: u32 = (1 * (pos % 32)) as u32;
        let word = self.data[at];
        let v = val.idx();
        let next = (word & !(1u32 << shift)) | (v << shift);
        self.data[at] = next;
        proof {
            let before = cells1(old(self).data@);
            let after = cells1(self.data@);
            assert forall|i: int| 0 <= i < before.len() implies after[i] == if i == pos {
                val@
            } else {
                before[i]
            } by {
                if i / 32 == at {
                    lemma_set1(word, shift, (1 * (i % 32)) as u32, v);
                }
            }
            assert(self@ =~= old(self)@.update(pos as int, val@));
            assert(self.padding() =~= old(self).padding());
        }
    }

    /// Gives every cell the given value.
    pub fn fill(&mut self, val: Bit1)
        requires
            old(self).wf(),
        ensures
            final(self).wf(),
            final(self)@ == Seq::new(old(self)@.len(), |i: int| val@),
            final(self).padding() == Seq::new(old(self).padding().len(), |i: int| val@),
    {
        let fill = fill_word1(val);
        let words = self.data.len();
        let mut n: usize = 0;
        while n < words
            invariant
                n <= words,
                words == self.data@.len(),
                self.len == old(self).len,
                forall|k: int| 0 <= k < n ==> self.data@[k] == fill,
            decreases words - n,
        {
            self.data[n] = fill;
            n += 1;
        }
        proof {
            assert(self@ =~= Seq::new(old(self)@.len(), |i: int| val@));
            assert(self.padding() =~= Seq::new(old(self).padding().len(), |i: int| val@));
        }
    }

    /// The cells of a buffer after the cells from `start` up to `end` got
    /// the value `v`.
    pub open spec fn filled(cells: Seq<nat>, start: int, end: int, v: nat) -> Seq<nat> {
        Seq::new(cells.len(), |i: int| if start <= i < end { v } else { cells[i] })
    }

    /// Gives the cells in the given range of positions the given value.
    pub fn fill_range(&mut self, range: std::ops::Range<usize>, val: Bit1)
        requires
            old(self).wf(),
            range.start <= range.end <= old(self)@.len(),
        ensures
            final(self).wf(),
            final(self)@ == Self::filled(old(self)@, range.start as int, range.end as int, val@),
            final(self).padding() == old(self).padding(),
    {
        let start = range.start;
        let end = range.end;
        let fill = fill_word1(val);
        let ghost before = cells1(self.data@);
        let ghost goal = |i: int| if start <= i < end { val@ } else { before[i] };
        if start >= end {
        } else if start / 32 == end / 32 {
            let mask = range_mask1(start % 32, end % 32);
            let at = start / 32;
            let word = self.data[at];
            let next = select1(word, fill, mask);
            self.data[at] = next;
            proof {
                let after = cells1(self.data@);
                assert forall|i: int| 0 <= i < before.len() implies after[i] == goal(i) by {
                    let w = i / 32;
                    let k = i % 32;
                    assert(i == 32 * w + k);
                    if w == at {
                        assert(after[i] == cell1(next, k));
                        assert(before[i] == cell1(word, k));
                        assert(cell1(mask, k) == if start % 32 <= k < end % 32 { 1nat } else { 0nat });
                    }
                }
            }
        } else {
            let mask = low_mask1(start % 32);
            let at = start / 32;
            let word = self.data[at];
            let next = select1(fill, word, mask);
            self.data[at] = next;
            let mut n: usize = at + 1;
            let stop = end / 32;
            let ghost head = self.data@;
            while n < stop
                invariant
                    at < n <= stop,
                    stop == end / 32,
                    stop <= self.data@.len(),
                    self.data@.len() == head.len(),
                    self.len == old(self).len,
                    at < old(self).data@.len(),
                    head == old(self).data@.update(at as int, next),
                    forall|k: int| at < k < n ==> self.data@[k] == fill,
                    forall|k: int| 0 <= k < head.len() && !(at < k < n) ==> self.data@[k] == head[k],
                decreases stop - n,
            {
                self.data[n] = fill;
                n += 1;
            }
            let ghost middle = self.data@;
            let ghost tail_word = 0u32;
            let ghost tail_next = 0u32;
            let ghost tail_mask = 0u32;
            if end % 32 != 0 {
                let mask = low_mask1(end % 32);
                let word = self.data[stop];
                let next = select1(word, fill, mask);
                self.data[stop] = next;
                proof {
                    tail_word = word;
                    tail_next = next;
                    tail_mask = mask;
                }
            }
            proof {
                let after = cells1(self.data@);
                assert forall|i: int| 0 <= i < before.len() implies after[i] == goal(i) by {
                    let w = i / 32;
                    let k = i % 32;
                    assert(i == 32 * w + k);
                    assert(before[i] == cell1(old(self).data@[w], k));
                    assert(after[i] == cell1(self.data@[w], k));
                    if w == at {
                        assert(middle[w] == head[w]);
                        assert(self.data@[w] == next);
                        assert(cell1(mask, k) == if k < start % 32 { 1nat } else { 0nat });
                        assert(cell1(fill, k) == val@);
                    } else if at < w < stop {
                        assert(middle[w] == fill);
                        assert(self.data@[w] == fill);
                        assert(cell1(fill, k) == val@);
                    } else if w == stop {
                        assert(middle[w] == head[w]);
                        assert(head[w] == old(self).data@[w]);
                        if end % 32 != 0 {
                            assert(self.data@[w] == tail_next);
                            assert(tail_word == old(self).data@[w]);
                            assert(cell1(tail_mask, k) == if k < end % 32 { 1nat } else { 0nat });
                            assert(cell1(fill, k) == val@);
                        } else {
                            assert(self.data@[w] == old(self).data@[w]);
                        }
                    } else {
                        assert(middle[w] == head[w]);
                        assert(head[w] == old(self).data@[w]);
                        assert(self.data@[w] == old(self).data@[w]);
                    }
                }
            }
        }
        proof {
            let after = cells1(self.data@);
            assert(forall|i: int| 0 <= i < before.len() ==> after[i] == goal(i));
            assert(self@ =~= Self::filled(old(self)@, start as int, end as int, val@));
            assert(self.padding() =~= old(self).padding());
        }
    }

}

impl PartialEq for Buffer1 {
    fn eq(&self, other: &Self) -> (r: bool) {
        if self.len != other.len || self.data.len() != other.data.len() {
            return false;
        }
        let mut n: usize = 0;
        while n < self.data.len()
            invariant
                n <= self.data@.len(),
                self.data@.len() == other.data@.len(),
                forall|k: int| 0 <= k < n ==> self.data@[k] == other.data@[k],
            decreases self.data@.len() - n,
        {
            if self.data[n] != other.data[n] {
                return false;
            }
            n += 1;
        }
        proof {
            assert(self.data@ =~= other.data@);
        }
        true
    }
}

impl PartialEqSpecImpl for Buffer1 {
    open spec fn obeys_eq_spec() -> bool {
        true
    }

    open spec fn eq_spec(&self, other: &Self) -> bool {
        self.same(other)
    }
}

impl Eq for Buffer1 {

}

impl Default for Buffer1 {
    fn default() -> (r: Self)
        ensures
            r.wf(),
            r@ == Seq::<nat>::empty(),
            r.padding() == Seq::<nat>::empty(),
    {
        let r = Self { data: Vec::new(), len: 0 };
        proof {
            assert(r@ =~= Seq::<nat>::empty());
            assert(r.padding() =~= Seq::<nat>::empty());
        }
        r
    }
}

proof fn lemma_set2(w: u32, s: u32, p: u32, v: u32)
    by (bit_vector)
    requires
        s % 2 == 0,
        s <= 30,
        p % 2 == 0,
        p <= 30,
        v <= 3,
    ensures
        (((w & !(3u32 << s)) | (v << s)) >> s) & 3 == v,
        p != s ==> (((w & !(3u32 << s)) | (v << s)) >> p) & 3 == (w >> p) & 3,
        (w >> p) & 3 <= 3,
{
}

proof fn lemma_fill2(v: u32, p: u32)
    by (bit_vector)
    requires
        v <= 3,
        p % 2 == 0,
        p <= 30,
    ensures
        ((if v == 0 {
            0u32
        } else if v == 1 {
            0x55555555u32
        } else if v == 2 {
            0xaaaaaaaau32
        } else {
            0xffffffffu32
        }) >> p) & 3 == v,
{
}

proof fn lemma_select2(w: u32, f: u32, m: u32, p: u32)
    by (bit_vector)
    requires
        p <= 30,
    ensures
        (m >> p) & 3 == 3 ==> (((w & !m) | (f & m)) >> p) & 3 == (f >> p) & 3,
        (m >> p) & 3 == 0 ==> (((w & !m) | (f & m)) >> p) & 3 == (w >> p) & 3,
{
}

proof fn lemma_mask2(s: u32, t: u32, p: u32, low: u32, high: u32)
    by (bit_vector)
    requires
        s % 2 == 0,
        t % 2 == 0,
        p % 2 == 0,
        s <= t,
        t <= 30,
        p <= 30,
        low == (1u32 << s) - 1,
        high == (1u32 << t) - 1,
    ensures
        (low >> p) & 3 == (if p < s {
            3u32
        } else {
            0u32
        }),
        ((low ^ high) >> p) & 3 == (if s <= p && p < t {
            3u32
        } else {
            0u32
        }),
{
}

proof fn lemma_shift2(s: u32)
    by (bit_vector)
    requires
        s <= 30,
    ensures
        (1u32 << s) >= 1,
{
}

proof fn lemma_same2(a: u32, b: u32)
    by (bit_vector)
    requires
        (a >> 0u32) & 3 == (b >> 0u32) & 3,
        (a >> 2u32) & 3 == (b >> 2u32) & 3,
        (a >> 4u32) & 3 == (b >> 4u32) & 3,
        (a >> 6u32) & 3 == (b >> 6u32) & 3,
        (a >> 8u32) & 3 == (b >> 8u32) & 3,
        (a >> 10u32) & 3 == (b >> 10u32) & 3,
        (a >> 12u32) & 3 == (b >> 12u32) & 3,
        (a >> 14u32) & 3 == (b >> 14u32) & 3,
        (a >> 16u32) & 3 == (b >> 16u32) & 3,
        (a >> 18u32) & 3 == (b >> 18u32) & 3,
        (a >> 20u32) & 3 == (b >> 20u32) & 3,
        (a >> 22u32) & 3 == (b >> 22u32) & 3,
        (a >> 24u32) & 3 == (b >> 24u32) & 3,
        (a >> 26u32) & 3 == (b >> 26u32) & 3,
        (a >> 28u32) & 3 == (b >> 28u32) & 3,
        (a >> 30u32) & 3 == (b >> 30u32) & 3,
    ensures
        a == b,
{
}

/// The cell with number `k` of a word.
spec fn cell2(word: u32, k: int) -> nat {
    ((word >> ((2 * k) as u32)) & 3) as nat
}

/// The word in which every cell has the value `v`.
spec fn fill2(v: nat) -> u32 {
    if v == 0 {
        0
    } else if v == 1 {
        0x55555555
    } else if v == 2 {
        0xaaaaaaaa
    } else {
        0xffffffff
    }
}

/// The word in which every cell has the given value.
fn fill_word2(val: Bit2) -> (r: u32)
    ensures
        r == fill2(val@),
        forall|k: int| 0 <= k < 16 ==> cell2(r, k) == val@,
{
    let v = val.idx();
    let r: u32 = if v == 0 {
        0
    } else if v == 1 {
        0x55555555
    } else if v == 2 {
        0xaaaaaaaa
    } else {
        0xffffffff
    };
    proof {
        assert forall|k: int| 0 <= k < 16 implies cell2(r, k) == val@ by {
            lemma_fill2(v, (2 * k) as u32);
        }
    }
    r
}

/// The word whose cells below `k` are all ones and whose other cells are zero.
fn low_mask2(k: usize) -> (r: u32)
    requires
        k < 16,
    ensures
        forall|j: int| 0 <= j < 16 ==> cell2(r, j) == if j < k { 3nat } else { 0nat },
{
    let s: u32 = (2 * k) as u32;
    proof {
        lemma_shift2(s);
    }
    let r: u32 = (1u32 << s) - 1;
    proof {
        assert forall|j: int| 0 <= j < 16 implies cell2(r, j) == if j < k { 3nat } else { 0nat } by {
            lemma_mask2(s, s, (2 * j) as u32, r, r);
        }
    }
    r
}

/// The word whose cells from `from` up to `to` are all ones and whose other
/// cells are zero.
fn range_mask2(from: usize, to: usize) -> (r: u32)
    requires
        from <= to < 16,
    ensures
        forall|j: int| 0 <= j < 16 ==> cell2(r, j) == if from <= j < to { 3nat } else { 0nat },
{
    let s: u32 = (2 * from) as u32;
    let t: u32 = (2 * to) as u32;
    proof {
        lemma_shift2(s);
        lemma_shift2(t);
    }
    let low: u32 = (1u32 << s) - 1;
    let high: u32 = (1u32 << t) - 1;
    let r = low ^ high;
    proof {
        assert forall|j: int| 0 <= j < 16 implies cell2(r, j) == if from <= j < to { 3nat } else { 0nat } by {
            lemma_mask2(s, t, (2 * j) as u32, low, high);
        }
    }
    r
}

/// The word that takes its cells from `fill` where the cell of `mask` is
/// all ones, and from `word` where it is zero.
fn select2(word: u32, fill: u32, mask: u32) -> (r: u32)
    ensures
        forall|j: int|
            0 <= j < 16 ==> (cell2(mask, j) == 3 ==> #[trigger] cell2(r, j) == cell2(fill, j)) && (cell2(mask, j)
                == 0 ==> cell2(r, j) == cell2(word, j)),
{
    let r = (word & !mask) | (fill & mask);
    proof {
        assert forall|j: int| 0 <= j < 16 implies (cell2(mask, j) == 3 ==> #[trigger] cell2(r, j) == cell2(
            fill,
            j,
        )) && (cell2(mask, j) == 0 ==> cell2(r, j) == cell2(word, j)) by {
            lemma_select2(word, fill, mask, (2 * j) as u32);
        }
    }
    r
}

/// The cells of a sequence of words, one after the other.
spec fn cells2(data: Seq<u32>) -> Seq<nat> {
    Seq::new(16 * data.len(), |i: int| cell2(data[i / 16], i % 16))
}

/// A vector for holding double bits represented as 0, 1, 2 or 3.
#[derive(Debug)]
pub struct Buffer2 {
    data: Vec<u32>,
    len: usize,
}

impl Buffer2 {
    /// The values of the cells, in their order.
    pub closed spec fn view(&self) -> Seq<nat> {
        Seq::new(self.len as nat, |i: int| cells2(self.data@)[i])
    }

    /// The values of the unused cells behind the last cell, up to the end of
    /// the last word.
    pub closed spec fn padding(&self) -> Seq<nat> {
        Seq::new((16 * self.data@.len() - self.len) as nat, |i: int| cells2(self.data@)[self.len + i])
    }

    /// The number of cells in the words that hold `len` cells.
    pub open spec fn capacity(len: nat) -> nat {
        (len + 15) / 16 * 16
    }

    /// The buffer has exactly the words that its cells need.
    pub closed spec fn wf(&self) -> bool {
        &&& self.len + 15 <= usize::MAX
        &&& self.data@.len() == (self.len + 15) / 16
    }

    /// Whether two buffers have the same length and the same words.
    pub closed spec fn same(&self, other: &Self) -> bool {
        self.len == other.len && self.data@ == other.data@
    }

    /// The view has the length of the buffer, the padding fills the last
    /// word, and every value is below four.
    pub proof fn lemma_view(&self)
        requires
            self.wf(),
        ensures
            self@.len() + 15 <= usize::MAX,
            self@.len() + self.padding().len() == Self::capacity(self@.len()),
            forall|i: int| 0 <= i < self@.len() ==> self@[i] <= 3,
            forall|i: int| 0 <= i < self.padding().len() ==> self.padding()[i] <= 3,
    {
        assert forall|i: int| 0 <= i < 16 * self.data@.len() implies cells2(self.data@)[i] <= 3 by {
            lemma_set2(self.data@[i / 16], 0, (2 * (i % 16)) as u32, 0);
        }
    }

    /// Two buffers are equal if and only if they have the same cells and
    /// the same padding.
    pub proof fn lemma_same(&self, other: &Self)
        requires
            self.wf(),
            other.wf(),
        ensures
            self.same(other) <==> (self@ == other@ && self.padding() == other.padding()),
    {
        let a = cells2(self.data@);
        let b = cells2(other.data@);
        if self@ == other@ && self.padding() == other.padding() {
            assert(self@.len() == other@.len());
            assert(self.len == other.len);
            assert forall|i: int| 0 <= i < a.len() implies a[i] == b[i] by {
                if i < self.len {
                    assert(a[i] == self@[i]);
                    assert(b[i] == other@[i]);
                } else {
                    assert(a[i] == self.padding()[i - self.len]);
                    assert(b[i] == other.padding()[i - self.len]);
                }
            }
            assert forall|n: int| 0 <= n < self.data@.len() implies self.data@[n] == other.data@[n] by {
                let x = self.data@[n];
                let y = other.data@[n];
                assert forall|p: u32| p % 2 == 0 && p <= 30 implies #[trigger] ((x >> p) & 3) == (y >> p) & 3 by {
                    let k = (p / 2) as int;
                    let i = 16 * n + k;
                    assert(i / 16 == n && i % 16 == k);
                    assert(a[i] == cell2(x, k));
                    assert(b[i] == cell2(y, k));
                    assert((2 * k) as u32 == p);
                    lemma_set2(x, 0, p, 0);
                    lemma_set2(y, 0, p, 0);
                }
                assert((x >> 0u32) & 3 == (y >> 0u32) & 3);
                assert((x >> 2u32) & 3 == (y >> 2u32) & 3);
                assert((x >> 4u32) & 3 == (y >> 4u32) & 3);
                assert((x >> 6u32) & 3 == (y >> 6u32) & 3);
                assert((x >> 8u32) & 3 == (y >> 8u32) & 3);
                assert((x >> 10u32) & 3 == (y >> 10u32) & 3);
                assert((x >> 12u32) & 3 == (y >> 12u32) & 3);
                assert((x >> 14u32) & 3 == (y >> 14u32) & 3);
                assert((x >> 16u32) & 3 == (y >> 16u32) & 3);
                assert((x >> 18u32) & 3 == (y >> 18u32) & 3);
                assert((x >> 20u32) & 3 == (y >> 20u32) & 3);
                assert((x >> 22u32) & 3 == (y >> 22u32) & 3);
                assert((x >> 24u32) & 3 == (y >> 24u32) & 3);
                assert((x >> 26u32) & 3 == (y >> 26u32) & 3);
                assert((x >> 28u32) & 3 == (y >> 28u32) & 3);
                assert((x >> 30u32) & 3 == (y >> 30u32) & 3);
                lemma_same2(x, y);
            }
            assert(self.data@ =~= other.data@);
        }
    }

    /// Creates a buffer of the given length in which every cell has the
    /// given value.
    pub fn new(len: usize, val: Bit2) -> (r: Self)
        requires
            len + 15 <= usize::MAX,
        ensures
            r.wf(),
            r@ == Seq::new(len as nat, |i: int| val@),
            r.padding() == Seq::new((Self::capacity(len as nat) - len) as nat, |i: int| val@),
    {
        let fill = fill_word2(val);
        let words = (len + 15) / 16;
        let mut data: Vec<u32> = Vec::new();
        while data.len() < words
            invariant
                data@.len() <= words,
                forall|n: int| 0 <= n < data@.len() ==> data@[n] == fill,
            decreases words - data@.len(),
        {
            data.push(fill);
        }
        let r = Self { data, len };
        proof {
            assert(r@ =~= Seq::new(len as nat, |i: int| val@));
            assert(r.padding() =~= Seq::new((Self::capacity(len as nat) - len) as nat, |i: int| val@));
        }
        r
    }

    /// Appends `len` cells with the given value. The cells that the buffer
    /// has keep their values, whatever its length is and whatever stood
    /// behind its last cell.
    pub fn append(&mut self, len: usize, val: Bit2)
        requires
            old(self).wf(),
            old(self)@.len() + len + 15 <= usize::MAX,
        ensures
            final(self).wf(),
            final(self)@ == appended(old(self)@, len as nat, val@),
            final(self)@.len() == old(self)@.len() + len,
            forall|i: int| 0 <= i < old(self)@.len() ==> final(self)@[i] == old(self)@[i],
            forall|i: int| old(self)@.len() <= i < final(self)@.len() ==> final(self)@[i] == val@,
            final(self).padding() == Seq::new(
                (Self::capacity(final(self)@.len()) - final(self)@.len()) as nat,
                |i: int| val@,
            ),
    {
        let fill = fill_word2(val);
        let ghost before = cells2(self.data@);
        let ghost old_len = self.len;
        if self.len % 16 != 0 {
            let mask = low_mask2(self.len % 16);
            let last = self.data.len() - 1;
            let word = self.data[last];
            self.data[last] = select2(fill, word, mask);
        }
        proof {
            assert forall|i: int| 0 <= i < before.len() implies cells2(self.data@)[i] == if i < old_len {
                before[i]
            } else {
                val@
            } by {
                if old_len % 16 != 0 && i / 16 == self.data@.len() - 1 {
                    assert(cell2(self.data@[i / 16], i % 16) == if i % 16 < old_len % 16 {
                        cell2(old(self).data@[i / 16], i % 16)
                    } else {
                        val@
                    });
                }
            }
        }
        self.len = self.len + len;
        let words = (self.len + 15) / 16;
        let ghost merged = self.data@;
        while self.data.len() < words
            invariant
                merged.len() <= self.data@.len() <= words,
                self.data@.take(merged.len() as int) == merged,
                forall|n: int| merged.len() <= n < self.data@.len() ==> self.data@[n] == fill,
                self.len == old_len + len,
                words == (self.len + 15) / 16,
                self.len + 15 <= usize::MAX,
            decreases words - self.data@.len(),
        {
            self.data.push(fill);
        }
        proof {
            let after = cells2(self.data@);
            assert forall|i: int| 0 <= i < after.len() implies after[i] == if i < old_len {
                before[i]
            } else {
                val@
            } by {
                if i < before.len() {
                    assert(self.data@[i / 16] == merged[i / 16]) by {
                        assert(self.data@.take(merged.len() as int)[i / 16] == merged[i / 16]);
                    }
                    assert(cells2(merged)[i] == after[i]);
                }
            }
            assert(self@ =~= appended(old(self)@, len as nat, val@));
            lemma_appended(old(self)@, len as nat, val@);
            assert(self.padding() =~= Seq::new(
                (Self::capacity(self@.len()) - self@.len()) as nat,
                |i: int| val@,
            ));
        }
    }

    /// The number of cells.
    pub fn len(&self) -> (r: usize)
        ensures
            r == self@.len(),
    {
        self.len
    }

    /// The value of the cell at the given position.
    pub fn get(&self, pos: usize) -> (r: Bit2)
        requires
            self.wf(),
            pos < self@.len(),
        ensures
            r@ == self@[pos as int],
    {
        let word = self.data[pos / 16];
        let shift: u32 = (2 * (pos % 16)) as u32;
        proof {
            lemma_set2(word, 0, shift, 0);
        }
        Bit2::new((word >> shift) & 3)
    }

    /// Gives the cell at the given position the given value.
    pub fn set(&mut self, pos: usize, val: Bit2)
        requires
            old(self).wf(),
            pos < old(self)@.len(),
        ensures
            final(self).wf(),
            final(self)@ == old(self)@.update(pos as int, val@),
            final(self).padding() == old(self).padding(),
    {
        let at = pos / 16;
        let shift: u32 = (2 * (pos % 16)) as u32;
        let word = self.data[at];
        let v = val.idx();
        let next = (word & !(3u32 << shift)) | (v << shift);
        self.data[at] = next;
        proof {
            let before = cells2(old(self).data@);
            let after = cells2(self.data@);
            assert forall|i: int| 0 <= i < before.len() implies after[i] == if i == pos {
                val@
            } else {
                before[i]
            } by {
                if i / 16 == at {
                    lemma_set2(word, shift, (2 * (i % 16)) as u32, v);
                }
            }
            assert(self@ =~= old(self)@.update(pos as int, val@));
            assert(self.padding() =~= old(self).padding());
        }
    }

    /// Gives every cell the given value.
    pub fn fill(&mut self, val: Bit2)
        requires
            old(self).wf(),
        ensures
            final(self).wf(),
            final(self)@ == Seq::new(old(self)@.len(), |i: int| val@),
            final(self).padding() == Seq::new(old(self).padding().len(), |i: int| val@),
    {
        let fill = fill_word2(val);
        let words = self.data.len();
        let mut n: usize = 0;
        while n < words
            invariant
                n <= words,
                words == self.data@.len(),
                self.len == old(self).len,
                forall|k: int| 0 <= k < n ==> self.data@[k] == fill,
            decreases words - n,
        {
            self.data[n] = fill;
            n += 1;
        }
        proof {
            assert(self@ =~= Seq::new(old(self)@.len(), |i: int| val@));
            assert(self.padding() =~= Seq::new(old(self).padding().len(), |i: int| val@));
        }
    }

    /// The cells of a buffer after the cells from `start` up to `end` got
    /// the value `v`.
    pub open spec fn filled(cells: Seq<nat>, start: int, end: int, v: nat) -> Seq<nat> {
        Seq::new(cells.len(), |i: int| if start <= i < end { v } else { cells[i] })
    }

    /// Gives the cells in the given range of positions the given value.
    pub fn fill_range(&mut self, range: std::ops::Range<usize>, val: Bit2)
        requires
            old(self).wf(),
            range.start <= range.end <= old(self)@.len(),
        ensures
            final(self).wf(),
            final(self)@ == Self::filled(old(self)@, range.start as int, range.end as int, val@),
            final(self).padding() == old(self).padding(),
    {
        let start = range.start;
        let end = range.end;
        let fill = fill_word2(val);
        let ghost before = cells2(self.data@);
        let ghost goal = |i: int| if start <= i < end { val@ } else { before[i] };
        if start >= end {
        } else if start / 16 == end / 16 {
            let mask = range_mask2(start % 16, end % 16);
            let at = start / 16;
            let word = self.data[at];
            let next = select2(word, fill, mask);
            self.data[at] = next;
            proof {
                let after = cells2(self.data@);
                assert forall|i: int| 0 <= i < before.len() implies after[i] == goal(i) by {
                    let w = i / 16;
                    let k = i % 16;
                    assert(i == 16 * w + k);
                    if w == at {
                        assert(after[i] == cell2(next, k));
                        assert(before[i] == cell2(word, k));
                        assert(cell2(mask, k) == if start % 16 <= k < end % 16 { 3nat } else { 0nat });
                    }
                }
            }
        } else {
            let mask = low_mask2(start % 16);
            let at = start / 16;
            let word = self.data[at];
            let next = select2(fill, word, mask);
            self.data[at] = next;
            let mut n: usize = at + 1;
            let stop = end / 16;
            let ghost head = self.data@;
            while n < stop
                invariant
                    at < n <= stop,
                    stop == end / 16,
                    stop <= self.data@.len(),
                    self.data@.len() == head.len(),
                    self.len == old(self).len,
                    at < old(self).data@.len(),
                    head == old(self).data@.update(at as int, next),
                    forall|k: int| at < k < n ==> self.data@[k] == fill,
                    forall|k: int| 0 <= k < head.len() && !(at < k < n) ==> self.data@[k] == head[k],
                decreases stop - n,
            {
                self.data[n] = fill;
                n += 1;
            }
            let ghost middle = self.data@;
            let ghost tail_word = 0u32;
            let ghost tail_next = 0u32;
            let ghost tail_mask = 0u32;
            if end % 16 != 0 {
                let mask = low_mask2(end % 16);
                let word = self.data[stop];
                let next = select2(word, fill, mask);
                self.data[stop] = next;
                proof {
                    tail_word = word;
                    tail_next = next;
                    tail_mask = mask;
                }
            }
            proof {
                let after = cells2(self.data@);
                assert forall|i: int| 0 <= i < before.len() implies after[i] == goal(i) by {
                    let w = i / 16;
                    let k = i % 16;
                    assert(i == 16 * w + k);
                    assert(before[i] == cell2(old(self).data@[w], k));
                    assert(after[i] == cell2(self.data@[w], k));
                    if w == at {
                        assert(middle[w] == head[w]);
                        assert(self.data@[w] == next);
                        assert(cell2(mask, k) == if k < start % 16 { 3nat } else { 0nat });
                        assert(cell2(fill, k) == val@);
                    } else if at < w < stop {
                        assert(middle[w] == fill);
                        assert(self.data@[w] == fill);
                        assert(cell2(fill, k) == val@);
                    } else if w == stop {
                        assert(middle[w] == head[w]);
                        assert(head[w] == old(self).data@[w]);
                        if end % 16 != 0 {
                            assert(self.data@[w] == tail_next);
                            assert(tail_word == old(self).data@[w]);
                            assert(cell2(tail_mask, k) == if k < end % 16 { 3nat } else { 0nat });
                            assert(cell2(fill, k) == val@);
                        } else {
                            assert(self.data@[w] == old(self).data@[w]);
                        }
                    } else {
                        assert(middle[w] == head[w]);
                        assert(head[w] == old(self).data@[w]);
                        assert(self.data@[w] == old(self).data@[w]);
                    }
                }
            }
        }
        proof {
            let after = cells2(self.data@);
            assert(forall|i: int| 0 <= i < before.len() ==> after[i] == goal(i));
            assert(self@ =~= Self::filled(old(self)@, start as int, end as int, val@));
            assert(self.padding() =~= old(self).padding());
        }
    }

    /// Updates all values in this buffer by applying the given binary
    /// operation to values coming from another buffer indexed by the
    /// given iterator. The iterator must have exactly as many positions left as
    /// this buffer has cells, each of them a position of the other buffer.
    pub fn apply(&mut self, op: Op222, other: &Self, iter: &mut ShapeIter)
        requires
            old(self).wf(),
            other.wf(),
            old(iter).wf(),
            old(iter).spec_remaining().len() == old(self)@.len(),
            forall|i: int|
                0 <= i < old(iter).spec_remaining().len() ==> old(iter).spec_remaining()[i] < other@.len(),
        ensures
            final(self).wf(),
            final(self)@ == Self::applied(op, old(self)@, other@, old(iter).spec_remaining()),
            final(self).padding() == old(self).padding(),
            final(iter).wf(),
            final(iter).spec_axes() == old(iter).spec_axes(),
            final(iter).spec_offset() == old(iter).spec_offset(),
            final(iter).spec_count() == final(iter).spec_volume(),
    {
        let ghost pending = iter.spec_remaining();
        let ghost first = iter.spec_count();
        let ghost before = self@;
        let mut pos1: usize = 0;
        proof {
            iter.lemma_count();
        }
        loop
            invariant
                self.wf(),
                other.wf(),
                iter.wf(),
                iter.spec_axes() == old(iter).spec_axes(),
                iter.spec_offset() == old(iter).spec_offset(),
                first == old(iter).spec_count(),
                iter.spec_count() == first + pos1,
                iter.spec_count() <= iter.spec_volume(),
                pending == old(iter).spec_remaining(),
                pending.len() == before.len(),
                first + pending.len() == iter.spec_volume(),
                forall|i: int| 0 <= i < pending.len() ==> pending[i] < other@.len(),
                self@.len() == before.len(),
                before == old(self)@,
                self.padding() == old(self).padding(),
                forall|i: int| 0 <= i < pos1 ==> self@[i] == op.spec_of(before[i], other@[pending[i] as int]),
                forall|i: int| pos1 <= i < before.len() ==> self@[i] == before[i],
            ensures
                pos1 == before.len(),
                iter.spec_count() == iter.spec_volume(),
            decreases iter.spec_volume() - iter.spec_count(),
        {
            let ghost here = iter.spec_count();
            let item = iter.next();
            if item.is_none() {
                break;
            }
            let pos2 = item.unwrap();
            proof {
                assert(pending[pos1 as int] == old(iter).spec_nth((first + pos1) as nat));
                assert(pos2 == pending[pos1 as int]);
                iter.lemma_count();
            }
            let val = op.of(self.get(pos1), other.get(pos2));
            self.set(pos1, val);
            pos1 += 1;
        }
        proof {
            assert(self@ =~= Self::applied(op, before, other@, pending));
        }
    }

    /// The cells after the operator has been applied to each cell and the
    /// cell of the other buffer at the position with the same number.
    pub open spec fn applied(op: Op222, cells: Seq<nat>, other: Seq<nat>, positions: Seq<nat>) -> Seq<nat> {
        Seq::new(cells.len(), |i: int| op.spec_of(cells[i], other[positions[i] as int]))
    }

}

impl PartialEq for Buffer2 {
    fn eq(&self, other: &Self) -> (r: bool) {
        if self.len != other.len || self.data.len() != other.data.len() {
            return false;
        }
        let mut n: usize = 0;
        while n < self.data.len()
            invariant
                n <= self.data@.len(),
                self.data@.len() == other.data@.len(),
                forall|k: int| 0 <= k < n ==> self.data@[k] == other.data@[k],
            decreases self.data@.len() - n,
        {
            if self.data[n] != other.data[n] {
                return false;
            }
            n += 1;
        }
        proof {
            assert(self.data@ =~= other.data@);
        }
        true
    }
}

impl PartialEqSpecImpl for Buffer2 {
    open spec fn obeys_eq_spec() -> bool {
        true
    }

    open spec fn eq_spec(&self, other: &Self) -> bool {
        self.same(other)
    }
}

impl Eq for Buffer2 {

}

impl Default for Buffer2 {
    fn default() -> (r: Self)
        ensures
            r.wf(),
            r@ == Seq::<nat>::empty(),
            r.padding() == Seq::<nat>::empty(),
    {
        let r = Self { data: Vec::new(), len: 0 };
        proof {
            assert(r@ =~= Seq::<nat>::empty());
            assert(r.padding() =~= Seq::<nat>::empty());
        }
        r
    }
}

/// The cells after each of the first `upto` cells got the value at its
/// place in `values`.
pub open spec fn written(cells: Seq<nat>, values: Seq<nat>, upto: int) -> Seq<nat>
    decreases upto,
{
    if upto <= 0 {
        cells
    } else {
        written(cells, values, upto - 1).update(upto - 1, values[upto - 1])
    }
}

/// The cells after each cell from `start` up to `upto` got the value `v`.
pub open spec fn set_each(cells: Seq<nat>, start: int, upto: int, v: nat) -> Seq<nat>
    decreases upto - start,
{
    if upto <= start {
        cells
    } else {
        set_each(cells, start, upto - 1, v).update(upto - 1, v)
    }
}

/// Writing the first cells changes these cells alone.
proof fn lemma_written_prefix(cells: Seq<nat>, values: Seq<nat>, upto: int)
    requires
        0 <= upto <= cells.len(),
        cells.len() == values.len(),
    ensures
        written(cells, values, upto).len() == cells.len(),
        forall|i: int| 0 <= i < upto ==> written(cells, values, upto)[i] == values[i],
        forall|i: int| upto <= i < cells.len() ==> written(cells, values, upto)[i] == cells[i],
    decreases upto,
{
    if upto > 0 {
        lemma_written_prefix(cells, values, upto - 1);
    }
}

/// When every cell of a buffer was written, the buffer reads as what was
/// written, whatever it held before.
pub proof fn lemma_written(cells: Seq<nat>, values: Seq<nat>)
    requires
        cells.len() == values.len(),
    ensures
        written(cells, values, cells.len() as int) == values,
{
    lemma_written_prefix(cells, values, cells.len() as int);
    assert(written(cells, values, cells.len() as int) =~= values);
}

/// The cells after `count` cells with the value `v` were appended.
pub open spec fn appended(cells: Seq<nat>, count: nat, v: nat) -> Seq<nat> {
    cells + Seq::new(count, |i: int| v)
}

/// Appending cells keeps the cells that were there, and the new cells have
/// the value that was appended.
pub proof fn lemma_appended(cells: Seq<nat>, count: nat, v: nat)
    ensures
        appended(cells, count, v).len() == cells.len() + count,
        appended(cells, count, v).take(cells.len() as int) == cells,
        forall|i: int| 0 <= i < cells.len() ==> #[trigger] appended(cells, count, v)[i] == cells[i],
        forall|i: int| cells.len() <= i < cells.len() + count ==> #[trigger] appended(cells, count, v)[i] == v,
{
    assert(appended(cells, count, v).take(cells.len() as int) =~= cells);
}

/// Filling a range of cells is giving each cell of the range the value,
/// one after the other.
pub proof fn lemma_fill_is_set_each(cells: Seq<nat>, start: int, end: int, v: nat)
    requires
        0 <= start <= end <= cells.len(),
    ensures
        Buffer1::filled(cells, start, end, v) == set_each(cells, start, end, v),
        Buffer2::filled(cells, start, end, v) == set_each(cells, start, end, v),
    decreases end - start,
{
    if start < end {
        lemma_fill_is_set_each(cells, start, end - 1, v);
        assert(Buffer1::filled(cells, start, end, v) =~= Buffer1::filled(cells, start, end - 1, v).update(
            end - 1,
            v,
        ));
        assert(Buffer2::filled(cells, start, end, v) =~= Buffer2::filled(cells, start, end - 1, v).update(
            end - 1,
            v,
        ));
    } else {
        assert(Buffer1::filled(cells, start, end, v) =~= cells);
        assert(Buffer2::filled(cells, start, end, v) =~= cells);
    }
}

/// A buffer whose range was filled is equal to a buffer whose cells in
/// the range were set one by one, if the two were equal before.
pub proof fn lemma_fill_range_equals_sets(filled: &Buffer2, set: &Buffer2, origin: &Buffer2, start: int, end: int, v: nat)
    requires
        filled.wf(),
        set.wf(),
        origin.wf(),
        0 <= start <= end <= origin@.len(),
        filled@ == Buffer2::filled(origin@, start, end, v),
        filled.padding() == origin.padding(),
        set@ == set_each(origin@, start, end, v),
        set.padding() == origin.padding(),
    ensures
        filled.same(set),
{
    lemma_fill_is_set_each(origin@, start, end, v);
    filled.lemma_same(set);
}

} // verus!
