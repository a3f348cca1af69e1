//! A plain bit vector, and strided views and tables over it.

use crate::shape::{
    bulk_of, dot, flat_index, lemma_bulk_prefix, lemma_dot_bound, lemma_flat_index, lemma_span_prefix,
    lemma_view_step, lemma_volume_step, lengths_of, span, valid_coords, volume_of,
};
use vstd::prelude::*;

verus! {

proof fn lemma_bit(word: u32, shift: u32)
    by (bit_vector)
    requires
        shift < 32,
    ensures
        (word & (1u32 << shift) != 0) == ((word >> shift) & 1 == 1),
{
}

/// A vector of bits.
#[derive(Debug)]
pub struct Buffer {
    data: Vec<u32>,
    length: usize,
}

impl Buffer {
    /// The bits of the buffer, in their order.
    pub closed spec fn view(&self) -> Seq<bool> {
        Seq::new(self.length as nat, |i: int| (self.data@[i / 32] >> ((i % 32) as u32)) & 1 == 1)
    }

    /// The buffer has the words that its bits need.
    pub closed spec fn wf(&self) -> bool {
        &&& self.length + 31 <= usize::MAX
        &&& self.data@.len() == (self.length + 31) / 32
    }

    /// Creates a buffer of the given number of bits, all of them unset.
    pub fn new(length: usize) -> (r: Self)
        requires
            length + 31 <= usize::MAX,
        ensures
            r.wf(),
            r@.len() == length,
    {
        let words = (length + 31) / 32;
        let mut data: Vec<u32> = Vec::new();
        while data.len() < words
            invariant
                data@.len() <= words,
            decreases words - data@.len(),
        {
            data.push(0);
        }
        Self { data, length }
    }

    /// The number of bits.
    pub fn len(&self) -> (r: usize)
        ensures
            r == self@.len(),
    {
        self.length
    }

    /// Whether the bit at the given index is set.
    pub fn get(&self, index: usize) -> (r: bool)
        requires
            self.wf(),
            index < self@.len(),
        ensures
            r == self@[index as int],
    {
        let n = index / 32;
        let shift: u32 = (index % 32) as u32;
        proof {
            lemma_bit(self.data@[n as int], shift);
        }
        let b: u32 = 1u32 << shift;
        self.data[n] & b != 0
    }
}

/// A strided view: a list of axes, each a length with its stride, and
/// an offset.
#[derive(Debug)]
pub struct BitView {
    shape: Vec<(usize, usize)>,
    offset: usize,
}

impl BitView {
    /// The axes of the view.
    pub closed spec fn spec_axes(&self) -> Seq<(usize, usize)> {
        self.shape@
    }

    /// The index of the first element.
    pub closed spec fn spec_offset(&self) -> usize {
        self.offset
    }

    /// Every product of lengths and every index fits in a machine word.
    pub open spec fn wf(&self) -> bool {
        &&& bulk_of(lengths_of(self.spec_axes())) <= usize::MAX
        &&& self.spec_offset() + span(self.spec_axes()) <= usize::MAX
    }

    /// Makes the view with the given axes and offset.
    pub fn new(shape: Vec<(usize, usize)>, offset: usize) -> (r: Self)
        ensures
            r.spec_axes() == shape@,
            r.spec_offset() == offset,
    {
        Self { shape, offset }
    }

    /// The number of axes.
    pub fn dim(&self) -> (r: usize)
        ensures
            r == self.spec_axes().len(),
    {
        self.shape.len()
    }

    /// The number of elements: the product of the lengths.
    pub fn len(&self) -> (r: usize)
        requires
            self.wf(),
        ensures
            r == volume_of(lengths_of(self.spec_axes())),
    {
        product(&self.shape)
    }

    /// The index of the element at the given coordinates.
    pub fn index(&self, coord: &Vec<usize>) -> (r: usize)
        requires
            self.wf(),
            valid_coords(lengths_of(self.spec_axes()), coord@),
        ensures
            r == self.spec_offset() + dot(self.spec_axes(), coord@),
    {
        weighted(&self.shape, self.offset, coord)
    }
}

/// The product of the lengths of the axes.
fn product(shape: &Vec<(usize, usize)>) -> (r: usize)
    requires
        bulk_of(lengths_of(shape@)) <= usize::MAX,
    ensures
        r == volume_of(lengths_of(shape@)),
{
    let ghost lengths = lengths_of(shape@);
    let mut len: usize = 1;
    let mut i: usize = 0;
    while i < shape.len()
        invariant
            i <= shape@.len(),
            lengths == lengths_of(shape@),
            bulk_of(lengths) <= usize::MAX,
            len == volume_of(lengths.take(i as int)),
        decreases shape@.len() - i,
    {
        proof {
            lemma_volume_step(lengths, i as int);
            lemma_bulk_prefix(lengths, i + 1);
        }
        len = len * shape[i].0;
        i += 1;
    }
    proof {
        assert(lengths.take(i as int) =~= lengths);
    }
    len
}

/// The offset plus the sum of the coordinates, each multiplied by the
/// stride of its axis.
fn weighted(shape: &Vec<(usize, usize)>, offset: usize, coord: &Vec<usize>) -> (r: usize)
    requires
        offset + span(shape@) <= usize::MAX,
        valid_coords(lengths_of(shape@), coord@),
    ensures
        r == offset + dot(shape@, coord@),
{
    let mut index: usize = offset;
    let mut i: usize = 0;
    while i < shape.len()
        invariant
            i <= shape@.len(),
            offset + span(shape@) <= usize::MAX,
            valid_coords(lengths_of(shape@), coord@),
            index == offset + dot(shape@.take(i as int), coord@.take(i as int)),
        decreases shape@.len() - i,
    {
        proof {
            lemma_view_step(shape@, coord@, i as int);
            assert forall|k: int| 0 <= k < i + 1 implies (#[trigger] coord@.take(i + 1)[k]) < lengths_of(
                shape@.take(i + 1),
            )[k] by {
                assert(coord@[k] < lengths_of(shape@)[k]);
            }
            lemma_dot_bound(shape@.take(i + 1), coord@.take(i + 1));
            lemma_span_prefix(shape@, i + 1);
            vstd::arithmetic::mul::lemma_mul_nonnegative(coord@[i as int] as int, shape@[i as int].1 as int);
        }
        index = index + coord[i] * shape[i].1;
        i += 1;
    }
    proof {
        assert(shape@.take(i as int) =~= shape@);
        assert(coord@.take(i as int) =~= coord@);
    }
    index
}

/// A strided view of the bits of a buffer.
#[derive(Debug)]
pub struct Table<'a> {
    buffer: &'a Buffer,
    shape: Vec<(usize, usize)>,
    offset: usize,
}

impl<'a> Table<'a> {
    /// The axes of the table.
    pub closed spec fn spec_axes(&self) -> Seq<(usize, usize)> {
        self.shape@
    }

    /// The index of the first element.
    pub closed spec fn spec_offset(&self) -> usize {
        self.offset
    }

    /// The bits of the buffer.
    pub closed spec fn spec_bits(&self) -> Seq<bool> {
        self.buffer@
    }

    /// The buffer is well formed, and every element of the table is a bit
    /// of it.
    pub closed spec fn wf(&self) -> bool {
        &&& self.buffer.wf()
        &&& bulk_of(lengths_of(self.shape@)) <= usize::MAX
        &&& self.offset + span(self.shape@) < self.buffer@.len()
    }

    /// Makes the table with the given axes and offset over the buffer.
    pub fn new(buffer: &'a Buffer, shape: Vec<(usize, usize)>, offset: usize) -> (r: Self)
        requires
            buffer.wf(),
            bulk_of(lengths_of(shape@)) <= usize::MAX,
            offset + span(shape@) < buffer@.len(),
        ensures
            r.wf(),
            r.spec_axes() == shape@,
            r.spec_offset() == offset,
            r.spec_bits() == buffer@,
    {
        Self { buffer, shape, offset }
    }

    /// The number of elements: the product of the lengths.
    pub fn len(&self) -> (r: usize)
        requires
            self.wf(),
        ensures
            r == volume_of(lengths_of(self.spec_axes())),
    {
        product(&self.shape)
    }

    /// The number of axes.
    pub fn dim(&self) -> (r: usize)
        ensures
            r == self.spec_axes().len(),
    {
        self.shape.len()
    }

    /// The bit at the given coordinates.
    pub fn get(&self, coord: &Vec<usize>) -> (r: bool)
        requires
            self.wf(),
            valid_coords(lengths_of(self.spec_axes()), coord@),
        ensures
            r == self.spec_bits()[self.spec_offset() + dot(self.spec_axes(), coord@)],
    {
        proof {
            lemma_dot_bound(self.shape@, coord@);
        }
        let index = weighted(&self.shape, self.offset, coord);
        self.buffer.get(index)
    }
}

/// A position in a table of a buffer: a coordinate for every axis.
#[derive(Debug)]
pub struct BitIter<'a> {
    vector: &'a Buffer,
    shape: Vec<(usize, usize, usize)>,
    offset: usize,
}

impl<'a> BitIter<'a> {
    /// The lengths of the axes.
    pub closed spec fn spec_lengths(&self) -> Seq<usize> {
        Seq::new(self.shape@.len(), |k: int| self.shape@[k].1)
    }

    /// The coordinates at which the iterator stands.
    pub closed spec fn spec_coords(&self) -> Seq<usize> {
        Seq::new(self.shape@.len(), |k: int| self.shape@[k].0)
    }

    /// Makes the iterator with the given entries, each a coordinate, a
    /// length and a stride.
    pub fn new(vector: &'a Buffer, shape: Vec<(usize, usize, usize)>, offset: usize) -> (r: Self)
        ensures
            r.spec_lengths() == Seq::new(shape@.len(), |k: int| shape@[k].1),
            r.spec_coords() == Seq::new(shape@.len(), |k: int| shape@[k].0),
    {
        Self { vector, shape, offset }
    }

    /// The number of elements: the product of the lengths.
    pub fn len(&self) -> (r: usize)
        requires
            bulk_of(self.spec_lengths()) <= usize::MAX,
        ensures
            r == volume_of(self.spec_lengths()),
    {
        let ghost lengths = self.spec_lengths();
        let mut len: usize = 1;
        let mut i: usize = 0;
        while i < self.shape.len()
            invariant
                i <= self.shape@.len(),
                lengths == self.spec_lengths(),
                bulk_of(lengths) <= usize::MAX,
                len == volume_of(lengths.take(i as int)),
            decreases self.shape@.len() - i,
        {
            proof {
                lemma_volume_step(lengths, i as int);
                lemma_bulk_prefix(lengths, i + 1);
            }
            len = len * self.shape[i].1;
            i += 1;
        }
        proof {
            assert(lengths.take(i as int) =~= lengths);
        }
        len
    }

    /// The row-major index of the coordinates at which the iterator stands.
    pub fn pos(&self) -> (r: usize)
        requires
            bulk_of(self.spec_lengths()) <= usize::MAX,
            valid_coords(self.spec_lengths(), self.spec_coords()),
        ensures
            r == flat_index(self.spec_lengths(), self.spec_coords()),
    {
        let ghost lengths = self.spec_lengths();
        let ghost coords = self.spec_coords();
        let mut pos: usize = 0;
        let mut i: usize = 0;
        while i < self.shape.len()
            invariant
                i <= self.shape@.len(),
                lengths == self.spec_lengths(),
                coords == self.spec_coords(),
                bulk_of(lengths) <= usize::MAX,
                valid_coords(lengths, coords),
                pos == flat_index(lengths.take(i as int), coords.take(i as int)),
            decreases self.shape@.len() - i,
        {
            proof {
                let cut = lengths.take(i + 1);
                let cs = coords.take(i + 1);
                assert(cut.drop_last() =~= lengths.take(i as int));
                assert(cs.drop_last() =~= coords.take(i as int));
                lemma_flat_index(cut, cs);
                lemma_bulk_prefix(lengths, i + 1);
            }
            pos = pos * self.shape[i].1 + self.shape[i].0;
            i += 1;
        }
        proof {
            assert(lengths.take(i as int) =~= lengths);
            assert(coords.take(i as int) =~= coords);
        }
        pos
    }

    /// Hands out the next word of bits. The iterator has none.
    pub fn next(&mut self) -> (r: Option<u32>)
        ensures
            r.is_none(),
    {
        None
    }
}

} // verus!
