//! Dense relations over tuples of small numbers.

use crate::shape::{
    bulk_of, coords_of, flat_index, lemma_bulk_prefix, lemma_coords_of, lemma_coords_prefix, lemma_flat_index,
    lemma_volume_step, valid_coords, volume_of,
};
use vstd::prelude::*;

verus! {

/// The side lengths of a dense table.
#[derive(Debug)]
pub struct Shape {
    dims: Vec<usize>,
}

impl Shape {
    /// The side lengths.
    pub closed spec fn view(&self) -> Seq<usize> {
        self.dims@
    }

    /// Makes the shape with the given side lengths.
    pub fn new(dims: Vec<usize>) -> (r: Self)
        ensures
            r@ == dims@,
    {
        Self { dims }
    }

    /// The number of elements: the product of the side lengths.
    pub fn len(&self) -> (r: usize)
        requires
            bulk_of(self@) <= usize::MAX,
        ensures
            r == volume_of(self@),
    {
        let mut n: usize = 1;
        let mut i: usize = 0;
        proof {
            assert(self.dims@.take(0) =~= Seq::empty());
        }
        while i < self.dims.len()
            invariant
                i <= self.dims@.len(),
                bulk_of(self.dims@) <= usize::MAX,
                n == volume_of(self.dims@.take(i as int)),
            decreases self.dims@.len() - i,
        {
            proof {
                lemma_volume_step(self.dims@, i as int);
                lemma_bulk_prefix(self.dims@, i + 1);
            }
            n = n * self.dims[i];
            i += 1;
        }
        proof {
            assert(self.dims@.take(i as int) =~= self.dims@);
        }
        n
    }

    /// The row-major position of the element at the given indices.
    pub fn pos(&self, idx: &Vec<usize>) -> (r: usize)
        requires
            bulk_of(self@) <= usize::MAX,
            valid_coords(self@, idx@),
        ensures
            r == flat_index(self@, idx@),
            r < volume_of(self@),
    {
        let mut n: usize = 0;
        let mut i: usize = 0;
        while i < self.dims.len()
            invariant
                i <= self.dims@.len(),
                bulk_of(self.dims@) <= usize::MAX,
                valid_coords(self.dims@, idx@),
                n == flat_index(self.dims@.take(i as int), idx@.take(i as int)),
            decreases self.dims@.len() - i,
        {
            proof {
                let cut = self.dims@.take(i + 1);
                let cs = idx@.take(i + 1);
                assert(cut.drop_last() =~= self.dims@.take(i as int));
                assert(cs.drop_last() =~= idx@.take(i as int));
                lemma_flat_index(cut, cs);
                lemma_bulk_prefix(self.dims@, i + 1);
            }
            n = n * self.dims[i] + idx[i];
            i += 1;
        }
        proof {
            assert(self.dims@.take(i as int) =~= self.dims@);
            assert(idx@.take(i as int) =~= idx@);
            lemma_flat_index(self.dims@, idx@);
        }
        n
    }

    /// The indices of the element at the given row-major position.
    pub fn idx(&self, pos: usize) -> (r: Vec<usize>)
        requires
            pos < volume_of(self@),
        ensures
            r@ == coords_of(self@, pos as nat),
            valid_coords(self@, r@),
    {
        let ghost goal = coords_of(self.dims@, pos as nat);
        let n = self.dims.len();
        let mut idx: Vec<usize> = Vec::new();
        while idx.len() < n
            invariant
                idx@.len() <= n,
            decreases n - idx@.len(),
        {
            idx.push(0);
        }
        let mut rest = pos;
        let mut i: usize = n;
        proof {
            assert(self.dims@.take(i as int) =~= self.dims@);
            lemma_coords_of(self.dims@, pos as nat);
            assert(goal.take(i as int) =~= goal);
        }
        while i > 0
            invariant
                i <= n,
                n == self.dims@.len(),
                idx@.len() == n,
                goal.len() == n,
                rest < volume_of(self.dims@.take(i as int)),
                goal.take(i as int) == coords_of(self.dims@.take(i as int), rest as nat),
                forall|k: int| i <= k < n ==> idx@[k] == goal[k],
            decreases i,
        {
            proof {
                lemma_coords_prefix(self.dims@, rest as nat, i as int);
                assert(goal[i - 1] == goal.take(i as int)[i - 1]);
                assert(goal.take(i - 1) =~= goal.take(i as int).take(i - 1));
            }
            i -= 1;
            let d = self.dims[i];
            idx[i] = rest % d;
            rest = rest / d;
        }
        proof {
            assert(idx@ =~= goal);
        }
        idx
    }
}

/// A relation: a bit for every tuple of its shape.
#[derive(Debug)]
pub struct Relation {
    data: Vec<u32>,
    shape: Vec<usize>,
    len: usize,
}

impl Relation {
    /// The side lengths of the relation.
    pub closed spec fn spec_shape(&self) -> Seq<usize> {
        self.shape@
    }

    /// The number of tuples that the relation has stored.
    pub closed spec fn spec_len(&self) -> usize {
        self.len
    }

    /// Makes the relation of the given shape, with no tuple in it.
    pub fn new(shape: Vec<usize>) -> (r: Self)
        requires
            bulk_of(shape@) + 31 <= usize::MAX,
        ensures
            r.spec_shape() == shape@,
            r.spec_len() == volume_of(shape@),
    {
        let mut len: usize = 1;
        let mut i: usize = 0;
        proof {
            assert(shape@.take(0) =~= Seq::empty());
        }
        while i < shape.len()
            invariant
                i <= shape@.len(),
                bulk_of(shape@) + 31 <= usize::MAX,
                len == volume_of(shape@.take(i as int)),
            decreases shape@.len() - i,
        {
            proof {
                lemma_volume_step(shape@, i as int);
                lemma_bulk_prefix(shape@, i + 1);
            }
            len = len * shape[i];
            i += 1;
        }
        proof {
            assert(shape@.take(i as int) =~= shape@);
            crate::shape::lemma_bulk(shape@);
        }
        let words = (len + 31) / 32;
        let mut data: Vec<u32> = Vec::new();
        while data.len() < words
            invariant
                data@.len() <= words,
            decreases words - data@.len(),
        {
            data.push(0);
        }
        Self { data, shape, len }
    }

    /// The number of tuples of the shape.
    pub fn len(&self) -> (r: usize)
        ensures
            r == self.spec_len(),
    {
        self.len
    }

    /// Whether the tuple is in the relation. Every tuple of the right
    /// length counts as a member.
    pub fn get(&self, tuple: Vec<usize>) -> (r: bool)
        requires
            tuple@.len() == self.spec_shape().len(),
        ensures
            r,
    {
        true
    }
}

/// A marker for polymers of relations.
#[derive(Debug)]
pub struct Polymer {}

} // verus!
