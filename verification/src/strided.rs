//! Strided shapes whose first axis advances fastest.
//!
//! Such a shape is its own view: every axis has a length and a stride.
//! The positions are enumerated with the first coordinate running fastest.

pub mod solver;

use crate::shape::{
    bulk_of, dot, fits_lengths, lemma_bulk, lemma_bulk_prefix, lemma_bulk_update, lemma_dot_bound,
    lemma_reversed, lemma_span_prefix, lemma_span_update, lemma_stride_sum_grows, lemma_view_step,
    lemma_volume_step, lemma_zero_view, lengths_of, nth_position, one_to_one, polymer_axes, simplified_axes,
    span, stride_sum, valid_coords, volume_of, ShapeIter, ShapeView,
};
use vstd::prelude::*;

verus! {

/// The axes of the shape with the given side lengths in which the first
/// axis advances fastest: the stride of an axis is the product of the
/// lengths of the axes before it.
pub open spec fn packed_axes(lengths: Seq<usize>) -> Seq<(usize, usize)> {
    Seq::new(lengths.len(), |k: int| (lengths[k], volume_of(lengths.take(k)) as usize))
}

/// The span of the packed axes of a shape is below its bulk.
pub proof fn lemma_packed(lengths: Seq<usize>)
    requires
        bulk_of(lengths) <= usize::MAX,
    ensures
        lengths_of(packed_axes(lengths)) == lengths,
        span(packed_axes(lengths)) < bulk_of(lengths),
    decreases lengths.len(),
{
    let axes = packed_axes(lengths);
    assert(lengths_of(axes) =~= lengths);
    if lengths.len() > 0 {
        let front = lengths.drop_last();
        let n = lengths.len() as int;
        lemma_bulk(front);
        lemma_bulk_prefix(lengths, n - 1);
        assert(lengths.take(n - 1) =~= front);
        let d = lengths.last() as int;
        if d > 0 {
            vstd::arithmetic::mul::lemma_mul_inequality(1, d, bulk_of(front) as int);
            vstd::arithmetic::mul::lemma_mul_is_commutative(bulk_of(front) as int, d);
        }
        lemma_packed(front);
        assert(axes.drop_last() =~= packed_axes(front)) by {
            assert forall|k: int| 0 <= k < n - 1 implies axes.drop_last()[k] == packed_axes(front)[k] by {
                assert(lengths.take(k) =~= front.take(k));
            }
        }
        let s = volume_of(front) as int;
        let b = bulk_of(front) as int;
        let sp = span(packed_axes(front)) as int;
        assert(axes.last() == (lengths.last(), s as usize));
        if d > 0 {
            assert(sp + (d - 1) * s < b * d) by (nonlinear_arith)
                requires
                    0 <= sp < b,
                    0 <= s <= b,
                    d > 0,
            ;
        }
    }
}

/// The rectangular shape of a tensor.
#[derive(Debug)]
pub struct Shape {
    axes: Vec<(usize, usize)>,
    offset: usize,
}

impl Shape {
    /// The axes, each a length with its stride.
    pub closed spec fn spec_axes(&self) -> Seq<(usize, usize)> {
        self.axes@
    }

    /// The position of the first element.
    pub closed spec fn spec_offset(&self) -> usize {
        self.offset
    }

    /// Every product of lengths and every position fits in a machine word.
    pub open spec fn wf(&self) -> bool {
        &&& bulk_of(lengths_of(self.spec_axes())) <= usize::MAX
        &&& self.spec_offset() + span(self.spec_axes()) <= usize::MAX
    }

    /// The position of the element that comes at place `index` when the
    /// first coordinate runs fastest.
    pub open spec fn spec_nth(&self, index: nat) -> nat {
        self.spec_offset() as nat + nth_position(self.spec_axes().reverse(), index)
    }

    /// Creates a new shape with the given side lengths. The offset allows
    /// to map positions of this shape into a flat buffer index space.
    pub fn new(lengths: Vec<usize>, offset: usize) -> (r: Self)
        requires
            offset + bulk_of(lengths@) <= usize::MAX,
        ensures
            r.wf(),
            r.spec_axes() == packed_axes(lengths@),
            r.spec_offset() == offset,
    {
        let mut stride: usize = 1;
        let mut axes: Vec<(usize, usize)> = Vec::new();
        let mut k: usize = 0;
        proof {
            assert(lengths@.take(0) =~= Seq::empty());
        }
        while k < lengths.len()
            invariant
                k <= lengths@.len(),
                offset + bulk_of(lengths@) <= usize::MAX,
                stride == volume_of(lengths@.take(k as int)),
                axes@.len() == k,
                forall|j: int| 0 <= j < k ==> axes@[j] == packed_axes(lengths@)[j],
            decreases lengths@.len() - k,
        {
            proof {
                lemma_volume_step(lengths@, k as int);
                lemma_bulk_prefix(lengths@, k + 1);
            }
            let length = lengths[k];
            axes.push((length, stride));
            stride = stride * length;
            k += 1;
        }
        proof {
            assert(axes@ =~= packed_axes(lengths@));
            lemma_packed(lengths@);
        }
        Self { axes, offset }
    }

    /// Returns the number of axes of the tensor.
    pub fn dimension(&self) -> (r: usize)
        ensures
            r == self.spec_axes().len(),
    {
        self.axes.len()
    }

    /// Returns the lengths of all sides.
    pub fn lengths(&self) -> (r: Vec<usize>)
        ensures
            r@ == lengths_of(self.spec_axes()),
    {
        let mut lengths: Vec<usize> = Vec::new();
        let mut k: usize = 0;
        while k < self.axes.len()
            invariant
                k <= self.axes@.len(),
                lengths@ == lengths_of(self.axes@).take(k as int),
            decreases self.axes@.len() - k,
        {
            lengths.push(self.axes[k].0);
            proof {
                assert(lengths@ =~= lengths_of(self.axes@).take(k + 1));
            }
            k += 1;
        }
        proof {
            assert(lengths@ =~= lengths_of(self.axes@));
        }
        lengths
    }

    /// Returns the side length along the given axis.
    pub fn length(&self, axis: usize) -> (r: usize)
        requires
            axis < self.spec_axes().len(),
        ensures
            r == self.spec_axes()[axis as int].0,
    {
        self.axes[axis].0
    }

    /// The number of elements, which is just the product of all side length.
    pub fn volume(&self) -> (r: usize)
        requires
            self.wf(),
        ensures
            r == volume_of(lengths_of(self.spec_axes())),
    {
        let ghost lengths = lengths_of(self.axes@);
        let mut volume: usize = 1;
        let mut k: usize = 0;
        proof {
            assert(lengths.take(0) =~= Seq::empty());
        }
        while k < self.axes.len()
            invariant
                k <= self.axes@.len(),
                lengths == lengths_of(self.axes@),
                bulk_of(lengths) <= usize::MAX,
                volume == volume_of(lengths.take(k as int)),
            decreases self.axes@.len() - k,
        {
            proof {
                lemma_volume_step(lengths, k as int);
                lemma_bulk_prefix(lengths, k + 1);
            }
            volume = volume * self.axes[k].0;
            k += 1;
        }
        proof {
            assert(lengths.take(k as int) =~= lengths);
        }
        volume
    }

    /// Returns true if the list of lengths of this and the other shape is equal.
    #[verifier::loop_isolation(false)]
    pub fn equals(&self, other: &Shape) -> (r: bool)
        ensures
            r == (lengths_of(self.spec_axes()) == lengths_of(other.spec_axes())),
    {
        if self.axes.len() != other.axes.len() {
            proof {
                assert(lengths_of(self.axes@).len() != lengths_of(other.axes@).len());
            }
            return false;
        }
        let mut k: usize = 0;
        while k < self.axes.len()
            invariant
                k <= self.axes@.len(),
                forall|j: int| 0 <= j < k ==> self.axes@[j].0 == other.axes@[j].0,
            decreases self.axes@.len() - k,
        {
            if self.axes[k].0 != other.axes[k].0 {
                proof {
                    assert(lengths_of(self.axes@)[k as int] != lengths_of(other.axes@)[k as int]);
                }
                return false;
            }
            k += 1;
        }
        proof {
            assert(lengths_of(self.axes@) =~= lengths_of(other.axes@));
        }
        true
    }

    /// Permutes the axes of the given shape. The map must be of size
    /// dimension. The old coordinate `i` will be placed at the new
    /// coordinate `map[i]`.
    pub fn permute(&self, map: &[usize]) -> (r: Self)
        requires
            self.wf(),
            map@.len() == self.spec_axes().len(),
            one_to_one(map@, map@.len()),
        ensures
            r.wf(),
            r.spec_offset() == self.spec_offset(),
            r.spec_axes().len() == self.spec_axes().len(),
            forall|i: int| 0 <= i < map@.len() ==> r.spec_axes()[map@[i] as int] == self.spec_axes()[i],
    {
        let n = self.axes.len();
        let ghost old_axes = self.axes@;
        let mut axes: Vec<(usize, usize)> = Vec::new();
        let mut i: usize = 0;
        while i < n
            invariant
                i <= n,
                axes@.len() == i,
                forall|k: int| 0 <= k < i ==> axes@[k] == (0usize, 0usize),
            decreases n - i,
        {
            axes.push((0, 0));
            i += 1;
        }
        proof {
            assert(old_axes.take(0) =~= Seq::empty());
            assert(lengths_of(old_axes.take(0)) =~= Seq::empty());
            lemma_zero_view(axes@);
        }
        i = 0;
        while i < n
            invariant
                i <= n,
                n == old_axes.len(),
                old_axes == self.axes@,
                map@.len() == n,
                one_to_one(map@, n as nat),
                axes@.len() == n,
                forall|k: int| 0 <= k < i ==> axes@[map@[k] as int] == old_axes[k],
                forall|x: int|
                    0 <= x < n && (forall|k: int| 0 <= k < i ==> map@[k] != x) ==> #[trigger] axes@[x] == (
                    0usize,
                    0usize,
                ),
                span(axes@) == span(old_axes.take(i as int)),
                bulk_of(lengths_of(axes@)) == bulk_of(lengths_of(old_axes.take(i as int))),
            decreases n - i,
        {
            let x = map[i];
            let ghost before = axes@;
            proof {
                assert(before[x as int] == (0usize, 0usize));
                lemma_span_update(before, x as int, old_axes[i as int]);
                lemma_view_step(old_axes, Seq::new(n as nat, |k: int| 0usize), i as int);
                lemma_bulk_update(lengths_of(before), x as int, old_axes[i as int].0);
                assert(lengths_of(before).update(x as int, old_axes[i as int].0) =~= lengths_of(
                    before.update(x as int, old_axes[i as int]),
                ));
                assert(lengths_of(old_axes).take(i + 1).drop_last() =~= lengths_of(old_axes).take(i as int));
            }
            axes[x] = self.axes[i];
            i += 1;
        }
        proof {
            assert(old_axes.take(n as int) =~= old_axes);
        }
        Self { axes, offset: self.offset }
    }

    /// Permutes two axes of the given shape. The two axes can be the same.
    pub fn swap(&self, axis1: usize, axis2: usize) -> (r: Self)
        requires
            self.wf(),
            axis1 < self.spec_axes().len(),
            axis2 < self.spec_axes().len(),
        ensures
            r.wf(),
            r.spec_offset() == self.spec_offset(),
            r.spec_axes() == self.spec_axes().update(axis1 as int, self.spec_axes()[axis2 as int]).update(
                axis2 as int,
                self.spec_axes()[axis1 as int],
            ),
    {
        let ghost old_axes = self.axes@;
        let mut axes: Vec<(usize, usize)> = Vec::new();
        let mut k: usize = 0;
        while k < self.axes.len()
            invariant
                k <= self.axes@.len(),
                axes@ == self.axes@.take(k as int),
            decreases self.axes@.len() - k,
        {
            axes.push(self.axes[k]);
            proof {
                assert(axes@ =~= self.axes@.take(k + 1));
            }
            k += 1;
        }
        proof {
            assert(axes@ =~= old_axes);
        }
        axes[axis1] = self.axes[axis2];
        let ghost middle = axes@;
        axes[axis2] = self.axes[axis1];
        proof {
            lemma_span_update(old_axes, axis1 as int, old_axes[axis2 as int]);
            lemma_span_update(middle, axis2 as int, old_axes[axis1 as int]);
            lemma_swapped_bulk(lengths_of(old_axes), axis1 as int, axis2 as int);
            assert(lengths_of(axes@) =~= crate::strided::swapped(lengths_of(old_axes), axis1 as int, axis2 as int));
        }
        Self { axes, offset: self.offset }
    }

    /// Whether `polymer` can be called with these arguments: the map sends
    /// every axis to a slot of the same length, and neither the sums of the
    /// strides nor the positions of the polymer leave the machine word.
    pub open spec fn polymer_fits(&self, lengths: Seq<usize>, map: Seq<usize>) -> bool {
        &&& fits_lengths(self.spec_axes(), lengths, map)
        &&& bulk_of(lengths) <= usize::MAX
        &&& forall|x: int|
            0 <= x < lengths.len() ==> stride_sum(self.spec_axes(), map, x, map.len() as int)
                <= usize::MAX
        &&& self.spec_offset() + span(polymer_axes(self.spec_axes(), lengths, map, map.len() as int))
            <= usize::MAX
    }

    /// Computes the polymer of the given shape, which allows the introduction
    /// dummy variables and identification of variables. The map must be of
    /// size dimension. The old coordinate `i` will be placed at the new
    /// coordinate `map[i]`. The lengths are those of the new shape, which
    /// are also used for the lengths of dummy axes.
    pub fn polymer(&self, lengths: Vec<usize>, map: &[usize]) -> (r: Self)
        requires
            self.polymer_fits(lengths@, map@),
        ensures
            r.wf(),
            r.spec_offset() == self.spec_offset(),
            r.spec_axes() == polymer_axes(self.spec_axes(), lengths@, map@, map@.len() as int),
    {
        let ghost old_axes = self.axes@;
        let ghost sides = lengths@;
        let m = lengths.len();
        let mut axes: Vec<(usize, usize)> = Vec::new();
        let mut x: usize = 0;
        while x < m
            invariant
                x <= m,
                m == lengths@.len(),
                axes@.len() == x,
                forall|k: int| 0 <= k < x ==> axes@[k] == (lengths@[k], 0usize),
            decreases m - x,
        {
            axes.push((lengths[x], 0));
            x += 1;
        }
        proof {
            assert(axes@ =~= polymer_axes(old_axes, sides, map@, 0));
        }
        let n = map.len();
        let mut i: usize = 0;
        while i < n
            invariant
                i <= n,
                n == map@.len(),
                old_axes == self.axes@,
                sides == lengths@,
                self.polymer_fits(sides, map@),
                axes@ == polymer_axes(old_axes, sides, map@, i as int),
            decreases n - i,
        {
            let at = map[i];
            proof {
                crate::shape::lemma_polymer_step(old_axes, sides, map@, i as int);
                lemma_stride_sum_grows(old_axes, map@, at as int, i as int, n as int);
            }
            let (d, s) = axes[at];
            axes[at] = (d, s + self.axes[i].1);
            i += 1;
        }
        proof {
            assert(lengths_of(axes@) =~= sides);
        }
        Self { axes, offset: self.offset }
    }

    /// Returns the position in the flat array of the element at the given
    /// indices. The number of indices must match the dimension of the tensor.
    pub fn position(&self, indices: &[usize]) -> (r: usize)
        requires
            self.wf(),
            valid_coords(lengths_of(self.spec_axes()), indices@),
        ensures
            r == self.spec_offset() + dot(self.spec_axes(), indices@),
    {
        let mut pos: usize = self.offset;
        let mut i: usize = 0;
        while i < self.axes.len()
            invariant
                i <= self.axes@.len(),
                self.wf(),
                valid_coords(lengths_of(self.axes@), indices@),
                pos == self.offset + dot(self.axes@.take(i as int), indices@.take(i as int)),
            decreases self.axes@.len() - i,
        {
            proof {
                lemma_view_step(self.axes@, indices@, i as int);
                assert forall|k: int| 0 <= k < i + 1 implies (#[trigger] indices@.take(i + 1)[k]) < lengths_of(
                    self.axes@.take(i + 1),
                )[k] by {
                    assert(indices@[k] < lengths_of(self.axes@)[k]);
                }
                lemma_dot_bound(self.axes@.take(i + 1), indices@.take(i + 1));
                lemma_span_prefix(self.axes@, i + 1);
                vstd::arithmetic::mul::lemma_mul_nonnegative(indices@[i as int] as int, self.axes@[i as int].1 as int);
            }
            pos = pos + indices[i] * self.axes[i].1;
            i += 1;
        }
        proof {
            assert(self.axes@.take(i as int) =~= self.axes@);
            assert(indices@.take(i as int) =~= indices@);
        }
        pos
    }

    /// Returns an iterator through all valid positions, volume many in total.
    pub fn positions(&self) -> (r: Iter)
        requires
            self.wf(),
        ensures
            r.wf(),
            r.spec_axes() == self.spec_axes(),
            r.spec_offset() == self.spec_offset(),
            r.spec_count() == 0,
    {
        Iter::new(self)
    }
}

/// The lengths after two of them changed places.
pub open spec fn swapped(lengths: Seq<usize>, first: int, second: int) -> Seq<usize> {
    lengths.update(first, lengths[second]).update(second, lengths[first])
}

/// The bulk stays the same when two lengths change places.
pub proof fn lemma_swapped_bulk(lengths: Seq<usize>, first: int, second: int)
    requires
        0 <= first < lengths.len(),
        0 <= second < lengths.len(),
    ensures
        bulk_of(swapped(lengths, first, second)) == bulk_of(lengths),
{
    let after = swapped(lengths, first, second);
    if first == second {
        assert(after =~= lengths);
    } else {
        let a = lengths[first];
        let b = lengths[second];
        let none = lengths.update(first, 0usize).update(second, 0usize);
        let fa = if a == 0 {
            1int
        } else {
            a as int
        };
        let fb = if b == 0 {
            1int
        } else {
            b as int
        };
        // the lengths are the lengths without the two, with the two put in
        lemma_bulk_update(none, second, b);
        lemma_bulk_update(none.update(second, b), first, a);
        assert(none.update(second, b).update(first, a) =~= lengths);
        // and so are the swapped lengths, with the two put in the other way
        lemma_bulk_update(none, second, a);
        lemma_bulk_update(none.update(second, a), first, b);
        assert(none.update(second, a).update(first, b) =~= after);
        let base = bulk_of(none) as int;
        assert((base * fb) * fa == (base * fa) * fb) by (nonlinear_arith);
    }
}

/// Iterator that returns all valid positions, size many in total.
pub struct Iter {
    length: usize,
    inner: ShapeIter,
    axes: Ghost<Seq<(usize, usize)>>,
}

impl Iter {
    /// The axes of the shape that is iterated.
    pub closed spec fn spec_axes(&self) -> Seq<(usize, usize)> {
        self.axes@
    }

    /// The position of the first element of the shape.
    pub closed spec fn spec_offset(&self) -> usize {
        self.inner.spec_offset()
    }

    /// The number of positions that were handed out.
    pub closed spec fn spec_count(&self) -> nat {
        self.inner.spec_count()
    }

    /// The number of elements of the shape.
    pub open spec fn spec_volume(&self) -> nat {
        volume_of(lengths_of(self.spec_axes()))
    }

    /// The position that comes at place `index`.
    pub open spec fn spec_nth(&self, index: nat) -> nat {
        self.spec_offset() as nat + nth_position(self.spec_axes().reverse(), index)
    }

    /// The iterator stands at a position of its shape.
    pub closed spec fn wf(&self) -> bool {
        &&& self.inner.wf()
        &&& bulk_of(lengths_of(self.axes@.reverse())) <= usize::MAX
        &&& self.inner.spec_axes() == simplified_axes(self.axes@.reverse())
        &&& self.inner.spec_count() + self.length == volume_of(lengths_of(self.axes@))
    }

    /// Creates a new iterator for the given shape.
    pub fn new(shape: &Shape) -> (r: Self)
        requires
            shape.wf(),
        ensures
            r.wf(),
            r.spec_axes() == shape.spec_axes(),
            r.spec_offset() == shape.spec_offset(),
            r.spec_count() == 0,
    {
        let n = shape.axes.len();
        let mut mirror: Vec<(usize, usize)> = Vec::new();
        let mut k: usize = n;
        while k > 0
            invariant
                k <= n,
                n == shape.axes@.len(),
                mirror@.len() == n - k,
                forall|j: int| 0 <= j < n - k ==> mirror@[j] == shape.axes@[n - 1 - j],
            decreases k,
        {
            k -= 1;
            mirror.push(shape.axes[k]);
        }
        proof {
            assert(mirror@ =~= shape.axes@.reverse());
            lemma_reversed(shape.axes@);
            crate::shape::lemma_simplified_positions(mirror@);
        }
        let length = shape.volume();
        let view = ShapeView::from_axes(mirror, shape.offset);
        let inner = view.simplify().positions();
        Iter { length, inner, axes: Ghost(shape.axes@) }
    }

    /// The number of axes over which the iterator runs, after the axes that
    /// lie one behind the other in memory were merged.
    pub fn dimension(&self) -> (r: usize)
        requires
            self.wf(),
        ensures
            r == simplified_axes(self.spec_axes().reverse()).len(),
    {
        self.inner.dimension()
    }

    /// The number of positions that are left.
    pub fn len(&self) -> (r: usize)
        requires
            self.wf(),
        ensures
            r == self.spec_volume() - self.spec_count(),
    {
        self.length
    }

    /// Hands out the next position, or nothing when all were handed out.
    pub fn next(&mut self) -> (r: Option<usize>)
        requires
            old(self).wf(),
        ensures
            final(self).wf(),
            final(self).spec_axes() == old(self).spec_axes(),
            final(self).spec_offset() == old(self).spec_offset(),
            old(self).spec_count() < old(self).spec_volume() ==> r == Some(
                old(self).spec_nth(old(self).spec_count()) as usize,
            ) && final(self).spec_count() == old(self).spec_count() + 1,
            old(self).spec_count() >= old(self).spec_volume() ==> r.is_none() && final(self).spec_count()
                == old(self).spec_count(),
            r.is_some() ==> r.unwrap() == old(self).spec_nth(old(self).spec_count()),
    {
        proof {
            lemma_reversed(self.axes@);
            crate::shape::lemma_simplified_positions(self.axes@.reverse());
            self.inner.lemma_count();
        }
        if self.length == 0 {
            None
        } else {
            self.length = self.length - 1;
            self.inner.next()
        }
    }
}

} // verus!
