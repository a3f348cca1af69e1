//! Shapes of tensors and strided views into them.
//!
//! A shape is a list of side lengths together with an offset into a flat
//! address space. A view carries a stride for every axis, so that axes can be
//! permuted, repeated or left out without moving any data. The positions of a
//! view are enumerated in row-major order: the last axis advances fastest.

use vstd::arithmetic::div_mod::{
    lemma_breakdown, lemma_div_denominator, lemma_fundamental_div_mod,
    lemma_fundamental_div_mod_converse, lemma_multiply_divide_lt,
};
use vstd::arithmetic::mul::{
    lemma_mul_inequality, lemma_mul_is_commutative,
    lemma_mul_nonnegative, lemma_mul_strictly_positive,
};
use vstd::prelude::*;
use vstd::seq_lib::{to_multiset_build, to_multiset_remove};
use vstd::set_lib::{lemma_int_range, lemma_len_subset, set_int_range};

verus! {

/// The product of the side lengths: the number of elements of a tensor.
pub open spec fn volume_of(lengths: Seq<usize>) -> nat
    decreases lengths.len(),
{
    if lengths.len() == 0 {
        1
    } else {
        volume_of(lengths.drop_last()) * (lengths.last() as nat)
    }
}

/// The product of the side lengths in which every zero counts as one. No
/// product of some of the lengths is larger than this.
pub open spec fn bulk_of(lengths: Seq<usize>) -> nat
    decreases lengths.len(),
{
    if lengths.len() == 0 {
        1
    } else if lengths.last() == 0 {
        bulk_of(lengths.drop_last())
    } else {
        bulk_of(lengths.drop_last()) * (lengths.last() as nat)
    }
}

/// Whether there is one coordinate for every axis, each below the length of
/// its axis.
pub open spec fn valid_coords(lengths: Seq<usize>, coords: Seq<usize>) -> bool {
    &&& coords.len() == lengths.len()
    &&& forall|k: int| 0 <= k < lengths.len() ==> coords[k] < lengths[k]
}

/// The row-major index of the element at the given coordinates.
pub open spec fn flat_index(lengths: Seq<usize>, coords: Seq<usize>) -> nat
    decreases lengths.len(),
{
    if lengths.len() == 0 {
        0
    } else {
        flat_index(lengths.drop_last(), coords.drop_last()) * (lengths.last() as nat) + (
        coords.last() as nat)
    }
}

/// The coordinates of the element with the given row-major index.
pub open spec fn coords_of(lengths: Seq<usize>, index: nat) -> Seq<usize>
    decreases lengths.len(),
{
    if lengths.len() == 0 {
        Seq::empty()
    } else {
        coords_of(lengths.drop_last(), index / (lengths.last() as nat)).push(
            (index % (lengths.last() as nat)) as usize,
        )
    }
}

/// The bulk is positive and no smaller than the volume.
pub proof fn lemma_bulk(lengths: Seq<usize>)
    ensures
        1 <= bulk_of(lengths),
        volume_of(lengths) <= bulk_of(lengths),
        (forall|k: int| 0 <= k < lengths.len() ==> lengths[k] > 0) ==> volume_of(lengths)
            == bulk_of(lengths),
        volume_of(lengths) > 0 <==> (forall|k: int| 0 <= k < lengths.len() ==> lengths[k] > 0),
    decreases lengths.len(),
{
    if lengths.len() > 0 {
        let front = lengths.drop_last();
        let d = lengths.last() as int;
        lemma_bulk(front);
        lemma_mul_inequality(volume_of(front) as int, bulk_of(front) as int, d);
        if d > 0 {
            lemma_mul_inequality(1, bulk_of(front) as int, d);
            lemma_mul_is_commutative(bulk_of(front) as int, d);
        }
        assert(forall|k: int| 0 <= k < front.len() ==> front[k] == lengths[k]);
        if volume_of(front) > 0 && d > 0 {
            lemma_mul_strictly_positive(volume_of(front) as int, d);
        }
        if volume_of(lengths) > 0 {
            assert(d > 0 && volume_of(front) > 0) by (nonlinear_arith)
                requires
                    volume_of(front) * d > 0,
                    volume_of(front) >= 0,
                    d >= 0,
            ;
        }
    }
}

/// The bulk of the first `k` lengths is at most the bulk of all of them.
pub proof fn lemma_bulk_prefix(lengths: Seq<usize>, k: int)
    requires
        0 <= k <= lengths.len(),
    ensures
        bulk_of(lengths.take(k)) <= bulk_of(lengths),
        volume_of(lengths.take(k)) <= bulk_of(lengths),
    decreases lengths.len(),
{
    lemma_bulk(lengths.take(k));
    if k == lengths.len() {
        assert(lengths.take(k) =~= lengths);
    } else {
        let front = lengths.drop_last();
        assert(front.take(k) =~= lengths.take(k));
        lemma_bulk_prefix(front, k);
        lemma_bulk(front);
        if lengths.last() > 0 {
            lemma_mul_inequality(1, lengths.last() as int, bulk_of(front) as int);
            lemma_mul_is_commutative(bulk_of(front) as int, lengths.last() as int);
        }
    }
}

/// Taking one more length multiplies the volume of a prefix by it.
pub proof fn lemma_volume_step(lengths: Seq<usize>, k: int)
    requires
        0 <= k < lengths.len(),
    ensures
        volume_of(lengths.take(k + 1)) == volume_of(lengths.take(k)) * (lengths[k] as nat),
{
    assert(lengths.take(k + 1).drop_last() =~= lengths.take(k));
}

/// Valid coordinates have an index below the volume, and they are the
/// coordinates of that index.
pub proof fn lemma_flat_index(lengths: Seq<usize>, coords: Seq<usize>)
    requires
        valid_coords(lengths, coords),
    ensures
        flat_index(lengths, coords) < volume_of(lengths),
        coords_of(lengths, flat_index(lengths, coords)) == coords,
    decreases lengths.len(),
{
    if lengths.len() == 0 {
        assert(coords =~= Seq::empty());
    } else {
        let front = lengths.drop_last();
        let d = lengths.last() as int;
        let q = flat_index(front, coords.drop_last()) as int;
        let c = coords.last() as int;
        lemma_flat_index(front, coords.drop_last());
        let v = volume_of(front) as int;
        assert(q * d + c < v * d) by (nonlinear_arith)
            requires
                0 <= q < v,
                0 <= c < d,
        ;
        lemma_fundamental_div_mod_converse(q * d + c, d, q, c);
        assert(coords_of(lengths, flat_index(lengths, coords)) =~= coords);
    }
}

/// An index below the volume has valid coordinates, and it is their index.
pub proof fn lemma_coords_of(lengths: Seq<usize>, index: nat)
    requires
        index < volume_of(lengths),
    ensures
        valid_coords(lengths, coords_of(lengths, index)),
        flat_index(lengths, coords_of(lengths, index)) == index,
    decreases lengths.len(),
{
    if lengths.len() > 0 {
        let front = lengths.drop_last();
        let d = lengths.last() as int;
        let v = volume_of(front) as int;
        assert(d > 0 && v > 0) by (nonlinear_arith)
            requires
                0 <= index < v * d,
                v >= 0,
                d >= 0,
        ;
        lemma_mul_is_commutative(v, d);
        lemma_multiply_divide_lt(index as int, d, v);
        let q = (index / (d as nat)) as nat;
        lemma_coords_of(front, q);
        let coords = coords_of(lengths, index);
        assert(coords.drop_last() =~= coords_of(front, q));
        lemma_fundamental_div_mod(index as int, d);
        lemma_mul_is_commutative(q as int, d);
        assert forall|k: int| 0 <= k < lengths.len() implies coords[k] < lengths[k] by {
            if k < front.len() {
                assert(coords[k] == coords_of(front, q)[k]);
                assert(front[k] == lengths[k]);
            }
        }
    }
}

/// The coordinates of an index, cut after the first `k` axes, are the
/// coordinates of the index divided by the volume of the other axes.
pub proof fn lemma_coords_prefix(lengths: Seq<usize>, index: nat, k: int)
    requires
        0 < k <= lengths.len(),
        index < volume_of(lengths.take(k)),
    ensures
        lengths[k - 1] > 0,
        index / (lengths[k - 1] as nat) < volume_of(lengths.take(k - 1)),
        coords_of(lengths.take(k), index).len() == k,
        coords_of(lengths.take(k), index)[k - 1] == index % (lengths[k - 1] as nat),
        coords_of(lengths.take(k), index).take(k - 1) == coords_of(
            lengths.take(k - 1),
            index / (lengths[k - 1] as nat),
        ),
{
    let cut = lengths.take(k);
    assert(cut.drop_last() =~= lengths.take(k - 1));
    let d = lengths[k - 1] as int;
    let v = volume_of(lengths.take(k - 1)) as int;
    assert(d > 0 && v > 0) by (nonlinear_arith)
        requires
            0 <= index < v * d,
            v >= 0,
            d >= 0,
    ;
    lemma_mul_is_commutative(v, d);
    lemma_multiply_divide_lt(index as int, d, v);
    lemma_coords_of(cut, index);
    assert(coords_of(cut, index).take(k - 1) =~= coords_of(cut.drop_last(), index / (d as nat)));
}

/// The rectangular shape of a tensor: its side lengths, and the offset at
/// which its elements start in a flat buffer.
#[derive(Debug)]
pub struct Shape {
    lengths: Vec<usize>,
    offset: usize,
    volume: usize,
}

impl Shape {
    /// The side lengths.
    pub closed spec fn spec_lengths(&self) -> Seq<usize> {
        self.lengths@
    }

    /// The position of the first element.
    pub closed spec fn spec_offset(&self) -> usize {
        self.offset
    }

    /// The number of elements that the shape has stored.
    pub closed spec fn spec_volume(&self) -> usize {
        self.volume
    }

    /// The stored volume is the product of the lengths, and every position
    /// fits in a machine word.
    pub open spec fn wf(&self) -> bool {
        &&& self.spec_volume() == volume_of(self.spec_lengths())
        &&& self.spec_offset() + bulk_of(self.spec_lengths()) <= usize::MAX
    }

    /// The position of the element at the given coordinates.
    pub open spec fn spec_position(&self, coords: Seq<usize>) -> nat {
        self.spec_offset() as nat + flat_index(self.spec_lengths(), coords)
    }

    /// Creates a new shape with the given side lengths. The offset allows
    /// to map positions of this shape into a range of a flat buffer.
    pub fn new(lengths: Vec<usize>, offset: usize) -> (r: Self)
        requires
            offset + bulk_of(lengths@) <= usize::MAX,
        ensures
            r.wf(),
            r.spec_lengths() == lengths@,
            r.spec_offset() == offset,
    {
        let mut volume: usize = 1;
        let mut i: usize = 0;
        while i < lengths.len()
            invariant
                i <= lengths.len(),
                volume == volume_of(lengths@.take(i as int)),
                offset + bulk_of(lengths@) <= usize::MAX,
            decreases lengths.len() - i,
        {
            proof {
                lemma_volume_step(lengths@, i as int);
                lemma_bulk_prefix(lengths@, i + 1);
            }
            volume = volume * lengths[i];
            i += 1;
        }
        proof {
            assert(lengths@.take(i as int) =~= lengths@);
        }
        Self { lengths, offset, volume }
    }

    /// Returns the number of side lengths.
    pub fn dimension(&self) -> (r: usize)
        ensures
            r == self.spec_lengths().len(),
    {
        self.lengths.len()
    }

    /// Returns the side length along the given axis.
    pub fn length(&self, axis: usize) -> (r: usize)
        requires
            axis < self.spec_lengths().len(),
        ensures
            r == self.spec_lengths()[axis as int],
    {
        self.lengths[axis]
    }

    /// The number of elements, which is just the product of all side lengths.
    pub fn volume(&self) -> (r: usize)
        requires
            self.wf(),
        ensures
            r == volume_of(self.spec_lengths()),
    {
        self.volume
    }

    /// Returns the position in a flat array of the element at the given
    /// coordinates. The number of coordinates must match the dimension.
    /// The last coordinate is advancing the fastest.
    pub fn position(&self, coordinates: &[usize]) -> (r: usize)
        requires
            self.wf(),
            valid_coords(self.spec_lengths(), coordinates@),
        ensures
            r == self.spec_position(coordinates@),
            self.spec_offset() <= r < self.spec_offset() + volume_of(self.spec_lengths()),
    {
        let mut n: usize = 0;
        let mut i: usize = 0;
        while i < self.lengths.len()
            invariant
                i <= self.lengths.len(),
                self.wf(),
                valid_coords(self.lengths@, coordinates@),
                n == flat_index(self.lengths@.take(i as int), coordinates@.take(i as int)),
            decreases self.lengths.len() - i,
        {
            proof {
                let cut = self.lengths@.take(i + 1);
                let cs = coordinates@.take(i + 1);
                assert(cut.drop_last() =~= self.lengths@.take(i as int));
                assert(cs.drop_last() =~= coordinates@.take(i as int));
                lemma_flat_index(cut, cs);
                lemma_bulk_prefix(self.lengths@, i + 1);
            }
            n = n * self.lengths[i] + coordinates[i];
            i += 1;
        }
        proof {
            assert(self.lengths@.take(i as int) =~= self.lengths@);
            assert(coordinates@.take(i as int) =~= coordinates@);
            lemma_flat_index(self.lengths@, coordinates@);
            lemma_bulk(self.lengths@);
        }
        self.offset + n
    }

    /// Sets the coordinates that correspond to the given position. The length
    /// of the coordinates must match the dimension. The last coordinate is
    /// advancing the fastest.
    pub fn coordinates(&self, position: usize, coordinates: &mut Vec<usize>)
        requires
            self.wf(),
            self.spec_offset() <= position < self.spec_offset() + volume_of(self.spec_lengths()),
            old(coordinates)@.len() == self.spec_lengths().len(),
        ensures
            final(coordinates)@ == coords_of(
                self.spec_lengths(),
                (position - self.spec_offset()) as nat,
            ),
            valid_coords(self.spec_lengths(), final(coordinates)@),
            self.spec_position(final(coordinates)@) == position,
    {
        let ghost index = (position - self.offset) as nat;
        let ghost goal = coords_of(self.lengths@, index);
        let mut rest: usize = position - self.offset;
        let mut i: usize = self.lengths.len();
        proof {
            assert(self.lengths@.take(i as int) =~= self.lengths@);
            lemma_coords_of(self.lengths@, index);
            assert(goal.take(i as int) =~= goal);
        }
        while i > 0
            invariant
                i <= self.lengths.len(),
                coordinates@.len() == self.lengths@.len(),
                goal.len() == self.lengths@.len(),
                rest < volume_of(self.lengths@.take(i as int)),
                goal.take(i as int) == coords_of(self.lengths@.take(i as int), rest as nat),
                forall|k: int| i <= k < self.lengths@.len() ==> coordinates@[k] == goal[k],
            decreases i,
        {
            proof {
                lemma_coords_prefix(self.lengths@, rest as nat, i as int);
                assert(goal[i - 1] == goal.take(i as int)[i - 1]);
                assert(goal.take(i - 1) =~= goal.take(i as int).take(i - 1));
            }
            i -= 1;
            let d = self.lengths[i];
            coordinates[i] = rest % d;
            rest = rest / d;
        }
        proof {
            assert(coordinates@ =~= goal);
        }
    }

    /// Returns the range of all valid positions, volume many in total.
    pub fn positions(&self) -> (r: std::ops::Range<usize>)
        requires
            self.wf(),
        ensures
            r.start == self.spec_offset(),
            r.end == self.spec_offset() + volume_of(self.spec_lengths()),
    {
        proof {
            lemma_bulk(self.lengths@);
        }
        self.offset..(self.offset + self.volume)
    }
}


/// The side lengths of a list of axes, each a length with its stride.
pub open spec fn lengths_of(axes: Seq<(usize, usize)>) -> Seq<usize> {
    Seq::new(axes.len(), |k: int| axes[k].0)
}

/// The sum of the coordinates, each multiplied by the stride of its axis.
pub open spec fn dot(axes: Seq<(usize, usize)>, coords: Seq<usize>) -> nat
    decreases axes.len(),
{
    if axes.len() == 0 {
        0
    } else {
        dot(axes.drop_last(), coords.drop_last()) + (coords.last() as nat) * (axes.last().1 as nat)
    }
}

/// How far the last coordinate of one axis lies from its first one.
pub open spec fn reach(axis: (usize, usize)) -> nat {
    if axis.0 == 0 {
        0
    } else {
        ((axis.0 - 1) * axis.1) as nat
    }
}

/// How far the last position of a view lies from its first one, where an
/// axis of length zero counts as one of length one.
pub open spec fn span(axes: Seq<(usize, usize)>) -> nat
    decreases axes.len(),
{
    if axes.len() == 0 {
        0
    } else {
        span(axes.drop_last()) + reach(axes.last())
    }
}

/// The position, relative to the offset, of the element with the given
/// row-major index.
pub open spec fn nth_position(axes: Seq<(usize, usize)>, index: nat) -> nat {
    dot(axes, coords_of(lengths_of(axes), index))
}

/// The axes of the canonical view of a shape: the stride of an axis is the
/// product of the lengths of all later axes.
pub open spec fn canonical_axes(lengths: Seq<usize>) -> Seq<(usize, usize)> {
    Seq::new(lengths.len(), |k: int| (lengths[k], volume_of(lengths.skip(k + 1)) as usize))
}

/// The coordinates in a view that take, on axis `i`, the coordinate that
/// `coords` has on axis `map[i]`.
pub open spec fn pull_coords(coords: Seq<usize>, map: Seq<usize>) -> Seq<usize> {
    Seq::new(map.len(), |i: int| coords[map[i] as int])
}

/// The sum of the strides of the first `upto` axes that `map` sends to `slot`.
pub open spec fn stride_sum(axes: Seq<(usize, usize)>, map: Seq<usize>, slot: int, upto: int) -> nat
    decreases upto,
{
    if upto <= 0 {
        0
    } else {
        stride_sum(axes, map, slot, upto - 1) + if map[upto - 1] == slot {
            axes[upto - 1].1 as nat
        } else {
            0
        }
    }
}

/// The axes of a polymer: the given lengths, each with the sum of the
/// strides of the first `upto` old axes that `map` sends there.
pub open spec fn polymer_axes(
    axes: Seq<(usize, usize)>,
    lengths: Seq<usize>,
    map: Seq<usize>,
    upto: int,
) -> Seq<(usize, usize)> {
    Seq::new(lengths.len(), |x: int| (lengths[x], stride_sum(axes, map, x, upto) as usize))
}

/// Whether `map` sends the axes of a view to different slots below `count`.
pub open spec fn one_to_one(map: Seq<usize>, count: nat) -> bool {
    &&& forall|i: int| 0 <= i < map.len() ==> map[i] < count
    &&& forall|i: int, j: int| 0 <= i < j < map.len() ==> map[i] != map[j]
}

/// Whether `map` sends every axis to a slot of the same length.
pub open spec fn fits_lengths(axes: Seq<(usize, usize)>, lengths: Seq<usize>, map: Seq<usize>) -> bool {
    &&& map.len() == axes.len()
    &&& forall|i: int| 0 <= i < map.len() ==> map[i] < lengths.len() && axes[i].0 == lengths[map[i] as int]
}

/// The lengths of all axes but the last are the lengths of the lengths but the last.
pub proof fn lemma_lengths_drop_last(axes: Seq<(usize, usize)>)
    requires
        axes.len() > 0,
    ensures
        lengths_of(axes).drop_last() == lengths_of(axes.drop_last()),
        lengths_of(axes).last() == axes.last().0,
{
    assert(lengths_of(axes).drop_last() =~= lengths_of(axes.drop_last()));
}

/// Replacing one axis changes the span by the difference of the two reaches.
pub proof fn lemma_span_update(axes: Seq<(usize, usize)>, k: int, e: (usize, usize))
    requires
        0 <= k < axes.len(),
    ensures
        span(axes.update(k, e)) + reach(axes[k]) == span(axes) + reach(e),
    decreases axes.len(),
{
    let next = axes.update(k, e);
    if k == axes.len() - 1 {
        assert(next.drop_last() =~= axes.drop_last());
    } else {
        assert(next.drop_last() =~= axes.drop_last().update(k, e));
        lemma_span_update(axes.drop_last(), k, e);
    }
}

/// Replacing one axis changes the dot product by the coordinate times the
/// difference of the two strides.
pub proof fn lemma_dot_update(axes: Seq<(usize, usize)>, coords: Seq<usize>, k: int, e: (usize, usize))
    requires
        0 <= k < axes.len(),
        coords.len() == axes.len(),
    ensures
        dot(axes.update(k, e), coords) + coords[k] * axes[k].1 == dot(axes, coords) + coords[k] * e.1,
    decreases axes.len(),
{
    let next = axes.update(k, e);
    if k == axes.len() - 1 {
        assert(next.drop_last() =~= axes.drop_last());
    } else {
        assert(next.drop_last() =~= axes.drop_last().update(k, e));
        lemma_dot_update(axes.drop_last(), coords.drop_last(), k, e);
    }
}

/// Replacing a length of zero by another one multiplies the bulk by it.
pub proof fn lemma_bulk_update(lengths: Seq<usize>, k: int, d: usize)
    requires
        0 <= k < lengths.len(),
        lengths[k] == 0,
    ensures
        bulk_of(lengths.update(k, d)) == bulk_of(lengths) * (if d == 0 {
            1nat
        } else {
            d as nat
        }),
    decreases lengths.len(),
{
    let next = lengths.update(k, d);
    let f = if d == 0 {
        1int
    } else {
        d as int
    };
    if k == lengths.len() - 1 {
        assert(next.drop_last() =~= lengths.drop_last());
    } else {
        assert(next.drop_last() =~= lengths.drop_last().update(k, d));
        lemma_bulk_update(lengths.drop_last(), k, d);
        let b = bulk_of(lengths.drop_last()) as int;
        let last = lengths.last() as int;
        assert((b * f) * last == (b * last) * f) by (nonlinear_arith);
    }
}

/// The dot product of valid coordinates is at most the span.
pub proof fn lemma_dot_bound(axes: Seq<(usize, usize)>, coords: Seq<usize>)
    requires
        valid_coords(lengths_of(axes), coords),
    ensures
        dot(axes, coords) <= span(axes),
    decreases axes.len(),
{
    if axes.len() > 0 {
        lemma_lengths_drop_last(axes);
        assert forall|k: int| 0 <= k < axes.len() - 1 implies (#[trigger] coords.drop_last()[k])
            < lengths_of(axes.drop_last())[k] by {
            assert(coords[k] < lengths_of(axes)[k]);
        }
        lemma_dot_bound(axes.drop_last(), coords.drop_last());
        let c = coords.last() as int;
        let d = axes.last().0 as int;
        let s = axes.last().1 as int;
        assert(coords[axes.len() - 1] < lengths_of(axes)[axes.len() - 1]);
        assert(c * s <= (d - 1) * s) by (nonlinear_arith)
            requires
                0 <= c < d,
                0 <= s,
        ;
    }
}

/// The span and the dot product of the first `k` axes, and what one more axis adds.
pub proof fn lemma_view_step(axes: Seq<(usize, usize)>, coords: Seq<usize>, k: int)
    requires
        0 <= k < axes.len(),
        coords.len() == axes.len(),
    ensures
        span(axes.take(k + 1)) == span(axes.take(k)) + reach(axes[k]),
        dot(axes.take(k + 1), coords.take(k + 1)) == dot(axes.take(k), coords.take(k)) + coords[k]
            * axes[k].1,
        lengths_of(axes.take(k + 1)) == lengths_of(axes).take(k + 1),
        lengths_of(axes.take(k)) == lengths_of(axes).take(k),
{
    assert(axes.take(k + 1).drop_last() =~= axes.take(k));
    assert(coords.take(k + 1).drop_last() =~= coords.take(k));
    assert(lengths_of(axes.take(k + 1)) =~= lengths_of(axes).take(k + 1));
    assert(lengths_of(axes.take(k)) =~= lengths_of(axes).take(k));
}

/// The span of the first `k` axes is at most the span of all.
pub proof fn lemma_span_prefix(axes: Seq<(usize, usize)>, k: int)
    requires
        0 <= k <= axes.len(),
    ensures
        span(axes.take(k)) <= span(axes),
    decreases axes.len() - k,
{
    if k == axes.len() {
        assert(axes.take(k) =~= axes);
    } else {
        lemma_view_step(axes, Seq::new(axes.len(), |i: int| 0usize), k);
        lemma_span_prefix(axes, k + 1);
    }
}

/// The volume of all lengths from `k` on is the `k`-th length times the
/// volume of the later ones; neither is larger than the bulk.
pub proof fn lemma_volume_suffix(lengths: Seq<usize>, k: int)
    requires
        0 <= k <= lengths.len(),
    ensures
        k < lengths.len() ==> volume_of(lengths.skip(k)) == (lengths[k] as nat) * volume_of(
            lengths.skip(k + 1),
        ),
        k < lengths.len() ==> volume_of(lengths.skip(k)) == volume_of(lengths.drop_last().skip(k))
            * (lengths.last() as nat),
        volume_of(lengths.skip(k)) <= bulk_of(lengths.skip(k)) <= bulk_of(lengths),
    decreases lengths.len(),
{
    lemma_bulk(lengths.skip(k));
    if k == lengths.len() {
        lemma_bulk(lengths);
        assert(lengths.skip(k) =~= Seq::empty());
    } else {
        let front = lengths.drop_last();
        let last = lengths.last() as int;
        assert(lengths.skip(k).drop_last() =~= front.skip(k));
        lemma_volume_suffix(front, k);
        lemma_bulk(front);
        if last > 0 {
            lemma_mul_inequality(bulk_of(front.skip(k)) as int, bulk_of(front) as int, last);
        }
        assert(lengths.skip(k).last() == lengths.last());
        assert(volume_of(lengths.skip(k)) == volume_of(front.skip(k)) * (last as nat));
        if k == lengths.len() - 1 {
            assert(lengths.skip(k + 1) =~= Seq::empty());
            assert(front.skip(k) =~= Seq::empty());
            let one = volume_of(front.skip(k)) as int;
            let other = volume_of(lengths.skip(k + 1)) as int;
            assert(one * last == last * other) by (nonlinear_arith)
                requires
                    one == 1,
                    other == 1,
            ;
        } else {
            assert(lengths.skip(k + 1).drop_last() =~= front.skip(k + 1));
            assert(lengths.skip(k + 1).last() == lengths.last());
            let v = volume_of(front.skip(k + 1)) as int;
            let d = lengths[k] as int;
            assert(front[k] == lengths[k]);
            assert(volume_of(lengths.skip(k + 1)) == v * last);
            assert((d * v) * last == d * (v * last)) by (nonlinear_arith);
        }
    }
}

/// If the strides of `more` are those of `axes` times `factor`, so is its dot
/// product; and so is its span, where the lengths agree.
proof fn lemma_scaled(axes: Seq<(usize, usize)>, more: Seq<(usize, usize)>, coords: Seq<usize>, factor: nat)
    requires
        axes.len() == more.len(),
        coords.len() == axes.len(),
        forall|k: int| 0 <= k < axes.len() ==> more[k].0 == axes[k].0 && more[k].1 == axes[k].1 * factor,
    ensures
        dot(more, coords) == dot(axes, coords) * factor,
        span(more) == span(axes) * factor,
    decreases axes.len(),
{
    if axes.len() > 0 {
        lemma_scaled(axes.drop_last(), more.drop_last(), coords.drop_last(), factor);
        let c = coords.last() as int;
        let s = axes.last().1 as int;
        let d = axes.last().0 as int;
        let f = factor as int;
        let a = dot(axes.drop_last(), coords.drop_last()) as int;
        let b = span(axes.drop_last()) as int;
        assert(more.last().0 == d && more.last().1 == s * f);
        assert(a * f + c * (s * f) == (a + c * s) * f) by (nonlinear_arith);
        assert(dot(more, coords) == a * f + c * (s * f));
        assert(dot(axes, coords) == a + c * s);
        if d > 0 {
            assert(b * f + (d - 1) * (s * f) == (b + (d - 1) * s) * f) by (nonlinear_arith);
            assert((d - 1) * (s * f) >= 0 && (d - 1) * s >= 0) by (nonlinear_arith)
                requires
                    d > 0,
                    s >= 0,
                    f >= 0,
            ;
            assert(reach(more.last()) == (d - 1) * (s * f));
            assert(reach(axes.last()) == (d - 1) * s);
        }
    } else {
        assert(0 * (factor as int) == 0);
    }
}

/// In the canonical view of a shape, the position of valid coordinates is
/// their row-major index, and the span is below the bulk.
pub proof fn lemma_canonical(lengths: Seq<usize>, coords: Seq<usize>)
    requires
        bulk_of(lengths) <= usize::MAX,
        coords.len() == lengths.len(),
    ensures
        lengths_of(canonical_axes(lengths)) == lengths,
        span(canonical_axes(lengths)) < bulk_of(lengths),
        valid_coords(lengths, coords) ==> dot(canonical_axes(lengths), coords) == flat_index(
            lengths,
            coords,
        ),
    decreases lengths.len(),
{
    let axes = canonical_axes(lengths);
    assert(lengths_of(axes) =~= lengths);
    if lengths.len() > 0 {
        let front = lengths.drop_last();
        let last = lengths.last();
        let n = lengths.len() as int;
        lemma_bulk(front);
        if last > 0 {
            lemma_mul_inequality(1, last as int, bulk_of(front) as int);
            lemma_mul_is_commutative(bulk_of(front) as int, last as int);
        }
        lemma_canonical(front, coords.drop_last());
        assert forall|k: int| 0 <= k < n - 1 implies axes.drop_last()[k].0 == canonical_axes(front)[k].0
            && axes.drop_last()[k].1 == canonical_axes(front)[k].1 * (last as nat) by {
            lemma_volume_suffix(lengths, k + 1);
            lemma_volume_suffix(front, k + 1);
            assert(front[k] == lengths[k]);
        }
        lemma_scaled(canonical_axes(front), axes.drop_last(), coords.drop_last(), last as nat);
        assert(lengths.skip(n) =~= Seq::empty());
        assert(axes.last().1 == 1);
        let sp = span(canonical_axes(front)) as int;
        let bf = bulk_of(front) as int;
        let d = last as int;
        let unit = axes.last().1 as int;
        let c = coords.last() as int;
        assert(c * unit == c && (d - 1) * unit == d - 1) by (nonlinear_arith)
            requires
                unit == 1,
        ;
        assert(dot(axes, coords) == dot(axes.drop_last(), coords.drop_last()) + c);
        assert(span(axes) == span(axes.drop_last()) + (if d == 0 {
            0
        } else {
            d - 1
        }));
        assert(span(axes.drop_last()) == sp * d);
        if d > 0 {
            assert(sp * d + (d - 1) * 1 < bf * d) by (nonlinear_arith)
                requires
                    0 <= sp < bf,
                    d > 0,
            ;
        } else {
            assert(sp * d == 0) by (nonlinear_arith)
                requires
                    d == 0,
            ;
        }
        if valid_coords(lengths, coords) {
            assert forall|k: int| 0 <= k < front.len() implies coords.drop_last()[k] < front[k] by {
                assert(coords[k] < lengths[k]);
            }
        }
    }
}

/// The sum of the strides that go to a slot grows with the number of axes
/// that are taken in.
pub proof fn lemma_stride_sum_grows(axes: Seq<(usize, usize)>, map: Seq<usize>, x: int, k: int, n: int)
    requires
        0 <= k <= n,
    ensures
        stride_sum(axes, map, x, k) <= stride_sum(axes, map, x, n),
    decreases n - k,
{
    if k < n {
        lemma_stride_sum_grows(axes, map, x, k, n - 1);
    }
}

/// A view whose strides are all zero has the dot product zero.
proof fn lemma_zero_strides(axes: Seq<(usize, usize)>, coords: Seq<usize>)
    requires
        forall|k: int| 0 <= k < axes.len() ==> axes[k].1 == 0,
    ensures
        dot(axes, coords) == 0,
    decreases axes.len(),
{
    if axes.len() > 0 {
        lemma_zero_strides(axes.drop_last(), coords.drop_last());
    }
}

/// Taking in one more old axis adds its stride to the slot that the map
/// sends it to.
pub proof fn lemma_polymer_step(axes: Seq<(usize, usize)>, lengths: Seq<usize>, map: Seq<usize>, k: int)
    requires
        fits_lengths(axes, lengths, map),
        0 <= k < axes.len(),
        forall|x: int|
            0 <= x < lengths.len() ==> stride_sum(axes, map, x, axes.len() as int) <= usize::MAX,
    ensures
        stride_sum(axes, map, map[k] as int, k) + axes[k].1 <= usize::MAX,
        polymer_axes(axes, lengths, map, k + 1) == polymer_axes(axes, lengths, map, k).update(
            map[k] as int,
            (lengths[map[k] as int], (stride_sum(axes, map, map[k] as int, k) + axes[k].1) as usize),
        ),
{
    let x = map[k] as int;
    lemma_stride_sum_grows(axes, map, x, k + 1, axes.len() as int);
    assert(stride_sum(axes, map, x, k + 1) == stride_sum(axes, map, x, k) + axes[k].1);
    let e = (lengths[x], (stride_sum(axes, map, x, k) + axes[k].1) as usize);
    assert(polymer_axes(axes, lengths, map, k + 1) =~= polymer_axes(axes, lengths, map, k).update(
        x,
        e,
    ));
}

/// The dot product of a polymer that has taken in `k` old axes is the dot
/// product of these axes with the coordinates that the map pulls back.
proof fn lemma_polymer_dot(
    axes: Seq<(usize, usize)>,
    lengths: Seq<usize>,
    map: Seq<usize>,
    coords: Seq<usize>,
    k: int,
)
    requires
        fits_lengths(axes, lengths, map),
        coords.len() == lengths.len(),
        0 <= k <= axes.len(),
        forall|x: int|
            0 <= x < lengths.len() ==> stride_sum(axes, map, x, axes.len() as int) <= usize::MAX,
    ensures
        dot(polymer_axes(axes, lengths, map, k), coords) == dot(
            axes.take(k),
            pull_coords(coords, map).take(k),
        ),
    decreases k,
{
    if k == 0 {
        lemma_zero_strides(polymer_axes(axes, lengths, map, 0), coords);
        assert(axes.take(0) =~= Seq::empty());
    } else {
        let j = k - 1;
        lemma_polymer_dot(axes, lengths, map, coords, j);
        lemma_polymer_step(axes, lengths, map, j);
        let here = polymer_axes(axes, lengths, map, j);
        let x = map[j] as int;
        let e = (lengths[x], (stride_sum(axes, map, x, j) + axes[j].1) as usize);
        lemma_dot_update(here, coords, x, e);
        lemma_view_step(axes, pull_coords(coords, map), j);
        let c = coords[x] as int;
        let s0 = stride_sum(axes, map, x, j) as int;
        let s1 = axes[j].1 as int;
        assert(here[x].1 == s0) by {
            lemma_stride_sum_grows(axes, map, x, j, axes.len() as int);
        }
        assert(c * (s0 + s1) == c * s0 + c * s1) by (nonlinear_arith);
    }
}

/// The position of coordinates in a polymer is the position, in the old
/// view, of the coordinates that the map pulls back.
pub proof fn lemma_polymer(
    axes: Seq<(usize, usize)>,
    lengths: Seq<usize>,
    map: Seq<usize>,
    coords: Seq<usize>,
)
    requires
        fits_lengths(axes, lengths, map),
        forall|x: int| 0 <= x < lengths.len() ==> stride_sum(axes, map, x, axes.len() as int) <= usize::MAX,
        valid_coords(lengths, coords),
    ensures
        valid_coords(lengths_of(axes), pull_coords(coords, map)),
        dot(polymer_axes(axes, lengths, map, axes.len() as int), coords) == dot(
            axes,
            pull_coords(coords, map),
        ),
{
    lemma_polymer_dot(axes, lengths, map, coords, axes.len() as int);
    assert(axes.take(axes.len() as int) =~= axes);
    assert(pull_coords(coords, map).take(axes.len() as int) =~= pull_coords(coords, map));
}

/// The shape of a view into a tensor, which is a list of side lengths
/// and the corresponding strides.
#[derive(Debug)]
pub struct ShapeView {
    strides: Vec<(usize, usize)>,
    offset: usize,
}

impl ShapeView {
    /// The axes of the view, each a length with its stride.
    pub closed spec fn spec_axes(&self) -> Seq<(usize, usize)> {
        self.strides@
    }

    /// The position of the first element.
    pub closed spec fn spec_offset(&self) -> usize {
        self.offset
    }

    /// Every product of lengths and every position fits in a machine word.
    pub open spec fn wf(&self) -> bool {
        &&& bulk_of(lengths_of(self.spec_axes())) <= usize::MAX
        &&& self.spec_offset() + span(self.spec_axes()) <= usize::MAX
    }

    /// The number of elements.
    pub open spec fn spec_volume(&self) -> nat {
        volume_of(lengths_of(self.spec_axes()))
    }

    /// The position of the element at the given coordinates.
    pub open spec fn spec_position(&self, coords: Seq<usize>) -> nat {
        self.spec_offset() as nat + dot(self.spec_axes(), coords)
    }

    /// The position of the element with the given row-major index.
    pub open spec fn spec_nth(&self, index: nat) -> nat {
        self.spec_offset() as nat + nth_position(self.spec_axes(), index)
    }

    /// All positions of the view in row-major order.
    pub open spec fn spec_positions(&self) -> Seq<nat> {
        Seq::new(self.spec_volume(), |n: int| self.spec_nth(n as nat))
    }

    /// Creates the canonical view of the given shape, where the last coordinate
    /// is advancing the fastest.
    pub fn new(shape: &Shape) -> (r: Self)
        requires
            shape.wf(),
        ensures
            r.wf(),
            r.spec_axes() == canonical_axes(shape.spec_lengths()),
            r.spec_offset() == shape.spec_offset(),
    {
        let n = shape.lengths.len();
        let ghost lengths = shape.lengths@;
        let mut strides: Vec<(usize, usize)> = Vec::new();
        let mut i: usize = 0;
        while i < n
            invariant
                i <= n,
                n == shape.lengths@.len(),
                strides@.len() == i,
                forall|k: int| 0 <= k < i ==> (#[trigger] strides@[k]).0 == shape.lengths@[k],
            decreases n - i,
        {
            strides.push((shape.lengths[i], 0));
            i += 1;
        }
        let mut s: usize = 1;
        proof {
            assert(lengths.skip(n as int) =~= Seq::empty());
        }
        while i > 0
            invariant
                i <= n,
                lengths == shape.lengths@,
                n == lengths.len(),
                strides@.len() == n,
                shape.wf(),
                s == volume_of(lengths.skip(i as int)),
                forall|k: int| 0 <= k < n ==> (#[trigger] strides@[k]).0 == lengths[k],
                forall|k: int| i <= k < n ==> (#[trigger] strides@[k]).1 == volume_of(lengths.skip(k + 1)),
            decreases i,
        {
            i -= 1;
            proof {
                lemma_volume_suffix(lengths, i as int);
                lemma_mul_is_commutative(lengths[i as int] as int, s as int);
            }
            let d = strides[i].0;
            strides[i] = (d, s);
            s = s * d;
        }
        proof {
            assert(strides@ =~= canonical_axes(lengths));
            lemma_canonical(lengths, lengths);
        }
        Self { strides, offset: shape.offset }
    }

    /// Returns the number of dimensions.
    pub fn dimension(&self) -> (r: usize)
        ensures
            r == self.spec_axes().len(),
    {
        self.strides.len()
    }

    /// Returns the side length along the given axis.
    pub fn length(&self, axis: usize) -> (r: usize)
        requires
            axis < self.spec_axes().len(),
        ensures
            r == self.spec_axes()[axis as int].0,
    {
        self.strides[axis].0
    }

    /// The number of elements, which is just the product of all side length.
    pub fn volume(&self) -> (r: usize)
        requires
            self.wf(),
        ensures
            r == self.spec_volume(),
    {
        let ghost lengths = lengths_of(self.strides@);
        let mut n: usize = 1;
        let mut i: usize = 0;
        while i < self.strides.len()
            invariant
                i <= self.strides@.len(),
                lengths == lengths_of(self.strides@),
                bulk_of(lengths) <= usize::MAX,
                n == volume_of(lengths.take(i as int)),
            decreases self.strides.len() - i,
        {
            proof {
                lemma_volume_step(lengths, i as int);
                lemma_bulk_prefix(lengths, i + 1);
            }
            n = n * self.strides[i].0;
            i += 1;
        }
        proof {
            assert(lengths.take(i as int) =~= lengths);
        }
        n
    }

    /// Returns the position in a flat array of the element at the given
    /// coordinates. The number of coordinates must match the dimension.
    pub fn position(&self, coordinates: &[usize]) -> (r: usize)
        requires
            self.wf(),
            valid_coords(lengths_of(self.spec_axes()), coordinates@),
        ensures
            r == self.spec_position(coordinates@),
    {
        let mut n: usize = self.offset;
        let mut i: usize = 0;
        while i < self.strides.len()
            invariant
                i <= self.strides@.len(),
                self.wf(),
                valid_coords(lengths_of(self.strides@), coordinates@),
                n == self.offset + dot(self.strides@.take(i as int), coordinates@.take(i as int)),
            decreases self.strides.len() - i,
        {
            proof {
                lemma_view_step(self.strides@, coordinates@, i as int);
                assert forall|k: int| 0 <= k < i + 1 implies (#[trigger] coordinates@.take(i + 1)[k])
                    < lengths_of(self.strides@.take(i + 1))[k] by {
                    assert(coordinates@[k] < lengths_of(self.strides@)[k]);
                }
                lemma_dot_bound(self.strides@.take(i + 1), coordinates@.take(i + 1));
                lemma_span_prefix(self.strides@, i + 1);
                lemma_mul_nonnegative(coordinates@[i as int] as int, self.strides@[i as int].1 as int);
            }
            n = n + coordinates[i] * self.strides[i].1;
            i += 1;
        }
        proof {
            assert(self.strides@.take(i as int) =~= self.strides@);
            assert(coordinates@.take(i as int) =~= coordinates@);
        }
        n
    }

    /// Permutes the coordinates of the given view. The map must be of size
    /// dimension. The old coordinate `i` will be placed at the new coordinate
    /// `map[i]`.
    pub fn permute(&self, map: &[usize]) -> (r: Self)
        requires
            self.wf(),
            map@.len() == self.spec_axes().len(),
            one_to_one(map@, map@.len()),
        ensures
            r.wf(),
            r.spec_offset() == self.spec_offset(),
            r.spec_axes().len() == self.spec_axes().len(),
            forall|i: int| 0 <= i < map@.len() ==> r.spec_axes()[map@[i] as int] == self.spec_axes()[i],
            bulk_of(lengths_of(r.spec_axes())) == bulk_of(lengths_of(self.spec_axes())),
            span(r.spec_axes()) == span(self.spec_axes()),
    {
        let n = self.strides.len();
        let ghost axes = self.strides@;
        let mut strides: Vec<(usize, usize)> = Vec::new();
        let mut i: usize = 0;
        while i < n
            invariant
                i <= n,
                strides@.len() == i,
                forall|k: int| 0 <= k < i ==> strides@[k] == (0usize, 0usize),
            decreases n - i,
        {
            strides.push((0, 0));
            i += 1;
        }
        proof {
            assert(axes.take(0) =~= Seq::empty());
            assert(lengths_of(axes.take(0)) =~= Seq::empty());
            lemma_zero_view(strides@);
        }
        i = 0;
        while i < n
            invariant
                i <= n,
                n == axes.len(),
                axes == self.strides@,
                map@.len() == n,
                one_to_one(map@, n as nat),
                strides@.len() == n,
                forall|k: int| 0 <= k < i ==> strides@[map@[k] as int] == axes[k],
                forall|x: int|
                    0 <= x < n && (forall|k: int| 0 <= k < i ==> map@[k] != x) ==> #[trigger] strides@[x]
                        == (0usize, 0usize),
                span(strides@) == span(axes.take(i as int)),
                bulk_of(lengths_of(strides@)) == bulk_of(lengths_of(axes.take(i as int))),
            decreases n - i,
        {
            let x = map[i];
            let ghost before = strides@;
            proof {
                assert(before[x as int] == (0usize, 0usize));
                lemma_span_update(before, x as int, axes[i as int]);
                lemma_view_step(axes, Seq::new(n as nat, |k: int| 0usize), i as int);
                lemma_bulk_update(lengths_of(before), x as int, axes[i as int].0);
                assert(lengths_of(before).update(x as int, axes[i as int].0) =~= lengths_of(
                    before.update(x as int, axes[i as int]),
                ));
                assert(lengths_of(axes).take(i + 1).drop_last() =~= lengths_of(axes).take(i as int));
            }
            strides[x] = self.strides[i];
            i += 1;
        }
        proof {
            assert(axes.take(n as int) =~= axes);
        }
        Self { strides, offset: self.offset }
    }

    /// Whether `polymer` can be called with these arguments: the map sends
    /// every axis to a slot of the same length, and neither the sums of the
    /// strides nor the positions of the polymer leave the machine word.
    pub open spec fn polymer_fits(&self, lengths: Seq<usize>, map: Seq<usize>) -> bool {
        &&& fits_lengths(self.spec_axes(), lengths, map)
        &&& bulk_of(lengths) <= usize::MAX
        &&& forall|x: int|
            0 <= x < lengths.len() ==> stride_sum(self.spec_axes(), map, x, map.len() as int)
                <= usize::MAX
        &&& self.spec_offset() + span(polymer_axes(self.spec_axes(), lengths, map, map.len() as int))
            <= usize::MAX
    }

    /// Computes the polymer of the given view, which allows the introduction
    /// dummy variables and identification of variables. The map must be of
    /// size dimension. The old coordinate `i` will be placed at the new
    /// coordinate `map[i]`.
    pub fn polymer(&self, shape: &Shape, map: &[usize]) -> (r: Self)
        requires
            self.polymer_fits(shape.spec_lengths(), map@),
        ensures
            r.wf(),
            r.spec_offset() == self.spec_offset(),
            r.spec_axes() == polymer_axes(
                self.spec_axes(),
                shape.spec_lengths(),
                map@,
                map@.len() as int,
            ),
    {
        let ghost axes = self.strides@;
        let ghost lengths = shape.lengths@;
        let m = shape.lengths.len();
        let mut strides: Vec<(usize, usize)> = Vec::new();
        let mut x: usize = 0;
        while x < m
            invariant
                x <= m,
                m == shape.lengths@.len(),
                strides@.len() == x,
                forall|k: int| 0 <= k < x ==> strides@[k] == (shape.lengths@[k], 0usize),
            decreases m - x,
        {
            strides.push((shape.lengths[x], 0));
            x += 1;
        }
        proof {
            assert(strides@ =~= polymer_axes(axes, lengths, map@, 0));
        }
        let n = map.len();
        let mut i: usize = 0;
        while i < n
            invariant
                i <= n,
                n == map@.len(),
                axes == self.strides@,
                lengths == shape.lengths@,
                self.polymer_fits(lengths, map@),
                strides@ == polymer_axes(axes, lengths, map@, i as int),
            decreases n - i,
        {
            let x = map[i];
            proof {
                lemma_polymer_step(axes, lengths, map@, i as int);
                lemma_stride_sum_grows(axes, map@, x as int, i as int, n as int);
            }
            let (d, s) = strides[x];
            strides[x] = (d, s + self.strides[i].1);
            i += 1;
        }
        proof {
            assert(lengths_of(strides@) =~= lengths);
        }
        Self { strides, offset: self.offset }
    }
}

/// A view whose axes are all `(0, 0)` has span zero and bulk one.
pub proof fn lemma_zero_view(axes: Seq<(usize, usize)>)
    requires
        forall|k: int| 0 <= k < axes.len() ==> axes[k] == (0usize, 0usize),
    ensures
        span(axes) == 0,
        bulk_of(lengths_of(axes)) == 1,
    decreases axes.len(),
{
    if axes.len() > 0 {
        lemma_lengths_drop_last(axes);
        lemma_zero_view(axes.drop_last());
    }
}

impl Shape {
    /// Creates the default view of this shape.
    pub fn view(&self) -> (r: ShapeView)
        requires
            self.wf(),
        ensures
            r.wf(),
            r.spec_axes() == canonical_axes(self.spec_lengths()),
            r.spec_offset() == self.spec_offset(),
    {
        ShapeView::new(self)
    }
}


/// The axes after every axis has been merged into the one before it
/// wherever the two are contiguous: the stride of the first is the length
/// of the second times its stride. A merged axis has the product of the
/// lengths and the stride of the last axis that went into it.
pub open spec fn merged_axes(axes: Seq<(usize, usize)>) -> Seq<(usize, usize)>
    decreases axes.len(),
{
    if axes.len() <= 1 {
        axes
    } else {
        let front = merged_axes(axes.drop_last());
        let last = axes.last();
        if last.0 * last.1 == front.last().1 {
            front.drop_last().push(((front.last().0 * last.0) as usize, last.1))
        } else {
            front.push(last)
        }
    }
}

/// Whether an axis other than the first has length zero.
pub open spec fn has_inner_zero(axes: Seq<(usize, usize)>) -> bool {
    exists|k: int| 1 <= k < axes.len() && (#[trigger] axes[k]).0 == 0
}

/// The axes of the simplified view: a single empty axis if an axis other
/// than the first is empty, else the merged axes.
pub open spec fn simplified_axes(axes: Seq<(usize, usize)>) -> Seq<(usize, usize)> {
    if has_inner_zero(axes) {
        seq![(0usize, 0usize)]
    } else {
        merged_axes(axes)
    }
}

/// The position of an index is the position of its quotient by the last
/// length in the other axes, plus the remainder times the last stride.
pub proof fn lemma_nth_step(axes: Seq<(usize, usize)>, index: nat)
    requires
        axes.len() > 0,
        axes.last().0 > 0,
    ensures
        nth_position(axes, index) == nth_position(axes.drop_last(), index / (axes.last().0 as nat))
            + (index % (axes.last().0 as nat)) * axes.last().1,
{
    lemma_lengths_drop_last(axes);
    let d = axes.last().0 as nat;
    let coords = coords_of(lengths_of(axes), index);
    assert(coords.drop_last() =~= coords_of(lengths_of(axes.drop_last()), index / d));
    assert(index % d < d) by (nonlinear_arith)
        requires
            d > 0,
    ;
}

/// A length is at most the bulk.
pub proof fn lemma_length_below_bulk(lengths: Seq<usize>, k: int)
    requires
        0 <= k < lengths.len(),
    ensures
        lengths[k] <= bulk_of(lengths),
    decreases lengths.len(),
{
    let front = lengths.drop_last();
    let last = lengths.last() as int;
    lemma_bulk(front);
    if last > 0 {
        lemma_mul_inequality(1, bulk_of(front) as int, last);
        lemma_mul_inequality(1, last, bulk_of(front) as int);
        lemma_mul_is_commutative(bulk_of(front) as int, last);
    }
    if k < lengths.len() - 1 {
        lemma_length_below_bulk(front, k);
        assert(front[k] == lengths[k]);
    }
}

/// Merging keeps the volume, the last stride and every position, and
/// enlarges neither the bulk nor the span.
pub proof fn lemma_merged(axes: Seq<(usize, usize)>)
    requires
        bulk_of(lengths_of(axes)) <= usize::MAX,
    ensures
        merged_axes(axes).len() <= axes.len(),
        axes.len() > 0 ==> merged_axes(axes).len() > 0 && merged_axes(axes).last().1
            == axes.last().1,
        volume_of(lengths_of(merged_axes(axes))) == volume_of(lengths_of(axes)),
        bulk_of(lengths_of(merged_axes(axes))) <= bulk_of(lengths_of(axes)),
        span(merged_axes(axes)) <= span(axes),
        forall|index: nat|
            index < volume_of(lengths_of(axes)) ==> #[trigger] nth_position(merged_axes(axes), index)
                == nth_position(axes, index),
    decreases axes.len(),
{
    if axes.len() > 1 {
        let rest = axes.drop_last();
        let front = merged_axes(rest);
        let last = axes.last();
        let d = last.0 as int;
        let s = last.1 as int;
        let dt = front.last().0 as int;
        let st = front.last().1 as int;
        lemma_lengths_drop_last(axes);
        lemma_bulk(lengths_of(rest));
        lemma_bulk(lengths_of(front));
        if d > 0 {
            lemma_mul_inequality(1, d, bulk_of(lengths_of(rest)) as int);
            lemma_mul_is_commutative(bulk_of(lengths_of(rest)) as int, d);
        }
        lemma_merged(rest);
        lemma_lengths_drop_last(front);
        let vr = volume_of(lengths_of(rest)) as int;
        let br = bulk_of(lengths_of(rest)) as int;
        let bf = bulk_of(lengths_of(front)) as int;
        if d * s == st {
            let inner = front.drop_last();
            let joined = ((dt * d) as usize, last.1);
            let merged = inner.push(joined);
            assert(merged_axes(axes) == merged);
            assert(merged.drop_last() =~= inner);
            lemma_lengths_drop_last(merged);
            let vi = volume_of(lengths_of(inner)) as int;
            let bi = bulk_of(lengths_of(inner)) as int;
            let si = span(inner) as int;
            lemma_bulk(lengths_of(inner));
            lemma_length_below_bulk(lengths_of(front), front.len() - 1);
            assert(dt * d <= usize::MAX && dt * d >= 0) by (nonlinear_arith)
                requires
                    0 <= dt <= bf,
                    bf <= br,
                    0 <= d,
                    d > 0 ==> br * d <= usize::MAX,
            ;
            assert(joined.0 == dt * d);
            assert((vi * dt) * d == vi * (dt * d)) by (nonlinear_arith);
            if dt > 0 && d > 0 {
                assert((bi * dt) * d == bi * (dt * d) && dt * d > 0) by (nonlinear_arith)
                    requires
                        dt > 0,
                        d > 0,
                ;
                assert(bi * (dt * d) <= br * d) by (nonlinear_arith)
                    requires
                        bi * dt <= br,
                        (bi * dt) * d == bi * (dt * d),
                        d > 0,
                ;
                assert((dt * d - 1) * s == (dt - 1) * (d * s) + (d - 1) * s) by (nonlinear_arith);
                assert((dt - 1) * st >= 0 && (d - 1) * s >= 0) by (nonlinear_arith)
                    requires
                        dt > 0,
                        d > 0,
                        st >= 0,
                        s >= 0,
                ;
            } else {
                assert(dt * d == 0) by (nonlinear_arith)
                    requires
                        dt == 0 || d == 0,
                ;
                if d > 0 {
                    assert(bi <= br * d) by (nonlinear_arith)
                        requires
                            bi <= br,
                            d > 0,
                            br >= 0,
                    ;
                }
            }
            assert forall|index: nat| index < volume_of(lengths_of(axes)) implies #[trigger] nth_position(
                merged,
                index,
            ) == nth_position(axes, index) by {
                assert(d > 0 && vr > 0) by (nonlinear_arith)
                    requires
                        0 <= index < vr * d,
                        vr >= 0,
                        d >= 0,
                ;
                assert(dt > 0) by (nonlinear_arith)
                    requires
                        vi * dt == vr,
                        vr > 0,
                        vi >= 0,
                        dt >= 0,
                ;
                let n = index as int;
                lemma_mul_is_commutative(vr, d);
                lemma_multiply_divide_lt(n, d, vr);
                lemma_nth_step(axes, index);
                let q = (index / (d as nat)) as nat;
                assert(nth_position(front, q) == nth_position(rest, q));
                lemma_nth_step(front, q);
                lemma_mul_strictly_positive(dt, d);
                lemma_nth_step(merged, index);
                lemma_div_denominator(n, d, dt);
                lemma_breakdown(n, d, dt);
                lemma_mul_is_commutative(dt, d);
                let hi = (n / d) % dt;
                let lo = n % d;
                assert((d * hi + lo) * s == hi * (d * s) + lo * s) by (nonlinear_arith);
            }
            assert(bulk_of(lengths_of(front)) == if dt == 0 {
                bi
            } else {
                bi * dt
            });
            assert(bulk_of(lengths_of(merged)) == if dt * d == 0 {
                bi
            } else {
                bi * (dt * d)
            });
            assert(bulk_of(lengths_of(axes)) == if d == 0 {
                br
            } else {
                br * d
            });
            if dt > 0 {
                assert(bi <= bi * dt) by (nonlinear_arith)
                    requires
                        dt > 0,
                        bi >= 0,
                ;
            }
            if d > 0 {
                assert(br <= br * d) by (nonlinear_arith)
                    requires
                        d > 0,
                        br >= 0,
                ;
            }
            assert(bulk_of(lengths_of(merged)) <= bulk_of(lengths_of(axes)));
        } else {
            let merged = front.push(last);
            assert(merged.drop_last() =~= front);
            lemma_lengths_drop_last(merged);
            lemma_mul_inequality(bf, br, d);
            assert forall|index: nat| index < volume_of(lengths_of(axes)) implies #[trigger] nth_position(
                merged,
                index,
            ) == nth_position(axes, index) by {
                assert(d > 0 && vr > 0) by (nonlinear_arith)
                    requires
                        0 <= index < vr * d,
                        vr >= 0,
                        d >= 0,
                ;
                lemma_mul_is_commutative(vr, d);
                lemma_multiply_divide_lt(index as int, d, vr);
                lemma_nth_step(axes, index);
                lemma_nth_step(merged, index);
                let q = (index / (d as nat)) as nat;
                assert(nth_position(front, q) == nth_position(rest, q));
            }
        }
    }
}

/// Simplifying a view keeps its volume and the position of every index: the
/// positions are the same, in the same order.
pub proof fn lemma_simplified_positions(axes: Seq<(usize, usize)>)
    requires
        bulk_of(lengths_of(axes)) <= usize::MAX,
    ensures
        volume_of(lengths_of(simplified_axes(axes))) == volume_of(lengths_of(axes)),
        bulk_of(lengths_of(simplified_axes(axes))) <= bulk_of(lengths_of(axes)),
        span(simplified_axes(axes)) <= span(axes),
        forall|index: nat|
            index < volume_of(lengths_of(axes)) ==> #[trigger] nth_position(
                simplified_axes(axes),
                index,
            ) == nth_position(axes, index),
{
    if has_inner_zero(axes) {
        let k = choose|k: int| 1 <= k < axes.len() && (#[trigger] axes[k]).0 == 0;
        lemma_bulk(lengths_of(axes));
        assert(lengths_of(axes)[k] == 0);
        let one = seq![(0usize, 0usize)];
        lemma_zero_view(one);
        assert(lengths_of(one)[0] == 0);
        lemma_bulk(lengths_of(one));
    } else {
        lemma_merged(axes);
    }
}

impl ShapeView {
    /// Returns another view whose positions are the same but might have
    /// smaller dimension because some axis could be merged.
    pub fn simplify(&self) -> (r: Self)
        requires
            self.wf(),
        ensures
            r.wf(),
            r.spec_offset() == self.spec_offset(),
            r.spec_axes() == simplified_axes(self.spec_axes()),
    {
        let ghost axes = self.strides@;
        let n = self.strides.len();
        let mut out: Vec<(usize, usize)> = Vec::new();
        proof {
            lemma_simplified_positions(axes);
        }
        if n == 0 {
            proof {
                assert(!has_inner_zero(axes));
                assert(out@ =~= merged_axes(axes));
            }
            return Self { strides: out, offset: self.offset };
        }
        out.push(self.strides[0]);
        let mut head: usize = 1;
        proof {
            assert(out@ =~= axes.take(1));
            assert(merged_axes(axes.take(1)) == axes.take(1));
        }
        while head < n
            invariant
                1 <= head <= n,
                n == axes.len(),
                axes == self.strides@,
                bulk_of(lengths_of(axes)) <= usize::MAX,
                out@ == merged_axes(axes.take(head as int)),
                forall|k: int| 1 <= k < head ==> (#[trigger] axes[k]).0 != 0,
            decreases n - head,
        {
            let (d, s) = self.strides[head];
            if d == 0 {
                let mut one: Vec<(usize, usize)> = Vec::new();
                one.push((0, 0));
                proof {
                    assert(axes[head as int].0 == 0);
                    assert(has_inner_zero(axes));
                    assert(one@ =~= seq![(0usize, 0usize)]);
                    lemma_zero_view(one@);
                }
                return Self { strides: one, offset: self.offset };
            }
            let ghost cut = axes.take(head + 1);
            proof {
                assert(cut.drop_last() =~= axes.take(head as int));
                assert(cut.last() == axes[head as int]);
                assert(lengths_of(cut) =~= lengths_of(axes).take(head + 1));
                lemma_bulk_prefix(lengths_of(axes), head + 1);
                lemma_bulk_prefix(lengths_of(axes), head as int);
                assert(lengths_of(axes.take(head as int)) =~= lengths_of(axes).take(head as int));
                lemma_merged(axes.take(head as int));
                lemma_merged_fits(cut);
            }
            let last = out.len() - 1;
            let (dt, st) = out[last];
            let product = d.checked_mul(s);
            if product.is_some() && product.unwrap() == st {
                out[last] = (dt * d, s);
                proof {
                    assert(out@ =~= merged_axes(cut));
                }
            } else {
                out.push((d, s));
                proof {
                    assert(out@ =~= merged_axes(cut));
                }
            }
            head += 1;
        }
        proof {
            assert(axes.take(n as int) =~= axes);
            assert(!has_inner_zero(axes));
        }
        Self { strides: out, offset: self.offset }
    }

    /// Returns an iterator through all valid positions, volume many in total.
    /// You might want to call `simplify` before to speed up the iteration.
    pub fn positions(&self) -> (r: ShapeIter)
        requires
            self.wf(),
        ensures
            r.wf(),
            r.spec_axes() == self.spec_axes(),
            r.spec_offset() == self.spec_offset(),
            r.spec_count() == 0,
    {
        ShapeIter::new(self)
    }
}

/// The product of the lengths of the last merged axis and of the next axis
/// fits in a machine word.
pub proof fn lemma_merged_fits(axes: Seq<(usize, usize)>)
    requires
        axes.len() > 1,
        bulk_of(lengths_of(axes)) <= usize::MAX,
    ensures
        merged_axes(axes.drop_last()).last().0 * axes.last().0 <= usize::MAX,
{
    let rest = axes.drop_last();
    let front = merged_axes(rest);
    let d = axes.last().0 as int;
    let dt = front.last().0 as int;
    lemma_lengths_drop_last(axes);
    lemma_bulk(lengths_of(rest));
    if d > 0 {
        lemma_mul_inequality(1, d, bulk_of(lengths_of(rest)) as int);
        lemma_mul_is_commutative(bulk_of(lengths_of(rest)) as int, d);
    }
    lemma_merged(rest);
    lemma_length_below_bulk(lengths_of(front), front.len() - 1);
    let br = bulk_of(lengths_of(rest)) as int;
    assert(dt * d <= usize::MAX) by (nonlinear_arith)
        requires
            0 <= dt <= br,
            0 <= d,
            d > 0 ==> br * d <= usize::MAX,
    ;
}

/// Replacing one coordinate changes the dot product by the stride times the
/// difference of the two coordinates; no term is larger than the whole.
pub proof fn lemma_dot_coord(axes: Seq<(usize, usize)>, coords: Seq<usize>, k: int, c: usize)
    requires
        0 <= k < axes.len(),
        coords.len() == axes.len(),
    ensures
        dot(axes, coords.update(k, c)) + coords[k] * axes[k].1 == dot(axes, coords) + c * axes[k].1,
        coords[k] * axes[k].1 <= dot(axes, coords),
    decreases axes.len(),
{
    let next = coords.update(k, c);
    lemma_mul_nonnegative(coords[k] as int, axes[k].1 as int);
    lemma_mul_nonnegative(c as int, axes[k].1 as int);
    if k == axes.len() - 1 {
        assert(next.drop_last() =~= coords.drop_last());
    } else {
        assert(next.drop_last() =~= coords.drop_last().update(k, c));
        lemma_dot_coord(axes.drop_last(), coords.drop_last(), k, c);
        lemma_mul_nonnegative(coords.last() as int, axes.last().1 as int);
    }
}

/// If every coordinate from axis `k` on is the last one of its axis, the
/// index, plus one, is the volume of these axes times the index, plus one,
/// of the coordinates before `k`. If they are all zero, the index is the
/// volume of these axes times the index of the coordinates before `k`.
pub proof fn lemma_index_suffix(lengths: Seq<usize>, coords: Seq<usize>, k: int)
    requires
        coords.len() == lengths.len(),
        0 <= k <= lengths.len(),
    ensures
        (forall|j: int| k <= j < lengths.len() ==> coords[j] + 1 == lengths[j]) ==> flat_index(
            lengths,
            coords,
        ) + 1 == (flat_index(lengths.take(k), coords.take(k)) + 1) * volume_of(lengths.skip(k)),
        (forall|j: int| k <= j < lengths.len() ==> coords[j] == 0) ==> flat_index(lengths, coords)
            == flat_index(lengths.take(k), coords.take(k)) * volume_of(lengths.skip(k)),
    decreases lengths.len() - k,
{
    let p = flat_index(lengths.take(k), coords.take(k)) as int;
    if k == lengths.len() {
        assert(lengths.take(k) =~= lengths);
        assert(coords.take(k) =~= coords);
        assert(lengths.skip(k) =~= Seq::empty());
        let one = volume_of(lengths.skip(k)) as int;
        assert((p + 1) * one == p + 1 && p * one == p) by (nonlinear_arith)
            requires
                one == 1,
        ;
    } else {
        lemma_index_suffix(lengths, coords, k + 1);
        lemma_volume_suffix(lengths, k);
        assert(lengths.take(k + 1).drop_last() =~= lengths.take(k));
        assert(coords.take(k + 1).drop_last() =~= coords.take(k));
        let d = lengths[k] as int;
        let c = coords[k] as int;
        let v = volume_of(lengths.skip(k + 1)) as int;
        assert(flat_index(lengths.take(k + 1), coords.take(k + 1)) == p * d + c);
        if c + 1 == d {
            assert((p * d + c + 1) * v == (p + 1) * (d * v)) by (nonlinear_arith)
                requires
                    c + 1 == d,
            ;
        }
        if c == 0 {
            assert((p * d + c) * v == p * (d * v)) by (nonlinear_arith)
                requires
                    c == 0,
            ;
        }
    }
}

/// ShapeView iterator that returns all valid positions, size many in total.
#[derive(Debug)]
pub struct ShapeIter {
    index: usize,
    entries: Vec<(usize, usize, usize)>,
    done: bool,
}

impl ShapeIter {
    /// The axes of the view that is iterated, each a length with its stride.
    pub closed spec fn spec_axes(&self) -> Seq<(usize, usize)> {
        Seq::new(self.entries@.len(), |k: int| (self.entries@[k].1, self.entries@[k].2))
    }

    /// The coordinates of the position that comes next.
    pub closed spec fn spec_coords(&self) -> Seq<usize> {
        Seq::new(self.entries@.len(), |k: int| self.entries@[k].0)
    }

    /// The position of the first element of the view.
    pub closed spec fn spec_offset(&self) -> usize {
        (self.index - dot(self.spec_axes(), self.spec_coords())) as usize
    }

    /// The number of elements of the view.
    pub open spec fn spec_volume(&self) -> nat {
        volume_of(lengths_of(self.spec_axes()))
    }

    /// The number of positions that were handed out since the start.
    pub closed spec fn spec_count(&self) -> nat {
        if self.done {
            self.spec_volume()
        } else {
            flat_index(lengths_of(self.spec_axes()), self.spec_coords())
        }
    }

    /// The position of the element with the given row-major index.
    pub open spec fn spec_nth(&self, index: nat) -> nat {
        self.spec_offset() as nat + nth_position(self.spec_axes(), index)
    }

    /// The positions that are still to come, in their order.
    pub open spec fn spec_remaining(&self) -> Seq<nat> {
        Seq::new(
            (self.spec_volume() - self.spec_count()) as nat,
            |i: int| self.spec_nth((self.spec_count() + i) as nat),
        )
    }

    /// The iterator stands at a position of a well-formed view.
    pub closed spec fn wf(&self) -> bool {
        &&& bulk_of(lengths_of(self.spec_axes())) <= usize::MAX
        &&& dot(self.spec_axes(), self.spec_coords()) <= self.index
        &&& self.spec_offset() + span(self.spec_axes()) <= usize::MAX
        &&& if self.done {
            forall|k: int| 0 <= k < self.entries@.len() ==> (#[trigger] self.entries@[k]).0 == 0
        } else {
            valid_coords(lengths_of(self.spec_axes()), self.spec_coords())
        }
    }

    /// The count never exceeds the volume.
    pub proof fn lemma_count(&self)
        requires
            self.wf(),
        ensures
            self.spec_count() <= self.spec_volume(),
    {
        if !self.done {
            lemma_flat_index(lengths_of(self.spec_axes()), self.spec_coords());
        }
    }

    /// Creates a new iterator for the given view.
    pub fn new(view: &ShapeView) -> (r: Self)
        requires
            view.wf(),
        ensures
            r.wf(),
            r.spec_axes() == view.spec_axes(),
            r.spec_offset() == view.spec_offset(),
            r.spec_count() == 0,
    {
        let n = view.strides.len();
        let mut entries: Vec<(usize, usize, usize)> = Vec::new();
        let mut done = false;
        let mut i: usize = 0;
        while i < n
            invariant
                i <= n,
                n == view.strides@.len(),
                entries@.len() == i,
                forall|k: int|
                    0 <= k < i ==> (#[trigger] entries@[k]) == (0usize, view.strides@[k].0, view.strides@[k].1),
                done == exists|k: int| 0 <= k < i && (#[trigger] view.strides@[k]).0 == 0,
            decreases n - i,
        {
            let (d, s) = view.strides[i];
            if d == 0 {
                done = true;
            }
            entries.push((0, d, s));
            i += 1;
        }
        let r = Self { index: view.offset, entries, done };
        proof {
            let axes = view.strides@;
            assert(r.spec_axes() =~= axes);
            let zeros = r.spec_coords();
            lemma_zero_coords(axes, zeros);
            lemma_bulk(lengths_of(axes));
            if done {
                let k = choose|k: int| 0 <= k < n && (#[trigger] view.strides@[k]).0 == 0;
                assert(lengths_of(axes)[k] == 0);
            } else {
                assert forall|k: int| 0 <= k < n implies zeros[k] < lengths_of(axes)[k] by {
                    assert(view.strides@[k].0 != 0);
                }
            }
        }
        r
    }

    /// Resets the iterator to the first element.
    pub fn reset(&mut self)
        requires
            old(self).wf(),
        ensures
            final(self).wf(),
            final(self).spec_axes() == old(self).spec_axes(),
            final(self).spec_offset() == old(self).spec_offset(),
            final(self).spec_count() == 0,
    {
        let ghost axes = self.spec_axes();
        let ghost offset = self.spec_offset();
        let n = self.entries.len();
        let mut done = false;
        let mut index = self.index;
        let mut k: usize = 0;
        while k < n
            invariant
                k <= n,
                n == self.entries@.len(),
                axes == self.spec_axes(),
                axes.len() == n,
                index == offset + dot(axes, self.spec_coords()),
                forall|j: int| 0 <= j < k ==> (#[trigger] self.entries@[j]).0 == 0,
                done == exists|j: int| 0 <= j < k && (#[trigger] axes[j]).0 == 0,
            decreases n - k,
        {
            let (c, d, s) = self.entries[k];
            let ghost coords = self.spec_coords();
            proof {
                lemma_dot_coord(axes, coords, k as int, 0);
                assert(axes[k as int] == (d, s));
                assert(coords[k as int] == c);
            }
            if d == 0 {
                done = true;
            }
            index = index - c * s;
            self.entries[k] = (0, d, s);
            proof {
                assert(self.spec_axes() =~= axes);
                assert(self.spec_coords() =~= coords.update(k as int, 0));
                assert(0 * (s as int) == 0);
            }
            k += 1;
        }
        self.index = index;
        self.done = done;
        proof {
            let zeros = self.spec_coords();
            lemma_zero_coords(axes, zeros);
            lemma_bulk(lengths_of(axes));
            if done {
                let j = choose|j: int| 0 <= j < n && (#[trigger] axes[j]).0 == 0;
                assert(lengths_of(axes)[j] == 0);
            } else {
                assert forall|j: int| 0 <= j < n implies zeros[j] < lengths_of(axes)[j] by {
                    assert(axes[j].0 != 0);
                }
            }
        }
    }

    /// Hands out the next position, or nothing when all were handed out.
    #[verifier::loop_isolation(false)]
    pub fn next(&mut self) -> (r: Option<usize>)
        requires
            old(self).wf(),
        ensures
            final(self).wf(),
            final(self).spec_axes() == old(self).spec_axes(),
            final(self).spec_offset() == old(self).spec_offset(),
            old(self).spec_count() < old(self).spec_volume() ==> r == Some(
                old(self).spec_nth(old(self).spec_count()) as usize,
            ) && final(self).spec_count() == old(self).spec_count() + 1,
            old(self).spec_count() >= old(self).spec_volume() ==> r.is_none() && final(self).spec_count()
                == old(self).spec_count(),
            r.is_some() ==> r.unwrap() == old(self).spec_nth(old(self).spec_count()),
    {
        let ghost axes = self.spec_axes();
        let ghost lengths = lengths_of(axes);
        let ghost offset = self.spec_offset();
        let ghost start = self.spec_coords();
        proof {
            self.lemma_count();
        }
        if self.done {
            return None;
        }
        proof {
            lemma_flat_index(lengths, start);
            lemma_dot_bound(axes, start);
        }
        let first = self.index;
        let n = self.entries.len();
        let mut index = self.index;
        let mut k: usize = n;
        while k > 0
            invariant
                k <= n,
                n == self.entries@.len(),
                axes == self.spec_axes(),
                lengths == lengths_of(axes),
                axes.len() == n,
                start.len() == n,
                !self.done,
                bulk_of(lengths) <= usize::MAX,
                offset + span(axes) <= usize::MAX,
                valid_coords(lengths, start),
                valid_coords(lengths, self.spec_coords()),
                index == offset + dot(axes, self.spec_coords()),
                forall|j: int| 0 <= j < k ==> self.spec_coords()[j] == start[j],
                forall|j: int| k <= j < n ==> self.spec_coords()[j] == 0 && start[j] + 1 == lengths[j],
            decreases k,
        {
            k -= 1;
            let (c, d, s) = self.entries[k];
            let ghost coords = self.spec_coords();
            proof {
                assert(axes[k as int] == (d, s));
                assert(coords[k as int] == c);
                assert(coords[k as int] < lengths[k as int]);
            }
            if c + 1 < d {
                proof {
                    let moved = coords.update(k as int, (c + 1) as usize);
                    lemma_dot_coord(axes, coords, k as int, (c + 1) as usize);
                    assert(valid_coords(lengths, moved));
                    lemma_dot_bound(axes, moved);
                    assert((c + 1) * s == c * s + s) by (nonlinear_arith);
                    lemma_index_suffix(lengths, start, k + 1);
                    lemma_index_suffix(lengths, moved, k + 1);
                    assert(lengths.take(k + 1).drop_last() =~= lengths.take(k as int));
                    assert(start.take(k + 1).drop_last() =~= start.take(k as int));
                    assert(moved.take(k + 1).drop_last() =~= start.take(k as int));
                    assert(moved.take(k + 1).last() == c + 1);
                    assert(start.take(k + 1).last() == c);
                }
                self.entries[k] = (c + 1, d, s);
                self.index = index + s;
                proof {
                    assert(self.spec_axes() =~= axes);
                    assert(self.spec_coords() =~= coords.update(k as int, (c + 1) as usize));
                }
                return Some(first);
            }
            proof {
                lemma_dot_coord(axes, coords, k as int, 0);
                assert(0 * (s as int) == 0);
            }
            index = index - c * s;
            self.entries[k] = (0, d, s);
            proof {
                assert(self.spec_axes() =~= axes);
                assert(self.spec_coords() =~= coords.update(k as int, 0));
            }
        }
        self.index = index;
        self.done = true;
        proof {
            assert forall|j: int| 0 <= j < n implies (#[trigger] self.entries@[j]).0 == 0 by {
                assert(self.spec_coords()[j] == 0);
            }
            lemma_zero_coords(axes, self.spec_coords());
            lemma_index_suffix(lengths, start, 0);
            assert(lengths.take(0) =~= Seq::empty());
            assert(lengths.skip(0) =~= lengths);
            let v = volume_of(lengths) as int;
            assert((0 + 1) * v == v) by (nonlinear_arith);
        }
        Some(first)
    }
}

/// The coordinates that are all zero have the dot product and the index zero.
pub proof fn lemma_zero_coords(axes: Seq<(usize, usize)>, coords: Seq<usize>)
    requires
        coords.len() == axes.len(),
        forall|k: int| 0 <= k < coords.len() ==> coords[k] == 0,
    ensures
        dot(axes, coords) == 0,
        flat_index(lengths_of(axes), coords) == 0,
    decreases axes.len(),
{
    if axes.len() > 0 {
        lemma_lengths_drop_last(axes);
        lemma_zero_coords(axes.drop_last(), coords.drop_last());
        let d = axes.last().0 as int;
        let s = axes.last().1 as int;
        assert(0 * d == 0 && 0 * s == 0);
    }
}


impl Shape {
    /// Makes a copy of the shape.
    pub fn duplicate(&self) -> (r: Shape)
        ensures
            r.spec_lengths() == self.spec_lengths(),
            r.spec_offset() == self.spec_offset(),
            r.spec_volume() == self.spec_volume(),
    {
        let mut lengths: Vec<usize> = Vec::new();
        let mut i: usize = 0;
        while i < self.lengths.len()
            invariant
                i <= self.lengths@.len(),
                lengths@ == self.lengths@.take(i as int),
            decreases self.lengths@.len() - i,
        {
            lengths.push(self.lengths[i]);
            proof {
                assert(lengths@ =~= self.lengths@.take(i + 1));
            }
            i += 1;
        }
        proof {
            assert(lengths@ =~= self.lengths@);
        }
        Shape { lengths, offset: self.offset, volume: self.volume }
    }
}

impl ShapeView {
    /// Computes the polymer as `polymer` does, where it can be computed:
    /// where the map sends every axis to a slot of the same length and the
    /// sums of strides and the positions stay within the machine word.
    #[verifier::loop_isolation(false)]
    pub fn checked_polymer(&self, shape: &Shape, map: &[usize]) -> (r: Option<Self>)
        requires
            self.wf(),
            shape.wf(),
        ensures
            r.is_some() == self.polymer_fits(shape.spec_lengths(), map@),
            r matches Some(view) ==> view.wf() && view.spec_offset() == self.spec_offset()
                && view.spec_axes() == polymer_axes(
                self.spec_axes(),
                shape.spec_lengths(),
                map@,
                map@.len() as int,
            ),
    {
        let ghost axes = self.strides@;
        let ghost lengths = shape.lengths@;
        let n = self.strides.len();
        let m = shape.lengths.len();
        if map.len() != n {
            return None;
        }
        let mut i: usize = 0;
        while i < n
            invariant
                i <= n,
                n == axes.len(),
                n == map@.len(),
                m == lengths.len(),
                axes == self.strides@,
                lengths == shape.lengths@,
                forall|k: int|
                    0 <= k < i ==> (#[trigger] map@[k]) < m && axes[k].0 == lengths[map@[k] as int],
            decreases n - i,
        {
            if map[i] >= m || self.strides[i].0 != shape.lengths[map[i]] {
                proof {
                    assert(!(map@[i as int] < m && axes[i as int].0 == lengths[map@[i as int] as int]));
                }
                return None;
            }
            i += 1;
        }
        proof {
            assert(fits_lengths(axes, lengths, map@));
        }
        let mut strides: Vec<(usize, usize)> = Vec::new();
        let mut x: usize = 0;
        while x < m
            invariant
                x <= m,
                m == shape.lengths@.len(),
                strides@.len() == x,
                forall|k: int| 0 <= k < x ==> strides@[k] == (shape.lengths@[k], 0usize),
            decreases m - x,
        {
            strides.push((shape.lengths[x], 0));
            x += 1;
        }
        i = 0;
        while i < n
            invariant
                i <= n,
                n == axes.len(),
                n == map@.len(),
                m == lengths.len(),
                axes == self.strides@,
                lengths == shape.lengths@,
                fits_lengths(axes, lengths, map@),
                strides@.len() == m,
                forall|y: int| 0 <= y < m ==> #[trigger] stride_sum(axes, map@, y, i as int) <= usize::MAX,
                forall|y: int|
                    0 <= y < m ==> (#[trigger] strides@[y]) == (
                        lengths[y],
                        stride_sum(axes, map@, y, i as int) as usize,
                    ),
            decreases n - i,
        {
            let at = map[i];
            let (d, s) = strides[at];
            let sum = s.checked_add(self.strides[i].1);
            proof {
                assert(map@[i as int] < m);
                assert(strides@[at as int] == (lengths[at as int], stride_sum(axes, map@, at as int, i as int) as usize));
                assert forall|y: int| 0 <= y < m implies stride_sum(axes, map@, y, i + 1) == stride_sum(
                    axes,
                    map@,
                    y,
                    i as int,
                ) + if y == at {
                    axes[i as int].1 as int
                } else {
                    0
                } by {}
            }
            if sum.is_none() {
                proof {
                    lemma_stride_sum_grows(axes, map@, at as int, i + 1, n as int);
                    assert(stride_sum(axes, map@, at as int, n as int) > usize::MAX);
                }
                return None;
            }
            let ghost before = strides@;
            strides[at] = (d, sum.unwrap());
            i += 1;
            proof {
                assert forall|y: int| 0 <= y < m implies stride_sum(axes, map@, y, i as int) <= usize::MAX
                    && (#[trigger] strides@[y]) == (lengths[y], stride_sum(axes, map@, y, i as int) as usize) by {
                    assert(stride_sum(axes, map@, y, i - 1) <= usize::MAX);
                    assert(before[y] == (lengths[y], stride_sum(axes, map@, y, i - 1) as usize));
                    assert(stride_sum(axes, map@, y, i as int) == stride_sum(axes, map@, y, i - 1) + if y
                        == at {
                        axes[i - 1].1 as int
                    } else {
                        0
                    });
                }
                assert forall|y: int| 0 <= y < m implies #[trigger] stride_sum(axes, map@, y, i as int)
                    <= usize::MAX by {
                    assert(strides@[y].0 == lengths[y]);
                }
            }
        }
        proof {

            assert(strides@ =~= polymer_axes(axes, lengths, map@, n as int));
            lemma_bulk(lengths);
            assert(strides@.take(0) =~= Seq::empty());
        }
        let mut total: usize = self.offset;
        x = 0;
        while x < m
            invariant
                x <= m,
                m == strides@.len(),
                total == self.offset + span(strides@.take(x as int)),
            decreases m - x,
        {
            let (d, s) = strides[x];
            proof {
                lemma_view_step(strides@, Seq::new(m as nat, |k: int| 0usize), x as int);
                lemma_span_prefix(strides@, x + 1);
            }
            if d > 1 {
                let product = (d - 1).checked_mul(s);
                proof {
                    lemma_span_prefix(strides@, m as int);
                    lemma_mul_nonnegative(d - 1, s as int);
                }
                if product.is_none() {
                    return None;
                }
                let next = total.checked_add(product.unwrap());
                if next.is_none() {
                    return None;
                }
                total = next.unwrap();
            } else {
                proof {
                    assert(reach(strides@[x as int]) == 0) by (nonlinear_arith)
                        requires
                            strides@[x as int].0 <= 1,
                            reach(strides@[x as int]) == if strides@[x as int].0 == 0 {
                                0
                            } else {
                                (strides@[x as int].0 - 1) * strides@[x as int].1
                            },
                    ;
                }
            }
            x += 1;
        }
        proof {
            assert(strides@.take(m as int) =~= strides@);
            assert(lengths_of(strides@) =~= lengths);
        }
        Some(Self { strides, offset: self.offset })
    }
}

/// A sequence of different numbers below `bound` is no longer than `bound`.
pub proof fn lemma_distinct_length(numbers: Seq<int>, bound: nat)
    requires
        forall|i: int| 0 <= i < numbers.len() ==> 0 <= #[trigger] numbers[i] < bound,
        forall|i: int, j: int| 0 <= i < j < numbers.len() ==> numbers[i] != numbers[j],
    ensures
        numbers.len() <= bound,
{
    assert(numbers.no_duplicates());
    numbers.unique_seq_to_set();
    let range = set_int_range(0, bound as int);
    lemma_int_range(0, bound as int);
    assert forall|x: int| numbers.to_set().contains(x) implies range.contains(x) by {
        let i = choose|i: int| 0 <= i < numbers.len() && numbers[i] == x;
        assert(0 <= numbers[i] < bound);
    }
    lemma_len_subset(numbers.to_set(), range);
}


/// Two sequences hold the same elements, each as often, if every place of
/// the first has its element at a place of the second, and different
/// places of the first have different places of the second.
pub proof fn lemma_rearranged(first: Seq<nat>, second: Seq<nat>, place: spec_fn(int) -> int)
    requires
        first.len() == second.len(),
        forall|i: int| 0 <= i < first.len() ==> 0 <= #[trigger] place(i) < second.len() && first[i] == second[place(i)],
        forall|i: int, j: int| 0 <= i < j < first.len() ==> #[trigger] place(i) != #[trigger] place(j),
    ensures
        first.to_multiset() == second.to_multiset(),
    decreases first.len(),
{
    if first.len() == 0 {
        assert(first =~= second);
    } else {
        let last = first.len() - 1;
        let at = place(last);
        let front = first.drop_last();
        let rest = second.remove(at);
        let shifted = |i: int|
            if place(i) < at {
                place(i)
            } else {
                place(i) - 1
            };
        assert forall|i: int| 0 <= i < front.len() implies 0 <= #[trigger] shifted(i) < rest.len() && front[i]
            == rest[shifted(i)] by {
            assert(place(i) != place(last));
            assert(first[i] == second[place(i)]);
        }
        assert forall|i: int, j: int| 0 <= i < j < front.len() implies #[trigger] shifted(i) != #[trigger] shifted(
            j,
        ) by {
            assert(place(i) != place(j));
            assert(place(i) != place(last));
            assert(place(j) != place(last));
        }
        lemma_rearranged(front, rest, shifted);
        assert(first =~= front.push(first[last]));
        to_multiset_build(front, first[last]);
        to_multiset_remove(second, at);
        assert(second.to_multiset().count(second[at]) > 0) by {
            vstd::seq_lib::to_multiset_contains(second, second[at]);
            assert(second.contains(second[at]));
        }
        assert(first.to_multiset() =~= second.to_multiset());
    }
}

/// A map that sends the axes to different slots, as many as there are
/// axes, sends an axis to every slot.
pub proof fn lemma_onto(map: Seq<usize>, slot: int)
    requires
        one_to_one(map, map.len()),
        0 <= slot < map.len(),
    ensures
        exists|i: int| 0 <= i < map.len() && #[trigger] map[i] == slot,
{
    if !exists|i: int| 0 <= i < map.len() && #[trigger] map[i] == slot {
        let numbers = Seq::new(map.len(), |i: int| if map[i] < slot { map[i] as int } else { map[i] - 1 });
        assert forall|i: int| 0 <= i < numbers.len() implies 0 <= #[trigger] numbers[i] < map.len() - 1 by {
            assert(map[i] != slot);
            assert(map[i] < map.len());
        }
        assert forall|i: int, j: int| 0 <= i < j < numbers.len() implies numbers[i] != numbers[j] by {
            assert(map[i] != map[j]);
            assert(map[i] != slot);
            assert(map[j] != slot);
        }
        lemma_distinct_length(numbers, (map.len() - 1) as nat);
    }
}

/// The axis that the map sends to the slot.
pub open spec fn source(map: Seq<usize>, slot: int) -> int {
    choose|i: int| 0 <= i < map.len() && #[trigger] map[i] == slot
}

/// Where one axis goes to every slot, the sum of the strides that go to a
/// slot is the stride of that axis, once the axis is taken in.
proof fn lemma_stride_single(axes: Seq<(usize, usize)>, map: Seq<usize>, slot: int, upto: int)
    requires
        map.len() == axes.len(),
        one_to_one(map, map.len()),
        0 <= slot < map.len(),
        0 <= upto <= map.len(),
    ensures
        stride_sum(axes, map, slot, upto) == if source(map, slot) < upto {
            axes[source(map, slot)].1 as nat
        } else {
            0nat
        },
    decreases upto,
{
    lemma_onto(map, slot);
    let i = source(map, slot);
    if upto > 0 {
        lemma_stride_single(axes, map, slot, upto - 1);
        if map[upto - 1] == slot {
            if upto - 1 < i {
                assert(map[upto - 1] != map[i]);
            } else if i < upto - 1 {
                assert(map[i] != map[upto - 1]);
            }
        }
    }
}

/// A view whose axes are those of another view in another order has the
/// axes of the polymer that sends every axis to its new place.
proof fn lemma_permuted_is_polymer(axes: Seq<(usize, usize)>, moved: Seq<(usize, usize)>, map: Seq<usize>)
    requires
        map.len() == axes.len(),
        moved.len() == axes.len(),
        one_to_one(map, map.len()),
        forall|i: int| 0 <= i < map.len() ==> moved[#[trigger] map[i] as int] == axes[i],
    ensures
        fits_lengths(axes, lengths_of(moved), map),
        forall|x: int|
            0 <= x < moved.len() ==> stride_sum(axes, map, x, axes.len() as int) == (#[trigger] moved[x]).1,
        moved == polymer_axes(axes, lengths_of(moved), map, axes.len() as int),
{
    let n = axes.len() as int;
    assert forall|i: int| 0 <= i < map.len() implies (#[trigger] map[i]) < lengths_of(moved).len() && axes[i].0
        == lengths_of(moved)[map[i] as int] by {
        assert(moved[map[i] as int] == axes[i]);
    }
    assert forall|x: int| 0 <= x < moved.len() implies stride_sum(axes, map, x, n) == (#[trigger] moved[x]).1 by {
        lemma_onto(map, x);
        lemma_stride_single(axes, map, x, n);
        assert(moved[map[source(map, x)] as int] == axes[source(map, x)]);
    }
    assert(moved =~= polymer_axes(axes, lengths_of(moved), map, n));
}

/// The coordinates in the old view of the element that has the given
/// row-major index in the view with the moved axes.
pub open spec fn pulled_index(axes: Seq<(usize, usize)>, moved: Seq<(usize, usize)>, map: Seq<usize>, index: int) -> int {
    flat_index(lengths_of(axes), pull_coords(coords_of(lengths_of(moved), index as nat), map)) as int
}

/// The volume of a view with moved axes is at most the volume of the old
/// view, and the element with a given index has the position of the element
/// of the old view whose coordinates are pulled back; different indices
/// give different elements.
proof fn lemma_permuted_into(axes: Seq<(usize, usize)>, moved: Seq<(usize, usize)>, map: Seq<usize>)
    requires
        map.len() == axes.len(),
        moved.len() == axes.len(),
        one_to_one(map, map.len()),
        forall|i: int| 0 <= i < map.len() ==> moved[#[trigger] map[i] as int] == axes[i],
    ensures
        volume_of(lengths_of(moved)) <= volume_of(lengths_of(axes)),
        forall|index: int|
            0 <= index < volume_of(lengths_of(moved)) ==> 0 <= #[trigger] pulled_index(axes, moved, map, index)
                < volume_of(lengths_of(axes)) && nth_position(moved, index as nat) == nth_position(
                axes,
                pulled_index(axes, moved, map, index) as nat,
            ),
        forall|i: int, j: int|
            0 <= i < j < volume_of(lengths_of(moved)) ==> #[trigger] pulled_index(axes, moved, map, i)
                != #[trigger] pulled_index(axes, moved, map, j),
{
    let old_lengths = lengths_of(axes);
    let new_lengths = lengths_of(moved);
    let count = volume_of(new_lengths);
    lemma_permuted_is_polymer(axes, moved, map);
    assert forall|x: int| 0 <= x < new_lengths.len() implies #[trigger] stride_sum(axes, map, x, axes.len() as int)
        <= usize::MAX by {
        assert(stride_sum(axes, map, x, axes.len() as int) == moved[x].1);
    }
    assert forall|index: int| 0 <= index < count implies 0 <= #[trigger] pulled_index(axes, moved, map, index)
        < volume_of(old_lengths) && nth_position(moved, index as nat) == nth_position(
        axes,
        pulled_index(axes, moved, map, index) as nat,
    ) by {
        let coords = coords_of(new_lengths, index as nat);
        lemma_coords_of(new_lengths, index as nat);
        lemma_polymer(axes, new_lengths, map, coords);
        lemma_flat_index(old_lengths, pull_coords(coords, map));
    }
    assert forall|i: int, j: int| 0 <= i < j < count implies #[trigger] pulled_index(axes, moved, map, i)
        != #[trigger] pulled_index(axes, moved, map, j) by {
        let ci = coords_of(new_lengths, i as nat);
        let cj = coords_of(new_lengths, j as nat);
        lemma_coords_of(new_lengths, i as nat);
        lemma_coords_of(new_lengths, j as nat);
        lemma_polymer(axes, new_lengths, map, ci);
        lemma_polymer(axes, new_lengths, map, cj);
        lemma_flat_index(old_lengths, pull_coords(ci, map));
        lemma_flat_index(old_lengths, pull_coords(cj, map));
        if pulled_index(axes, moved, map, i) == pulled_index(axes, moved, map, j) {
            assert(pull_coords(ci, map) == pull_coords(cj, map));
            assert forall|x: int| 0 <= x < ci.len() implies ci[x] == cj[x] by {
                lemma_onto(map, x);
                let k = source(map, x);
                assert(pull_coords(ci, map)[k] == ci[x]);
                assert(pull_coords(cj, map)[k] == cj[x]);
            }
            assert(ci =~= cj);
            assert(false);
        }
    }
    let numbers = Seq::new(count, |index: int| pulled_index(axes, moved, map, index));
    assert forall|i: int| 0 <= i < numbers.len() implies 0 <= #[trigger] numbers[i] < volume_of(old_lengths) by {
        assert(0 <= pulled_index(axes, moved, map, i) < volume_of(old_lengths));
    }
    lemma_distinct_length(numbers, volume_of(old_lengths));
}

/// The map that sends every slot back to the axis that `map` sends there.
pub open spec fn inverse(map: Seq<usize>) -> Seq<usize> {
    Seq::new(map.len(), |x: int| source(map, x) as usize)
}

/// The inverse of a map that sends the axes to different slots does so
/// too, and it undoes the map.
proof fn lemma_inverse(map: Seq<usize>)
    requires
        one_to_one(map, map.len()),
        map.len() <= usize::MAX,
    ensures
        one_to_one(inverse(map), map.len()),
        forall|x: int| 0 <= x < map.len() ==> map[#[trigger] inverse(map)[x] as int] == x,
        forall|i: int| 0 <= i < map.len() ==> inverse(map)[#[trigger] map[i] as int] == i,
{
    let back = inverse(map);
    assert forall|x: int| 0 <= x < map.len() implies 0 <= (#[trigger] back[x]) < map.len() && map[back[x] as int]
        == x by {
        lemma_onto(map, x);
    }
    assert forall|i: int| 0 <= i < map.len() implies back[#[trigger] map[i] as int] == i by {
        let x = map[i] as int;
        let k = back[x] as int;
        assert(map[k] == x);
        if k < i {
            assert(map[k] != map[i]);
        } else if i < k {
            assert(map[i] != map[k]);
        }
    }
    assert forall|x: int, y: int| 0 <= x < y < back.len() implies back[x] != back[y] by {
        assert(map[back[x] as int] == x);
        assert(map[back[y] as int] == y);
    }
}

/// Moving the axes of a view to other places keeps its volume and the
/// positions of its elements: the moved view has the same positions, each
/// as often, in the order in which the moved axes run. The element at
/// some coordinates of the moved view is the element of the old view at the
/// coordinates that the map pulls back.
pub proof fn lemma_permuted_positions(before: &ShapeView, after: &ShapeView, map: Seq<usize>)
    requires
        before.wf(),
        map.len() == before.spec_axes().len(),
        map.len() <= usize::MAX,
        one_to_one(map, map.len()),
        after.spec_offset() == before.spec_offset(),
        after.spec_axes().len() == before.spec_axes().len(),
        forall|i: int| 0 <= i < map.len() ==> after.spec_axes()[#[trigger] map[i] as int] == before.spec_axes()[i],
    ensures
        after.spec_volume() == before.spec_volume(),
        after.spec_positions().to_multiset() == before.spec_positions().to_multiset(),
        forall|coords: Seq<usize>|
            valid_coords(lengths_of(after.spec_axes()), coords) ==> #[trigger] after.spec_position(coords)
                == before.spec_position(pull_coords(coords, map)),
{
    let axes = before.spec_axes();
    let moved = after.spec_axes();
    let back = inverse(map);
    lemma_inverse(map);
    assert forall|x: int| 0 <= x < back.len() implies axes[#[trigger] back[x] as int] == moved[x] by {
        assert(moved[map[back[x] as int] as int] == axes[back[x] as int]);
    }
    lemma_permuted_into(axes, moved, map);
    lemma_permuted_into(moved, axes, back);
    lemma_permuted_is_polymer(axes, moved, map);
    assert forall|x: int| 0 <= x < moved.len() implies #[trigger] stride_sum(axes, map, x, axes.len() as int)
        <= usize::MAX by {
        assert(stride_sum(axes, map, x, axes.len() as int) == moved[x].1);
    }
    assert forall|coords: Seq<usize>|
        valid_coords(lengths_of(moved), coords) implies #[trigger] after.spec_position(coords)
        == before.spec_position(pull_coords(coords, map)) by {
        lemma_polymer(axes, lengths_of(moved), map, coords);
    }
    let first = after.spec_positions();
    let second = before.spec_positions();
    let place = |index: int| pulled_index(axes, moved, map, index);
    assert forall|i: int| 0 <= i < first.len() implies 0 <= #[trigger] place(i) < second.len() && first[i]
        == second[place(i)] by {
        assert(0 <= pulled_index(axes, moved, map, i) < volume_of(lengths_of(axes)));
    }
    lemma_rearranged(first, second, place);
}

/// Simplifying a view keeps its positions: the simplified view has the
/// same positions in the same order, and so the same positions each as
/// often.
pub proof fn lemma_simplified_view(before: &ShapeView, after: &ShapeView)
    requires
        before.wf(),
        after.spec_offset() == before.spec_offset(),
        after.spec_axes() == simplified_axes(before.spec_axes()),
    ensures
        after.spec_volume() == before.spec_volume(),
        after.spec_positions() == before.spec_positions(),
        after.spec_positions().to_multiset() == before.spec_positions().to_multiset(),
{
    lemma_simplified_positions(before.spec_axes());
    assert(after.spec_positions() =~= before.spec_positions());
}

/// The canonical view of a shape has the positions of the shape: the
/// element with the row-major index `index` stands at the offset plus
/// `index`.
pub proof fn lemma_canonical_positions(shape: &Shape, view: &ShapeView, index: nat)
    requires
        shape.wf(),
        view.spec_axes() == canonical_axes(shape.spec_lengths()),
        view.spec_offset() == shape.spec_offset(),
        index < volume_of(shape.spec_lengths()),
    ensures
        view.spec_volume() == volume_of(shape.spec_lengths()),
        view.spec_nth(index) == shape.spec_offset() + index,
{
    let lengths = shape.spec_lengths();
    lemma_bulk(lengths);
    lemma_coords_of(lengths, index);
    lemma_canonical(lengths, coords_of(lengths, index));
}


impl ShapeView {
    /// Makes the view with the given axes, each a length with its stride,
    /// and the given offset.
    pub fn from_axes(axes: Vec<(usize, usize)>, offset: usize) -> (r: Self)
        requires
            bulk_of(lengths_of(axes@)) <= usize::MAX,
            offset + span(axes@) <= usize::MAX,
        ensures
            r.wf(),
            r.spec_axes() == axes@,
            r.spec_offset() == offset,
    {
        Self { strides: axes, offset }
    }
}

impl ShapeIter {
    /// The number of axes over which the iterator runs.
    pub fn dimension(&self) -> (r: usize)
        ensures
            r == self.spec_axes().len(),
    {
        self.entries.len()
    }
}

/// The span of a view is the reach of its first axis plus the span of the
/// other axes; its bulk and its volume are products in the same way.
pub proof fn lemma_front(axes: Seq<(usize, usize)>)
    requires
        axes.len() > 0,
    ensures
        span(axes) == reach(axes[0]) + span(axes.skip(1)),
        bulk_of(lengths_of(axes)) == bulk_of(lengths_of(axes.skip(1))) * (if axes[0].0 == 0 {
            1nat
        } else {
            axes[0].0 as nat
        }),
        volume_of(lengths_of(axes)) == (axes[0].0 as nat) * volume_of(lengths_of(axes.skip(1))),
    decreases axes.len(),
{
    let rest = axes.skip(1);
    lemma_lengths_drop_last(axes);
    if axes.len() == 1 {
        assert(rest =~= Seq::empty());
        assert(axes.drop_last() =~= Seq::empty());
        assert(lengths_of(rest) =~= Seq::empty());
        let d = axes[0].0 as int;
        assert(1 * d == d * 1) by (nonlinear_arith);
    } else {
        let front = axes.drop_last();
        lemma_front(front);
        assert(front.skip(1) =~= rest.drop_last());
        lemma_lengths_drop_last(rest);
        let last = axes.last().0 as int;
        let f = if axes[0].0 == 0 {
            1int
        } else {
            axes[0].0 as int
        };
        let b = bulk_of(lengths_of(front.skip(1))) as int;
        let v = volume_of(lengths_of(front.skip(1))) as int;
        let d = axes[0].0 as int;
        assert((b * f) * last == (b * last) * f) by (nonlinear_arith);
        assert((d * v) * last == d * (v * last)) by (nonlinear_arith);
    }
}

/// A view with its axes in the opposite order has the same span, bulk and
/// volume.
pub proof fn lemma_reversed(axes: Seq<(usize, usize)>)
    ensures
        span(axes.reverse()) == span(axes),
        bulk_of(lengths_of(axes.reverse())) == bulk_of(lengths_of(axes)),
        volume_of(lengths_of(axes.reverse())) == volume_of(lengths_of(axes)),
    decreases axes.len(),
{
    let back = axes.reverse();
    if axes.len() == 0 {
        assert(back =~= axes);
    } else {
        let front = axes.drop_last();
        lemma_reversed(front);
        lemma_front(back);
        assert(back.skip(1) =~= front.reverse());
        lemma_lengths_drop_last(axes);
        let d = axes.last().0 as int;
        let v = volume_of(lengths_of(front)) as int;
        assert(d * v == v * d) by (nonlinear_arith);
    }
}

/// The dot product with coordinates in the opposite order of a view with
/// its axes in the opposite order is the dot product of the view.
pub proof fn lemma_reversed_dot(axes: Seq<(usize, usize)>, coords: Seq<usize>)
    requires
        axes.len() == coords.len(),
    ensures
        dot(axes.reverse(), coords.reverse()) == dot(axes, coords),
    decreases axes.len(),
{
    let back = axes.reverse();
    let turned = coords.reverse();
    if axes.len() == 0 {
        assert(back =~= axes);
    } else {
        lemma_reversed_dot(axes.drop_last(), coords.drop_last());
        lemma_dot_front(back, turned);
        assert(back.skip(1) =~= axes.drop_last().reverse());
        assert(turned.skip(1) =~= coords.drop_last().reverse());
    }
}

/// The dot product is the first coordinate times the first stride plus
/// the dot product of the other axes.
pub proof fn lemma_dot_front(axes: Seq<(usize, usize)>, coords: Seq<usize>)
    requires
        axes.len() > 0,
        axes.len() == coords.len(),
    ensures
        dot(axes, coords) == coords[0] * axes[0].1 + dot(axes.skip(1), coords.skip(1)),
    decreases axes.len(),
{
    if axes.len() == 1 {
        assert(axes.skip(1) =~= Seq::empty());
        assert(axes.drop_last() =~= Seq::empty());
        assert(dot(axes.drop_last(), coords.drop_last()) == 0);
        assert(dot(axes.skip(1), coords.skip(1)) == 0);
        assert(coords.last() == coords[0]);
        assert(axes.last() == axes[0]);
    } else {
        lemma_dot_front(axes.drop_last(), coords.drop_last());
        assert(axes.drop_last().skip(1) =~= axes.skip(1).drop_last());
        assert(coords.drop_last().skip(1) =~= coords.skip(1).drop_last());
        assert(axes.skip(1).last() == axes.last());
        assert(coords.skip(1).last() == coords.last());
        assert(axes.drop_last()[0] == axes[0]);
        assert(coords.drop_last()[0] == coords[0]);
        assert(dot(axes.skip(1), coords.skip(1)) == dot(axes.skip(1).drop_last(), coords.skip(1).drop_last())
            + coords.last() * axes.last().1);
    }
}

} // verus!
