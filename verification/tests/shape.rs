use finmodel::shape::{Shape, ShapeIter, ShapeView};
use finmodel::strided;

fn collect(mut iter: ShapeIter) -> Vec<usize> {
    let mut positions = Vec::new();
    while let Some(pos) = iter.next() {
        positions.push(pos);
    }
    positions
}

#[test]
fn shape() {
    let shape = Shape::new(vec![2, 3, 4], 0);
    let pos1: Vec<usize> = shape.positions().collect();

    let view = shape.view();
    assert_eq!(view.volume(), shape.volume());
    assert_eq!(view.dimension(), 3);
    assert_eq!(view.length(0), 2);
    assert_eq!(view.length(1), 3);
    assert_eq!(view.length(2), 4);
    let pos2: Vec<usize> = collect(view.positions());
    assert_eq!(pos1, pos2);

    let view = shape.view().simplify();
    assert_eq!(view.volume(), shape.volume());
    assert_eq!(view.dimension(), 1);
    assert_eq!(view.length(0), 24);
    let pos2: Vec<usize> = collect(view.positions());
    assert_eq!(pos1, pos2);

    let view = shape.view().permute(&[2, 0, 1]);
    assert_eq!(view.volume(), shape.volume());
    assert_eq!(view.dimension(), 3);
    assert_eq!(view.length(0), 3);
    assert_eq!(view.length(1), 4);
    assert_eq!(view.length(2), 2);
    let pos2: Vec<usize> = collect(view.positions());
    let pos3 = vec![
        0, 12, 1, 13, 2, 14, 3, 15, 4, 16, 5, 17, 6, 18, 7, 19, 8, 20, 9, 21, 10, 22, 11, 23,
    ];
    assert_eq!(pos2, pos3);
}

#[test]
fn position_and_coordinates_are_inverse() {
    let shape = Shape::new(vec![3, 1, 4], 10);
    assert_eq!(shape.volume(), 12);
    assert_eq!(shape.positions(), 10..22);
    let mut coordinates = vec![0; 3];
    for pos in shape.positions() {
        shape.coordinates(pos, &mut coordinates);
        assert_eq!(shape.position(&coordinates), pos);
        assert_eq!(shape.view().position(&coordinates), pos);
    }
    assert_eq!(shape.position(&[2, 0, 3]), 21);
    shape.coordinates(17, &mut coordinates);
    assert_eq!(coordinates, vec![1, 0, 3]);
}

#[test]
fn empty_shapes_have_no_positions() {
    let shape = Shape::new(vec![2, 0, 3], 5);
    assert_eq!(shape.volume(), 0);
    assert!(shape.positions().is_empty());
    assert_eq!(collect(shape.view().positions()), Vec::<usize>::new());
    let simple = shape.view().simplify();
    assert_eq!(simple.dimension(), 1);
    assert_eq!(simple.length(0), 0);
    assert_eq!(collect(simple.positions()), Vec::<usize>::new());
    let point = Shape::new(vec![], 7);
    assert_eq!(point.volume(), 1);
    assert_eq!(collect(point.view().positions()), vec![7]);
    assert_eq!(collect(point.view().simplify().positions()), vec![7]);
}

#[test]
fn polymer_repeats_and_leaves_out_axes() {
    let table = Shape::new(vec![2, 2], 4);
    let frame = Shape::new(vec![2, 3, 2], 0);
    let view = table.view().polymer(&frame, &[0, 2]);
    assert_eq!(view.dimension(), 3);
    assert_eq!(collect(view.positions()), vec![4, 5, 4, 5, 4, 5, 6, 7, 6, 7, 6, 7]);
    let diagonal = table.view().polymer(&Shape::new(vec![2], 0), &[0, 0]);
    assert_eq!(collect(diagonal.positions()), vec![4, 7]);
    assert_eq!(diagonal.position(&[1]), 7);
    let checked = table.view().checked_polymer(&frame, &[0, 2]).unwrap();
    assert_eq!(collect(checked.positions()), collect(view.positions()));
    assert!(table.view().checked_polymer(&frame, &[0, 1]).is_none());
    assert!(table.view().checked_polymer(&frame, &[0]).is_none());
    assert!(table.view().checked_polymer(&frame, &[0, 3]).is_none());
}

#[test]
fn simplify_merges_what_is_contiguous() {
    let shape = Shape::new(vec![2, 3, 4], 0);
    let view: ShapeView = shape.view().permute(&[0, 2, 1]);
    let simple = view.simplify();
    assert_eq!(simple.dimension(), 3);
    assert_eq!(collect(simple.positions()), collect(view.positions()));
    let frame = Shape::new(vec![5, 2, 3, 4], 0);
    let wide = shape.view().polymer(&frame, &[1, 2, 3]);
    let simple = wide.simplify();
    assert_eq!(simple.dimension(), 2);
    assert_eq!(simple.length(0), 5);
    assert_eq!(simple.length(1), 24);
    assert_eq!(collect(simple.positions()), collect(wide.positions()));
}

#[test]
fn iterator_starts_again_after_reset() {
    let shape = Shape::new(vec![2, 2], 3);
    let mut iter = shape.view().positions();
    assert_eq!(iter.next(), Some(3));
    assert_eq!(iter.next(), Some(4));
    iter.reset();
    assert_eq!(iter.next(), Some(3));
    assert_eq!(iter.next(), Some(4));
    assert_eq!(iter.next(), Some(5));
    assert_eq!(iter.next(), Some(6));
    assert_eq!(iter.next(), None);
    assert_eq!(iter.next(), None);
    iter.reset();
    assert_eq!(collect(iter), vec![3, 4, 5, 6]);
}

fn gather(mut iter: strided::Iter) -> Vec<usize> {
    let mut positions = Vec::new();
    while let Some(pos) = iter.next() {
        positions.push(pos);
    }
    positions
}

#[test]
fn shape_shape() {
    let shape = strided::Shape::new(vec![2, 3, 2], 0);
    assert_eq!(shape.volume(), 12);
    assert_eq!(shape.dimension(), 3);
    assert_eq!(shape.length(0), 2);
    assert_eq!(shape.length(1), 3);
    assert_eq!(shape.length(2), 2);
    assert_eq!(shape.positions().dimension(), 1);
    let pos: Vec<usize> = gather(shape.positions());
    assert_eq!(pos, vec![0, 1, 2, 3, 4, 5, 6, 7, 8, 9, 10, 11]);
    assert_eq!(shape.position(&[1, 2, 1]), 11);

    let view = shape.permute(&[2, 0, 1]);
    assert_eq!(view.positions().dimension(), 2);
    let pos: Vec<usize> = gather(view.positions());
    assert_eq!(pos, vec![0, 2, 4, 6, 8, 10, 1, 3, 5, 7, 9, 11]);

    let view = shape.swap(0, 1);
    assert_eq!(view.positions().dimension(), 3);
    let pos: Vec<usize> = gather(view.positions());
    assert_eq!(pos, vec![0, 2, 4, 1, 3, 5, 6, 8, 10, 7, 9, 11]);

    let view = shape.polymer(vec![2, 3, 2], &[2, 1, 2]);
    assert_eq!(view.positions().dimension(), 3);
    let pos: Vec<usize> = gather(view.positions());
    assert_eq!(pos, vec![0, 0, 2, 2, 4, 4, 7, 7, 9, 9, 11, 11]);
}

#[test]
fn strided_shapes_compare_their_lengths() {
    let shape = strided::Shape::new(vec![2, 3, 2], 4);
    assert_eq!(shape.lengths(), vec![2, 3, 2]);
    assert!(shape.equals(&strided::Shape::new(vec![2, 3, 2], 0)));
    assert!(shape.equals(&shape.swap(0, 2)));
    assert!(!shape.equals(&shape.swap(0, 1)));
    assert!(!shape.equals(&strided::Shape::new(vec![2, 3], 4)));
    let mut iter = shape.positions();
    assert_eq!(iter.len(), 12);
    assert_eq!(iter.next(), Some(4));
    assert_eq!(iter.len(), 11);
    let empty = strided::Shape::new(vec![2, 0], 4);
    assert_eq!(empty.volume(), 0);
    assert_eq!(empty.positions().next(), None);
}
