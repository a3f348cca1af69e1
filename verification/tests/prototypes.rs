use finmodel::bitvec::{BitIter, BitView, Buffer, Table};
use finmodel::compute::{Relation, Shape};

#[test]
fn bit_vectors_start_empty() {
    let buffer = Buffer::new(70);
    assert_eq!(buffer.len(), 70);
    for i in 0..70 {
        assert!(!buffer.get(i));
    }
    let view = BitView::new(vec![(2, 10), (3, 1)], 5);
    assert_eq!(view.dim(), 2);
    assert_eq!(view.len(), 6);
    assert_eq!(view.index(&vec![1, 2]), 17);
    let table = Table::new(&buffer, vec![(2, 10), (3, 1)], 5);
    assert_eq!(table.dim(), 2);
    assert_eq!(table.len(), 6);
    assert!(!table.get(&vec![1, 2]));
    let mut iter = BitIter::new(&buffer, vec![(1, 2, 10), (2, 3, 1)], 5);
    assert_eq!(iter.len(), 6);
    assert_eq!(iter.pos(), 5);
    assert_eq!(iter.next(), None);
}

#[test]
fn dense_shapes_count_in_row_major_order() {
    let shape = Shape::new(vec![2, 3, 4]);
    assert_eq!(shape.len(), 24);
    assert_eq!(shape.pos(&vec![1, 2, 3]), 23);
    assert_eq!(shape.pos(&vec![1, 0, 2]), 14);
    assert_eq!(shape.idx(14), vec![1, 0, 2]);
    for pos in 0..24 {
        assert_eq!(shape.pos(&shape.idx(pos)), pos);
    }
    let relation = Relation::new(vec![2, 3]);
    assert_eq!(relation.len(), 6);
    assert!(relation.get(vec![1, 2]));
}
