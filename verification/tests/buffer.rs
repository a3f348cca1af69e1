use finmodel::bitops::{bool_or, fold_pos, Bit1, Bit2};
use finmodel::buffer::{Buffer1, Buffer2};
use finmodel::shape::Shape;

fn random(mut seed: u32, len: usize) -> Vec<u32> {
    assert!(seed != 0);
    let mut vec: Vec<u32> = Default::default();
    while vec.len() < len {
        let msb = (seed as i32) < 0;
        seed <<= 1;
        if msb {
            seed ^= 0x04c11db7;
        }
        vec.push(seed);
    }
    vec
}

#[test]
fn buffer() {
    let vec = random(0x12345678, 11111);
    let mut buf1a = Buffer1::new(vec.len(), Bit1::new(0));
    let mut buf2a = Buffer2::new(vec.len(), Bit2::new(0));
    let mut buf1b: Buffer1 = Default::default();
    let mut buf2b: Buffer2 = Default::default();

    for (i, a) in vec.iter().enumerate() {
        buf1a.set(i, Bit1::new(a & 1));
        buf2a.set(i, Bit2::new(a & 3));
        buf1b.append(3, Bit1::new(a & 1));
        buf2b.append(3, Bit2::new(a & 3));
    }
    assert!(buf1a.len() == vec.len());
    assert!(buf2a.len() == vec.len());
    assert!(buf1b.len() == 3 * vec.len());
    assert!(buf2b.len() == 3 * vec.len());

    for (i, a) in vec.iter().enumerate() {
        assert_eq!(buf1a.get(i), Bit1::new(a & 1));
        assert_eq!(buf2a.get(i), Bit2::new(a & 3));
        for j in 0..3 {
            assert_eq!(buf1b.get(3 * i + j), Bit1::new(a & 1));
            assert_eq!(buf2b.get(3 * i + j), Bit2::new(a & 3));
        }
    }

    buf1a.fill(Bit1::new(1));
    buf2a.fill(Bit2::new(1));
    for i in 0..vec.len() {
        assert_eq!(buf1a.get(i), Bit1::new(1));
        assert_eq!(buf2a.get(i), Bit2::new(1));
    }
}

#[test]
fn fill() {
    let vec = random(0x12345678, 11111);
    let mut buf1a = Buffer1::new(317, Bit1::new(0));
    let mut buf1b = Buffer1::new(317, Bit1::new(0));
    let mut buf2a = Buffer2::new(317, Bit2::new(0));
    let mut buf2b = Buffer2::new(317, Bit2::new(0));

    for &a in vec.iter() {
        let start = (a as usize) % (buf1a.len() + 1);
        let end = (a as usize >> 8) % (buf1a.len() + 1);
        let end = start.max(end);

        let val1 = Bit1::new((a >> 16) & 1);
        buf1a.fill_range(start..end, val1);
        for pos in start..end {
            buf1b.set(pos, val1);
        }
        assert_eq!(buf1a, buf1b);

        let val2 = Bit2::new((a >> 16) & 3);
        buf2a.fill_range(start..end, val2);
        for pos in start..end {
            buf2b.set(pos, val2);
        }
        assert_eq!(buf2a, buf2b);
    }
}

#[test]
fn append_keeps_cells_and_pads_with_the_value() {
    let mut buf = Buffer2::new(5, Bit2::new(2));
    buf.set(4, Bit2::new(1));
    buf.append(14, Bit2::new(3));
    assert_eq!(buf.len(), 19);
    for i in 0..4 {
        assert_eq!(buf.get(i), Bit2::new(2));
    }
    assert_eq!(buf.get(4), Bit2::new(1));
    for i in 5..19 {
        assert_eq!(buf.get(i), Bit2::new(3));
    }
    let mut other = Buffer2::new(19, Bit2::new(3));
    for i in 0..4 {
        other.set(i, Bit2::new(2));
    }
    other.set(4, Bit2::new(1));
    assert_eq!(buf, other);

    let mut bits = Buffer1::new(31, Bit1::new(1));
    bits.append(2, Bit1::new(0));
    assert_eq!(bits.len(), 33);
    assert_eq!(bits.get(30), Bit1::new(1));
    assert_eq!(bits.get(31), Bit1::new(0));
    assert_eq!(bits.get(32), Bit1::new(0));
}

#[test]
fn buffers_with_other_padding_differ() {
    let a = Buffer2::new(3, Bit2::new(0));
    let mut b = Buffer2::new(3, Bit2::new(1));
    for i in 0..3 {
        b.set(i, Bit2::new(0));
    }
    for i in 0..3 {
        assert_eq!(a.get(i), b.get(i));
    }
    assert_ne!(a, b);
    b.fill(Bit2::new(0));
    assert_eq!(a, b);
}

#[test]
fn fill_range_at_word_boundaries() {
    for &(start, end) in [(0usize, 0usize), (0, 16), (16, 32), (15, 17), (0, 48), (5, 40), (31, 32), (32, 48)].iter() {
        let mut buf = Buffer2::new(48, Bit2::new(1));
        buf.fill_range(start..end, Bit2::new(2));
        for i in 0..48 {
            let expected = if start <= i && i < end { 2 } else { 1 };
            assert_eq!(buf.get(i), Bit2::new(expected));
        }
        let mut bits = Buffer1::new(96, Bit1::new(0));
        bits.fill_range(2 * start..2 * end, Bit1::new(1));
        for i in 0..96 {
            let expected = if 2 * start <= i && i < 2 * end { 1 } else { 0 };
            assert_eq!(bits.get(i), Bit1::new(expected));
        }
    }
}

#[test]
fn apply_folds_along_the_positions() {
    let shape = Shape::new(vec![2, 3], 0);
    let mut source = Buffer2::new(6, Bit2::new(0));
    for i in 0..6 {
        source.set(i, Bit2::new((i % 3) as u32));
    }
    let mut target = Buffer2::new(6, Bit2::new(0));
    let view = shape.view().permute(&[1, 0]);
    let mut iter = view.positions();
    target.apply(fold_pos(), &source, &mut iter);
    let positions = [0usize, 3, 1, 4, 2, 5];
    for i in 0..6 {
        let expected = fold_pos().of(Bit2::new(0), source.get(positions[i]));
        assert_eq!(target.get(i), expected);
    }
    assert_eq!(iter.next(), None);
    iter.reset();
    target.apply(bool_or(), &source, &mut iter);
    for i in 0..6 {
        let first = fold_pos().of(Bit2::new(0), source.get(positions[i]));
        assert_eq!(target.get(i), bool_or().of(first, source.get(positions[i])));
    }
}
