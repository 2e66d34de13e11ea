use basic_logarray::naive::LogArray;

fn max_of(width: u8) -> u64 {
    if width == 64 {
        u64::MAX
    } else {
        (1u64 << width) - 1
    }
}

#[test]
fn new_is_zero_filled() {
    let a = LogArray::new(7, 50);
    for i in 0..50 {
        assert_eq!(0, a.load(i));
    }
}

#[test]
fn round_trip_every_width() {
    for width in 1..=64u8 {
        let length = 130;
        let mut a = LogArray::new(width, length);
        let max = max_of(width);
        for i in 0..length {
            let v = if i % 3 == 0 { max } else { (i as u64 * 0x9E37_79B9_7F4A_7C15) & max };
            a.store(i, v);
            assert_eq!(v, a.load(i));
        }
    }
}

#[test]
fn neighbors_kept_every_width() {
    for width in 1..=64u8 {
        let length = 200;
        let mut a = LogArray::new(width, length);
        let max = max_of(width);
        for i in 0..length {
            a.store(i, 0);
        }
        a.store(100, max);
        for i in 0..length {
            let expected = if i == 100 { max } else { 0 };
            assert_eq!(expected, a.load(i));
        }
        for i in 0..length {
            a.store(i, max);
        }
        a.store(100, 0);
        for i in 0..length {
            let expected = if i == 100 { 0 } else { max };
            assert_eq!(expected, a.load(i));
        }
    }
}

#[test]
fn width_ten_crossing_elements() {
    // element 6 of width 10 covers bits 60..70: it crosses into the second word
    let mut a = LogArray::new(10, 13);
    a.store(5, 0x3FF);
    a.store(6, 0x2AB);
    a.store(7, 0x155);
    assert_eq!(0x3FF, a.load(5));
    assert_eq!(0x2AB, a.load(6));
    assert_eq!(0x155, a.load(7));
    a.store(6, 0);
    assert_eq!(0x3FF, a.load(5));
    assert_eq!(0, a.load(6));
    assert_eq!(0x155, a.load(7));
}

#[test]
fn full_width_values() {
    let mut a = LogArray::new(64, 3);
    a.store(0, u64::MAX);
    a.store(1, 0x0123_4567_89AB_CDEF);
    a.store(2, 1);
    assert_eq!(u64::MAX, a.load(0));
    assert_eq!(0x0123_4567_89AB_CDEF, a.load(1));
    assert_eq!(1, a.load(2));
}

#[test]
fn width_one_bits() {
    let mut a = LogArray::new(1, 130);
    for i in 0..130 {
        a.store(i, (i % 2) as u64);
    }
    for i in 0..130 {
        assert_eq!((i % 2) as u64, a.load(i));
    }
}

#[test]
fn repeated_store_is_idempotent() {
    let mut a = LogArray::new(13, 20);
    a.store(9, 4321);
    a.store(9, 4321);
    assert_eq!(4321, a.load(9));
    assert_eq!(0, a.load(8));
    assert_eq!(0, a.load(10));
}

#[test]
fn empty_and_single_element_arrays() {
    let _empty = LogArray::new(64, 0);
    let mut one = LogArray::new(3, 1);
    assert_eq!(0, one.load(0));
    one.store(0, 5);
    assert_eq!(5, one.load(0));
}
