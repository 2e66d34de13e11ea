use basic_logarray::naive::LogArray;

#[test]
fn store_load_cycle() {
    let mut logarray = LogArray::new(10, 1000);
    for i in 0..1000 {
        logarray.store(i, i as u64);
    }
    for i in 0..1000 {
        assert_eq!(i as u64, logarray.load(i));
    }
}

#[test]
fn store_load_check_neighbors() {
    let mut logarray = LogArray::new(10, 1000);
    for i in 0..1000 {
        logarray.store(i, i as u64);
    }

    // overwrite each element without affecting its neighbors
    for i in 0..1000 {
        logarray.store(i, 1001);
        assert_eq!(1001, logarray.load(i));
        if i != 0 {
            assert_eq!((i - 1) as u64, logarray.load(i - 1));
        }
        if i != 999 {
            assert_eq!((i + 1) as u64, logarray.load(i + 1));
        }
        logarray.store(i, i as u64);
    }
    for i in 0..1000 {
        assert_eq!(i as u64, logarray.load(i));
    }
}
