use runkv_storage::memtable::{Memtable, MemtableIterator, MemtableSeek};

fn build_memtable_for_test() -> Memtable {
    let mut memtable = Memtable::new(4 * 1024 * 1024);
    let specs: [(u64, [i64; 5]); 11] = [
        (2, [-3, 2, 0, 0, 0]),
        (3, [4, 3, 2, 0, 0]),
        (4, [-3, 2, 0, 0, 0]),
        (5, [5, 4, 3, 2, 1]),
        (6, [-3, 2, 0, 0, 0]),
        (7, [4, 3, 2, 0, 0]),
        (8, [-3, 2, 0, 0, 0]),
        (9, [5, 4, 3, 2, 1]),
        (10, [-3, 2, 0, 0, 0]),
        (11, [4, 3, 2, 0, 0]),
        (12, [-3, 2, 0, 0, 0]),
    ];
    for (k, ts) in specs.iter() {
        for t in ts.iter() {
            if *t > 0 {
                memtable.put(
                    format!("k{:02}", k).as_bytes(),
                    Some(format!("v{:02}-{:02}", k, t).as_bytes()),
                    *t as u64,
                );
            } else if *t < 0 {
                memtable.put(format!("k{:02}", k).as_bytes(), None, (-t) as u64);
            }
        }
    }
    memtable
}

fn build_iterator_for_test(timestamp: u64) -> MemtableIterator {
    let memtable = build_memtable_for_test();
    MemtableIterator::new(&memtable, timestamp)
}

#[test]
fn memtable_iterator_test_seek_first() {
    let mut it = build_iterator_for_test(u64::MAX);
    assert!(it.seek(MemtableSeek::First).unwrap());
    assert_eq!(b"v03-04", it.value());

    let mut it = build_iterator_for_test(3);
    assert!(it.seek(MemtableSeek::First).unwrap());
    assert_eq!(b"v03-03", it.value());

    let mut it = build_iterator_for_test(2);
    assert!(it.seek(MemtableSeek::First).unwrap());
    assert_eq!(b"v02-02", it.value());

    let mut it = build_iterator_for_test(1);
    assert!(it.seek(MemtableSeek::First).unwrap());
    assert_eq!(b"v05-01", it.value());

    let mut it = build_iterator_for_test(0);
    assert!(!it.seek(MemtableSeek::First).unwrap());
    assert!(!it.is_valid());
}

#[test]
fn memtable_iterator_test_seek_last() {
    let mut it = build_iterator_for_test(u64::MAX);
    assert!(it.seek(MemtableSeek::Last).unwrap());
    assert_eq!(b"v11-04", it.value());

    let mut it = build_iterator_for_test(3);
    assert!(it.seek(MemtableSeek::Last).unwrap());
    assert_eq!(b"v11-03", it.value());

    let mut it = build_iterator_for_test(2);
    assert!(it.seek(MemtableSeek::Last).unwrap());
    assert_eq!(b"v12-02", it.value());

    let mut it = build_iterator_for_test(1);
    assert!(it.seek(MemtableSeek::Last).unwrap());
    assert_eq!(b"v09-01", it.value());

    let mut it = build_iterator_for_test(0);
    assert!(!it.seek(MemtableSeek::Last).unwrap());
    assert!(!it.is_valid());
}

#[test]
fn test_bi_direction_seek() {
    // Forward.

    let mut it = build_iterator_for_test(u64::MAX);
    assert!(it.seek(MemtableSeek::RandomForward(b"k06")).unwrap());
    assert_eq!(b"v07-04", it.value());

    let mut it = build_iterator_for_test(3);
    assert!(it.seek(MemtableSeek::RandomForward(b"k06")).unwrap());
    assert_eq!(b"v07-03", it.value());

    let mut it = build_iterator_for_test(2);
    assert!(it.seek(MemtableSeek::RandomForward(b"k06")).unwrap());
    assert_eq!(b"v06-02", it.value());

    let mut it = build_iterator_for_test(1);
    assert!(!it.seek(MemtableSeek::RandomForward(b"k06")).unwrap());
    assert_eq!(b"v09-01", it.value());

    let mut it = build_iterator_for_test(0);
    assert!(!it.seek(MemtableSeek::RandomForward(b"k06")).unwrap());

    // Backward.

    let mut it = build_iterator_for_test(u64::MAX);
    assert!(it.seek(MemtableSeek::RandomBackward(b"k08")).unwrap());
    assert_eq!(b"v07-04", it.value());

    let mut it = build_iterator_for_test(3);
    assert!(it.seek(MemtableSeek::RandomBackward(b"k08")).unwrap());
    assert_eq!(b"v07-03", it.value());

    let mut it = build_iterator_for_test(2);
    assert!(it.seek(MemtableSeek::RandomBackward(b"k08")).unwrap());
    assert_eq!(b"v08-02", it.value());

    let mut it = build_iterator_for_test(1);
    assert!(!it.seek(MemtableSeek::RandomBackward(b"k08")).unwrap());
    assert_eq!(b"v05-01", it.value());

    let mut it = build_iterator_for_test(0);
    assert!(!it.seek(MemtableSeek::RandomBackward(b"k08")).unwrap());
    assert!(!it.is_valid());

    // Both directions on a present key.

    let mut it = build_iterator_for_test(u64::MAX);
    assert!(it.seek(MemtableSeek::RandomForward(b"k07")).unwrap());
    assert_eq!(b"v07-04", it.value());

    let mut it = build_iterator_for_test(4);
    assert!(it.seek(MemtableSeek::RandomForward(b"k07")).unwrap());
    assert_eq!(b"v07-04", it.value());

    let mut it = build_iterator_for_test(3);
    assert!(it.seek(MemtableSeek::RandomForward(b"k07")).unwrap());
    assert_eq!(b"v07-03", it.value());

    let mut it = build_iterator_for_test(2);
    assert!(it.seek(MemtableSeek::RandomForward(b"k07")).unwrap());
    assert_eq!(b"v07-02", it.value());

    let mut it = build_iterator_for_test(1);
    assert!(!it.seek(MemtableSeek::RandomForward(b"k07")).unwrap());
    assert_eq!(b"v09-01", it.value());

    let mut it = build_iterator_for_test(u64::MAX);
    assert!(it.seek(MemtableSeek::RandomBackward(b"k07")).unwrap());
    assert_eq!(b"v07-04", it.value());

    let mut it = build_iterator_for_test(4);
    assert!(it.seek(MemtableSeek::RandomBackward(b"k07")).unwrap());
    assert_eq!(b"v07-04", it.value());

    let mut it = build_iterator_for_test(3);
    assert!(it.seek(MemtableSeek::RandomBackward(b"k07")).unwrap());
    assert_eq!(b"v07-03", it.value());

    let mut it = build_iterator_for_test(2);
    assert!(it.seek(MemtableSeek::RandomBackward(b"k07")).unwrap());
    assert_eq!(b"v07-02", it.value());

    let mut it = build_iterator_for_test(1);
    assert!(!it.seek(MemtableSeek::RandomBackward(b"k07")).unwrap());
    assert_eq!(b"v05-01", it.value());
}

#[test]
fn memtable_iterator_test_seek_none_front() {
    let mut it = build_iterator_for_test(u64::MAX);
    it.seek(MemtableSeek::RandomForward(b"k01")).unwrap();
    assert_eq!(b"v03-04", it.value());

    let mut it = build_iterator_for_test(u64::MAX);
    it.seek(MemtableSeek::RandomBackward(b"k01")).unwrap();
    assert!(!it.is_valid());
}

#[test]
fn memtable_iterator_test_seek_none_back() {
    let mut it = build_iterator_for_test(u64::MAX);
    it.seek(MemtableSeek::RandomForward(b"k12")).unwrap();
    assert!(!it.is_valid());

    let mut it = build_iterator_for_test(u64::MAX);
    it.seek(MemtableSeek::RandomBackward(b"k12")).unwrap();
    assert_eq!(b"v11-04", it.value());
}

#[test]
fn memtable_iterator_test_forward_iterate() {
    let mut it = build_iterator_for_test(3);
    it.seek(MemtableSeek::First).unwrap();
    assert_eq!(b"v03-03", it.value());

    it.next().unwrap();
    assert_eq!(b"v05-03", it.value());

    it.next().unwrap();
    assert_eq!(b"v07-03", it.value());

    it.next().unwrap();
    assert_eq!(b"v09-03", it.value());

    it.next().unwrap();
    assert_eq!(b"v11-03", it.value());

    it.next().unwrap();
    assert!(!it.is_valid());

    let mut it = build_iterator_for_test(2);
    it.seek(MemtableSeek::First).unwrap();
    assert_eq!(b"v02-02", it.value());

    for v in [
        b"v03-02", b"v04-02", b"v05-02", b"v06-02", b"v07-02", b"v08-02", b"v09-02", b"v10-02",
        b"v11-02", b"v12-02",
    ] {
        it.next().unwrap();
        assert_eq!(v, it.value());
    }

    it.next().unwrap();
    assert!(!it.is_valid());

    let mut it = build_iterator_for_test(1);
    it.seek(MemtableSeek::First).unwrap();
    assert_eq!(b"v05-01", it.value());

    it.next().unwrap();
    assert_eq!(b"v09-01", it.value());

    it.next().unwrap();
    assert!(!it.is_valid());
}

#[test]
fn memtable_iterator_test_backward_iterate() {
    let mut it = build_iterator_for_test(3);
    it.seek(MemtableSeek::Last).unwrap();
    assert_eq!(b"v11-03", it.value());

    it.prev().unwrap();
    assert_eq!(b"v09-03", it.value());

    it.prev().unwrap();
    assert_eq!(b"v07-03", it.value());

    it.prev().unwrap();
    assert_eq!(b"v05-03", it.value());

    it.prev().unwrap();
    assert_eq!(b"v03-03", it.value());

    it.prev().unwrap();
    assert!(!it.is_valid());

    let mut it = build_iterator_for_test(2);
    it.seek(MemtableSeek::Last).unwrap();
    assert_eq!(b"v12-02", it.value());

    for v in [
        b"v11-02", b"v10-02", b"v09-02", b"v08-02", b"v07-02", b"v06-02", b"v05-02", b"v04-02",
        b"v03-02", b"v02-02",
    ] {
        it.prev().unwrap();
        assert_eq!(v, it.value());
    }

    it.prev().unwrap();
    assert!(!it.is_valid());

    let mut it = build_iterator_for_test(1);
    it.seek(MemtableSeek::Last).unwrap();
    assert_eq!(b"v09-01", it.value());

    it.prev().unwrap();
    assert_eq!(b"v05-01", it.value());

    it.prev().unwrap();
    assert!(!it.is_valid());
}

#[test]
fn test_seek_forward_backward_iterate() {
    let mut it = build_iterator_for_test(3);

    it.seek(MemtableSeek::RandomForward(b"k06")).unwrap();
    assert_eq!(b"v07-03", it.value());

    it.prev().unwrap();
    assert_eq!(b"v05-03", it.value());

    it.next().unwrap();
    assert_eq!(b"v07-03", it.value());
}
