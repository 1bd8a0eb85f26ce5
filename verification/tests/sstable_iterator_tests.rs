use runkv_storage::block::CompressionAlgorithm;
use runkv_storage::iterator::Seek;
use runkv_storage::keys::full_key;
use runkv_storage::object_store::MemObjectStore;
use runkv_storage::sstable::{Sstable, SstableBuilder, SstableBuilderOptions, SstableMeta};
use runkv_storage::sstable_iterator::SstableIterator;
use runkv_storage::sstable_store::{CachePolicy, SstableStore, SstableStoreOptions};

fn build_sstable_for_test() -> (SstableMeta, Vec<u8>) {
    let options = SstableBuilderOptions {
        capacity: 1024,
        block_capacity: 32,
        bloom_bits_per_key: 5,
        compression_algorithm: CompressionAlgorithm::Lz4,
        restart_interval: 2,
    };
    let mut builder = SstableBuilder::new(options);
    builder.add(b"k01", 1, b"v01").unwrap();
    builder.add(b"k02", 2, b"v02").unwrap();
    builder.add(b"k04", 4, b"v04").unwrap();
    builder.add(b"k05", 5, b"v05").unwrap();
    builder.add(b"k07", 7, b"v07").unwrap();
    builder.add(b"k08", 8, b"v08").unwrap();
    let (meta, data) = builder.build().unwrap();
    assert_eq!(3, meta.block_metas.len());
    (meta, data)
}

fn build_iterator_for_test() -> (SstableStore<MemObjectStore>, SstableIterator) {
    let object_store = MemObjectStore::default();
    let options = SstableStoreOptions {
        path: b"test".to_vec(),
        object_store,
        meta_cache_capacity: 1024,
    };
    let mut sstable_store = SstableStore::new(options);
    let (meta, data) = build_sstable_for_test();
    let sstable = Sstable { id: 1, meta };
    sstable_store
        .put(&sstable, data, CachePolicy::Fill)
        .unwrap();
    let si = SstableIterator::new(sstable, CachePolicy::Fill);
    (sstable_store, si)
}

#[test]
fn sstable_iterator_test_seek_first() {
    let (store, mut si) = build_iterator_for_test();
    si.seek(&store, Seek::First).unwrap();
    assert!(si.is_valid());
    assert_eq!(&full_key(b"k01", 1)[..], si.key());
    assert_eq!(b"v01", si.value());
}

#[test]
fn sstable_iterator_test_seek_last() {
    let (store, mut si) = build_iterator_for_test();
    si.seek(&store, Seek::Last).unwrap();
    assert!(si.is_valid());
    assert_eq!(&full_key(b"k08", 8)[..], si.key());
    assert_eq!(b"v08", si.value());
}

#[test]
fn sstable_iterator_test_seek_random() {
    let (store, mut si) = build_iterator_for_test();
    si.seek(&store, Seek::Random(&full_key(b"k05", 5)[..])).unwrap();
    assert!(si.is_valid());
    assert_eq!(&full_key(b"k05", 5)[..], si.key());
    assert_eq!(b"v05", si.value());
}

#[test]
fn sstable_iterator_test_seek_none_front() {
    let (store, mut si) = build_iterator_for_test();
    si.seek(&store, Seek::Random(&full_key(b"k00", 0)[..])).unwrap();
    assert!(si.is_valid());
    assert_eq!(&full_key(b"k01", 1)[..], si.key());
    assert_eq!(b"v01", si.value());
}

#[test]
fn sstable_iterator_test_seek_none_middle() {
    let (store, mut si) = build_iterator_for_test();
    si.seek(&store, Seek::Random(&full_key(b"k03", 3)[..])).unwrap();
    assert!(si.is_valid());
    assert_eq!(&full_key(b"k04", 4)[..], si.key());
    assert_eq!(b"v04", si.value());
}

#[test]
fn sstable_iterator_test_seek_none_back() {
    let (store, mut si) = build_iterator_for_test();
    si.seek(&store, Seek::Random(&full_key(b"k09", 9)[..])).unwrap();
    assert!(!si.is_valid());
}

#[test]
fn sstable_iterator_test_forward_iterate() {
    let (store, mut si) = build_iterator_for_test();

    si.seek(&store, Seek::First).unwrap();
    for i in (1..=2).chain(4..=5).chain(7..=8) {
        assert!(si.is_valid());
        assert_eq!(
            &full_key(format!("k{:02}", i).as_bytes(), i as u64)[..],
            si.key()
        );
        assert_eq!(format!("v{:02}", i).as_bytes(), si.value());
        si.next(&store).unwrap();
    }
    assert!(!si.is_valid())
}

#[test]
fn sstable_iterator_test_backward_iterate() {
    let (store, mut si) = build_iterator_for_test();

    si.seek(&store, Seek::Last).unwrap();
    for i in (1..=2).chain(4..=5).chain(7..=8).rev() {
        assert!(si.is_valid());
        assert_eq!(
            &full_key(format!("k{:02}", i).as_bytes(), i as u64)[..],
            si.key()
        );
        assert_eq!(format!("v{:02}", i).as_bytes(), si.value());
        si.prev(&store).unwrap();
    }
    assert!(!si.is_valid())
}
