use runkv_storage::block::{Block, BlockBuilder, BlockBuilderOptions, BlockIterator};
use runkv_storage::concat_iterator::ConcatIterator;
use runkv_storage::iterator::{Seek, StorageIterator};
use runkv_storage::keys::full_key;

fn build_block_for_test(lo: usize, hi: usize) -> Block {
    let options = BlockBuilderOptions::default();
    let mut builder = BlockBuilder::new(options);
    for i in lo..=hi {
        builder.add(
            &full_key(format!("k{:02}", i).as_bytes(), i as u64),
            format!("v{:02}", i).as_bytes(),
        );
    }
    let buf = builder.build();
    Block::decode(&buf).unwrap()
}

fn build_iterator_for_test() -> ConcatIterator<BlockIterator> {
    ConcatIterator::new(vec![
        BlockIterator::new(build_block_for_test(1, 3)),
        BlockIterator::new(build_block_for_test(5, 7)),
        BlockIterator::new(build_block_for_test(9, 11)),
    ])
}

#[test]
fn concat_iterator_test_seek_first() {
    let mut ci = build_iterator_for_test();
    ci.seek(Seek::First).unwrap();
    assert!(ci.is_valid());
    assert_eq!(&full_key(b"k01", 1)[..], ci.key());
    assert_eq!(b"v01", ci.value());
}

#[test]
fn concat_iterator_test_seek_last() {
    let mut ci = build_iterator_for_test();
    ci.seek(Seek::Last).unwrap();
    assert!(ci.is_valid());
    assert_eq!(&full_key(b"k11", 11)[..], ci.key());
    assert_eq!(b"v11", ci.value());
}

#[test]
fn concat_iterator_test_seek_random() {
    let mut ci = build_iterator_for_test();
    ci.seek(Seek::Random(&full_key(b"k06", 6)[..])).unwrap();
    assert!(ci.is_valid());
    assert_eq!(&full_key(b"k06", 6)[..], ci.key());
    assert_eq!(b"v06", ci.value());
}

#[test]
fn concat_iterator_test_seek_none_front() {
    let mut ci = build_iterator_for_test();
    ci.seek(Seek::Random(&full_key(b"k00", 0)[..])).unwrap();
    assert!(ci.is_valid());
    assert_eq!(&full_key(b"k01", 1)[..], ci.key());
    assert_eq!(b"v01", ci.value());
}

#[test]
fn concat_iterator_test_seek_none_middle() {
    let mut ci = build_iterator_for_test();
    ci.seek(Seek::Random(&full_key(b"k04", 4)[..])).unwrap();
    assert!(ci.is_valid());
    assert_eq!(&full_key(b"k05", 5)[..], ci.key());
    assert_eq!(b"v05", ci.value());
}

#[test]
fn concat_iterator_test_seek_none_back() {
    let mut ci = build_iterator_for_test();
    ci.seek(Seek::Random(&full_key(b"k12", 12)[..])).unwrap();
    assert!(!ci.is_valid());
}

#[test]
fn concat_iterator_test_forward_iterate() {
    let mut ci = build_iterator_for_test();

    ci.seek(Seek::First).unwrap();
    for i in (1..=3).chain(5..=7).chain(9..=11) {
        assert!(ci.is_valid());
        assert_eq!(
            &full_key(format!("k{:02}", i).as_bytes(), i as u64)[..],
            ci.key()
        );
        assert_eq!(format!("v{:02}", i).as_bytes(), ci.value());
        ci.next().unwrap();
    }
    assert!(!ci.is_valid())
}

#[test]
fn concat_iterator_test_backward_iterate() {
    let mut ci = build_iterator_for_test();

    ci.seek(Seek::Last).unwrap();
    for i in (1..=3).chain(5..=7).chain(9..=11).rev() {
        assert!(ci.is_valid());
        assert_eq!(
            &full_key(format!("k{:02}", i).as_bytes(), i as u64)[..],
            ci.key()
        );
        assert_eq!(format!("v{:02}", i).as_bytes(), ci.value());
        ci.prev().unwrap();
    }
    assert!(!ci.is_valid())
}
