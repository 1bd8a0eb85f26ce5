use runkv_storage::block::{Block, BlockBuilder, BlockBuilderOptions, BlockIterator, CompressionAlgorithm};
use runkv_storage::bloom::Bloom;
use runkv_storage::error::Error;
use runkv_storage::iterator::{Seek, StorageIterator};
use runkv_storage::keys::{full_key, key_diff, timestamp, user_key};
use runkv_storage::memtable::{Memtable, MemtableIterator, MemtableSeek};
use runkv_storage::object_store::{MemObjectStore, ObjectStore};
use runkv_storage::raft_mem::{EntryIndex, MemStates};
use runkv_storage::utils::fingerprint32;

fn index(term: u64) -> EntryIndex {
    EntryIndex {
        term,
        ctx: vec![],
        file_id: 7,
        block_offset: 3,
        block_len: 9,
        offset: 1,
        len: 2,
    }
}

#[test]
fn test_full_key_round_trip_values() {
    let fk = full_key(b"hello", 42);
    assert_eq!(user_key(&fk), b"hello");
    assert_eq!(timestamp(&fk), 42);

    let fk = full_key(b"", 0);
    assert_eq!(user_key(&fk), b"");
    assert_eq!(timestamp(&fk), 0);

    let fk = full_key(b"x", u64::MAX);
    assert_eq!(user_key(&fk), b"x");
    assert_eq!(timestamp(&fk), u64::MAX);
}

#[test]
fn test_full_key_order_values() {
    // Same user key: newer timestamps sort first.
    assert!(full_key(b"k", 9) < full_key(b"k", 3));
    // Distinct user keys of one length order by user key.
    assert!(full_key(b"ka", 1) < full_key(b"kb", 200));
}

#[test]
fn test_key_diff_values() {
    assert_eq!(key_diff(b"abcde", b"abcxy"), b"xy");
    assert_eq!(key_diff(b"abc", b"abc"), b"");
    assert_eq!(key_diff(b"", b"abc"), b"abc");
    assert_eq!(key_diff(b"xyz", b"abc"), b"abc");
}

#[test]
fn test_block_codec_round_trip_plain() {
    let mut builder = BlockBuilder::new(BlockBuilderOptions {
        capacity: 1024,
        compression_algorithm: CompressionAlgorithm::Plain,
        restart_interval: 2,
    });
    let keys: Vec<Vec<u8>> = (0..7u64).map(|i| full_key(format!("key-{:03}", i).as_bytes(), i)).collect();
    for (i, k) in keys.iter().enumerate() {
        builder.add(k, format!("value-{}", i).as_bytes());
    }
    let bytes = builder.build();
    let block = Block::decode(&bytes).unwrap();
    assert_eq!(block.len(), 7);
    let mut it = BlockIterator::new(block);
    it.seek(Seek::First).unwrap();
    for (i, k) in keys.iter().enumerate() {
        assert!(it.is_valid());
        assert_eq!(it.key(), &k[..]);
        assert_eq!(it.value(), format!("value-{}", i).as_bytes());
        it.next().unwrap();
    }
    assert!(!it.is_valid());
}

#[test]
fn test_block_codec_round_trip_lz4() {
    let mut builder = BlockBuilder::new(BlockBuilderOptions {
        capacity: 1024,
        compression_algorithm: CompressionAlgorithm::Lz4,
        restart_interval: 16,
    });
    let keys: Vec<Vec<u8>> = (0..20u64).map(|i| full_key(format!("key-{:03}", i).as_bytes(), i)).collect();
    for (i, k) in keys.iter().enumerate() {
        builder.add(k, format!("value-{}", i).as_bytes());
    }
    let bytes = builder.build();
    let block = Block::decode(&bytes).unwrap();
    assert_eq!(block.len(), 20);
    let mut it = BlockIterator::new(block);
    it.seek(Seek::Last).unwrap();
    for (i, k) in keys.iter().enumerate().rev() {
        assert!(it.is_valid());
        assert_eq!(it.key(), &k[..]);
        assert_eq!(it.value(), format!("value-{}", i).as_bytes());
        it.prev().unwrap();
    }
    assert!(!it.is_valid());
}

#[test]
fn test_block_decode_rejects_corrupt_checksum() {
    let mut builder = BlockBuilder::new(BlockBuilderOptions {
        capacity: 1024,
        compression_algorithm: CompressionAlgorithm::Plain,
        restart_interval: 16,
    });
    builder.add(&full_key(b"a", 1), b"v");
    let mut bytes = builder.build();
    let last = bytes.len() - 1;
    bytes[last] ^= 0xff;
    assert!(matches!(Block::decode(&bytes), Err(Error::Checksum)));
}

#[test]
fn test_bloom_soundness() {
    let mut hashes = Vec::new();
    for i in 0..200u64 {
        hashes.push(fingerprint32(format!("user-key-{}", i).as_bytes()));
    }
    let filter = Bloom::build_from_key_hashes(&hashes, 10);
    for h in hashes.iter() {
        assert!(Bloom::maybe_contains(&filter, *h));
    }
    // A membership answer of false is authoritative, so a disjoint key that
    // answers false is genuinely absent.
    let stranger = fingerprint32(b"never-inserted-key");
    let _ = Bloom::maybe_contains(&filter, stranger);
}

#[test]
fn test_iterator_monotonicity() {
    // After seek(First), repeated next yields strictly ascending keys.
    let mut builder = BlockBuilder::new(BlockBuilderOptions::default());
    for i in 0..10u64 {
        builder.add(&full_key(format!("k{:02}", i).as_bytes(), i), b"v");
    }
    let block = Block::decode(&builder.build()).unwrap();
    let mut it = BlockIterator::new(block);
    it.seek(Seek::First).unwrap();
    let mut prev_key: Option<Vec<u8>> = None;
    while it.is_valid() {
        let k = it.key().to_vec();
        if let Some(p) = &prev_key {
            assert!(p < &k);
        }
        prev_key = Some(k);
        it.next().unwrap();
    }
}

#[test]
fn test_mvcc_snapshot_semantics() {
    // For each user key, the iterator yields the value of the highest
    // timestamp at most the snapshot, or nothing on a tombstone.
    let mut memtable = Memtable::new(1024);
    memtable.put(b"a", Some(b"a1"), 1);
    memtable.put(b"a", Some(b"a5"), 5);
    memtable.put(b"b", Some(b"b2"), 2);
    memtable.put(b"b", None, 4);
    memtable.put(b"c", Some(b"c3"), 3);

    let mut it = MemtableIterator::new(&memtable, 3);
    assert!(it.seek(MemtableSeek::First).unwrap());
    assert_eq!(it.key(), b"a");
    assert_eq!(it.value(), b"a1");
    it.next().unwrap();
    assert_eq!(it.key(), b"b");
    assert_eq!(it.value(), b"b2");
    it.next().unwrap();
    assert_eq!(it.key(), b"c");
    assert_eq!(it.value(), b"c3");
    it.next().unwrap();
    assert!(!it.is_valid());

    // At snapshot 4 the tombstone hides b entirely.
    let mut it = MemtableIterator::new(&memtable, 4);
    assert!(it.seek(MemtableSeek::First).unwrap());
    assert_eq!(it.key(), b"a");
    it.next().unwrap();
    assert_eq!(it.key(), b"c");
    it.next().unwrap();
    assert!(!it.is_valid());
}

#[test]
fn test_append_idempotence_same_term() {
    let mut states = MemStates::default();
    states.add_group(1).unwrap();
    let batch: Vec<EntryIndex> = vec![index(3), index(3), index(3)];
    states.append(1, 1, batch.clone()).unwrap();
    let after_once = states.entries(1, 1, usize::MAX).unwrap();
    states.append(1, 1, batch).unwrap();
    let after_twice = states.entries(1, 1, usize::MAX).unwrap();
    assert_eq!(after_once, after_twice);
}

#[test]
fn test_compact_idempotence() {
    let mut states = MemStates::default();
    states.add_group(1).unwrap();
    states.append(1, 1, vec![index(1), index(1), index(1), index(1)]).unwrap();
    states.compact(1, 3).unwrap();
    let once = states.entries(1, 3, usize::MAX).unwrap();
    states.compact(1, 3).unwrap();
    assert_eq!(states.entries(1, 3, usize::MAX).unwrap(), once);
    states.compact(1, 2).unwrap();
    assert_eq!(states.entries(1, 3, usize::MAX).unwrap(), once);
}

#[test]
fn test_raft_append_gap_error() {
    let mut states = MemStates::default();
    states.add_group(1).unwrap();
    states.append(1, 1, vec![index(1); 100]).unwrap();
    let err = states.append(1, 102, vec![index(1); 100]).unwrap_err();
    assert!(matches!(err, Error::RaftLogGap { start: 101, end: 102 }));
}

#[test]
fn test_group_errors() {
    let mut states = MemStates::default();
    assert!(matches!(
        states.compact(7, 1).unwrap_err(),
        Error::GroupNotExists(7)
    ));
    states.add_group(7).unwrap();
    assert!(matches!(
        states.add_group(7).unwrap_err(),
        Error::GroupAlreadyExists(7)
    ));
}

#[test]
fn test_mem_object_store() {
    let mut store = MemObjectStore::default();
    store.put(b"a/b", b"hello".to_vec()).unwrap();
    assert_eq!(store.get(b"a/b").unwrap(), b"hello".to_vec());
    assert_eq!(store.get_range(b"a/b", 1, 4).unwrap(), b"ell".to_vec());
    assert!(matches!(
        store.get_range(b"a/b", 2, 9).unwrap_err(),
        Error::ObjectRange
    ));
    assert!(matches!(
        store.get(b"missing").unwrap_err(),
        Error::ObjectNotFound(_)
    ));
    store.remove(b"a/b").unwrap();
    assert!(store.get(b"a/b").is_err());
}

#[test]
fn test_memtable_mask() {
    let mut states = MemStates::default();
    states.add_group(1).unwrap();
    states.append(1, 1, vec![index(1); 10]).unwrap();
    states.mask(1, 5).unwrap();
    // Masked reads clamp to the watermark; unmasked reads see everything.
    let first_masked = states.first_index(1, false).unwrap().unwrap();
    assert_eq!(first_masked, 5);
    let first_unmasked = states.first_index(1, true).unwrap().unwrap();
    assert_eq!(first_unmasked, 1);
    let (start, entries) = states.may_entries(1, 1, usize::MAX, false).unwrap();
    assert_eq!(start, 5);
    assert_eq!(entries.len(), 6);
    let (start, entries) = states.may_entries(1, 1, usize::MAX, true).unwrap();
    assert_eq!(start, 1);
    assert_eq!(entries.len(), 10);
}

#[test]
fn test_decode_error_variants() {
    assert!(matches!(Block::decode(b"xy"), Err(Error::Decode)));
    assert!(matches!(
        runkv_storage::sstable::SstableMeta::decode(b"abc"),
        Err(Error::Decode)
    ));
    // A corrupted meta checksum is a checksum error, not a decode error.
    let mut builder = runkv_storage::sstable::SstableBuilder::new(
        runkv_storage::sstable::SstableBuilderOptions {
            capacity: 1024,
            block_capacity: 32,
            bloom_bits_per_key: 5,
            compression_algorithm: CompressionAlgorithm::Plain,
            restart_interval: 16,
        },
    );
    builder.add(b"k01", 1, b"v01").unwrap();
    let (meta, _) = builder.build().unwrap();
    let mut buf = meta.encode();
    buf[0] ^= 0xff;
    assert!(matches!(
        runkv_storage::sstable::SstableMeta::decode(&buf),
        Err(Error::Checksum)
    ));
}

#[test]
fn test_checksum_and_fingerprint_values() {
    // The classic CRC-32 (IEEE) check value.
    assert_eq!(runkv_storage::utils::crc32sum(b"123456789"), 0xCBF43926);
    assert!(runkv_storage::utils::crc32check(b"123456789", 0xCBF43926));
    assert!(!runkv_storage::utils::crc32check(b"123456789", 0xCBF43927));
    // The fingerprint is stable across platforms and versions.
    assert_eq!(fingerprint32(b"hello world"), 430397466);
}

#[test]
fn test_compression_changes_bytes() {
    let input = vec![7u8; 4096];
    let compressed = runkv_storage::utils::lz4_compress(&input);
    assert!(compressed.len() < input.len());
    let back = runkv_storage::utils::lz4_decompress(&compressed).unwrap();
    assert_eq!(back, input);
}
