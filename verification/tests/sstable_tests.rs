use runkv_storage::block::{Block, BlockIterator, CompressionAlgorithm};
use runkv_storage::iterator::{Seek, StorageIterator};
use runkv_storage::keys::full_key;
use runkv_storage::sstable::{SstableBuilder, SstableBuilderOptions, SstableMeta};

fn build_sstable(
    compression: CompressionAlgorithm,
) -> (runkv_storage::sstable::SstableMeta, Vec<u8>) {
    let options = SstableBuilderOptions {
        capacity: 1024,
        block_capacity: 32,
        bloom_bits_per_key: 5,
        compression_algorithm: compression,
        restart_interval: 16,
    };
    let mut builder = SstableBuilder::new(options);
    builder.add(b"k01", 1, b"v01").unwrap();
    builder.add(b"k02", 2, b"v02").unwrap();
    builder.add(b"k04", 4, b"v04").unwrap();
    builder.add(b"k05", 5, b"v05").unwrap();
    builder.build().unwrap()
}

fn check_blocks(meta: &SstableMeta, data: &[u8]) {
    assert_eq!(2, meta.block_metas.len());
    assert_eq!(&full_key(b"k01", 1), &meta.block_metas[0].first_key);
    assert_eq!(&full_key(b"k02", 2), &meta.block_metas[0].last_key);
    assert_eq!(&full_key(b"k04", 4), &meta.block_metas[1].first_key);
    assert_eq!(&full_key(b"k05", 5), &meta.block_metas[1].last_key);

    let begin = meta.block_metas[0].offset;
    let end = meta.block_metas[0].offset + meta.block_metas[0].len;
    let mut bi = BlockIterator::new(Block::decode(&data[begin..end]).unwrap());
    bi.seek(Seek::First).unwrap();
    assert!(bi.is_valid());
    assert_eq!(&full_key(b"k01", 1)[..], bi.key());
    assert_eq!(b"v01", bi.value());
    bi.next().unwrap();
    assert!(bi.is_valid());
    assert_eq!(&full_key(b"k02", 2)[..], bi.key());
    assert_eq!(b"v02", bi.value());
    bi.next().unwrap();
    assert!(!bi.is_valid());

    let begin = meta.block_metas[1].offset;
    let end = meta.block_metas[1].offset + meta.block_metas[1].len;
    let mut bi = BlockIterator::new(Block::decode(&data[begin..end]).unwrap());
    bi.seek(Seek::First).unwrap();
    assert!(bi.is_valid());
    assert_eq!(&full_key(b"k04", 4)[..], bi.key());
    assert_eq!(b"v04", bi.value());
    bi.next().unwrap();
    assert!(bi.is_valid());
    assert_eq!(&full_key(b"k05", 5)[..], bi.key());
    assert_eq!(b"v05", bi.value());
    bi.next().unwrap();
    assert!(!bi.is_valid());
}

#[test]
fn test_sstable_enc_dec() {
    let (meta, data) = build_sstable(CompressionAlgorithm::Plain);
    check_blocks(&meta, &data);
}

#[test]
fn test_compressed_sstable_enc_dec() {
    let (meta, data) = build_sstable(CompressionAlgorithm::Lz4);
    check_blocks(&meta, &data);
}

#[test]
fn test_sstable_meta_enc_dec() {
    let (meta, _) = build_sstable(CompressionAlgorithm::Plain);
    let buf = meta.encode();
    let decoded_meta = SstableMeta::decode(&buf).unwrap();
    assert_eq!(meta.block_metas.len(), decoded_meta.block_metas.len());
    for (block_meta, decoded_block_meta) in
        meta.block_metas.iter().zip(decoded_meta.block_metas.iter())
    {
        assert_eq!(block_meta.offset, decoded_block_meta.offset);
        assert_eq!(block_meta.len, decoded_block_meta.len);
        assert_eq!(block_meta.first_key, decoded_block_meta.first_key);
        assert_eq!(block_meta.last_key, decoded_block_meta.last_key);
    }
    assert_eq!(meta.bloom_filter, decoded_meta.bloom_filter);
}
