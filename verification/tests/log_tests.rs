use runkv_storage::raft_entry::Entry;
use runkv_storage::raft_log::{Log, LogDir, LogFile, LogOptions};

fn compact_entry(group: u64, idx: u64) -> Entry {
    Entry::Compact { group, index: idx }
}

#[test]
fn test_log_replay_fidelity() {
    // Push entries, then cut the file at every byte boundary: each cut
    // replays to a prefix of the pushed entries, never a partial one.
    let (mut log, records) = Log::open(LogDir::new(), LogOptions { log_file_capacity: 1 << 20 });
    assert!(records.is_empty());
    let mut offsets = Vec::new();
    for i in 0..8u64 {
        let (file_id, offset, len) = log.push(&compact_entry(1, i)).unwrap();
        offsets.push((file_id, offset, len));
    }
    let dir = log.into_dir();
    assert_eq!(dir.files.len(), 1);
    let bytes = dir.files[0].data.clone();
    for cut in 0..=bytes.len() {
        let cut_dir = LogDir { files: vec![LogFile { id: 1, data: bytes[..cut].to_vec() }] };
        let (_log2, records) = Log::open(cut_dir, LogOptions { log_file_capacity: 1 << 20 });
        // A prefix of the acknowledged pushes, in order.
        assert!(records.len() <= 8);
        for (i, rec) in records.iter().enumerate() {
            assert_eq!(rec.offset, offsets[i].1);
            assert_eq!(rec.tag, 1);
        }
        if cut == bytes.len() {
            assert_eq!(records.len(), 8);
        }
    }
}

#[test]
fn test_log_rotation() {
    let (mut log, _) = Log::open(LogDir::new(), LogOptions { log_file_capacity: 30 });
    assert_eq!(log.frozen_file_count(), 0);
    // A compact entry is 25 bytes; the second push crosses 30 bytes.
    log.push(&compact_entry(1, 1)).unwrap();
    assert_eq!(log.frozen_file_count(), 0);
    log.push(&compact_entry(1, 2)).unwrap();
    assert_eq!(log.frozen_file_count(), 1);
    let dir = log.into_dir();
    assert_eq!(dir.files.len(), 2);
    assert!(dir.files[0].id < dir.files[1].id);
}

#[test]
fn test_log_read() {
    let (mut log, _) = Log::open(LogDir::new(), LogOptions { log_file_capacity: 1 << 20 });
    let (file_id, offset, len) = log.push(&compact_entry(9, 7)).unwrap();
    let bytes = log.read(file_id, offset, len).unwrap();
    assert_eq!(bytes.len(), len);
    // Envelope: tag, length, checksum, payload.
    assert_eq!(bytes[0], 1);
    assert_eq!(bytes[1..5], (16u32).to_le_bytes());
}
