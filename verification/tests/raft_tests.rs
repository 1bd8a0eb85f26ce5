use runkv_storage::raft_entry::RaftLogBatchBuilder;
use runkv_storage::raft_log::LogDir;
use runkv_storage::raft_mem::{EntryIndex, MemStates};
use runkv_storage::raft_store::{RaftLogStore, RaftLogStoreOptions};

fn gen_indices(term: u64, len: usize) -> Vec<EntryIndex> {
    let mut v = Vec::new();
    for _ in 0..len {
        v.push(EntryIndex {
            term,
            ctx: vec![],
            file_id: 1,
            block_offset: 0,
            block_len: 0,
            offset: 0,
            len: 0,
        });
    }
    v
}

fn assert_range(states: &MemStates, group: u64, start: u64, end: u64) {
    let first = match states.first_index(group, true).unwrap() {
        Ok(i) => i,
        Err(i) => i,
    };
    let next = match states.next_index(group, true).unwrap() {
        Ok(i) => i,
        Err(i) => i,
    };
    assert_eq!((first, next), (start, end));
}

#[test]
fn mem_test_raft_log() {
    let mut states = MemStates::default();

    states.add_group(1).unwrap();

    states.append(1, 1, gen_indices(1, 100)).unwrap();
    assert_range(&states, 1, 1, 101);
    assert!(states.append(1, 102, gen_indices(1, 100)).is_err());
    assert_range(&states, 1, 1, 101);
    states.append(1, 101, gen_indices(1, 100)).unwrap();
    assert_range(&states, 1, 1, 201);
    states.compact(1, 101).unwrap();
    assert_range(&states, 1, 101, 201);
    states.append(1, 51, gen_indices(1, 200)).unwrap();
    assert_range(&states, 1, 101, 251);
    states.compact(1, 251).unwrap();
    assert_range(&states, 1, 251, 251);
    states.compact(1, 101).unwrap();

    states.append(1, 251, gen_indices(2, 100)).unwrap();
    assert_range(&states, 1, 251, 351);
    assert_eq!(
        states.entries(1, 251, usize::MAX).unwrap(),
        gen_indices(2, 100)
    );
    states.append(1, 301, gen_indices(3, 100)).unwrap();
    assert_range(&states, 1, 251, 401);
    assert_eq!(
        states.entries(1, 251, usize::MAX).unwrap(),
        [gen_indices(2, 50), gen_indices(3, 100)].concat(),
    );
    states.append(1, 1, gen_indices(1, 400)).unwrap();
    assert_range(&states, 1, 251, 401);
    assert_eq!(
        states.entries(1, 251, usize::MAX).unwrap(),
        [gen_indices(2, 50), gen_indices(3, 100)].concat(),
    );
    assert!(states.entries(1, 250, usize::MAX).is_err());
    assert!(states.entries(1, 401, usize::MAX).is_err());

    assert!(states.truncate(1, 250).is_err());
    states.truncate(1, 301).unwrap();
    assert_range(&states, 1, 251, 301);

    states.remove_group(1).unwrap();
}

#[test]
fn mem_test_kv() {
    let mut states = MemStates::default();
    states.add_group(1).unwrap();
    states.put(1, b"k1".to_vec(), b"v1".to_vec()).unwrap();
    assert_eq!(states.get(1, b"k1".to_vec()).unwrap(), Some(b"v1".to_vec()));
    states.put(1, b"k1".to_vec(), b"v2".to_vec()).unwrap();
    assert_eq!(states.get(1, b"k1".to_vec()).unwrap(), Some(b"v2".to_vec()));
    states.delete(1, b"k1".to_vec()).unwrap();
    assert_eq!(states.get(1, b"k1".to_vec()).unwrap(), None);
    states.remove_group(1).unwrap();
}

fn is_send_sync<T: Send + Sync>() {}

#[test]
fn ensure_send_sync() {
    is_send_sync::<RaftLogStore>()
}

fn data(group: u64, term: u64, index: u64) -> Vec<u8> {
    format!("{:15}-{:15}-{:32}", group, term, index).into()
}

#[test]
fn store_test_raft_log() {
    // Prepare data.
    let mut builder = RaftLogBatchBuilder::default();
    for group in 1..=4 {
        for index in 1..=16 {
            builder.add(group, 1, index, &data(group, 1, index));
        }
    }
    let batches = builder.build();
    assert_eq!(batches.len(), 4);

    let options = RaftLogStoreOptions {
        log_dir_path: String::new(),
        log_file_capacity: 100,
        block_cache_capacity: 1024,
    };

    let mut store = RaftLogStore::open(LogDir::new(), &options).unwrap();
    store.add_group(1).unwrap();
    store.add_group(2).unwrap();
    store.add_group(3).unwrap();
    store.add_group(4).unwrap();
    for batch in batches {
        store.append(batch).unwrap();
    }
    assert_eq!(store.frozen_file_count(), 4);
    for group in 1..=4 {
        let entries = store.entries(group, 1, usize::MAX).unwrap();
        let expected: Vec<Vec<u8>> = (1..=16).map(|index| data(group, 1, index)).collect();
        assert_eq!(entries, expected);
    }

    let dir = store.into_dir();
    let mut store = RaftLogStore::open(dir, &options).unwrap();
    assert_eq!(store.frozen_file_count(), 5);
    for group in 1..=4 {
        let entries = store.entries(group, 1, usize::MAX).unwrap();
        let expected: Vec<Vec<u8>> = (1..=16).map(|index| data(group, 1, index)).collect();
        assert_eq!(entries, expected);
    }

    for group in 1..=4 {
        store.compact(group, 9).unwrap();
    }
    for group in 1..=4 {
        assert!(store.entries(group, 8, usize::MAX).is_err());
        let entries = store.entries(group, 9, usize::MAX).unwrap();
        let expected: Vec<Vec<u8>> = (9..=16).map(|index| data(group, 1, index)).collect();
        assert_eq!(entries, expected);
    }

    let dir = store.into_dir();
    let store = RaftLogStore::open(dir, &options).unwrap();
    assert_eq!(store.frozen_file_count(), 6);
    for group in 1..=4 {
        assert!(store.entries(group, 8, usize::MAX).is_err());
        let entries = store.entries(group, 9, usize::MAX).unwrap();
        let expected: Vec<Vec<u8>> = (9..=16).map(|index| data(group, 1, index)).collect();
        assert_eq!(entries, expected);
    }
}

#[test]
fn store_test_kv() {
    let options = RaftLogStoreOptions {
        log_dir_path: String::new(),
        log_file_capacity: 100,
        block_cache_capacity: 1024,
    };

    let mut store = RaftLogStore::open(LogDir::new(), &options).unwrap();
    store.add_group(1).unwrap();
    store.add_group(2).unwrap();
    store.add_group(3).unwrap();
    store.add_group(4).unwrap();

    for group in 1..=4 {
        store.put(group, b"k1".to_vec(), b"v1".to_vec()).unwrap();
    }

    for group in 1..=4 {
        assert_eq!(
            store.get(group, b"k1".to_vec()).unwrap(),
            Some(b"v1".to_vec())
        );
    }

    for group in 1..=4 {
        store.put(group, b"k1".to_vec(), b"v2".to_vec()).unwrap();
    }

    for group in 1..=4 {
        assert_eq!(
            store.get(group, b"k1".to_vec()).unwrap(),
            Some(b"v2".to_vec())
        );
    }

    let dir = store.into_dir();
    let mut store = RaftLogStore::open(dir, &options).unwrap();
    for group in 1..=4 {
        assert_eq!(
            store.get(group, b"k1".to_vec()).unwrap(),
            Some(b"v2".to_vec())
        );
    }

    for group in 1..=4 {
        store.delete(group, b"k1".to_vec()).unwrap();
    }

    for group in 1..=4 {
        assert_eq!(store.get(group, b"k1".to_vec()).unwrap(), None);
    }

    let dir = store.into_dir();
    let store = RaftLogStore::open(dir, &options).unwrap();
    for group in 1..=4 {
        assert_eq!(store.get(group, b"k1".to_vec()).unwrap(), None);
    }
}
