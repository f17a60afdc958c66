use algos::error::StorageError;
use algos::storage::engine::ChunkRead;
use algos::storage::kvstore::KVStore;
use algos::storage::lsm_tree::{find_in_chunk, LSMTree, Lookup};
use rand::seq::SliceRandom;
use rand::Rng;
use std::collections::HashMap;

/// An engine together with the segments it has asked to be written, kept in
/// memory in place of a directory of files.
struct MemoryStore {
    tree: LSMTree,
    segments: Vec<Vec<u8>>,
    reads: Vec<ChunkRead>,
}

impl MemoryStore {
    fn new(memtable_max_size: usize, records_per_index: usize) -> MemoryStore {
        MemoryStore {
            tree: LSMTree::new("/tmp/rs_algos_test", memtable_max_size, records_per_index),
            segments: Vec::new(),
            reads: Vec::new(),
        }
    }

    fn lookup(&mut self, k: u64) -> Option<String> {
        match self.tree.get(&k) {
            Lookup::Found(v) => Some(v),
            Lookup::Absent => None,
            Lookup::Read(read) => {
                self.reads.push(read);
                let file = &self.segments[read.segment_num as usize];
                find_in_chunk(read.slice(file), &k).unwrap()
            }
        }
    }
}

impl KVStore<u64, String, StorageError> for MemoryStore {
    fn put(&mut self, k: u64, v: String) -> Result<(), StorageError> {
        if let Some(write) = self.tree.put(k, v)? {
            assert_eq!(write.segment_num as usize, self.segments.len());
            assert_eq!(write.path, format!("/tmp/rs_algos_test/{}", write.segment_num));
            self.segments.push(write.bytes);
            assert!(self.tree.next_segment_num() < u32::MAX);
            self.tree.complete_flush();
        }
        Ok(())
    }

    fn remove(&mut self, k: u64) -> Result<(), StorageError> {
        self.tree.remove(k);
        Ok(())
    }

    fn get(&self, k: &u64) -> Result<Option<String>, StorageError> {
        match self.tree.get(k) {
            Lookup::Found(v) => Ok(Some(v)),
            Lookup::Absent => Ok(None),
            Lookup::Read(read) => {
                let file = &self.segments[read.segment_num as usize];
                find_in_chunk(read.slice(file), k)
            }
        }
    }
}

#[test]
fn write_readback_test_random() {
    let num_test_insertions = 100000;
    let num_test_unique_keys = 100;

    let mut rng = rand::thread_rng();

    let mut lsm_tree = MemoryStore::new(num_test_insertions / 50, num_test_unique_keys / 10);

    let lorem: Vec<&str> = "Lorem ipsum dolor sit amet, consectetur adipiscing elit. Mauris risus erat, ultrices venenatis neque vitae, tincidunt lobortis augue. Morbi et dictum justo. Fusce rutrum libero non nibh dignissim eleifend. Donec viverra, diam eleifend laoreet consequat, augue dui luctus est, sit amet sodales nulla erat id neque. Aenean dignissim varius nunc id dapibus. Suspendisse sit amet nisl non felis volutpat placerat. Praesent posuere metus nec dolor scelerisque, ut vulputate sapien commodo."
        .split(" ").collect();

    let store: HashMap<u32, &str> = (0..num_test_insertions)
        .into_iter()
        .map(|_| {
            let k = rng.gen_range(1..num_test_unique_keys).try_into().unwrap();
            let v = *lorem.choose(&mut rng).unwrap();

            (k, v)
        })
        .collect();

    store.iter().for_each(|(k, v)| {
        lsm_tree.put(*k as u64, v.to_string()).unwrap();
    });

    for (k, expected_v) in store {
        let result = lsm_tree.get(&(k as u64)).unwrap();
        let expected = Some(expected_v.to_owned());

        assert_eq!(result, expected);
    }
}

#[test]
fn write_readback_test_sequential() {
    let mut lsm_tree = MemoryStore::new(101, 29);

    for i in 1..1000 {
        lsm_tree.put(i, format!("{}", i).to_string()).unwrap();
    }

    for i in 1..1000 {
        let result = lsm_tree.get(&i).unwrap();
        let expected = Some(format!("{}", i).to_string());

        assert_eq!(result, expected);
    }
}

#[test]
fn write_readback_test_sequential_reversed() {
    let mut lsm_tree = MemoryStore::new(101, 29);

    for i in 1..1000 {
        lsm_tree.put(i, format!("{}", i).to_string()).unwrap();
    }

    for i in 1000..1 {
        let result = lsm_tree.get(&i).unwrap();
        let expected = Some(format!("{}", i).to_string());

        assert_eq!(result, expected);
    }
}

#[test]
fn write_readback_fails_on_missing_key() {
    let mut lsm_tree = MemoryStore::new(10, 7);

    for i in 1..100 {
        lsm_tree.put(i, format!("{}", i).to_string()).unwrap();
    }

    for i in 101..200 {
        assert_eq!(lsm_tree.get(&i).unwrap(), None);
    }
}

#[test]
fn lookups_after_sequential_writes_read_one_chunk_each() {
    let mut store = MemoryStore::new(101, 29);
    for i in 1..1000u64 {
        store.put(i, format!("{}", i)).unwrap();
    }
    // 999 keys, 102 per flush: nine segments and 81 keys left in the memtable.
    assert_eq!(store.segments.len(), 9);
    assert_eq!(store.tree.memtable_len(), 81);
    // Each flush of 102 records makes four chunks: 29, 29, 29 and 15 records.
    assert_eq!(store.tree.index_len(), 36);
    for i in 1..1000u64 {
        assert_eq!(store.lookup(i), Some(format!("{}", i)));
    }
    assert_eq!(store.reads.len(), 918);
}

#[test]
fn a_new_engine_is_empty() {
    let tree = LSMTree::new("/data/store", 4, 2);
    assert_eq!(tree.memtable_len(), 0);
    assert_eq!(tree.index_len(), 0);
    assert_eq!(tree.next_segment_num(), 0);
    assert!(!tree.is_flushing());
    assert!(!tree.memtable_over_size());
    assert_eq!(tree.segment_path(0), "/data/store/0");
    assert_eq!(tree.segment_path(31), "/data/store/31");
    assert!(matches!(tree.get(&1), Lookup::Absent));
    assert_eq!(tree.get_from_memtable(&1), None);
    assert_eq!(tree.get_from_segments(&1), None);
}

#[test]
fn the_last_value_put_for_a_key_is_read_back() {
    let mut store = MemoryStore::new(10, 3);
    store.put(5, "first".to_string()).unwrap();
    store.put(6, "other".to_string()).unwrap();
    store.put(5, "second".to_string()).unwrap();
    assert_eq!(store.get(&5).unwrap(), Some("second".to_string()));
    assert_eq!(store.get(&6).unwrap(), Some("other".to_string()));
    assert_eq!(store.tree.memtable_len(), 2);
    assert_eq!(store.tree.get_from_memtable(&5), Some(&"second".to_string()));
    assert!(store.segments.is_empty());
}

#[test]
fn the_memtable_shadows_a_flushed_value() {
    let mut store = MemoryStore::new(2, 2);
    store.put(1, "old one".to_string()).unwrap();
    store.put(2, "old two".to_string()).unwrap();
    store.put(3, "old three".to_string()).unwrap();
    assert_eq!(store.segments.len(), 1);
    assert_eq!(store.tree.memtable_len(), 0);
    assert_eq!(store.get(&2).unwrap(), Some("old two".to_string()));
    store.put(2, "new two".to_string()).unwrap();
    assert_eq!(store.get(&2).unwrap(), Some("new two".to_string()));
    assert_eq!(store.get(&1).unwrap(), Some("old one".to_string()));
    assert_eq!(store.get(&3).unwrap(), Some("old three".to_string()));
}

#[test]
fn exceeding_the_threshold_by_one_key_flushes_once() {
    let mut tree = LSMTree::new("dir", 3, 2);
    for k in 1..=3u64 {
        assert!(tree.put(k, format!("v{}", k)).unwrap().is_none());
        assert_eq!(tree.memtable_len(), k as usize);
        assert!(!tree.memtable_over_size());
        assert!(!tree.is_flushing());
    }
    // Binding a key again does not add a key.
    assert!(tree.put(2, "again".to_string()).unwrap().is_none());
    assert_eq!(tree.memtable_len(), 3);
    let write = tree.put(4, "v4".to_string()).unwrap().unwrap();
    assert_eq!(write.segment_num, 0);
    assert_eq!(write.path, "dir/0");
    assert!(tree.is_flushing());
    assert!(tree.memtable_over_size());
    assert_eq!(tree.memtable_len(), 4);
    assert_eq!(tree.index_len(), 0);
    tree.complete_flush();
    assert!(!tree.is_flushing());
    assert_eq!(tree.memtable_len(), 0);
    assert_eq!(tree.next_segment_num(), 1);
    // Four records in chunks of two: two index entries.
    assert_eq!(tree.index_len(), 2);
    let (image, _) = algos::storage::segment::build_segment(
        &[
            (1, "v1".to_string()),
            (2, "again".to_string()),
            (3, "v3".to_string()),
            (4, "v4".to_string()),
        ],
        2,
        0,
    )
    .unwrap();
    assert_eq!(write.bytes, image);
}

#[test]
fn completing_a_flush_that_was_not_begun_changes_nothing() {
    let mut tree = LSMTree::new("dir", 3, 2);
    tree.put(1, "a".to_string()).unwrap();
    tree.complete_flush();
    assert_eq!(tree.memtable_len(), 1);
    assert_eq!(tree.index_len(), 0);
    assert_eq!(tree.next_segment_num(), 0);
    assert!(matches!(tree.get(&1), Lookup::Found(v) if v == "a"));
}

#[test]
fn a_flush_that_was_not_completed_is_laid_out_again() {
    let mut tree = LSMTree::new("dir", 1, 1);
    assert!(tree.put(1, "a".to_string()).unwrap().is_none());
    let first = tree.put(2, "b".to_string()).unwrap().unwrap();
    // The segment was not written; the next write takes everything along.
    let second = tree.put(3, "c".to_string()).unwrap().unwrap();
    assert_eq!(first.segment_num, 0);
    assert_eq!(second.segment_num, 0);
    assert_eq!(first.bytes.len() + 5, second.bytes.len());
    assert_eq!(&second.bytes[..first.bytes.len()], first.bytes.as_slice());
    tree.complete_flush();
    assert_eq!(tree.index_len(), 3);
    assert_eq!(tree.memtable_len(), 0);
}

#[test]
fn a_read_is_bounded_by_the_next_chunk_of_its_segment() {
    let mut store = MemoryStore::new(4, 2);
    for k in 1..=5u64 {
        store.put(k * 10, format!("value {}", k)).unwrap();
    }
    assert_eq!(store.segments.len(), 1);
    let file_len = store.segments[0].len() as u64;
    let first_len = algos::storage::codec::encode_chunk(&[
        (10, "value 1".to_string()),
        (20, "value 2".to_string()),
    ])
    .unwrap()
    .len() as u64;
    let second_len = algos::storage::codec::encode_chunk(&[
        (30, "value 3".to_string()),
        (40, "value 4".to_string()),
    ])
    .unwrap()
    .len() as u64;
    assert_eq!((first_len, second_len, file_len), (21, 23, 56));
    // Keys 10..29 lie in the first chunk, 30..49 in the second, 50.. in the last.
    for k in [10u64, 15, 20, 29] {
        let read = store.tree.get_from_segments(&k).unwrap();
        assert_eq!(read, ChunkRead { segment_num: 0, offset: 0, limit: Some(21) });
        assert!(read.limit.unwrap() < file_len - read.offset);
    }
    for k in [30u64, 40, 49] {
        let read = store.tree.get_from_segments(&k).unwrap();
        assert_eq!(read, ChunkRead { segment_num: 0, offset: 21, limit: Some(23) });
        assert!(read.limit.unwrap() < file_len - read.offset);
    }
    for k in [50u64, 51, u64::MAX] {
        let read = store.tree.get_from_segments(&k).unwrap();
        assert_eq!(read, ChunkRead { segment_num: 0, offset: 44, limit: None });
    }
    assert_eq!(store.tree.get_from_segments(&9), None);
    assert_eq!(store.get(&40).unwrap(), Some("value 4".to_string()));
}

#[test]
fn a_key_never_put_is_absent() {
    let mut store = MemoryStore::new(2, 2);
    // With an empty index nothing is read.
    assert!(matches!(store.tree.get(&4), Lookup::Absent));
    assert_eq!(store.get(&4).unwrap(), None);
    for k in [2u64, 6, 10] {
        store.put(k, format!("{}", k)).unwrap();
    }
    assert_eq!(store.segments.len(), 1);
    // Below the smallest indexed key nothing is read either.
    assert!(matches!(store.tree.get(&1), Lookup::Absent));
    // Between and beyond the indexed keys a chunk is read and holds no match.
    for k in [3u64, 4, 7, 11, 1000] {
        assert!(matches!(store.tree.get(&k), Lookup::Read(_)));
        assert_eq!(store.get(&k).unwrap(), None);
    }
}

#[test]
fn a_later_segment_takes_over_the_keys_between_its_chunks() {
    let mut store = MemoryStore::new(2, 2);
    for k in [1u64, 5, 9] {
        store.put(k, format!("first {}", k)).unwrap();
    }
    for k in [3u64, 4, 6] {
        store.put(k, format!("second {}", k)).unwrap();
    }
    assert_eq!(store.segments.len(), 2);
    assert_eq!(store.tree.index_len(), 4);
    // The greatest indexed key at most 5 is 3, which points into the second segment.
    assert_eq!(store.tree.get_from_segments(&5).unwrap().segment_num, 1);
    assert_eq!(store.get(&5).unwrap(), None);
    assert_eq!(store.get(&1).unwrap(), Some("first 1".to_string()));
    assert_eq!(store.get(&9).unwrap(), Some("first 9".to_string()));
    for k in [3u64, 4, 6] {
        assert_eq!(store.get(&k).unwrap(), Some(format!("second {}", k)));
    }
}

#[test]
fn a_removed_key_falls_back_to_its_flushed_value() {
    let mut store = MemoryStore::new(1, 1);
    store.put(1, "flushed".to_string()).unwrap();
    store.put(2, "also flushed".to_string()).unwrap();
    assert_eq!(store.segments.len(), 1);
    store.put(1, "fresh".to_string()).unwrap();
    store.put(3, "unflushed".to_string()).unwrap();
    assert_eq!(store.segments.len(), 2);
    store.put(3, "in memory".to_string()).unwrap();
    assert_eq!(store.get(&3).unwrap(), Some("in memory".to_string()));
    store.remove(3).unwrap();
    assert_eq!(store.get(&3).unwrap(), Some("unflushed".to_string()));
    store.remove(42).unwrap();
    assert_eq!(store.tree.memtable_len(), 0);
    store.put(7, "seven".to_string()).unwrap();
    store.remove(7).unwrap();
    assert_eq!(store.get(&7).unwrap(), None);
}

#[test]
fn removing_a_key_calls_off_a_flush_that_was_begun() {
    let mut tree = LSMTree::new("dir", 1, 1);
    tree.put(1, "a".to_string()).unwrap();
    assert!(tree.put(2, "b".to_string()).unwrap().is_some());
    assert!(tree.is_flushing());
    tree.remove(2);
    assert!(!tree.is_flushing());
    tree.complete_flush();
    assert_eq!(tree.memtable_len(), 1);
    assert_eq!(tree.next_segment_num(), 0);
}

#[test]
fn malformed_segment_data_is_a_decode_error() {
    assert_eq!(find_in_chunk(&[0x82, 0x82, 0x01], &1), Err(StorageError::Decode));
    assert_eq!(find_in_chunk(&[], &1), Err(StorageError::Decode));
    let bytes = vec![0x82, 0x82, 0x01, 0x61, 0x61, 0x82, 0x02, 0x61, 0x62];
    assert_eq!(find_in_chunk(&bytes, &2), Ok(Some("b".to_string())));
    assert_eq!(find_in_chunk(&bytes, &3), Ok(None));
}

#[test]
fn write_readback_with_repeated_keys_and_flushes() {
    let mut store = MemoryStore::new(60, 7);
    let mut latest: HashMap<u64, String> = HashMap::new();
    // Fifty keys, each bound three times while the memtable has room.
    for pass in 0..3u64 {
        for k in 0..50u64 {
            let v = format!("{}-{}", k, pass);
            store.put(k, v.clone()).unwrap();
            latest.insert(k, v);
        }
    }
    assert!(store.segments.is_empty());
    assert_eq!(store.tree.memtable_len(), 50);
    // Higher keys in ascending order, which flush what came before.
    for k in 100..300u64 {
        let v = format!("{}", k);
        store.put(k, v.clone()).unwrap();
        latest.insert(k, v);
    }
    assert_eq!(store.segments.len(), 4);
    assert_eq!(store.tree.memtable_len(), 6);
    for (k, v) in latest {
        assert_eq!(store.get(&k).unwrap(), Some(v));
    }
}

#[test]
fn write_readback_random_with_duplicates() {
    let mut rng = rand::thread_rng();
    let mut store = MemoryStore::new(2000, 10);
    let mut last: HashMap<u64, String> = HashMap::new();
    for i in 0..100000u32 {
        let k: u64 = rng.gen_range(1..=100);
        let v = format!("{}", i ^ rng.gen_range(0..1000u32));
        store.put(k, v.clone()).unwrap();
        last.insert(k, v);
    }
    assert_eq!(last.len(), 100);
    assert_eq!(store.tree.memtable_len(), 100);
    assert!(store.segments.is_empty());
    for k in 1..=100u64 {
        assert_eq!(store.get(&k).unwrap().as_ref(), last.get(&k));
    }
}

#[test]
fn write_readback_random_order_in_one_flush() {
    let mut rng = rand::thread_rng();
    let mut keys: Vec<u64> = (1..=500).collect();
    keys.shuffle(&mut rng);
    let mut store = MemoryStore::new(499, 13);
    for k in keys.iter() {
        store.put(*k, format!("value of {}", k)).unwrap();
    }
    // All five hundred keys went into one segment of 39 chunks.
    assert_eq!(store.segments.len(), 1);
    assert_eq!(store.tree.memtable_len(), 0);
    assert_eq!(store.tree.index_len(), 39);
    for k in 1..=500u64 {
        assert_eq!(store.get(&k).unwrap(), Some(format!("value of {}", k)));
    }
    assert_eq!(store.get(&0).unwrap(), None);
    assert_eq!(store.get(&501).unwrap(), None);
}
