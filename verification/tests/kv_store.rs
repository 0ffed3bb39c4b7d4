use kvs::{GenFile, KvStore};

// Should get previously stored value
#[test]
fn get_stored_value() {
    let mut store = KvStore::open(Vec::new()).unwrap();

    store.set(b"key1", b"value1").unwrap();
    store.set(b"key2", b"value2").unwrap();

    assert_eq!(store.get(b"key1").unwrap(), Some(b"value1".to_vec()));
    assert_eq!(store.get(b"key2").unwrap(), Some(b"value2".to_vec()));

    // Open from the persisted files again and check persistent data
    let store = KvStore::open(store.close()).unwrap();
    assert_eq!(store.get(b"key1").unwrap(), Some(b"value1".to_vec()));
    assert_eq!(store.get(b"key2").unwrap(), Some(b"value2".to_vec()));
}

// Should overwrite existent value
#[test]
fn overwrite_value() {
    let mut store = KvStore::open(Vec::new()).unwrap();

    store.set(b"key1", b"value1").unwrap();
    assert_eq!(store.get(b"key1").unwrap(), Some(b"value1".to_vec()));
    store.set(b"key1", b"value2").unwrap();
    assert_eq!(store.get(b"key1").unwrap(), Some(b"value2".to_vec()));

    // Open from the persisted files again and check persistent data
    let mut store = KvStore::open(store.close()).unwrap();
    assert_eq!(store.get(b"key1").unwrap(), Some(b"value2".to_vec()));
    store.set(b"key1", b"value3").unwrap();
    assert_eq!(store.get(b"key1").unwrap(), Some(b"value3".to_vec()));
}

// Should get `None` when getting a non-existent key
#[test]
fn get_non_existent_value() {
    let mut store = KvStore::open(Vec::new()).unwrap();

    store.set(b"key1", b"value1").unwrap();
    assert_eq!(store.get(b"key2").unwrap(), None);

    // Open from the persisted files again and check persistent data
    let store = KvStore::open(store.close()).unwrap();
    assert_eq!(store.get(b"key2").unwrap(), None);
}

#[test]
fn remove_non_existent_key() {
    let mut store = KvStore::open(Vec::new()).unwrap();
    assert!(store.remove(b"key1").is_err());
}

#[test]
fn remove_key() {
    let mut store = KvStore::open(Vec::new()).unwrap();
    store.set(b"key1", b"value1").unwrap();
    assert!(store.remove(b"key1").is_ok());
    assert_eq!(store.get(b"key1").unwrap(), None);
}

#[test]
fn concurrent_set() {
    let store = std::sync::Arc::new(std::sync::Mutex::new(KvStore::open(Vec::new()).unwrap()));
    let n: usize = 1000;
    let mut tasks = Vec::with_capacity(n);
    for i in 0..n {
        let store = std::sync::Arc::clone(&store);
        tasks.push(async_std::task::spawn(async move {
            store
                .lock()
                .unwrap()
                .set(format!("key{}", i).as_bytes(), format!("value{}", i).as_bytes())
                .unwrap();
        }));
    }
    for task in tasks {
        async_std::task::block_on(task);
    }

    let store = std::sync::Arc::try_unwrap(store)
        .ok()
        .unwrap()
        .into_inner()
        .unwrap();
    for i in 0..n {
        assert_eq!(
            store.get(format!("key{}", i).as_bytes()).unwrap(),
            Some(format!("value{}", i).into_bytes())
        );
    }

    // Open from the persisted files again and check persistent data
    let store = KvStore::open(store.close()).unwrap();
    for i in 0..n {
        assert_eq!(
            store.get(format!("key{}", i).as_bytes()).unwrap(),
            Some(format!("value{}", i).into_bytes())
        );
    }
}

#[test]
fn concurrent_get() {
    let mut store = KvStore::open(Vec::new()).unwrap();
    for i in 0..100usize {
        store
            .set(format!("key{}", i).as_bytes(), format!("value{}", i).as_bytes())
            .unwrap();
    }

    let store = std::sync::Arc::new(store);
    let mut tasks = Vec::with_capacity(100);
    for id in 0..100usize {
        let store = std::sync::Arc::clone(&store);
        tasks.push(async_std::task::spawn(async move {
            for i in 0..100usize {
                let key_id = (i + id) % 100;
                assert_eq!(
                    store.get(format!("key{}", key_id).as_bytes()).unwrap(),
                    Some(format!("value{}", key_id).into_bytes())
                );
            }
        }));
    }
    for task in tasks {
        async_std::task::block_on(task);
    }

    // Open from the persisted files again and check persistent data
    let store = std::sync::Arc::try_unwrap(store).ok().unwrap();
    let store = std::sync::Arc::new(KvStore::open(store.close()).unwrap());
    let mut tasks = Vec::with_capacity(100);
    for id in 0..100usize {
        let store = std::sync::Arc::clone(&store);
        tasks.push(async_std::task::spawn(async move {
            for i in 0..100usize {
                let key_id = (i + id) % 100;
                assert_eq!(
                    store.get(format!("key{}", key_id).as_bytes()).unwrap(),
                    Some(format!("value{}", key_id).into_bytes())
                );
            }
        }));
    }
    for task in tasks {
        async_std::task::block_on(task);
    }
}

// Insert data until the total size of the files decreases.
// Checks data correctness after compaction.
#[test]
fn compaction() {
    fn dir_size(store: &KvStore) -> usize {
        store.files().iter().map(|f| f.data.len()).sum()
    }

    let mut store = KvStore::open_with_limits(Vec::new(), 1024, 614).unwrap();
    let mut current_size = dir_size(&store);
    for iter in 0..1000usize {
        for key_id in 0..50usize {
            let key = format!("key{}", key_id);
            let value = format!("{}", iter);
            store.set(key.as_bytes(), value.as_bytes()).unwrap();
        }

        let new_size = dir_size(&store);
        if new_size > current_size {
            current_size = new_size;
            continue;
        }
        // Compaction triggered

        // reopen and check content
        let store = KvStore::open_with_limits(store.close(), 1024, 614).unwrap();
        for key_id in 0..50usize {
            let key = format!("key{}", key_id);
            assert_eq!(
                store.get(key.as_bytes()).unwrap(),
                Some(format!("{}", iter).into_bytes())
            );
        }
        return;
    }

    panic!("No compaction detected");
}

// An empty value is accepted, survives a reopen, and differs from absence.
#[test]
fn empty_value() {
    let mut store = KvStore::open(Vec::new()).unwrap();
    store.set(b"key1", b"").unwrap();
    assert_eq!(store.get(b"key1").unwrap(), Some(Vec::new()));
    let store = KvStore::open(store.close()).unwrap();
    assert_eq!(store.get(b"key1").unwrap(), Some(Vec::new()));
}

// A record larger than one generation file is rejected, and the store keeps
// working.
#[test]
fn oversized_value_rejected() {
    let mut store = KvStore::open_with_limits(Vec::new(), 64, 32).unwrap();
    let big = vec![7u8; 64];
    assert_eq!(
        store.set(b"key1", &big),
        Err(kvs::KvsError::ValueTooLarge)
    );
    store.set(b"key1", b"value1").unwrap();
    assert_eq!(store.get(b"key1").unwrap(), Some(b"value1".to_vec()));
}

// Files out of generation order are a configuration error; a sealed file
// that does not decode in full signals data loss.
#[test]
fn open_rejects_bad_directories() {
    let unsorted = vec![
        GenFile { gen: 3, data: Vec::new() },
        GenFile { gen: 1, data: Vec::new() },
    ];
    assert_eq!(KvStore::open(unsorted).err(), Some(kvs::KvsError::Config));

    let corrupt_sealed = vec![
        GenFile { gen: 0, data: vec![0xee, 0xee, 0xee] },
        GenFile { gen: 1, data: Vec::new() },
    ];
    assert_eq!(
        KvStore::open(corrupt_sealed).err(),
        Some(kvs::KvsError::Codec)
    );
}

// A torn tail on the active generation is treated as unwritten: acknowledged
// records before it survive, the torn one is gone.
#[test]
fn truncated_active_tail_tolerated() {
    let mut store = KvStore::open(Vec::new()).unwrap();
    store.set(b"key1", b"value1").unwrap();
    store.set(b"key2", b"value2").unwrap();
    let mut files = store.close();
    let last = files.len() - 1;
    let cut = files[last].data.len() - 3;
    files[last].data.truncate(cut);
    let store = KvStore::open(files).unwrap();
    assert_eq!(store.get(b"key1").unwrap(), Some(b"value1".to_vec()));
    assert_eq!(store.get(b"key2").unwrap(), None);
}

// Compacting one sealed generation deletes its file and keeps every value.
#[test]
fn compact_one_generation() {
    // the threshold is set out of reach, so compaction happens only when asked
    let mut store = KvStore::open_with_limits(Vec::new(), 128, 127).unwrap();
    // key1 is overwritten so generation 0 holds dead bytes; key2 stays live
    // there until compaction copies it forward.
    store.set(b"key1", b"value1").unwrap();
    store.set(b"key2", b"value2").unwrap();
    for i in 0..20usize {
        store.set(b"key1", format!("value{}", i).as_bytes()).unwrap();
    }
    let first_gen = store.files().first().unwrap().gen;
    let active_gen = store.files().last().unwrap().gen;
    assert!(first_gen < active_gen);
    let mut ops = Vec::new();
    store.compact(first_gen, &mut ops);
    assert!(store.files().iter().all(|f| f.gen != first_gen));
    assert_eq!(store.get(b"key1").unwrap(), Some(b"value19".to_vec()));
    assert_eq!(store.get(b"key2").unwrap(), Some(b"value2".to_vec()));
    // replay of the compacted files reaches the same state
    let store = KvStore::open_with_limits(store.close(), 128, 127).unwrap();
    assert_eq!(store.get(b"key1").unwrap(), Some(b"value19".to_vec()));
    assert_eq!(store.get(b"key2").unwrap(), Some(b"value2".to_vec()));
}

// A removed key stays removed across compaction and reopen: no resurrection
// from older generations.
#[test]
fn no_resurrection_after_compaction() {
    let mut store = KvStore::open_with_limits(Vec::new(), 256, 128).unwrap();
    store.set(b"key1", b"value1").unwrap();
    store.remove(b"key1").unwrap();
    // Push enough data to rotate and compact the early generations.
    for i in 0..200usize {
        store
            .set(format!("key{}", i + 2).as_bytes(), b"filler-filler-filler")
            .unwrap();
    }
    assert_eq!(store.get(b"key1").unwrap(), None);
    let store = KvStore::open_with_limits(store.close(), 256, 128).unwrap();
    assert_eq!(store.get(b"key1").unwrap(), None);
}

// The dead-byte accounting follows the record lengths exactly: an overwrite
// charges the overwritten record, a removal additionally charges its own
// tombstone.
#[test]
fn dead_bytes_follow_the_accounting() {
    let mut store = KvStore::open(Vec::new()).unwrap();
    store.set(b"key1", b"value1").unwrap();
    assert_eq!(store.dead.get(&0), None);
    store.set(b"key1", b"value2").unwrap();
    // one dead Put record: tag + two length fields + key + value
    assert_eq!(store.dead.get(&0), Some(&27));
    store.remove(b"key1").unwrap();
    // the second Put died too, and the tombstone (tag + length field + key)
    // is dead on arrival
    assert_eq!(store.dead.get(&0), Some(&(27 + 27 + 13)));
}

// A tombstone for a key no earlier record mentions replays cleanly: the key
// stays absent and the tombstone counts as dead bytes of its generation.
#[test]
fn orphan_tombstone_is_dead_on_arrival() {
    let data = kvs::record::encode_tombstone(b"key1");
    let tomb_len = data.len();
    let store = KvStore::open(vec![GenFile { gen: 0, data }]).unwrap();
    assert_eq!(store.get(b"key1").unwrap(), None);
    assert_eq!(store.dead.get(&0), Some(&tomb_len));
}
