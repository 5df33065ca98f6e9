use std::collections::BTreeMap;

use cask::cask::{CaskInner, CaskOptions, Recovery, SyncStrategy};
use cask::compaction::{select, Candidate, Compaction};
use cask::errors::Error;
use cask::file::{find_data_files, get_data_file_path, get_hint_file_path};
use cask::log::{is_valid_hint_file, Log, LogWrite, Written};

/// A directory held in memory: the content of each file by its name.
struct Dir {
    files: BTreeMap<String, Vec<u8>>,
}

impl Dir {
    fn new() -> Dir {
        Dir { files: BTreeMap::new() }
    }

    fn names(&self) -> Vec<String> {
        self.files.keys().cloned().collect()
    }

    fn data(&self, file_id: u32) -> &[u8] {
        &self.files[&get_data_file_path(file_id)]
    }

    fn hint(&self, file_id: u32) -> &[u8] {
        match self.files.get(&get_hint_file_path(file_id)) {
            Some(bytes) => bytes,
            None => &[],
        }
    }

    fn perform(&mut self, written: &Written) {
        if let Some(closed) = &written.closed {
            self.files
                .get_mut(&get_hint_file_path(closed.file_id))
                .unwrap()
                .extend_from_slice(&closed.trailer);
        }
        if let LogWrite::NewFile(file_id) = written.log_write {
            assert_eq!(file_id, written.file_id);
            assert_eq!(written.entry_pos, 0);
            self.files.insert(get_data_file_path(file_id), Vec::new());
            self.files.insert(get_hint_file_path(file_id), Vec::new());
        }
        let data = self.files.get_mut(&get_data_file_path(written.file_id)).unwrap();
        assert_eq!(data.len() as u64, written.entry_pos);
        data.extend_from_slice(&written.data);
        self.files
            .get_mut(&get_hint_file_path(written.file_id))
            .unwrap()
            .extend_from_slice(&written.hint);
    }
}

/// A store over a directory held in memory.
struct Store {
    options: CaskOptions,
    inner: CaskInner,
}

fn open(dir: &mut Dir, options: CaskOptions) -> Result<Store, Error> {
    let files = find_data_files(&dir.names());
    let log = Log::open(files, options.sync == SyncStrategy::Always, options.max_file_size);
    let mut recovery = Recovery::new();
    for file_id in log.files() {
        let hint_file = dir.hint(file_id).to_vec();
        assert!(recovery.has_room(hint_file.len()));
        if !recovery.load_hint_file(file_id, &hint_file)? {
            let data_file = dir.data(file_id).to_vec();
            assert!(recovery.has_room(data_file.len()));
            let recreated = recovery.load_data_file(file_id, &data_file);
            dir.files.insert(get_hint_file_path(file_id), recreated.hint_file);
            if let Some(failure) = recreated.failure {
                return Err(failure);
            }
        }
    }
    Ok(Store { options, inner: recovery.finish(log) })
}

fn close(dir: &mut Dir, store: Store) {
    if let Some(closed) = store.inner.close() {
        dir.files
            .get_mut(&get_hint_file_path(closed.file_id))
            .unwrap()
            .extend_from_slice(&closed.trailer);
    }
}

fn put(dir: &mut Dir, store: &mut Store, key: &[u8], value: &[u8]) -> Result<(), Error> {
    assert!(store.inner.has_room());
    let written = store.inner.put(key.to_vec(), value)?;
    dir.perform(&written);
    Ok(())
}

fn delete(dir: &mut Dir, store: &mut Store, key: &[u8]) {
    assert!(store.inner.has_room());
    if let Some(written) = store.inner.delete(key) {
        dir.perform(&written);
    }
}

fn get(dir: &Dir, store: &Store, key: &[u8]) -> Result<Option<Vec<u8>>, Error> {
    match store.inner.find(key) {
        Some(at) => {
            let data = dir.data(at.file_id);
            let from = at.entry_pos as usize;
            let to = from + at.entry_size as usize;
            CaskInner::value(&data[from..to])
        }
        None => Ok(None),
    }
}

fn compact(dir: &mut Dir, store: &mut Store) -> Result<bool, Error> {
    let active = store.inner.log().active_file_id();
    let candidates: Vec<Candidate> = store
        .inner
        .index()
        .file_stats()
        .into_iter()
        .map(|(file_id, fragmentation, dead_bytes)| Candidate {
            file_id,
            fragmentation,
            dead_bytes,
            file_size: dir
                .files
                .get(&get_data_file_path(file_id))
                .map(|data| data.len() as u64),
        })
        .collect();
    let selection = select(&candidates, active, &store.options);
    if !selection.triggered {
        return Ok(false);
    }
    let mut compaction = Compaction::new(&store.inner);
    for &file_id in &selection.files {
        let hint_file = dir.hint(file_id).to_vec();
        let data_file = dir.data(file_id).to_vec();
        let rewritten = compaction.compact_file(&mut store.inner, file_id, &hint_file, &data_file);
        for written in &rewritten.writes {
            dir.perform(written);
        }
        if let Some(failure) = rewritten.failure {
            return Err(failure);
        }
    }
    let compacted = compaction.finish(&mut store.inner);
    for written in &compacted.writes {
        dir.perform(written);
    }
    if let Some(closed) = &compacted.closed {
        dir.files
            .get_mut(&get_hint_file_path(closed.file_id))
            .unwrap()
            .extend_from_slice(&closed.trailer);
    }
    for &file_id in &compacted.new_files {
        if let Some(hints) = Log::hints(dir.hint(file_id))? {
            store.inner.apply_hints(&hints, file_id);
        }
    }
    let published = store.inner.publish(&compacted.compacted_files, &compacted.new_files);
    for &file_id in &published.removed {
        dir.files.remove(&get_data_file_path(file_id));
        dir.files.remove(&get_hint_file_path(file_id));
    }
    match published.failure {
        Some(failure) => Err(failure),
        None => Ok(true),
    }
}

fn all_files(store: &Store) -> Vec<u32> {
    let mut files = store.inner.log().files();
    if let Some(active) = store.inner.log().active_file_id() {
        files.push(active);
    }
    files
}

#[test]
fn basic_cycle() {
    let mut dir = Dir::new();
    let mut store = open(&mut dir, CaskOptions::default()).unwrap();
    assert!(put(&mut dir, &mut store, b"hello", b"world").is_ok());
    assert_eq!(get(&dir, &store, b"hello").unwrap(), Some(b"world".to_vec()));
    delete(&mut dir, &mut store, b"hello");
    assert_eq!(get(&dir, &store, b"hello").unwrap(), None);
}

#[test]
fn durability_across_reopen() {
    let mut dir = Dir::new();
    let mut store = open(&mut dir, CaskOptions::default()).unwrap();
    put(&mut dir, &mut store, b"k", b"v1").unwrap();
    put(&mut dir, &mut store, b"k", b"v2").unwrap();
    close(&mut dir, store);
    assert!(is_valid_hint_file(dir.hint(1)));

    let store = open(&mut dir, CaskOptions::default()).unwrap();
    assert_eq!(get(&dir, &store, b"k").unwrap(), Some(b"v2".to_vec()));
    assert!(store.inner.current_sequence() >= 3);
    assert_eq!(store.inner.current_sequence(), 3);
}

#[test]
fn a_store_that_was_not_closed_is_recovered_from_its_data() {
    let mut dir = Dir::new();
    let mut store = open(&mut dir, CaskOptions::default()).unwrap();
    put(&mut dir, &mut store, b"k", b"v1").unwrap();
    put(&mut dir, &mut store, b"j", b"v2").unwrap();
    delete(&mut dir, &mut store, b"k");
    // The hint file of the active segment has not been ended.
    assert!(!is_valid_hint_file(dir.hint(1)));

    let reopened = open(&mut dir, CaskOptions::default()).unwrap();
    assert!(is_valid_hint_file(dir.hint(1)));
    assert_eq!(get(&dir, &reopened, b"k").unwrap(), None);
    assert_eq!(get(&dir, &reopened, b"j").unwrap(), Some(b"v2".to_vec()));
    assert_eq!(reopened.inner.current_sequence(), 4);
    // New segments get ids above those found.
    let mut reopened = reopened;
    put(&mut dir, &mut reopened, b"i", b"v3").unwrap();
    assert_eq!(reopened.inner.log().active_file_id(), Some(2));
    assert_eq!(reopened.inner.log().files(), vec![1]);
}

#[test]
fn delete_is_durable() {
    let mut dir = Dir::new();
    let mut store = open(&mut dir, CaskOptions::default()).unwrap();
    put(&mut dir, &mut store, b"a", b"1").unwrap();
    put(&mut dir, &mut store, b"b", b"2").unwrap();
    delete(&mut dir, &mut store, b"a");
    close(&mut dir, store);

    let store = open(&mut dir, CaskOptions::default()).unwrap();
    assert_eq!(get(&dir, &store, b"a").unwrap(), None);
    assert_eq!(get(&dir, &store, b"b").unwrap(), Some(b"2".to_vec()));
    assert_eq!(store.inner.keys(), vec![b"b".to_vec()]);
}

#[test]
fn sequence_numbers_grow_with_each_mutation() {
    let mut dir = Dir::new();
    let mut store = open(&mut dir, CaskOptions::default()).unwrap();
    assert_eq!(store.inner.current_sequence(), 1);
    put(&mut dir, &mut store, b"a", b"1").unwrap();
    assert_eq!(store.inner.find(b"a").unwrap().sequence, 1);
    assert_eq!(store.inner.current_sequence(), 2);
    put(&mut dir, &mut store, b"a", b"2").unwrap();
    assert_eq!(store.inner.find(b"a").unwrap().sequence, 2);
    delete(&mut dir, &mut store, b"a");
    assert_eq!(store.inner.current_sequence(), 4);
    delete(&mut dir, &mut store, b"a");
    assert_eq!(store.inner.current_sequence(), 4);
}

#[test]
fn rotation() {
    let mut dir = Dir::new();
    let mut options = CaskOptions::default();
    options.max_file_size(4096);
    let mut store = open(&mut dir, options).unwrap();
    for i in 0..20u8 {
        let value = vec![i; 512 - 18 - 1];
        put(&mut dir, &mut store, &[i], &value).unwrap();
    }
    assert!(all_files(&store).len() >= 3);
    assert_eq!(all_files(&store), vec![1, 2, 3]);
    for i in 0..20u8 {
        assert_eq!(get(&dir, &store, &[i]).unwrap(), Some(vec![i; 512 - 18 - 1]));
    }
    for file_id in all_files(&store) {
        assert!(dir.data(file_id).len() <= 4096);
    }
}

fn key_of(i: u32) -> Vec<u8> {
    format!("k{}", i).into_bytes()
}

fn holds(haystack: &[u8], needle: &[u8]) -> bool {
    haystack.windows(needle.len()).any(|window| window == needle)
}

#[test]
fn compaction_merges() {
    let mut dir = Dir::new();
    let mut options = CaskOptions::default();
    options.max_file_size(1024);
    let mut store = open(&mut dir, options).unwrap();
    for i in 0..100 {
        put(&mut dir, &mut store, &key_of(i), b"v0").unwrap();
    }
    for i in 0..100 {
        put(&mut dir, &mut store, &key_of(i), b"v1").unwrap();
    }
    let mut keys_before = store.inner.keys();
    keys_before.sort();
    assert!(compact(&mut dir, &mut store).unwrap());
    for i in 0..100 {
        assert_eq!(get(&dir, &store, &key_of(i)).unwrap(), Some(b"v1".to_vec()));
    }
    let mut keys_after = store.inner.keys();
    keys_after.sort();
    assert_eq!(keys_before, keys_after);
    for file_id in store.inner.log().files() {
        assert!(!holds(dir.data(file_id), b"v0"));
    }
    for name in dir.names() {
        assert!(!holds(&dir.files[&name], b"v0"));
    }

    close(&mut dir, store);
    let store = open(&mut dir, options).unwrap();
    for i in 0..100 {
        assert_eq!(get(&dir, &store, &key_of(i)).unwrap(), Some(b"v1".to_vec()));
    }
}

#[test]
fn compaction_without_trigger_rewrites_nothing() {
    let mut dir = Dir::new();
    let mut store = open(&mut dir, CaskOptions::default()).unwrap();
    for i in 0..100 {
        put(&mut dir, &mut store, &key_of(i), b"v0").unwrap();
    }
    for i in 0..100 {
        put(&mut dir, &mut store, &key_of(i), b"v1").unwrap();
    }
    let names = dir.names();
    assert!(!compact(&mut dir, &mut store).unwrap());
    assert_eq!(dir.names(), names);
    for i in 0..100 {
        assert_eq!(get(&dir, &store, &key_of(i)).unwrap(), Some(b"v1".to_vec()));
    }
}

#[test]
fn compaction_keeps_deletes() {
    let mut dir = Dir::new();
    let mut options = CaskOptions::default();
    options.max_file_size(256);
    let mut store = open(&mut dir, options).unwrap();
    for i in 0..40 {
        put(&mut dir, &mut store, &key_of(i), b"some value").unwrap();
    }
    for i in 0..20 {
        delete(&mut dir, &mut store, &key_of(i));
    }
    for i in 40..60 {
        put(&mut dir, &mut store, &key_of(i), b"some value").unwrap();
    }
    assert!(compact(&mut dir, &mut store).unwrap());
    for i in 0..20 {
        assert_eq!(get(&dir, &store, &key_of(i)).unwrap(), None);
    }
    for i in 20..60 {
        assert_eq!(get(&dir, &store, &key_of(i)).unwrap(), Some(b"some value".to_vec()));
    }
    close(&mut dir, store);
    let store = open(&mut dir, options).unwrap();
    for i in 0..20 {
        assert_eq!(get(&dir, &store, &key_of(i)).unwrap(), None);
    }
    for i in 20..60 {
        assert_eq!(get(&dir, &store, &key_of(i)).unwrap(), Some(b"some value".to_vec()));
    }
    assert_eq!(store.inner.keys().len(), 40);
}

#[test]
fn hint_files_are_written_anew() {
    let mut dir = Dir::new();
    let mut store = open(&mut dir, CaskOptions::default()).unwrap();
    for i in 0..10 {
        put(&mut dir, &mut store, &key_of(i), b"value").unwrap();
    }
    close(&mut dir, store);
    let hints: Vec<String> = dir.names().into_iter().filter(|n| n.ends_with(".hint")).collect();
    assert_eq!(hints, vec!["0000000001.cask.hint".to_string()]);
    for name in &hints {
        dir.files.remove(name);
    }

    let store = open(&mut dir, CaskOptions::default()).unwrap();
    for i in 0..10 {
        assert_eq!(get(&dir, &store, &key_of(i)).unwrap(), Some(b"value".to_vec()));
    }
    assert!(is_valid_hint_file(dir.hint(1)));
    assert_eq!(Log::hints(dir.hint(1)).unwrap().unwrap().len(), 10);
    close(&mut dir, store);

    // A second opening reads the hints and comes to the same.
    let again = open(&mut dir, CaskOptions::default()).unwrap();
    let mut keys = again.inner.keys();
    keys.sort();
    let mut expected: Vec<Vec<u8>> = (0..10).map(key_of).collect();
    expected.sort();
    assert_eq!(keys, expected);
    for i in 0..10 {
        assert_eq!(get(&dir, &again, &key_of(i)).unwrap(), Some(b"value".to_vec()));
    }
}

#[test]
fn corrupt_hint_file_is_written_anew() {
    let mut dir = Dir::new();
    let mut store = open(&mut dir, CaskOptions::default()).unwrap();
    for i in 0..5 {
        put(&mut dir, &mut store, &key_of(i), b"value").unwrap();
    }
    close(&mut dir, store);
    let name = get_hint_file_path(1);
    let store = open(&mut dir, CaskOptions::default()).unwrap();
    close(&mut dir, store);
    assert!(is_valid_hint_file(&dir.files[&name]));
    dir.files.get_mut(&name).unwrap()[3] ^= 0xff;
    assert!(!is_valid_hint_file(&dir.files[&name]));

    let store = open(&mut dir, CaskOptions::default()).unwrap();
    assert!(is_valid_hint_file(&dir.files[&name]));
    for i in 0..5 {
        assert_eq!(get(&dir, &store, &key_of(i)).unwrap(), Some(b"value".to_vec()));
    }
}

#[test]
fn corrupt_record_fails_the_opening() {
    let mut dir = Dir::new();
    let mut store = open(&mut dir, CaskOptions::default()).unwrap();
    put(&mut dir, &mut store, b"key", b"value").unwrap();
    close(&mut dir, store);
    dir.files.remove(&get_hint_file_path(1));
    let name = get_data_file_path(1);
    let last = dir.files[&name].len() - 1;
    dir.files.get_mut(&name).unwrap()[last] ^= 0xff;
    assert!(matches!(
        open(&mut dir, CaskOptions::default()),
        Err(Error::InvalidChecksum { .. })
    ));
}

#[test]
fn truncated_record_fails_the_opening() {
    let mut dir = Dir::new();
    let mut store = open(&mut dir, CaskOptions::default()).unwrap();
    put(&mut dir, &mut store, b"key", b"value").unwrap();
    close(&mut dir, store);
    dir.files.remove(&get_hint_file_path(1));
    dir.files.get_mut(&get_data_file_path(1)).unwrap().pop();
    assert!(matches!(open(&mut dir, CaskOptions::default()), Err(Error::Io(_))));
}

#[test]
fn oversized_key_and_value_are_refused() {
    let mut dir = Dir::new();
    let mut store = open(&mut dir, CaskOptions::default()).unwrap();
    let key = vec![0u8; 65536];
    assert!(matches!(
        put(&mut dir, &mut store, &key, b"v"),
        Err(Error::InvalidKeySize(65536))
    ));
    assert!(dir.names().is_empty());
    assert_eq!(store.inner.current_sequence(), 1);
    assert!(store.inner.keys().is_empty());
    let key = vec![0u8; 65535];
    assert!(put(&mut dir, &mut store, &key, b"v").is_ok());
    assert_eq!(get(&dir, &store, &key).unwrap(), Some(b"v".to_vec()));
}

#[test]
fn stats_stay_consistent() {
    let mut dir = Dir::new();
    let mut options = CaskOptions::default();
    options.max_file_size(300);
    let mut store = open(&mut dir, options).unwrap();
    let check = |dir: &Dir, store: &Store| {
        for (file_id, fragmentation, dead_bytes) in store.inner.index().file_stats() {
            assert!(fragmentation.dead_entries <= fragmentation.entries);
            assert!(fragmentation.entries >= 1);
            assert!(dead_bytes <= dir.data(file_id).len() as u64);
        }
    };
    for round in 0..5u8 {
        for i in 0..30 {
            put(&mut dir, &mut store, &key_of(i), &[round; 7]).unwrap();
            check(&dir, &store);
        }
        for i in (0..30).step_by(3) {
            delete(&mut dir, &mut store, &key_of(i));
            check(&dir, &store);
        }
    }
    assert!(compact(&mut dir, &mut store).unwrap());
    check(&dir, &store);
    for i in 0..30 {
        let expected = if i % 3 == 0 { None } else { Some(vec![4u8; 7]) };
        assert_eq!(get(&dir, &store, &key_of(i)).unwrap(), expected);
    }
    close(&mut dir, store);
    let store = open(&mut dir, options).unwrap();
    check(&dir, &store);
    for i in 0..30 {
        let expected = if i % 3 == 0 { None } else { Some(vec![4u8; 7]) };
        assert_eq!(get(&dir, &store, &key_of(i)).unwrap(), expected);
    }
}

#[test]
fn test_keys() {
    let mut dir = Dir::new();
    let mut options = CaskOptions::default();
    options.compaction_check_frequency(1).max_file_size(50 * 1024 * 1024);
    let cask_result = open(&mut dir, options);

    assert!(cask_result.is_ok());

    let mut cask = cask_result.unwrap();

    let key1: &[u8] = &[0];
    let key2: &[u8] = &[1];
    let key3: &[u8] = &[2];

    let val: &[u8] = &[0];

    assert!(put(&mut dir, &mut cask, key1, val).is_ok());
    assert!(put(&mut dir, &mut cask, key2, val).is_ok());
    assert!(put(&mut dir, &mut cask, key3, val).is_ok());
    delete(&mut dir, &mut cask, key3);

    let mut keys = cask.inner.keys();

    //Keys are not guaranteed to be in order.
    keys.sort();

    assert_eq!(keys.len(), 2);

    assert_eq!(keys[0], key1);
    assert_eq!(keys[1], key2);
}
