use cask::cask::{CaskInner, Recovery};
use cask::compaction::Compaction;
use cask::data::{Entry, Hint};
use cask::errors::Error;
use cask::log::{is_valid_hint_file, Log, LogWrite, Written};
use cask::util::xxhash32;

/// The two files of a segment, filled from what writes ask for.
struct Segment {
    data: Vec<u8>,
    hint: Vec<u8>,
}

fn store(max_file_size: usize) -> CaskInner {
    Recovery::new().finish(Log::open(Vec::new(), false, max_file_size))
}

fn take(segment: &mut Segment, written: &Written) {
    assert_eq!(segment.data.len() as u64, written.entry_pos);
    segment.data.extend_from_slice(&written.data);
    segment.hint.extend_from_slice(&written.hint);
}

fn ended(segment: &Segment) -> Vec<u8> {
    let mut hint_file = segment.hint.clone();
    hint_file.extend_from_slice(&xxhash32(&segment.hint).to_le_bytes());
    hint_file
}

/// A store with one closed segment, 1, that holds `a = 1`, `b = 2`, `a = 3`, a tombstone of
/// `b`, and `c = 4`; the active segment, 2, holds `d = 5`.
fn filled() -> (CaskInner, Segment, Segment) {
    let mut inner = store(120);
    let mut first = Segment { data: Vec::new(), hint: Vec::new() };
    take(&mut first, &inner.put(b"a".to_vec(), b"1").unwrap());
    take(&mut first, &inner.put(b"b".to_vec(), b"2").unwrap());
    take(&mut first, &inner.put(b"a".to_vec(), b"3").unwrap());
    take(&mut first, &inner.delete(b"b").unwrap());
    take(&mut first, &inner.put(b"c".to_vec(), b"4").unwrap());
    assert_eq!(first.data.len(), 4 * 20 + 19);
    let written = inner.put(b"d".to_vec(), &[5u8; 30]).unwrap();
    assert_eq!(written.log_write, LogWrite::NewFile(2));
    assert_eq!(written.closed.as_ref().unwrap().trailer, xxhash32(&first.hint).to_le_bytes());
    let mut second = Segment { data: Vec::new(), hint: Vec::new() };
    take(&mut second, &written);
    (inner, first, second)
}

#[test]
fn live_records_and_tombstones_of_dead_keys_are_kept() {
    let (mut inner, first, _) = filled();
    let mut compaction = Compaction::new(&inner);
    let rewritten = compaction.compact_file(&mut inner, 1, &ended(&first), &first.data);
    assert!(rewritten.failure.is_none());
    // The live records of the segment are `a = 3` and `c = 4`.
    assert_eq!(rewritten.writes.len(), 2);
    assert_eq!(rewritten.writes[0].log_write, LogWrite::NewFile(3));
    assert_eq!(rewritten.writes[0].data, Entry::new(3, b"a", b"3").unwrap().to_bytes().unwrap());
    assert_eq!(rewritten.writes[1].log_write, LogWrite::Appended(20));
    assert_eq!(rewritten.writes[1].data, Entry::new(5, b"c", b"4").unwrap().to_bytes().unwrap());
    assert!(!rewritten.writes[0].sync);
    assert_eq!(compaction.tombstones(), 1);
    // The index is as it was, and so is the active segment.
    assert_eq!(inner.find(b"a").unwrap().file_id, 1);
    assert_eq!(inner.log().active_file_id(), Some(2));
    assert_eq!(inner.log().last_file_id(), 3);

    let compacted = compaction.finish(&mut inner);
    assert_eq!(compacted.compacted_files, vec![1]);
    assert_eq!(compacted.new_files, vec![3]);
    assert_eq!(compacted.writes.len(), 1);
    assert_eq!(compacted.writes[0].data, Entry::deleted(4, b"b").to_bytes().unwrap());
    assert_eq!(compacted.writes[0].log_write, LogWrite::Appended(40));
    let mut output = Segment { data: Vec::new(), hint: Vec::new() };
    for written in rewritten.writes.iter().chain(compacted.writes.iter()) {
        take(&mut output, written);
    }
    let closed = compacted.closed.unwrap();
    assert_eq!(closed.file_id, 3);
    assert_eq!(closed.trailer, xxhash32(&output.hint).to_le_bytes());

    // The hints of the new segment point the index at the copies.
    let hint_file = ended(&output);
    assert!(is_valid_hint_file(&hint_file));
    let hints = Log::hints(&hint_file).unwrap().unwrap();
    assert_eq!(hints.len(), 3);
    assert_eq!(hints[0], Hint::new(&Entry::new(3, b"a", b"3").unwrap(), 0));
    assert_eq!(hints[2], Hint::new(&Entry::deleted(4, b"b"), 40));
    inner.apply_hints(&hints, 3);
    let at = inner.find(b"a").unwrap();
    assert_eq!((at.file_id, at.entry_pos, at.entry_size, at.sequence), (3, 0, 20, 3));
    let at = inner.find(b"c").unwrap();
    assert_eq!((at.file_id, at.entry_pos, at.entry_size, at.sequence), (3, 20, 20, 5));
    assert_eq!(inner.find(b"b"), None);
    assert_eq!(inner.find(b"d").unwrap().file_id, 2);
    let mut keys = inner.keys();
    keys.sort();
    assert_eq!(keys, vec![b"a".to_vec(), b"c".to_vec(), b"d".to_vec()]);

    let published = inner.publish(&compacted.compacted_files, &compacted.new_files);
    assert!(published.failure.is_none());
    assert_eq!(published.removed, vec![1]);
    assert_eq!(inner.log().files(), vec![3]);
    assert_eq!(inner.index().stats().get(1), None);
    let row = inner.index().stats().get(3).unwrap();
    assert_eq!((row.entries, row.dead_entries, row.dead_bytes), (2, 0, 0));
}

#[test]
fn the_active_segment_is_left_alone() {
    let (mut inner, _, second) = filled();
    let mut compaction = Compaction::new(&inner);
    let rewritten = compaction.compact_file(&mut inner, 2, &ended(&second), &second.data);
    assert!(rewritten.failure.is_none());
    assert!(rewritten.writes.is_empty());
    let compacted = compaction.finish(&mut inner);
    assert!(compacted.compacted_files.is_empty());
    assert!(compacted.new_files.is_empty());
    assert!(compacted.writes.is_empty());
    assert!(compacted.closed.is_none());
}

#[test]
fn a_segment_without_whole_hint_file_is_left_alone() {
    let (mut inner, first, _) = filled();
    let mut compaction = Compaction::new(&inner);
    for hint_file in [Vec::new(), first.hint.clone(), vec![0u8; 3]] {
        let rewritten = compaction.compact_file(&mut inner, 1, &hint_file, &first.data);
        assert!(rewritten.failure.is_none());
        assert!(rewritten.writes.is_empty());
    }
    // Whole, but ending within a hint.
    let mut cut = first.hint[..first.hint.len() - 1].to_vec();
    let sum = xxhash32(&cut);
    cut.extend_from_slice(&sum.to_le_bytes());
    assert!(is_valid_hint_file(&cut));
    assert!(matches!(Log::hints(&cut), Err(Error::Io(_))));
    let rewritten = compaction.compact_file(&mut inner, 1, &cut, &first.data);
    assert!(rewritten.failure.is_none());
    assert!(rewritten.writes.is_empty());
    assert_eq!(compaction.tombstones(), 0);
    assert!(compaction.finish(&mut inner).compacted_files.is_empty());
}

#[test]
fn a_record_that_cannot_be_read_stops_the_rewriting() {
    let (mut inner, mut first, _) = filled();
    // The last record, `c = 4`, no longer carries its checksum.
    let last = first.data.len() - 1;
    first.data[last] ^= 1;
    let mut compaction = Compaction::new(&inner);
    let rewritten = compaction.compact_file(&mut inner, 1, &ended(&first), &first.data);
    assert!(matches!(rewritten.failure, Some(Error::InvalidChecksum { .. })));
    // What was copied before is still to be written.
    assert_eq!(rewritten.writes.len(), 1);
    assert_eq!(rewritten.writes[0].data, Entry::new(3, b"a", b"3").unwrap().to_bytes().unwrap());
    let closed = compaction.close().unwrap();
    assert_eq!(closed.file_id, 3);
    assert_eq!(closed.trailer, xxhash32(&rewritten.writes[0].hint).to_le_bytes());

    // A data file that ends early fails with an io error.
    let (mut inner, first, _) = filled();
    let mut compaction = Compaction::new(&inner);
    let rewritten = compaction.compact_file(&mut inner, 1, &ended(&first), &first.data[..50]);
    assert!(matches!(rewritten.failure, Some(Error::Io(_))));
    assert!(rewritten.writes.is_empty());
}

#[test]
fn the_newest_tombstone_of_a_key_is_kept() {
    let mut inner = store(1 << 20);
    let mut segment = Segment { data: Vec::new(), hint: Vec::new() };
    take(&mut segment, &inner.put(b"k".to_vec(), b"1").unwrap());
    take(&mut segment, &inner.delete(b"k").unwrap());
    take(&mut segment, &inner.put(b"k".to_vec(), b"2").unwrap());
    take(&mut segment, &inner.delete(b"k").unwrap());
    take(&mut segment, &inner.put(b"j".to_vec(), b"3").unwrap());
    take(&mut segment, &inner.delete(b"j").unwrap());
    // Rewritten as a closed segment of another store that knows none of the keys.
    let mut other = Recovery::new().finish(Log::open(vec![1], false, 1 << 20));
    let mut compaction = Compaction::new(&other);
    let rewritten = compaction.compact_file(&mut other, 1, &ended(&segment), &segment.data);
    assert!(rewritten.failure.is_none());
    assert!(rewritten.writes.is_empty());
    assert_eq!(compaction.tombstones(), 2);
    let compacted = compaction.finish(&mut other);
    assert_eq!(compacted.compacted_files, vec![1]);
    assert_eq!(compacted.new_files, vec![2]);
    let tombstones: Vec<Vec<u8>> = compacted.writes.iter().map(|w| w.data.clone()).collect();
    assert_eq!(
        tombstones,
        vec![
            Entry::deleted(4, b"k").to_bytes().unwrap(),
            Entry::deleted(6, b"j").to_bytes().unwrap(),
        ]
    );
}

#[test]
fn publishing_an_unknown_segment_is_refused() {
    let (mut inner, _, _) = filled();
    assert_eq!(inner.log().files(), vec![1]);
    let published = inner.publish(&[1, 7], &[9]);
    assert!(matches!(published.failure, Some(Error::InvalidFileId(7))));
    assert_eq!(published.removed, vec![1]);
    assert_eq!(inner.log().files(), Vec::<u32>::new());
    assert_eq!(inner.index().stats().get(1), None);
}

#[test]
fn the_index_is_pointed_once_the_record_is_written() {
    let mut inner = store(1 << 20);
    let written = inner.append(b"key", b"value").unwrap();
    assert_eq!(written.log_write, LogWrite::NewFile(1));
    assert_eq!(inner.find(b"key"), None);
    assert_eq!(inner.current_sequence(), 1);
    inner.point(b"key".to_vec(), &written);
    let at = inner.find(b"key").unwrap();
    assert_eq!((at.file_id, at.entry_pos, at.entry_size, at.sequence), (1, 0, 26, 1));
    assert_eq!(inner.current_sequence(), 2);
    assert_eq!(CaskInner::value(&written.data).unwrap(), Some(b"value".to_vec()));
    assert_eq!(
        CaskInner::value(&Entry::deleted(1, b"key").to_bytes().unwrap()).unwrap(),
        None
    );
    assert!(matches!(inner.append(&[0u8; 65536], b""), Err(Error::InvalidKeySize(65536))));
    assert_eq!(inner.close().unwrap().trailer, xxhash32(&written.hint).to_le_bytes());
}

#[test]
fn recovery_takes_hints_or_scans_the_data() {
    let (inner, first, second) = filled();
    let mut recovery = Recovery::new();
    assert!(recovery.has_room(first.data.len()));
    // Without a whole hint file the data file is scanned.
    assert!(!recovery.load_hint_file(1, &first.hint).unwrap());
    let recreated = recovery.load_data_file(1, &first.data);
    assert!(recreated.failure.is_none());
    assert_eq!(recreated.hint_file, ended(&first));
    assert_eq!(recovery.sequence(), 5);
    assert!(recovery.load_hint_file(2, &ended(&second)).unwrap());
    assert_eq!(recovery.sequence(), 6);
    let reopened = recovery.finish(Log::open(vec![1, 2], false, 120));
    assert_eq!(reopened.current_sequence(), 7);
    assert_eq!(reopened.current_sequence(), inner.current_sequence());
    for key in [&b"a"[..], b"b", b"c", b"d"] {
        assert_eq!(reopened.find(key), inner.find(key));
    }
    assert_eq!(reopened.log().active_file_id(), None);
    assert_eq!(reopened.log().files(), vec![1, 2]);
    for file_id in [1, 2] {
        assert_eq!(reopened.index().stats().get(file_id), inner.index().stats().get(file_id));
    }
}

#[test]
fn data_file_is_read_record_by_record() {
    let first = Entry::new(1, b"a", b"1").unwrap();
    let second = Entry::new(2, b"b", b"22").unwrap();
    let third = Entry::deleted(3, b"a");
    let mut data = Vec::new();
    first.write_bytes(&mut data).unwrap();
    second.write_bytes(&mut data).unwrap();
    third.write_bytes(&mut data).unwrap();
    data.extend_from_slice(&[0u8; 5]);
    // The second record no longer carries its checksum.
    data[20 + 20] ^= 1;

    let entries = Log::entries(&data);
    assert_eq!(entries.len(), 4);
    assert_eq!(entries[0].0, 0);
    assert_eq!(entries[0].1.as_ref().unwrap(), &first);
    assert_eq!(entries[1].0, 20);
    assert!(matches!(entries[1].1, Err(Error::InvalidChecksum { .. })));
    assert_eq!(entries[2].0, 41);
    assert_eq!(entries[2].1.as_ref().unwrap(), &third);
    assert_eq!(entries[3].0, 60);
    assert!(matches!(entries[3].1, Err(Error::Io(_))));
    assert!(Log::entries(&[]).is_empty());

    // The hint file written anew has the hints of the records that carry their checksum.
    let found = Log::recreate_hints(&data);
    assert_eq!(found.hints, vec![Hint::from(first, 0), Hint::from(third, 41)]);
    assert!(matches!(found.failure, Some(Error::InvalidChecksum { .. })));
    assert!(is_valid_hint_file(&found.hint_file));
    assert_eq!(Log::hints(&found.hint_file).unwrap().unwrap(), found.hints);
    assert_eq!(Log::read_entry(&data, 41).unwrap(), Entry::deleted(3, b"a"));
    assert!(matches!(Log::read_entry(&data, 60), Err(Error::Io(_))));
    assert!(matches!(Log::read_entry(&data, 1000), Err(Error::Io(_))));
}

#[test]
fn a_hint_file_that_ends_within_a_hint_fails_recovery() {
    let (_, first, _) = filled();
    let mut cut = first.hint[..first.hint.len() - 1].to_vec();
    let sum = xxhash32(&cut);
    cut.extend_from_slice(&sum.to_le_bytes());
    let mut recovery = Recovery::new();
    assert!(matches!(recovery.load_hint_file(1, &cut), Err(Error::Io(_))));
    // Nothing was taken from the file.
    assert_eq!(recovery.sequence(), 0);
    let reopened = recovery.finish(Log::open(vec![1], false, 120));
    assert!(reopened.keys().is_empty());
    assert_eq!(reopened.index().stats().get(1), None);

    // Nor is anything taken from a data file that holds more than records.
    let mut recovery = Recovery::new();
    let recreated = recovery.load_data_file(1, &first.data[..first.data.len() - 1]);
    assert!(matches!(recreated.failure, Some(Error::Io(_))));
    assert!(is_valid_hint_file(&recreated.hint_file));
    assert_eq!(Log::hints(&recreated.hint_file).unwrap().unwrap().len(), 4);
    assert_eq!(recovery.sequence(), 0);
    assert!(recovery.finish(Log::open(vec![1], false, 120)).keys().is_empty());
}
