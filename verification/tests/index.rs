use cask::cask::{CaskOptions, SyncStrategy};
use cask::compaction::{select, Candidate};
use cask::data::{Entry, Hint};
use cask::errors::Error;
use cask::index::Index;
use cask::log::{Log, LogWrite, LogWriter};
use cask::stats::{Fragmentation, IndexEntry, Ratio, Stats, StatsEntry};
use cask::util::Sequence;

fn at(file_id: u32, entry_pos: u64, entry_size: u64, sequence: u64) -> IndexEntry {
    IndexEntry { file_id, entry_pos, entry_size, sequence }
}

fn counts(entries: u64, dead_entries: u64, dead_bytes: u64) -> Option<StatsEntry> {
    Some(StatsEntry { entries, dead_entries, dead_bytes })
}

#[test]
fn stats_count_live_and_dead_records() {
    let mut stats = Stats::new();
    assert_eq!(stats.get(1), None);
    stats.add_entry(&at(1, 0, 20, 1));
    stats.add_entry(&at(1, 20, 30, 2));
    stats.add_entry(&at(2, 0, 40, 3));
    assert_eq!(stats.get(1), counts(2, 0, 0));
    stats.remove_entry(&at(1, 20, 30, 2));
    assert_eq!(stats.get(1), counts(2, 1, 30));
    // A segment without counts stays without.
    stats.remove_entry(&at(9, 0, 30, 2));
    assert_eq!(stats.get(9), None);
    let mut rows = stats.file_stats();
    rows.sort_by_key(|row| row.0);
    assert_eq!(
        rows,
        vec![
            (1, Fragmentation { dead_entries: 1, entries: 2 }, 30),
            (2, Fragmentation { dead_entries: 0, entries: 1 }, 0),
        ]
    );
    stats.remove_files(&[1, 5]);
    assert_eq!(stats.get(1), None);
    assert_eq!(stats.get(2), counts(1, 0, 0));
    assert!(stats.has_room(1));
    assert!(stats.has_room(1000));
    assert!(!stats.has_room(usize::MAX));
}

#[test]
fn fragmentation_is_compared_without_dividing() {
    let half = Fragmentation { dead_entries: 1, entries: 2 };
    assert!(half.at_least(&Ratio { numerator: 1, denominator: 2 }));
    assert!(half.at_least(&Ratio { numerator: 4, denominator: 10 }));
    assert!(!half.at_least(&Ratio { numerator: 6, denominator: 10 }));
    let all = Fragmentation { dead_entries: u64::MAX, entries: u64::MAX };
    assert!(all.at_least(&Ratio { numerator: u64::MAX, denominator: u64::MAX }));
    let none = Fragmentation { dead_entries: 0, entries: 5 };
    assert!(none.at_least(&Ratio { numerator: 0, denominator: 1 }));
    assert!(!none.at_least(&Ratio { numerator: 1, denominator: u64::MAX }));
}

#[test]
fn index_counts_what_it_replaces() {
    let mut index = Index::new();
    assert_eq!(index.insert(b"a".to_vec(), at(1, 0, 20, 1)), None);
    assert_eq!(index.insert(b"b".to_vec(), at(1, 20, 25, 2)), None);
    assert_eq!(index.get(b"a"), Some(at(1, 0, 20, 1)));
    assert_eq!(index.insert(b"a".to_vec(), at(2, 0, 21, 3)), Some(at(1, 0, 20, 1)));
    assert_eq!(index.get(b"a"), Some(at(2, 0, 21, 3)));
    assert_eq!(index.stats().get(1), counts(2, 1, 20));
    assert_eq!(index.stats().get(2), counts(1, 0, 0));
    assert_eq!(index.remove(b"b"), Some(at(1, 20, 25, 2)));
    assert_eq!(index.remove(b"b"), None);
    assert_eq!(index.stats().get(1), counts(2, 2, 45));
    assert_eq!(index.len(), 1);
    assert_eq!(index.keys(), vec![b"a".to_vec()]);
    index.remove_files(&[1]);
    assert_eq!(index.stats().get(1), None);
    assert_eq!(index.get(b"a"), Some(at(2, 0, 21, 3)));
}

fn hint(key: &[u8], sequence: u64, entry_pos: u64, value_size: u32, deleted: bool) -> Hint {
    Hint { key: key.to_vec(), entry_pos, value_size, sequence, deleted }
}

#[test]
fn index_is_reconciled_with_hints() {
    let mut index = Index::new();
    // Absent key, tombstone: nothing.
    index.update(hint(b"k", 5, 0, 0, true), 1);
    assert_eq!(index.get(b"k"), None);
    assert_eq!(index.stats().get(1), None);
    // Absent key, record: inserted as live.
    index.update(hint(b"k", 5, 19, 3, false), 1);
    assert_eq!(index.get(b"k"), Some(at(1, 19, 22, 5)));
    assert_eq!(index.stats().get(1), counts(1, 0, 0));
    // Present key, older hint: stale, counted and counted as dead.
    index.update(hint(b"k", 4, 0, 7, false), 2);
    assert_eq!(index.get(b"k"), Some(at(1, 19, 22, 5)));
    assert_eq!(index.stats().get(2), counts(1, 1, 26));
    // Present key, hint of the same sequence number: replaces.
    index.update(hint(b"k", 5, 0, 3, false), 3);
    assert_eq!(index.get(b"k"), Some(at(3, 0, 22, 5)));
    assert_eq!(index.stats().get(1), counts(1, 1, 22));
    assert_eq!(index.stats().get(3), counts(1, 0, 0));
    // Present key, newer tombstone: removes.
    index.update(hint(b"k", 6, 22, 0, true), 3);
    assert_eq!(index.get(b"k"), None);
    assert_eq!(index.stats().get(3), counts(1, 1, 22));
    // A tombstone older than the live record is stale too.
    index.update(hint(b"j", 9, 0, 1, false), 4);
    index.update(hint(b"j", 8, 0, 0, true), 5);
    assert_eq!(index.get(b"j"), Some(at(4, 0, 20, 9)));
    assert_eq!(index.stats().get(5), counts(1, 1, 19));
}

#[test]
fn writer_opens_a_segment_before_the_size_is_exceeded() {
    let mut ids = Sequence::new(10);
    let mut writer = LogWriter::new(true, 100);
    assert_eq!(writer.active_file_id(), None);
    assert!(writer.close().is_none());
    let entry = Entry::new(1, b"key", &[0u8; 19]).unwrap();
    assert_eq!(entry.size(), 40);

    let first = writer.write(&entry, &mut ids);
    assert_eq!(first.log_write, LogWrite::NewFile(11));
    assert_eq!((first.file_id, first.entry_pos), (11, 0));
    assert!(first.closed.is_none());
    assert!(first.sync);
    assert_eq!(first.data, entry.to_bytes().unwrap());
    let mut hint_bytes = Vec::new();
    Hint::new(&entry, 0).write_bytes(&mut hint_bytes).unwrap();
    assert_eq!(first.hint, hint_bytes);

    let second = writer.write(&entry, &mut ids);
    assert_eq!(second.log_write, LogWrite::Appended(40));
    assert_eq!((second.file_id, second.entry_pos), (11, 40));
    let mut second_hint = Vec::new();
    Hint::new(&entry, 40).write_bytes(&mut second_hint).unwrap();
    assert_eq!(second.hint, second_hint);

    // 80 + 40 is more than 100: a new segment.
    let third = writer.write(&entry, &mut ids);
    assert_eq!(third.log_write, LogWrite::NewFile(12));
    let closed = third.closed.unwrap();
    assert_eq!(closed.file_id, 11);
    let mut both = hint_bytes.clone();
    both.extend_from_slice(&second_hint);
    assert_eq!(closed.trailer, cask::util::xxhash32(&both).to_le_bytes().to_vec());
    assert_eq!(ids.current(), 12);
    assert_eq!(writer.active_file_id(), Some(12));
    assert_eq!(
        writer.close().unwrap().trailer,
        cask::util::xxhash32(&hint_bytes).to_le_bytes().to_vec()
    );
}

#[test]
fn writer_fills_a_segment_to_the_brim() {
    let mut ids = Sequence::new(0);
    let mut writer = LogWriter::new(false, 80);
    let entry = Entry::new(1, b"key", &[0u8; 19]).unwrap();
    assert_eq!(writer.write(&entry, &mut ids).log_write, LogWrite::NewFile(1));
    // 40 + 40 is not more than 80.
    assert_eq!(writer.write(&entry, &mut ids).log_write, LogWrite::Appended(40));
    assert_eq!(writer.write(&entry, &mut ids).log_write, LogWrite::NewFile(2));
    // A record larger than a segment gets a segment of its own.
    let large = Entry::new(2, b"key", &[0u8; 200]).unwrap();
    assert_eq!(writer.write(&large, &mut ids).log_write, LogWrite::NewFile(3));
    assert_eq!(writer.write(&entry, &mut ids).log_write, LogWrite::NewFile(4));
}

#[test]
fn log_lists_closed_segments_in_ascending_order() {
    let mut log = Log::open(vec![2, 5, 9], false, 64);
    assert_eq!(log.files(), vec![2, 5, 9]);
    assert_eq!(log.active_file_id(), None);
    assert_eq!(log.last_file_id(), 9);
    assert!(log.close().is_none());
    let entry = Entry::new(1, b"key", &[0u8; 19]).unwrap();
    let written = log.append_entry(&entry);
    assert_eq!(written.log_write, LogWrite::NewFile(10));
    assert_eq!(log.active_file_id(), Some(10));
    assert_eq!(log.files(), vec![2, 5, 9]);
    let written = log.append_entry(&entry);
    assert_eq!(written.log_write, LogWrite::NewFile(11));
    assert_eq!(log.files(), vec![2, 5, 9, 10]);

    // A writer of the log's making takes its ids from the log.
    let mut writer = log.writer();
    let written = log.write_with(&mut writer, &entry);
    assert_eq!(written.log_write, LogWrite::NewFile(12));
    assert!(!written.sync);
    assert_eq!(log.active_file_id(), Some(11));
    assert_eq!(log.files(), vec![2, 5, 9, 10]);
    let written = log.append_entry(&entry);
    assert_eq!(written.log_write, LogWrite::NewFile(13));
    assert_eq!(log.files(), vec![2, 5, 9, 10, 11]);

    assert!(log.swap_files(&[5, 2], &[12, 1]).is_ok());
    assert_eq!(log.files(), vec![1, 9, 10, 11, 12]);
    assert_eq!(Log::open(vec![], false, 64).last_file_id(), 0);
}

#[test]
fn swapping_an_unknown_segment_is_refused() {
    let mut log = Log::open(vec![2, 5, 9], false, 64);
    assert!(matches!(log.swap_files(&[5, 7, 9], &[12]), Err(Error::InvalidFileId(7))));
    // Those before it stay out, and nothing joins.
    assert_eq!(log.files(), vec![2, 9]);
    assert!(matches!(log.swap_files(&[2, 2], &[]), Err(Error::InvalidFileId(2))));
    assert_eq!(log.files(), vec![9]);
}

fn candidate(file_id: u32, dead_entries: u64, entries: u64, dead_bytes: u64, size: u64) -> Candidate {
    Candidate {
        file_id,
        fragmentation: Fragmentation { dead_entries, entries },
        dead_bytes,
        file_size: Some(size),
    }
}

const LARGE: u64 = 1 << 30;

#[test]
fn nothing_is_picked_without_a_trigger() {
    let options = CaskOptions::default();
    // Half dead: worth rewriting, but no trigger.
    let candidates = vec![candidate(1, 5, 10, 0, LARGE), candidate(2, 0, 10, 0, LARGE)];
    let selection = select(&candidates, None, &options);
    assert!(!selection.triggered);
    assert_eq!(selection.files, vec![1]);
}

#[test]
fn a_trigger_picks_what_is_worth_rewriting() {
    let options = CaskOptions::default();
    let candidates = vec![
        candidate(9, 4, 10, 0, LARGE),
        candidate(3, 6, 10, 0, LARGE),
        candidate(7, 0, 10, 0, LARGE),
        candidate(5, 0, 10, 128 * 1024 * 1024, LARGE),
        candidate(4, 0, 10, 0, 10 * 1024 * 1024),
        candidate(6, 0, 10, 0, 10 * 1024 * 1024 + 1),
        candidate(8, 3, 10, 128 * 1024 * 1024 - 1, LARGE),
    ];
    let selection = select(&candidates, None, &options);
    assert!(selection.triggered);
    assert_eq!(selection.files, vec![3, 4, 5, 9]);
    // The active segment neither triggers nor is picked.
    let selection = select(&candidates, Some(3), &options);
    assert!(!selection.triggered);
    assert_eq!(selection.files, vec![4, 5, 9]);
}

#[test]
fn dead_bytes_trigger_too() {
    let options = CaskOptions::default();
    let candidates = vec![candidate(1, 0, 10, 512 * 1024 * 1024, LARGE)];
    let selection = select(&candidates, None, &options);
    assert!(selection.triggered);
    assert_eq!(selection.files, vec![1]);
    let candidates = vec![candidate(1, 0, 10, 512 * 1024 * 1024 - 1, LARGE)];
    assert!(!select(&candidates, None, &options).triggered);
}

#[test]
fn only_the_first_trigger_is_picked_for_triggering() {
    let mut options = CaskOptions::default();
    options
        .fragmentation_trigger(Ratio { numerator: 2, denominator: 10 })
        .fragmentation_threshold(Ratio { numerator: 4, denominator: 10 });
    // Both reach the trigger, neither the threshold.
    let candidates = vec![candidate(2, 3, 10, 0, LARGE), candidate(1, 3, 10, 0, LARGE)];
    let selection = select(&candidates, None, &options);
    assert!(selection.triggered);
    assert_eq!(selection.files, vec![2]);
    let candidates = vec![candidate(1, 3, 10, 0, LARGE), candidate(2, 3, 10, 0, LARGE)];
    assert_eq!(select(&candidates, None, &options).files, vec![1]);
}

#[test]
fn unknown_file_size_is_not_small() {
    let options = CaskOptions::default();
    let mut unknown = candidate(1, 0, 10, 0, 0);
    unknown.file_size = None;
    let candidates = vec![unknown, candidate(2, 10, 10, 0, LARGE)];
    let selection = select(&candidates, None, &options);
    assert!(selection.triggered);
    assert_eq!(selection.files, vec![2]);
}

#[test]
fn options_default_and_chain() {
    let options = CaskOptions::default();
    assert!(options.create);
    assert_eq!(options.sync, SyncStrategy::Interval(1000));
    assert_eq!(options.max_file_size, 2 * 1024 * 1024 * 1024);
    assert_eq!(options.file_pool_size, 2048);
    assert!(options.compaction);
    assert_eq!(options.compaction_check_frequency, 3600);
    assert_eq!(options.compaction_window, (0, 23));
    assert_eq!(options.fragmentation_trigger, Ratio { numerator: 6, denominator: 10 });
    assert_eq!(options.dead_bytes_trigger, 512 * 1024 * 1024);
    assert_eq!(options.fragmentation_threshold, Ratio { numerator: 4, denominator: 10 });
    assert_eq!(options.dead_bytes_threshold, 128 * 1024 * 1024);
    assert_eq!(options.small_file_threshold, 10 * 1024 * 1024);
    assert_eq!(CaskOptions::new(), options);

    let mut changed = CaskOptions::new();
    changed
        .sync(SyncStrategy::Always)
        .max_file_size(1)
        .file_pool_size(2)
        .compaction(false)
        .create(false)
        .compaction_check_frequency(3)
        .compaction_window(22, 4)
        .fragmentation_trigger(Ratio { numerator: 1, denominator: 2 })
        .dead_bytes_trigger(5)
        .fragmentation_threshold(Ratio { numerator: 1, denominator: 3 })
        .dead_bytes_threshold(6)
        .small_file_threshold(7);
    assert_eq!(
        changed,
        CaskOptions {
            create: false,
            sync: SyncStrategy::Always,
            max_file_size: 1,
            file_pool_size: 2,
            compaction: false,
            compaction_check_frequency: 3,
            compaction_window: (22, 4),
            fragmentation_trigger: Ratio { numerator: 1, denominator: 2 },
            dead_bytes_trigger: 5,
            fragmentation_threshold: Ratio { numerator: 1, denominator: 3 },
            dead_bytes_threshold: 6,
            small_file_threshold: 7,
        }
    );
}

#[test]
fn compaction_window_may_wrap_around_midnight() {
    let mut options = CaskOptions::default();
    for hour in 0..24 {
        assert!(options.in_compaction_window(hour));
    }
    options.compaction_window(9, 17);
    assert!(!options.in_compaction_window(8));
    assert!(options.in_compaction_window(9));
    assert!(options.in_compaction_window(17));
    assert!(!options.in_compaction_window(18));
    options.compaction_window(22, 4);
    assert!(options.in_compaction_window(22));
    assert!(options.in_compaction_window(23));
    assert!(options.in_compaction_window(0));
    assert!(options.in_compaction_window(4));
    assert!(!options.in_compaction_window(5));
    assert!(!options.in_compaction_window(21));
}
