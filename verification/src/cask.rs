//! The store: its configuration, its state, and what each operation does to that state.
//!
//! The store's state is the index, the log and the next sequence number. An operation that
//! writes returns what is to be appended to which file; an operation that reads is handed
//! the bytes that were read.

use crate::bytes::Reader;
use crate::data::{
    decode_entry, Decoded, Entry, EntryModel, Hint, HintModel, SequenceNumber, MAX_ENTRY_SIZE,
    MAX_KEY_SIZE, MAX_VALUE_SIZE,
};
use crate::errors::{Error, Result};
use crate::index::{
    key_views, lemma_roomy_insert, lemma_roomy_remove, lemma_roomy_update, Index, IndexModel,
};
use crate::log::{
    decode_hints, first_missing, hint_file_bytes, hint_views, lemma_decode_hints,
    lemma_scan_hints, scan_failure, scan_hints, valid_hint_file, written_as, Log, LogModel,
    LogWriter, Written,
};
use crate::stats::{stats_roomy, IndexEntry, Ratio};
use vstd::prelude::*;

verus! {

/// Strategy used to synchronize writes to disk.
#[derive(Debug, Clone, Copy, PartialEq, Eq, Structural)]
pub enum SyncStrategy {
    /// Never explicitly synchronize writes (the OS manages it).
    Never,
    /// Always synchronize writes.
    Always,
    /// Synchronize writes in the background every `n` milliseconds.
    Interval(usize),
}

/// The configuration of a store: it controls how the store is opened, when it synchronises
/// its writes, how large its segments grow, and when compaction runs and on what.
#[derive(Debug, Clone, Copy, PartialEq, Eq)]
pub struct CaskOptions {
    pub create: bool,
    pub sync: SyncStrategy,
    pub max_file_size: usize,
    pub file_pool_size: usize,
    pub compaction: bool,
    pub compaction_check_frequency: u64,
    pub compaction_window: (usize, usize),
    pub fragmentation_trigger: Ratio,
    pub dead_bytes_trigger: u64,
    pub fragmentation_threshold: Ratio,
    pub dead_bytes_threshold: u64,
    pub small_file_threshold: u64,
}

/// The configuration that a store has where nothing else is asked for.
pub open spec fn default_options() -> CaskOptions {
    CaskOptions {
        create: true,
        sync: SyncStrategy::Interval(1000),
        max_file_size: 0x8000_0000,
        file_pool_size: 2048,
        compaction: true,
        compaction_check_frequency: 3600,
        compaction_window: (0, 23),
        fragmentation_trigger: Ratio { numerator: 6, denominator: 10 },
        dead_bytes_trigger: 0x2000_0000,
        fragmentation_threshold: Ratio { numerator: 4, denominator: 10 },
        dead_bytes_threshold: 0x800_0000,
        small_file_threshold: 0xA0_0000,
    }
}

/// The hour `hour` of the day lies in the window from `start` to `end`, both included. A
/// window whose start is later than its end wraps around midnight.
pub open spec fn in_window(window: (usize, usize), hour: usize) -> bool {
    if window.0 <= window.1 {
        window.0 <= hour <= window.1
    } else {
        hour >= window.0 || hour <= window.1
    }
}

impl Default for CaskOptions {
    fn default() -> (options: CaskOptions)
        ensures
            options == default_options(),
    {
        CaskOptions {
            create: true,
            sync: SyncStrategy::Interval(1000),
            max_file_size: 2 * 1024 * 1024 * 1024,
            file_pool_size: 2048,
            compaction: true,
            compaction_check_frequency: 3600,
            compaction_window: (0, 23),
            fragmentation_trigger: Ratio { numerator: 6, denominator: 10 },
            dead_bytes_trigger: 512 * 1024 * 1024,
            fragmentation_threshold: Ratio { numerator: 4, denominator: 10 },
            dead_bytes_threshold: 128 * 1024 * 1024,
            small_file_threshold: 10 * 1024 * 1024,
        }
    }
}

impl CaskOptions {
    /// Generates the base configuration for opening a store, from which configuration
    /// methods can be chained.
    pub fn new() -> (options: CaskOptions)
        ensures
            options == default_options(),
    {
        CaskOptions::default()
    }

    /// Sets the strategy used to synchronize writes to disk. Defaults to
    /// `SyncStrategy::Interval(1000)`.
    pub fn sync(&mut self, sync: SyncStrategy) -> (options: &mut CaskOptions)
        ensures
            *options == (CaskOptions { sync, ..*old(self) }),
            *final(self) == *final(options),
    {
        self.sync = sync;
        self
    }

    /// Sets the maximum file size. Defaults to `2GB`.
    pub fn max_file_size(&mut self, max_file_size: usize) -> (options: &mut CaskOptions)
        ensures
            *options == (CaskOptions { max_file_size, ..*old(self) }),
            *final(self) == *final(options),
    {
        self.max_file_size = max_file_size;
        self
    }

    /// Sets the maximum size of the file descriptor cache. Defaults to `2048`.
    pub fn file_pool_size(&mut self, file_pool_size: usize) -> (options: &mut CaskOptions)
        ensures
            *options == (CaskOptions { file_pool_size, ..*old(self) }),
            *final(self) == *final(options),
    {
        self.file_pool_size = file_pool_size;
        self
    }

    /// Enable or disable background compaction. Defaults to `true`.
    pub fn compaction(&mut self, compaction: bool) -> (options: &mut CaskOptions)
        ensures
            *options == (CaskOptions { compaction, ..*old(self) }),
            *final(self) == *final(options),
    {
        self.compaction = compaction;
        self
    }

    /// Create the store if it doesn't exist. Defaults to `true`.
    pub fn create(&mut self, create: bool) -> (options: &mut CaskOptions)
        ensures
            *options == (CaskOptions { create, ..*old(self) }),
            *final(self) == *final(options),
    {
        self.create = create;
        self
    }

    /// Sets the frequency of compaction, in seconds. Defaults to `3600`.
    pub fn compaction_check_frequency(&mut self, compaction_check_frequency: u64) -> (options: &mut CaskOptions)
        ensures
            *options == (CaskOptions { compaction_check_frequency, ..*old(self) }),
            *final(self) == *final(options),
    {
        self.compaction_check_frequency = compaction_check_frequency;
        self
    }

    /// Sets the time window during which compaction can run. Defaults to `[0, 23]`.
    pub fn compaction_window(&mut self, start: usize, end: usize) -> (options: &mut CaskOptions)
        ensures
            *options == (CaskOptions { compaction_window: (start, end), ..*old(self) }),
            *final(self) == *final(options),
    {
        self.compaction_window = (start, end);
        self
    }

    /// Sets the ratio of dead entries to total entries in a file that will trigger compaction.
    /// Defaults to `6/10`.
    pub fn fragmentation_trigger(&mut self, fragmentation_trigger: Ratio) -> (options: &mut CaskOptions)
        ensures
            *options == (CaskOptions { fragmentation_trigger, ..*old(self) }),
            *final(self) == *final(options),
    {
        self.fragmentation_trigger = fragmentation_trigger;
        self
    }

    /// Sets the minimum amount of data occupied by dead entries in a single file that will trigger
    /// compaction. Defaults to `512MB`.
    pub fn dead_bytes_trigger(&mut self, dead_bytes_trigger: u64) -> (options: &mut CaskOptions)
        ensures
            *options == (CaskOptions { dead_bytes_trigger, ..*old(self) }),
            *final(self) == *final(options),
    {
        self.dead_bytes_trigger = dead_bytes_trigger;
        self
    }

    /// Sets the ratio of dead entries to total entries in a file that will cause it to be included
    /// in a compaction. Defaults to `4/10`.
    pub fn fragmentation_threshold(&mut self, fragmentation_threshold: Ratio) -> (options: &mut CaskOptions)
        ensures
            *options == (CaskOptions { fragmentation_threshold, ..*old(self) }),
            *final(self) == *final(options),
    {
        self.fragmentation_threshold = fragmentation_threshold;
        self
    }

    /// Sets the minimum amount of data occupied by dead entries in a single file that will cause it
    /// to be included in a compaction. Defaults to `128MB`.
    pub fn dead_bytes_threshold(&mut self, dead_bytes_threshold: u64) -> (options: &mut CaskOptions)
        ensures
            *options == (CaskOptions { dead_bytes_threshold, ..*old(self) }),
            *final(self) == *final(options),
    {
        self.dead_bytes_threshold = dead_bytes_threshold;
        self
    }

    /// Sets the minimum size a file must have to be excluded from compaction. Defaults to `10MB`.
    pub fn small_file_threshold(&mut self, small_file_threshold: u64) -> (options: &mut CaskOptions)
        ensures
            *options == (CaskOptions { small_file_threshold, ..*old(self) }),
            *final(self) == *final(options),
    {
        self.small_file_threshold = small_file_threshold;
        self
    }

    /// Whether compaction may run at the hour `hour` of the day.
    pub fn in_compaction_window(&self, hour: usize) -> (inside: bool)
        ensures
            inside == in_window(self.compaction_window, hour),
    {
        let (start, end) = self.compaction_window;
        if start <= end {
            start <= hour && hour <= end
        } else {
            hour >= start || hour <= end
        }
    }
}

/// The state of the store, as mathematical values.
pub struct CaskModel {
    /// The sequence number that the next mutation gets.
    pub current_sequence: SequenceNumber,
    pub index: IndexModel,
    pub log: LogModel,
}

impl CaskModel {
    /// The state is in order: the log is, and the index holds only keys and sizes that the
    /// formats allow.
    pub open spec fn wf(self) -> bool {
        &&& self.log.wf()
        &&& self.index.sizes_fit()
    }

    /// The counters have room for one more mutation: a sequence number and a segment id are
    /// left, and the statistics can count one more change.
    pub open spec fn has_room(self) -> bool {
        &&& self.current_sequence < u64::MAX
        &&& self.log.last_file_id < u32::MAX
        &&& stats_roomy(self.index.stats, 1)
    }

    /// The record that sets `key` to `value`.
    pub open spec fn put_entry(self, key: Seq<u8>, value: Seq<u8>) -> EntryModel {
        EntryModel { key, value, sequence: self.current_sequence, deleted: false }
    }

    /// The record that deletes `key`.
    pub open spec fn tombstone(self, key: Seq<u8>) -> EntryModel {
        EntryModel { key, value: Seq::empty(), sequence: self.current_sequence, deleted: true }
    }

    /// Where the log places the record `entry`.
    pub open spec fn location(self, entry: EntryModel) -> IndexEntry {
        IndexEntry {
            file_id: self.log.log_writer.target(entry.size(), self.log.next_file_id()),
            entry_pos: self.log.log_writer.position(entry.size()),
            entry_size: entry.size() as u64,
            sequence: entry.sequence,
        }
    }

    /// The state after `key` has been set to `value`: the record is appended to the log, the
    /// index points `key` at it, and the sequence number moves on.
    pub open spec fn put(self, key: Seq<u8>, value: Seq<u8>) -> CaskModel {
        let entry = self.put_entry(key, value);
        CaskModel {
            current_sequence: (self.current_sequence + 1) as u64,
            index: self.index.insert(key, self.location(entry)),
            log: self.log.append(entry),
        }
    }

    /// The state after `key` has been deleted. Where the key is live, it leaves the index,
    /// a tombstone is appended to the log and the sequence number moves on; else nothing
    /// changes.
    pub open spec fn delete(self, key: Seq<u8>) -> CaskModel {
        if self.index.map.contains_key(key) {
            CaskModel {
                current_sequence: (self.current_sequence + 1) as u64,
                index: self.index.remove(key),
                log: self.log.append(self.tombstone(key)),
            }
        } else {
            self
        }
    }

    /// The state after the hints `hints` of the segment `file_id` have been reconciled with
    /// the index, one after the other.
    pub open spec fn apply_hints(self, hints: Seq<HintModel>, file_id: u32) -> CaskModel {
        CaskModel { index: replay(self.index, hints, file_id), ..self }
    }

    /// The state after a compaction has replaced the segments `compacted_files` by
    /// `new_files`: the counts of the former are dropped, and the log's list is changed.
    pub open spec fn publish(self, compacted_files: Seq<u32>, new_files: Seq<u32>) -> CaskModel {
        CaskModel {
            index: self.index.remove_files(compacted_files.to_set()),
            log: self.log.swap_files(compacted_files, new_files),
            ..self
        }
    }
}

/// The index after the hints `hints` of the segment `file_id` have been reconciled with it,
/// one after the other.
pub open spec fn replay(index: IndexModel, hints: Seq<HintModel>, file_id: u32) -> IndexModel
    decreases hints.len(),
{
    if hints.len() == 0 {
        index
    } else {
        replay(index, hints.drop_last(), file_id).update(hints.last(), file_id)
    }
}

/// The largest of `sequence` and the sequence numbers of `hints`.
pub open spec fn max_sequence(sequence: SequenceNumber, hints: Seq<HintModel>) -> SequenceNumber
    decreases hints.len(),
{
    if hints.len() == 0 {
        sequence
    } else {
        let before = max_sequence(sequence, hints.drop_last());
        if hints.last().sequence > before {
            hints.last().sequence
        } else {
            before
        }
    }
}

/// What the record read from `record` gives as the value of its key: nothing where the
/// record is a tombstone.
pub open spec fn value_of(record: Seq<u8>) -> Option<Seq<u8>> {
    match decode_entry(record) {
        Decoded::Item(entry, _) => if entry.deleted {
            None
        } else {
            Some(entry.value)
        },
        _ => None,
    }
}

/// The keys of all `hints` are within the size bound.
pub open spec fn keys_fit(hints: Seq<HintModel>) -> bool {
    forall|i: int| 0 <= i < hints.len() ==> (#[trigger] hints[i]).key.len() <= MAX_KEY_SIZE
}

/// Reconciles `index` with the hints `hints` of the segment `file_id`, one after the
/// other, and returns the largest of `sequence` and their sequence numbers.
pub fn apply_hints(index: &mut Index, hints: &Vec<Hint>, file_id: u32, sequence: SequenceNumber) -> (largest:
    SequenceNumber)
    requires
        old(index).wf(),
        old(index)@.sizes_fit(),
        keys_fit(hint_views(hints@)),
        stats_roomy(old(index)@.stats, hints@.len()),
    ensures
        final(index).wf(),
        final(index)@.sizes_fit(),
        final(index)@ == replay(old(index)@, hint_views(hints@), file_id),
        largest == max_sequence(sequence, hint_views(hints@)),
{
    let mut largest = sequence;
    let mut i: usize = 0;
    let ghost all = hint_views(hints@);
    assert(all.subrange(0, 0) =~= Seq::<HintModel>::empty());
    while i < hints.len()
        invariant
            i <= hints@.len(),
            all == hint_views(hints@),
            keys_fit(all),
            index.wf(),
            index@.sizes_fit(),
            stats_roomy(index@.stats, (hints@.len() - i) as nat),
            index@ == replay(old(index)@, all.subrange(0, i as int), file_id),
            largest == max_sequence(sequence, all.subrange(0, i as int)),
        decreases hints@.len() - i,
    {
        let hint = &hints[i];
        proof {
            assert(all[i as int] == hint@);
            assert(all.subrange(0, i + 1).drop_last() =~= all.subrange(0, i as int));
            assert(all.subrange(0, i + 1).last() == hint@);
            lemma_roomy_update(index@, hint@, file_id, (hints@.len() - i) as nat);
        }
        if hint.sequence > largest {
            largest = hint.sequence;
        }
        index.update_from_hint(hint, file_id);
        i += 1;
    }
    assert(all.subrange(0, all.len() as int) =~= all);
    largest
}

/// What ending a compaction has come to.
pub struct Published {
    /// The segments that have left the log's list: their files are to be removed.
    pub removed: Vec<u32>,
    /// What stopped the work, if anything.
    pub failure: Option<Error>,
}

/// The state of the store: the next sequence number, the index and the log.
pub struct CaskInner {
    current_sequence: SequenceNumber,
    index: Index,
    log: Log,
}

impl View for CaskInner {
    type V = CaskModel;

    closed spec fn view(&self) -> CaskModel {
        CaskModel { current_sequence: self.current_sequence, index: self.index@, log: self.log@ }
    }
}

impl CaskInner {
    /// The store is in order: its parts are, and so is its state.
    pub closed spec fn wf(&self) -> bool {
        &&& self.index.wf()
        &&& self.log.wf()
        &&& self@.wf()
    }

    /// A store that is in order has a state that is in order, with finitely many keys.
    pub proof fn lemma_wf(&self)
        requires
            self.wf(),
        ensures
            self@.wf(),
            self@.index.map.dom().finite(),
    {
        self.index.lemma_key_list();
    }

    /// The store over `log` with the index `index`, whose next mutation gets the sequence
    /// number after `sequence`.
    pub fn new(log: Log, index: Index, sequence: SequenceNumber) -> (inner: CaskInner)
        requires
            log.wf(),
            index.wf(),
            index@.sizes_fit(),
            sequence < u64::MAX,
        ensures
            inner.wf(),
            inner@ == (CaskModel {
                current_sequence: (sequence + 1) as u64,
                index: index@,
                log: log@,
            }),
    {
        proof {
            log.lemma_wf();
        }
        CaskInner { current_sequence: sequence + 1, index, log }
    }

    /// The sequence number that the next mutation gets.
    pub fn current_sequence(&self) -> (sequence: SequenceNumber)
        ensures
            sequence == self@.current_sequence,
    {
        self.current_sequence
    }

    /// The index.
    pub fn index(&self) -> (index: &Index)
        requires
            self.wf(),
        ensures
            index.wf(),
            index@ == self@.index,
    {
        &self.index
    }

    /// The log.
    pub fn log(&self) -> (log: &Log)
        requires
            self.wf(),
        ensures
            log.wf(),
            log@ == self@.log,
    {
        &self.log
    }

    /// What ends the hint file of the active segment, if there is one. This is what
    /// remains to be written when the store is let go.
    pub fn close(&self) -> (closed: Option<crate::log::ClosedFile>)
        ensures
            match closed {
                Some(c) => self@.log.log_writer.closes() == Some((c.file_id, c.trailer@)),
                None => self@.log.log_writer.closes() is None,
            },
    {
        self.log.close()
    }

    /// Whether the counters have room for one more mutation.
    pub fn has_room(&self) -> (roomy: bool)
        requires
            self.wf(),
        ensures
            roomy == self@.has_room(),
    {
        self.current_sequence < u64::MAX && self.log.last_file_id() < u32::MAX
            && self.index.stats().has_room(1)
    }

    /// Where the latest record of `key` lies, if the key is live.
    pub fn find(&self, key: &[u8]) -> (entry: Option<IndexEntry>)
        requires
            self.wf(),
        ensures
            entry == self@.index.map.get(key@),
    {
        self.index.get(key)
    }

    /// The value that the record read from `record` gives for its key: nothing where the
    /// record is a tombstone. Fails as reading the record does.
    pub fn value(record: &[u8]) -> (result: Result<Option<Vec<u8>>>)
        ensures
            match decode_entry(record@) {
                Decoded::Item(entry, _) => match result {
                    Ok(Some(value)) => !entry.deleted && value@ == entry.value,
                    Ok(None) => entry.deleted,
                    Err(_) => false,
                },
                Decoded::Short => result matches Err(Error::Io(_)),
                Decoded::Corrupt { expected, found, .. } => result == Err::<
                    Option<Vec<u8>>,
                    Error,
                >(Error::InvalidChecksum { expected, found }),
            },
    {
        let mut reader = Reader::new(record);
        match Entry::from_read(&mut reader) {
            Ok(entry) => {
                if entry.deleted {
                    Ok(None)
                } else {
                    Ok(Some(entry.value))
                }
            },
            Err(e) => Err(e),
        }
    }

    /// The first half of setting `key` to `value`. Fails, changing nothing, where either is
    /// larger than the format allows. Else appends the record to the log and returns what
    /// is to be written to the files; the index and the sequence number stay as they are
    /// until `point` is called, which the caller does once the files are written.
    pub fn append(&mut self, key: &[u8], value: &[u8]) -> (result: Result<Written>)
        requires
            old(self).wf(),
            old(self)@.log.last_file_id < u32::MAX,
        ensures
            final(self).wf(),
            match result {
                Ok(written) => {
                    &&& key@.len() <= MAX_KEY_SIZE
                    &&& value@.len() <= MAX_VALUE_SIZE
                    &&& final(self)@ == (CaskModel {
                        log: old(self)@.log.append(old(self)@.put_entry(key@, value@)),
                        ..old(self)@
                    })
                    &&& written_as(
                        written,
                        old(self)@.log.log_writer,
                        old(self)@.put_entry(key@, value@),
                        old(self)@.log.next_file_id(),
                    )
                },
                Err(Error::InvalidKeySize(size)) => {
                    &&& key@.len() > MAX_KEY_SIZE
                    &&& size == key@.len()
                    &&& final(self)@ == old(self)@
                },
                Err(Error::InvalidValueSize(size)) => {
                    &&& key@.len() <= MAX_KEY_SIZE
                    &&& value@.len() > MAX_VALUE_SIZE
                    &&& size == value@.len()
                    &&& final(self)@ == old(self)@
                },
                Err(_) => false,
            },
    {
        let entry = match Entry::new(self.current_sequence, key, value) {
            Ok(entry) => entry,
            Err(e) => {
                return Err(e);
            },
        };
        let written = self.log.append_entry(&entry);
        proof {
            self.log.lemma_wf();
        }
        Ok(written)
    }

    /// The second half of setting a key to a value: points the index at the record of `key`
    /// that `written`, which `append` has returned, stands for, and moves the sequence
    /// number on.
    pub fn point(&mut self, key: Vec<u8>, written: &Written)
        requires
            old(self).wf(),
            old(self)@.current_sequence < u64::MAX,
            stats_roomy(old(self)@.index.stats, 1),
            key@.len() <= MAX_KEY_SIZE,
            written.data@.len() <= MAX_ENTRY_SIZE,
        ensures
            final(self).wf(),
            final(self)@ == (CaskModel {
                current_sequence: (old(self)@.current_sequence + 1) as u64,
                index: old(self)@.index.insert(
                    key@,
                    IndexEntry {
                        file_id: written.file_id,
                        entry_pos: written.entry_pos,
                        entry_size: written.data@.len() as u64,
                        sequence: old(self)@.current_sequence,
                    },
                ),
                ..old(self)@
            }),
    {
        let index_entry = IndexEntry {
            file_id: written.file_id,
            entry_pos: written.entry_pos,
            entry_size: written.data.len() as u64,
            sequence: self.current_sequence,
        };
        proof {
            lemma_roomy_insert(old(self)@.index, key@, index_entry, 1);
        }
        self.current_sequence = self.current_sequence + 1;
        self.index.insert(key, index_entry);
    }

    /// Sets `key` to `value`. Fails, changing nothing, where either is larger than the
    /// format allows. Else appends the record to the log, points the index at it and
    /// returns what is to be written to the files.
    pub fn put(&mut self, key: Vec<u8>, value: &[u8]) -> (result: Result<Written>)
        requires
            old(self).wf(),
            old(self)@.has_room(),
        ensures
            final(self).wf(),
            match result {
                Ok(written) => {
                    &&& key@.len() <= MAX_KEY_SIZE
                    &&& value@.len() <= MAX_VALUE_SIZE
                    &&& final(self)@ == old(self)@.put(key@, value@)
                    &&& written_as(
                        written,
                        old(self)@.log.log_writer,
                        old(self)@.put_entry(key@, value@),
                        old(self)@.log.next_file_id(),
                    )
                },
                Err(Error::InvalidKeySize(size)) => {
                    &&& key@.len() > MAX_KEY_SIZE
                    &&& size == key@.len()
                    &&& final(self)@ == old(self)@
                },
                Err(Error::InvalidValueSize(size)) => {
                    &&& key@.len() <= MAX_KEY_SIZE
                    &&& value@.len() > MAX_VALUE_SIZE
                    &&& size == value@.len()
                    &&& final(self)@ == old(self)@
                },
                Err(_) => false,
            },
    {
        let written = match self.append(key.as_slice(), value) {
            Ok(written) => written,
            Err(e) => {
                return Err(e);
            },
        };
        proof {
            crate::data::lemma_entry_layout(old(self)@.put_entry(key@, value@), Seq::empty());
        }
        self.point(key, &written);
        Ok(written)
    }

    /// Deletes `key`. Where the key is live, takes it out of the index, appends a tombstone
    /// to the log and returns what is to be written to the files; else does nothing.
    pub fn delete(&mut self, key: &[u8]) -> (result: Option<Written>)
        requires
            old(self).wf(),
            old(self)@.has_room(),
        ensures
            final(self).wf(),
            final(self)@ == old(self)@.delete(key@),
            match result {
                Some(written) => old(self)@.index.map.contains_key(key@) && written_as(
                    written,
                    old(self)@.log.log_writer,
                    old(self)@.tombstone(key@),
                    old(self)@.log.next_file_id(),
                ),
                None => !old(self)@.index.map.contains_key(key@),
            },
    {
        proof {
            lemma_roomy_remove(old(self)@.index, key@, 1);
        }
        if self.index.remove(key).is_some() {
            let entry = Entry::deleted(self.current_sequence, key);
            let written = self.log.append_entry(&entry);
            proof {
                self.log.lemma_wf();
            }
            self.current_sequence = self.current_sequence + 1;
            Some(written)
        } else {
            assert(self@.index =~= old(self)@.index);
            None
        }
    }

    /// A copy of every live key, each once.
    pub fn keys(&self) -> (keys: Vec<Vec<u8>>)
        requires
            self.wf(),
        ensures
            key_views(keys@).no_duplicates(),
            key_views(keys@).to_set() == self@.index.map.dom(),
    {
        self.index.keys()
    }

    /// Places `entry` through `writer`, a writer of the log's making that is not the log's
    /// own, naming any new segment with the log's next id.
    pub fn write_with(&mut self, writer: &mut LogWriter, entry: &Entry) -> (written: Written)
        requires
            entry@.wf(),
            old(self).wf(),
            old(writer)@.wf(),
            old(writer)@.rotates(entry@.size()) ==> old(self)@.log.last_file_id < u32::MAX,
        ensures
            final(self).wf(),
            final(writer)@.wf(),
            written_as(written, old(writer)@, entry@, old(self)@.log.next_file_id()),
            final(writer)@ == old(writer)@.write(entry@, old(self)@.log.next_file_id()),
            final(self)@ == (CaskModel {
                log: LogModel {
                    last_file_id: old(self)@.log.last_file_id_after(old(writer)@, entry@.size()),
                    ..old(self)@.log
                },
                ..old(self)@
            }),
    {
        let written = self.log.write_with(writer, entry);
        proof {
            self.log.lemma_wf();
        }
        written
    }

    /// Reconciles the index with the hints `hints` of the segment `file_id`, one after the
    /// other.
    pub fn apply_hints(&mut self, hints: &Vec<Hint>, file_id: u32)
        requires
            old(self).wf(),
            keys_fit(hint_views(hints@)),
            stats_roomy(old(self)@.index.stats, hints@.len()),
        ensures
            final(self).wf(),
            final(self)@ == old(self)@.apply_hints(hint_views(hints@), file_id),
    {
        apply_hints(&mut self.index, hints, file_id, 0);
    }

    /// Ends a compaction that has rewritten the segments `compacted_files` into
    /// `new_files`: drops the counts of the former, then replaces them in the log's list
    /// by the latter. Fails with `InvalidFileId` for the first of `compacted_files` that
    /// the log does not list. Returns the segments that have left the list, whose files are
    /// to be removed, beside the failure.
    pub fn publish(&mut self, compacted_files: &[u32], new_files: &[u32]) -> (published: Published)
        requires
            old(self).wf(),
        ensures
            final(self).wf(),
            final(self)@ == old(self)@.publish(compacted_files@, new_files@),
            ({
                let missing = first_missing(old(self)@.log.files, compacted_files@);
                &&& 0 <= missing <= compacted_files@.len()
                &&& published.removed@ == compacted_files@.subrange(0, missing)
                &&& if missing == compacted_files@.len() {
                    published.failure is None
                } else {
                    published.failure == Some(Error::InvalidFileId(compacted_files@[missing]))
                }
            }),
    {
        self.index.remove_files(compacted_files);
        let taken = self.log.take_out(compacted_files);
        let removed = vstd::slice::slice_to_vec(
            vstd::slice::slice_subrange(compacted_files, 0, taken),
        );
        let failure = if taken < compacted_files.len() {
            Some(Error::InvalidFileId(compacted_files[taken]))
        } else {
            self.log.add_files(new_files);
            None
        };
        proof {
            self.log.lemma_wf();
        }
        Published { removed, failure }
    }
}

/// What recovery has gathered so far, as mathematical values.
pub struct RecoveryModel {
    pub index: IndexModel,
    /// The largest sequence number seen.
    pub sequence: SequenceNumber,
}

impl RecoveryModel {
    /// What recovery has gathered after the hints `hints` of the segment `file_id`.
    pub open spec fn load(self, hints: Seq<HintModel>, file_id: u32) -> RecoveryModel {
        RecoveryModel {
            index: replay(self.index, hints, file_id),
            sequence: max_sequence(self.sequence, hints),
        }
    }
}

/// What came of reading a data file during recovery.
pub struct Recreated {
    /// The content of the segment's new hint file.
    pub hint_file: Vec<u8>,
    /// The first failure met in the data file, if any. Where there is one, recovery has
    /// taken nothing from the file.
    pub failure: Option<Error>,
}

/// Recovery: rebuilds the index from the segments of a store, one after the other in
/// ascending order.
pub struct Recovery {
    index: Index,
    sequence: SequenceNumber,
}

impl View for Recovery {
    type V = RecoveryModel;

    closed spec fn view(&self) -> RecoveryModel {
        RecoveryModel { index: self.index@, sequence: self.sequence }
    }
}

impl Recovery {
    /// What recovery has gathered is in order.
    pub closed spec fn wf(&self) -> bool {
        &&& self.index.wf()
        &&& self.index@.sizes_fit()
    }

    /// Recovery before any segment has been read.
    pub fn new() -> (recovery: Recovery)
        ensures
            recovery.wf(),
            recovery@ == (RecoveryModel { index: IndexModel::empty(), sequence: 0 }),
    {
        Recovery { index: Index::new(), sequence: 0 }
    }

    /// The largest sequence number seen.
    pub fn sequence(&self) -> (sequence: SequenceNumber)
        ensures
            sequence == self@.sequence,
    {
        self.sequence
    }

    /// Whether the statistics have room for `records` more hints.
    pub fn has_room(&self, records: usize) -> (roomy: bool)
        ensures
            roomy == stats_roomy(self@.index.stats, records as nat),
    {
        self.index.stats().has_room(records)
    }

    /// Takes the hints of the segment `file_id` from the content `hint_file` of its hint
    /// file. Where the file is not whole, takes nothing and returns `false`: the hints are
    /// to be had from the data file. Where it is whole but ends within a hint, fails with
    /// `Io`, having taken nothing.
    pub fn load_hint_file(&mut self, file_id: u32, hint_file: &[u8]) -> (result: Result<bool>)
        requires
            old(self).wf(),
            stats_roomy(old(self)@.index.stats, hint_file@.len()),
        ensures
            final(self).wf(),
            match result {
                Ok(true) => {
                    &&& valid_hint_file(hint_file@)
                    &&& decode_hints(hint_file@.subrange(0, hint_file@.len() - 4)) matches Some(
                        hints,
                    )
                    &&& final(self)@ == old(self)@.load(hints, file_id)
                },
                Ok(false) => !valid_hint_file(hint_file@) && final(self)@ == old(self)@,
                Err(e) => {
                    &&& valid_hint_file(hint_file@)
                    &&& decode_hints(hint_file@.subrange(0, hint_file@.len() - 4)) is None
                    &&& e is Io
                    &&& final(self)@ == old(self)@
                },
            },
    {
        match Log::hints(hint_file) {
            Ok(Some(hints)) => {
                proof {
                    lemma_decode_hints(hint_file@.subrange(0, hint_file@.len() - 4));
                    lemma_roomy_less(old(self)@.index.stats, hint_file@.len(), hints@.len());
                }
                self.sequence = apply_hints(&mut self.index, &hints, file_id, self.sequence);
                Ok(true)
            },
            Ok(None) => Ok(false),
            Err(e) => Err(e),
        }
    }

    /// Takes the hints of the segment `file_id` from the content `data_file` of its data
    /// file, and returns the content of its hint file written anew. Where something in
    /// the data file is no whole record carrying its checksum, takes nothing and returns
    /// that failure beside the hint file.
    pub fn load_data_file(&mut self, file_id: u32, data_file: &[u8]) -> (recreated: Recreated)
        requires
            old(self).wf(),
            stats_roomy(old(self)@.index.stats, data_file@.len()),
        ensures
            final(self).wf(),
            recreated.hint_file@ == hint_file_bytes(scan_hints(data_file@, 0)),
            match scan_failure(data_file@) {
                None => {
                    &&& recreated.failure is None
                    &&& final(self)@ == old(self)@.load(scan_hints(data_file@, 0), file_id)
                },
                Some(Decoded::Corrupt { expected, found, .. }) => {
                    &&& recreated.failure == Some(Error::InvalidChecksum { expected, found })
                    &&& final(self)@ == old(self)@
                },
                Some(_) => {
                    &&& recreated.failure matches Some(Error::Io(_))
                    &&& final(self)@ == old(self)@
                },
            },
    {
        let found = Log::recreate_hints(data_file);
        if found.failure.is_none() {
            proof {
                lemma_scan_hints(data_file@, 0);
                lemma_roomy_less(old(self)@.index.stats, data_file@.len(), found.hints@.len());
            }
            self.sequence = apply_hints(&mut self.index, &found.hints, file_id, self.sequence);
        }
        Recreated { hint_file: found.hint_file, failure: found.failure }
    }

    /// Ends recovery: the store over `log` with the index gathered, whose next mutation
    /// gets the sequence number after the largest seen.
    pub fn finish(self, log: Log) -> (inner: CaskInner)
        requires
            self.wf(),
            log.wf(),
            self@.sequence < u64::MAX,
        ensures
            inner.wf(),
            inner@ == (CaskModel {
                current_sequence: (self@.sequence + 1) as u64,
                index: self@.index,
                log: log@,
            }),
    {
        CaskInner::new(log, self.index, self.sequence)
    }
}

/// Counts with room for some changes have room for fewer.
pub proof fn lemma_roomy_less(stats: crate::stats::StatsModel, records: nat, fewer: nat)
    requires
        stats_roomy(stats, records),
        fewer <= records,
    ensures
        stats_roomy(stats, fewer),
{
    assert(fewer * MAX_ENTRY_SIZE <= records * MAX_ENTRY_SIZE) by (nonlinear_arith)
        requires
            fewer <= records,
    ;
}

} // verus!
