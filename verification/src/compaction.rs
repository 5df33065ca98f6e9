//! Compaction: which segments to rewrite, and what to keep of them.

use crate::cask::{CaskInner, CaskOptions};
use crate::data::{
    decode_entry, lemma_decoded_entry, Decoded, Entry, EntryModel, Hint, HintModel,
    SequenceNumber, MAX_KEY_SIZE,
};
use crate::errors::Error;
use crate::index::{pair_views, Index, KeyMap};
use crate::log::{
    decode_hints, hint_views, lemma_decode_hints, valid_hint_file, written_as, ClosedFile, Log,
    LogWrite, LogWriter, LogWriterModel, Written,
};
use crate::stats::{Fragmentation, IndexEntry};
use vstd::prelude::*;

verus! {

/// What is known of a closed segment when segments are picked for compaction.
#[derive(Debug, Clone, Copy, PartialEq, Eq)]
pub struct Candidate {
    pub file_id: u32,
    /// The share of the segment's records that are dead.
    pub fragmentation: Fragmentation,
    /// The bytes that the dead records take.
    pub dead_bytes: u64,
    /// The size of the segment's data file, where it could be had.
    pub file_size: Option<u64>,
}

impl Candidate {
    /// The segment is the active one, which compaction leaves alone.
    pub open spec fn skipped(self, active_file_id: Option<u32>) -> bool {
        active_file_id == Some(self.file_id)
    }

    /// The segment is bad enough to set a compaction off: its share of dead records or its
    /// dead bytes reach the trigger.
    pub open spec fn triggers(self, options: CaskOptions) -> bool {
        ||| self.fragmentation.reaches(options.fragmentation_trigger)
        ||| self.dead_bytes >= options.dead_bytes_trigger
    }

    /// The segment is worth rewriting once a compaction runs: its share of dead records or
    /// its dead bytes reach the threshold, or its data file is small.
    pub open spec fn included(self, options: CaskOptions) -> bool {
        ||| self.fragmentation.reaches(options.fragmentation_threshold)
        ||| self.dead_bytes >= options.dead_bytes_threshold
        ||| (self.file_size matches Some(size) && size <= options.small_file_threshold)
    }
}

/// Some segment before place `n` of `candidates` sets a compaction off.
pub open spec fn triggered_before(
    candidates: Seq<Candidate>,
    active_file_id: Option<u32>,
    options: CaskOptions,
    n: int,
) -> bool {
    exists|i: int|
        0 <= i < n && i < candidates.len() && !(#[trigger] candidates[i]).skipped(active_file_id)
            && candidates[i].triggers(options)
}

/// The segment at place `i` of `candidates` is picked: it is not the active one, and it is
/// worth rewriting or is the first that sets the compaction off.
pub open spec fn picked(
    candidates: Seq<Candidate>,
    active_file_id: Option<u32>,
    options: CaskOptions,
    i: int,
) -> bool {
    &&& 0 <= i < candidates.len()
    &&& !candidates[i].skipped(active_file_id)
    &&& {
        ||| candidates[i].included(options)
        ||| candidates[i].triggers(options) && !triggered_before(
            candidates,
            active_file_id,
            options,
            i,
        )
    }
}

/// The segments picked among the first `n` of `candidates`.
pub open spec fn picked_files(
    candidates: Seq<Candidate>,
    active_file_id: Option<u32>,
    options: CaskOptions,
    n: int,
) -> Set<u32> {
    Set::new(
        |file_id: u32|
            exists|i: int|
                0 <= i < n && picked(candidates, active_file_id, options, i) && (
                #[trigger] candidates[i]).file_id == file_id,
    )
}

/// The list is in strictly ascending order.
pub open spec fn strictly_sorted(files: Seq<u32>) -> bool {
    forall|i: int, j: int| 0 <= i < j < files.len() ==> files[i] < files[j]
}

/// The segments picked for a compaction, and whether the compaction is to run.
#[derive(Debug, PartialEq, Eq)]
pub struct Selection {
    /// Some segment has set the compaction off. Without that, nothing is rewritten.
    pub triggered: bool,
    /// The segments picked, in ascending order.
    pub files: Vec<u32>,
}

/// Adds `file_id` to the strictly ascending list `files` unless it is there.
pub fn insert_unique(files: &mut Vec<u32>, file_id: u32)
    requires
        strictly_sorted(old(files)@),
    ensures
        strictly_sorted(final(files)@),
        final(files)@.to_set() == old(files)@.to_set().insert(file_id),
{
    let mut i: usize = 0;
    while i < files.len() && files[i] < file_id
        invariant
            i <= files@.len(),
            files@ == old(files)@,
            forall|j: int| 0 <= j < i ==> files@[j] < file_id,
        decreases files@.len() - i,
    {
        i += 1;
    }
    let ghost before = old(files)@;
    if i < files.len() && files[i] == file_id {
        proof {
            assert(before.to_set().insert(file_id) =~= before.to_set());
        }
    } else {
        files.insert(i, file_id);
        proof {
            assert forall|a: int, b: int| 0 <= a < b < files@.len() implies files@[a] < files@[b] by {
                if a < i && b > i {
                    assert(before[a] < file_id);
                    assert(before[i as int] <= before[b - 1]) by {
                        if i < b - 1 {
                            assert(before[i as int] < before[b - 1]);
                        }
                    }
                } else if a > i {
                    assert(before[a - 1] < before[b - 1]);
                } else if b < i {
                    assert(before[a] < before[b]);
                } else if a == i && b > i {
                    if i < b - 1 {
                        assert(before[i as int] < before[b - 1]);
                    }
                }
            }
            assert forall|f: u32| files@.to_set().contains(f) <==> before.to_set().insert(
                file_id,
            ).contains(f) by {
                if files@.to_set().contains(f) {
                    let j = choose|j: int| 0 <= j < files@.len() && files@[j] == f;
                    if j < i {
                        assert(before[j] == f);
                    } else if j > i {
                        assert(before[j - 1] == f);
                    }
                }
                if before.to_set().contains(f) {
                    let j = choose|j: int| 0 <= j < before.len() && before[j] == f;
                    if j < i {
                        assert(files@[j] == f);
                    } else {
                        assert(files@[j + 1] == f);
                    }
                }
                if f == file_id {
                    assert(files@[i as int] == f);
                }
            }
            assert(files@.to_set() =~= before.to_set().insert(file_id));
        }
    }
}

/// Picks the segments to rewrite among `candidates`, walking them in their order. The
/// active segment is never picked. A segment that sets the compaction off is picked if it
/// is the first to do so; every segment worth rewriting is picked, whether or not the
/// compaction has been set off by then.
pub fn select(candidates: &Vec<Candidate>, active_file_id: Option<u32>, options: &CaskOptions) -> (selection:
    Selection)
    ensures
        selection.triggered == triggered_before(
            candidates@,
            active_file_id,
            *options,
            candidates@.len() as int,
        ),
        strictly_sorted(selection.files@),
        selection.files@.to_set() == picked_files(
            candidates@,
            active_file_id,
            *options,
            candidates@.len() as int,
        ),
{
    let mut files: Vec<u32> = Vec::new();
    let mut triggered = false;
    let mut i: usize = 0;
    proof {
        assert(files@.to_set() =~= picked_files(candidates@, active_file_id, *options, 0));
    }
    while i < candidates.len()
        invariant
            i <= candidates@.len(),
            triggered == triggered_before(candidates@, active_file_id, *options, i as int),
            strictly_sorted(files@),
            files@.to_set() == picked_files(candidates@, active_file_id, *options, i as int),
        decreases candidates@.len() - i,
    {
        let candidate = &candidates[i];
        let ghost before = files@.to_set();
        let skipped = match active_file_id {
            Some(active) => active == candidate.file_id,
            None => false,
        };
        let mut pick = false;
        let mut fired = false;
        if !skipped {
            if !triggered {
                if candidate.fragmentation.at_least(&options.fragmentation_trigger) {
                    fired = true;
                } else if candidate.dead_bytes >= options.dead_bytes_trigger {
                    fired = true;
                }
            }
            if fired {
                pick = true;
            } else if candidate.fragmentation.at_least(&options.fragmentation_threshold) {
                pick = true;
            } else if candidate.dead_bytes >= options.dead_bytes_threshold {
                pick = true;
            } else if let Some(file_size) = candidate.file_size {
                if file_size <= options.small_file_threshold {
                    pick = true;
                }
            }
        }
        proof {
            let n = i as int;
            assert(pick == picked(candidates@, active_file_id, *options, n));
            let after_trigger = triggered || fired;
            assert(after_trigger == triggered_before(candidates@, active_file_id, *options, n + 1))
                by {
                if triggered_before(candidates@, active_file_id, *options, n + 1) {
                    let w = choose|w: int|
                        0 <= w < n + 1 && w < candidates@.len() && !(#[trigger] candidates@[w]).skipped(
                            active_file_id,
                        ) && candidates@[w].triggers(*options);
                    if w < n {
                        assert(triggered_before(candidates@, active_file_id, *options, n));
                    }
                }
                if triggered {
                    let w = choose|w: int|
                        0 <= w < n && w < candidates@.len() && !(#[trigger] candidates@[w]).skipped(
                            active_file_id,
                        ) && candidates@[w].triggers(*options);
                    assert(0 <= w < n + 1);
                }
                if fired {
                    assert(!candidates@[n].skipped(active_file_id) && candidates@[n].triggers(
                        *options,
                    ));
                }
            }
            let grown = if pick {
                before.insert(candidate.file_id)
            } else {
                before
            };
            assert forall|f: u32| grown.contains(f) <==> picked_files(
                candidates@,
                active_file_id,
                *options,
                n + 1,
            ).contains(f) by {
                if picked_files(candidates@, active_file_id, *options, n + 1).contains(f) {
                    let w = choose|w: int|
                        0 <= w < n + 1 && picked(candidates@, active_file_id, *options, w) && (
                        #[trigger] candidates@[w]).file_id == f;
                    if w < n {
                        assert(picked_files(candidates@, active_file_id, *options, n).contains(f));
                    }
                }
                if before.contains(f) {
                    let w = choose|w: int|
                        0 <= w < n && picked(candidates@, active_file_id, *options, w) && (
                        #[trigger] candidates@[w]).file_id == f;
                    assert(0 <= w < n + 1);
                }
                if pick && f == candidate.file_id {
                    assert(candidates@[n].file_id == f);
                }
            }
            assert(grown =~= picked_files(candidates@, active_file_id, *options, n + 1));
        }
        if fired {
            triggered = true;
        }
        if pick {
            insert_unique(&mut files, candidate.file_id);
        }
        i += 1;
    }
    Selection { triggered, files }
}

/// The record of `hint` is the live one of its key: the index points the key at a record
/// of the hint's sequence number.
pub open spec fn is_live(index: Map<Seq<u8>, IndexEntry>, hint: HintModel) -> bool {
    &&& !hint.deleted
    &&& index.contains_key(hint.key)
    &&& index[hint.key].sequence == hint.sequence
}

/// The tombstone `hint` is to be kept: its key is not live.
pub open spec fn is_carried(index: Map<Seq<u8>, IndexEntry>, hint: HintModel) -> bool {
    hint.deleted && !index.contains_key(hint.key)
}

/// The positions of the live records among those of `hints`, in their order.
pub open spec fn live_positions(index: Map<Seq<u8>, IndexEntry>, hints: Seq<HintModel>) -> Seq<
    u64,
>
    decreases hints.len(),
{
    if hints.len() == 0 {
        Seq::empty()
    } else {
        let before = live_positions(index, hints.drop_last());
        if is_live(index, hints.last()) {
            before.push(hints.last().entry_pos)
        } else {
            before
        }
    }
}

/// The tombstones to keep after those among `hints` have been noted: for each key that is
/// not live, the largest sequence number of its tombstones.
pub open spec fn carry(
    deletes: Map<Seq<u8>, SequenceNumber>,
    index: Map<Seq<u8>, IndexEntry>,
    hints: Seq<HintModel>,
) -> Map<Seq<u8>, SequenceNumber>
    decreases hints.len(),
{
    if hints.len() == 0 {
        deletes
    } else {
        let before = carry(deletes, index, hints.drop_last());
        let hint = hints.last();
        if is_carried(index, hint) && !(before.contains_key(hint.key) && before[hint.key]
            >= hint.sequence) {
            before.insert(hint.key, hint.sequence)
        } else {
            before
        }
    }
}

/// What lies at position `pos` of the data file content `data`.
pub open spec fn record_at(data: Seq<u8>, pos: u64) -> Decoded<EntryModel> {
    decode_entry(
        if pos <= data.len() {
            data.subrange(pos as int, data.len() as int)
        } else {
            Seq::empty()
        },
    )
}

/// The first of `positions` at which `data` holds no whole record carrying its checksum,
/// as what is found there.
pub open spec fn copy_failure(data: Seq<u8>, positions: Seq<u64>) -> Option<Decoded<EntryModel>>
    decreases positions.len(),
{
    if positions.len() == 0 {
        None
    } else {
        match copy_failure(data, positions.drop_last()) {
            Some(failure) => Some(failure),
            None => match record_at(data, positions.last()) {
                Decoded::Item(_, _) => None,
                failure => Some(failure),
            },
        }
    }
}

/// The records that `data` holds at `positions`, up to the first failure.
pub open spec fn copied(data: Seq<u8>, positions: Seq<u64>) -> Seq<EntryModel>
    decreases positions.len(),
{
    if positions.len() == 0 {
        Seq::empty()
    } else {
        let before = copied(data, positions.drop_last());
        if copy_failure(data, positions.drop_last()) is Some {
            before
        } else {
            match record_at(data, positions.last()) {
                Decoded::Item(entry, _) => before.push(entry),
                _ => before,
            }
        }
    }
}

/// The writer, and the segment id handed out last, after `entries` have been placed
/// through the writer one after the other.
pub open spec fn write_all(writer: LogWriterModel, last_file_id: u32, entries: Seq<EntryModel>) -> (
    LogWriterModel,
    u32,
)
    decreases entries.len(),
{
    if entries.len() == 0 {
        (writer, last_file_id)
    } else {
        let (w, id) = write_all(writer, last_file_id, entries.drop_last());
        let entry = entries.last();
        (
            w.write(entry, (id + 1) as u32),
            if w.rotates(entry.size()) {
                (id + 1) as u32
            } else {
                id
            },
        )
    }
}

/// The segments opened while `entries` were placed through the writer, in their order.
pub open spec fn opened(writer: LogWriterModel, last_file_id: u32, entries: Seq<EntryModel>) -> Seq<
    u32,
>
    decreases entries.len(),
{
    if entries.len() == 0 {
        Seq::empty()
    } else {
        let before = opened(writer, last_file_id, entries.drop_last());
        let (w, id) = write_all(writer, last_file_id, entries.drop_last());
        if w.rotates(entries.last().size()) {
            before.push((id + 1) as u32)
        } else {
            before
        }
    }
}

/// `writes` are what placing `entries` through the writer asks to be done to the files,
/// one for each record.
#[verifier::opaque]
pub open spec fn writes_as(
    writes: Seq<Written>,
    writer: LogWriterModel,
    last_file_id: u32,
    entries: Seq<EntryModel>,
) -> bool {
    &&& writes.len() == entries.len()
    &&& forall|i: int|
        0 <= i < writes.len() ==> {
            let (w, id) = write_all(writer, last_file_id, entries.subrange(0, i));
            written_as(#[trigger] writes[i], w, entries[i], (id + 1) as u32)
        }
}

/// The tombstones of `pairs`: one for each key, with the sequence number noted for it.
pub open spec fn tombstones(pairs: Seq<(Seq<u8>, SequenceNumber)>) -> Seq<EntryModel> {
    Seq::new(
        pairs.len(),
        |i: int|
            EntryModel { key: pairs[i].0, value: Seq::empty(), sequence: pairs[i].1, deleted: true },
    )
}

/// The state of a compaction, as mathematical values.
pub struct CompactionModel {
    /// The writer of the new segments.
    pub log_writer: LogWriterModel,
    /// The tombstones to keep: for each key, the largest sequence number seen.
    pub deletes: Map<Seq<u8>, SequenceNumber>,
    /// The segments rewritten so far.
    pub compacted_files: Seq<u32>,
    /// The segments opened so far.
    pub new_files: Seq<u32>,
}

/// What rewriting one segment has asked to be done to the files.
pub struct Rewritten {
    /// What is to be written, in this order.
    pub writes: Vec<Written>,
    /// The failure that stopped the rewriting, if any.
    pub failure: Option<Error>,
}

/// What a compaction has come to.
pub struct Compacted {
    /// What is to be written for the tombstones kept, in this order.
    pub writes: Vec<Written>,
    /// The last new segment, whose hint file is to be ended.
    pub closed: Option<ClosedFile>,
    /// The segments that were rewritten.
    pub compacted_files: Vec<u32>,
    /// The segments that took what was kept of them.
    pub new_files: Vec<u32>,
}

/// One run of compaction: rewrites segments one after the other into new ones, keeping the
/// live records and the tombstones of keys that are not live.
pub struct Compaction {
    log_writer: LogWriter,
    deletes: KeyMap<SequenceNumber>,
    compacted_files: Vec<u32>,
    new_files: Vec<u32>,
}

impl View for Compaction {
    type V = CompactionModel;

    closed spec fn view(&self) -> CompactionModel {
        CompactionModel {
            log_writer: self.log_writer@,
            deletes: self.deletes@,
            compacted_files: self.compacted_files@,
            new_files: self.new_files@,
        }
    }
}

impl Compaction {
    /// The compaction is in order: its writer is, and the keys of its tombstones are within
    /// the size bound.
    pub closed spec fn wf(&self) -> bool {
        &&& self.log_writer@.wf()
        &&& self.deletes.wf()
        &&& forall|k: Seq<u8>| #[trigger] self.deletes@.contains_key(k) ==> k.len() <= MAX_KEY_SIZE
    }

    /// The tombstones kept, in the order in which `finish` writes them: one for each key of
    /// `deletes`, with the sequence number noted for it.
    pub closed spec fn kept(&self) -> Seq<EntryModel> {
        tombstones(self.deletes.pair_list())
    }

    /// The tombstones kept are one for each key noted, with its sequence number.
    pub proof fn lemma_kept(&self)
        requires
            self.wf(),
        ensures
            self.kept().len() == self@.deletes.dom().len(),
            forall|i: int|
                0 <= i < self.kept().len() ==> {
                    let entry = #[trigger] self.kept()[i];
                    &&& entry.deleted
                    &&& entry.value.len() == 0
                    &&& self@.deletes.contains_key(entry.key)
                    &&& self@.deletes[entry.key] == entry.sequence
                },
            forall|i: int, j: int|
                0 <= i < j < self.kept().len() ==> (#[trigger] self.kept()[i]).key != (
                #[trigger] self.kept()[j]).key,
    {
        self.deletes.lemma_pair_list();
        self.deletes.lemma_key_list();
        let pairs = self.deletes.pair_list();
        let keys = self.deletes.key_list();
        assert forall|i: int, j: int| 0 <= i < j < self.kept().len() implies (
        #[trigger] self.kept()[i]).key != (#[trigger] self.kept()[j]).key by {
            assert(pairs[i].0 == keys[i]);
            assert(pairs[j].0 == keys[j]);
        }
        assert forall|i: int| 0 <= i < self.kept().len() implies {
            let entry = #[trigger] self.kept()[i];
            &&& entry.deleted
            &&& entry.value.len() == 0
            &&& self@.deletes.contains_key(entry.key)
            &&& self@.deletes[entry.key] == entry.sequence
        } by {
            let pair = pairs[i];
            assert(self.deletes@.contains_key(pair.0));
        }
    }

    /// A compaction that has rewritten nothing yet, writing segments of the size of the
    /// store's.
    pub fn new(inner: &CaskInner) -> (compaction: Compaction)
        requires
            inner.wf(),
        ensures
            compaction.wf(),
            compaction@ == (CompactionModel {
                log_writer: LogWriterModel {
                    sync: false,
                    max_file_size: inner@.log.max_file_size,
                    entry_writer: None,
                },
                deletes: Map::empty(),
                compacted_files: Seq::empty(),
                new_files: Seq::empty(),
            }),
    {
        Compaction {
            log_writer: inner.log().writer(),
            deletes: KeyMap::new(),
            compacted_files: Vec::new(),
            new_files: Vec::new(),
        }
    }

    /// The number of tombstones noted so far.
    pub fn tombstones(&self) -> (count: usize)
        requires
            self.wf(),
        ensures
            count == self@.deletes.dom().len(),
    {
        self.deletes.len()
    }

    /// Looks at each of `hints`: notes the tombstones to keep, and returns the positions of
    /// the live records.
    fn plan(&mut self, index: &Index, hints: &Vec<Hint>) -> (positions: Vec<u64>)
        requires
            old(self).wf(),
            index.wf(),
            crate::cask::keys_fit(hint_views(hints@)),
        ensures
            final(self).wf(),
            final(self)@ == (CompactionModel {
                deletes: carry(old(self)@.deletes, index@.map, hint_views(hints@)),
                ..old(self)@
            }),
            positions@ == live_positions(index@.map, hint_views(hints@)),
    {
        let mut positions: Vec<u64> = Vec::new();
        let ghost all = hint_views(hints@);
        assert(all.subrange(0, 0) =~= Seq::<HintModel>::empty());
        let mut i: usize = 0;
        while i < hints.len()
            invariant
                i <= hints@.len(),
                all == hint_views(hints@),
                crate::cask::keys_fit(all),
                index.wf(),
                self.wf(),
                self@ == (CompactionModel {
                    deletes: carry(old(self)@.deletes, index@.map, all.subrange(0, i as int)),
                    ..old(self)@
                }),
                positions@ == live_positions(index@.map, all.subrange(0, i as int)),
            decreases hints@.len() - i,
        {
            let hint = &hints[i];
            proof {
                assert(all[i as int] == hint@);
                assert(all.subrange(0, i + 1).drop_last() =~= all.subrange(0, i as int));
                assert(all.subrange(0, i + 1).last() == hint@);
            }
            let index_entry = index.get(hint.key.as_slice());
            if hint.deleted {
                if index_entry.is_none() {
                    let noted = self.deletes.get(hint.key.as_slice());
                    let keep = match noted {
                        Some(sequence) => sequence < hint.sequence,
                        None => true,
                    };
                    if keep {
                        self.deletes.insert(
                            vstd::slice::slice_to_vec(hint.key.as_slice()),
                            hint.sequence,
                        );
                    }
                }
            } else if let Some(entry) = index_entry {
                if entry.sequence == hint.sequence {
                    positions.push(hint.entry_pos);
                }
            }
            i += 1;
        }
        assert(all.subrange(0, all.len() as int) =~= all);
        positions
    }

    /// Places `entry` through the compaction's writer, and notes the segment that this
    /// opens, if any.
    fn place(&mut self, inner: &mut CaskInner, entry: &Entry) -> (written: Written)
        requires
            old(self).wf(),
            old(inner).wf(),
            entry@.wf(),
            old(inner)@.log.last_file_id < u32::MAX,
        ensures
            final(self).wf(),
            final(inner).wf(),
            ({
                let writer = old(self)@.log_writer;
                let next = old(inner)@.log.next_file_id();
                let rotates = writer.rotates(entry@.size());
                &&& written_as(written, writer, entry@, next)
                &&& final(self)@ == (CompactionModel {
                    log_writer: writer.write(entry@, next),
                    new_files: if rotates {
                        old(self)@.new_files.push(next)
                    } else {
                        old(self)@.new_files
                    },
                    ..old(self)@
                })
                &&& final(inner)@ == (crate::cask::CaskModel {
                    log: crate::log::LogModel {
                        last_file_id: if rotates {
                            next
                        } else {
                            old(inner)@.log.last_file_id
                        },
                        ..old(inner)@.log
                    },
                    ..old(inner)@
                })
            }),
    {
        let written = inner.write_with(&mut self.log_writer, entry);
        if let LogWrite::NewFile(file_id) = written.log_write {
            self.new_files.push(file_id);
        }
        written
    }

    /// Copies the records at `positions` of the data file content `data_file` through the
    /// compaction's writer, up to the first of them that cannot be read.
    fn copy(&mut self, inner: &mut CaskInner, data_file: &[u8], positions: &Vec<u64>) -> (rewritten:
        Rewritten)
        requires
            old(self).wf(),
            old(inner).wf(),
            old(inner)@.log.last_file_id + positions@.len() < u32::MAX,
        ensures
            final(self).wf(),
            final(inner).wf(),
            rewritten_as(
                rewritten,
                old(self)@,
                final(self)@,
                old(inner)@,
                final(inner)@,
                data_file@,
                positions@,
            ),
    {
        let mut writes: Vec<Written> = Vec::new();
        let mut failure: Option<Error> = None;
        let ghost writer = self@.log_writer;
        let ghost last = inner@.log.last_file_id;
        let ghost mut entries: Seq<EntryModel> = Seq::empty();
        let mut i: usize = 0;
        proof {
            assert(positions@.subrange(0, 0) =~= Seq::<u64>::empty());
            assert(self@.new_files + Seq::<u32>::empty() =~= self@.new_files);
            lemma_writes_as_empty(writer, last);
        }
        while i < positions.len() && failure.is_none()
            invariant
                i <= positions@.len(),
                self.wf(),
                inner.wf(),
                last + positions@.len() < u32::MAX,
                entries.len() <= i,
                failure is None ==> entries.len() == i,
                copy_state(
                    self@,
                    inner@,
                    old(self)@,
                    old(inner)@,
                    writer,
                    last,
                    entries,
                ),
                entries == copied(data_file@, positions@.subrange(0, i as int)),
                writes_as(writes@, writer, last, entries),
                failed_as(failure, copy_failure(data_file@, positions@.subrange(0, i as int))),
            decreases positions@.len() - i,
        {
            let ghost done = positions@.subrange(0, i as int);
            let ghost next = positions@.subrange(0, i + 1);
            proof {
                assert(next.drop_last() =~= done);
                assert(next.last() == positions@[i as int]);
                lemma_decoded_entry(
                    if positions@[i as int] <= data_file@.len() {
                        data_file@.subrange(positions@[i as int] as int, data_file@.len() as int)
                    } else {
                        Seq::empty()
                    },
                );
                lemma_write_all_bound(writer, last, entries);
            }
            match Log::read_entry(data_file, positions[i]) {
                Ok(entry) => {
                    let ghost before = self@;
                    let ghost inner_before = inner@;
                    let written = self.place(inner, &entry);
                    proof {
                        lemma_copy_state_step(
                            self@,
                            inner@,
                            before,
                            inner_before,
                            old(self)@,
                            old(inner)@,
                            writer,
                            last,
                            entries,
                            entry@,
                        );
                        lemma_writes_as_push(writes@, written, writer, last, entries, entry@);
                        entries = entries.push(entry@);
                    }
                    writes.push(written);
                },
                Err(e) => {
                    failure = Some(e);
                },
            }
            i += 1;
        }
        proof {
            lemma_copy_stops(data_file@, positions@, i as int);
        }
        Rewritten { writes, failure }
    }

    /// Rewrites the segment `file_id`, given the contents of its hint file and of its data
    /// file. The active segment is left alone, and so is a segment whose hint file is not
    /// whole or ends within a hint. Of any other segment, every tombstone of a key that
    /// is not live is noted, and every live record is copied to the new segments, up to
    /// the first that cannot be read, which stops the work.
    pub fn compact_file(
        &mut self,
        inner: &mut CaskInner,
        file_id: u32,
        hint_file: &[u8],
        data_file: &[u8],
    ) -> (rewritten: Rewritten)
        requires
            old(self).wf(),
            old(inner).wf(),
            old(inner)@.log.last_file_id + hint_file@.len() < u32::MAX,
        ensures
            final(self).wf(),
            final(inner).wf(),
            ({
                let body = hint_file@.subrange(0, hint_file@.len() - 4);
                let index = old(inner)@.index.map;
                let writer = old(self)@.log_writer;
                let last = old(inner)@.log.last_file_id;
                if old(inner)@.log.active_file_id == Some(file_id) || !valid_hint_file(
                    hint_file@,
                ) || decode_hints(body) is None {
                    &&& final(self)@ == old(self)@
                    &&& final(inner)@ == old(inner)@
                    &&& rewritten.writes@.len() == 0
                    &&& rewritten.failure is None
                } else {
                    let hints = decode_hints(body)->0;
                    let positions = live_positions(index, hints);
                    let entries = copied(data_file@, positions);
                    &&& final(self)@ == (CompactionModel {
                        log_writer: write_all(writer, last, entries).0,
                        deletes: carry(old(self)@.deletes, index, hints),
                        compacted_files: if copy_failure(data_file@, positions) is None {
                            old(self)@.compacted_files.push(file_id)
                        } else {
                            old(self)@.compacted_files
                        },
                        new_files: old(self)@.new_files + opened(writer, last, entries),
                    })
                    &&& final(inner)@ == (crate::cask::CaskModel {
                        log: crate::log::LogModel {
                            last_file_id: write_all(writer, last, entries).1,
                            ..old(inner)@.log
                        },
                        ..old(inner)@
                    })
                    &&& writes_as(rewritten.writes@, writer, last, entries)
                    &&& failed_as(rewritten.failure, copy_failure(data_file@, positions))
                }
            }),
    {
        let skipped = match inner.log().active_file_id() {
            Some(active) => active == file_id,
            None => false,
        };
        if skipped {
            return Rewritten { writes: Vec::new(), failure: None };
        }
        let hints = match Log::hints(hint_file) {
            Ok(Some(hints)) => hints,
            _ => {
                return Rewritten { writes: Vec::new(), failure: None };
            },
        };
        proof {
            lemma_decode_hints(hint_file@.subrange(0, hint_file@.len() - 4));
            lemma_live_positions_len(inner@.index.map, hint_views(hints@));
        }
        let positions = self.plan(inner.index(), &hints);
        let rewritten = self.copy(inner, data_file, &positions);
        if rewritten.failure.is_none() {
            self.compacted_files.push(file_id);
        }
        rewritten
    }

    /// Writes a tombstone for each of `pairs`, a key with a sequence number, through the
    /// compaction's writer.
    fn write_tombstones(&mut self, inner: &mut CaskInner, pairs: &Vec<(Vec<u8>, SequenceNumber)>) -> (writes:
        Vec<Written>)
        requires
            old(self).wf(),
            old(inner).wf(),
            old(inner)@.log.last_file_id + pairs@.len() < u32::MAX,
            forall|j: int|
                0 <= j < pairs@.len() ==> (#[trigger] pairs@[j]).0@.len() <= MAX_KEY_SIZE,
        ensures
            final(self).wf(),
            final(inner).wf(),
            copy_state(
                final(self)@,
                final(inner)@,
                old(self)@,
                old(inner)@,
                old(self)@.log_writer,
                old(inner)@.log.last_file_id,
                tombstones(pair_views(pairs@)),
            ),
            writes_as(
                writes@,
                old(self)@.log_writer,
                old(inner)@.log.last_file_id,
                tombstones(pair_views(pairs@)),
            ),
    {
        let mut writes: Vec<Written> = Vec::new();
        let ghost writer = self@.log_writer;
        let ghost last = inner@.log.last_file_id;
        let ghost all = tombstones(pair_views(pairs@));
        let mut i: usize = 0;
        proof {
            assert(all.subrange(0, 0) =~= Seq::<EntryModel>::empty());
            assert(self@.new_files + Seq::<u32>::empty() =~= self@.new_files);
            lemma_writes_as_empty(writer, last);
        }
        while i < pairs.len()
            invariant
                i <= pairs@.len(),
                self.wf(),
                inner.wf(),
                all == tombstones(pair_views(pairs@)),
                all.len() == pairs@.len(),
                forall|j: int|
                    0 <= j < pairs@.len() ==> (#[trigger] pairs@[j]).0@.len() <= MAX_KEY_SIZE,
                last + pairs@.len() < u32::MAX,
                copy_state(
                    self@,
                    inner@,
                    old(self)@,
                    old(inner)@,
                    writer,
                    last,
                    all.subrange(0, i as int),
                ),
                writes_as(writes@, writer, last, all.subrange(0, i as int)),
            decreases pairs@.len() - i,
        {
            let ghost done = all.subrange(0, i as int);
            let entry = Entry::deleted(pairs[i].1, pairs[i].0.as_slice());
            proof {
                assert(entry@ == all[i as int]);
                assert(all.subrange(0, i + 1) =~= done.push(entry@));
                lemma_write_all_bound(writer, last, done);
            }
            let ghost before = self@;
            let ghost inner_before = inner@;
            let written = self.place(inner, &entry);
            proof {
                lemma_copy_state_step(
                    self@,
                    inner@,
                    before,
                    inner_before,
                    old(self)@,
                    old(inner)@,
                    writer,
                    last,
                    done,
                    entry@,
                );
                lemma_writes_as_push(writes@, written, writer, last, done, entry@);
            }
            writes.push(written);
            i += 1;
        }
        proof {
            assert(all.subrange(0, all.len() as int) =~= all);
        }
        writes
    }

    /// Ends the compaction: writes a tombstone for each key noted, with the largest
    /// sequence number seen for it, and returns what was rewritten into what.
    pub fn finish(self, inner: &mut CaskInner) -> (compacted: Compacted)
        requires
            self.wf(),
            old(inner).wf(),
            old(inner)@.log.last_file_id + self@.deletes.dom().len() < u32::MAX,
        ensures
            final(inner).wf(),
            ({
                let entries = self.kept();
                let writer = self@.log_writer;
                let last = old(inner)@.log.last_file_id;
                let after = write_all(writer, last, entries);
                &&& final(inner)@ == (crate::cask::CaskModel {
                    log: crate::log::LogModel { last_file_id: after.1, ..old(inner)@.log },
                    ..old(inner)@
                })
                &&& writes_as(compacted.writes@, writer, last, entries)
                &&& compacted.compacted_files@ == self@.compacted_files
                &&& compacted.new_files@ == self@.new_files + opened(writer, last, entries)
                &&& match compacted.closed {
                    Some(closed) => after.0.closes() == Some((closed.file_id, closed.trailer@)),
                    None => after.0.closes() is None,
                }
            }),
    {
        let mut compaction = self;
        let pairs = compaction.deletes.pairs();
        proof {
            compaction.deletes.lemma_pair_list();
            compaction.deletes.lemma_key_list();
            assert forall|j: int| 0 <= j < pairs@.len() implies (#[trigger] pairs@[j]).0@.len()
                <= MAX_KEY_SIZE by {
                let pair = compaction.deletes.pair_list()[j];
                assert(pair_views(pairs@)[j] == pair);
                assert(compaction.deletes@.contains_key(pair.0));
            }
        }
        let writes = compaction.write_tombstones(inner, &pairs);
        let Compaction { log_writer, deletes, compacted_files, new_files } = compaction;
        let closed = log_writer.close();
        Compacted { writes, closed, compacted_files, new_files }
    }

    /// Gives the compaction up: returns the last new segment, whose hint file is to be
    /// ended.
    pub fn close(&self) -> (closed: Option<ClosedFile>)
        ensures
            match closed {
                Some(c) => self@.log_writer.closes() == Some((c.file_id, c.trailer@)),
                None => self@.log_writer.closes() is None,
            },
    {
        self.log_writer.close()
    }
}

/// The live records among those of some hints are no more than the hints.
pub proof fn lemma_live_positions_len(index: Map<Seq<u8>, IndexEntry>, hints: Seq<HintModel>)
    ensures
        live_positions(index, hints).len() <= hints.len(),
    decreases hints.len(),
{
    if hints.len() > 0 {
        lemma_live_positions_len(index, hints.drop_last());
    }
}

/// Once a position has failed, the positions behind it add nothing.
proof fn lemma_copy_stops(data: Seq<u8>, positions: Seq<u64>, n: int)
    requires
        0 <= n <= positions.len(),
        n < positions.len() ==> copy_failure(data, positions.subrange(0, n)) is Some,
    ensures
        copied(data, positions) == copied(data, positions.subrange(0, n)),
        copy_failure(data, positions) == copy_failure(data, positions.subrange(0, n)),
    decreases positions.len() - n,
{
    if n < positions.len() {
        assert(positions.drop_last().subrange(0, n) =~= positions.subrange(0, n));
        lemma_copy_stops(data, positions.drop_last(), n);
    } else {
        assert(positions.subrange(0, n) =~= positions);
    }
}

/// The failure reported is the one found: a record that does not carry its checksum is
/// reported as `InvalidChecksum`, anything else that is no record as `Io`.
pub open spec fn failed_as(failure: Option<Error>, found: Option<Decoded<EntryModel>>) -> bool {
    match found {
        None => failure is None,
        Some(Decoded::Corrupt { expected, found, .. }) => failure == Some(
            Error::InvalidChecksum { expected, found },
        ),
        Some(_) => failure matches Some(Error::Io(_)),
    }
}

/// The compaction and the store are what they were before `entries` went through the
/// compaction's writer, but for the writer, the segments opened and the id handed out last.
pub open spec fn copy_state(
    compaction: CompactionModel,
    inner: crate::cask::CaskModel,
    compaction_before: CompactionModel,
    inner_before: crate::cask::CaskModel,
    writer: LogWriterModel,
    last: u32,
    entries: Seq<EntryModel>,
) -> bool {
    &&& compaction == (CompactionModel {
        log_writer: write_all(writer, last, entries).0,
        new_files: compaction_before.new_files + opened(writer, last, entries),
        ..compaction_before
    })
    &&& inner == (crate::cask::CaskModel {
        log: crate::log::LogModel {
            last_file_id: write_all(writer, last, entries).1,
            ..inner_before.log
        },
        ..inner_before
    })
}

/// What copying the records at `positions` of `data` has come to.
pub open spec fn rewritten_as(
    rewritten: Rewritten,
    compaction_before: CompactionModel,
    compaction: CompactionModel,
    inner_before: crate::cask::CaskModel,
    inner: crate::cask::CaskModel,
    data: Seq<u8>,
    positions: Seq<u64>,
) -> bool {
    let entries = copied(data, positions);
    let writer = compaction_before.log_writer;
    let last = inner_before.log.last_file_id;
    &&& copy_state(compaction, inner, compaction_before, inner_before, writer, last, entries)
    &&& writes_as(rewritten.writes@, writer, last, entries)
    &&& failed_as(rewritten.failure, copy_failure(data, positions))
}

/// Placing no record asks for nothing.
proof fn lemma_writes_as_empty(writer: LogWriterModel, last: u32)
    ensures
        writes_as(Seq::<Written>::empty(), writer, last, Seq::<EntryModel>::empty()),
{
    reveal(writes_as);
}

/// Placing one more record asks for one more write.
proof fn lemma_writes_as_push(
    writes: Seq<Written>,
    written: Written,
    writer: LogWriterModel,
    last: u32,
    entries: Seq<EntryModel>,
    entry: EntryModel,
)
    requires
        writes_as(writes, writer, last, entries),
        written_as(
            written,
            write_all(writer, last, entries).0,
            entry,
            (write_all(writer, last, entries).1 + 1) as u32,
        ),
    ensures
        writes_as(writes.push(written), writer, last, entries.push(entry)),
{
    reveal(writes_as);
    let grown = entries.push(entry);
    let more = writes.push(written);
    assert forall|j: int| 0 <= j < more.len() implies {
        let (w, id) = write_all(writer, last, grown.subrange(0, j));
        written_as(#[trigger] more[j], w, grown[j], (id + 1) as u32)
    } by {
        if j < entries.len() {
            assert(grown.subrange(0, j) =~= entries.subrange(0, j));
        } else {
            assert(grown.subrange(0, j) =~= entries);
        }
    }
}

/// The id handed out last moves on by no more than one for each record placed.
proof fn lemma_write_all_bound(writer: LogWriterModel, last: u32, entries: Seq<EntryModel>)
    requires
        last + entries.len() <= u32::MAX,
    ensures
        last <= write_all(writer, last, entries).1 <= last + entries.len(),
    decreases entries.len(),
{
    if entries.len() > 0 {
        lemma_write_all_bound(writer, last, entries.drop_last());
    }
}

/// One more record placed keeps the account of what went through the writer.
proof fn lemma_copy_state_step(
    compaction: CompactionModel,
    inner: crate::cask::CaskModel,
    before: CompactionModel,
    inner_before: crate::cask::CaskModel,
    first: CompactionModel,
    inner_first: crate::cask::CaskModel,
    writer: LogWriterModel,
    last: u32,
    entries: Seq<EntryModel>,
    entry: EntryModel,
)
    requires
        copy_state(before, inner_before, first, inner_first, writer, last, entries),
        inner_before.log.last_file_id < u32::MAX,
        compaction == (CompactionModel {
            log_writer: before.log_writer.write(entry, inner_before.log.next_file_id()),
            new_files: if before.log_writer.rotates(entry.size()) {
                before.new_files.push(inner_before.log.next_file_id())
            } else {
                before.new_files
            },
            ..before
        }),
        inner == (crate::cask::CaskModel {
            log: crate::log::LogModel {
                last_file_id: if before.log_writer.rotates(entry.size()) {
                    inner_before.log.next_file_id()
                } else {
                    inner_before.log.last_file_id
                },
                ..inner_before.log
            },
            ..inner_before
        }),
    ensures
        copy_state(compaction, inner, first, inner_first, writer, last, entries.push(entry)),
{
    let grown = entries.push(entry);
    assert(grown.drop_last() =~= entries);
    assert(grown.last() == entry);
    let (w, id) = write_all(writer, last, entries);
    assert(compaction.new_files =~= first.new_files + opened(writer, last, grown));
}

} // verus!
