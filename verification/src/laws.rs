//! What the store keeps to, stated over its state and over what its data files hold.
//!
//! The store never touches a file: each mutation returns what is to be appended where. The
//! statements here are about a store whose files hold what it has asked to be written.

use crate::cask::{replay, value_of, CaskModel, RecoveryModel};
use crate::compaction::is_live;
use crate::data::{
    decode_entry, lemma_decoded_entry, lemma_entry_layout, lemma_entry_round_trip,
    lemma_hint_of_entry, Decoded, EntryModel, HintModel, MAX_KEY_SIZE, MAX_VALUE_SIZE,
};
use crate::index::{index_entry_of, IndexModel};
use crate::log::{
    decode_hints, entries_bytes, hint_file_bytes, hints_bytes, hints_of,
    lemma_hint_file_round_trip, lemma_scan_entries, lemma_scan_hints, scan_failure, scan_hints,
    valid_hint_file, written_as, EntryWriterModel, LogWriterModel, Written,
};
use crate::stats::IndexEntry;
use vstd::prelude::*;

verus! {

/// What the data files hold: for each segment that has one, the content of its data file.
pub type Disk = Map<u32, Seq<u8>>;

/// The data files after what `written` asks for has been done: the record's bytes are
/// appended to the data file of its segment, which starts empty where the segment is new.
pub open spec fn disk_after(disk: Disk, written: Written) -> Disk {
    let before = if written.log_write is NewFile {
        Seq::<u8>::empty()
    } else {
        disk[written.file_id]
    };
    disk.insert(written.file_id, before + written.data@)
}

/// The bytes that the index entry `at` points at.
pub open spec fn bytes_at(disk: Disk, at: IndexEntry) -> Seq<u8> {
    disk[at.file_id].subrange(at.entry_pos as int, at.entry_pos + at.entry_size)
}

/// What a read of `key` gives: the value of the record that the index points `key` at, and
/// nothing where the key is not live.
pub open spec fn read(state: CaskModel, disk: Disk, key: Seq<u8>) -> Option<Seq<u8>> {
    if state.index.map.contains_key(key) {
        value_of(bytes_at(disk, state.index.map[key]))
    } else {
        None
    }
}

/// The index entry `at` lies within a data file, where a whole record of `key` lies that
/// is no tombstone and has the entry's sequence number and size.
pub open spec fn points_at_record(disk: Disk, key: Seq<u8>, at: IndexEntry) -> bool {
    &&& disk.contains_key(at.file_id)
    &&& at.entry_pos + at.entry_size <= disk[at.file_id].len()
    &&& decode_entry(bytes_at(disk, at)) matches Decoded::Item(entry, size)
    &&& entry.key == key
    &&& !entry.deleted
    &&& entry.sequence == at.sequence
    &&& size == at.entry_size
}

/// The store and the data files agree: every index entry points at a live record of its
/// key, the data file of the open segment is as long as the writer has counted, and no
/// segment has an id above the one handed out last.
pub open spec fn agrees(state: CaskModel, disk: Disk) -> bool {
    &&& forall|k: Seq<u8>| #[trigger]
        state.index.map.contains_key(k) ==> points_at_record(disk, k, state.index.map[k])
    &&& state.log.log_writer.entry_writer matches Some(w) ==> disk.contains_key(w.file_id)
        && disk[w.file_id].len() == w.data_file_pos
    &&& forall|file_id: u32| #[trigger]
        disk.contains_key(file_id) ==> file_id <= state.log.last_file_id
}

/// What appending the record `entry` does to the data files: the record lies, whole, where
/// the store says it was placed, and nothing that lay in a data file before has changed.
proof fn lemma_append(state: CaskModel, disk: Disk, entry: EntryModel, written: Written)
    requires
        state.wf(),
        state.log.last_file_id < u32::MAX,
        agrees(state, disk),
        entry.wf(),
        written_as(written, state.log.log_writer, entry, state.log.next_file_id()),
    ensures
        ({
            let after = disk_after(disk, written);
            let at = state.location(entry);
            &&& after.contains_key(at.file_id)
            &&& at.entry_pos + at.entry_size == after[at.file_id].len()
            &&& bytes_at(after, at) == entry.bytes()
            &&& decode_entry(bytes_at(after, at)) == Decoded::Item(entry, entry.size())
            &&& forall|file_id: u32| #[trigger]
                after.contains_key(file_id) ==> file_id <= state.log.append(entry).last_file_id
            &&& forall|file_id: u32| #[trigger]
                disk.contains_key(file_id) ==> after.contains_key(file_id)
            &&& forall|other: IndexEntry|
                disk.contains_key(other.file_id) && other.entry_pos + other.entry_size
                    <= disk[other.file_id].len() ==> #[trigger] bytes_at(after, other)
                    == bytes_at(disk, other)
        }),
{
    let after = disk_after(disk, written);
    let at = state.location(entry);
    let writer = state.log.log_writer;
    lemma_entry_layout(entry, Seq::empty());
    lemma_entry_round_trip(entry, Seq::empty());
    assert(entry.bytes() + Seq::<u8>::empty() =~= entry.bytes());
    let before = if written.log_write is NewFile {
        Seq::<u8>::empty()
    } else {
        disk[written.file_id]
    };
    assert(before.len() == at.entry_pos);
    assert(after[at.file_id] == before + entry.bytes());
    assert(bytes_at(after, at) =~= entry.bytes());
    assert forall|other: IndexEntry|
        disk.contains_key(other.file_id) && other.entry_pos + other.entry_size
            <= disk[other.file_id].len() implies #[trigger] bytes_at(after, other) == bytes_at(
        disk,
        other,
    ) by {
        if other.file_id == written.file_id {
            assert(!(written.log_write is NewFile));
            assert(bytes_at(after, other) =~= bytes_at(disk, other));
        }
    }
}

/// Read-your-write: after `key` has been set to `value`, a read of `key` gives `value`,
/// and a read of any other key gives what it gave before. The store and the data files
/// go on agreeing.
pub proof fn lemma_read_your_write(
    state: CaskModel,
    disk: Disk,
    key: Seq<u8>,
    value: Seq<u8>,
    written: Written,
)
    requires
        state.wf(),
        state.has_room(),
        agrees(state, disk),
        key.len() <= MAX_KEY_SIZE,
        value.len() <= MAX_VALUE_SIZE,
        written_as(
            written,
            state.log.log_writer,
            state.put_entry(key, value),
            state.log.next_file_id(),
        ),
    ensures
        agrees(state.put(key, value), disk_after(disk, written)),
        read(state.put(key, value), disk_after(disk, written), key) == Some(value),
        forall|other: Seq<u8>|
            other != key ==> read(state.put(key, value), disk_after(disk, written), other)
                == read(state, disk, other),
{
    let entry = state.put_entry(key, value);
    let next = state.put(key, value);
    let after = disk_after(disk, written);
    lemma_append(state, disk, entry, written);
    assert forall|k: Seq<u8>| #[trigger] next.index.map.contains_key(k) implies points_at_record(
        after,
        k,
        next.index.map[k],
    ) by {
        if k != key {
            assert(state.index.map.contains_key(k));
            let at = state.index.map[k];
            assert(points_at_record(disk, k, at));
            assert(bytes_at(after, at) == bytes_at(disk, at));
        }
    }
    assert forall|other: Seq<u8>| other != key implies read(next, after, other) == read(
        state,
        disk,
        other,
    ) by {
        if state.index.map.contains_key(other) {
            let at = state.index.map[other];
            assert(points_at_record(disk, other, at));
            assert(bytes_at(after, at) == bytes_at(disk, at));
        }
    }
}

/// Delete visibility: after `key` has been deleted, a read of `key` gives nothing, and a
/// read of any other key gives what it gave before. The store and the data files go on
/// agreeing. A key that was not live is deleted without a write.
pub proof fn lemma_delete_then_read(
    state: CaskModel,
    disk: Disk,
    key: Seq<u8>,
    written: Option<Written>,
)
    requires
        state.wf(),
        state.has_room(),
        agrees(state, disk),
        match written {
            Some(w) => state.index.map.contains_key(key) && written_as(
                w,
                state.log.log_writer,
                state.tombstone(key),
                state.log.next_file_id(),
            ),
            None => !state.index.map.contains_key(key),
        },
    ensures
        ({
            let after = match written {
                Some(w) => disk_after(disk, w),
                None => disk,
            };
            &&& agrees(state.delete(key), after)
            &&& read(state.delete(key), after, key) is None
            &&& forall|other: Seq<u8>|
                other != key ==> read(state.delete(key), after, other) == read(
                    state,
                    disk,
                    other,
                )
        }),
{
    let next = state.delete(key);
    match written {
        Some(w) => {
            let entry = state.tombstone(key);
            let after = disk_after(disk, w);
            assert(state.index.map.contains_key(key));
            lemma_append(state, disk, entry, w);
            assert forall|k: Seq<u8>| #[trigger]
                next.index.map.contains_key(k) implies points_at_record(
                after,
                k,
                next.index.map[k],
            ) by {
                assert(state.index.map.contains_key(k));
                let at = state.index.map[k];
                assert(points_at_record(disk, k, at));
                assert(bytes_at(after, at) == bytes_at(disk, at));
            }
            assert forall|other: Seq<u8>| other != key implies read(next, after, other) == read(
                state,
                disk,
                other,
            ) by {
                if state.index.map.contains_key(other) {
                    let at = state.index.map[other];
                    assert(points_at_record(disk, other, at));
                    assert(bytes_at(after, at) == bytes_at(disk, at));
                }
            }
        },
        None => {},
    }
}

/// A mutation of the store.
pub enum Mutation {
    Put { key: Seq<u8>, value: Seq<u8> },
    Delete { key: Seq<u8> },
}

/// The mutation `mutation` writes a record: it sets a key to a value, both within the size
/// bounds, or deletes a key that is live.
pub open spec fn writes_record(state: CaskModel, mutation: Mutation) -> bool {
    match mutation {
        Mutation::Put { key, value } => key.len() <= MAX_KEY_SIZE && value.len()
            <= MAX_VALUE_SIZE,
        Mutation::Delete { key } => state.index.map.contains_key(key),
    }
}

/// The state after `mutation`. A mutation that is refused changes nothing.
pub open spec fn apply(state: CaskModel, mutation: Mutation) -> CaskModel {
    match mutation {
        Mutation::Put { key, value } => if writes_record(state, mutation) {
            state.put(key, value)
        } else {
            state
        },
        Mutation::Delete { key } => state.delete(key),
    }
}

/// The state after `mutations`, one after the other.
pub open spec fn run(state: CaskModel, mutations: Seq<Mutation>) -> CaskModel
    decreases mutations.len(),
{
    if mutations.len() == 0 {
        state
    } else {
        apply(run(state, mutations.drop_last()), mutations.last())
    }
}

/// The sequence number never goes back, and moves on by one with each record written.
pub proof fn lemma_sequence_moves_on(state: CaskModel, mutations: Seq<Mutation>)
    requires
        state.current_sequence + mutations.len() <= u64::MAX,
    ensures
        state.current_sequence <= run(state, mutations).current_sequence
            <= state.current_sequence + mutations.len(),
    decreases mutations.len(),
{
    if mutations.len() > 0 {
        lemma_sequence_moves_on(state, mutations.drop_last());
    }
}

/// Sequence monotonicity: of two mutations that each write a record, the later gets the
/// larger sequence number, whatever mutations lie between them. The sequence number of a
/// mutation is that of the state it is applied to.
pub proof fn lemma_sequence_monotonic(
    state: CaskModel,
    sooner: Mutation,
    between: Seq<Mutation>,
    later: Mutation,
)
    requires
        state.current_sequence + between.len() + 2 <= u64::MAX,
        writes_record(state, sooner),
        writes_record(run(apply(state, sooner), between), later),
    ensures
        run(apply(state, sooner), between).current_sequence > state.current_sequence,
        apply(run(apply(state, sooner), between), later).current_sequence > run(
            apply(state, sooner),
            between,
        ).current_sequence,
{
    lemma_sequence_moves_on(apply(state, sooner), between);
}

/// The hints of a log in the order in which recovery reads them, each with its segment.
pub type Journal = Seq<(u32, HintModel)>;

/// The index that recovery builds from `journal`.
pub open spec fn recovered(journal: Journal) -> IndexModel
    decreases journal.len(),
{
    if journal.len() == 0 {
        IndexModel::empty()
    } else {
        recovered(journal.drop_last()).update(journal.last().1, journal.last().0)
    }
}

/// The hints `hints` as those of the segment `file_id`.
pub open spec fn of_segment(hints: Seq<HintModel>, file_id: u32) -> Journal {
    Seq::new(hints.len(), |i: int| (file_id, hints[i]))
}

/// The store holds what recovery builds from `journal`: the same keys at the same places;
/// and every sequence number in the index lies behind the store's.
pub open spec fn journaled(state: CaskModel, journal: Journal) -> bool {
    &&& state.index.map == recovered(journal).map
    &&& forall|k: Seq<u8>| #[trigger]
        state.index.map.contains_key(k) ==> state.index.map[k].sequence
            < state.current_sequence
}

/// Durability of a write: where the store holds what recovery builds from a journal, the
/// store after `key` has been set to `value` holds what recovery builds from that journal
/// with the hint of the new record at its end.
pub proof fn lemma_put_is_recovered(
    state: CaskModel,
    journal: Journal,
    key: Seq<u8>,
    value: Seq<u8>,
)
    requires
        state.wf(),
        state.has_room(),
        journaled(state, journal),
        key.len() <= MAX_KEY_SIZE,
        value.len() <= MAX_VALUE_SIZE,
    ensures
        ({
            let entry = state.put_entry(key, value);
            let at = state.location(entry);
            journaled(
                state.put(key, value),
                journal.push((at.file_id, HintModel::of(entry, at.entry_pos))),
            )
        }),
{
    let entry = state.put_entry(key, value);
    let at = state.location(entry);
    let hint = HintModel::of(entry, at.entry_pos);
    let grown = journal.push((at.file_id, hint));
    assert(grown.drop_last() =~= journal);
    assert(index_entry_of(hint, at.file_id) == at);
    let next = state.put(key, value);
    assert(next.index.map =~= recovered(grown).map);
    assert forall|k: Seq<u8>| #[trigger] next.index.map.contains_key(k) implies next.index.map[k].sequence
        < next.current_sequence by {
        if k != key {
            assert(state.index.map.contains_key(k));
        }
    }
}

/// Durability of a delete: where the store holds what recovery builds from a journal, the
/// store after a live key has been deleted holds what recovery builds from that journal
/// with the hint of the tombstone at its end.
pub proof fn lemma_delete_is_recovered(state: CaskModel, journal: Journal, key: Seq<u8>)
    requires
        state.wf(),
        state.has_room(),
        journaled(state, journal),
        state.index.map.contains_key(key),
    ensures
        ({
            let entry = state.tombstone(key);
            let at = state.location(entry);
            journaled(
                state.delete(key),
                journal.push((at.file_id, HintModel::of(entry, at.entry_pos))),
            )
        }),
{
    let entry = state.tombstone(key);
    let at = state.location(entry);
    let hint = HintModel::of(entry, at.entry_pos);
    let grown = journal.push((at.file_id, hint));
    assert(grown.drop_last() =~= journal);
    let next = state.delete(key);
    assert(next.index.map =~= recovered(grown).map);
    assert forall|k: Seq<u8>| #[trigger] next.index.map.contains_key(k) implies next.index.map[k].sequence
        < next.current_sequence by {
        assert(state.index.map.contains_key(k));
    }
}

/// Recovery segment by segment is recovery from the journal of all segments: what
/// recovery has gathered from a journal, and then from the hints of one more segment, is
/// what it gathers from the journal with those hints at its end. The largest sequence
/// number seen is no smaller than any in the index.
pub proof fn lemma_load_is_recovered(
    gathered: RecoveryModel,
    journal: Journal,
    hints: Seq<HintModel>,
    file_id: u32,
)
    requires
        gathered.index.map == recovered(journal).map,
        forall|k: Seq<u8>| #[trigger]
            gathered.index.map.contains_key(k) ==> gathered.index.map[k].sequence
                <= gathered.sequence,
    ensures
        ({
            let after = gathered.load(hints, file_id);
            &&& after.index.map == recovered(journal + of_segment(hints, file_id)).map
            &&& after.sequence >= gathered.sequence
            &&& forall|k: Seq<u8>| #[trigger]
                after.index.map.contains_key(k) ==> after.index.map[k].sequence
                    <= after.sequence
        }),
    decreases hints.len(),
{
    let all = journal + of_segment(hints, file_id);
    if hints.len() == 0 {
        assert(all =~= journal);
    } else {
        let head = hints.drop_last();
        let last = hints.last();
        lemma_load_is_recovered(gathered, journal, head, file_id);
        let before = gathered.load(head, file_id);
        assert(all.drop_last() =~= journal + of_segment(head, file_id));
        assert(all.last() == (file_id, last));
        let after = gathered.load(hints, file_id);
        assert(after.index == before.index.update(last, file_id));
        assert(after.index.map =~= recovered(all).map);
        assert forall|k: Seq<u8>| #[trigger] after.index.map.contains_key(k) implies after.index.map[k].sequence
            <= after.sequence by {
            if k != last.key {
                assert(before.index.map.contains_key(k));
            } else if before.index.map.contains_key(k) {
                assert(before.index.map[k].sequence <= before.sequence);
            }
        }
    }
}

/// Durability across reopening: the store that recovery ends in holds what recovery has
/// built from the journal, and its next sequence number lies behind all in its index.
pub proof fn lemma_reopened_is_recovered(
    gathered: RecoveryModel,
    journal: Journal,
    state: CaskModel,
)
    requires
        gathered.index.map == recovered(journal).map,
        forall|k: Seq<u8>| #[trigger]
            gathered.index.map.contains_key(k) ==> gathered.index.map[k].sequence
                <= gathered.sequence,
        gathered.sequence < u64::MAX,
        state.index == gathered.index,
        state.current_sequence == gathered.sequence + 1,
    ensures
        journaled(state, journal),
{
}

/// Recovery idempotence: a hint file written anew from a data file that scans without
/// failure is whole and holds the hints that the scan gave. So the opening that follows,
/// which reads the hint file, gathers from the segment what this one gathered from its
/// data file.
pub proof fn lemma_second_opening_gathers_the_same(data_file: Seq<u8>)
    ensures
        ({
            let hints = scan_hints(data_file, 0);
            let hint_file = hint_file_bytes(hints);
            &&& valid_hint_file(hint_file)
            &&& decode_hints(hint_file.subrange(0, hint_file.len() - 4)) == Some(hints)
        }),
{
    let hints = scan_hints(data_file, 0);
    lemma_scan_hints(data_file, 0);
    lemma_hint_file_round_trip(hints);
}

/// The hints `hints` of a segment are those of copies that a compaction has made: each
/// tombstone is of a key that is not live, and each other hint is of the live record of its
/// key, whose copy in the segment `file_id` gives the value that a read gives now.
pub open spec fn are_copies(state: CaskModel, disk: Disk, hints: Seq<HintModel>, file_id: u32) -> bool {
    forall|i: int|
        0 <= i < hints.len() ==> {
            let hint = #[trigger] hints[i];
            if hint.deleted {
                !state.index.map.contains_key(hint.key)
            } else {
                &&& hint.key.len() <= MAX_KEY_SIZE
                &&& is_live(state.index.map, hint)
                &&& value_of(bytes_at(disk, index_entry_of(hint, file_id))) == read(
                    state,
                    disk,
                    hint.key,
                )
            }
        }
}

/// Compaction preserves state: reconciling the index with the hints of a segment of
/// copies changes neither the set of live keys, nor the sequence number of any key, nor
/// what a read of any key gives.
pub proof fn lemma_copies_preserve_state(
    state: CaskModel,
    disk: Disk,
    hints: Seq<HintModel>,
    file_id: u32,
)
    requires
        are_copies(state, disk, hints, file_id),
    ensures
        ({
            let after = state.apply_hints(hints, file_id);
            &&& after.index.map.dom() == state.index.map.dom()
            &&& forall|k: Seq<u8>| #[trigger]
                state.index.map.contains_key(k) ==> after.index.map[k].sequence
                    == state.index.map[k].sequence
            &&& forall|k: Seq<u8>| read(after, disk, k) == read(state, disk, k)
        }),
    decreases hints.len(),
{
    let after = state.apply_hints(hints, file_id);
    if hints.len() == 0 {
        assert(after.index.map.dom() =~= state.index.map.dom());
    } else {
        let head = hints.drop_last();
        let last = hints.last();
        assert forall|i: int| 0 <= i < head.len() implies {
            let hint = #[trigger] head[i];
            if hint.deleted {
                !state.index.map.contains_key(hint.key)
            } else {
                &&& hint.key.len() <= MAX_KEY_SIZE
                &&& is_live(state.index.map, hint)
                &&& value_of(bytes_at(disk, index_entry_of(hint, file_id))) == read(
                    state,
                    disk,
                    hint.key,
                )
            }
        } by {
            assert(head[i] == hints[i]);
        }
        lemma_copies_preserve_state(state, disk, head, file_id);
        let before = state.apply_hints(head, file_id);
        assert(hints[hints.len() - 1] == last);
        assert(after.index == before.index.update(last, file_id));
        assert(before.index.map.dom() == state.index.map.dom());
        if last.deleted {
            assert(!before.index.map.contains_key(last.key));
            assert(after.index.map =~= before.index.map);
        } else {
            assert(state.index.map.contains_key(last.key));
            assert(before.index.map.contains_key(last.key));
            assert(before.index.map[last.key].sequence == last.sequence);
            assert(after.index.map =~= before.index.map.insert(
                last.key,
                index_entry_of(last, file_id),
            ));
            assert(after.index.map.dom() =~= before.index.map.dom());
            assert forall|k: Seq<u8>| read(after, disk, k) == read(state, disk, k) by {
                assert(read(before, disk, k) == read(state, disk, k));
            }
        }
    }
}

/// Compaction preserves state: ending a compaction changes neither the index nor what a
/// read gives, as long as the data files that a live key points into stay as they are.
pub proof fn lemma_publish_preserves_state(
    state: CaskModel,
    disk: Disk,
    after: Disk,
    compacted_files: Seq<u32>,
    new_files: Seq<u32>,
)
    requires
        forall|k: Seq<u8>| #[trigger]
            state.index.map.contains_key(k) ==> after.contains_key(state.index.map[k].file_id)
                && after[state.index.map[k].file_id] == disk[state.index.map[k].file_id],
    ensures
        state.publish(compacted_files, new_files).index.map == state.index.map,
        forall|k: Seq<u8>|
            read(state.publish(compacted_files, new_files), after, k) == read(state, disk, k),
{
}

/// A record is read from the bytes it takes alone: what follows them does not matter.
pub proof fn lemma_decode_ignores_rest(b: Seq<u8>, rest: Seq<u8>)
    requires
        decode_entry(b) is Item,
    ensures
        decode_entry(b + rest) == decode_entry(b),
{
    let all = b + rest;
    lemma_decoded_entry(b);
    let size = decode_entry(b)->Item_1 as int;
    assert(all.subrange(0, 4) =~= b.subrange(0, 4));
    assert(all.subrange(4, 12) =~= b.subrange(4, 12));
    assert(all.subrange(12, 14) =~= b.subrange(12, 14));
    assert(all.subrange(14, 18) =~= b.subrange(14, 18));
    assert(all.subrange(4, size) =~= b.subrange(4, size));
    let key_end = 18 + decode_entry(b)->Item_0.key.len() as int;
    assert(all.subrange(18, key_end) =~= b.subrange(18, key_end));
    assert(all.subrange(key_end, size) =~= b.subrange(key_end, size));
}

/// A data file that scans without failure still does with one more record at its end,
/// and the scan gives one more hint: that of the record, at the position where the file
/// ended.
pub proof fn lemma_scan_append(data: Seq<u8>, entry: EntryModel, pos: nat)
    requires
        scan_failure(data) is None,
        entry.wf(),
    ensures
        scan_failure(data + entry.bytes()) is None,
        scan_hints(data + entry.bytes(), pos) == scan_hints(data, pos).push(
            HintModel::of(entry, (pos + data.len()) as u64),
        ),
    decreases data.len(),
{
    let all = data + entry.bytes();
    lemma_entry_layout(entry, Seq::empty());
    if data.len() == 0 {
        assert(all =~= entry.bytes());
        lemma_entry_round_trip(entry, Seq::empty());
        assert(entry.bytes() + Seq::<u8>::empty() =~= entry.bytes());
        let size = entry.size() as int;
        assert(all.subrange(size, all.len() as int) =~= Seq::<u8>::empty());
        assert(scan_hints(Seq::<u8>::empty(), pos + entry.size()) == Seq::<HintModel>::empty());
        assert(scan_failure(Seq::<u8>::empty()) is None);
        assert(scan_hints(data, pos) == Seq::<HintModel>::empty());
        assert(scan_hints(all, pos) =~= scan_hints(data, pos).push(
            HintModel::of(entry, (pos + data.len()) as u64),
        ));
    } else {
        lemma_decoded_entry(data);
        let first = decode_entry(data)->Item_0;
        let size = decode_entry(data)->Item_1;
        lemma_decode_ignores_rest(data, entry.bytes());
        let rest = data.subrange(size as int, data.len() as int);
        assert(all.subrange(size as int, all.len() as int) =~= rest + entry.bytes());
        lemma_scan_append(rest, entry, pos + size);
        assert(scan_hints(all, pos) =~= scan_hints(data, pos).push(
            HintModel::of(entry, (pos + data.len()) as u64),
        ));
    }
}

/// The index that recovery builds from the data files `disk` of the segments `order`, read
/// in that order: from each data file it takes the hints that its scan gives.
pub open spec fn recover(disk: Disk, order: Seq<u32>) -> IndexModel
    decreases order.len(),
{
    if order.len() == 0 {
        IndexModel::empty()
    } else {
        replay(recover(disk, order.drop_last()), scan_hints(disk[order.last()], 0), order.last())
    }
}

/// The list names each segment that has a data file once, in ascending order.
pub open spec fn lists(order: Seq<u32>, disk: Disk) -> bool {
    &&& forall|i: int, j: int| 0 <= i < j < order.len() ==> order[i] < order[j]
    &&& forall|file_id: u32| disk.contains_key(file_id) <==> order.contains(file_id)
}

/// The store is what recovery would build from its data files: the files scan without
/// failure, recovery builds the store's index from them, the segment that is open is the
/// one read last, and every sequence number in the index lies behind the store's.
pub open spec fn persisted(state: CaskModel, disk: Disk, order: Seq<u32>) -> bool {
    &&& agrees(state, disk)
    &&& lists(order, disk)
    &&& forall|file_id: u32| #[trigger]
        disk.contains_key(file_id) ==> scan_failure(disk[file_id]) is None
    &&& state.index.map == recover(disk, order).map
    &&& state.log.log_writer.entry_writer matches Some(w) ==> order.len() > 0 && order.last()
        == w.file_id
    &&& forall|k: Seq<u8>| #[trigger]
        state.index.map.contains_key(k) ==> state.index.map[k].sequence
            < state.current_sequence
}

/// The segments in the order of recovery after what `written` asks for has been done: a
/// new segment is read last.
pub open spec fn order_after(order: Seq<u32>, written: Written) -> Seq<u32> {
    if written.log_write is NewFile {
        order.push(written.file_id)
    } else {
        order
    }
}

/// Recovery takes from a data file only if it reads the segment.
proof fn lemma_recover_ignores(disk: Disk, order: Seq<u32>, file_id: u32, data: Seq<u8>)
    requires
        !order.contains(file_id),
    ensures
        recover(disk.insert(file_id, data), order) == recover(disk, order),
    decreases order.len(),
{
    if order.len() > 0 {
        assert forall|f: u32| order.drop_last().contains(f) implies order.contains(f) by {
            let i = choose|i: int| 0 <= i < order.drop_last().len() && order.drop_last()[i] == f;
            assert(order[i] == f);
        }
        lemma_recover_ignores(disk, order.drop_last(), file_id, data);
        assert(order[order.len() - 1] == order.last());
    }
}

/// What appending a record does to recovery: it builds what it built before, reconciled
/// with the hint of the new record.
proof fn lemma_recover_append(
    state: CaskModel,
    disk: Disk,
    order: Seq<u32>,
    entry: EntryModel,
    written: Written,
)
    requires
        state.wf(),
        state.log.last_file_id < u32::MAX,
        persisted(state, disk, order),
        entry.wf(),
        written_as(written, state.log.log_writer, entry, state.log.next_file_id()),
    ensures
        ({
            let after = disk_after(disk, written);
            let next = order_after(order, written);
            let at = state.location(entry);
            &&& lists(next, after)
            &&& forall|file_id: u32| #[trigger]
                after.contains_key(file_id) ==> scan_failure(after[file_id]) is None
            &&& recover(after, next) == recover(disk, order).update(
                HintModel::of(entry, at.entry_pos),
                at.file_id,
            )
            &&& next.len() > 0 && next.last() == at.file_id
        }),
{
    let after = disk_after(disk, written);
    let next = order_after(order, written);
    let at = state.location(entry);
    let hint = HintModel::of(entry, at.entry_pos);
    let target = written.file_id;
    lemma_entry_layout(entry, Seq::empty());
    if written.log_write is NewFile {
        assert(!disk.contains_key(target));
        assert(!order.contains(target));
        assert(next.drop_last() =~= order);
        lemma_recover_ignores(disk, order, target, entry.bytes());
        lemma_scan_append(Seq::empty(), entry, 0);
        assert(Seq::<u8>::empty() + entry.bytes() =~= entry.bytes());
        assert(after[target] == entry.bytes());
        assert(scan_hints(Seq::<u8>::empty(), 0) == Seq::<HintModel>::empty());
        let hints = scan_hints(after[target], 0);
        assert(hints =~= seq![hint]);
        assert(hints.drop_last() =~= Seq::<HintModel>::empty());
        assert(replay(recover(disk, order), hints, target) == replay(
            recover(disk, order),
            hints.drop_last(),
            target,
        ).update(hints.last(), target));
        assert forall|i: int, j: int| 0 <= i < j < next.len() implies next[i] < next[j] by {
            if j == order.len() {
                assert(order.contains(order[i]));
                assert(disk.contains_key(order[i]));
            }
        }
        assert forall|file_id: u32| after.contains_key(file_id) <==> next.contains(file_id) by {
            if next.contains(file_id) {
                let i = choose|i: int| 0 <= i < next.len() && next[i] == file_id;
                if i < order.len() {
                    assert(order[i] == file_id);
                }
            }
            if order.contains(file_id) {
                let i = choose|i: int| 0 <= i < order.len() && order[i] == file_id;
                assert(next[i] == file_id);
            }
            if file_id == target {
                assert(next[order.len() as int] == target);
            }
        }
    } else {
        let data = disk[target];
        assert(order.len() > 0 && order.last() == target);
        assert(next == order);
        lemma_scan_append(data, entry, 0);
        let head = order.drop_last();
        assert(!head.contains(target)) by {
            if head.contains(target) {
                let i = choose|i: int| 0 <= i < head.len() && head[i] == target;
                assert(order[i] < order[order.len() - 1]);
            }
        }
        lemma_recover_ignores(disk, head, target, data + entry.bytes());
        let hints = scan_hints(after[target], 0);
        assert(hints.drop_last() =~= scan_hints(data, 0));
        assert(hints.last() == hint);
        assert forall|file_id: u32| after.contains_key(file_id) <==> next.contains(file_id) by {
            assert(order.contains(target));
        }
    }
}

/// Durability across reopening: a store that is what recovery would build from its data
/// files still is after a key has been set to a value, with the record appended to the
/// data file of its segment.
pub proof fn lemma_put_is_durable(
    state: CaskModel,
    disk: Disk,
    order: Seq<u32>,
    key: Seq<u8>,
    value: Seq<u8>,
    written: Written,
)
    requires
        state.wf(),
        state.has_room(),
        persisted(state, disk, order),
        key.len() <= MAX_KEY_SIZE,
        value.len() <= MAX_VALUE_SIZE,
        written_as(
            written,
            state.log.log_writer,
            state.put_entry(key, value),
            state.log.next_file_id(),
        ),
    ensures
        persisted(
            state.put(key, value),
            disk_after(disk, written),
            order_after(order, written),
        ),
{
    let entry = state.put_entry(key, value);
    let at = state.location(entry);
    let hint = HintModel::of(entry, at.entry_pos);
    lemma_read_your_write(state, disk, key, value, written);
    lemma_recover_append(state, disk, order, entry, written);
    assert(index_entry_of(hint, at.file_id) == at);
    let next = state.put(key, value);
    assert(next.index.map =~= recover(disk, order).update(hint, at.file_id).map);
    assert forall|k: Seq<u8>| #[trigger] next.index.map.contains_key(k) implies next.index.map[k].sequence
        < next.current_sequence by {
        if k != key {
            assert(state.index.map.contains_key(k));
        }
    }
}

/// Durability across reopening: a store that is what recovery would build from its data
/// files still is after a key has been deleted, with the tombstone, if one was written,
/// appended to the data file of its segment.
pub proof fn lemma_delete_is_durable(
    state: CaskModel,
    disk: Disk,
    order: Seq<u32>,
    key: Seq<u8>,
    written: Option<Written>,
)
    requires
        state.wf(),
        state.has_room(),
        persisted(state, disk, order),
        match written {
            Some(w) => state.index.map.contains_key(key) && written_as(
                w,
                state.log.log_writer,
                state.tombstone(key),
                state.log.next_file_id(),
            ),
            None => !state.index.map.contains_key(key),
        },
    ensures
        match written {
            Some(w) => persisted(state.delete(key), disk_after(disk, w), order_after(order, w)),
            None => persisted(state.delete(key), disk, order),
        },
{
    lemma_delete_then_read(state, disk, key, written);
    match written {
        Some(w) => {
            let entry = state.tombstone(key);
            let at = state.location(entry);
            let hint = HintModel::of(entry, at.entry_pos);
            lemma_recover_append(state, disk, order, entry, w);
            let next = state.delete(key);
            assert(next.index.map =~= recover(disk, order).update(hint, at.file_id).map);
            assert forall|k: Seq<u8>| #[trigger]
                next.index.map.contains_key(k) implies next.index.map[k].sequence
                < next.current_sequence by {
                assert(state.index.map.contains_key(k));
            }
        },
        None => {},
    }
}

/// A record that compaction copies is a copy: where the store and the data files agree and
/// a hint is that of the record which the index points its key at, the record that lies at
/// the hint's position is live, and wherever its bytes lie they give the value that a
/// read of the key gives.
pub proof fn lemma_copied_record_is_a_copy(
    state: CaskModel,
    disk: Disk,
    hint: HintModel,
    file_id: u32,
    after: Disk,
    copy: IndexEntry,
)
    requires
        agrees(state, disk),
        state.index.map.contains_key(hint.key),
        state.index.map[hint.key] == index_entry_of(hint, file_id),
        hint.entry_pos + hint.entry_size() <= u64::MAX,
        decode_entry(
            disk[file_id].subrange(hint.entry_pos as int, disk[file_id].len() as int),
        ) matches Decoded::Item(entry, _) && bytes_at(after, copy) == entry.bytes(),
    ensures
        decode_entry(
            disk[file_id].subrange(hint.entry_pos as int, disk[file_id].len() as int),
        ) matches Decoded::Item(entry, _) && entry.key == hint.key && entry.sequence
            == hint.sequence && !entry.deleted && value_of(bytes_at(after, copy)) == read(
            state,
            disk,
            hint.key,
        ),
{
    let at = state.index.map[hint.key];
    let data = disk[file_id];
    assert(points_at_record(disk, hint.key, at));
    let exact = bytes_at(disk, at);
    let from = data.subrange(hint.entry_pos as int, data.len() as int);
    let rest = data.subrange(at.entry_pos + at.entry_size, data.len() as int);
    assert(from =~= exact + rest);
    lemma_decode_ignores_rest(exact, rest);
    lemma_decoded_entry(exact);
    let entry = decode_entry(exact)->Item_0;
    lemma_entry_round_trip(entry, Seq::empty());
    assert(entry.bytes() + Seq::<u8>::empty() =~= entry.bytes());
}

/// A record is read from the bytes it takes: cut to those, the bytes read the same.
pub proof fn lemma_decode_exact(b: Seq<u8>)
    requires
        decode_entry(b) is Item,
    ensures
        decode_entry(b.subrange(0, decode_entry(b)->Item_1 as int)) == decode_entry(b),
{
    lemma_decoded_entry(b);
    let size = decode_entry(b)->Item_1 as int;
    let cut = b.subrange(0, size);
    assert(cut.subrange(0, 4) =~= b.subrange(0, 4));
    assert(cut.subrange(4, 12) =~= b.subrange(4, 12));
    assert(cut.subrange(12, 14) =~= b.subrange(12, 14));
    assert(cut.subrange(14, 18) =~= b.subrange(14, 18));
    assert(cut.subrange(4, size) =~= b.subrange(4, size));
    let key_end = 18 + decode_entry(b)->Item_0.key.len() as int;
    assert(cut.subrange(18, key_end) =~= b.subrange(18, key_end));
    assert(cut.subrange(key_end, size) =~= b.subrange(key_end, size));
}

/// The hint `hint` is that of a record of the data file content `data`: at its position
/// lies a whole record of its key, sequence number, kind and size.
pub open spec fn hint_of_record(data: Seq<u8>, hint: HintModel) -> bool {
    &&& hint.entry_pos + hint.entry_size() <= data.len()
    &&& decode_entry(data.subrange(hint.entry_pos as int, hint.entry_pos + hint.entry_size()))
        matches Decoded::Item(entry, size)
    &&& entry.key == hint.key
    &&& entry.sequence == hint.sequence
    &&& entry.deleted == hint.deleted
    &&& size == hint.entry_size()
}

/// Every hint that the scan of a data file gives is that of a record of the file.
pub proof fn lemma_scan_is_faithful(data: Seq<u8>, from: nat)
    requires
        from <= data.len() <= u64::MAX,
    ensures
        forall|i: int|
            0 <= i < scan_hints(data.subrange(from as int, data.len() as int), from).len()
                ==> hint_of_record(
                data,
                #[trigger] scan_hints(data.subrange(from as int, data.len() as int), from)[i],
            ),
    decreases data.len() - from,
{
    let b = data.subrange(from as int, data.len() as int);
    if b.len() > 0 {
        lemma_decoded_entry(b);
        match decode_entry(b) {
            Decoded::Item(entry, size) => {
                let rest = b.subrange(size as int, b.len() as int);
                assert(rest =~= data.subrange((from + size) as int, data.len() as int));
                lemma_scan_is_faithful(data, from + size);
                let hint = HintModel::of(entry, from as u64);
                lemma_hint_of_entry(entry, from as u64);
                lemma_decode_exact(b);
                assert(b.subrange(0, size as int) =~= data.subrange(from as int, (from + size) as int));
                assert(hint_of_record(data, hint));
                let tail = scan_hints(rest, from + size);
                let hints = scan_hints(b, from);
                assert(hints == seq![hint] + tail);
                assert forall|i: int| 0 <= i < hints.len() implies hint_of_record(
                    data,
                    #[trigger] hints[i],
                ) by {
                    if i > 0 {
                        assert(hints[i] == tail[i - 1]);
                    }
                }
            },
            Decoded::Corrupt { size, .. } => {
                let rest = b.subrange(size as int, b.len() as int);
                assert(rest =~= data.subrange((from + size) as int, data.len() as int));
                lemma_scan_is_faithful(data, from + size);
                assert(scan_hints(b, from) == scan_hints(rest, from + size));
            },
            Decoded::Short => {
                assert(scan_hints(b, from).len() == 0);
            },
        }
    } else {
        assert(scan_hints(b, from).len() == 0);
    }
}

/// Every index entry points at a live record of its key.
pub open spec fn sound(index: Map<Seq<u8>, IndexEntry>, disk: Disk) -> bool {
    forall|k: Seq<u8>| #[trigger] index.contains_key(k) ==> points_at_record(disk, k, index[k])
}

/// An index that points at records still does after it has been reconciled with hints of
/// records.
pub proof fn lemma_replay_is_sound(
    index: IndexModel,
    hints: Seq<HintModel>,
    file_id: u32,
    disk: Disk,
)
    requires
        sound(index.map, disk),
        disk.contains_key(file_id),
        disk[file_id].len() <= u64::MAX,
        forall|i: int| 0 <= i < hints.len() ==> hint_of_record(disk[file_id], #[trigger] hints[i]),
    ensures
        sound(replay(index, hints, file_id).map, disk),
    decreases hints.len(),
{
    if hints.len() > 0 {
        let head = hints.drop_last();
        let last = hints.last();
        assert forall|i: int| 0 <= i < head.len() implies hint_of_record(
            disk[file_id],
            #[trigger] head[i],
        ) by {
            assert(head[i] == hints[i]);
        }
        lemma_replay_is_sound(index, head, file_id, disk);
        let before = replay(index, head, file_id);
        let after = before.update(last, file_id);
        assert(hint_of_record(disk[file_id], hints[hints.len() - 1]));
        assert forall|k: Seq<u8>| #[trigger] after.map.contains_key(k) implies points_at_record(
            disk,
            k,
            after.map[k],
        ) by {
            if k != last.key {
                assert(before.map.contains_key(k));
            } else if after.map[k] != index_entry_of(last, file_id) {
                assert(before.map.contains_key(k));
            }
        }
    }
}

/// The index after hints keeps every sequence number within the largest seen.
pub proof fn lemma_load_is_bounded(gathered: RecoveryModel, hints: Seq<HintModel>, file_id: u32)
    requires
        forall|k: Seq<u8>| #[trigger]
            gathered.index.map.contains_key(k) ==> gathered.index.map[k].sequence
                <= gathered.sequence,
    ensures
        ({
            let after = gathered.load(hints, file_id);
            &&& after.sequence >= gathered.sequence
            &&& forall|k: Seq<u8>| #[trigger]
                after.index.map.contains_key(k) ==> after.index.map[k].sequence
                    <= after.sequence
        }),
    decreases hints.len(),
{
    if hints.len() > 0 {
        let head = hints.drop_last();
        let last = hints.last();
        lemma_load_is_bounded(gathered, head, file_id);
        let before = gathered.load(head, file_id);
        let after = gathered.load(hints, file_id);
        assert(after.index == before.index.update(last, file_id));
        assert forall|k: Seq<u8>| #[trigger] after.index.map.contains_key(k) implies after.index.map[k].sequence
            <= after.sequence by {
            if k != last.key {
                assert(before.index.map.contains_key(k));
            } else if before.index.map.contains_key(k) {
                assert(before.index.map[k].sequence <= before.sequence);
            }
        }
    }
}

/// What recovery gathers from the data files `disk` of the segments `order`, read in that
/// order.
pub open spec fn gather(disk: Disk, order: Seq<u32>) -> RecoveryModel
    decreases order.len(),
{
    if order.len() == 0 {
        RecoveryModel { index: IndexModel::empty(), sequence: 0 }
    } else {
        gather(disk, order.drop_last()).load(scan_hints(disk[order.last()], 0), order.last())
    }
}

/// What recovery gathers from data files: the index that it builds from them, which points
/// at records, and a sequence number that none in the index exceeds.
pub proof fn lemma_gather(disk: Disk, order: Seq<u32>)
    requires
        forall|i: int|
            0 <= i < order.len() ==> disk.contains_key(#[trigger] order[i]) && disk[order[i]].len()
                <= u64::MAX,
    ensures
        gather(disk, order).index == recover(disk, order),
        sound(recover(disk, order).map, disk),
        forall|k: Seq<u8>| #[trigger]
            recover(disk, order).map.contains_key(k) ==> recover(disk, order).map[k].sequence
                <= gather(disk, order).sequence,
    decreases order.len(),
{
    if order.len() > 0 {
        let head = order.drop_last();
        let last = order.last();
        assert forall|i: int| 0 <= i < head.len() implies disk.contains_key(#[trigger] head[i])
            && disk[head[i]].len() <= u64::MAX by {
            assert(head[i] == order[i]);
        }
        lemma_gather(disk, head);
        assert(order[order.len() - 1] == last);
        let data = disk[last];
        assert(data.subrange(0, data.len() as int) =~= data);
        lemma_scan_is_faithful(data, 0);
        lemma_replay_is_sound(recover(disk, head), scan_hints(data, 0), last, disk);
        lemma_load_is_bounded(gather(disk, head), scan_hints(data, 0), last);
    }
}

/// Durability across reopening: the store that recovery ends in, over data files that scan
/// without failure, is what recovery would build from them. So where the store that wrote
/// the files was that too, the reopened store holds the same keys at the same places, and
/// a read of any key gives what it gave.
pub proof fn lemma_reopening_is_persisted(disk: Disk, order: Seq<u32>, state: CaskModel)
    requires
        lists(order, disk),
        forall|file_id: u32| #[trigger]
            disk.contains_key(file_id) ==> scan_failure(disk[file_id]) is None
                && disk[file_id].len() <= u64::MAX,
        gather(disk, order).sequence < u64::MAX,
        state.index == gather(disk, order).index,
        state.current_sequence == gather(disk, order).sequence + 1,
        state.log.log_writer.entry_writer is None,
        state.log.last_file_id == if order.len() == 0 {
            0
        } else {
            order.last()
        },
    ensures
        persisted(state, disk, order),
        forall|before: CaskModel, k: Seq<u8>|
            persisted(before, disk, order) ==> read(state, disk, k) == #[trigger] read(
                before,
                disk,
                k,
            ),
{
    assert forall|i: int| 0 <= i < order.len() implies disk.contains_key(#[trigger] order[i])
        && disk[order[i]].len() <= u64::MAX by {
        assert(order.contains(order[i]));
    }
    lemma_gather(disk, order);
    assert forall|file_id: u32| #[trigger] disk.contains_key(file_id) implies file_id
        <= state.log.last_file_id by {
        assert(order.contains(file_id));
        let i = choose|i: int| 0 <= i < order.len() && order[i] == file_id;
        if i < order.len() - 1 {
            assert(order[i] < order[order.len() - 1]);
        }
    }
}

/// The writer of a segment has written the records `entries`, and nothing else: it has
/// counted their bytes, and its hint file holds their hints.
pub open spec fn has_written(writer: EntryWriterModel, entries: Seq<EntryModel>) -> bool {
    &&& writer.data_file_pos == entries_bytes(entries).len()
    &&& writer.hints == hints_bytes(hints_of(entries, 0))
}

/// The writer keeps its hint file in step with its data file: where it has written some
/// records to the open segment, it has, after one more record, written those and the one;
/// and to a segment that it opens for a record it has written that one.
pub proof fn lemma_writer_keeps_step(
    writer: LogWriterModel,
    entries: Seq<EntryModel>,
    entry: EntryModel,
    next_id: u32,
)
    requires
        writer.wf(),
        entry.wf(),
        writer.entry_writer matches Some(w) ==> has_written(w, entries),
    ensures
        writer.write(entry, next_id).entry_writer matches Some(w) && has_written(
            w,
            if writer.rotates(entry.size()) {
                seq![entry]
            } else {
                entries.push(entry)
            },
        ),
{
    lemma_entry_layout(entry, Seq::empty());
    let none = Seq::<EntryModel>::empty();
    if writer.rotates(entry.size()) {
        let one = seq![entry];
        assert(one.drop_last() =~= none);
        assert(one.last() == entry);
        assert(entries_bytes(none) == Seq::<u8>::empty());
        assert(hints_of(none, 0) == Seq::<HintModel>::empty());
        assert(entries_bytes(one) =~= entry.bytes());
        let hints = hints_of(one, 0);
        assert(hints =~= seq![HintModel::of(entry, 0)]);
        assert(hints.drop_last() =~= Seq::<HintModel>::empty());
        assert(hints_bytes(Seq::<HintModel>::empty()) == Seq::<u8>::empty());
        assert(hints_bytes(hints) =~= HintModel::of(entry, 0).bytes());
    } else {
        let w = writer.entry_writer->0;
        let grown = entries.push(entry);
        assert(grown.drop_last() =~= entries);
        assert(grown.last() == entry);
        let hints = hints_of(grown, 0);
        assert(hints.drop_last() =~= hints_of(entries, 0));
    }
}

/// Hint files summarise their data files: the hint file of a segment that the writer has
/// written and ended is whole, and holds the hints that a scan of the data file gives.
pub proof fn lemma_ended_hint_file_is_faithful(writer: EntryWriterModel, entries: Seq<EntryModel>)
    requires
        has_written(writer, entries),
        forall|i: int| 0 <= i < entries.len() ==> (#[trigger] entries[i]).wf(),
    ensures
        ({
            let hint_file = writer.hints + crate::bytes::u32_le_bytes(
                crate::util::checksum(writer.hints),
            );
            let data_file = entries_bytes(entries);
            &&& valid_hint_file(hint_file)
            &&& decode_hints(hint_file.subrange(0, hint_file.len() - 4)) == Some(
                scan_hints(data_file, 0),
            )
            &&& scan_failure(data_file) is None
        }),
{
    lemma_scan_entries(entries, 0);
    lemma_scan_hints(entries_bytes(entries), 0);
    lemma_hint_file_round_trip(hints_of(entries, 0));
}

} // verus!
