//! What the statistics add up to.
//!
//! The index counts, per segment, the records it has pointed at, those it points at no more,
//! and the bytes of the latter. This file states the balance that those counts keep with the
//! index itself, and proves that every change of the index keeps it.

use crate::cask::{keys_fit, replay};
use crate::data::{HintModel, MAX_KEY_SIZE};
use crate::index::{index_entry_of, lemma_roomy_update, IndexModel};
use crate::stats::{stats_roomy, IndexEntry, StatsModel};
use vstd::prelude::*;
use vstd::set_lib::*;

verus! {

/// The keys whose latest record lies in the segment `file_id`.
pub open spec fn live_keys(map: Map<Seq<u8>, IndexEntry>, file_id: u32) -> Set<Seq<u8>> {
    Set::new(|k: Seq<u8>| map.contains_key(k) && map[k].file_id == file_id)
}

/// The bytes that the records of `keys` take: the sum of their entry sizes.
pub open spec fn bytes_of(keys: Set<Seq<u8>>, map: Map<Seq<u8>, IndexEntry>) -> nat
    decreases keys.len(),
    when keys.finite()
{
    if keys.is_empty() {
        0
    } else {
        let k = keys.choose();
        map[k].entry_size as nat + bytes_of(keys.remove(k), map)
    }
}

/// The bytes that the live records of the segment `file_id` take.
pub open spec fn live_bytes(map: Map<Seq<u8>, IndexEntry>, file_id: u32) -> nat {
    bytes_of(live_keys(map, file_id), map)
}

/// The sum over a set is the term of any one element plus the sum over the rest.
proof fn lemma_bytes_of_remove(keys: Set<Seq<u8>>, map: Map<Seq<u8>, IndexEntry>, k: Seq<u8>)
    requires
        keys.finite(),
        keys.contains(k),
    ensures
        bytes_of(keys, map) == map[k].entry_size + bytes_of(keys.remove(k), map),
    decreases keys.len(),
{
    let c = keys.choose();
    if c != k {
        lemma_bytes_of_remove(keys.remove(c), map, k);
        lemma_bytes_of_remove(keys.remove(k), map, c);
        assert(keys.remove(c).remove(k) =~= keys.remove(k).remove(c));
    }
}

/// The sum over a set depends on the entries of its elements only.
proof fn lemma_bytes_of_same(
    keys: Set<Seq<u8>>,
    a: Map<Seq<u8>, IndexEntry>,
    b: Map<Seq<u8>, IndexEntry>,
)
    requires
        keys.finite(),
        forall|k: Seq<u8>| keys.contains(k) ==> a[k].entry_size == b[k].entry_size,
    ensures
        bytes_of(keys, a) == bytes_of(keys, b),
    decreases keys.len(),
{
    if !keys.is_empty() {
        lemma_bytes_of_same(keys.remove(keys.choose()), a, b);
    }
}

proof fn lemma_live_keys_finite(map: Map<Seq<u8>, IndexEntry>, file_id: u32)
    requires
        map.dom().finite(),
    ensures
        live_keys(map, file_id).finite(),
{
    lemma_set_subset_finite(map.dom(), live_keys(map, file_id));
}

/// What pointing `key` at `entry` does to the live records of the segment `file_id`.
proof fn lemma_live_after_insert(
    map: Map<Seq<u8>, IndexEntry>,
    key: Seq<u8>,
    entry: IndexEntry,
    file_id: u32,
)
    requires
        map.dom().finite(),
    ensures
        ({
            let after = map.insert(key, entry);
            let left = map.contains_key(key) && map[key].file_id == file_id;
            let came = entry.file_id == file_id;
            &&& live_keys(after, file_id).len() + (if left {
                1nat
            } else {
                0
            }) == live_keys(map, file_id).len() + (if came {
                1nat
            } else {
                0
            })
            &&& live_bytes(after, file_id) + (if left {
                map[key].entry_size as nat
            } else {
                0
            }) == live_bytes(map, file_id) + (if came {
                entry.entry_size as nat
            } else {
                0
            })
        }),
{
    let after = map.insert(key, entry);
    let before_keys = live_keys(map, file_id);
    let after_keys = live_keys(after, file_id);
    let rest = before_keys.remove(key);
    lemma_live_keys_finite(map, file_id);
    lemma_live_keys_finite(after, file_id);
    assert(after_keys.remove(key) =~= rest);
    lemma_bytes_of_same(rest, map, after);
    if before_keys.contains(key) {
        lemma_bytes_of_remove(before_keys, map, key);
    } else {
        assert(rest =~= before_keys);
    }
    if after_keys.contains(key) {
        lemma_bytes_of_remove(after_keys, after, key);
    } else {
        assert(after_keys =~= rest);
    }
}

/// What taking `key` out does to the live records of the segment `file_id`.
proof fn lemma_live_after_remove(map: Map<Seq<u8>, IndexEntry>, key: Seq<u8>, file_id: u32)
    requires
        map.dom().finite(),
    ensures
        ({
            let after = map.remove(key);
            let left = map.contains_key(key) && map[key].file_id == file_id;
            &&& live_keys(after, file_id).len() + (if left {
                1nat
            } else {
                0
            }) == live_keys(map, file_id).len()
            &&& live_bytes(after, file_id) + (if left {
                map[key].entry_size as nat
            } else {
                0
            }) == live_bytes(map, file_id)
        }),
{
    let after = map.remove(key);
    let before_keys = live_keys(map, file_id);
    let after_keys = live_keys(after, file_id);
    lemma_live_keys_finite(map, file_id);
    assert(after_keys =~= before_keys.remove(key));
    lemma_bytes_of_same(after_keys, map, after);
    if before_keys.contains(key) {
        lemma_bytes_of_remove(before_keys, map, key);
    } else {
        assert(after_keys =~= before_keys);
    }
}

/// No key points into a segment without live records.
proof fn lemma_live_none(map: Map<Seq<u8>, IndexEntry>, file_id: u32)
    requires
        forall|k: Seq<u8>| map.contains_key(k) ==> map[k].file_id != file_id,
    ensures
        live_keys(map, file_id).len() == 0,
        live_bytes(map, file_id) == 0,
{
    assert(live_keys(map, file_id) =~= Set::<Seq<u8>>::empty());
}

/// The bytes of all records counted per segment, after one more record of `size` bytes
/// has been counted in the segment `file_id`. A segment that had no counts starts anew.
pub open spec fn add_total(
    totals: Map<u32, nat>,
    stats: StatsModel,
    file_id: u32,
    size: u64,
) -> Map<u32, nat> {
    if stats.contains_key(file_id) {
        totals.insert(file_id, totals[file_id] + size as nat)
    } else {
        totals.insert(file_id, size as nat)
    }
}

impl IndexModel {
    /// The counts of the segment `file_id` balance: every record counted is either live or
    /// counted as dead, and so is every byte of `totals`.
    pub open spec fn balanced(self, totals: Map<u32, nat>, file_id: u32) -> bool {
        self.stats.contains_key(file_id) ==> {
            &&& totals.contains_key(file_id)
            &&& self.stats[file_id].entries == self.stats[file_id].dead_entries + live_keys(
                self.map,
                file_id,
            ).len()
            &&& totals[file_id] == self.stats[file_id].dead_bytes + live_bytes(self.map, file_id)
        }
    }

    /// The statistics account for the index: every live record lies in a segment that has
    /// counts, and the counts of every segment balance, where `totals` gives for each
    /// segment the bytes of all its records that were counted.
    pub open spec fn accounted(self, totals: Map<u32, nat>) -> bool {
        &&& self.map.dom().finite()
        &&& forall|k: Seq<u8>| #[trigger]
            self.map.contains_key(k) ==> self.stats.contains_key(self.map[k].file_id)
        &&& forall|file_id: u32| self.balanced(totals, file_id)
    }

    /// Whether reconciling with `hint` counts the hint's record.
    pub open spec fn counts(self, hint: HintModel) -> bool {
        if self.map.contains_key(hint.key) && self.map[hint.key].sequence > hint.sequence {
            true
        } else {
            !hint.deleted
        }
    }
}

/// Stats consistency: where the statistics account for the index, no segment has more dead
/// records than records, nor more dead bytes than its records take together.
pub proof fn lemma_stats_consistent(index: IndexModel, totals: Map<u32, nat>, file_id: u32)
    requires
        index.accounted(totals),
        index.stats.contains_key(file_id),
    ensures
        index.stats[file_id].dead_entries <= index.stats[file_id].entries,
        index.stats[file_id].dead_bytes <= totals[file_id],
{
    assert(index.balanced(totals, file_id));
}

/// The statistics of the empty index account for it.
pub proof fn lemma_accounted_empty()
    ensures
        IndexModel::empty().accounted(Map::empty()),
{
}

/// An insertion keeps the statistics accounting for the index; the new record's bytes are
/// added to its segment's total.
pub proof fn lemma_accounted_insert(
    index: IndexModel,
    totals: Map<u32, nat>,
    key: Seq<u8>,
    entry: IndexEntry,
)
    requires
        index.accounted(totals),
        index.can_insert(key, entry),
    ensures
        index.insert(key, entry).accounted(
            add_total(totals, index.stats, entry.file_id, entry.entry_size),
        ),
{
    let after = index.insert(key, entry);
    let after_totals = add_total(totals, index.stats, entry.file_id, entry.entry_size);
    assert(after.map.dom() =~= index.map.dom().insert(key));
    assert forall|k: Seq<u8>| #[trigger] after.map.contains_key(k) implies after.stats.contains_key(
        after.map[k].file_id,
    ) by {
        if k != key {
            assert(index.map.contains_key(k));
        }
    }
    assert forall|file_id: u32| after.balanced(after_totals, file_id) by {
        assert(index.balanced(totals, file_id));
        lemma_live_after_insert(index.map, key, entry, file_id);
        if !index.stats.contains_key(file_id) {
            assert forall|k: Seq<u8>| index.map.contains_key(k) implies index.map[k].file_id
                != file_id by {
                assert(index.stats.contains_key(index.map[k].file_id));
            }
            lemma_live_none(index.map, file_id);
        }
    }
}

/// A removal keeps the statistics accounting for the index.
pub proof fn lemma_accounted_remove(index: IndexModel, totals: Map<u32, nat>, key: Seq<u8>)
    requires
        index.accounted(totals),
        index.can_remove(key),
    ensures
        index.remove(key).accounted(totals),
{
    let after = index.remove(key);
    if index.map.contains_key(key) {
        assert(after.map.dom() =~= index.map.dom().remove(key));
        assert forall|k: Seq<u8>| #[trigger]
            after.map.contains_key(k) implies after.stats.contains_key(after.map[k].file_id) by {
            assert(index.map.contains_key(k));
        }
        assert forall|file_id: u32| after.balanced(totals, file_id) by {
            assert(index.balanced(totals, file_id));
            lemma_live_after_remove(index.map, key, file_id);
        }
    }
}

/// Reconciling with a hint keeps the statistics accounting for the index; where the hint's
/// record is counted, its bytes are added to its segment's total.
pub proof fn lemma_accounted_update(
    index: IndexModel,
    totals: Map<u32, nat>,
    hint: HintModel,
    file_id: u32,
)
    requires
        index.accounted(totals),
        hint.key.len() <= MAX_KEY_SIZE,
        index.can_update(hint, file_id),
    ensures
        index.update(hint, file_id).accounted(
            if index.counts(hint) {
                add_total(totals, index.stats, file_id, index_entry_of(hint, file_id).entry_size)
            } else {
                totals
            },
        ),
{
    let entry = index_entry_of(hint, file_id);
    let after = index.update(hint, file_id);
    let after_totals = if index.counts(hint) {
        add_total(totals, index.stats, file_id, entry.entry_size)
    } else {
        totals
    };
    if index.map.contains_key(hint.key) && index.map[hint.key].sequence <= hint.sequence
        && hint.deleted {
        let stored = index.map[hint.key];
        assert(after =~= index.remove(hint.key));
        lemma_accounted_remove(index, totals, hint.key);
    } else if index.map.contains_key(hint.key) && index.map[hint.key].sequence > hint.sequence {
        assert forall|f: u32| after.balanced(after_totals, f) by {
            assert(index.balanced(totals, f));
            if !index.stats.contains_key(f) {
                assert forall|k: Seq<u8>| index.map.contains_key(k) implies index.map[k].file_id
                    != f by {
                    assert(index.stats.contains_key(index.map[k].file_id));
                }
                lemma_live_none(index.map, f);
            }
        }
        assert forall|k: Seq<u8>| #[trigger]
            after.map.contains_key(k) implies after.stats.contains_key(after.map[k].file_id) by {
            assert(index.stats.contains_key(index.map[k].file_id));
        }
    } else if !hint.deleted {
        assert(after.map.dom() =~= index.map.dom().insert(hint.key));
        assert forall|k: Seq<u8>| #[trigger]
            after.map.contains_key(k) implies after.stats.contains_key(after.map[k].file_id) by {
            if k != hint.key {
                assert(index.map.contains_key(k));
                assert(index.stats.contains_key(index.map[k].file_id));
            }
        }
        assert forall|f: u32| after.balanced(after_totals, f) by {
            assert(index.balanced(totals, f));
            lemma_live_after_insert(index.map, hint.key, entry, f);
            if !index.stats.contains_key(f) {
                assert forall|k: Seq<u8>| index.map.contains_key(k) implies index.map[k].file_id
                    != f by {
                    assert(index.stats.contains_key(index.map[k].file_id));
                }
                lemma_live_none(index.map, f);
            }
        }
    }
}

/// Dropping the counts of segments keeps the statistics accounting for the index, provided
/// that no live record lies in any of those segments.
pub proof fn lemma_accounted_remove_files(index: IndexModel, totals: Map<u32, nat>, files: Set<u32>)
    requires
        index.accounted(totals),
        forall|k: Seq<u8>| index.map.contains_key(k) ==> !files.contains(index.map[k].file_id),
    ensures
        index.remove_files(files).accounted(totals),
{
    let after = index.remove_files(files);
    assert forall|file_id: u32| after.balanced(totals, file_id) by {
        assert(index.balanced(totals, file_id));
    }
    assert forall|k: Seq<u8>| #[trigger] after.map.contains_key(k) implies after.stats.contains_key(
        after.map[k].file_id,
    ) by {
        assert(index.stats.contains_key(index.map[k].file_id));
    }
}

/// The bytes of all records counted per segment, after the index has been reconciled
/// with the hints `hints` of the segment `file_id`, one after the other.
pub open spec fn totals_after(
    index: IndexModel,
    totals: Map<u32, nat>,
    hints: Seq<HintModel>,
    file_id: u32,
) -> Map<u32, nat>
    decreases hints.len(),
{
    if hints.len() == 0 {
        totals
    } else {
        let before = replay(index, hints.drop_last(), file_id);
        let counted = totals_after(index, totals, hints.drop_last(), file_id);
        if before.counts(hints.last()) {
            add_total(
                counted,
                before.stats,
                file_id,
                index_entry_of(hints.last(), file_id).entry_size,
            )
        } else {
            counted
        }
    }
}

/// Reconciling with the hints of a segment, as recovery and compaction do, keeps the
/// statistics accounting for the index, as long as the counts have room for the hints.
pub proof fn lemma_accounted_replay(
    index: IndexModel,
    totals: Map<u32, nat>,
    hints: Seq<HintModel>,
    file_id: u32,
)
    requires
        index.accounted(totals),
        index.sizes_fit(),
        keys_fit(hints),
        stats_roomy(index.stats, hints.len()),
    ensures
        replay(index, hints, file_id).accounted(totals_after(index, totals, hints, file_id)),
        replay(index, hints, file_id).sizes_fit(),
        stats_roomy(replay(index, hints, file_id).stats, 0),
    decreases hints.len(),
{
    lemma_replay_room(index, hints, file_id, hints.len());
}

/// Reconciling with hints uses up room for one change with each hint.
proof fn lemma_replay_room(index: IndexModel, hints: Seq<HintModel>, file_id: u32, room: nat)
    requires
        index.sizes_fit(),
        keys_fit(hints),
        room >= hints.len(),
        stats_roomy(index.stats, room),
        exists|totals: Map<u32, nat>| index.accounted(totals),
    ensures
        replay(index, hints, file_id).sizes_fit(),
        stats_roomy(replay(index, hints, file_id).stats, (room - hints.len()) as nat),
        forall|totals: Map<u32, nat>|
            index.accounted(totals) ==> replay(index, hints, file_id).accounted(
                #[trigger] totals_after(index, totals, hints, file_id),
            ),
    decreases hints.len(),
{
    if hints.len() > 0 {
        let head = hints.drop_last();
        let last = hints.last();
        assert(keys_fit(head)) by {
            assert forall|i: int| 0 <= i < head.len() implies (#[trigger] head[i]).key.len()
                <= MAX_KEY_SIZE by {
                assert(head[i] == hints[i]);
            }
        }
        lemma_replay_room(index, head, file_id, room);
        let before = replay(index, head, file_id);
        assert(hints[hints.len() - 1] == last);
        lemma_roomy_update(before, last, file_id, (room - head.len()) as nat);
        assert forall|totals: Map<u32, nat>| index.accounted(totals) implies replay(
            index,
            hints,
            file_id,
        ).accounted(#[trigger] totals_after(index, totals, hints, file_id)) by {
            lemma_accounted_update(before, totals_after(index, totals, head, file_id), last, file_id);
        }
    }
}

} // verus!
