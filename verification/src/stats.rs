//! Per-segment counts of records and of the space that dead records take.

use crate::data::MAX_ENTRY_SIZE;
use std::collections::HashMap;
use vstd::prelude::*;
use vstd::std_specs::hash::*;
use vstd::std_specs::iter::IteratorSpec;

verus! {

broadcast use vstd::std_specs::hash::group_hash_axioms;

/// Where the index says a key's latest record lies.
#[derive(Debug, Clone, Copy, PartialEq, Eq, Structural)]
pub struct IndexEntry {
    pub file_id: u32,
    pub entry_pos: u64,
    pub entry_size: u64,
    pub sequence: u64,
}

/// The counts kept for one segment.
#[derive(Debug, Clone, Copy, PartialEq, Eq, Structural)]
pub struct StatsEntry {
    /// How many records of the segment the index has pointed at.
    pub entries: u64,
    /// How many of those it no longer points at.
    pub dead_entries: u64,
    /// The bytes that those take in the data file.
    pub dead_bytes: u64,
}

/// The share of a segment's records that are dead, kept as the two counts: it stands for the
/// quotient `dead_entries / entries`.
#[derive(Debug, Clone, Copy, PartialEq, Eq, Structural)]
pub struct Fragmentation {
    pub dead_entries: u64,
    pub entries: u64,
}

/// A threshold for a share of records, as the quotient `numerator / denominator`.
#[derive(Debug, Clone, Copy, PartialEq, Eq, Structural)]
pub struct Ratio {
    pub numerator: u64,
    pub denominator: u64,
}

proof fn lemma_product_fits(a: u64, b: u64)
    ensures
        a * b <= u128::MAX,
{
    assert(a * b <= 0xFFFF_FFFF_FFFF_FFFF * 0xFFFF_FFFF_FFFF_FFFF) by (nonlinear_arith)
        requires
            0 <= a <= 0xFFFF_FFFF_FFFF_FFFF,
            0 <= b <= 0xFFFF_FFFF_FFFF_FFFF,
    ;
}

impl Fragmentation {
    /// The share is at least `threshold`: the comparison of the two quotients, made without
    /// dividing.
    pub open spec fn reaches(self, threshold: Ratio) -> bool {
        self.dead_entries * threshold.denominator >= threshold.numerator * self.entries
    }

    /// Whether the share is at least `threshold`.
    pub fn at_least(&self, threshold: &Ratio) -> (reached: bool)
        ensures
            reached == self.reaches(*threshold),
    {
        proof {
            lemma_product_fits(self.dead_entries, threshold.denominator);
            lemma_product_fits(threshold.numerator, self.entries);
        }
        let left: u128 = self.dead_entries as u128 * threshold.denominator as u128;
        let right: u128 = threshold.numerator as u128 * self.entries as u128;
        left >= right
    }
}

/// The row that a listing of the counts holds for the segment `file_id`.
pub open spec fn stats_row(file_id: u32, row: StatsEntry) -> (u32, Fragmentation, u64) {
    (file_id, Fragmentation { dead_entries: row.dead_entries, entries: row.entries }, row.dead_bytes)
}

/// The counts of every segment, as a mathematical map from segment id.
pub type StatsModel = Map<u32, StatsEntry>;

/// The counts after the index has come to point at one more record of `file_id`.
pub open spec fn stats_add(stats: StatsModel, file_id: u32) -> StatsModel {
    if stats.contains_key(file_id) {
        let row = stats[file_id];
        stats.insert(
            file_id,
            StatsEntry {
                entries: (row.entries + 1) as u64,
                dead_entries: row.dead_entries,
                dead_bytes: row.dead_bytes,
            },
        )
    } else {
        stats.insert(file_id, StatsEntry { entries: 1, dead_entries: 0, dead_bytes: 0 })
    }
}

/// The counts after the index has ceased to point at a record of `file_id` that takes
/// `entry_size` bytes. A segment without counts stays without.
pub open spec fn stats_remove(stats: StatsModel, file_id: u32, entry_size: u64) -> StatsModel {
    if stats.contains_key(file_id) {
        let row = stats[file_id];
        stats.insert(
            file_id,
            StatsEntry {
                entries: row.entries,
                dead_entries: (row.dead_entries + 1) as u64,
                dead_bytes: (row.dead_bytes + entry_size) as u64,
            },
        )
    } else {
        stats
    }
}

/// The count of records of `file_id` can take one more.
pub open spec fn stats_can_add(stats: StatsModel, file_id: u32) -> bool {
    stats.contains_key(file_id) ==> stats[file_id].entries < u64::MAX
}

/// The counts of dead records of `file_id` can take one more, of `entry_size` bytes.
pub open spec fn stats_can_remove(stats: StatsModel, file_id: u32, entry_size: u64) -> bool {
    stats.contains_key(file_id) ==> {
        &&& stats[file_id].dead_entries < u64::MAX
        &&& stats[file_id].dead_bytes + entry_size <= u64::MAX
    }
}

/// The counts have room for `records` more changes of the index, each of which counts one
/// record more, one dead record more, or both, of no more than the largest entry size.
pub open spec fn stats_roomy(stats: StatsModel, records: nat) -> bool {
    &&& records * MAX_ENTRY_SIZE <= u64::MAX
    &&& forall|file_id: u32| #[trigger]
        stats.contains_key(file_id) ==> {
            &&& stats[file_id].entries + records <= u64::MAX
            &&& stats[file_id].dead_entries + records <= u64::MAX
            &&& stats[file_id].dead_bytes + records * MAX_ENTRY_SIZE <= u64::MAX
        }
}

/// Live and dead record counts per segment, kept up to date by the index.
#[derive(Debug)]
pub struct Stats {
    map: HashMap<u32, StatsEntry>,
}

impl View for Stats {
    type V = StatsModel;

    closed spec fn view(&self) -> StatsModel {
        self.map@
    }
}

impl Stats {
    /// Counts for no segment.
    pub fn new() -> (stats: Stats)
        ensures
            stats@ == StatsModel::empty(),
    {
        Stats { map: HashMap::new() }
    }

    /// The counts of `file_id`, where there are any.
    pub fn get(&self, file_id: u32) -> (row: Option<StatsEntry>)
        ensures
            row == if self@.contains_key(file_id) {
                Some(self@[file_id])
            } else {
                None
            },
    {
        match self.map.get(&file_id) {
            Some(row) => Some(*row),
            None => None,
        }
    }

    /// Counts one more record of the segment that `entry` lies in.
    pub fn add_entry(&mut self, entry: &IndexEntry)
        requires
            stats_can_add(old(self)@, entry.file_id),
        ensures
            final(self)@ == stats_add(old(self)@, entry.file_id),
    {
        let row = match self.map.get(&entry.file_id) {
            Some(row) => StatsEntry {
                entries: row.entries + 1,
                dead_entries: row.dead_entries,
                dead_bytes: row.dead_bytes,
            },
            None => StatsEntry { entries: 1, dead_entries: 0, dead_bytes: 0 },
        };
        self.map.insert(entry.file_id, row);
    }

    /// Counts the record `entry` as dead in its segment. Does nothing where the segment has
    /// no counts.
    pub fn remove_entry(&mut self, entry: &IndexEntry)
        requires
            stats_can_remove(old(self)@, entry.file_id, entry.entry_size),
        ensures
            final(self)@ == stats_remove(old(self)@, entry.file_id, entry.entry_size),
    {
        let found = match self.map.get(&entry.file_id) {
            Some(row) => Some(
                StatsEntry {
                    entries: row.entries,
                    dead_entries: row.dead_entries + 1,
                    dead_bytes: row.dead_bytes + entry.entry_size,
                },
            ),
            None => None,
        };
        if let Some(row) = found {
            self.map.insert(entry.file_id, row);
        }
    }

    /// Drops the counts of the segments `files`.
    pub fn remove_files(&mut self, files: &[u32])
        ensures
            final(self)@ == old(self)@.remove_keys(files@.to_set()),
    {
        let mut i: usize = 0;
        while i < files.len()
            invariant
                i <= files@.len(),
                self@ == old(self)@.remove_keys(files@.subrange(0, i as int).to_set()),
            decreases files@.len() - i,
        {
            self.map.remove(&files[i]);
            proof {
                let before = files@.subrange(0, i as int);
                let after = files@.subrange(0, i + 1);
                assert(after =~= before.push(files@[i as int]));
                assert forall|f: u32| after.to_set().contains(f) <==> (before.to_set().contains(f)
                    || f == files@[i as int]) by {
                    if after.to_set().contains(f) {
                        let j = choose|j: int| 0 <= j < after.len() && after[j] == f;
                        if j < i {
                            assert(before[j] == f);
                        }
                    }
                    if before.to_set().contains(f) {
                        let j = choose|j: int| 0 <= j < before.len() && before[j] == f;
                        assert(after[j] == f);
                    }
                    if f == files@[i as int] {
                        assert(after[i as int] == f);
                    }
                }
                assert(self@ =~= old(self)@.remove_keys(after.to_set()));
            }
            i += 1;
        }
        assert(files@.subrange(0, files@.len() as int) =~= files@);
    }

    /// One row for each segment that has counts, in no particular order: its id, the share of
    /// its records that are dead, and the bytes those take.
    pub fn file_stats(&self) -> (rows: Vec<(u32, Fragmentation, u64)>)
        ensures
            rows@.len() == self@.dom().len(),
            forall|i: int|
                0 <= i < rows@.len() ==> self@.contains_key(#[trigger] rows@[i].0) && rows@[i]
                    == stats_row(rows@[i].0, self@[rows@[i].0]),
            forall|i: int, j: int|
                0 <= i < j < rows@.len() ==> (#[trigger] rows@[i]).0 != (#[trigger] rows@[j]).0,
            forall|file_id: u32| #[trigger]
                self@.contains_key(file_id) ==> exists|i: int|
                    0 <= i < rows@.len() && (#[trigger] rows@[i]).0 == file_id,
    {
        let mut rows: Vec<(u32, Fragmentation, u64)> = Vec::new();
        let ghost all = spec_hash_map_iter(&self.map).remaining();
        proof {
            axiom_spec_hash_map_iter(&self.map);
        }
        for item in it: self.map.iter()
            invariant
                it.seq() == all,
                all.no_duplicates(),
                all.len() == self.map@.dom().len(),
                forall|i: int|
                    0 <= i < all.len() ==> self.map@.contains_key(*(#[trigger] all[i]).0)
                        && self.map@[*all[i].0] == *all[i].1,
                rows@.len() == it.index(),
                forall|i: int|
                    0 <= i < rows@.len() ==> #[trigger] rows@[i] == stats_row(*all[i].0, *all[i].1),
        {
            let (file_id, row) = item;
            rows.push(
                (
                    *file_id,
                    Fragmentation { dead_entries: row.dead_entries, entries: row.entries },
                    row.dead_bytes,
                ),
            );
        }
        proof {
            assert forall|i: int, j: int| 0 <= i < j < rows@.len() implies (#[trigger] rows@[i]).0
                != (#[trigger] rows@[j]).0 by {
                if rows@[i].0 == rows@[j].0 {
                    assert(self.map@[*all[i].0] == *all[i].1);
                    assert(self.map@[*all[j].0] == *all[j].1);
                    assert(all[i] == all[j]);
                }
            }
            assert forall|file_id: u32| #[trigger] self@.contains_key(file_id) implies exists|
                i: int,
            |
                0 <= i < rows@.len() && (#[trigger] rows@[i]).0 == file_id by {
                let pair = (&file_id, &self.map@[file_id]);
                assert(all.contains(pair));
                let i = choose|i: int| 0 <= i < all.len() && all[i] == pair;
                assert(rows@[i].0 == file_id);
            }
        }
        rows
    }

    /// Whether the counts have room for `records` more changes of the index.
    pub fn has_room(&self, records: usize) -> (roomy: bool)
        ensures
            roomy == stats_roomy(self@, records as nat),
    {
        let bytes: u128 = records as u128 * MAX_ENTRY_SIZE as u128;
        if bytes > u64::MAX as u128 {
            return false;
        }
        let rows = self.file_stats();
        let mut i: usize = 0;
        while i < rows.len()
            invariant
                i <= rows@.len(),
                bytes == records * MAX_ENTRY_SIZE,
                bytes <= u64::MAX,
                forall|j: int|
                    0 <= j < rows@.len() ==> self@.contains_key(#[trigger] rows@[j].0) && rows@[j]
                        == stats_row(rows@[j].0, self@[rows@[j].0]),
                forall|j: int|
                    0 <= j < i ==> {
                        let row = self@[(#[trigger] rows@[j]).0];
                        &&& row.entries + records <= u64::MAX
                        &&& row.dead_entries + records <= u64::MAX
                        &&& row.dead_bytes + bytes <= u64::MAX
                    },
            decreases rows@.len() - i,
        {
            let (file_id, fragmentation, dead_bytes) = rows[i];
            assert(rows@[i as int] == stats_row(rows@[i as int].0, self@[rows@[i as int].0]));
            let fits = fragmentation.entries as u128 + records as u128 <= u64::MAX as u128
                && fragmentation.dead_entries as u128 + records as u128 <= u64::MAX as u128
                && dead_bytes as u128 + bytes <= u64::MAX as u128;
            if !fits {
                return false;
            }
            i += 1;
        }
        proof {
            assert forall|file_id: u32| #[trigger] self@.contains_key(file_id) implies {
                &&& self@[file_id].entries + records <= u64::MAX
                &&& self@[file_id].dead_entries + records <= u64::MAX
                &&& self@[file_id].dead_bytes + records * MAX_ENTRY_SIZE <= u64::MAX
            } by {
                let j = choose|j: int| 0 <= j < rows@.len() && (#[trigger] rows@[j]).0 == file_id;
                assert(self@[rows@[j].0].entries + records <= u64::MAX);
            }
        }
        true
    }
}

} // verus!
