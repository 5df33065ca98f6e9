//! The in-memory index: for every live key, where its latest record lies.
//!
//! Every change of the index is counted in the per-segment statistics, which compaction
//! goes by.

use crate::data::{Hint, HintModel, MAX_ENTRY_SIZE, MAX_KEY_SIZE};
use crate::stats::{
    stats_add, stats_can_add, stats_can_remove, stats_remove, stats_roomy, Fragmentation,
    IndexEntry, Stats, StatsModel,
};
use vstd::prelude::*;
use vstd::slice::slice_to_vec;

verus! {

/// Whether two byte strings are the same.
pub fn bytes_eq(a: &[u8], b: &[u8]) -> (same: bool)
    ensures
        same == (a@ == b@),
{
    if a.len() != b.len() {
        return false;
    }
    let mut i: usize = 0;
    while i < a.len()
        invariant
            i <= a@.len(),
            a@.len() == b@.len(),
            a@.subrange(0, i as int) == b@.subrange(0, i as int),
        decreases a@.len() - i,
    {
        if a[i] != b[i] {
            return false;
        }
        i += 1;
        assert(a@.subrange(0, i as int) =~= a@.subrange(0, i - 1).push(a@[i - 1]));
        assert(b@.subrange(0, i as int) =~= b@.subrange(0, i - 1).push(b@[i - 1]));
    }
    assert(a@ =~= a@.subrange(0, a@.len() as int));
    assert(b@ =~= b@.subrange(0, b@.len() as int));
    true
}

/// The byte strings that a list of keys holds.
pub open spec fn key_views(keys: Seq<Vec<u8>>) -> Seq<Seq<u8>> {
    Seq::new(keys.len(), |i: int| keys[i]@)
}

/// The byte strings and values that a list of pairs holds.
pub open spec fn pair_views<V>(pairs: Seq<(Vec<u8>, V)>) -> Seq<(Seq<u8>, V)> {
    Seq::new(pairs.len(), |i: int| (pairs[i].0@, pairs[i].1))
}

/// A map from keys to values, kept as a list in which no key occurs twice.
pub struct KeyMap<V> {
    slots: Vec<(Vec<u8>, V)>,
}

impl<V> View for KeyMap<V> {
    type V = Map<Seq<u8>, V>;

    closed spec fn view(&self) -> Map<Seq<u8>, V> {
        Map::new(
            |k: Seq<u8>| exists|i: int| 0 <= i < self.slots@.len() && self.slots@[i].0@ == k,
            |k: Seq<u8>|
                self.slots@[choose|i: int| 0 <= i < self.slots@.len() && self.slots@[i].0@ == k].1,
        )
    }
}

impl<V: Copy> KeyMap<V> {
    /// No key occurs twice in the list.
    pub closed spec fn wf(&self) -> bool {
        forall|i: int, j: int|
            0 <= i < j < self.slots@.len() ==> (#[trigger] self.slots@[i]).0@ != (
            #[trigger] self.slots@[j]).0@
    }

    /// The keys in the order of the list.
    pub closed spec fn key_list(&self) -> Seq<Seq<u8>> {
        Seq::new(self.slots@.len(), |i: int| self.slots@[i].0@)
    }

    proof fn lemma_slot(&self, i: int)
        requires
            self.wf(),
            0 <= i < self.slots@.len(),
        ensures
            self@.contains_key(self.slots@[i].0@),
            self@[self.slots@[i].0@] == self.slots@[i].1,
    {
        let k = self.slots@[i].0@;
        let c = choose|c: int| 0 <= c < self.slots@.len() && self.slots@[c].0@ == k;
        if c < i {
            assert(self.slots@[c].0@ != self.slots@[i].0@);
        }
        if i < c {
            assert(self.slots@[i].0@ != self.slots@[c].0@);
        }
    }

    /// The list of keys holds each key of the map once, and nothing else.
    pub proof fn lemma_key_list(&self)
        requires
            self.wf(),
        ensures
            self.key_list().no_duplicates(),
            self.key_list().to_set() == self@.dom(),
            self@.dom().finite(),
            self@.dom().len() == self.key_list().len(),
    {
        let keys = self.key_list();
        assert forall|i: int, j: int| 0 <= i < keys.len() && 0 <= j < keys.len() && i != j implies keys[i]
            != keys[j] by {
            if i < j {
                assert(self.slots@[i].0@ != self.slots@[j].0@);
            } else {
                assert(self.slots@[j].0@ != self.slots@[i].0@);
            }
        }
        assert forall|k: Seq<u8>| keys.to_set().contains(k) <==> self@.dom().contains(k) by {
            if keys.to_set().contains(k) {
                let i = choose|i: int| 0 <= i < keys.len() && keys[i] == k;
                assert(self.slots@[i].0@ == k);
            }
            if self@.dom().contains(k) {
                let i = choose|i: int| 0 <= i < self.slots@.len() && self.slots@[i].0@ == k;
                assert(keys[i] == k);
            }
        }
        assert(keys.to_set() =~= self@.dom());
        keys.unique_seq_to_set();
        vstd::seq_lib::seq_to_set_is_finite(keys);
    }

    /// A map without keys.
    pub fn new() -> (map: KeyMap<V>)
        ensures
            map.wf(),
            map@ == Map::<Seq<u8>, V>::empty(),
    {
        let map = KeyMap { slots: Vec::new() };
        assert(map@ =~= Map::<Seq<u8>, V>::empty());
        map
    }

    /// The place of `key` in the list.
    fn find(&self, key: &[u8]) -> (found: Option<usize>)
        requires
            self.wf(),
        ensures
            match found {
                Some(i) => i < self.slots@.len() && self.slots@[i as int].0@ == key@
                    && self@.contains_key(key@) && self@[key@] == self.slots@[i as int].1,
                None => !self@.contains_key(key@) && forall|i: int|
                    0 <= i < self.slots@.len() ==> (#[trigger] self.slots@[i]).0@ != key@,
            },
    {
        let mut i: usize = 0;
        while i < self.slots.len()
            invariant
                i <= self.slots@.len(),
                self.wf(),
                forall|j: int| 0 <= j < i ==> (#[trigger] self.slots@[j]).0@ != key@,
            decreases self.slots@.len() - i,
        {
            if bytes_eq(self.slots[i].0.as_slice(), key) {
                proof {
                    self.lemma_slot(i as int);
                }
                return Some(i);
            }
            i += 1;
        }
        None
    }

    /// The entry of `key`, where it has one.
    pub fn get(&self, key: &[u8]) -> (entry: Option<V>)
        requires
            self.wf(),
        ensures
            entry == self@.get(key@),
    {
        match self.find(key) {
            Some(i) => Some(self.slots[i].1),
            None => None,
        }
    }

    /// Sets the entry of `key`, and returns the one it had.
    pub fn insert(&mut self, key: Vec<u8>, entry: V) -> (previous: Option<V>)
        requires
            old(self).wf(),
        ensures
            final(self).wf(),
            final(self)@ == old(self)@.insert(key@, entry),
            previous == old(self)@.get(key@),
    {
        match self.find(key.as_slice()) {
            Some(i) => {
                let previous = self.slots[i].1;
                let ghost before = self.slots@;
                self.slots.set(i, (key, entry));
                proof {
                    assert forall|a: int, b: int| 0 <= a < b < self.slots@.len() implies (
                    #[trigger] self.slots@[a]).0@ != (#[trigger] self.slots@[b]).0@ by {
                        assert(before[a].0@ != before[b].0@);
                    }
                    assert forall|k: Seq<u8>| #[trigger]
                        self@.contains_key(k) <==> old(self)@.insert(key@, entry).contains_key(
                            k,
                        ) by {
                        if self@.contains_key(k) {
                            let c = choose|c: int|
                                0 <= c < self.slots@.len() && self.slots@[c].0@ == k;
                            assert(before[c].0@ == k);
                        }
                        if old(self)@.contains_key(k) {
                            let c = choose|c: int| 0 <= c < before.len() && before[c].0@ == k;
                            assert(self.slots@[c].0@ == k);
                        }
                        if k == key@ {
                            assert(self.slots@[i as int].0@ == k);
                        }
                    }
                    assert forall|k: Seq<u8>| #[trigger] self@.contains_key(k) implies self@[k]
                        == old(self)@.insert(key@, entry)[k] by {
                        let c = choose|c: int| 0 <= c < self.slots@.len() && self.slots@[c].0@ == k;
                        self.lemma_slot(c);
                        if c != i {
                            old(self).lemma_slot(c);
                        }
                    }
                    assert(self@ =~= old(self)@.insert(key@, entry));
                }
                Some(previous)
            },
            None => {
                let ghost before = self.slots@;
                self.slots.push((key, entry));
                proof {
                    let n = before.len() as int;
                    assert forall|a: int, b: int| 0 <= a < b < self.slots@.len() implies (
                    #[trigger] self.slots@[a]).0@ != (#[trigger] self.slots@[b]).0@ by {
                        if b < n {
                            assert(before[a].0@ != before[b].0@);
                        } else {
                            assert(before[a].0@ != key@);
                        }
                    }
                    assert forall|k: Seq<u8>| #[trigger]
                        self@.contains_key(k) <==> old(self)@.insert(key@, entry).contains_key(
                            k,
                        ) by {
                        if self@.contains_key(k) {
                            let c = choose|c: int|
                                0 <= c < self.slots@.len() && self.slots@[c].0@ == k;
                            if c < n {
                                assert(before[c].0@ == k);
                            }
                        }
                        if old(self)@.contains_key(k) {
                            let c = choose|c: int| 0 <= c < before.len() && before[c].0@ == k;
                            assert(self.slots@[c].0@ == k);
                        }
                        if k == key@ {
                            assert(self.slots@[n].0@ == k);
                        }
                    }
                    assert forall|k: Seq<u8>| #[trigger] self@.contains_key(k) implies self@[k]
                        == old(self)@.insert(key@, entry)[k] by {
                        let c = choose|c: int| 0 <= c < self.slots@.len() && self.slots@[c].0@ == k;
                        self.lemma_slot(c);
                        if c < n {
                            old(self).lemma_slot(c);
                        }
                    }
                    assert(self@ =~= old(self)@.insert(key@, entry));
                }
                None
            },
        }
    }

    /// Takes `key` out of the map, and returns the entry it had.
    pub fn remove(&mut self, key: &[u8]) -> (previous: Option<V>)
        requires
            old(self).wf(),
        ensures
            final(self).wf(),
            final(self)@ == old(self)@.remove(key@),
            previous == old(self)@.get(key@),
    {
        match self.find(key) {
            Some(i) => {
                let ghost before = self.slots@;
                let ghost n = before.len() as int;
                let slot = self.slots.swap_remove(i);
                proof {
                    // The last slot has moved to place `i`; `origin` says where each slot was.
                    let origin = |a: int|
                        if a == i as int {
                            n - 1
                        } else {
                            a
                        };
                    assert forall|a: int| 0 <= a < self.slots@.len() implies #[trigger] self.slots@[a]
                        == before[origin(a)] by {}
                    assert forall|a: int, b: int| 0 <= a < b < self.slots@.len() implies (
                    #[trigger] self.slots@[a]).0@ != (#[trigger] self.slots@[b]).0@ by {
                        let oa = origin(a);
                        let ob = origin(b);
                        assert(self.slots@[a] == before[oa]);
                        assert(self.slots@[b] == before[ob]);
                        if oa < ob {
                            assert(before[oa].0@ != before[ob].0@);
                        } else {
                            assert(before[ob].0@ != before[oa].0@);
                        }
                    }
                    assert forall|k: Seq<u8>| #[trigger]
                        self@.contains_key(k) <==> old(self)@.remove(key@).contains_key(k) by {
                        if self@.contains_key(k) {
                            let c = choose|c: int|
                                0 <= c < self.slots@.len() && self.slots@[c].0@ == k;
                            assert(self.slots@[c] == before[origin(c)]);
                            let oc = origin(c);
                            assert(before[oc].0@ == k);
                            if oc < i {
                                assert(before[oc].0@ != before[i as int].0@);
                            } else {
                                assert(before[i as int].0@ != before[oc].0@);
                            }
                        }
                        if old(self)@.contains_key(k) && k != key@ {
                            let c = choose|c: int| 0 <= c < before.len() && before[c].0@ == k;
                            if c == n - 1 {
                                assert(self.slots@[i as int] == before[origin(i as int)]);
                                assert(self.slots@[i as int].0@ == k);
                            } else {
                                assert(self.slots@[c] == before[origin(c)]);
                                assert(self.slots@[c].0@ == k);
                            }
                        }
                    }
                    assert forall|k: Seq<u8>| #[trigger] self@.contains_key(k) implies self@[k]
                        == old(self)@.remove(key@)[k] by {
                        let c = choose|c: int| 0 <= c < self.slots@.len() && self.slots@[c].0@ == k;
                        self.lemma_slot(c);
                        assert(self.slots@[c] == before[origin(c)]);
                        old(self).lemma_slot(origin(c));
                    }
                    assert(self@ =~= old(self)@.remove(key@));
                }
                Some(slot.1)
            },
            None => {
                assert(self@ =~= old(self)@.remove(key@));
                None
            },
        }
    }

    /// A copy of every key, each once.
    pub fn keys(&self) -> (keys: Vec<Vec<u8>>)
        requires
            self.wf(),
        ensures
            key_views(keys@) == self.key_list(),
    {
        let mut keys: Vec<Vec<u8>> = Vec::new();
        let mut i: usize = 0;
        while i < self.slots.len()
            invariant
                i <= self.slots@.len(),
                keys@.len() == i,
                forall|j: int| 0 <= j < i ==> (#[trigger] keys@[j])@ == self.slots@[j].0@,
            decreases self.slots@.len() - i,
        {
            keys.push(slice_to_vec(self.slots[i].0.as_slice()));
            i += 1;
        }
        assert(key_views(keys@) =~= self.key_list());
        keys
    }

    /// The number of keys.
    pub fn len(&self) -> (len: usize)
        requires
            self.wf(),
        ensures
            len == self@.dom().len(),
    {
        proof {
            self.lemma_key_list();
        }
        self.slots.len()
    }

    /// The keys with their values in the order of the list.
    pub closed spec fn pair_list(&self) -> Seq<(Seq<u8>, V)> {
        Seq::new(self.slots@.len(), |i: int| (self.slots@[i].0@, self.slots@[i].1))
    }

    /// The list of pairs holds each key of the map once, with its value, and nothing else.
    pub proof fn lemma_pair_list(&self)
        requires
            self.wf(),
        ensures
            self.pair_list().len() == self.key_list().len(),
            forall|i: int|
                0 <= i < self.pair_list().len() ==> {
                    let pair = #[trigger] self.pair_list()[i];
                    &&& pair.0 == self.key_list()[i]
                    &&& self@.contains_key(pair.0)
                    &&& self@[pair.0] == pair.1
                },
    {
        assert forall|i: int| 0 <= i < self.pair_list().len() implies {
            let pair = #[trigger] self.pair_list()[i];
            &&& pair.0 == self.key_list()[i]
            &&& self@.contains_key(pair.0)
            &&& self@[pair.0] == pair.1
        } by {
            self.lemma_slot(i);
        }
    }

    /// A copy of every key with its value, each key once.
    pub fn pairs(&self) -> (pairs: Vec<(Vec<u8>, V)>)
        requires
            self.wf(),
        ensures
            pair_views(pairs@) == self.pair_list(),
    {
        let mut pairs: Vec<(Vec<u8>, V)> = Vec::new();
        let mut i: usize = 0;
        while i < self.slots.len()
            invariant
                i <= self.slots@.len(),
                pairs@.len() == i,
                forall|j: int|
                    0 <= j < i ==> (#[trigger] pairs@[j]).0@ == self.slots@[j].0@ && pairs@[j].1
                        == self.slots@[j].1,
            decreases self.slots@.len() - i,
        {
            pairs.push((slice_to_vec(self.slots[i].0.as_slice()), self.slots[i].1));
            i += 1;
        }
        assert(pair_views(pairs@) =~= self.pair_list());
        pairs
    }
}

/// The index entry that the hint `hint` of the segment `file_id` stands for.
pub open spec fn index_entry_of(hint: HintModel, file_id: u32) -> IndexEntry {
    IndexEntry {
        file_id,
        entry_pos: hint.entry_pos,
        entry_size: hint.entry_size() as u64,
        sequence: hint.sequence,
    }
}

/// The index as mathematical values: where each live key's record lies, and the counts of
/// each segment.
#[verifier::ext_equal]
pub struct IndexModel {
    pub map: Map<Seq<u8>, IndexEntry>,
    pub stats: StatsModel,
}

impl IndexModel {
    /// The index without keys and without counts.
    pub open spec fn empty() -> IndexModel {
        IndexModel { map: Map::empty(), stats: Map::empty() }
    }

    /// The index after `key` has been pointed at `entry`: the new record is counted in its
    /// segment, then the one that `key` pointed at before, if any, is counted as dead in
    /// its own.
    pub open spec fn insert(self, key: Seq<u8>, entry: IndexEntry) -> IndexModel {
        let added = stats_add(self.stats, entry.file_id);
        IndexModel {
            map: self.map.insert(key, entry),
            stats: if self.map.contains_key(key) {
                stats_remove(added, self.map[key].file_id, self.map[key].entry_size)
            } else {
                added
            },
        }
    }

    /// The counts have room for `insert(key, entry)`.
    pub open spec fn can_insert(self, key: Seq<u8>, entry: IndexEntry) -> bool {
        &&& stats_can_add(self.stats, entry.file_id)
        &&& self.map.contains_key(key) ==> stats_can_remove(
            stats_add(self.stats, entry.file_id),
            self.map[key].file_id,
            self.map[key].entry_size,
        )
    }

    /// The index after `key` has been taken out: the record it pointed at, if any, is
    /// counted as dead.
    pub open spec fn remove(self, key: Seq<u8>) -> IndexModel {
        if self.map.contains_key(key) {
            IndexModel {
                map: self.map.remove(key),
                stats: stats_remove(self.stats, self.map[key].file_id, self.map[key].entry_size),
            }
        } else {
            self
        }
    }

    /// The counts have room for `remove(key)`.
    pub open spec fn can_remove(self, key: Seq<u8>) -> bool {
        self.map.contains_key(key) ==> stats_can_remove(
            self.stats,
            self.map[key].file_id,
            self.map[key].entry_size,
        )
    }

    /// The index after the hint `hint`, read from the segment `file_id`, has been reconciled
    /// with it.
    ///
    /// Where the key is present and its record is no newer than the hint's, that record
    /// is counted as dead; then a tombstone hint removes the key, and any other hint
    /// replaces the entry and is counted as live. Where the key is present with a newer
    /// record, the hint is stale: its record is counted, and counted as dead. Where the key
    /// is absent, a tombstone hint changes nothing and any other hint is inserted as live.
    pub open spec fn update(self, hint: HintModel, file_id: u32) -> IndexModel {
        let entry = index_entry_of(hint, file_id);
        if self.map.contains_key(hint.key) {
            let stored = self.map[hint.key];
            if stored.sequence <= hint.sequence {
                let removed = stats_remove(self.stats, stored.file_id, stored.entry_size);
                if hint.deleted {
                    IndexModel { map: self.map.remove(hint.key), stats: removed }
                } else {
                    IndexModel {
                        map: self.map.insert(hint.key, entry),
                        stats: stats_add(removed, file_id),
                    }
                }
            } else {
                IndexModel {
                    map: self.map,
                    stats: stats_remove(stats_add(self.stats, file_id), file_id, entry.entry_size),
                }
            }
        } else if !hint.deleted {
            IndexModel { map: self.map.insert(hint.key, entry), stats: stats_add(self.stats, file_id) }
        } else {
            self
        }
    }

    /// The counts have room for `update(hint, file_id)`.
    pub open spec fn can_update(self, hint: HintModel, file_id: u32) -> bool {
        let entry = index_entry_of(hint, file_id);
        if self.map.contains_key(hint.key) {
            let stored = self.map[hint.key];
            if stored.sequence <= hint.sequence {
                let removed = stats_remove(self.stats, stored.file_id, stored.entry_size);
                &&& stats_can_remove(self.stats, stored.file_id, stored.entry_size)
                &&& !hint.deleted ==> stats_can_add(removed, file_id)
            } else {
                &&& stats_can_add(self.stats, file_id)
                &&& stats_can_remove(stats_add(self.stats, file_id), file_id, entry.entry_size)
            }
        } else {
            !hint.deleted ==> stats_can_add(self.stats, file_id)
        }
    }

    /// The index after the counts of the segments `files` have been dropped.
    pub open spec fn remove_files(self, files: Set<u32>) -> IndexModel {
        IndexModel { map: self.map, stats: self.stats.remove_keys(files) }
    }
}

impl IndexModel {
    /// Every record that the index points at is no larger than a hint can say, and its key
    /// no longer than the format allows.
    pub open spec fn sizes_fit(self) -> bool {
        forall|k: Seq<u8>| #[trigger]
            self.map.contains_key(k) ==> k.len() <= MAX_KEY_SIZE && self.map[k].entry_size
                <= MAX_ENTRY_SIZE
    }
}

/// Counts with room for some changes have room for an insertion, and then for one change
/// less.
pub proof fn lemma_roomy_insert(index: IndexModel, key: Seq<u8>, entry: IndexEntry, records: nat)
    requires
        records >= 1,
        stats_roomy(index.stats, records),
        index.sizes_fit(),
        key.len() <= MAX_KEY_SIZE,
        entry.entry_size <= MAX_ENTRY_SIZE,
    ensures
        index.can_insert(key, entry),
        stats_roomy(index.insert(key, entry).stats, (records - 1) as nat),
        index.insert(key, entry).sizes_fit(),
{
    assert(records * MAX_ENTRY_SIZE == (records - 1) * MAX_ENTRY_SIZE + MAX_ENTRY_SIZE)
        by (nonlinear_arith);
    let after = index.insert(key, entry);
    assert forall|k: Seq<u8>| #[trigger] after.map.contains_key(k) implies k.len() <= MAX_KEY_SIZE
        && after.map[k].entry_size <= MAX_ENTRY_SIZE by {
        if k != key {
            assert(index.map.contains_key(k));
        }
    }
    if index.map.contains_key(key) {
        assert(index.map[key].entry_size <= MAX_ENTRY_SIZE);
    }
    assert forall|f: u32| #[trigger] after.stats.contains_key(f) implies {
        &&& after.stats[f].entries + (records - 1) <= u64::MAX
        &&& after.stats[f].dead_entries + (records - 1) <= u64::MAX
        &&& after.stats[f].dead_bytes + (records - 1) * MAX_ENTRY_SIZE <= u64::MAX
    } by {
        if index.stats.contains_key(f) {
            assert(index.stats[f].entries + records <= u64::MAX);
        }
    }
}

/// Counts with room for some changes have room for a removal, and then for one change less.
pub proof fn lemma_roomy_remove(index: IndexModel, key: Seq<u8>, records: nat)
    requires
        records >= 1,
        stats_roomy(index.stats, records),
        index.sizes_fit(),
    ensures
        index.can_remove(key),
        stats_roomy(index.remove(key).stats, (records - 1) as nat),
        index.remove(key).sizes_fit(),
{
    assert(records * MAX_ENTRY_SIZE == (records - 1) * MAX_ENTRY_SIZE + MAX_ENTRY_SIZE)
        by (nonlinear_arith);
    let after = index.remove(key);
    assert forall|k: Seq<u8>| #[trigger] after.map.contains_key(k) implies k.len() <= MAX_KEY_SIZE
        && after.map[k].entry_size <= MAX_ENTRY_SIZE by {
        assert(index.map.contains_key(k));
    }
    if index.map.contains_key(key) {
        assert(index.map[key].entry_size <= MAX_ENTRY_SIZE);
    }
    assert forall|f: u32| #[trigger] after.stats.contains_key(f) implies {
        &&& after.stats[f].entries + (records - 1) <= u64::MAX
        &&& after.stats[f].dead_entries + (records - 1) <= u64::MAX
        &&& after.stats[f].dead_bytes + (records - 1) * MAX_ENTRY_SIZE <= u64::MAX
    } by {
        assert(index.stats.contains_key(f));
        assert(index.stats[f].entries + records <= u64::MAX);
    }
}

/// Counts with room for some changes have room for reconciling with a hint, and then for
/// one change less.
pub proof fn lemma_roomy_update(index: IndexModel, hint: HintModel, file_id: u32, records: nat)
    requires
        records >= 1,
        stats_roomy(index.stats, records),
        index.sizes_fit(),
        hint.key.len() <= MAX_KEY_SIZE,
    ensures
        index.can_update(hint, file_id),
        stats_roomy(index.update(hint, file_id).stats, (records - 1) as nat),
        index.update(hint, file_id).sizes_fit(),
{
    assert(records * MAX_ENTRY_SIZE == (records - 1) * MAX_ENTRY_SIZE + MAX_ENTRY_SIZE)
        by (nonlinear_arith);
    let entry = index_entry_of(hint, file_id);
    assert(entry.entry_size <= MAX_ENTRY_SIZE);
    let after = index.update(hint, file_id);
    assert forall|k: Seq<u8>| #[trigger] after.map.contains_key(k) implies k.len() <= MAX_KEY_SIZE
        && after.map[k].entry_size <= MAX_ENTRY_SIZE by {
        if k != hint.key {
            assert(index.map.contains_key(k));
        }
    }
    if index.map.contains_key(hint.key) {
        assert(index.map[hint.key].entry_size <= MAX_ENTRY_SIZE);
    }
    assert forall|f: u32| #[trigger] after.stats.contains_key(f) implies {
        &&& after.stats[f].entries + (records - 1) <= u64::MAX
        &&& after.stats[f].dead_entries + (records - 1) <= u64::MAX
        &&& after.stats[f].dead_bytes + (records - 1) * MAX_ENTRY_SIZE <= u64::MAX
    } by {
        if index.stats.contains_key(f) {
            assert(index.stats[f].entries + records <= u64::MAX);
        }
    }
}

/// The index of the store, with the statistics that it keeps.
pub struct Index {
    map: KeyMap<IndexEntry>,
    stats: Stats,
}

impl View for Index {
    type V = IndexModel;

    closed spec fn view(&self) -> IndexModel {
        IndexModel { map: self.map@, stats: self.stats@ }
    }
}

impl Index {
    /// The index is in order: it holds no key twice.
    pub closed spec fn wf(&self) -> bool {
        self.map.wf()
    }

    /// The keys in the order in which `keys` lists them.
    pub closed spec fn key_list(&self) -> Seq<Seq<u8>> {
        self.map.key_list()
    }

    /// The list of keys holds each key of the index once, and nothing else; so the index
    /// holds finitely many keys.
    pub proof fn lemma_key_list(&self)
        requires
            self.wf(),
        ensures
            self.key_list().no_duplicates(),
            self.key_list().to_set() == self@.map.dom(),
            self@.map.dom().finite(),
            self@.map.dom().len() == self.key_list().len(),
    {
        self.map.lemma_key_list();
    }

    /// An index without keys and without counts.
    pub fn new() -> (index: Index)
        ensures
            index.wf(),
            index@ == IndexModel::empty(),
    {
        Index { map: KeyMap::new(), stats: Stats::new() }
    }

    /// Where the latest record of `key` lies, if the key is live.
    pub fn get(&self, key: &[u8]) -> (entry: Option<IndexEntry>)
        requires
            self.wf(),
        ensures
            entry == self@.map.get(key@),
    {
        self.map.get(key)
    }

    /// The statistics kept by the index.
    pub fn stats(&self) -> (stats: &Stats)
        ensures
            stats@ == self@.stats,
    {
        &self.stats
    }

    /// Points `key` at `index_entry`, and returns the entry it pointed at before.
    pub fn insert(&mut self, key: Vec<u8>, index_entry: IndexEntry) -> (previous: Option<
        IndexEntry,
    >)
        requires
            old(self).wf(),
            old(self)@.can_insert(key@, index_entry),
        ensures
            final(self).wf(),
            final(self)@ == old(self)@.insert(key@, index_entry),
            previous == old(self)@.map.get(key@),
    {
        self.stats.add_entry(&index_entry);
        let previous = self.map.insert(key, index_entry);
        if let Some(entry) = previous {
            self.stats.remove_entry(&entry);
        }
        previous
    }

    /// Takes `key` out of the index, and returns the entry it pointed at.
    pub fn remove(&mut self, key: &[u8]) -> (previous: Option<IndexEntry>)
        requires
            old(self).wf(),
            old(self)@.can_remove(key@),
        ensures
            final(self).wf(),
            final(self)@ == old(self)@.remove(key@),
            previous == old(self)@.map.get(key@),
    {
        let previous = self.map.remove(key);
        if let Some(entry) = previous {
            self.stats.remove_entry(&entry);
        }
        previous
    }

    /// Reconciles the index with `hint`, read from the segment `file_id`.
    pub fn update(&mut self, hint: Hint, file_id: u32)
        requires
            old(self).wf(),
            hint@.key.len() <= MAX_KEY_SIZE,
            old(self)@.can_update(hint@, file_id),
        ensures
            final(self).wf(),
            final(self)@ == old(self)@.update(hint@, file_id),
    {
        self.update_from_hint(&hint, file_id)
    }

    /// Reconciles the index with `hint`, read from the segment `file_id`, leaving the hint
    /// with the caller.
    pub fn update_from_hint(&mut self, hint: &Hint, file_id: u32)
        requires
            old(self).wf(),
            hint@.key.len() <= MAX_KEY_SIZE,
            old(self)@.can_update(hint@, file_id),
        ensures
            final(self).wf(),
            final(self)@ == old(self)@.update(hint@, file_id),
    {
        let index_entry = IndexEntry {
            file_id,
            entry_pos: hint.entry_pos,
            entry_size: hint.entry_size(),
            sequence: hint.sequence,
        };
        match self.map.get(hint.key.as_slice()) {
            Some(stored) => {
                if stored.sequence <= hint.sequence {
                    self.stats.remove_entry(&stored);
                    if hint.deleted {
                        self.map.remove(hint.key.as_slice());
                    } else {
                        self.stats.add_entry(&index_entry);
                        self.map.insert(slice_to_vec(hint.key.as_slice()), index_entry);
                    }
                } else {
                    self.stats.add_entry(&index_entry);
                    self.stats.remove_entry(&index_entry);
                }
            },
            None => {
                if !hint.deleted {
                    self.stats.add_entry(&index_entry);
                    self.map.insert(slice_to_vec(hint.key.as_slice()), index_entry);
                }
            },
        }
    }

    /// A copy of every live key, each once.
    pub fn keys(&self) -> (keys: Vec<Vec<u8>>)
        requires
            self.wf(),
        ensures
            key_views(keys@) == self.key_list(),
            key_views(keys@).no_duplicates(),
            key_views(keys@).to_set() == self@.map.dom(),
    {
        proof {
            self.lemma_key_list();
        }
        self.map.keys()
    }

    /// The number of live keys.
    pub fn len(&self) -> (len: usize)
        requires
            self.wf(),
        ensures
            len == self@.map.dom().len(),
    {
        self.map.len()
    }

    /// One row for each segment that has counts; see `Stats::file_stats`.
    pub fn file_stats(&self) -> (rows: Vec<(u32, Fragmentation, u64)>)
        ensures
            rows@.len() == self@.stats.dom().len(),
            forall|i: int|
                0 <= i < rows@.len() ==> self@.stats.contains_key(#[trigger] rows@[i].0)
                    && rows@[i] == crate::stats::stats_row(rows@[i].0, self@.stats[rows@[i].0]),
            forall|i: int, j: int|
                0 <= i < j < rows@.len() ==> (#[trigger] rows@[i]).0 != (#[trigger] rows@[j]).0,
            forall|file_id: u32| #[trigger]
                self@.stats.contains_key(file_id) ==> exists|i: int|
                    0 <= i < rows@.len() && (#[trigger] rows@[i]).0 == file_id,
    {
        self.stats.file_stats()
    }

    /// Drops the counts of the segments `files`.
    pub fn remove_files(&mut self, files: &[u32])
        requires
            old(self).wf(),
        ensures
            final(self).wf(),
            final(self)@ == old(self)@.remove_files(files@.to_set()),
    {
        self.stats.remove_files(files);
    }
}

} // verus!
