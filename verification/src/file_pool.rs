//! A bounded pool of open files, kept per segment.
//!
//! The pool holds handles of any type: it never looks into one. A handle that is put in
//! makes the pool one larger; where that is more than the pool's capacity, the segment that
//! was put in longest ago loses a handle.

use std::collections::{HashMap, VecDeque};
use vstd::prelude::*;
use vstd::std_specs::hash::*;

verus! {

broadcast use vstd::std_specs::hash::group_hash_axioms;

/// The place of the first `file_id` in `queue`, or the length of `queue` where there is
/// none.
pub open spec fn first_index(queue: Seq<u32>, file_id: u32) -> int
    decreases queue.len(),
{
    if queue.len() == 0 {
        0
    } else if queue[0] == file_id {
        0
    } else {
        1 + first_index(queue.drop_first(), file_id)
    }
}

/// The handles of `stacks` without the one that was put in last for `file_id`. A segment
/// that has no handle left has no stack.
pub open spec fn pop_handle<T>(stacks: Map<u32, Seq<T>>, file_id: u32) -> Map<u32, Seq<T>> {
    if stacks.contains_key(file_id) && stacks[file_id].len() > 1 {
        stacks.insert(file_id, stacks[file_id].drop_last())
    } else {
        stacks.remove(file_id)
    }
}

/// The pool as mathematical values.
pub struct PoolModel<T> {
    /// The segment of every handle held, in the order in which they were put in.
    pub queue: Seq<u32>,
    /// The handles held for each segment, in the order in which they were put in.
    pub files: Map<u32, Seq<T>>,
    /// The most handles that the pool holds.
    pub capacity: usize,
}

impl<T> PoolModel<T> {
    /// The pool holds a handle for `file_id`.
    pub open spec fn holds(self, file_id: u32) -> bool {
        self.files.contains_key(file_id) && self.files[file_id].len() > 0
    }

    /// How many handles the pool holds for `file_id`.
    pub open spec fn held(self, file_id: u32) -> nat {
        if self.files.contains_key(file_id) {
            self.files[file_id].len()
        } else {
            0
        }
    }

    /// The queue names each segment as often as the pool holds handles for it, and no
    /// segment has an empty stack.
    pub open spec fn counted(self) -> bool {
        &&& forall|file_id: u32| #[trigger]
            self.files.contains_key(file_id) ==> self.files[file_id].len() > 0
        &&& forall|file_id: u32|
            #![trigger self.held(file_id)]
            #![trigger self.queue.to_multiset().count(file_id)]
            self.queue.to_multiset().count(file_id) == self.held(file_id)
    }

    /// The pool is in order: it has counted its handles right and is within its capacity.
    pub open spec fn wf(self) -> bool {
        &&& self.queue.len() <= self.capacity
        &&& self.counted()
    }

    /// The pool after a handle for `file_id` has been taken out: the one put in last for
    /// that segment leaves, and so does the segment's first place in the queue.
    pub open spec fn take(self, file_id: u32) -> PoolModel<T> {
        if self.holds(file_id) {
            PoolModel {
                queue: if self.queue.contains(file_id) {
                    self.queue.remove(first_index(self.queue, file_id))
                } else {
                    self.queue
                },
                files: pop_handle(self.files, file_id),
                capacity: self.capacity,
            }
        } else {
            self
        }
    }

    /// The pool with the handle `file` added for `file_id`, before any eviction.
    pub open spec fn push(self, file_id: u32, file: T) -> PoolModel<T> {
        PoolModel {
            queue: self.queue.push(file_id),
            files: self.files.insert(
                file_id,
                if self.files.contains_key(file_id) {
                    self.files[file_id].push(file)
                } else {
                    seq![file]
                },
            ),
            capacity: self.capacity,
        }
    }

    /// The pool after the segment at the front of the queue has lost its place there and
    /// the handle that was put in last for it.
    pub open spec fn evict(self) -> PoolModel<T> {
        if self.queue.len() > 0 {
            PoolModel {
                queue: self.queue.drop_first(),
                files: if self.holds(self.queue[0]) {
                    pop_handle(self.files, self.queue[0])
                } else {
                    self.files
                },
                capacity: self.capacity,
            }
        } else {
            self
        }
    }

    /// The pool after the handle `file` has been put in for `file_id`: it is added, and
    /// where the pool is then over its capacity, the front of the queue is evicted.
    pub open spec fn put(self, file_id: u32, file: T) -> PoolModel<T> {
        let pushed = self.push(file_id, file);
        if pushed.queue.len() > self.capacity {
            pushed.evict()
        } else {
            pushed
        }
    }
}

/// The first place of an element that a sequence holds lies within it and holds it; no
/// place before holds it.
pub proof fn lemma_first_index(queue: Seq<u32>, file_id: u32)
    ensures
        0 <= first_index(queue, file_id) <= queue.len(),
        first_index(queue, file_id) < queue.len() ==> queue[first_index(queue, file_id)]
            == file_id,
        forall|i: int| 0 <= i < first_index(queue, file_id) ==> queue[i] != file_id,
        queue.contains(file_id) <==> first_index(queue, file_id) < queue.len(),
    decreases queue.len(),
{
    if queue.len() > 0 && queue[0] != file_id {
        let rest = queue.drop_first();
        lemma_first_index(rest, file_id);
        assert forall|i: int| 0 <= i < first_index(queue, file_id) implies queue[i]
            != file_id by {
            if i > 0 {
                assert(rest[i - 1] == queue[i]);
            }
        }
        if queue.contains(file_id) {
            let i = choose|i: int| 0 <= i < queue.len() && queue[i] == file_id;
            assert(rest[i - 1] == file_id);
        }
        if first_index(rest, file_id) < rest.len() {
            assert(queue[first_index(rest, file_id) + 1] == file_id);
        }
    } else if queue.len() > 0 {
        assert(queue[0] == file_id);
    }
}

/// A bounded pool of handles, some for each of a number of segments.
pub struct FilePool<T> {
    queue: VecDeque<u32>,
    files: HashMap<u32, Vec<T>>,
    capacity: usize,
    size: usize,
}

impl<T> View for FilePool<T> {
    type V = PoolModel<T>;

    closed spec fn view(&self) -> PoolModel<T> {
        PoolModel {
            queue: self.queue@,
            files: Map::new(
                |file_id: u32| self.files@.contains_key(file_id),
                |file_id: u32| self.files@[file_id]@,
            ),
            capacity: self.capacity,
        }
    }
}

impl<T> FilePool<T> {
    /// The pool is in order: what it holds is in order, and it has counted it right.
    pub closed spec fn wf(&self) -> bool {
        &&& self@.wf()
        &&& self.size == self.queue@.len()
    }

    /// An empty pool that will hold up to `capacity` handles.
    pub fn new(capacity: usize) -> (pool: FilePool<T>)
        ensures
            pool.wf(),
            pool@ == (PoolModel::<T> { queue: Seq::empty(), files: Map::empty(), capacity }),
    {
        let pool = FilePool { queue: VecDeque::new(), files: HashMap::new(), capacity, size: 0 };
        proof {
            assert(pool@.files =~= Map::<u32, Seq<T>>::empty());
            pool.queue@.to_multiset_ensures();
            assert(pool@.queue =~= Seq::<u32>::empty());
            assert(pool.queue@.to_multiset() =~= vstd::multiset::Multiset::<u32>::empty());
        }
        pool
    }

    /// The number of handles held.
    pub fn len(&self) -> (len: usize)
        requires
            self.wf(),
        ensures
            len == self@.queue.len(),
    {
        self.size
    }

    /// Takes the last handle of `stack` out of the pool's stacks.
    fn pop_stack(&mut self, file_id: u32) -> (file: Option<T>)
        ensures
            final(self).queue == old(self).queue,
            final(self).capacity == old(self).capacity,
            final(self).size == old(self).size,
            match file {
                Some(f) => old(self)@.holds(file_id) && f == old(self)@.files[file_id].last()
                    && final(self)@.files == pop_handle(old(self)@.files, file_id),
                None => !old(self)@.holds(file_id) && final(self)@.files == old(self)@.files.remove(
                    file_id,
                ),
            },
    {
        match self.files.remove(&file_id) {
            Some(mut stack) => {
                let file = stack.pop();
                if stack.len() > 0 {
                    self.files.insert(file_id, stack);
                }
                proof {
                    if file is Some {
                        assert(final(self)@.files =~= pop_handle(old(self)@.files, file_id));
                    } else {
                        assert(final(self)@.files =~= old(self)@.files.remove(file_id));
                    }
                }
                file
            },
            None => {
                assert(final(self)@.files =~= old(self)@.files.remove(file_id));
                None
            },
        }
    }

    /// Takes a handle for the segment `file_id` out of the pool, if it holds one: the one
    /// that was put in last for that segment.
    pub fn get(&mut self, file_id: u32) -> (file: Option<T>)
        requires
            old(self).wf(),
        ensures
            final(self).wf(),
            final(self)@ == old(self)@.take(file_id),
            file == if old(self)@.holds(file_id) {
                Some(old(self)@.files[file_id].last())
            } else {
                None
            },
    {
        let file = self.pop_stack(file_id);
        if file.is_some() {
            proof {
                lemma_first_index(self.queue@, file_id);
                lemma_count_contains(self.queue@, file_id);
            }
            let mut index: usize = 0;
            while index < self.queue.len() && self.queue[index] != file_id
                invariant
                    index <= self.queue@.len(),
                    self.queue@ == old(self).queue@,
                    index <= first_index(self.queue@, file_id) <= self.queue@.len(),
                    first_index(self.queue@, file_id) < self.queue@.len() ==> self.queue@[first_index(
                        self.queue@,
                        file_id,
                    )] == file_id,
                decreases self.queue@.len() - index,
            {
                index += 1;
            }
            proof {
                lemma_first_index(self.queue@, file_id);
            }
            if index < self.queue.len() {
                self.queue.remove(index);
            }
            self.size -= 1;
            proof {
                let before = old(self)@;
                assert(self@.queue =~= before.take(file_id).queue);
                assert(self@.files =~= before.take(file_id).files);
                vstd::seq_lib::to_multiset_remove(before.queue, index as int);
                lemma_take_counted(before, file_id);
            }
        } else {
            proof {
                assert(self@.files =~= old(self)@.files);
            }
        }
        file
    }

    /// Puts the handle `file` for the segment `file_id` into the pool. Where the pool is
    /// then over its capacity, the segment whose handle has been in the pool longest loses
    /// the handle that was put in last for it.
    pub fn put(&mut self, file_id: u32, file: T)
        requires
            old(self).wf(),
        ensures
            final(self).wf(),
            final(self)@ == old(self)@.put(file_id, file),
    {
        self.queue.push_back(file_id);
        match self.files.remove(&file_id) {
            Some(mut stack) => {
                stack.push(file);
                self.files.insert(file_id, stack);
            },
            None => {
                let mut stack: Vec<T> = Vec::new();
                stack.push(file);
                self.files.insert(file_id, stack);
            },
        }
        self.size = self.queue.len();
        proof {
            assert(self@.files =~= old(self)@.push(file_id, file).files);
            assert(self@ == old(self)@.push(file_id, file));
            lemma_push_counted(old(self)@, file_id, file);
        }
        if self.size > self.capacity {
            self.remove_lru();
        }
    }

    /// Evicts the front of the queue.
    fn remove_lru(&mut self)
        requires
            old(self).size == old(self).queue@.len(),
            old(self)@.queue.len() == old(self).capacity + 1,
            old(self)@.counted(),
        ensures
            final(self).wf(),
            final(self)@ == old(self)@.evict(),
    {
        if let Some(file_id) = self.queue.pop_front() {
            proof {
                let before = old(self)@;
                assert(before.queue[0] == file_id);
                lemma_count_contains(before.queue, file_id);
                assert(before.queue.contains(file_id));
                assert(before.queue.to_multiset().count(file_id) == before.held(file_id));
                assert(before.holds(file_id));
            }
            let file = self.pop_stack(file_id);
            self.size -= 1;
            proof {
                let before = old(self)@;
                assert(self@.queue =~= before.evict().queue);
                assert(before.queue.drop_first() =~= before.queue.remove(0));
                vstd::seq_lib::to_multiset_remove(before.queue, 0);
                lemma_evict_counted(before);
            }
        }
    }
}

/// A sequence holds what its multiset counts.
proof fn lemma_count_contains(queue: Seq<u32>, file_id: u32)
    ensures
        queue.contains(file_id) <==> queue.to_multiset().count(file_id) > 0,
{
    queue.to_multiset_ensures();
}

/// Taking a handle out keeps the count.
proof fn lemma_take_counted<T>(pool: PoolModel<T>, file_id: u32)
    requires
        pool.counted(),
        pool.holds(file_id),
    ensures
        pool.take(file_id).counted(),
        pool.take(file_id).queue.len() < pool.queue.len(),
{
    let after = pool.take(file_id);
    lemma_first_index(pool.queue, file_id);
    lemma_count_contains(pool.queue, file_id);
    let index = first_index(pool.queue, file_id);
    assert(pool.queue.to_multiset().count(file_id) == pool.held(file_id));
    vstd::seq_lib::to_multiset_remove(pool.queue, index);
    assert forall|id: u32|
        #![trigger after.held(id)]
        #![trigger after.queue.to_multiset().count(id)]
        after.queue.to_multiset().count(id) == after.held(id) by {
        assert(pool.queue.to_multiset().count(id) == pool.held(id));
    }
}

/// Adding a handle keeps the count.
proof fn lemma_push_counted<T>(pool: PoolModel<T>, file_id: u32, file: T)
    requires
        pool.counted(),
    ensures
        pool.push(file_id, file).counted(),
{
    let after = pool.push(file_id, file);
    vstd::seq_lib::to_multiset_build(pool.queue, file_id);
    assert forall|id: u32|
        #![trigger after.held(id)]
        #![trigger after.queue.to_multiset().count(id)]
        after.queue.to_multiset().count(id) == after.held(id) by {
        assert(pool.queue.to_multiset().count(id) == pool.held(id));
    }
}

/// Evicting the front of the queue keeps the count.
proof fn lemma_evict_counted<T>(pool: PoolModel<T>)
    requires
        pool.counted(),
        pool.queue.len() > 0,
    ensures
        pool.evict().counted(),
{
    let after = pool.evict();
    let front = pool.queue[0];
    assert(pool.queue.drop_first() =~= pool.queue.remove(0));
    vstd::seq_lib::to_multiset_remove(pool.queue, 0);
    lemma_count_contains(pool.queue, front);
    assert(pool.queue.contains(front));
    assert(pool.queue.to_multiset().count(front) == pool.held(front));
    assert forall|id: u32|
        #![trigger after.held(id)]
        #![trigger after.queue.to_multiset().count(id)]
        after.queue.to_multiset().count(id) == after.held(id) by {
        assert(pool.queue.to_multiset().count(id) == pool.held(id));
    }
}

} // verus!
