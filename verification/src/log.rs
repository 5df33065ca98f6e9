//! The log: segments, the append writer with its rotation rule, and the files of a segment
//! read back.
//!
//! Nothing here touches a file. The writer says which bytes go to which segment and keeps
//! count of positions; the readers take the bytes of a file and say what they hold.

use crate::bytes::{
    decode_u32, le_u32, lemma_u32_round_trip, u32_le_bytes, write_all, write_u32, Reader,
};
use crate::data::{
    decode_entry, decode_hint, lemma_entry_layout, lemma_entry_round_trip, lemma_hint_round_trip,
    Decoded, Entry, EntryModel, Hint, HintModel, MAX_KEY_SIZE,
};
use crate::errors::{Error, Result};
use crate::util::{checksum, Sequence, TwoXhash32};
use vstd::multiset::Multiset;
use vstd::prelude::*;
use vstd::slice::slice_subrange;

verus! {

/// The largest segment size that a writer can be set to.
pub const MAX_FILE_SIZE: u64 = 0x4000_0000_0000_0000;

/// How a record was placed in the log.
#[derive(Debug, Clone, Copy, PartialEq, Eq, Structural)]
pub enum LogWrite {
    /// Appended to the segment that was open, at this position.
    Appended(u64),
    /// Placed at the start of this segment, which was opened for it.
    NewFile(u32),
}

/// Keeps the running checksum of one hint file.
pub struct HintWriter {
    hint_file_hasher: TwoXhash32,
}

impl View for HintWriter {
    type V = Seq<u8>;

    /// The bytes written to the hint file so far.
    closed spec fn view(&self) -> Seq<u8> {
        self.hint_file_hasher@
    }
}

impl HintWriter {
    /// The writer of a hint file that is still empty.
    pub fn new() -> (writer: HintWriter)
        ensures
            writer@ == Seq::<u8>::empty(),
    {
        HintWriter { hint_file_hasher: TwoXhash32::new() }
    }

    /// Appends the bytes of `hint` to `out`, which collects what goes to the hint file, and
    /// takes them into the checksum.
    pub fn write(&mut self, hint: &Hint, out: &mut Vec<u8>)
        requires
            hint@.key.len() <= MAX_KEY_SIZE,
            old(self)@.len() + hint@.size() <= u64::MAX,
        ensures
            final(self)@ == old(self)@ + hint@.bytes(),
            final(out)@ == old(out)@ + hint@.bytes(),
    {
        let mut bytes: Vec<u8> = Vec::new();
        let _ = hint.write_bytes(&mut bytes);
        assert(bytes@ =~= hint@.bytes());
        proof {
            crate::data::lemma_hint_size(hint@);
        }
        self.hint_file_hasher.update(bytes.as_slice());
        write_all(out, bytes.as_slice());
    }

    /// The four bytes that end the hint file: the checksum of all that was written to it.
    pub fn finish(&self) -> (trailer: Vec<u8>)
        ensures
            trailer@ == u32_le_bytes(checksum(self@)),
    {
        let mut trailer: Vec<u8> = Vec::new();
        write_u32(&mut trailer, self.hint_file_hasher.get());
        assert(trailer@ =~= u32_le_bytes(checksum(self@)));
        trailer
    }
}

/// A segment that the writer has left: its hint file is to be ended with `trailer`.
#[derive(Debug, PartialEq, Eq)]
pub struct ClosedFile {
    pub file_id: u32,
    pub trailer: Vec<u8>,
}

/// What a write asks to be done to the files: which segment the record went to, and the
/// bytes to append to its data file and to its hint file.
#[derive(Debug, PartialEq, Eq)]
pub struct Written {
    /// How the record was placed.
    pub log_write: LogWrite,
    /// The segment that the record went to. Where `log_write` is `NewFile`, its two files
    /// are to be created empty first.
    pub file_id: u32,
    /// The position of the record in the data file.
    pub entry_pos: u64,
    /// The segment that was left for the new one, if any.
    pub closed: Option<ClosedFile>,
    /// The bytes of the record, to be appended to the data file.
    pub data: Vec<u8>,
    /// The bytes of the record's hint, to be appended to the hint file.
    pub hint: Vec<u8>,
    /// Whether the data file is to be synchronised to disk after the append.
    pub sync: bool,
}

/// The state of the writer of one segment, as mathematical values.
pub struct EntryWriterModel {
    pub sync: bool,
    pub file_id: u32,
    /// The size of the data file so far.
    pub data_file_pos: u64,
    /// The content of the hint file so far.
    pub hints: Seq<u8>,
}

/// Writes the records of one segment, and their hints.
pub struct EntryWriter {
    sync: bool,
    file_id: u32,
    data_file_pos: u64,
    hint_writer: HintWriter,
}

impl View for EntryWriter {
    type V = EntryWriterModel;

    closed spec fn view(&self) -> EntryWriterModel {
        EntryWriterModel {
            sync: self.sync,
            file_id: self.file_id,
            data_file_pos: self.data_file_pos,
            hints: self.hint_writer@,
        }
    }
}

impl EntryWriterModel {
    /// The sizes are within what the counters can hold: the hint file is no larger than
    /// twice the data file, and the data file within the largest segment size by less than
    /// one record.
    pub open spec fn wf(self) -> bool {
        &&& self.hints.len() <= 2 * self.data_file_pos
        &&& self.data_file_pos <= MAX_FILE_SIZE + 0x2_0000_0000
    }
}

impl EntryWriter {
    /// The writer of the segment `file_id`, whose files are still empty.
    pub fn new(sync: bool, file_id: u32) -> (writer: EntryWriter)
        ensures
            writer@ == (EntryWriterModel {
                sync,
                file_id,
                data_file_pos: 0,
                hints: Seq::<u8>::empty(),
            }),
            writer@.wf(),
    {
        EntryWriter { sync, file_id, data_file_pos: 0, hint_writer: HintWriter::new() }
    }

    /// The size of the data file so far.
    pub fn data_file_pos(&self) -> (pos: u64)
        ensures
            pos == self@.data_file_pos,
    {
        self.data_file_pos
    }

    /// The segment written to.
    pub fn file_id(&self) -> (file_id: u32)
        ensures
            file_id == self@.file_id,
    {
        self.file_id
    }

    /// Places `entry` at the end of the segment: appends its bytes to `data` and the bytes
    /// of its hint to `hints`, which collect what goes to the two files, and returns the
    /// record's position.
    pub fn write(&mut self, entry: &Entry, data: &mut Vec<u8>, hints: &mut Vec<u8>) -> (entry_pos:
        u64)
        requires
            entry@.wf(),
            old(self)@.wf(),
            old(self)@.data_file_pos <= MAX_FILE_SIZE,
        ensures
            entry_pos == old(self)@.data_file_pos,
            final(self)@ == (EntryWriterModel {
                data_file_pos: (old(self)@.data_file_pos + entry@.size()) as u64,
                hints: old(self)@.hints + HintModel::of(entry@, old(self)@.data_file_pos).bytes(),
                ..old(self)@
            }),
            final(self)@.wf(),
            final(data)@ == old(data)@ + entry@.bytes(),
            final(hints)@ == old(hints)@ + HintModel::of(entry@, old(self)@.data_file_pos).bytes(),
    {
        let entry_pos = self.data_file_pos;
        let hint = Hint::new(entry, entry_pos);
        proof {
            crate::data::lemma_hint_size(hint@);
        }
        let _ = entry.write_bytes(data);
        self.hint_writer.write(&hint, hints);
        self.data_file_pos = self.data_file_pos + entry.size();
        entry_pos
    }

    /// What ends the segment's hint file.
    pub fn close(&self) -> (closed: ClosedFile)
        ensures
            closed.file_id == self@.file_id,
            closed.trailer@ == u32_le_bytes(checksum(self@.hints)),
    {
        ClosedFile { file_id: self.file_id, trailer: self.hint_writer.finish() }
    }
}

/// The state of the append writer, as mathematical values.
pub struct LogWriterModel {
    pub sync: bool,
    pub max_file_size: usize,
    /// The segment that is open for appending, if any.
    pub entry_writer: Option<EntryWriterModel>,
}

impl LogWriterModel {
    /// The writer is in order: its segment size is one it can be set to, and the open
    /// segment is within it by less than one record.
    pub open spec fn wf(self) -> bool {
        &&& self.max_file_size <= MAX_FILE_SIZE
        &&& self.entry_writer matches Some(w) ==> w.wf() && w.data_file_pos <= MAX_FILE_SIZE
            && w.sync == self.sync
    }

    /// A record of `size` bytes goes to a new segment: none is open, or the open one would
    /// grow beyond the largest size.
    pub open spec fn rotates(self, size: nat) -> bool {
        match self.entry_writer {
            None => true,
            Some(w) => w.data_file_pos + size > self.max_file_size,
        }
    }

    /// The segment closed by a write that rotates, if one was open.
    pub open spec fn closes(self) -> Option<(u32, Seq<u8>)> {
        match self.entry_writer {
            None => None,
            Some(w) => Some((w.file_id, u32_le_bytes(checksum(w.hints)))),
        }
    }

    /// The segment that a record of `size` bytes goes to, where `next_id` is the id that
    /// a new segment gets.
    pub open spec fn target(self, size: nat, next_id: u32) -> u32 {
        if self.rotates(size) {
            next_id
        } else {
            self.entry_writer->0.file_id
        }
    }

    /// The position that a record of `size` bytes gets in its segment.
    pub open spec fn position(self, size: nat) -> u64 {
        if self.rotates(size) {
            0
        } else {
            self.entry_writer->0.data_file_pos
        }
    }

    /// The writer after it has placed the record `entry`.
    pub open spec fn write(self, entry: EntryModel, next_id: u32) -> LogWriterModel {
        let size = entry.size();
        let pos = self.position(size);
        let hint = HintModel::of(entry, pos).bytes();
        LogWriterModel {
            entry_writer: Some(
                EntryWriterModel {
                    sync: self.sync,
                    file_id: self.target(size, next_id),
                    data_file_pos: (pos + size) as u64,
                    hints: if self.rotates(size) {
                        hint
                    } else {
                        self.entry_writer->0.hints + hint
                    },
                },
            ),
            ..self
        }
    }
}

/// What the write of `entry` asks to be done to the files, given the writer before it and
/// the id that a new segment gets.
pub open spec fn written_as(
    written: Written,
    writer: LogWriterModel,
    entry: EntryModel,
    next_id: u32,
) -> bool {
    let size = entry.size();
    let rotates = writer.rotates(size);
    &&& written.file_id == writer.target(size, next_id)
    &&& written.entry_pos == writer.position(size)
    &&& written.log_write == if rotates {
        LogWrite::NewFile(written.file_id)
    } else {
        LogWrite::Appended(written.entry_pos)
    }
    &&& match written.closed {
        Some(closed) => rotates && writer.closes() == Some((closed.file_id, closed.trailer@)),
        None => !rotates || writer.closes() is None,
    }
    &&& written.data@ == entry.bytes()
    &&& written.hint@ == HintModel::of(entry, written.entry_pos).bytes()
    &&& written.sync == writer.sync
}

/// The append writer: places each record in the open segment, or opens a new one where the
/// record would make the open one too large.
pub struct LogWriter {
    sync: bool,
    max_file_size: usize,
    entry_writer: Option<EntryWriter>,
}

impl View for LogWriter {
    type V = LogWriterModel;

    closed spec fn view(&self) -> LogWriterModel {
        LogWriterModel {
            sync: self.sync,
            max_file_size: self.max_file_size,
            entry_writer: match self.entry_writer {
                Some(w) => Some(w@),
                None => None,
            },
        }
    }
}

impl LogWriter {
    /// A writer with no segment open yet.
    pub fn new(sync: bool, max_file_size: usize) -> (writer: LogWriter)
        requires
            max_file_size <= MAX_FILE_SIZE,
        ensures
            writer@ == (LogWriterModel { sync, max_file_size, entry_writer: None }),
            writer@.wf(),
    {
        LogWriter { sync, max_file_size, entry_writer: None }
    }

    /// The segment that is open for appending, if any.
    pub fn active_file_id(&self) -> (file_id: Option<u32>)
        ensures
            file_id == match self@.entry_writer {
                Some(w) => Some(w.file_id),
                None => None,
            },
    {
        match &self.entry_writer {
            Some(w) => Some(w.file_id()),
            None => None,
        }
    }

    /// Places `entry` in the log. Where no segment is open, or the open one would grow
    /// beyond the largest size, the next id of `file_ids` names a new segment and the record
    /// goes to its start; else the record is appended to the open segment.
    pub fn write(&mut self, entry: &Entry, file_ids: &mut Sequence) -> (written: Written)
        requires
            entry@.wf(),
            old(self)@.wf(),
            old(self)@.rotates(entry@.size()) ==> old(file_ids)@ < u32::MAX,
        ensures
            written_as(written, old(self)@, entry@, (old(file_ids)@ + 1) as u32),
            final(self)@ == old(self)@.write(entry@, (old(file_ids)@ + 1) as u32),
            final(self)@.wf(),
            final(file_ids)@ == if old(self)@.rotates(entry@.size()) {
                (old(file_ids)@ + 1) as u32
            } else {
                old(file_ids)@
            },
    {
        let size = entry.size();
        let rotates = match &self.entry_writer {
            None => true,
            Some(w) => w.data_file_pos() + size > self.max_file_size as u64,
        };
        let mut data: Vec<u8> = Vec::new();
        let mut hint: Vec<u8> = Vec::new();
        if rotates {
            let closed = match &self.entry_writer {
                Some(w) => Some(w.close()),
                None => None,
            };
            let file_id = file_ids.increment();
            let mut writer = EntryWriter::new(self.sync, file_id);
            let _ = writer.write(entry, &mut data, &mut hint);
            self.entry_writer = Some(writer);
            assert(final(self)@ =~= old(self)@.write(entry@, (old(file_ids)@ + 1) as u32));
            Written {
                log_write: LogWrite::NewFile(file_id),
                file_id,
                entry_pos: 0,
                closed,
                data,
                hint,
                sync: self.sync,
            }
        } else {
            let mut writer = self.entry_writer.take().unwrap();
            let file_id = writer.file_id();
            let entry_pos = writer.data_file_pos();
            let _ = writer.write(entry, &mut data, &mut hint);
            self.entry_writer = Some(writer);
            assert(final(self)@ =~= old(self)@.write(entry@, (old(file_ids)@ + 1) as u32));
            Written {
                log_write: LogWrite::Appended(entry_pos),
                file_id,
                entry_pos,
                closed: None,
                data,
                hint,
                sync: self.sync,
            }
        }
    }

    /// What ends the hint file of the open segment, if one is open. This is what remains
    /// to be written when the writer is let go.
    pub fn close(&self) -> (closed: Option<ClosedFile>)
        ensures
            match closed {
                Some(c) => self@.closes() == Some((c.file_id, c.trailer@)),
                None => self@.closes() is None,
            },
    {
        match &self.entry_writer {
            Some(w) => Some(w.close()),
            None => None,
        }
    }
}

/// The list is in ascending order.
pub open spec fn sorted(files: Seq<u32>) -> bool {
    forall|i: int, j: int| 0 <= i <= j < files.len() ==> files[i] <= files[j]
}

/// Puts `file_id` into the ascending list `files`, at its place.
pub fn insert_sorted(files: &mut Vec<u32>, file_id: u32)
    requires
        sorted(old(files)@),
    ensures
        sorted(final(files)@),
        final(files)@.to_multiset() == old(files)@.to_multiset().insert(file_id),
{
    let mut i: usize = 0;
    while i < files.len() && files[i] <= file_id
        invariant
            i <= files@.len(),
            files@ == old(files)@,
            forall|j: int| 0 <= j < i ==> files@[j] <= file_id,
        decreases files@.len() - i,
    {
        i += 1;
    }
    files.insert(i, file_id);
    proof {
        vstd::seq_lib::to_multiset_insert(old(files)@, i as int, file_id);
        assert forall|a: int, b: int| 0 <= a <= b < files@.len() implies files@[a] <= files@[b] by {
            let before = old(files)@;
            if a < i && b > i {
                assert(before[a] <= file_id);
                assert(before[i as int] <= before[b - 1]);
            } else if a > i {
                assert(before[a - 1] <= before[b - 1]);
            } else if b < i {
                assert(before[a] <= before[b]);
            } else if a == i && b > i {
                assert(before[i as int] <= before[b - 1]);
            }
        }
    }
}

/// Takes one occurrence of `file_id` out of the ascending list `files`, and says whether
/// there was one.
pub fn remove_sorted(files: &mut Vec<u32>, file_id: u32) -> (found: bool)
    requires
        sorted(old(files)@),
    ensures
        sorted(final(files)@),
        found == old(files)@.to_multiset().contains(file_id),
        final(files)@.to_multiset() == if found {
            old(files)@.to_multiset().remove(file_id)
        } else {
            old(files)@.to_multiset()
        },
{
    broadcast use vstd::seq_lib::to_multiset_contains;

    let mut i: usize = 0;
    while i < files.len() && files[i] != file_id
        invariant
            i <= files@.len(),
            files@ == old(files)@,
            forall|j: int| 0 <= j < i ==> files@[j] != file_id,
        decreases files@.len() - i,
    {
        i += 1;
    }
    if i < files.len() {
        files.remove(i);
        proof {
            let before = old(files)@;
            vstd::seq_lib::to_multiset_remove(before, i as int);
            assert(before.contains(file_id));
            assert forall|a: int, b: int| 0 <= a <= b < files@.len() implies files@[a] <= files@[b] by {
                let sa = if a < i {
                    a
                } else {
                    a + 1
                };
                let sb = if b < i {
                    b
                } else {
                    b + 1
                };
                assert(before[sa] <= before[sb]);
            }
        }
        true
    } else {
        assert(!old(files)@.contains(file_id));
        false
    }
}

/// The state of the log, as mathematical values.
pub struct LogModel {
    pub max_file_size: usize,
    /// The segments that are closed.
    pub files: Multiset<u32>,
    /// The id handed out last.
    pub last_file_id: u32,
    pub log_writer: LogWriterModel,
    /// The segment that is open for appending, if any.
    pub active_file_id: Option<u32>,
}

/// The first of `old_files` that is missing from `files` once those before it have been
/// taken out, as its place in `old_files`; or the length of `old_files` where none is.
pub open spec fn first_missing(files: Multiset<u32>, old_files: Seq<u32>) -> int
    decreases old_files.len(),
{
    if old_files.len() == 0 {
        0
    } else if !files.contains(old_files[0]) {
        0
    } else {
        1 + first_missing(files.remove(old_files[0]), old_files.drop_first())
    }
}

/// What is left of `files` when the first `n` of `old_files` have been taken out, one
/// occurrence each.
pub open spec fn without(files: Multiset<u32>, old_files: Seq<u32>, n: int) -> Multiset<u32>
    decreases n,
{
    if n <= 0 || old_files.len() == 0 {
        files
    } else {
        without(files.remove(old_files[0]), old_files.drop_first(), n - 1)
    }
}

impl LogModel {
    /// The log is in order: its writer is in order, and the active segment is the one that
    /// the writer has open.
    pub open spec fn wf(self) -> bool {
        &&& self.log_writer.wf()
        &&& self.log_writer.max_file_size == self.max_file_size
        &&& self.active_file_id == match self.log_writer.entry_writer {
            Some(w) => Some(w.file_id),
            None => None,
        }
    }

    /// A record of `size` bytes can be appended: where it opens a new segment, an id is
    /// left to name that.
    pub open spec fn can_append(self, size: nat) -> bool {
        self.log_writer.rotates(size) ==> self.last_file_id < u32::MAX
    }

    /// The id that the next new segment gets.
    pub open spec fn next_file_id(self) -> u32 {
        (self.last_file_id + 1) as u32
    }

    /// The id handed out last, after a record of `size` bytes has gone through `writer`.
    pub open spec fn last_file_id_after(self, writer: LogWriterModel, size: nat) -> u32 {
        if writer.rotates(size) {
            self.next_file_id()
        } else {
            self.last_file_id
        }
    }

    /// The log after the record `entry` has been appended. Where the writer opens a new
    /// segment for it, the segment that was active joins the closed ones and the new one
    /// becomes active.
    pub open spec fn append(self, entry: EntryModel) -> LogModel {
        let rotates = self.log_writer.rotates(entry.size());
        LogModel {
            max_file_size: self.max_file_size,
            files: if rotates && self.active_file_id is Some {
                self.files.insert(self.active_file_id->0)
            } else {
                self.files
            },
            last_file_id: self.last_file_id_after(self.log_writer, entry.size()),
            log_writer: self.log_writer.write(entry, self.next_file_id()),
            active_file_id: Some(self.log_writer.target(entry.size(), self.next_file_id())),
        }
    }

    /// The log after the closed segments `old_files` have been replaced by `new_files`.
    /// Each of `old_files` is taken out in turn; the first that is not there stops the
    /// work, those before it staying out. Where all were there, `new_files` join.
    pub open spec fn swap_files(self, old_files: Seq<u32>, new_files: Seq<u32>) -> LogModel {
        let missing = first_missing(self.files, old_files);
        let kept = without(self.files, old_files, missing);
        LogModel {
            files: if missing == old_files.len() {
                kept.add(new_files.to_multiset())
            } else {
                kept
            },
            ..self
        }
    }
}

/// Taking out one more of `old_files` is taking it out of what was left.
proof fn lemma_without_step(files: Multiset<u32>, old_files: Seq<u32>, n: int)
    requires
        0 <= n < old_files.len(),
    ensures
        without(files, old_files, n + 1) == without(files, old_files, n).remove(old_files[n]),
        first_missing(files, old_files) >= n && without(files, old_files, n).contains(
            old_files[n],
        ) ==> first_missing(files, old_files) >= n + 1,
        first_missing(files, old_files) >= n && !without(files, old_files, n).contains(
            old_files[n],
        ) ==> first_missing(files, old_files) == n,
    decreases n,
{
    let rest = old_files.drop_first();
    let taken = files.remove(old_files[0]);
    lemma_first_missing_bound(files, old_files);
    lemma_first_missing_bound(taken, rest);
    if n > 0 {
        lemma_without_step(taken, rest, n - 1);
        assert(rest[n - 1] == old_files[n]);
        assert(without(files, old_files, n + 1) == without(taken, rest, n));
        assert(without(files, old_files, n) == without(taken, rest, n - 1));
    } else {
        assert(without(files, old_files, 1) == without(taken, rest, 0));
        assert(without(taken, rest, 0) == taken);
        assert(without(files, old_files, 0) == files);
    }
}

/// The place of the first missing segment lies within the list, or at its end.
pub proof fn lemma_first_missing_bound(files: Multiset<u32>, old_files: Seq<u32>)
    ensures
        0 <= first_missing(files, old_files) <= old_files.len(),
    decreases old_files.len(),
{
    if old_files.len() > 0 && files.contains(old_files[0]) {
        lemma_first_missing_bound(files.remove(old_files[0]), old_files.drop_first());
    }
}

/// The log manager's state: which segments exist, which one is active, and the writer.
pub struct Log {
    max_file_size: usize,
    files: Vec<u32>,
    file_id_seq: Sequence,
    log_writer: LogWriter,
    active_file_id: Option<u32>,
}

impl View for Log {
    type V = LogModel;

    closed spec fn view(&self) -> LogModel {
        LogModel {
            max_file_size: self.max_file_size,
            files: self.files@.to_multiset(),
            last_file_id: self.file_id_seq@,
            log_writer: self.log_writer@,
            active_file_id: self.active_file_id,
        }
    }
}

impl Log {
    /// The log is in order: it keeps its closed segments in ascending order, and its state
    /// is in order.
    pub closed spec fn wf(&self) -> bool {
        &&& sorted(self.files@)
        &&& self@.wf()
    }

    /// A log that is in order has a state that is in order.
    pub proof fn lemma_wf(&self)
        requires
            self.wf(),
        ensures
            self@.wf(),
    {
    }

    /// The log over the closed segments `files`, which are in ascending order: no segment is
    /// active, and new segments get ids above the largest of `files`.
    pub fn open(files: Vec<u32>, sync: bool, max_file_size: usize) -> (log: Log)
        requires
            sorted(files@),
            max_file_size <= MAX_FILE_SIZE,
        ensures
            log.wf(),
            log@ == (LogModel {
                max_file_size,
                files: files@.to_multiset(),
                last_file_id: if files@.len() == 0 {
                    0
                } else {
                    files@.last()
                },
                log_writer: LogWriterModel { sync, max_file_size, entry_writer: None },
                active_file_id: None,
            }),
    {
        let current_file_id = if files.is_empty() {
            0
        } else {
            files[files.len() - 1]
        };
        Log {
            max_file_size,
            files,
            file_id_seq: Sequence::new(current_file_id),
            log_writer: LogWriter::new(sync, max_file_size),
            active_file_id: None,
        }
    }

    /// The closed segments, in ascending order.
    pub fn files(&self) -> (files: Vec<u32>)
        requires
            self.wf(),
        ensures
            sorted(files@),
            files@.to_multiset() == self@.files,
    {
        self.files.clone()
    }

    /// The segment that is open for appending, if any.
    pub fn active_file_id(&self) -> (file_id: Option<u32>)
        ensures
            file_id == self@.active_file_id,
    {
        self.active_file_id
    }

    /// The id handed out last to a new segment.
    pub fn last_file_id(&self) -> (file_id: u32)
        ensures
            file_id == self@.last_file_id,
    {
        self.file_id_seq.current()
    }

    /// The largest size that a segment may grow to.
    pub fn max_file_size(&self) -> (size: usize)
        ensures
            size == self@.max_file_size,
    {
        self.max_file_size
    }

    /// Appends `entry` to the log. Where the writer opens a new segment for it, the segment
    /// that was active joins the closed ones and the new one becomes active.
    pub fn append_entry(&mut self, entry: &Entry) -> (written: Written)
        requires
            entry@.wf(),
            old(self).wf(),
            old(self)@.can_append(entry@.size()),
        ensures
            final(self).wf(),
            written_as(written, old(self)@.log_writer, entry@, old(self)@.next_file_id()),
            final(self)@ == old(self)@.append(entry@),
    {
        let written = self.log_writer.write(entry, &mut self.file_id_seq);
        if let LogWrite::NewFile(file_id) = written.log_write {
            if let Some(active_file_id) = self.active_file_id {
                self.add_file(active_file_id);
            }
            self.active_file_id = Some(file_id);
        }
        assert(self@.files =~= old(self)@.append(entry@).files);
        written
    }

    /// What ends the hint file of the active segment, if there is one. This is what
    /// remains to be written when the log is let go.
    pub fn close(&self) -> (closed: Option<ClosedFile>)
        ensures
            match closed {
                Some(c) => self@.log_writer.closes() == Some((c.file_id, c.trailer@)),
                None => self@.log_writer.closes() is None,
            },
    {
        self.log_writer.close()
    }

    /// Whether a store may be opened at a path, given that something is there or not
    /// and is a directory or not. Returns whether the directory is to be made first.
    /// Fails with `InvalidPath` where something that is no directory is in the way, or
    /// where nothing is there and nothing is to be made.
    pub fn check_path(path: &str, create: bool, present: bool, is_dir: bool) -> (result: Result<
        bool,
    >)
        ensures
            match result {
                Ok(make) => {
                    &&& present ==> is_dir
                    &&& !present ==> create
                    &&& make == !present
                },
                Err(Error::InvalidPath(refused)) => {
                    &&& refused@ == path@
                    &&& (present && !is_dir) || (!present && !create)
                },
                Err(_) => false,
            },
    {
        if create {
            if present && !is_dir {
                Err(Error::InvalidPath(path.to_owned()))
            } else {
                Ok(!present)
            }
        } else if !present || !is_dir {
            Err(Error::InvalidPath(path.to_owned()))
        } else {
            Ok(false)
        }
    }

    /// A writer of its own for the output of a compaction: no segment open, never
    /// synchronising, with the log's segment size. It takes its segment ids from the log.
    pub fn writer(&self) -> (writer: LogWriter)
        requires
            self.wf(),
        ensures
            writer@ == (LogWriterModel {
                sync: false,
                max_file_size: self@.max_file_size,
                entry_writer: None,
            }),
            writer@.wf(),
    {
        LogWriter::new(false, self.max_file_size)
    }

    /// Places `entry` through `writer`, a writer made by `writer()`, naming any new segment
    /// with the log's next id.
    pub fn write_with(&mut self, writer: &mut LogWriter, entry: &Entry) -> (written: Written)
        requires
            entry@.wf(),
            old(self).wf(),
            old(writer)@.wf(),
            old(writer)@.rotates(entry@.size()) ==> old(self)@.last_file_id < u32::MAX,
        ensures
            final(self).wf(),
            final(writer)@.wf(),
            written_as(written, old(writer)@, entry@, old(self)@.next_file_id()),
            final(writer)@ == old(writer)@.write(entry@, old(self)@.next_file_id()),
            final(self)@ == (LogModel {
                last_file_id: old(self)@.last_file_id_after(old(writer)@, entry@.size()),
                ..old(self)@
            }),
    {
        writer.write(entry, &mut self.file_id_seq)
    }

    /// Takes each of `old_files` out of the list of closed segments in turn, up to the first
    /// that is not there, and returns how many were taken out.
    pub fn take_out(&mut self, old_files: &[u32]) -> (taken: usize)
        requires
            old(self).wf(),
        ensures
            final(self).wf(),
            taken == first_missing(old(self)@.files, old_files@),
            taken <= old_files@.len(),
            final(self)@ == (LogModel {
                files: without(old(self)@.files, old_files@, taken as int),
                ..old(self)@
            }),
    {
        let ghost before = self.files@.to_multiset();
        proof {
            lemma_first_missing_bound(before, old_files@);
        }
        let mut i: usize = 0;
        while i < old_files.len()
            invariant
                i <= old_files@.len(),
                old(self).wf(),
                before == old(self)@.files,
                sorted(self.files@),
                self@ == (LogModel { files: self@.files, ..old(self)@ }),
                first_missing(before, old_files@) >= i,
                self.files@.to_multiset() == without(before, old_files@, i as int),
            decreases old_files@.len() - i,
        {
            let file_id = old_files[i];
            proof {
                lemma_without_step(before, old_files@, i as int);
            }
            if !remove_sorted(&mut self.files, file_id) {
                return i;
            }
            i += 1;
        }
        proof {
            lemma_first_missing_bound(before, old_files@);
        }
        i
    }

    /// Adds each of `new_files` to the list of closed segments.
    pub fn add_files(&mut self, new_files: &[u32])
        requires
            old(self).wf(),
        ensures
            final(self).wf(),
            final(self)@ == (LogModel {
                files: old(self)@.files.add(new_files@.to_multiset()),
                ..old(self)@
            }),
    {
        let ghost kept = self.files@.to_multiset();
        proof {
            broadcast use vstd::multiset::group_multiset_axioms;

            assert(new_files@.subrange(0, 0).to_multiset() =~= Multiset::<u32>::empty()) by {
                new_files@.subrange(0, 0).to_multiset_ensures();
            }
            assert(kept.add(Multiset::<u32>::empty()) =~= kept);
        }
        let mut j: usize = 0;
        while j < new_files.len()
            invariant
                j <= new_files@.len(),
                old(self).wf(),
                kept == old(self)@.files,
                sorted(self.files@),
                self@ == (LogModel { files: self@.files, ..old(self)@ }),
                self.files@.to_multiset() == kept.add(
                    new_files@.subrange(0, j as int).to_multiset(),
                ),
            decreases new_files@.len() - j,
        {
            insert_sorted(&mut self.files, new_files[j]);
            proof {
                let done = new_files@.subrange(0, j as int);
                assert(new_files@.subrange(0, j + 1) =~= done.push(new_files@[j as int]));
                vstd::seq_lib::to_multiset_build(done, new_files@[j as int]);
                assert(kept.add(done.to_multiset()).insert(new_files@[j as int]) =~= kept.add(
                    done.to_multiset().insert(new_files@[j as int]),
                ));
            }
            j += 1;
        }
        assert(new_files@.subrange(0, new_files@.len() as int) =~= new_files@);
    }

    /// Replaces the closed segments `old_files` by `new_files`. Each of `old_files` is taken
    /// out of the list in turn; the first that is not there stops the work with
    /// `InvalidFileId`, those before it staying out. Where all were there, `new_files` join
    /// the list.
    pub fn swap_files(&mut self, old_files: &[u32], new_files: &[u32]) -> (result: Result<()>)
        requires
            old(self).wf(),
        ensures
            final(self).wf(),
            final(self)@ == old(self)@.swap_files(old_files@, new_files@),
            ({
                let missing = first_missing(old(self)@.files, old_files@);
                if missing == old_files@.len() {
                    result is Ok
                } else {
                    &&& 0 <= missing < old_files@.len()
                    &&& result == Err::<(), Error>(Error::InvalidFileId(old_files@[missing]))
                }
            }),
    {
        let taken = self.take_out(old_files);
        if taken < old_files.len() {
            return Err(Error::InvalidFileId(old_files[taken]));
        }
        self.add_files(new_files);
        Ok(())
    }

    /// Adds the closed segment `file_id` to the list.
    fn add_file(&mut self, file_id: u32)
        requires
            sorted(old(self).files@),
        ensures
            sorted(final(self).files@),
            final(self).files@.to_multiset() == old(self).files@.to_multiset().insert(file_id),
            final(self).max_file_size == old(self).max_file_size,
            final(self).file_id_seq == old(self).file_id_seq,
            final(self).log_writer == old(self).log_writer,
            final(self).active_file_id == old(self).active_file_id,
    {
        insert_sorted(&mut self.files, file_id);
    }
}

/// What each of `hints` says.
pub open spec fn hint_views(hints: Seq<Hint>) -> Seq<HintModel> {
    Seq::new(hints.len(), |i: int| hints[i]@)
}

/// The bytes of `hints`, one after the other.
pub open spec fn hints_bytes(hints: Seq<HintModel>) -> Seq<u8>
    decreases hints.len(),
{
    if hints.len() == 0 {
        Seq::<u8>::empty()
    } else {
        hints_bytes(hints.drop_last()) + hints.last().bytes()
    }
}

/// The content of the hint file of `hints`: their bytes, then the checksum of those.
pub open spec fn hint_file_bytes(hints: Seq<HintModel>) -> Seq<u8> {
    hints_bytes(hints) + u32_le_bytes(checksum(hints_bytes(hints)))
}

/// The hint file `b` is whole: its last four bytes are the checksum of all before them.
pub open spec fn valid_hint_file(b: Seq<u8>) -> bool {
    &&& b.len() >= 4
    &&& checksum(b.subrange(0, b.len() - 4)) == le_u32(b.subrange(b.len() - 4, b.len() as int))
}

/// The hints that `b` holds one after the other; nothing where `b` ends within a hint.
pub open spec fn decode_hints(b: Seq<u8>) -> Option<Seq<HintModel>>
    decreases b.len(),
{
    if b.len() == 0 {
        Some(Seq::<HintModel>::empty())
    } else {
        match decode_hint(b) {
            Decoded::Item(hint, size) => if 0 < size <= b.len() {
                match decode_hints(b.subrange(size as int, b.len() as int)) {
                    Some(rest) => Some(seq![hint] + rest),
                    None => None,
                }
            } else {
                None
            },
            _ => None,
        }
    }
}

/// The hints of the records that the data file content `b` holds one after the other,
/// where `b` starts at position `pos` of the file. A record that does not carry its
/// checksum is passed over, and the scan ends where `b` ends within a record.
pub open spec fn scan_hints(b: Seq<u8>, pos: nat) -> Seq<HintModel>
    decreases b.len(),
{
    if b.len() == 0 {
        Seq::<HintModel>::empty()
    } else {
        match decode_entry(b) {
            Decoded::Item(entry, size) => if 0 < size <= b.len() {
                seq![HintModel::of(entry, pos as u64)] + scan_hints(
                    b.subrange(size as int, b.len() as int),
                    pos + size,
                )
            } else {
                Seq::<HintModel>::empty()
            },
            Decoded::Corrupt { size, .. } => if 0 < size <= b.len() {
                scan_hints(b.subrange(size as int, b.len() as int), pos + size)
            } else {
                Seq::<HintModel>::empty()
            },
            Decoded::Short => Seq::<HintModel>::empty(),
        }
    }
}

/// What the data file content `b` holds one after the other, each with its position in the
/// file, where `b` starts at position `pos` of the file. What follows a record that does
/// not carry its checksum is read on; nothing is read behind the place where `b` ends
/// within a record.
pub open spec fn scan_entries(b: Seq<u8>, pos: nat) -> Seq<(nat, Decoded<EntryModel>)>
    decreases b.len(),
{
    if b.len() == 0 {
        Seq::empty()
    } else {
        let found = decode_entry(b);
        let size = match found {
            Decoded::Item(_, size) => size,
            Decoded::Corrupt { size, .. } => size,
            Decoded::Short => 0,
        };
        if 0 < size <= b.len() {
            seq![(pos, found)] + scan_entries(b.subrange(size as int, b.len() as int), pos + size)
        } else {
            seq![(pos, found)]
        }
    }
}

/// The result `read` of reading a record is what `found` says: the record, or the failure
/// that stands for what was found in its place.
pub open spec fn read_as(read: Result<Entry>, found: Decoded<EntryModel>) -> bool {
    match found {
        Decoded::Item(entry, _) => read matches Ok(e) && e@ == entry,
        Decoded::Short => read matches Err(Error::Io(_)),
        Decoded::Corrupt { expected, found, .. } => read == Err::<Entry, Error>(
            Error::InvalidChecksum { expected, found },
        ),
    }
}

/// The first thing in the data file content `b` that is no whole record carrying its
/// checksum, if there is any.
pub open spec fn scan_failure(b: Seq<u8>) -> Option<Decoded<EntryModel>>
    decreases b.len(),
{
    if b.len() == 0 {
        None
    } else {
        match decode_entry(b) {
            Decoded::Item(entry, size) => if 0 < size <= b.len() {
                scan_failure(b.subrange(size as int, b.len() as int))
            } else {
                None
            },
            failure => Some(failure),
        }
    }
}

/// The hints that bytes hold are no more than the bytes, and each fits the format.
pub proof fn lemma_decode_hints(b: Seq<u8>)
    ensures
        decode_hints(b) matches Some(hints) ==> hints.len() <= b.len() && forall|i: int|
            0 <= i < hints.len() ==> (#[trigger] hints[i]).wf(),
    decreases b.len(),
{
    if b.len() > 0 {
        crate::data::lemma_decoded_hint(b);
        match decode_hint(b) {
            Decoded::Item(hint, size) => {
                let rest = b.subrange(size as int, b.len() as int);
                lemma_decode_hints(rest);
                match decode_hints(rest) {
                    Some(tail) => {
                        let hints = seq![hint] + tail;
                        assert forall|i: int| 0 <= i < hints.len() implies (#[trigger] hints[i]).wf() by {
                            if i > 0 {
                                assert(hints[i] == tail[i - 1]);
                            }
                        }
                    },
                    None => {},
                }
            },
            _ => {},
        }
    }
}

/// The hints of the records that bytes hold are no more than the bytes, and each fits the
/// format.
pub proof fn lemma_scan_hints(b: Seq<u8>, pos: nat)
    ensures
        scan_hints(b, pos).len() <= b.len(),
        forall|i: int|
            0 <= i < scan_hints(b, pos).len() ==> (#[trigger] scan_hints(b, pos)[i]).wf(),
    decreases b.len(),
{
    if b.len() > 0 {
        crate::data::lemma_decoded_entry(b);
        match decode_entry(b) {
            Decoded::Item(entry, size) => {
                let rest = b.subrange(size as int, b.len() as int);
                lemma_scan_hints(rest, pos + size);
                let tail = scan_hints(rest, pos + size);
                let hints = seq![HintModel::of(entry, pos as u64)] + tail;
                crate::data::lemma_hint_of_entry(entry, pos as u64);
                assert forall|i: int| 0 <= i < hints.len() implies (#[trigger] hints[i]).wf() by {
                    if i > 0 {
                        assert(hints[i] == tail[i - 1]);
                    }
                }
            },
            Decoded::Corrupt { size, .. } => {
                lemma_scan_hints(b.subrange(size as int, b.len() as int), pos + size);
            },
            Decoded::Short => {},
        }
    }
}

/// The bytes of a list of hints with one more are those of the list, then those of the one.
proof fn lemma_hints_bytes_push(hints: Seq<HintModel>, hint: HintModel)
    ensures
        hints_bytes(hints.push(hint)) == hints_bytes(hints) + hint.bytes(),
{
    assert(hints.push(hint).drop_last() =~= hints);
}

/// Joining byte strings may be done in any grouping.
proof fn lemma_join(a: Seq<u8>, b: Seq<u8>, c: Seq<u8>)
    ensures
        (a + b) + c == a + (b + c),
        a + Seq::<u8>::empty() == a,
        Seq::<u8>::empty() + a == a,
{
    assert((a + b) + c =~= a + (b + c));
    assert(a + Seq::<u8>::empty() =~= a);
    assert(Seq::<u8>::empty() + a =~= a);
}

/// The bytes of a list of hints are those of its first, then those of the rest.
pub proof fn lemma_hints_bytes_first(first: HintModel, rest: Seq<HintModel>)
    ensures
        hints_bytes(seq![first] + rest) == first.bytes() + hints_bytes(rest),
    decreases rest.len(),
{
    let all = seq![first] + rest;
    let a = first.bytes();
    assert(all.len() == rest.len() + 1);
    if rest.len() == 0 {
        assert(all.drop_last() =~= Seq::<HintModel>::empty());
        assert(all.last() == first);
        assert(hints_bytes(Seq::<HintModel>::empty()) == Seq::<u8>::empty());
        assert(hints_bytes(all) == hints_bytes(all.drop_last()) + all.last().bytes());
        assert(hints_bytes(rest) == Seq::<u8>::empty());
        lemma_join(a, Seq::empty(), Seq::empty());
    } else {
        let head = rest.drop_last();
        let b = hints_bytes(head);
        let c = rest.last().bytes();
        lemma_hints_bytes_first(first, head);
        assert(all.drop_last() =~= seq![first] + head);
        assert(all.last() == rest.last());
        assert(hints_bytes(all) == hints_bytes(all.drop_last()) + all.last().bytes());
        assert(hints_bytes(all.drop_last()) == a + b);
        assert(hints_bytes(rest) == b + c);
        lemma_join(a, b, c);
    }
}

/// Reading the bytes of a list of hints gives the hints back.
pub proof fn lemma_hints_round_trip(hints: Seq<HintModel>)
    requires
        forall|i: int| 0 <= i < hints.len() ==> (#[trigger] hints[i]).wf(),
    ensures
        decode_hints(hints_bytes(hints)) == Some(hints),
    decreases hints.len(),
{
    if hints.len() == 0 {
        assert(hints_bytes(hints).len() == 0);
    } else {
        let first = hints[0];
        let rest = hints.drop_first();
        assert(hints =~= seq![first] + rest);
        lemma_hints_bytes_first(first, rest);
        lemma_hint_round_trip(first, hints_bytes(rest));
        lemma_hints_round_trip(rest);
        let b = hints_bytes(hints);
        assert(b.subrange(first.size() as int, b.len() as int) =~= hints_bytes(rest));
    }
}

/// A hint file written from hints is whole, and reading it gives the hints back.
pub proof fn lemma_hint_file_round_trip(hints: Seq<HintModel>)
    requires
        forall|i: int| 0 <= i < hints.len() ==> (#[trigger] hints[i]).wf(),
    ensures
        valid_hint_file(hint_file_bytes(hints)),
        decode_hints(hint_file_bytes(hints).subrange(0, hint_file_bytes(hints).len() - 4))
            == Some(hints),
{
    let body = hints_bytes(hints);
    let file = hint_file_bytes(hints);
    lemma_u32_round_trip(checksum(body));
    lemma_hints_round_trip(hints);
    assert(file.subrange(0, file.len() - 4) =~= body);
    assert(file.subrange(file.len() - 4, file.len() as int) =~= u32_le_bytes(checksum(body)));
}

/// The bytes of `entries`, one record after the other.
pub open spec fn entries_bytes(entries: Seq<EntryModel>) -> Seq<u8>
    decreases entries.len(),
{
    if entries.len() == 0 {
        Seq::<u8>::empty()
    } else {
        entries_bytes(entries.drop_last()) + entries.last().bytes()
    }
}

/// The hints of `entries` written one after the other from position `pos` on.
pub open spec fn hints_of(entries: Seq<EntryModel>, pos: nat) -> Seq<HintModel>
    decreases entries.len(),
{
    if entries.len() == 0 {
        Seq::<HintModel>::empty()
    } else {
        let before = entries.drop_last();
        hints_of(before, pos).push(
            HintModel::of(entries.last(), (pos + entries_bytes(before).len()) as u64),
        )
    }
}

/// The bytes of a list of records are those of its first, then those of the rest; and
/// likewise its hints.
pub proof fn lemma_entries_first(first: EntryModel, rest: Seq<EntryModel>, pos: nat)
    ensures
        entries_bytes(seq![first] + rest) == first.bytes() + entries_bytes(rest),
        hints_of(seq![first] + rest, pos) == seq![HintModel::of(first, pos as u64)] + hints_of(
            rest,
            pos + first.bytes().len(),
        ),
    decreases rest.len(),
{
    let all = seq![first] + rest;
    let a = first.bytes();
    let after = pos + a.len();
    let hint = HintModel::of(first, pos as u64);
    assert(all.len() == rest.len() + 1);
    if rest.len() == 0 {
        assert(all.drop_last() =~= Seq::<EntryModel>::empty());
        assert(all.last() == first);
        assert(entries_bytes(Seq::<EntryModel>::empty()) == Seq::<u8>::empty());
        assert(entries_bytes(all) == entries_bytes(all.drop_last()) + all.last().bytes());
        assert(entries_bytes(rest) == Seq::<u8>::empty());
        lemma_join(a, Seq::empty(), Seq::empty());
        assert(hints_of(Seq::<EntryModel>::empty(), pos) == Seq::<HintModel>::empty());
        assert(hints_of(all, pos) == hints_of(all.drop_last(), pos).push(
            HintModel::of(all.last(), (pos + entries_bytes(all.drop_last()).len()) as u64),
        ));
        assert(hints_of(rest, after) == Seq::<HintModel>::empty());
        assert(hints_of(all, pos) =~= seq![hint] + hints_of(rest, after));
    } else {
        let head = rest.drop_last();
        let b = entries_bytes(head);
        let c = rest.last().bytes();
        lemma_entries_first(first, head, pos);
        assert(all.drop_last() =~= seq![first] + head);
        assert(all.last() == rest.last());
        assert(entries_bytes(all) == entries_bytes(all.drop_last()) + all.last().bytes());
        assert(entries_bytes(all.drop_last()) == a + b);
        assert(entries_bytes(rest) == b + c);
        lemma_join(a, b, c);
        assert((a + b).len() == a.len() + b.len());
        assert(hints_of(all, pos) == hints_of(all.drop_last(), pos).push(
            HintModel::of(all.last(), (pos + entries_bytes(all.drop_last()).len()) as u64),
        ));
        assert(hints_of(rest, after) == hints_of(head, after).push(
            HintModel::of(rest.last(), (after + b.len()) as u64),
        ));
        assert(hints_of(all.drop_last(), pos) == seq![hint] + hints_of(head, after));
        assert(hints_of(all, pos) =~= seq![hint] + hints_of(rest, after));
    }
}

/// A data file that holds records written one after the other scans without failure, and
/// gives the hint of each record at its position.
pub proof fn lemma_scan_entries(entries: Seq<EntryModel>, pos: nat)
    requires
        forall|i: int| 0 <= i < entries.len() ==> (#[trigger] entries[i]).wf(),
    ensures
        scan_hints(entries_bytes(entries), pos) == hints_of(entries, pos),
        scan_failure(entries_bytes(entries)) is None,
    decreases entries.len(),
{
    if entries.len() == 0 {
        assert(entries_bytes(entries).len() == 0);
    } else {
        let first = entries[0];
        let rest = entries.drop_first();
        assert(entries =~= seq![first] + rest);
        lemma_entries_first(first, rest, pos);
        lemma_entry_round_trip(first, entries_bytes(rest));
        lemma_entry_layout(first, entries_bytes(rest));
        lemma_scan_entries(rest, pos + first.size());
        let b = entries_bytes(entries);
        assert(b.subrange(first.size() as int, b.len() as int) =~= entries_bytes(rest));
    }
}

/// What a data file was found to hold when its hint file was written anew.
pub struct RecreateHints {
    /// The hint of every record that carries its checksum, in the order of the file.
    pub hints: Vec<Hint>,
    /// The content of the new hint file.
    pub hint_file: Vec<u8>,
    /// The first failure met in the data file, if any.
    pub failure: Option<Error>,
}

/// Whether the hint file content `bytes` is whole.
pub fn is_valid_hint_file(bytes: &[u8]) -> (valid: bool)
    ensures
        valid == valid_hint_file(bytes@),
{
    if bytes.len() < 4 {
        return false;
    }
    let body = bytes.len() - 4;
    let hash = crate::util::xxhash32(slice_subrange(bytes, 0, body));
    let stored = decode_u32(slice_subrange(bytes, body, bytes.len()));
    crate::data::verify_checksum(stored, hash).is_ok()
}

impl Log {
    /// The hints of the hint file content `hint_file`. Where the file is not whole there
    /// are none, and the file is to be written anew from its data file. Where it is whole
    /// but ends within a hint, the read fails with `Io`.
    pub fn hints(hint_file: &[u8]) -> (result: Result<Option<Vec<Hint>>>)
        ensures
            match result {
                Ok(None) => !valid_hint_file(hint_file@),
                Ok(Some(hints)) => {
                    &&& valid_hint_file(hint_file@)
                    &&& decode_hints(hint_file@.subrange(0, hint_file@.len() - 4)) == Some(
                        hint_views(hints@),
                    )
                },
                Err(e) => {
                    &&& valid_hint_file(hint_file@)
                    &&& decode_hints(hint_file@.subrange(0, hint_file@.len() - 4)) is None
                    &&& e is Io
                },
            },
    {
        if !is_valid_hint_file(hint_file) {
            return Ok(None);
        }
        let body = slice_subrange(hint_file, 0, hint_file.len() - 4);
        let mut reader = Reader::new(body);
        let mut hints: Vec<Hint> = Vec::new();
        while reader.limit() > 0
            invariant
                valid_hint_file(hint_file@),
                body@ == hint_file@.subrange(0, hint_file@.len() - 4),
                decode_hints(body@) == match decode_hints(reader@) {
                    Some(rest) => Some(hint_views(hints@) + rest),
                    None => None,
                },
            decreases reader@.len(),
        {
            let ghost left = reader@;
            let ghost done = hint_views(hints@);
            match Hint::from_read(&mut reader) {
                Ok(hint) => {
                    hints.push(hint);
                    proof {
                        assert(hint_views(hints@) =~= done.push(hint@));
                        match decode_hints(reader@) {
                            Some(rest) => {
                                assert(done + (seq![hint@] + rest) =~= done.push(hint@) + rest);
                            },
                            None => {},
                        }
                    }
                },
                Err(e) => {
                    return Err(e);
                },
            }
        }
        assert(hint_views(hints@) + Seq::<HintModel>::empty() =~= hint_views(hints@));
        Ok(Some(hints))
    }

    /// What the data file content `data_file` holds, one after the other: each record, or
    /// the failure to read one, with its position. After a record that does not carry its
    /// checksum the next is read; where the content ends within a record, the reading
    /// ends.
    pub fn entries(data_file: &[u8]) -> (entries: Vec<(u64, Result<Entry>)>)
        ensures
            entries@.len() == scan_entries(data_file@, 0).len(),
            forall|i: int|
                0 <= i < entries@.len() ==> (#[trigger] entries@[i]).0 == scan_entries(
                    data_file@,
                    0,
                )[i].0 && read_as(entries@[i].1, scan_entries(data_file@, 0)[i].1),
    {
        let mut reader = Reader::new(data_file);
        let mut entries: Vec<(u64, Result<Entry>)> = Vec::new();
        let total = data_file.len();
        let ghost all = scan_entries(data_file@, 0);
        while reader.limit() > 0
            invariant
                total == data_file@.len(),
                reader@.len() <= total,
                all == scan_entries(data_file@, 0),
                all.len() == entries@.len() + scan_entries(
                    reader@,
                    (total - reader@.len()) as nat,
                ).len(),
                forall|i: int|
                    0 <= i < all.len() - entries@.len() ==> all[entries@.len() + i]
                        == #[trigger] scan_entries(reader@, (total - reader@.len()) as nat)[i],
                forall|i: int|
                    0 <= i < entries@.len() ==> (#[trigger] entries@[i]).0 == all[i].0
                        && read_as(entries@[i].1, all[i].1),
            decreases reader@.len(),
        {
            let ghost left = reader@;
            let ghost rest = scan_entries(left, (total - left.len()) as nat);
            let entry_pos = (total - reader.limit()) as u64;
            proof {
                crate::data::lemma_decoded_entry(left);
                assert(rest.len() > 0);
                assert(all[entries@.len() as int] == rest[0]);
            }
            let entry = Entry::from_read(&mut reader);
            proof {
                let tail = scan_entries(reader@, (total - reader@.len()) as nat);
                assert(rest.len() == 1 + tail.len()) by {
                    if decode_entry(left) is Short {
                        assert(reader@.len() == 0);
                    }
                }
                assert forall|i: int| 0 <= i < tail.len() implies all[entries@.len() + 1 + i]
                    == #[trigger] tail[i] by {
                    assert(all[entries@.len() + (i + 1)] == rest[i + 1]);
                }
            }
            entries.push((entry_pos, entry));
        }
        entries
    }

    /// Reads the record at position `entry_pos` of the data file content `data_file`.
    pub fn read_entry(data_file: &[u8], entry_pos: u64) -> (result: Result<Entry>)
        ensures
            ({
                let from = if entry_pos <= data_file@.len() {
                    data_file@.subrange(entry_pos as int, data_file@.len() as int)
                } else {
                    Seq::<u8>::empty()
                };
                match decode_entry(from) {
                    Decoded::Item(entry, _) => result matches Ok(e) && e@ == entry,
                    Decoded::Short => result matches Err(Error::Io(_)),
                    Decoded::Corrupt { expected, found, .. } => result == Err::<Entry, Error>(
                        Error::InvalidChecksum { expected, found },
                    ),
                }
            }),
    {
        let pos = if entry_pos <= data_file.len() as u64 {
            entry_pos as usize
        } else {
            data_file.len()
        };
        let mut reader = Reader::at(data_file, pos);
        Entry::from_read(&mut reader)
    }

    /// Scans the data file content `data_file` record by record and writes its hint file
    /// anew. A record that does not carry its checksum gets no hint; the scan goes on
    /// behind it. The scan ends where the content ends within a record.
    pub fn recreate_hints(data_file: &[u8]) -> (found: RecreateHints)
        ensures
            hint_views(found.hints@) == scan_hints(data_file@, 0),
            found.hint_file@ == hint_file_bytes(scan_hints(data_file@, 0)),
            match scan_failure(data_file@) {
                None => found.failure is None,
                Some(Decoded::Corrupt { expected, found: sum, .. }) => found.failure == Some(
                    Error::InvalidChecksum { expected, found: sum },
                ),
                Some(_) => found.failure matches Some(Error::Io(_)),
            },
    {
        let mut reader = Reader::new(data_file);
        let mut hints: Vec<Hint> = Vec::new();
        let mut hint_file: Vec<u8> = Vec::new();
        let mut failure: Option<Error> = None;
        let total = data_file.len();
        while reader.limit() > 0
            invariant
                total == data_file@.len(),
                reader@.len() <= total,
                scan_hints(data_file@, 0) == hint_views(hints@) + scan_hints(
                    reader@,
                    (total - reader@.len()) as nat,
                ),
                hint_file@ == hints_bytes(hint_views(hints@)),
                match failure {
                    None => scan_failure(data_file@) == scan_failure(reader@),
                    Some(Error::InvalidChecksum { expected, found }) => scan_failure(data_file@)
                        matches Some(Decoded::Corrupt { expected: e, found: f, .. }) && e
                        == expected && f == found,
                    Some(Error::Io(_)) => scan_failure(data_file@) is Some && !(scan_failure(
                        data_file@,
                    )->0 is Corrupt),
                    Some(_) => false,
                },
            decreases reader@.len(),
        {
            let ghost left = reader@;
            let ghost done = hint_views(hints@);
            let entry_pos = (total - reader.limit()) as u64;
            proof {
                crate::data::lemma_decoded_entry(left);
            }
            match Entry::from_read(&mut reader) {
                Ok(entry) => {
                    let hint = Hint::from(entry, entry_pos);
                    let _ = hint.write_bytes(&mut hint_file);
                    proof {
                        lemma_hints_bytes_push(done, hint@);
                    }
                    hints.push(hint);
                    proof {
                        assert(hint_views(hints@) =~= done.push(hint@));
                        let rest = scan_hints(reader@, (total - reader@.len()) as nat);
                        assert(done + (seq![hint@] + rest) =~= done.push(hint@) + rest);
                    }
                },
                Err(e) => {
                    if failure.is_none() {
                        failure = Some(e);
                    }
                },
            }
        }
        assert(hint_views(hints@) + Seq::<HintModel>::empty() =~= hint_views(hints@));
        let sum = crate::util::xxhash32(hint_file.as_slice());
        write_u32(&mut hint_file, sum);
        RecreateHints { hints, hint_file, failure }
    }
}

} // verus!
