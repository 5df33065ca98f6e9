//! Records and hints, and their binary formats.
//!
//! A record is what a data file holds for one mutation: a checksum, a sequence number, the
//! sizes, the key and the value. A hint is the summary of a record that a hint file holds: the
//! same without checksum and value, with the record's position added.

use crate::bytes::{
    decode_u16, decode_u32, decode_u64, le_u16, le_u32, le_u64, lemma_le_bytes_len,
    lemma_u16_round_trip,
    lemma_u32_round_trip, lemma_u64_round_trip, u16_le_bytes, u32_le_bytes, u64_le_bytes,
    write_all, write_u16, write_u32, write_u64, Reader,
};
use crate::errors::{unexpected_eof, Error, Result};
use crate::util::{checksum, TwoXhash32};
use vstd::prelude::*;
use vstd::slice::{slice_subrange, slice_to_vec};

verus! {

/// The size of a record without key and value: checksum(4) + sequence(8) + key_size(2) +
/// value_size(4).
pub const ENTRY_STATIC_SIZE: usize = 18;

/// The size of a hint without its key: sequence(8) + key_size(2) + value_size(4) +
/// entry_pos(8).
pub const HINT_STATIC_SIZE: usize = 22;

/// The value size that marks a record as a tombstone.
pub const ENTRY_TOMBSTONE: u32 = 0xFFFF_FFFF;

/// The largest value a record can hold.
pub const MAX_VALUE_SIZE: u32 = 0xFFFF_FFFE;

/// The largest key a record can hold.
pub const MAX_KEY_SIZE: u16 = 0xFFFF;

/// The largest size that a hint can give for its record: the largest key and the largest
/// value size field.
pub const MAX_ENTRY_SIZE: u64 = 0x1_0001_0010;

pub type SequenceNumber = u64;

/// What a record says, as mathematical values.
#[verifier::ext_equal]
pub struct EntryModel {
    pub key: Seq<u8>,
    pub value: Seq<u8>,
    pub sequence: SequenceNumber,
    pub deleted: bool,
}

impl EntryModel {
    /// The record fits the format: key and value are within the size bounds and a tombstone
    /// carries no value.
    pub open spec fn wf(self) -> bool {
        &&& self.key.len() <= MAX_KEY_SIZE
        &&& self.value.len() <= MAX_VALUE_SIZE
        &&& self.deleted ==> self.value.len() == 0
    }

    /// The number of bytes the record takes in a data file.
    pub open spec fn size(self) -> nat {
        ENTRY_STATIC_SIZE as nat + self.key.len() + self.value.len()
    }

    /// The value size field of the record.
    pub open spec fn value_size(self) -> u32 {
        if self.deleted {
            ENTRY_TOMBSTONE
        } else {
            self.value.len() as u32
        }
    }

    /// The bytes of the record after its checksum.
    pub open spec fn body(self) -> Seq<u8> {
        u64_le_bytes(self.sequence) + u16_le_bytes(self.key.len() as u16) + u32_le_bytes(
            self.value_size(),
        ) + self.key + self.value
    }

    /// The bytes of the record: the checksum of the body, then the body.
    pub open spec fn bytes(self) -> Seq<u8> {
        u32_le_bytes(checksum(self.body())) + self.body()
    }
}

/// What comes of reading a record or a hint from the front of some bytes.
pub enum Decoded<T> {
    /// A whole item was read; it took this many bytes.
    Item(T, nat),
    /// The bytes end before the item does.
    Short,
    /// A whole record was read, of this many bytes, but it does not carry the checksum of its
    /// contents: `expected` is the checksum it carries, `found` that of its contents.
    Corrupt { expected: u32, found: u32, size: nat },
}

/// Reads one record from the front of `b`: the header, then the key, then the value unless
/// the record is a tombstone. The checksum covers everything after itself.
pub open spec fn decode_entry(b: Seq<u8>) -> Decoded<EntryModel> {
    if b.len() < ENTRY_STATIC_SIZE {
        Decoded::Short
    } else {
        let expected = le_u32(b.subrange(0, 4));
        let sequence = le_u64(b.subrange(4, 12));
        let key_size = le_u16(b.subrange(12, 14));
        let value_size = le_u32(b.subrange(14, 18));
        let deleted = value_size == ENTRY_TOMBSTONE;
        let key_end = ENTRY_STATIC_SIZE + key_size;
        let end = if deleted {
            key_end
        } else {
            key_end + value_size
        };
        if b.len() < end {
            Decoded::Short
        } else {
            let found = checksum(b.subrange(4, end));
            if found != expected {
                Decoded::Corrupt { expected, found, size: end as nat }
            } else {
                Decoded::Item(
                    EntryModel {
                        key: b.subrange(ENTRY_STATIC_SIZE as int, key_end),
                        value: b.subrange(key_end, end),
                        sequence,
                        deleted,
                    },
                    end as nat,
                )
            }
        }
    }
}

/// Reads `b` as exactly one record: the value is whatever follows the key, and the checksum
/// covers everything after itself.
pub open spec fn decode_whole_entry(b: Seq<u8>) -> Decoded<EntryModel> {
    if b.len() < ENTRY_STATIC_SIZE {
        Decoded::Short
    } else {
        let expected = le_u32(b.subrange(0, 4));
        let sequence = le_u64(b.subrange(4, 12));
        let key_size = le_u16(b.subrange(12, 14));
        let value_size = le_u32(b.subrange(14, 18));
        let deleted = value_size == ENTRY_TOMBSTONE;
        let key_end = ENTRY_STATIC_SIZE + key_size;
        if b.len() < key_end {
            Decoded::Short
        } else {
            let found = checksum(b.subrange(4, b.len() as int));
            if found != expected {
                Decoded::Corrupt { expected, found, size: b.len() }
            } else {
                Decoded::Item(
                    EntryModel {
                        key: b.subrange(ENTRY_STATIC_SIZE as int, key_end),
                        value: if deleted {
                            Seq::<u8>::empty()
                        } else {
                            b.subrange(key_end, b.len() as int)
                        },
                        sequence,
                        deleted,
                    },
                    b.len(),
                )
            }
        }
    }
}

/// The layout of an encoded record: where each field lies and what it decodes to.
pub proof fn lemma_entry_layout(e: EntryModel, rest: Seq<u8>)
    requires
        e.wf(),
    ensures
        e.bytes().len() == e.size(),
        e.body().len() == e.size() - 4,
        ({
            let b = e.bytes() + rest;
            &&& le_u32(b.subrange(0, 4)) == checksum(e.body())
            &&& le_u64(b.subrange(4, 12)) == e.sequence
            &&& le_u16(b.subrange(12, 14)) == e.key.len()
            &&& le_u32(b.subrange(14, 18)) == e.value_size()
            &&& b.subrange(ENTRY_STATIC_SIZE as int, ENTRY_STATIC_SIZE + e.key.len()) == e.key
            &&& b.subrange(ENTRY_STATIC_SIZE + e.key.len(), e.size() as int) == e.value
            &&& b.subrange(4, e.size() as int) == e.body()
        }),
{
    let b = e.bytes() + rest;
    let sum = checksum(e.body());
    lemma_u32_round_trip(sum);
    lemma_u64_round_trip(e.sequence);
    lemma_u16_round_trip(e.key.len() as u16);
    lemma_u32_round_trip(e.value_size());
    assert(b.subrange(0, 4) =~= u32_le_bytes(sum));
    assert(b.subrange(4, 12) =~= u64_le_bytes(e.sequence));
    assert(b.subrange(12, 14) =~= u16_le_bytes(e.key.len() as u16));
    assert(b.subrange(14, 18) =~= u32_le_bytes(e.value_size()));
    assert(b.subrange(ENTRY_STATIC_SIZE as int, ENTRY_STATIC_SIZE + e.key.len()) =~= e.key);
    assert(b.subrange(ENTRY_STATIC_SIZE + e.key.len(), e.size() as int) =~= e.value);
    assert(b.subrange(4, e.size() as int) =~= e.body());
}

/// Decoding the encoding of a record gives the record back, whatever follows it, and its
/// checksum is found good.
pub proof fn lemma_entry_round_trip(e: EntryModel, rest: Seq<u8>)
    requires
        e.wf(),
    ensures
        decode_entry(e.bytes() + rest) == Decoded::Item(e, e.size()),
        decode_whole_entry(e.bytes()) == Decoded::Item(e, e.size()),
{
    lemma_entry_layout(e, rest);
    let b = e.bytes() + rest;
    let d = decode_entry(b);
    assert(d is Item);
    assert(d->Item_0 =~= e);
    lemma_entry_layout(e, Seq::<u8>::empty());
    assert(e.bytes() + Seq::<u8>::empty() =~= e.bytes());
    let w = decode_whole_entry(e.bytes());
    assert(w is Item);
    assert(w->Item_0 =~= e);
}

/// Holds the checksum `found` of what was read against the checksum `expected` that was
/// read with it.
pub fn verify_checksum(expected: u32, found: u32) -> (result: Result<()>)
    ensures
        match result {
            Ok(()) => found == expected,
            Err(e) => found != expected && e == (Error::InvalidChecksum { expected, found }),
        },
{
    if found != expected {
        Err(Error::InvalidChecksum { expected, found })
    } else {
        Ok(())
    }
}

/// A record read from bytes fits the format and is as large as the bytes it took; what was
/// read instead of one took some bytes too.
pub proof fn lemma_decoded_entry(b: Seq<u8>)
    ensures
        match decode_entry(b) {
            Decoded::Item(entry, size) => entry.wf() && size == entry.size() && 0 < size
                <= b.len(),
            Decoded::Corrupt { size, .. } => 0 < size <= b.len(),
            Decoded::Short => true,
        },
{
}

/// A record of a data file.
#[derive(Debug, PartialEq, Eq)]
pub struct Entry {
    pub key: Vec<u8>,
    pub value: Vec<u8>,
    pub sequence: SequenceNumber,
    pub deleted: bool,
}

impl View for Entry {
    type V = EntryModel;

    open spec fn view(&self) -> EntryModel {
        EntryModel {
            key: self.key@,
            value: self.value@,
            sequence: self.sequence,
            deleted: self.deleted,
        }
    }
}

impl Entry {
    /// A record that sets `key` to `value`. Fails where either is larger than the format
    /// allows; the key is looked at first.
    pub fn new(sequence: SequenceNumber, key: &[u8], value: &[u8]) -> (result: Result<Entry>)
        ensures
            match result {
                Ok(entry) => {
                    &&& key@.len() <= MAX_KEY_SIZE
                    &&& value@.len() <= MAX_VALUE_SIZE
                    &&& entry@ == (EntryModel { key: key@, value: value@, sequence, deleted: false })
                    &&& entry@.wf()
                },
                Err(Error::InvalidKeySize(size)) => key@.len() > MAX_KEY_SIZE && size == key@.len(),
                Err(Error::InvalidValueSize(size)) => {
                    &&& key@.len() <= MAX_KEY_SIZE
                    &&& value@.len() > MAX_VALUE_SIZE
                    &&& size == value@.len()
                },
                Err(_) => false,
            },
    {
        if key.len() > MAX_KEY_SIZE as usize {
            return Err(Error::InvalidKeySize(key.len()));
        }
        if value.len() > MAX_VALUE_SIZE as usize {
            return Err(Error::InvalidValueSize(value.len()));
        }
        Ok(Entry { key: slice_to_vec(key), value: slice_to_vec(value), sequence, deleted: false })
    }

    /// A tombstone for `key`.
    pub fn deleted(sequence: SequenceNumber, key: &[u8]) -> (entry: Entry)
        ensures
            entry@ == (EntryModel { key: key@, value: Seq::<u8>::empty(), sequence, deleted: true }),
            entry@.wf() <==> key@.len() <= MAX_KEY_SIZE,
    {
        Entry { key: slice_to_vec(key), value: Vec::new(), sequence, deleted: true }
    }

    /// The number of bytes the record takes in a data file.
    pub fn size(&self) -> (size: u64)
        requires
            self@.wf(),
        ensures
            size == self@.size(),
    {
        ENTRY_STATIC_SIZE as u64 + self.key.len() as u64 + self.value.len() as u64
    }

    /// The record's value size field.
    fn value_size(&self) -> (size: u32)
        requires
            self@.wf(),
        ensures
            size == self@.value_size(),
    {
        if self.deleted {
            ENTRY_TOMBSTONE
        } else {
            self.value.len() as u32
        }
    }

    /// The bytes of the record.
    pub fn to_bytes(&self) -> (result: Result<Vec<u8>>)
        requires
            self@.wf(),
        ensures
            result matches Ok(bytes) && bytes@ == self@.bytes(),
    {
        proof {
            lemma_le_bytes_len();
        }
        let mut out: Vec<u8> = Vec::new();
        write_u32(&mut out, 0);
        write_u64(&mut out, self.sequence);
        write_u16(&mut out, self.key.len() as u16);
        write_u32(&mut out, self.value_size());
        write_all(&mut out, self.key.as_slice());
        write_all(&mut out, self.value.as_slice());
        assert(out@ =~= u32_le_bytes(0) + self@.body());
        let sum = crate::util::xxhash32(slice_subrange(out.as_slice(), 4, out.len()));
        assert(out@.subrange(4, out@.len() as int) =~= self@.body());
        let mut head: Vec<u8> = Vec::new();
        write_u32(&mut head, sum);
        let mut i: usize = 0;
        while i < 4
            invariant
                i <= 4,
                head@.len() == 4,
                u32_le_bytes(0).len() == 4,
                head@ == u32_le_bytes(sum),
                out@.len() == 4 + self@.body().len(),
                out@ == head@.subrange(0, i as int) + u32_le_bytes(0).subrange(i as int, 4)
                    + self@.body(),
            decreases 4 - i,
        {
            out.set(i, head[i]);
            i += 1;
            assert(out@ =~= head@.subrange(0, i as int) + u32_le_bytes(0).subrange(i as int, 4)
                + self@.body());
        }
        assert(out@ =~= self@.bytes());
        Ok(out)
    }

    /// Appends the bytes of the record to `writer`.
    pub fn write_bytes(&self, writer: &mut Vec<u8>) -> (result: Result<()>)
        requires
            self@.wf(),
        ensures
            result is Ok,
            final(writer)@ == old(writer)@ + self@.bytes(),
    {
        proof {
            lemma_le_bytes_len();
        }
        let mut header: Vec<u8> = Vec::new();
        write_u64(&mut header, self.sequence);
        write_u16(&mut header, self.key.len() as u16);
        write_u32(&mut header, self.value_size());
        let mut hasher = TwoXhash32::new();
        hasher.update(header.as_slice());
        hasher.update(self.key.as_slice());
        hasher.update(self.value.as_slice());
        assert(hasher@ =~= self@.body());
        let sum = hasher.get();
        write_u32(writer, sum);
        write_all(writer, header.as_slice());
        write_all(writer, self.key.as_slice());
        if !self.deleted {
            write_all(writer, self.value.as_slice());
        }
        assert(writer@ =~= old(writer)@ + self@.bytes());
        Ok(())
    }

    /// Reads `bytes` as exactly one record: what follows the key is the value. Fails with
    /// `Io` where the bytes end before the key does, and with `InvalidChecksum` where the
    /// record does not carry the checksum of its contents.
    pub fn from_bytes(bytes: &[u8]) -> (result: Result<Entry>)
        ensures
            match decode_whole_entry(bytes@) {
                Decoded::Item(entry, _) => result matches Ok(e) && e@ == entry,
                Decoded::Short => result matches Err(Error::Io(_)),
                Decoded::Corrupt { expected, found, .. } => result == Err::<Entry, Error>(
                    Error::InvalidChecksum { expected, found },
                ),
            },
    {
        if bytes.len() < ENTRY_STATIC_SIZE {
            return Err(Error::Io(unexpected_eof()));
        }
        let expected = decode_u32(slice_subrange(bytes, 0, 4));
        let sequence = decode_u64(slice_subrange(bytes, 4, 12));
        let key_size = decode_u16(slice_subrange(bytes, 12, 14));
        let value_size = decode_u32(slice_subrange(bytes, 14, 18));
        let deleted = value_size == ENTRY_TOMBSTONE;
        let key_end = ENTRY_STATIC_SIZE + key_size as usize;
        if bytes.len() < key_end {
            return Err(Error::Io(unexpected_eof()));
        }
        let found = crate::util::xxhash32(slice_subrange(bytes, 4, bytes.len()));
        if let Err(e) = verify_checksum(expected, found) {
            return Err(e);
        }
        let key = slice_to_vec(slice_subrange(bytes, ENTRY_STATIC_SIZE, key_end));
        let value = if deleted {
            Vec::new()
        } else {
            slice_to_vec(slice_subrange(bytes, key_end, bytes.len()))
        };
        Ok(Entry { key, value, sequence, deleted })
    }

    /// Reads one record from `reader`. Fails with `Io` where the bytes end before the record
    /// does, which drains the reader, and with `InvalidChecksum` where the record does not
    /// carry the checksum of its contents.
    pub fn from_read(reader: &mut Reader) -> (result: Result<Entry>)
        ensures
            match decode_entry(old(reader)@) {
                Decoded::Item(entry, size) => {
                    &&& result matches Ok(e) && e@ == entry
                    &&& final(reader)@ == old(reader)@.subrange(
                        size as int,
                        old(reader)@.len() as int,
                    )
                },
                Decoded::Short => {
                    &&& result matches Err(Error::Io(_))
                    &&& final(reader)@.len() == 0
                },
                Decoded::Corrupt { expected, found, size } => {
                    &&& result == Err::<Entry, Error>(Error::InvalidChecksum { expected, found })
                    &&& final(reader)@ == old(reader)@.subrange(
                        size as int,
                        old(reader)@.len() as int,
                    )
                },
            },
    {
        let ghost all = reader@;
        let header = match reader.read_exact(ENTRY_STATIC_SIZE) {
            Some(header) => header,
            None => {
                return Err(Error::Io(unexpected_eof()));
            },
        };
        let expected = decode_u32(slice_subrange(header, 0, 4));
        let sequence = decode_u64(slice_subrange(header, 4, 12));
        let key_size = decode_u16(slice_subrange(header, 12, 14));
        let value_size = decode_u32(slice_subrange(header, 14, 18));
        proof {
            assert(header@.subrange(0, 4) =~= all.subrange(0, 4));
            assert(header@.subrange(4, 12) =~= all.subrange(4, 12));
            assert(header@.subrange(12, 14) =~= all.subrange(12, 14));
            assert(header@.subrange(14, 18) =~= all.subrange(14, 18));
        }
        let deleted = value_size == ENTRY_TOMBSTONE;
        let ghost key_end = ENTRY_STATIC_SIZE + key_size;
        let key = match reader.read_exact(key_size as usize) {
            Some(key) => key,
            None => {
                return Err(Error::Io(unexpected_eof()));
            },
        };
        assert(key@ =~= all.subrange(ENTRY_STATIC_SIZE as int, key_end));
        let value: Vec<u8> = if deleted {
            Vec::new()
        } else {
            match reader.read_exact(value_size as usize) {
                Some(value) => slice_to_vec(value),
                None => {
                    return Err(Error::Io(unexpected_eof()));
                },
            }
        };
        let ghost end = key_end + value@.len();
        assert(value@ =~= all.subrange(key_end, end));
        assert(reader@ =~= all.subrange(end, all.len() as int));
        let mut hasher = TwoXhash32::new();
        hasher.update(slice_subrange(header, 4, ENTRY_STATIC_SIZE));
        hasher.update(key);
        hasher.update(value.as_slice());
        assert(hasher@ =~= all.subrange(4, end));
        let found = hasher.get();
        if let Err(e) = verify_checksum(expected, found) {
            return Err(e);
        }
        Ok(Entry { key: slice_to_vec(key), value, sequence, deleted })
    }
}

/// What a hint says, as mathematical values.
#[verifier::ext_equal]
pub struct HintModel {
    pub key: Seq<u8>,
    pub entry_pos: u64,
    pub value_size: u32,
    pub sequence: SequenceNumber,
    pub deleted: bool,
}

impl HintModel {
    /// The hint fits the format: the key is within the size bound, a tombstone has value size
    /// zero and any other hint a value size within the bound.
    pub open spec fn wf(self) -> bool {
        &&& self.key.len() <= MAX_KEY_SIZE
        &&& self.value_size <= MAX_VALUE_SIZE
        &&& self.deleted ==> self.value_size == 0
    }

    /// The hint of the record `e` written at `entry_pos`.
    pub open spec fn of(e: EntryModel, entry_pos: u64) -> HintModel {
        HintModel {
            key: e.key,
            entry_pos,
            value_size: e.value.len() as u32,
            sequence: e.sequence,
            deleted: e.deleted,
        }
    }

    /// The number of bytes that the record summarised takes in its data file.
    pub open spec fn entry_size(self) -> nat {
        ENTRY_STATIC_SIZE as nat + self.key.len() + self.value_size as nat
    }

    /// The number of bytes the hint takes in a hint file.
    pub open spec fn size(self) -> nat {
        HINT_STATIC_SIZE as nat + self.key.len()
    }

    /// The value size field of the hint.
    pub open spec fn value_size_field(self) -> u32 {
        if self.deleted {
            ENTRY_TOMBSTONE
        } else {
            self.value_size
        }
    }

    /// The bytes of the hint.
    pub open spec fn bytes(self) -> Seq<u8> {
        u64_le_bytes(self.sequence) + u16_le_bytes(self.key.len() as u16) + u32_le_bytes(
            self.value_size_field(),
        ) + u64_le_bytes(self.entry_pos) + self.key
    }
}

/// Reads one hint from the front of `b`: the header, then the key. A hint carries no checksum
/// of its own.
pub open spec fn decode_hint(b: Seq<u8>) -> Decoded<HintModel> {
    if b.len() < HINT_STATIC_SIZE {
        Decoded::Short
    } else {
        let sequence = le_u64(b.subrange(0, 8));
        let key_size = le_u16(b.subrange(8, 10));
        let value_size = le_u32(b.subrange(10, 14));
        let entry_pos = le_u64(b.subrange(14, 22));
        let deleted = value_size == ENTRY_TOMBSTONE;
        let end = HINT_STATIC_SIZE + key_size;
        if b.len() < end {
            Decoded::Short
        } else {
            Decoded::Item(
                HintModel {
                    key: b.subrange(HINT_STATIC_SIZE as int, end),
                    entry_pos,
                    value_size: if deleted {
                        0
                    } else {
                        value_size
                    },
                    sequence,
                    deleted,
                },
                end as nat,
            )
        }
    }
}

/// Decoding the encoding of a hint gives the hint back, whatever follows it.
pub proof fn lemma_hint_round_trip(h: HintModel, rest: Seq<u8>)
    requires
        h.wf(),
    ensures
        h.bytes().len() == h.size(),
        decode_hint(h.bytes() + rest) == Decoded::Item(h, h.size()),
{
    let b = h.bytes() + rest;
    lemma_u64_round_trip(h.sequence);
    lemma_u16_round_trip(h.key.len() as u16);
    lemma_u32_round_trip(h.value_size_field());
    lemma_u64_round_trip(h.entry_pos);
    assert(b.subrange(0, 8) =~= u64_le_bytes(h.sequence));
    assert(b.subrange(8, 10) =~= u16_le_bytes(h.key.len() as u16));
    assert(b.subrange(10, 14) =~= u32_le_bytes(h.value_size_field()));
    assert(b.subrange(14, 22) =~= u64_le_bytes(h.entry_pos));
    assert(b.subrange(HINT_STATIC_SIZE as int, HINT_STATIC_SIZE + h.key.len()) =~= h.key);
    let d = decode_hint(b);
    assert(d is Item);
    assert(d->Item_0 =~= h);
}

/// A hint read from bytes fits the format and took as many bytes as its size says.
pub proof fn lemma_decoded_hint(b: Seq<u8>)
    ensures
        decode_hint(b) matches Decoded::Item(hint, size) ==> hint.wf() && size == hint.size()
            && 0 < size <= b.len(),
{
}

/// The bytes of a hint are as many as its size says, and no more than twice those of its
/// record.
pub proof fn lemma_hint_size(h: HintModel)
    requires
        h.key.len() <= MAX_KEY_SIZE,
    ensures
        h.bytes().len() == h.size(),
        h.size() <= 2 * h.entry_size(),
{
    lemma_le_bytes_len();
}

/// The hint of a well-formed record is well-formed.
pub proof fn lemma_hint_of_entry(e: EntryModel, entry_pos: u64)
    requires
        e.wf(),
    ensures
        HintModel::of(e, entry_pos).wf(),
        HintModel::of(e, entry_pos).entry_size() == e.size(),
{
}

/// The summary of a record that a hint file holds.
#[derive(Debug, PartialEq, Eq)]
pub struct Hint {
    pub key: Vec<u8>,
    pub entry_pos: u64,
    pub value_size: u32,
    pub sequence: SequenceNumber,
    pub deleted: bool,
}

impl View for Hint {
    type V = HintModel;

    open spec fn view(&self) -> HintModel {
        HintModel {
            key: self.key@,
            entry_pos: self.entry_pos,
            value_size: self.value_size,
            sequence: self.sequence,
            deleted: self.deleted,
        }
    }
}

impl Hint {
    /// The hint of the record `e` written at `entry_pos`.
    pub fn new(e: &Entry, entry_pos: u64) -> (hint: Hint)
        requires
            e@.value.len() <= u32::MAX,
        ensures
            hint@ == HintModel::of(e@, entry_pos),
    {
        Hint {
            key: slice_to_vec(e.key.as_slice()),
            entry_pos,
            value_size: e.value.len() as u32,
            sequence: e.sequence,
            deleted: e.deleted,
        }
    }

    /// The hint of the record `e` written at `entry_pos`, taking over the record's key.
    pub fn from(e: Entry, entry_pos: u64) -> (hint: Hint)
        requires
            e@.value.len() <= u32::MAX,
        ensures
            hint@ == HintModel::of(e@, entry_pos),
    {
        let value_size = e.value.len() as u32;
        Hint { key: e.key, entry_pos, value_size, sequence: e.sequence, deleted: e.deleted }
    }

    /// The number of bytes that the record summarised takes in its data file.
    pub fn entry_size(&self) -> (size: u64)
        requires
            self@.key.len() <= MAX_KEY_SIZE,
        ensures
            size == self@.entry_size(),
    {
        ENTRY_STATIC_SIZE as u64 + self.key.len() as u64 + self.value_size as u64
    }

    /// Appends the bytes of the hint to `writer`.
    pub fn write_bytes(&self, writer: &mut Vec<u8>) -> (result: Result<()>)
        requires
            self@.key.len() <= MAX_KEY_SIZE,
        ensures
            result is Ok,
            final(writer)@ == old(writer)@ + self@.bytes(),
    {
        write_u64(writer, self.sequence);
        write_u16(writer, self.key.len() as u16);
        if self.deleted {
            write_u32(writer, ENTRY_TOMBSTONE);
        } else {
            write_u32(writer, self.value_size);
        }
        write_u64(writer, self.entry_pos);
        write_all(writer, self.key.as_slice());
        assert(writer@ =~= old(writer)@ + self@.bytes());
        Ok(())
    }

    /// Reads one hint from `reader`. Fails with `Io` where the bytes end before the hint
    /// does, which drains the reader.
    pub fn from_read(reader: &mut Reader) -> (result: Result<Hint>)
        ensures
            match decode_hint(old(reader)@) {
                Decoded::Item(hint, size) => {
                    &&& result matches Ok(h) && h@ == hint
                    &&& final(reader)@ == old(reader)@.subrange(
                        size as int,
                        old(reader)@.len() as int,
                    )
                },
                _ => {
                    &&& result matches Err(Error::Io(_))
                    &&& final(reader)@.len() == 0
                },
            },
    {
        let ghost all = reader@;
        let header = match reader.read_exact(HINT_STATIC_SIZE) {
            Some(header) => header,
            None => {
                return Err(Error::Io(unexpected_eof()));
            },
        };
        let sequence = decode_u64(slice_subrange(header, 0, 8));
        let key_size = decode_u16(slice_subrange(header, 8, 10));
        let value_size = decode_u32(slice_subrange(header, 10, 14));
        let entry_pos = decode_u64(slice_subrange(header, 14, 22));
        proof {
            assert(header@.subrange(0, 8) =~= all.subrange(0, 8));
            assert(header@.subrange(8, 10) =~= all.subrange(8, 10));
            assert(header@.subrange(10, 14) =~= all.subrange(10, 14));
            assert(header@.subrange(14, 22) =~= all.subrange(14, 22));
        }
        let key = match reader.read_exact(key_size as usize) {
            Some(key) => key,
            None => {
                return Err(Error::Io(unexpected_eof()));
            },
        };
        assert(key@ =~= all.subrange(HINT_STATIC_SIZE as int, HINT_STATIC_SIZE + key_size));
        assert(reader@ =~= all.subrange(HINT_STATIC_SIZE + key_size, all.len() as int));
        let deleted = value_size == ENTRY_TOMBSTONE;
        Ok(
            Hint {
                key: slice_to_vec(key),
                entry_pos,
                value_size: if deleted {
                    0
                } else {
                    value_size
                },
                sequence,
                deleted,
            },
        )
    }
}

} // verus!
