//! Little-endian integers and a reader over a byte slice.
//!
//! Every multi-byte integer of the on-disk formats is little-endian. The spec functions here
//! say what that means byte by byte; the executable conversions are those of `byteorder`.

use byteorder::{ByteOrder, LittleEndian};
use vstd::arithmetic::div_mod::lemma_div_denominator;
use vstd::prelude::*;
use vstd::slice::slice_subrange;

verus! {

/// The two bytes of `n`, least significant first.
#[verifier::opaque]
pub open spec fn u16_le_bytes(n: u16) -> Seq<u8> {
    seq![(n % 0x100) as u8, (n / 0x100) as u8]
}

/// The four bytes of `n`, least significant first.
#[verifier::opaque]
pub open spec fn u32_le_bytes(n: u32) -> Seq<u8> {
    seq![
        (n % 0x100) as u8,
        (n / 0x100 % 0x100) as u8,
        (n / 0x1_0000 % 0x100) as u8,
        (n / 0x100_0000) as u8,
    ]
}

/// The eight bytes of `n`, least significant first.
#[verifier::opaque]
pub open spec fn u64_le_bytes(n: u64) -> Seq<u8> {
    seq![
        (n % 0x100) as u8,
        (n / 0x100 % 0x100) as u8,
        (n / 0x1_0000 % 0x100) as u8,
        (n / 0x100_0000 % 0x100) as u8,
        (n / 0x1_0000_0000 % 0x100) as u8,
        (n / 0x100_0000_0000 % 0x100) as u8,
        (n / 0x1_0000_0000_0000 % 0x100) as u8,
        (n / 0x100_0000_0000_0000) as u8,
    ]
}

/// The integer whose little-endian bytes are the first two of `b`.
#[verifier::opaque]
pub open spec fn le_u16(b: Seq<u8>) -> u16
    recommends
        b.len() >= 2,
{
    (b[0] + b[1] * 0x100) as u16
}

/// The integer whose little-endian bytes are the first four of `b`.
#[verifier::opaque]
pub open spec fn le_u32(b: Seq<u8>) -> u32
    recommends
        b.len() >= 4,
{
    (b[0] + b[1] * 0x100 + b[2] * 0x1_0000 + b[3] * 0x100_0000) as u32
}

/// The integer whose little-endian bytes are the first eight of `b`.
#[verifier::opaque]
pub open spec fn le_u64(b: Seq<u8>) -> u64
    recommends
        b.len() >= 8,
{
    (b[0] + b[1] * 0x100 + b[2] * 0x1_0000 + b[3] * 0x100_0000 + b[4] * 0x1_0000_0000 + b[5]
        * 0x100_0000_0000 + b[6] * 0x1_0000_0000_0000 + b[7] * 0x100_0000_0000_0000) as u64
}

/// The encodings have two, four and eight bytes.
pub proof fn lemma_le_bytes_len()
    ensures
        forall|n: u16| #[trigger] u16_le_bytes(n).len() == 2,
        forall|n: u32| #[trigger] u32_le_bytes(n).len() == 4,
        forall|n: u64| #[trigger] u64_le_bytes(n).len() == 8,
{
    reveal(u16_le_bytes);
    reveal(u32_le_bytes);
    reveal(u64_le_bytes);
}

/// Decoding the encoding of a 16-bit integer gives the integer back.
pub proof fn lemma_u16_round_trip(n: u16)
    ensures
        u16_le_bytes(n).len() == 2,
        le_u16(u16_le_bytes(n)) == n,
{
    reveal(u16_le_bytes);
    reveal(le_u16);
}

/// Decoding the encoding of a 32-bit integer gives the integer back.
pub proof fn lemma_u32_round_trip(n: u32)
    ensures
        u32_le_bytes(n).len() == 4,
        le_u32(u32_le_bytes(n)) == n,
{
    reveal(u32_le_bytes);
    reveal(le_u32);
}

/// Decoding the encoding of a 64-bit integer gives the integer back.
pub proof fn lemma_u64_round_trip(n: u64)
    ensures
        u64_le_bytes(n).len() == 8,
        le_u64(u64_le_bytes(n)) == n,
{
    reveal(u64_le_bytes);
    reveal(le_u64);
    let q1 = n / 0x100;
    let q2 = q1 / 0x100;
    let q3 = q2 / 0x100;
    let q4 = q3 / 0x100;
    let q5 = q4 / 0x100;
    let q6 = q5 / 0x100;
    let q7 = q6 / 0x100;
    lemma_div_denominator(n as int, 0x100, 0x100);
    lemma_div_denominator(n as int, 0x1_0000, 0x100);
    lemma_div_denominator(n as int, 0x100_0000, 0x100);
    lemma_div_denominator(n as int, 0x1_0000_0000, 0x100);
    lemma_div_denominator(n as int, 0x100_0000_0000, 0x100);
    lemma_div_denominator(n as int, 0x1_0000_0000_0000, 0x100);
    assert(q2 == n / 0x1_0000);
    assert(q3 == n / 0x100_0000);
    assert(q4 == n / 0x1_0000_0000);
    assert(q5 == n / 0x100_0000_0000);
    assert(q6 == n / 0x1_0000_0000_0000);
    assert(q7 == n / 0x100_0000_0000_0000);
    assert(q7 < 0x100);
    assert(n == n % 0x100 + 0x100 * q1);
    assert(q1 == q1 % 0x100 + 0x100 * q2);
    assert(q2 == q2 % 0x100 + 0x100 * q3);
    assert(q3 == q3 % 0x100 + 0x100 * q4);
    assert(q4 == q4 % 0x100 + 0x100 * q5);
    assert(q5 == q5 % 0x100 + 0x100 * q6);
    assert(q6 == q6 % 0x100 + 0x100 * q7);
}

/// The little-endian bytes of `n`.
///
/// Calls `byteorder::LittleEndian::write_u16` on a two-byte buffer, which stores
/// `n.to_le_bytes()` there.
#[verifier::external_body]
pub(crate) fn encode_u16(n: u16) -> (b: [u8; 2])
    ensures
        b@ == u16_le_bytes(n),
{
    let mut b = [0u8; 2];
    LittleEndian::write_u16(&mut b, n);
    b
}

/// The little-endian bytes of `n`.
///
/// Calls `byteorder::LittleEndian::write_u32` on a four-byte buffer, which stores
/// `n.to_le_bytes()` there.
#[verifier::external_body]
pub(crate) fn encode_u32(n: u32) -> (b: [u8; 4])
    ensures
        b@ == u32_le_bytes(n),
{
    let mut b = [0u8; 4];
    LittleEndian::write_u32(&mut b, n);
    b
}

/// The little-endian bytes of `n`.
///
/// Calls `byteorder::LittleEndian::write_u64` on an eight-byte buffer, which stores
/// `n.to_le_bytes()` there.
#[verifier::external_body]
pub(crate) fn encode_u64(n: u64) -> (b: [u8; 8])
    ensures
        b@ == u64_le_bytes(n),
{
    let mut b = [0u8; 8];
    LittleEndian::write_u64(&mut b, n);
    b
}

/// The integer read from the first two bytes of `buf`.
///
/// Calls `byteorder::LittleEndian::read_u16`, which panics on a shorter buffer and otherwise
/// returns `u16::from_le_bytes` of the first two bytes.
#[verifier::external_body]
pub(crate) fn decode_u16(buf: &[u8]) -> (n: u16)
    requires
        buf@.len() >= 2,
    ensures
        n == le_u16(buf@),
{
    LittleEndian::read_u16(buf)
}

/// The integer read from the first four bytes of `buf`.
///
/// Calls `byteorder::LittleEndian::read_u32`, which panics on a shorter buffer and otherwise
/// returns `u32::from_le_bytes` of the first four bytes.
#[verifier::external_body]
pub(crate) fn decode_u32(buf: &[u8]) -> (n: u32)
    requires
        buf@.len() >= 4,
    ensures
        n == le_u32(buf@),
{
    LittleEndian::read_u32(buf)
}

/// The integer read from the first eight bytes of `buf`.
///
/// Calls `byteorder::LittleEndian::read_u64`, which panics on a shorter buffer and otherwise
/// returns `u64::from_le_bytes` of the first eight bytes.
#[verifier::external_body]
pub(crate) fn decode_u64(buf: &[u8]) -> (n: u64)
    requires
        buf@.len() >= 8,
    ensures
        n == le_u64(buf@),
{
    LittleEndian::read_u64(buf)
}

/// Appends the little-endian bytes of `n` to `out`.
pub fn write_u16(out: &mut Vec<u8>, n: u16)
    ensures
        final(out)@ == old(out)@ + u16_le_bytes(n),
{
    let b = encode_u16(n);
    proof {
        lemma_u16_round_trip(n);
    }
    out.push(b[0]);
    out.push(b[1]);
    assert(out@ =~= old(out)@ + u16_le_bytes(n));
}

/// Appends the little-endian bytes of `n` to `out`.
pub fn write_u32(out: &mut Vec<u8>, n: u32)
    ensures
        final(out)@ == old(out)@ + u32_le_bytes(n),
{
    let b = encode_u32(n);
    proof {
        lemma_u32_round_trip(n);
    }
    out.push(b[0]);
    out.push(b[1]);
    out.push(b[2]);
    out.push(b[3]);
    assert(out@ =~= old(out)@ + u32_le_bytes(n));
}

/// Appends the little-endian bytes of `n` to `out`.
pub fn write_u64(out: &mut Vec<u8>, n: u64)
    ensures
        final(out)@ == old(out)@ + u64_le_bytes(n),
{
    let b = encode_u64(n);
    proof {
        lemma_u64_round_trip(n);
    }
    let mut i: usize = 0;
    while i < 8
        invariant
            i <= 8,
            b@.len() == 8,
            b@ == u64_le_bytes(n),
            out@ == old(out)@ + b@.subrange(0, i as int),
        decreases 8 - i,
    {
        out.push(b[i]);
        i += 1;
        assert(out@ =~= old(out)@ + b@.subrange(0, i as int));
    }
    assert(b@.subrange(0, 8) =~= b@);
}

/// Appends a copy of `bytes` to `out`.
pub fn write_all(out: &mut Vec<u8>, bytes: &[u8])
    ensures
        final(out)@ == old(out)@ + bytes@,
{
    let mut i: usize = 0;
    while i < bytes.len()
        invariant
            i <= bytes@.len(),
            out@ == old(out)@ + bytes@.subrange(0, i as int),
        decreases bytes@.len() - i,
    {
        out.push(bytes[i]);
        i += 1;
        assert(out@ =~= old(out)@ + bytes@.subrange(0, i as int));
    }
    assert(bytes@.subrange(0, bytes@.len() as int) =~= bytes@);
}

/// A reader over a byte slice that hands out its bytes front to back.
pub struct Reader<'a> {
    data: &'a [u8],
    pos: usize,
}

impl<'a> View for Reader<'a> {
    type V = Seq<u8>;

    /// The bytes not yet read.
    closed spec fn view(&self) -> Seq<u8> {
        self.data@.subrange(self.pos as int, self.data@.len() as int)
    }
}

impl<'a> Reader<'a> {
    #[verifier::type_invariant]
    spec fn in_bounds(self) -> bool {
        self.pos <= self.data@.len()
    }

    /// A reader that will hand out all of `data`.
    pub fn new(data: &'a [u8]) -> (reader: Self)
        ensures
            reader@ == data@,
    {
        let reader = Reader { data, pos: 0 };
        assert(reader@ =~= data@);
        reader
    }

    /// A reader that will hand out `data` from offset `pos` on, or nothing where `pos` lies
    /// past the end.
    pub fn at(data: &'a [u8], pos: usize) -> (reader: Self)
        ensures
            reader@ == if pos <= data@.len() {
                data@.subrange(pos as int, data@.len() as int)
            } else {
                Seq::<u8>::empty()
            },
    {
        let start = if pos <= data.len() {
            pos
        } else {
            data.len()
        };
        let reader = Reader { data, pos: start };
        assert(reader@ =~= if pos <= data@.len() {
            data@.subrange(pos as int, data@.len() as int)
        } else {
            Seq::<u8>::empty()
        });
        reader
    }

    /// The number of bytes not yet read.
    pub fn limit(&self) -> (n: usize)
        ensures
            n == self@.len(),
    {
        proof {
            use_type_invariant(self);
        }
        self.data.len() - self.pos
    }

    /// Hands out the next `n` bytes. Where fewer are left, the reader is drained and nothing
    /// is handed out.
    pub fn read_exact(&mut self, n: usize) -> (bytes: Option<&'a [u8]>)
        ensures
            match bytes {
                Some(b) => n <= old(self)@.len() && b@ == old(self)@.subrange(0, n as int)
                    && final(self)@ == old(self)@.subrange(n as int, old(self)@.len() as int),
                None => n > old(self)@.len() && final(self)@.len() == 0,
            },
    {
        proof {
            use_type_invariant(&*self);
        }
        let left = self.data.len() - self.pos;
        if n <= left {
            let start = self.pos;
            let bytes = slice_subrange(self.data, start, start + n);
            self.pos = start + n;
            assert(bytes@ =~= old(self)@.subrange(0, n as int));
            assert(self@ =~= old(self)@.subrange(n as int, old(self)@.len() as int));
            Some(bytes)
        } else {
            self.pos = self.data.len();
            None
        }
    }
}

} // verus!
