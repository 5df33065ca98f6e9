//! Checksums and the allocator of segment ids.

use std::hash::Hasher;
use twox_hash::XxHash32;
use vstd::prelude::*;

verus! {

/// Declares `twox_hash::XxHash32`, the streaming hasher, as an opaque type.
#[verifier::external_type_specification]
#[verifier::external_body]
pub struct ExXxHash32(XxHash32);

/// The 32-bit xxHash of `input` under `seed`.
pub uninterp spec fn xxh32(seed: u32, input: Seq<u8>) -> u32;

/// The bytes that a hasher has been fed since it was made, in order.
pub uninterp spec fn hasher_input(hasher: XxHash32) -> Seq<u8>;

/// The seed that a hasher was made with.
pub uninterp spec fn hasher_seed(hasher: XxHash32) -> u32;

/// A fresh hasher.
///
/// Calls `twox_hash::XxHash32::with_seed`, which returns a hasher that holds `seed` and has
/// consumed nothing.
#[verifier::external_body]
fn hasher_with_seed(seed: u32) -> (hasher: XxHash32)
    ensures
        hasher_seed(hasher) == seed,
        hasher_input(hasher) == Seq::<u8>::empty(),
{
    XxHash32::with_seed(seed)
}

/// Feeds `bytes` to the hasher.
///
/// Calls `write` of `twox_hash::XxHash32` as a `std::hash::Hasher`, which consumes the bytes
/// after those it has and keeps its seed. It counts the bytes in a `u64`, so the total is
/// kept within that.
#[verifier::external_body]
fn hasher_write(hasher: &mut XxHash32, bytes: &[u8])
    requires
        hasher_input(*old(hasher)).len() + bytes@.len() <= u64::MAX,
    ensures
        hasher_seed(*final(hasher)) == hasher_seed(*old(hasher)),
        hasher_input(*final(hasher)) == hasher_input(*old(hasher)) + bytes@,
{
    hasher.write(bytes)
}

/// The hash of what the hasher has been fed.
///
/// Calls `finish` of `twox_hash::XxHash32` as a `std::hash::Hasher`, which returns the 32-bit
/// xxHash of the consumed bytes under the hasher's seed, widened to 64 bits with zeroes.
#[verifier::external_body]
fn hasher_finish(hasher: &XxHash32) -> (hash: u32)
    ensures
        hash == xxh32(hasher_seed(*hasher), hasher_input(*hasher)),
{
    hasher.finish() as u32
}

/// The seed of every checksum of the on-disk formats.
pub const CHECKSUM_SEED: u32 = 0;

/// The checksum of `bytes` as the on-disk formats use it.
pub open spec fn checksum(bytes: Seq<u8>) -> u32 {
    xxh32(CHECKSUM_SEED, bytes)
}

/// A running checksum over the bytes it is given piece by piece.
pub struct TwoXhash32 {
    hasher: XxHash32,
}

impl View for TwoXhash32 {
    type V = Seq<u8>;

    /// The bytes hashed so far.
    closed spec fn view(&self) -> Seq<u8> {
        hasher_input(self.hasher)
    }
}

impl TwoXhash32 {
    #[verifier::type_invariant]
    spec fn seeded(self) -> bool {
        hasher_seed(self.hasher) == CHECKSUM_SEED
    }

    /// A checksum over no bytes yet.
    pub fn new() -> (hasher: TwoXhash32)
        ensures
            hasher@ == Seq::<u8>::empty(),
    {
        TwoXhash32 { hasher: hasher_with_seed(CHECKSUM_SEED) }
    }

    /// Adds `buf` to the bytes hashed.
    pub fn update(&mut self, buf: &[u8])
        requires
            old(self)@.len() + buf@.len() <= u64::MAX,
        ensures
            final(self)@ == old(self)@ + buf@,
    {
        proof {
            use_type_invariant(&*self);
        }
        let mut hasher = self.hasher;
        hasher_write(&mut hasher, buf);
        self.hasher = hasher;
    }

    /// The checksum of the bytes hashed so far.
    pub fn get(&self) -> (hash: u32)
        ensures
            hash == checksum(self@),
    {
        proof {
            use_type_invariant(self);
        }
        hasher_finish(&self.hasher)
    }
}

/// The checksum of `buf`.
pub fn xxhash32(buf: &[u8]) -> (hash: u32)
    ensures
        hash == checksum(buf@),
{
    let mut hasher = TwoXhash32::new();
    let len = buf.len();
    assert(buf@.len() == len);
    hasher.update(buf);
    assert(hasher@ =~= buf@);
    hasher.get()
}

/// The 32-bit xxHash of `buf` under `seed`.
pub fn xxhash32_with_seed(seed: u32, buf: &[u8]) -> (hash: u32)
    ensures
        hash == xxh32(seed, buf@),
{
    let mut hasher = hasher_with_seed(seed);
    let len = buf.len();
    assert(buf@.len() == len);
    hasher_write(&mut hasher, buf);
    assert(hasher_input(hasher) =~= buf@);
    hasher_finish(&hasher)
}

/// Hands out segment ids, each one more than the one before.
pub struct Sequence {
    last: u32,
}

impl View for Sequence {
    type V = u32;

    /// The id handed out last, or the one the sequence was started from.
    closed spec fn view(&self) -> u32 {
        self.last
    }
}

impl Sequence {
    /// A sequence whose first id will be `id + 1`.
    pub fn new(id: u32) -> (sequence: Sequence)
        ensures
            sequence@ == id,
    {
        Sequence { last: id }
    }

    /// The id handed out last, or the one the sequence was started from.
    pub fn current(&self) -> (id: u32)
        ensures
            id == self@,
    {
        self.last
    }

    /// Hands out the next id.
    pub fn increment(&mut self) -> (id: u32)
        requires
            old(self)@ < u32::MAX,
        ensures
            id == old(self)@ + 1,
            final(self)@ == id,
    {
        self.last = self.last + 1;
        self.last
    }
}

} // verus!
