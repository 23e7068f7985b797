//! Computing a content identity: the byte count of the content plus a
//! streaming CRC-32 checksum of it, processed in bounded chunks so that
//! arbitrarily large files never need to sit in memory at once.
//!
//! The checksum itself comes from the `crc32fast` crate; everything this
//! module states about it is the streaming contract of that crate's
//! `Hasher`: bytes are accumulated in order, and finalizing yields the
//! CRC-32 of their concatenation, a pure function of the bytes.

use crate::id::Id;
use vstd::prelude::*;
use vstd::slice::slice_subrange;

verus! {

/// crc32fast's streaming checksum state.
#[verifier::external_type_specification]
#[verifier::external_body]
pub struct ExHasher(crc32fast::Hasher);

/// The bytes a hasher has been fed so far, oldest first.
pub uninterp spec fn hasher_bytes(h: crc32fast::Hasher) -> Seq<u8>;

/// The CRC-32 (IEEE) checksum of a byte sequence, as crc32fast computes it:
/// a function of the bytes alone, identical across processes and machines.
pub uninterp spec fn crc32_of(data: Seq<u8>) -> u32;

/// Relies on crc32fast::Hasher::new: a fresh hasher has processed no bytes.
#[verifier::external_body]
fn hasher_new() -> (h: crc32fast::Hasher)
    ensures
        hasher_bytes(h) == Seq::<u8>::empty(),
{
    crc32fast::Hasher::new()
}

/// Relies on crc32fast::Hasher::update: the buffer is appended, in order,
/// to the bytes the hasher has processed.
#[verifier::external_body]
fn hasher_update(h: &mut crc32fast::Hasher, buf: &[u8])
    ensures
        hasher_bytes(*final(h)) == hasher_bytes(*old(h)) + buf@,
{
    h.update(buf)
}

/// Relies on crc32fast::Hasher::finalize: the result is the CRC-32 of all
/// bytes processed, regardless of how they were split into updates.
#[verifier::external_body]
fn hasher_finalize(h: crc32fast::Hasher) -> (r: u32)
    ensures
        r == crc32_of(hasher_bytes(h)),
{
    h.finalize()
}

/// The identity of a byte sequence: its length and its CRC-32.  Derived
/// from content alone, never from a path or name.
pub open spec fn spec_id_of(data: Seq<u8>) -> Id
    recommends
        data.len() <= u64::MAX,
{
    Id { size: data.len() as u64, hash: crc32_of(data) }
}

/// Identity is deterministic: the same content always yields the same
/// identity, in whatever copy and under whatever path it is read.
pub proof fn lemma_id_deterministic(a: Seq<u8>, b: Seq<u8>)
    requires
        a == b,
    ensures
        spec_id_of(a) == spec_id_of(b),
{
}

/// How many bytes are fed to the checksum at a time.
pub const CHUNK_LEN: usize = 512 * 1024;

/// Incremental identity computation.  A caller reading a large file streams
/// its bytes through `update` in chunks of its choosing and closes with
/// `finish`; the result depends only on the concatenated bytes.
pub struct IdHasher {
    inner: crc32fast::Hasher,
    count: u64,
    bytes: Ghost<Seq<u8>>,
}

impl IdHasher {
    /// All bytes fed so far.
    pub closed spec fn bytes(&self) -> Seq<u8> {
        self.bytes@
    }

    /// The recorded byte count and checksum state agree with `bytes()`.
    pub closed spec fn wf(&self) -> bool {
        &&& hasher_bytes(self.inner) == self.bytes@
        &&& self.count == self.bytes@.len()
    }

    pub fn new() -> (r: IdHasher)
        ensures
            r.wf(),
            r.bytes() == Seq::<u8>::empty(),
    {
        IdHasher { inner: hasher_new(), count: 0, bytes: Ghost(Seq::empty()) }
    }

    /// Feeds the next chunk of content.
    pub fn update(&mut self, chunk: &[u8])
        requires
            old(self).wf(),
            old(self).bytes().len() + chunk@.len() <= u64::MAX,
        ensures
            final(self).wf(),
            final(self).bytes() == old(self).bytes() + chunk@,
    {
        hasher_update(&mut self.inner, chunk);
        self.count = self.count + chunk.len() as u64;
        proof {
            self.bytes@ = self.bytes@ + chunk@;
        }
    }

    /// Closes the stream and returns the identity of everything fed.
    pub fn finish(self) -> (r: Id)
        requires
            self.wf(),
        ensures
            r == spec_id_of(self.bytes()),
    {
        Id { size: self.count, hash: hasher_finalize(self.inner) }
    }
}

impl Id {
    /// The identity of in-memory content, streamed through the checksum in
    /// bounded chunks exactly as a caller reading from a file would.
    pub fn of_bytes(data: &[u8]) -> (r: Id)
        requires
            data@.len() <= u64::MAX,
        ensures
            r == spec_id_of(data@),
    {
        let mut h = IdHasher::new();
        let n = data.len();
        let mut i: usize = 0;
        while i < n
            invariant
                i <= n,
                n == data@.len(),
                data@.len() <= u64::MAX,
                h.wf(),
                h.bytes() == data@.subrange(0, i as int),
            decreases n - i,
        {
            let end = if n - i > CHUNK_LEN {
                i + CHUNK_LEN
            } else {
                n
            };
            let chunk = slice_subrange(data, i, end);
            h.update(chunk);
            proof {
                assert(data@.subrange(0, i as int) + data@.subrange(i as int, end as int)
                    =~= data@.subrange(0, end as int));
            }
            i = end;
        }
        proof {
            assert(data@.subrange(0, n as int) =~= data@);
        }
        h.finish()
    }
}

} // verus!
