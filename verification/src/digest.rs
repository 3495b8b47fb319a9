//! Content digests.

use crate::order::same_bytes;
use crate::wire::{le_bytes, write_low_bytes};
use vstd::prelude::*;

verus! {

/// The state of an incremental BLAKE3 computation.
#[verifier::external_type_specification]
#[verifier::external_body]
pub struct ExBlake3Hasher(blake3::Hasher);

/// The bytes that a hasher has taken in since `blake3::Hasher::new` made it.
/// A hasher that came about otherwise (keyed, for key derivation, or moved to
/// another input offset) has none.
pub uninterp spec fn hasher_input(hasher: blake3::Hasher) -> Option<Seq<u8>>;

/// The BLAKE3 hash of a byte string, as `blake3::Hasher::finalize` gives it.
pub uninterp spec fn blake3_digest(input: Seq<u8>) -> Seq<u8>;

/// Calls `blake3::Hasher::new`: a hasher for the regular hash function that has
/// taken in nothing yet.
#[verifier::external_body]
fn new_hasher() -> (r: blake3::Hasher)
    ensures
        hasher_input(r) == Some(Seq::<u8>::empty()),
{
    blake3::Hasher::new()
}

/// Calls `blake3::Hasher::update`: the bytes are taken in behind those that were
/// taken in before.
#[verifier::external_body]
fn update_hasher(hasher: &mut blake3::Hasher, bytes: &[u8])
    requires
        hasher_input(*old(hasher)) is Some,
    ensures
        hasher_input(*final(hasher)) == Some(hasher_input(*old(hasher))->0 + bytes@),
{
    hasher.update(bytes);
}

/// Calls `blake3::Hasher::finalize` and `blake3::Hash::as_bytes`: the hash of all
/// bytes taken in, which depends on nothing else.
#[verifier::external_body]
fn finalize_hasher(hasher: &blake3::Hasher) -> (r: [u8; 32])
    requires
        hasher_input(*hasher) is Some,
    ensures
        r@ == blake3_digest(hasher_input(*hasher)->0),
{
    *hasher.finalize().as_bytes()
}

/// What a content is recognised by.
#[derive(Clone, Copy, Debug)]
pub struct Digest {
    pub bytes: [u8; 32],
}

impl View for Digest {
    type V = Seq<u8>;

    open spec fn view(&self) -> Seq<u8> {
        self.bytes@
    }
}

pub open spec fn optional_digest(digest: Option<Digest>) -> Option<Seq<u8>> {
    match digest {
        Some(digest) => Some(digest@),
        None => None,
    }
}

impl Digest {
    pub fn same(&self, other: &Digest) -> (r: bool)
        ensures
            r == (self@ == other@),
    {
        same_bytes(&self.bytes, &other.bytes)
    }

    /// A number that equal digests share.
    pub fn prefix(&self) -> (r: u64)
        ensures
            r == digest_prefix(self@),
    {
        self.bytes[0] as u64 + 256 * (self.bytes[1] as u64) + 65536 * (self.bytes[2] as u64)
            + 16777216 * (self.bytes[3] as u64)
    }
}

pub open spec fn digest_prefix(digest: Seq<u8>) -> int {
    digest[0] + 256 * digest[1] + 65536 * digest[2] + 16777216 * digest[3]
}

/// Computes the digest of a content that arrives piece by piece.
pub struct ContentHasher {
    pub hasher: blake3::Hasher,
}

impl ContentHasher {
    pub open spec fn wf(&self) -> bool {
        hasher_input(self.hasher) is Some
    }

    /// What has arrived so far.
    pub open spec fn fed(&self) -> Seq<u8> {
        hasher_input(self.hasher)->0
    }

    pub fn new() -> (r: ContentHasher)
        ensures
            r.wf(),
            r.fed() == Seq::<u8>::empty(),
    {
        ContentHasher { hasher: new_hasher() }
    }

    pub fn feed(&mut self, bytes: &[u8])
        requires
            old(self).wf(),
        ensures
            final(self).wf(),
            final(self).fed() == old(self).fed() + bytes@,
    {
        update_hasher(&mut self.hasher, bytes);
    }

    pub fn digest(&self) -> (r: Digest)
        requires
            self.wf(),
        ensures
            r@ == blake3_digest(self.fed()),
    {
        Digest { bytes: finalize_hasher(&self.hasher) }
    }
}

pub const PARTIAL_CHUNK_SIZE: usize = 65536;

/// What of a file a quick look takes in: its size, what was read of its
/// beginning and, where it is large, of its end.
pub open spec fn partial_input(size: u64, first: Seq<u8>, last: Seq<u8>) -> Seq<u8> {
    le_bytes(size as nat, 8) + first + if size > PARTIAL_CHUNK_SIZE {
        last
    } else {
        Seq::empty()
    }
}

/// Where to read for a quick look: how many bytes at the beginning, and from
/// which offset at the end.
pub fn partial_reads(size: u64) -> (r: (usize, Option<u64>))
    ensures
        size <= PARTIAL_CHUNK_SIZE ==> r.0 == size && r.1 is None,
        size > PARTIAL_CHUNK_SIZE ==> r.0 == PARTIAL_CHUNK_SIZE && r.1 == Some(
            (size - PARTIAL_CHUNK_SIZE) as u64,
        ),
        size <= 65536 ==> r.0 == size && r.1 is None,
        size > 65536 ==> r.0 == 65536 && r.1 is Some && r.1->0 + 65536 == size,
{
    if size <= PARTIAL_CHUNK_SIZE as u64 {
        (size as usize, None)
    } else {
        (PARTIAL_CHUNK_SIZE, Some(size - PARTIAL_CHUNK_SIZE as u64))
    }
}

/// A digest for a quick look at a file. Files that differ here differ.
pub fn partial_content_fingerprint(size: u64, first: &[u8], last: &[u8]) -> (r: Digest)
    ensures
        r@ == blake3_digest(partial_input(size, first@, last@)),
{
    let mut head: Vec<u8> = Vec::new();
    write_low_bytes(&mut head, size, 8);
    let mut hasher: ContentHasher = ContentHasher::new();
    hasher.feed(head.as_slice());
    hasher.feed(first);
    if size > PARTIAL_CHUNK_SIZE as u64 {
        hasher.feed(last);
    }
    assert(hasher.fed() =~= partial_input(size, first@, last@));
    hasher.digest()
}

/// What a quick look takes in of a file with this content, all of it readable.
pub open spec fn glimpse(content: Seq<u8>) -> Seq<u8> {
    if content.len() <= PARTIAL_CHUNK_SIZE {
        le_bytes(content.len(), 8) + content
    } else {
        le_bytes(content.len(), 8) + content.take(PARTIAL_CHUNK_SIZE as int) + content.skip(
            content.len() - PARTIAL_CHUNK_SIZE,
        )
    }
}

/// A quick look at a file of this content, with the reads that `partial_reads`
/// asks for, depends on the content alone.
pub proof fn lemma_partial_input_is_glimpse(
    content: Seq<u8>,
    size: u64,
    first: Seq<u8>,
    last: Seq<u8>,
)
    requires
        size == content.len(),
        size <= PARTIAL_CHUNK_SIZE ==> first == content,
        size > PARTIAL_CHUNK_SIZE ==> first == content.take(PARTIAL_CHUNK_SIZE as int) && last
            == content.skip(content.len() - PARTIAL_CHUNK_SIZE),
    ensures
        partial_input(size, first, last) == glimpse(content),
{
    assert(partial_input(size, first, last) =~= glimpse(content));
}

} // verus!
