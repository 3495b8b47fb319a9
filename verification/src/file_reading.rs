//! Hashing and comparing files whose contents arrive piece by piece.

use crate::digest::{blake3_digest, ContentHasher, Digest};
use crate::duplicates::{
    breath_after, breathe_after_hash_chunk, Breath, HASH_SLEEP_CHUNKS, HASH_YIELD_CHUNKS,
};
use crate::order::same_bytes;
use vstd::prelude::*;

verus! {

pub const HASH_CHUNK_SIZE: usize = 1048576;

/// A file that is being hashed.
pub struct FileHashing {
    pub hasher: ContentHasher,
    pub chunks: usize,
}

impl FileHashing {
    pub open spec fn wf(&self) -> bool {
        self.hasher.wf()
    }

    /// What was read of the file.
    pub open spec fn read(&self) -> Seq<u8> {
        self.hasher.fed()
    }

    pub fn new() -> (r: FileHashing)
        ensures
            r.wf(),
            r.read() == Seq::<u8>::empty(),
            r.chunks == 0,
    {
        FileHashing { hasher: ContentHasher::new(), chunks: 0 }
    }

    /// Takes in the next piece of the file. The count of pieces starts over where
    /// it cannot go on.
    pub fn chunk(&mut self, bytes: &[u8]) -> (r: Breath)
        requires
            old(self).wf(),
        ensures
            final(self).wf(),
            final(self).read() == old(self).read() + bytes@,
            final(self).chunks == if old(self).chunks < usize::MAX {
                old(self).chunks + 1
            } else {
                0
            },
            r == breath_after(
                final(self).chunks as int,
                HASH_SLEEP_CHUNKS as int,
                HASH_YIELD_CHUNKS as int,
            ),
    {
        self.hasher.feed(bytes);
        self.chunks = if self.chunks < usize::MAX {
            self.chunks + 1
        } else {
            0
        };
        breathe_after_hash_chunk(self.chunks)
    }

    /// The digest of what was read.
    pub fn finish(&self) -> (r: Digest)
        requires
            self.wf(),
        ensures
            r@ == blake3_digest(self.read()),
    {
        self.hasher.digest()
    }
}

/// What is known of two files after pieces of both.
#[derive(Clone, Copy, PartialEq, Eq, Structural, Debug)]
pub enum Comparison {
    Decided(bool),
    /// Equal so far.
    Continue(Breath),
}

/// Two files that are being compared.
pub struct FileComparison {
    pub chunks: usize,
}

impl FileComparison {
    pub fn new() -> (r: FileComparison)
        ensures
            r.chunks == 0,
    {
        FileComparison { chunks: 0 }
    }

    /// Takes in the next piece of each file; an empty one marks its end.
    pub fn chunk(&mut self, left: &[u8], right: &[u8]) -> (r: Comparison)
        ensures
            match r {
                Comparison::Decided(true) => left@.len() == 0 && right@.len() == 0,
                Comparison::Decided(false) => left@ != right@,
                Comparison::Continue(breath) => {
                    &&& left@ == right@
                    &&& left@.len() > 0
                    &&& breath == breath_after(
                        final(self).chunks as int,
                        HASH_SLEEP_CHUNKS as int,
                        HASH_YIELD_CHUNKS as int,
                    )
                },
            },
            final(self).chunks == if r is Decided {
                old(self).chunks as int
            } else if old(self).chunks < usize::MAX {
                old(self).chunks + 1
            } else {
                0
            },
    {
        if left.len() != right.len() {
            return Comparison::Decided(false);
        }
        if left.len() == 0 {
            return Comparison::Decided(true);
        }
        if !same_bytes(left, right) {
            return Comparison::Decided(false);
        }
        self.chunks = if self.chunks < usize::MAX {
            self.chunks + 1
        } else {
            0
        };
        Comparison::Continue(breathe_after_hash_chunk(self.chunks))
    }
}

/// The pieces of a file put together.
pub open spec fn assembled(pieces: Seq<Seq<u8>>) -> Seq<u8>
    decreases pieces.len(),
{
    if pieces.len() == 0 {
        Seq::empty()
    } else {
        assembled(pieces.drop_last()) + pieces.last()
    }
}

/// Whether comparing pieces in turn decides that two files are equal: every
/// piece of one is the same as that of the other, and both end together.
pub open spec fn pieces_equal(left: Seq<Seq<u8>>, right: Seq<Seq<u8>>) -> bool {
    left.len() == right.len() && forall|i: int| 0 <= i < left.len() ==> left[i] == right[i]
}

/// Files that are found equal piece by piece have the same content.
pub proof fn lemma_equal_pieces_equal_content(left: Seq<Seq<u8>>, right: Seq<Seq<u8>>)
    requires
        pieces_equal(left, right),
    ensures
        assembled(left) == assembled(right),
{
    assert(left =~= right);
}

/// Files with the same content that are read in pieces of the same lengths are
/// found equal.
pub proof fn lemma_equal_content_equal_pieces(left: Seq<Seq<u8>>, right: Seq<Seq<u8>>)
    requires
        assembled(left) == assembled(right),
        left.len() == right.len(),
        forall|i: int| 0 <= i < left.len() ==> (#[trigger] left[i]).len() == right[i].len(),
    ensures
        pieces_equal(left, right),
    decreases left.len(),
{
    if left.len() > 0 {
        let x = left.last();
        let y = right.last();
        let a = assembled(left.drop_last());
        let b = assembled(right.drop_last());
        assert(left[left.len() - 1].len() == right[right.len() - 1].len());
        assert(a.len() == b.len()) by {
            assert((a + x).len() == (b + y).len());
        }
        assert(a =~= (a + x).take(a.len() as int));
        assert(b =~= (b + y).take(b.len() as int));
        assert(x =~= (a + x).skip(a.len() as int));
        assert(y =~= (b + y).skip(b.len() as int));
        assert forall|i: int| 0 <= i < left.drop_last().len() implies (
        #[trigger] left.drop_last()[i]).len() == right.drop_last()[i].len() by {
            assert(left[i].len() == right[i].len());
        }
        lemma_equal_content_equal_pieces(left.drop_last(), right.drop_last());
        assert forall|i: int| 0 <= i < left.len() implies left[i] == right[i] by {
            if i < left.len() - 1 {
                assert(left.drop_last()[i] == right.drop_last()[i]);
            }
        }
    }
}

} // verus!
