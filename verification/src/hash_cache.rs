//! Digests remembered from earlier searches.

use crate::digest::Digest;
use crate::duplicates::{CacheKeyView, DuplicateHashCacheKey, FileIdentity};
use crate::positions::{are_positions_of, PositionIndex};
use vstd::prelude::*;

verus! {

/// A remembered digest.
struct CacheEntry {
    key: DuplicateHashCacheKey,
    digest: Digest,
}

/// Digests of files that have not changed since. The view maps what a digest is
/// valid for to the digest.
pub struct DuplicateHashCache {
    entries: Vec<CacheEntry>,
    index: PositionIndex,
}

/// What entries come to: the last one for a key counts.
spec fn remembered(entries: Seq<CacheEntry>) -> Map<CacheKeyView, Seq<u8>>
    decreases entries.len(),
{
    if entries.len() == 0 {
        Map::empty()
    } else {
        remembered(entries.drop_last()).insert(entries.last().key@, entries.last().digest@)
    }
}

proof fn lemma_remembered(entries: Seq<CacheEntry>, key: CacheKeyView, i: int)
    requires
        0 <= i < entries.len(),
        entries[i].key@ == key,
        forall|j: int| i < j < entries.len() ==> (#[trigger] entries[j]).key@ != key,
    ensures
        remembered(entries).contains_key(key),
        remembered(entries)[key] == entries[i].digest@,
    decreases entries.len(),
{
    if i < entries.len() - 1 {
        lemma_remembered(entries.drop_last(), key, i);
    }
}

proof fn lemma_not_remembered(entries: Seq<CacheEntry>, key: CacheKeyView)
    requires
        forall|j: int| 0 <= j < entries.len() ==> (#[trigger] entries[j]).key@ != key,
    ensures
        !remembered(entries).contains_key(key),
    decreases entries.len(),
{
    if entries.len() > 0 {
        lemma_not_remembered(entries.drop_last(), key);
    }
}

/// A number that equal keys share.
spec fn key_number(key: DuplicateHashCacheKey) -> u64 {
    match key.identity {
        FileIdentity::Unix { dev, ino } => ino,
        FileIdentity::Path(_) => key.size,
    }
}

fn number_of(key: &DuplicateHashCacheKey) -> (r: u64)
    ensures
        r == key_number(*key),
{
    match key.identity {
        FileIdentity::Unix { dev, ino } => ino,
        FileIdentity::Path(_) => key.size,
    }
}

fn same_identity(a: &FileIdentity, b: &FileIdentity) -> (r: bool)
    ensures
        r == (a@ == b@),
{
    match (a, b) {
        (FileIdentity::Unix { dev, ino }, FileIdentity::Unix { dev: dev2, ino: ino2 }) => *dev
            == *dev2 && *ino == *ino2,
        (FileIdentity::Path(p), FileIdentity::Path(q)) => p.same_path(q),
        _ => false,
    }
}

fn same_key(a: &DuplicateHashCacheKey, b: &DuplicateHashCacheKey) -> (r: bool)
    ensures
        r == (a@ == b@),
{
    same_identity(&a.identity, &b.identity) && a.size == b.size && a.modified == b.modified
        && a.changed == b.changed
}

impl View for DuplicateHashCache {
    type V = Map<CacheKeyView, Seq<u8>>;

    closed spec fn view(&self) -> Map<CacheKeyView, Seq<u8>> {
        remembered(self.entries@)
    }
}

impl DuplicateHashCache {
    pub closed spec fn wf(&self) -> bool {
        &&& self.index.wf()
        &&& self.index@.len() == self.entries@.len()
        &&& forall|i: int|
            0 <= i < self.entries@.len() ==> #[trigger] self.index@[i] == key_number(
                self.entries@[i].key,
            )
    }

    pub fn new() -> (r: DuplicateHashCache)
        ensures
            r.wf(),
            r@ == Map::<CacheKeyView, Seq<u8>>::empty(),
    {
        DuplicateHashCache { entries: Vec::new(), index: PositionIndex::new() }
    }

    /// The digest that is remembered for a key.
    pub fn get(&self, key: &DuplicateHashCacheKey) -> (r: Option<Digest>)
        requires
            self.wf(),
        ensures
            r is Some <==> self@.contains_key(key@),
            r is Some ==> r->0@ == self@[key@],
    {
        let number: u64 = number_of(key);
        let positions: &Vec<usize> = match self.index.positions(number) {
            Some(positions) => positions,
            None => {
                proof {
                    assert forall|j: int| 0 <= j < self.entries@.len() implies (
                    #[trigger] self.entries@[j]).key@ != key@ by {
                        assert(self.index@[j] != number);
                    }
                    lemma_not_remembered(self.entries@, key@);
                }
                return None;
            },
        };
        let mut i: usize = positions.len();
        let total: usize = self.entries.len();
        proof {
            assert forall|j: int|
                0 <= j < self.entries@.len() && (#[trigger] self.entries@[j]).key@
                    == key@ implies exists|k: int|
                #![trigger positions@[k]]
                0 <= k < i && positions@[k] == j by {
                assert(self.index@[j] == number);
                assert(j < total);
                assert(positions@.contains(j as usize));
            }
        }
        while i > 0
            invariant
                self.wf(),
                i <= positions@.len(),
                are_positions_of(positions@, self.index@, number),
                forall|j: int|
                    0 <= j < self.entries@.len() && (#[trigger] self.entries@[j]).key@ == key@
                        ==> exists|k: int|
                        #![trigger positions@[k]]
                        0 <= k < i && positions@[k] == j,
            decreases i,
        {
            i = i - 1;
            let position: usize = positions[i];
            if same_key(&self.entries[position].key, key) {
                proof {
                    assert forall|j: int| position < j < self.entries@.len() implies (
                    #[trigger] self.entries@[j]).key@ != key@ by {
                        if self.entries@[j].key@ == key@ {
                            let k = choose|k: int|
                                #![trigger positions@[k]]
                                0 <= k < i + 1 && positions@[k] == j;
                            if k < i {
                                assert(positions@[k] < positions@[i as int]);
                            }
                        }
                    }
                    lemma_remembered(self.entries@, key@, position as int);
                }
                return Some(self.entries[position].digest);
            }
            proof {
                assert forall|j: int|
                    0 <= j < self.entries@.len() && (#[trigger] self.entries@[j]).key@
                        == key@ implies exists|k: int|
                    #![trigger positions@[k]]
                    0 <= k < i && positions@[k] == j by {
                    let k = choose|k: int|
                        #![trigger positions@[k]]
                        0 <= k < i + 1 && positions@[k] == j;
                    assert(k != i);
                    assert(0 <= k < i && positions@[k] == j);
                }
            }
        }
        proof {
            assert forall|j: int| 0 <= j < self.entries@.len() implies (
            #[trigger] self.entries@[j]).key@ != key@ by {
                if self.entries@[j].key@ == key@ {
                    let k = choose|k: int|
                        #![trigger positions@[k]]
                        0 <= k < 0 && positions@[k] == j;
                }
            }
            lemma_not_remembered(self.entries@, key@);
        }
        None
    }

    /// Remembers a digest.
    pub fn insert(&mut self, key: DuplicateHashCacheKey, digest: Digest)
        requires
            old(self).wf(),
        ensures
            final(self).wf(),
            final(self)@ == old(self)@.insert(key@, digest@),
    {
        let number: u64 = number_of(&key);
        let ghost before = self.entries@;
        self.entries.push(CacheEntry { key, digest });
        assert(self.entries@.drop_last() =~= before);
        let count: usize = self.entries.len();
        assert(before.len() < count);
        self.index.push(number);
    }
}

} // verus!
