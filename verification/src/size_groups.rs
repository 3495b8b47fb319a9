//! Files sorted out by their size.

use crate::duplicates::{Bucket, CandidateFile, CandidateView};
use crate::positions::PositionIndex;
use vstd::prelude::*;

verus! {

/// The files of one size, in the order in which they were found.
pub open spec fn of_size(found: Seq<CandidateView>, size: u64) -> Seq<CandidateView> {
    found.filter(|c: CandidateView| c.file.size == size)
}

proof fn lemma_of_size_push(found: Seq<CandidateView>, c: CandidateView, size: u64)
    ensures
        of_size(found.push(c), size) == if c.file.size == size {
            of_size(found, size).push(c)
        } else {
            of_size(found, size)
        },
{
    reveal(Seq::filter);
    assert(found.push(c).drop_last() =~= found);
}

/// Files that share a size all have it.
pub proof fn lemma_of_size_members(found: Seq<CandidateView>, size: u64)
    ensures
        forall|i: int|
            0 <= i < of_size(found, size).len() ==> (#[trigger] of_size(found, size)[i]).file.size
                == size && found.contains(of_size(found, size)[i]),
        of_size(found, size).len() <= found.len(),
    decreases found.len(),
{
    if found.len() > 0 {
        let rest = found.drop_last();
        lemma_of_size_members(rest, size);
        assert(rest.push(found.last()) =~= found);
        lemma_of_size_push(rest, found.last(), size);
        let all = of_size(found, size);
        assert forall|i: int| 0 <= i < all.len() implies (#[trigger] all[i]).file.size == size
            && found.contains(all[i]) by {
            if i < of_size(rest, size).len() {
                assert(all[i] == of_size(rest, size)[i]);
                let k = choose|k: int| 0 <= k < rest.len() && rest[k] == all[i];
                assert(found[k] == all[i]);
            } else {
                assert(found[found.len() - 1] == all[i]);
            }
        }
    }
}

/// The files found so far, by size. The view is all of them in the order in
/// which they were found.
pub struct SizeGroups {
    buckets: Vec<Bucket>,
    sizes: PositionIndex,
    found: Ghost<Seq<CandidateView>>,
}

impl View for SizeGroups {
    type V = Seq<CandidateView>;

    closed spec fn view(&self) -> Seq<CandidateView> {
        self.found@
    }
}

/// Whether buckets hold exactly the files of those sizes that several files
/// share, each size in one bucket.
pub open spec fn are_shared_sizes(buckets: Seq<Bucket>, found: Seq<CandidateView>) -> bool {
    &&& forall|i: int|
        0 <= i < buckets.len() ==> (#[trigger] buckets[i])@.len() > 1 && buckets[i]@ == of_size(
            found,
            buckets[i]@[0].file.size,
        )
    &&& forall|i: int, j: int|
        0 <= i < j < buckets.len() ==> (#[trigger] buckets[i])@[0].file.size != (
        #[trigger] buckets[j])@[0].file.size
    &&& forall|size: u64|
        (#[trigger] of_size(found, size)).len() > 1 ==> exists|i: int|
            0 <= i < buckets.len() && (#[trigger] buckets[i])@ == of_size(found, size)
}

impl SizeGroups {
    pub closed spec fn wf(&self) -> bool {
        &&& self.sizes.wf()
        &&& self.sizes@.len() == self.buckets@.len()
        &&& forall|i: int|
            0 <= i < self.buckets@.len() ==> (#[trigger] self.buckets@[i])@ == of_size(
                self.found@,
                self.sizes@[i],
            ) && self.buckets@[i]@.len() > 0
        &&& forall|i: int, j: int|
            0 <= i < j < self.sizes@.len() ==> #[trigger] self.sizes@[i]
                != #[trigger] self.sizes@[j]
        &&& forall|size: u64|
            (#[trigger] of_size(self.found@, size)).len() > 0 ==> self.sizes@.contains(size)
    }

    pub fn new() -> (r: SizeGroups)
        ensures
            r.wf(),
            r@ == Seq::<CandidateView>::empty(),
    {
        proof {
            assert forall|size: u64|
                (#[trigger] of_size(Seq::<CandidateView>::empty(), size)).len() == 0 by {
                lemma_of_size_members(Seq::<CandidateView>::empty(), size);
            }
        }
        SizeGroups {
            buckets: Vec::new(),
            sizes: PositionIndex::new(),
            found: Ghost(Seq::empty()),
        }
    }

    /// Where files of a size are kept.
    fn bucket_of(&self, size: u64) -> (r: Option<usize>)
        requires
            self.wf(),
        ensures
            match r {
                Some(i) => i < self.buckets@.len() && self.sizes@[i as int] == size,
                None => !self.sizes@.contains(size),
            },
    {
        match self.sizes.positions(size) {
            Some(positions) => if positions.len() > 0 {
                Some(positions[0])
            } else {
                let count: usize = self.buckets.len();
                proof {
                    if self.sizes@.contains(size) {
                        let p = choose|p: int| 0 <= p < self.sizes@.len() && self.sizes@[p] == size;
                        assert(p < count);
                        assert(positions@.contains(p as usize));
                    }
                }
                None
            },
            None => None,
        }
    }

    /// Adds a file that was found.
    pub fn push(&mut self, candidate: CandidateFile)
        requires
            old(self).wf(),
        ensures
            final(self).wf(),
            final(self)@ == old(self)@.push(candidate@),
    {
        let size: u64 = candidate.size;
        let ghost before = self.found@;
        let ghost c = candidate@;
        let ghost after = before.push(c);
        let ghost old_buckets = self.buckets@;
        let ghost old_sizes = self.sizes@;
        proof {
            assert forall|s: u64| true implies #[trigger] of_size(after, s) == if s == size {
                of_size(before, s).push(c)
            } else {
                of_size(before, s)
            } by {
                lemma_of_size_push(before, c, s);
            }
        }
        match self.bucket_of(size) {
            Some(i) => {
                let ghost files = self.buckets@[i as int].files@;
                self.buckets[i].files.push(candidate);
                self.found = Ghost(after);
                proof {
                    assert(self.buckets@[i as int].files@ == files.push(candidate));
                    assert(self.buckets@[i as int]@ =~= old_buckets[i as int]@.push(c));
                    assert forall|k: int| 0 <= k < self.buckets@.len() implies (
                    #[trigger] self.buckets@[k])@ == of_size(after, self.sizes@[k])
                        && self.buckets@[k]@.len() > 0 by {
                        if k != i {
                            assert(self.buckets@[k] == old_buckets[k]);
                            assert(old_sizes[k] != size) by {
                                if k < i {
                                    assert(old_sizes[k] != old_sizes[i as int]);
                                } else {
                                    assert(old_sizes[i as int] != old_sizes[k]);
                                }
                            }
                        }
                    }
                    assert forall|s: u64| (#[trigger] of_size(after, s)).len() > 0 implies self
                        .sizes@.contains(s) by {
                        if s == size {
                            assert(self.sizes@[i as int] == s);
                        } else {
                            assert(of_size(before, s).len() > 0);
                        }
                    }
                }
            },
            None => {
                let mut files: Vec<CandidateFile> = Vec::new();
                files.push(candidate);
                let ghost bucket_files = files@;
                self.buckets.push(Bucket { files });
                let count: usize = self.buckets.len();
                assert(old_buckets.len() < count);
                self.sizes.push(size);
                self.found = Ghost(after);
                proof {
                    assert(of_size(before, size).len() == 0);
                    assert(of_size(after, size) =~= seq![c]);
                    assert(self.buckets@.last()@ =~= seq![c]);
                    assert forall|k: int| 0 <= k < self.buckets@.len() implies (
                    #[trigger] self.buckets@[k])@ == of_size(after, self.sizes@[k])
                        && self.buckets@[k]@.len() > 0 by {
                        if k < old_buckets.len() {
                            assert(self.buckets@[k] == old_buckets[k]);
                            assert(self.sizes@[k] == old_sizes[k]);
                            assert(old_sizes.contains(old_sizes[k]));
                        }
                    }
                    assert forall|i: int, j: int| 0 <= i < j < self.sizes@.len() implies
                        #[trigger] self.sizes@[i] != #[trigger] self.sizes@[j] by {
                        if j == old_sizes.len() {
                            assert(old_sizes.contains(old_sizes[i]));
                        } else {
                            assert(old_sizes[i] != old_sizes[j]);
                        }
                    }
                    assert forall|s: u64| (#[trigger] of_size(after, s)).len() > 0 implies self
                        .sizes@.contains(s) by {
                        if s == size {
                            assert(self.sizes@[old_sizes.len() as int] == s);
                        } else {
                            assert(of_size(before, s).len() > 0);
                            let k = choose|k: int| 0 <= k < old_sizes.len() && old_sizes[k] == s;
                            assert(self.sizes@[k] == s);
                        }
                    }
                }
            },
        }
    }

    /// The files of every size that several files share.
    pub fn into_buckets(self) -> (r: Vec<Bucket>)
        requires
            self.wf(),
        ensures
            are_shared_sizes(r@, self@),
    {
        let ghost found = self.found@;
        let ghost all = self.buckets@;
        let ghost sizes = self.sizes@;
        let mut left: Vec<Bucket> = self.buckets;
        let mut out: Vec<Bucket> = Vec::new();
        let ghost mut origins: Seq<int> = Seq::empty();
        while left.len() > 0
            invariant
                left@ == all.take(left@.len() as int),
                left@.len() <= all.len(),
                sizes.len() == all.len(),
                forall|i: int|
                    0 <= i < all.len() ==> (#[trigger] all[i])@ == of_size(found, sizes[i])
                        && all[i]@.len() > 0,
                forall|i: int, j: int|
                    0 <= i < j < sizes.len() ==> #[trigger] sizes[i] != #[trigger] sizes[j],
                origins.len() == out@.len(),
                forall|k: int|
                    0 <= k < out@.len() ==> left@.len() <= (#[trigger] origins[k]) < all.len()
                        && out@[k]@ == all[origins[k]]@ && out@[k]@.len() > 1,
                forall|k: int, l: int|
                    0 <= k < l < origins.len() ==> (#[trigger] origins[l]) < (
                    #[trigger] origins[k]),
                forall|i: int|
                    left@.len() <= i < all.len() && (#[trigger] all[i])@.len() > 1
                        ==> origins.contains(i),
            decreases left@.len(),
        {
            let ghost n = left@.len() - 1;
            let ghost old_origins = origins;
            let bucket: Bucket = match left.pop() {
                Some(bucket) => bucket,
                None => return out,
            };
            assert(bucket == all[n]);
            assert(left@ =~= all.take(n));
            if bucket.files.len() > 1 {
                assert(bucket@.len() == bucket.files@.len());
                out.push(bucket);
                proof {
                    origins = origins.push(n);
                    assert forall|i: int|
                        n <= i < all.len() && (#[trigger] all[i])@.len()
                            > 1 implies origins.contains(i) by {
                        if i == n {
                            assert(origins[old_origins.len() as int] == n);
                        } else {
                            let k = choose|k: int|
                                0 <= k < old_origins.len() && old_origins[k] == i;
                            assert(origins[k] == i);
                        }
                    }
                }
            } else {
                assert(all[n]@.len() == all[n].files@.len());
            }
        }
        proof {
            lemma_shared_sizes(out@, found, all, sizes, origins);
        }
        out
    }
}

proof fn lemma_shared_sizes(
    out: Seq<Bucket>,
    found: Seq<CandidateView>,
    all: Seq<Bucket>,
    sizes: Seq<u64>,
    origins: Seq<int>,
)
    requires
        sizes.len() == all.len(),
        forall|i: int|
            0 <= i < all.len() ==> (#[trigger] all[i])@ == of_size(found, sizes[i])
                && all[i]@.len() > 0,
        forall|i: int, j: int|
            0 <= i < j < sizes.len() ==> #[trigger] sizes[i] != #[trigger] sizes[j],
        forall|size: u64| (#[trigger] of_size(found, size)).len() > 0 ==> sizes.contains(size),
        origins.len() == out.len(),
        forall|k: int|
            0 <= k < out.len() ==> 0 <= (#[trigger] origins[k]) < all.len() && out[k]@
                == all[origins[k]]@ && out[k]@.len() > 1,
        forall|k: int, l: int|
            0 <= k < l < origins.len() ==> (#[trigger] origins[l]) < (#[trigger] origins[k]),
        forall|i: int| 0 <= i < all.len() && (#[trigger] all[i])@.len() > 1 ==> origins.contains(i),
    ensures
        are_shared_sizes(out, found),
{
    assert forall|i: int| 0 <= i < out.len() implies (#[trigger] out[i])@.len() > 1 && out[i]@
        == of_size(found, out[i]@[0].file.size) && out[i]@[0].file.size == sizes[origins[i]] by {
        let o = origins[i];
        lemma_of_size_members(found, sizes[o]);
        assert(all[o]@ == of_size(found, sizes[o]));
        assert(of_size(found, sizes[o])[0].file.size == sizes[o]);
    }
    assert forall|i: int, j: int| 0 <= i < j < out.len() implies (#[trigger] out[i])@[0].file.size
        != (#[trigger] out[j])@[0].file.size by {
        assert(origins[j] < origins[i]);
        assert(sizes[origins[j]] != sizes[origins[i]]);
    }
    assert forall|size: u64| (#[trigger] of_size(found, size)).len() > 1 implies exists|i: int|
        0 <= i < out.len() && (#[trigger] out[i])@ == of_size(found, size) by {
        assert(sizes.contains(size));
        let p = choose|p: int| 0 <= p < sizes.len() && sizes[p] == size;
        assert(all[p]@ == of_size(found, size));
        assert(origins.contains(p));
        let k = choose|k: int| 0 <= k < origins.len() && origins[k] == p;
        assert(out[k]@ == of_size(found, size));
    }
}

/// How many files buckets hold.
pub open spec fn total_len(buckets: Seq<Bucket>) -> nat
    decreases buckets.len(),
{
    if buckets.len() == 0 {
        0
    } else {
        total_len(buckets.drop_last()) + buckets.last()@.len()
    }
}

proof fn lemma_total_len_remove(buckets: Seq<Bucket>, i: int)
    requires
        0 <= i < buckets.len(),
    ensures
        total_len(buckets) == total_len(buckets.remove(i)) + buckets[i]@.len(),
    decreases buckets.len(),
{
    if i < buckets.len() - 1 {
        lemma_total_len_remove(buckets.drop_last(), i);
        assert(buckets.remove(i).drop_last() =~= buckets.drop_last().remove(i));
        assert(buckets.remove(i).last() == buckets.last());
    } else {
        assert(buckets.remove(i) =~= buckets.drop_last());
    }
}

/// The order of buckets does not matter to how many files they hold.
pub proof fn lemma_total_len_sorted(a: Seq<Bucket>, b: Seq<Bucket>)
    requires
        a.to_multiset() == b.to_multiset(),
    ensures
        total_len(a) == total_len(b),
    decreases a.len(),
{
    broadcast use vstd::seq_lib::group_to_multiset_ensures;

    assert(a.to_multiset().len() == a.len());
    assert(b.to_multiset().len() == b.len());
    if a.len() > 0 {
        let x = a.last();
        assert(a.contains(x));
        assert(a.to_multiset().count(x) > 0);
        assert(b.contains(x));
        let i = choose|i: int| 0 <= i < b.len() && b[i] == x;
        assert(a.remove(a.len() - 1) =~= a.drop_last());
        assert(a.remove(a.len() - 1).to_multiset() == a.to_multiset().remove(x));
        assert(b.remove(i).to_multiset() == b.to_multiset().remove(x));
        lemma_total_len_sorted(a.drop_last(), b.remove(i));
        lemma_total_len_remove(b, i);
    }
}

/// How many files have one of several sizes.
spec fn total_of_sizes(found: Seq<CandidateView>, sizes: Seq<u64>) -> nat
    decreases sizes.len(),
{
    if sizes.len() == 0 {
        0
    } else {
        total_of_sizes(found, sizes.drop_last()) + of_size(found, sizes.last()).len()
    }
}

proof fn lemma_total_push(found: Seq<CandidateView>, c: CandidateView, sizes: Seq<u64>)
    requires
        sizes.no_duplicates(),
    ensures
        total_of_sizes(found.push(c), sizes) <= total_of_sizes(found, sizes) + 1,
        !sizes.contains(c.file.size) ==> total_of_sizes(found.push(c), sizes) == total_of_sizes(
            found,
            sizes,
        ),
    decreases sizes.len(),
{
    if sizes.len() > 0 {
        let rest = sizes.drop_last();
        assert(rest.no_duplicates());
        lemma_total_push(found, c, rest);
        lemma_of_size_push(found, c, sizes.last());
        if sizes.last() == c.file.size {
            if rest.contains(c.file.size) {
                let k = choose|k: int| 0 <= k < rest.len() && rest[k] == c.file.size;
                assert(sizes[k] == sizes[sizes.len() - 1]);
            }
        }
        if !sizes.contains(c.file.size) {
            assert(sizes[sizes.len() - 1] != c.file.size);
            assert forall|k: int| 0 <= k < rest.len() implies rest[k] != c.file.size by {
                assert(sizes[k] != c.file.size);
            }
        }
    }
}

proof fn lemma_total_bounded(found: Seq<CandidateView>, sizes: Seq<u64>)
    requires
        sizes.no_duplicates(),
    ensures
        total_of_sizes(found, sizes) <= found.len(),
    decreases found.len(), sizes.len(),
{
    if found.len() == 0 {
        if sizes.len() > 0 {
            lemma_total_bounded(found, sizes.drop_last());
            lemma_of_size_members(found, sizes.last());
        }
    } else {
        let rest = found.drop_last();
        lemma_total_bounded(rest, sizes);
        lemma_total_push(rest, found.last(), sizes);
        assert(rest.push(found.last()) =~= found);
    }
}

proof fn lemma_total_len_is_total(
    buckets: Seq<Bucket>,
    found: Seq<CandidateView>,
    sizes: Seq<u64>,
)
    requires
        buckets.len() == sizes.len(),
        forall|i: int|
            0 <= i < buckets.len() ==> (#[trigger] buckets[i])@ == of_size(found, sizes[i]),
    ensures
        total_len(buckets) == total_of_sizes(found, sizes),
    decreases buckets.len(),
{
    if buckets.len() > 0 {
        let n = buckets.len() - 1;
        let fewer = buckets.drop_last();
        assert forall|i: int| 0 <= i < fewer.len() implies (#[trigger] fewer[i])@ == of_size(
            found,
            sizes.drop_last()[i],
        ) by {
            assert(buckets[i]@ == of_size(found, sizes[i]));
        }
        lemma_total_len_is_total(fewer, found, sizes.drop_last());
        assert(buckets[n]@ == of_size(found, sizes[n]));
    }
}

/// Buckets hold no more files than were found.
pub proof fn lemma_shared_sizes_bounded(buckets: Seq<Bucket>, found: Seq<CandidateView>)
    requires
        are_shared_sizes(buckets, found),
    ensures
        total_len(buckets) <= found.len(),
{
    let sizes = Seq::new(buckets.len(), |i: int| buckets[i]@[0].file.size);
    assert(sizes.no_duplicates()) by {
        assert forall|i: int, j: int|
            0 <= i < sizes.len() && 0 <= j < sizes.len() && i != j implies sizes[i] != sizes[j] by {
            if i < j {
                assert(buckets[i]@[0].file.size != buckets[j]@[0].file.size);
            } else {
                assert(buckets[j]@[0].file.size != buckets[i]@[0].file.size);
            }
        }
    }
    lemma_total_len_is_total(buckets, found, sizes);
    lemma_total_bounded(found, sizes);
}

} // verus!
