//! Things sorted out by their digest.

use crate::digest::{digest_prefix, Digest};
use crate::positions::{are_positions_of, PositionIndex};
use vstd::prelude::*;

verus! {

/// The numbers of the things that share a digest, in the order in which they
/// were added.
#[verifier::ext_equal]
pub ghost struct ClassView {
    pub digest: Seq<u8>,
    pub members: Seq<int>,
}

/// No digest has two classes.
pub open spec fn distinct_digests(classes: Seq<ClassView>) -> bool {
    forall|i: int, j: int|
        0 <= i < j < classes.len() ==> (#[trigger] classes[i]).digest != (
        #[trigger] classes[j]).digest
}

/// Whether one of the classes is for a digest.
pub open spec fn has_class(classes: Seq<ClassView>, digest: Seq<u8>) -> bool {
    exists|k: int| 0 <= k < classes.len() && (#[trigger] classes[k]).digest == digest
}

/// The class for a digest, if there is one.
pub open spec fn class_for(classes: Seq<ClassView>, digest: Seq<u8>) -> int {
    choose|k: int| 0 <= k < classes.len() && (#[trigger] classes[k]).digest == digest
}

/// Classes after one more thing was added.
pub open spec fn with_member(classes: Seq<ClassView>, digest: Seq<u8>, member: int) -> Seq<
    ClassView,
> {
    if has_class(classes, digest) {
        let k = class_for(classes, digest);
        classes.update(
            k,
            ClassView { digest, members: classes[k].members.push(member) },
        )
    } else {
        classes.push(ClassView { digest, members: seq![member] })
    }
}

pub open spec fn numbers(s: Seq<usize>) -> Seq<int> {
    s.map_values(|i: usize| i as int)
}

/// Adding keeps the digests of the classes apart.
pub proof fn lemma_with_member_distinct(classes: Seq<ClassView>, digest: Seq<u8>, member: int)
    requires
        distinct_digests(classes),
    ensures
        distinct_digests(with_member(classes, digest, member)),
{
    let after = with_member(classes, digest, member);
    assert forall|i: int, j: int| 0 <= i < j < after.len() implies (#[trigger] after[i]).digest != (
    #[trigger] after[j]).digest by {
        if has_class(classes, digest) {
            assert(classes[i].digest != classes[j].digest);
        } else if j < classes.len() {
            assert(classes[i].digest != classes[j].digest);
        } else {
            assert(classes[i].digest != digest);
        }
    }
}

/// The things that share a digest with another one.
pub open spec fn repeated(classes: Seq<ClassView>) -> Seq<int>
    decreases classes.len(),
{
    if classes.len() == 0 {
        Seq::empty()
    } else if classes.last().members.len() > 1 {
        repeated(classes.drop_last()) + classes.last().members
    } else {
        repeated(classes.drop_last())
    }
}

/// Classes of numbered things. The view lists them in the order in which their
/// digests first came.
pub struct DigestClasses {
    digests: Vec<Digest>,
    members: Vec<Vec<usize>>,
    prefixes: PositionIndex,
}

impl View for DigestClasses {
    type V = Seq<ClassView>;

    closed spec fn view(&self) -> Seq<ClassView> {
        Seq::new(
            self.digests@.len(),
            |k: int|
                ClassView { digest: self.digests@[k]@, members: numbers(self.members@[k]@) },
        )
    }
}

impl DigestClasses {
    pub closed spec fn wf(&self) -> bool {
        &&& self.prefixes.wf()
        &&& self.members@.len() == self.digests@.len()
        &&& self.prefixes@.len() == self.digests@.len()
        &&& forall|k: int|
            0 <= k < self.digests@.len() ==> #[trigger] self.prefixes@[k] == digest_prefix(
                self.digests@[k]@,
            )
        &&& distinct_digests(self@)
    }

    pub fn new() -> (r: DigestClasses)
        ensures
            r.wf(),
            r@ == Seq::<ClassView>::empty(),
    {
        let r: DigestClasses = DigestClasses {
            digests: Vec::new(),
            members: Vec::new(),
            prefixes: PositionIndex::new(),
        };
        assert(r@ =~= Seq::<ClassView>::empty());
        r
    }

    pub fn len(&self) -> (r: usize)
        requires
            self.wf(),
        ensures
            r == self@.len(),
    {
        self.digests.len()
    }

    /// How many things are in a class.
    pub fn class_len(&self, k: usize) -> (r: usize)
        requires
            self.wf(),
            k < self@.len(),
        ensures
            r == self@[k as int].members.len(),
    {
        self.members[k].len()
    }

    /// A thing in a class.
    pub fn member(&self, k: usize, i: usize) -> (r: usize)
        requires
            self.wf(),
            k < self@.len(),
            i < self@[k as int].members.len(),
        ensures
            r == self@[k as int].members[i as int],
    {
        self.members[k][i]
    }

    fn find(&self, digest: &Digest) -> (r: Option<usize>)
        requires
            self.wf(),
        ensures
            match r {
                Some(k) => k < self@.len() && self@[k as int].digest == digest@,
                None => !has_class(self@, digest@),
            },
    {
        let prefix: u64 = digest.prefix();
        let positions: &Vec<usize> = match self.prefixes.positions(prefix) {
            Some(positions) => positions,
            None => {
                proof {
                    if has_class(self@, digest@) {
                        let k = class_for(self@, digest@);
                        assert(self@[k].digest == digest@);
                        assert(self.prefixes@[k] != prefix);
                    }
                }
                return None;
            },
        };
        let total: usize = self.digests.len();
        let mut i: usize = 0;
        while i < positions.len()
            invariant
                self.wf(),
                i <= positions@.len(),
                total == self.digests@.len(),
                are_positions_of(positions@, self.prefixes@, prefix),
                forall|j: int|
                    0 <= j < i ==> self@[(#[trigger] positions@[j]) as int].digest != digest@,
            decreases positions@.len() - i,
        {
            let k: usize = positions[i];
            if self.digests[k].same(digest) {
                return Some(k);
            }
            i = i + 1;
        }
        proof {
            if has_class(self@, digest@) {
                let k = class_for(self@, digest@);
                assert(self@[k].digest == digest@);
                assert(self.prefixes@[k] == prefix);
                assert(k < total);
                assert(positions@.contains(k as usize));
                let j = choose|j: int| 0 <= j < positions@.len() && positions@[j] == k as usize;
                assert(self@[positions@[j] as int].digest != digest@);
            }
        }
        None
    }

    /// Adds a thing with this digest.
    pub fn add(&mut self, digest: Digest, member: usize)
        requires
            old(self).wf(),
        ensures
            final(self).wf(),
            final(self)@ == with_member(old(self)@, digest@, member as int),
    {
        let ghost before = self@;
        let ghost old_members = self.members@;
        proof {
            lemma_with_member_distinct(before, digest@, member as int);
        }
        match self.find(&digest) {
            Some(k) => {
                proof {
                    let c = class_for(before, digest@);
                    assert(before[k as int].digest == digest@);
                    if c < k {
                        assert(before[c].digest != before[k as int].digest);
                    } else if k < c {
                        assert(before[k as int].digest != before[c].digest);
                    }
                    assert(c == k);
                }
                self.members[k].push(member);
                proof {
                    assert(numbers(self.members@[k as int]@) =~= before[k as int].members.push(
                        member as int,
                    ));
                    assert(self@ =~= with_member(before, digest@, member as int));
                }
            },
            None => {
                let prefix: u64 = digest.prefix();
                let ghost old_prefixes = self.prefixes@;
                self.digests.push(digest);
                let count: usize = self.digests.len();
                assert(old_prefixes.len() < count);
                self.prefixes.push(prefix);
                let mut members: Vec<usize> = Vec::new();
                members.push(member);
                assert(numbers(members@) =~= seq![member as int]);
                self.members.push(members);
                proof {
                    assert(self@ =~= with_member(before, digest@, member as int));
                }
            },
        }
    }

    /// The things that share a digest with another one.
    pub fn repeated(&self) -> (r: Vec<usize>)
        requires
            self.wf(),
        ensures
            numbers(r@) == repeated(self@),
    {
        let mut out: Vec<usize> = Vec::new();
        let mut k: usize = 0;
        assert(self@.take(0) =~= Seq::<ClassView>::empty());
        assert(numbers(out@) =~= repeated(self@.take(0)));
        while k < self.digests.len()
            invariant
                self.wf(),
                k <= self.digests@.len(),
                numbers(out@) == repeated(self@.take(k as int)),
            decreases self.digests@.len() - k,
        {
            let ghost before = numbers(out@);
            let list: &Vec<usize> = &self.members[k];
            proof {
                assert(self@.take(k + 1).drop_last() =~= self@.take(k as int));
                assert(self@.take(k + 1).last() == self@[k as int]);
            }
            if list.len() > 1 {
                let mut i: usize = 0;
                assert(before + numbers(list@).take(0) =~= before);
                while i < list.len()
                    invariant
                        i <= list@.len(),
                        numbers(out@) == before + numbers(list@).take(i as int),
                    decreases list@.len() - i,
                {
                    let ghost now = numbers(out@);
                    out.push(list[i]);
                    assert(numbers(out@) =~= now.push(list@[i as int] as int));
                    assert(before + numbers(list@).take(i + 1) =~= now.push(
                        list@[i as int] as int,
                    ));
                    i = i + 1;
                }
                assert(numbers(list@).take(list@.len() as int) =~= numbers(list@));
            }
            k = k + 1;
        }
        assert(self@.take(k as int) =~= self@);
        out
    }
}

} // verus!
