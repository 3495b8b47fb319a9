//! Telling which files of one size have the same content.
//!
//! Large files are first looked at quickly, then what is left is hashed, then
//! files with equal hashes are compared. Reading files is left to the caller: a
//! check says what to find out next and takes the answer in.

use crate::digest::{optional_digest, Digest};
use crate::digest_classes::{
    distinct_digests, has_class, class_for, lemma_with_member_distinct, numbers, repeated,
    with_member, ClassView, DigestClasses,
};
use crate::duplicates::{
    candidates_view, files_view, optional_key, CacheKeyView, CandidateFile, CandidateView,
    DuplicateFile, DuplicateFileView, DuplicateHashCacheKey, DuplicateScanStats,
    SMALL_FILE_FULL_HASH_LIMIT,
};
use crate::hash_cache::DuplicateHashCache;
use crate::order::{is_stable_sort, stable_sort};
use vstd::prelude::*;

verus! {

#[derive(Clone, Copy, PartialEq, Eq, Structural, Debug)]
pub enum CheckStage {
    Glimpsing,
    Hashing,
    Verifying,
}

/// What a check has to find out next. Files are named by their position among
/// the candidates.
#[derive(Clone, Copy, PartialEq, Eq, Structural, Debug)]
pub enum CheckAction {
    /// Nothing: ask again.
    Again,
    /// A quick look at a file.
    Glimpse(usize),
    /// The digest of a file.
    Hash(usize),
    /// Whether two files are equal.
    Compare(usize, usize),
    /// Nothing more.
    Done,
}

/// How an attempt to hash a file ended.
#[derive(Clone, Copy, Debug)]
pub enum HashOutcome {
    Hashed(Digest),
    Failed,
    Canceled,
}

/// A check of files that have the same size.
pub struct BucketCheck {
    pub candidates: Vec<CandidateFile>,
    pub stage: CheckStage,
    /// How many files were looked at.
    pub looked: usize,
    pub glimpses: DigestClasses,
    /// The files that are worth hashing.
    pub survivors: Vec<usize>,
    /// How many of them were hashed.
    pub hashed: usize,
    pub classes: DigestClasses,
    /// The class that is being verified, and the member of it.
    pub class: usize,
    pub member: usize,
    /// Whether that member is being compared, and with which representative.
    pub started: bool,
    pub against: usize,
    /// The members of the class that are verified, equal ones together.
    pub representatives: Vec<Vec<usize>>,
    /// Files that were found equal.
    pub groups: Vec<Vec<usize>>,
}

#[verifier::ext_equal]
pub ghost struct CheckView {
    pub candidates: Seq<CandidateView>,
    pub stage: CheckStage,
    pub looked: int,
    pub glimpses: Seq<ClassView>,
    pub survivors: Seq<int>,
    pub hashed: int,
    pub classes: Seq<ClassView>,
    pub class: int,
    pub member: int,
    pub started: bool,
    pub against: int,
    pub representatives: Seq<Seq<int>>,
    pub groups: Seq<Seq<int>>,
}

pub open spec fn nested(lists: Seq<Vec<usize>>) -> Seq<Seq<int>> {
    lists.map_values(|l: Vec<usize>| numbers(l@))
}

impl View for BucketCheck {
    type V = CheckView;

    open spec fn view(&self) -> CheckView {
        CheckView {
            candidates: candidates_view(self.candidates@),
            stage: self.stage,
            looked: self.looked as int,
            glimpses: self.glimpses@,
            survivors: numbers(self.survivors@),
            hashed: self.hashed as int,
            classes: self.classes@,
            class: self.class as int,
            member: self.member as int,
            started: self.started,
            against: self.against as int,
            representatives: nested(self.representatives@),
            groups: nested(self.groups@),
        }
    }
}

/// All numbers are positions below `n`.
pub open spec fn below(s: Seq<int>, n: int) -> bool {
    forall|i: int| 0 <= i < s.len() ==> 0 <= #[trigger] s[i] < n
}

pub open spec fn classes_below(classes: Seq<ClassView>, n: int) -> bool {
    forall|k: int| 0 <= k < classes.len() ==> below((#[trigger] classes[k]).members, n)
}

/// Lists of positions below `n`, each longer than `shortest`.
pub open spec fn lists_below(lists: Seq<Seq<int>>, n: int, shortest: int) -> bool {
    forall|k: int|
        0 <= k < lists.len() ==> below(#[trigger] lists[k], n) && lists[k].len() > shortest
}

impl CheckView {
    /// Every number is a position of a candidate, and the counters are where the
    /// stage has brought them.
    pub open spec fn in_range(self) -> bool {
        let n = self.candidates.len() as int;
        &&& 0 <= self.looked <= n
        &&& classes_below(self.glimpses, n)
        &&& distinct_digests(self.glimpses)
        &&& below(self.survivors, n)
        &&& 0 <= self.hashed <= self.survivors.len()
        &&& classes_below(self.classes, n)
        &&& distinct_digests(self.classes)
        &&& 0 <= self.class <= self.classes.len()
        &&& 0 <= self.member
        &&& self.class < self.classes.len() ==> self.member
            <= self.classes[self.class].members.len()
        &&& self.class == self.classes.len() ==> self.member == 0
        &&& self.started ==> self.class < self.classes.len() && self.member
            < self.classes[self.class].members.len() && self.classes[self.class].members.len() > 1
        &&& 0 <= self.against <= self.representatives.len()
        &&& lists_below(self.representatives, n, 0)
        &&& lists_below(self.groups, n, 1)
        &&& self.stage != CheckStage::Verifying ==> self.class == 0 && self.member == 0
            && !self.started && self.representatives.len() == 0 && self.groups.len() == 0
        &&& self.stage == CheckStage::Glimpsing ==> self.survivors.len() == 0 && self.classes.len()
            == 0
        &&& self.stage == CheckStage::Hashing ==> self.against == 0
    }
}

/// Whether files are small enough to be hashed right away.
pub open spec fn hashed_at_once(candidates: Seq<CandidateView>) -> bool {
    candidates.len() > 0 && candidates[0].file.size <= SMALL_FILE_FULL_HASH_LIMIT
}

/// A check that has found out nothing yet.
pub open spec fn fresh_check(candidates: Seq<CandidateView>) -> CheckView {
    CheckView {
        candidates,
        stage: if hashed_at_once(candidates) {
            CheckStage::Hashing
        } else {
            CheckStage::Glimpsing
        },
        looked: 0,
        glimpses: Seq::empty(),
        survivors: if hashed_at_once(candidates) {
            Seq::new(candidates.len(), |i: int| i)
        } else {
            Seq::empty()
        },
        hashed: 0,
        classes: Seq::empty(),
        class: 0,
        member: 0,
        started: false,
        against: 0,
        representatives: Seq::empty(),
        groups: Seq::empty(),
    }
}

/// The digest that is remembered for a file, if there is one.
pub open spec fn cached_digest(
    candidate: CandidateView,
    cache: Map<CacheKeyView, Seq<u8>>,
) -> Option<Seq<u8>> {
    match candidate.cache_key {
        Some(key) => if cache.contains_key(key) {
            Some(cache[key])
        } else {
            None
        },
        None => None,
    }
}

/// Whether the stage is over: nothing is left to do in it, or it was canceled.
pub open spec fn stage_is_over(v: CheckView, canceled: bool) -> bool {
    canceled || match v.stage {
        CheckStage::Glimpsing => v.looked == v.candidates.len(),
        CheckStage::Hashing => v.hashed == v.survivors.len(),
        CheckStage::Verifying => v.class == v.classes.len(),
    }
}

pub open spec fn members_of(v: CheckView) -> Seq<int> {
    v.classes[v.class].members
}

/// A check after a file was hashed.
pub open spec fn with_hash(v: CheckView, digest: Seq<u8>) -> CheckView {
    CheckView {
        classes: with_member(v.classes, digest, v.survivors[v.hashed]),
        hashed: v.hashed + 1,
        ..v
    }
}

/// The lists with more than one entry.
pub open spec fn larger(lists: Seq<Seq<int>>) -> Seq<Seq<int>> {
    lists.filter(|g: Seq<int>| g.len() > 1)
}

/// A check after a class was verified as far as it goes: members that are equal
/// to another one form groups.
pub open spec fn with_class_closed(v: CheckView) -> CheckView {
    CheckView {
        groups: v.groups + larger(v.representatives),
        representatives: Seq::empty(),
        class: v.class + 1,
        member: 0,
        started: false,
        against: 0,
        ..v
    }
}

/// What a check has to find out next.
pub open spec fn next_action(
    v: CheckView,
    canceled: bool,
    cache: Map<CacheKeyView, Seq<u8>>,
) -> CheckAction {
    match v.stage {
        CheckStage::Glimpsing => if stage_is_over(v, canceled) {
            CheckAction::Again
        } else {
            CheckAction::Glimpse(v.looked as usize)
        },
        CheckStage::Hashing => if stage_is_over(v, canceled) || cached_digest(
            v.candidates[v.survivors[v.hashed]],
            cache,
        ) is Some {
            CheckAction::Again
        } else {
            CheckAction::Hash(v.survivors[v.hashed] as usize)
        },
        CheckStage::Verifying => if v.class == v.classes.len() {
            CheckAction::Done
        } else if v.started && v.against < v.representatives.len() {
            CheckAction::Compare(
                members_of(v)[v.member] as usize,
                v.representatives[v.against][0] as usize,
            )
        } else {
            CheckAction::Again
        },
    }
}

/// A check after it was asked what to find out next.
pub open spec fn next_view(
    v: CheckView,
    canceled: bool,
    cache: Map<CacheKeyView, Seq<u8>>,
) -> CheckView {
    match v.stage {
        CheckStage::Glimpsing => if stage_is_over(v, canceled) {
            CheckView { stage: CheckStage::Hashing, survivors: repeated(v.glimpses), ..v }
        } else {
            v
        },
        CheckStage::Hashing => if stage_is_over(v, canceled) {
            CheckView { stage: CheckStage::Verifying, ..v }
        } else {
            match cached_digest(v.candidates[v.survivors[v.hashed]], cache) {
                Some(digest) => with_hash(v, digest),
                None => v,
            }
        },
        CheckStage::Verifying => if v.class == v.classes.len() {
            v
        } else if members_of(v).len() <= 1 {
            CheckView { class: v.class + 1, member: 0, ..v }
        } else if !v.started {
            if canceled || v.member == members_of(v).len() {
                with_class_closed(v)
            } else {
                CheckView { started: true, against: 0, ..v }
            }
        } else if v.against == v.representatives.len() {
            CheckView {
                representatives: v.representatives.push(seq![members_of(v)[v.member]]),
                member: v.member + 1,
                started: false,
                against: 0,
                ..v
            }
        } else {
            v
        },
    }
}

/// One more, as far as a counter goes.
pub open spec fn counted(n: usize) -> usize {
    if n < usize::MAX {
        (n + 1) as usize
    } else {
        n
    }
}

/// A sum, as far as a counter goes.
pub open spec fn counted_by(n: usize, more: int) -> usize {
    if n + more <= usize::MAX {
        (n + more) as usize
    } else {
        usize::MAX
    }
}

/// The difference, but not below zero.
pub open spec fn excess(a: int, b: int) -> int {
    if a > b {
        a - b
    } else {
        0
    }
}

/// What is counted when a check is asked what to find out next.
pub open spec fn next_stats(
    v: CheckView,
    stats: DuplicateScanStats,
    canceled: bool,
    cache: Map<CacheKeyView, Seq<u8>>,
) -> DuplicateScanStats {
    match v.stage {
        CheckStage::Glimpsing => if stage_is_over(v, canceled) {
            DuplicateScanStats {
                checked_candidates: counted_by(
                    stats.checked_candidates,
                    excess(v.looked, repeated(v.glimpses).len() as int),
                ),
                ..stats
            }
        } else {
            stats
        },
        CheckStage::Hashing => if !stage_is_over(v, canceled) && cached_digest(
            v.candidates[v.survivors[v.hashed]],
            cache,
        ) is Some {
            DuplicateScanStats {
                cached_hashes: counted(stats.cached_hashes),
                checked_candidates: counted(stats.checked_candidates),
                hashed_files: counted(stats.hashed_files),
                ..stats
            }
        } else {
            stats
        },
        CheckStage::Verifying => if v.class < v.classes.len() && members_of(v).len() > 1
            && !v.started && !canceled && v.member < members_of(v).len() {
            DuplicateScanStats { verified_files: counted(stats.verified_files), ..stats }
        } else {
            stats
        },
    }
}

/// A check after a quick look at a file, which may have failed.
pub open spec fn with_glimpse(v: CheckView, digest: Option<Seq<u8>>) -> CheckView {
    CheckView {
        glimpses: match digest {
            Some(digest) => with_member(v.glimpses, digest, v.looked),
            None => v.glimpses,
        },
        looked: v.looked + 1,
        ..v
    }
}

/// A check after a comparison.
pub open spec fn with_comparison(v: CheckView, equal: bool) -> CheckView {
    if equal {
        CheckView {
            representatives: v.representatives.update(
                v.against,
                v.representatives[v.against].push(members_of(v)[v.member]),
            ),
            member: v.member + 1,
            started: false,
            against: 0,
            ..v
        }
    } else {
        CheckView { against: v.against + 1, ..v }
    }
}

proof fn lemma_with_member_below(classes: Seq<ClassView>, digest: Seq<u8>, member: int, n: int)
    requires
        classes_below(classes, n),
        0 <= member < n,
    ensures
        classes_below(with_member(classes, digest, member), n),
{
    let after = with_member(classes, digest, member);
    assert forall|k: int| 0 <= k < after.len() implies below((#[trigger] after[k]).members, n) by {
        if k < classes.len() {
            assert(below(classes[k].members, n));
        }
        if has_class(classes, digest) {
            let c = class_for(classes, digest);
            assert(below(classes[c].members, n));
        }
    }
}

proof fn lemma_repeated_below(classes: Seq<ClassView>, n: int)
    requires
        classes_below(classes, n),
    ensures
        below(repeated(classes), n),
    decreases classes.len(),
{
    if classes.len() > 0 {
        let rest = classes.drop_last();
        assert forall|k: int| 0 <= k < rest.len() implies below((#[trigger] rest[k]).members, n) by {
            assert(rest[k] == classes[k]);
        }
        lemma_repeated_below(rest, n);
        assert(below(classes[classes.len() - 1].members, n));
    }
}

proof fn lemma_filter_below(lists: Seq<Seq<int>>, n: int)
    requires
        lists_below(lists, n, 0),
    ensures
        lists_below(larger(lists), n, 1),
    decreases lists.len(),
{
    reveal(Seq::filter);
    if lists.len() > 0 {
        let rest = lists.drop_last();
        assert forall|k: int| 0 <= k < rest.len() implies below(#[trigger] rest[k], n)
            && rest[k].len() > 0 by {
            assert(rest[k] == lists[k]);
        }
        lemma_filter_below(rest, n);
        assert(below(lists[lists.len() - 1], n));
    }
}

/// Asking what comes next keeps every number in range.
pub proof fn lemma_next_in_range(
    v: CheckView,
    canceled: bool,
    cache: Map<CacheKeyView, Seq<u8>>,
)
    requires
        v.in_range(),
    ensures
        next_view(v, canceled, cache).in_range(),
{
    let n = v.candidates.len() as int;
    let after = next_view(v, canceled, cache);
    match v.stage {
        CheckStage::Glimpsing => {
            lemma_repeated_below(v.glimpses, n);
        },
        CheckStage::Hashing => {
            if !stage_is_over(v, canceled) {
                if let Some(digest) = cached_digest(v.candidates[v.survivors[v.hashed]], cache) {
                    lemma_with_member_distinct(v.classes, digest, v.survivors[v.hashed]);
                    lemma_with_member_below(v.classes, digest, v.survivors[v.hashed], n);
                }
            }
        },
        CheckStage::Verifying => {
            if v.class < v.classes.len() {
                assert(below(v.classes[v.class].members, n));
                lemma_filter_below(v.representatives, n);
                if v.started && v.against == v.representatives.len() {
                    let x = members_of(v)[v.member];
                    assert(after.representatives == v.representatives.push(seq![x]));
                    assert forall|k: int| 0 <= k < after.representatives.len() implies below(
                        #[trigger] after.representatives[k],
                        n,
                    ) && after.representatives[k].len() > 0 by {
                        if k < v.representatives.len() {
                            assert(below(v.representatives[k], n));
                        }
                    }
                }
                if !v.started && (canceled || v.member == members_of(v).len())
                    && members_of(v).len() > 1 {
                    let more = larger(v.representatives);
                    assert(after.groups == v.groups + more);
                    assert forall|k: int| 0 <= k < after.groups.len() implies below(
                        #[trigger] after.groups[k],
                        n,
                    ) && after.groups[k].len() > 1 by {
                        if k < v.groups.len() {
                            assert(below(v.groups[k], n));
                        } else {
                            assert(below(more[k - v.groups.len()], n));
                        }
                    }
                }
            }
        },
    }
}

/// Taking in an answer keeps every number in range.
pub proof fn lemma_glimpse_in_range(v: CheckView, digest: Option<Seq<u8>>)
    requires
        v.in_range(),
        v.stage == CheckStage::Glimpsing,
        v.looked < v.candidates.len(),
    ensures
        with_glimpse(v, digest).in_range(),
{
    if let Some(digest) = digest {
        lemma_with_member_distinct(v.glimpses, digest, v.looked);
        lemma_with_member_below(v.glimpses, digest, v.looked, v.candidates.len() as int);
    }
}

/// Taking in an answer keeps every number in range.
pub proof fn lemma_hash_in_range(v: CheckView, digest: Seq<u8>)
    requires
        v.in_range(),
        v.stage == CheckStage::Hashing,
        v.hashed < v.survivors.len(),
    ensures
        with_hash(v, digest).in_range(),
{
    lemma_with_member_distinct(v.classes, digest, v.survivors[v.hashed]);
    lemma_with_member_below(
        v.classes,
        digest,
        v.survivors[v.hashed],
        v.candidates.len() as int,
    );
}

/// Taking in an answer keeps every number in range.
pub proof fn lemma_comparison_in_range(v: CheckView, equal: bool)
    requires
        v.in_range(),
        v.stage == CheckStage::Verifying,
        v.started,
        v.against < v.representatives.len(),
    ensures
        with_comparison(v, equal).in_range(),
{
    let n = v.candidates.len() as int;
    let after = with_comparison(v, equal);
    assert(below(v.classes[v.class].members, n));
    assert(below(v.representatives[v.against], n));
    assert forall|k: int| 0 <= k < after.representatives.len() implies below(
        #[trigger] after.representatives[k],
        n,
    ) && after.representatives[k].len() > 0 by {
        assert(below(v.representatives[k], n));
    }
}

fn count_one(n: usize) -> (r: usize)
    ensures
        r == counted(n),
{
    if n < usize::MAX {
        n + 1
    } else {
        n
    }
}

/// The files that a list of positions names.
pub open spec fn files_at(candidates: Seq<CandidateView>, positions: Seq<int>) -> Seq<
    DuplicateFileView,
> {
    positions.map_values(|i: int| candidates[i].file)
}

/// Whether files are those at the given positions, in the order of a group.
pub open spec fn is_sorted_group(
    files: Seq<DuplicateFile>,
    candidates: Seq<CandidateView>,
    positions: Seq<int>,
) -> bool {
    exists|unsorted: Seq<DuplicateFile>|
        files_view(unsorted) == files_at(candidates, positions) && #[trigger] is_stable_sort(
            unsorted,
            files,
        )
}

impl BucketCheck {
    pub open spec fn wf(&self) -> bool {
        &&& self.glimpses.wf()
        &&& self.classes.wf()
        &&& self@.in_range()
    }

    pub fn new(candidates: Vec<CandidateFile>) -> (r: BucketCheck)
        ensures
            r.wf(),
            r@ == fresh_check(candidates_view(candidates@)),
    {
        let ghost view = candidates_view(candidates@);
        let at_once: bool = candidates.len() > 0 && candidates[0].size
            <= SMALL_FILE_FULL_HASH_LIMIT;
        assert(candidates@.len() > 0 ==> view[0] == candidates@[0]@);
        let mut survivors: Vec<usize> = Vec::new();
        if at_once {
            let mut i: usize = 0;
            while i < candidates.len()
                invariant
                    i <= candidates@.len(),
                    survivors@.len() == i,
                    forall|k: int| 0 <= k < i ==> #[trigger] survivors@[k] == k,
                decreases candidates@.len() - i,
            {
                survivors.push(i);
                i = i + 1;
            }
            assert(numbers(survivors@) =~= Seq::new(view.len(), |k: int| k));
        }
        let stage: CheckStage = if at_once {
            CheckStage::Hashing
        } else {
            CheckStage::Glimpsing
        };
        let check: BucketCheck = BucketCheck {
            candidates,
            stage,
            looked: 0,
            glimpses: DigestClasses::new(),
            survivors,
            hashed: 0,
            classes: DigestClasses::new(),
            class: 0,
            member: 0,
            started: false,
            against: 0,
            representatives: Vec::new(),
            groups: Vec::new(),
        };
        proof {
            assert(check@.representatives =~= Seq::<Seq<int>>::empty());
            assert(check@.groups =~= Seq::<Seq<int>>::empty());
            assert(!at_once ==> check@.survivors =~= Seq::<int>::empty());
            assert(check@ =~= fresh_check(view));
        }
        check
    }

    /// Says what to find out next, and does what needs no answer.
    pub fn next(
        &mut self,
        canceled: bool,
        cache: &DuplicateHashCache,
        stats: &mut DuplicateScanStats,
    ) -> (r: CheckAction)
        requires
            old(self).wf(),
            cache.wf(),
        ensures
            final(self).wf(),
            r == next_action(old(self)@, canceled, cache@),
            final(self)@ == next_view(old(self)@, canceled, cache@),
            *final(stats) == next_stats(old(self)@, *old(stats), canceled, cache@),
    {
        proof {
            lemma_next_in_range(self@, canceled, cache@);
        }
        match self.stage {
            CheckStage::Glimpsing => self.next_glimpse(canceled, stats),
            CheckStage::Hashing => self.next_hash(canceled, cache, stats),
            CheckStage::Verifying => self.next_comparison(canceled, stats),
        }
    }

    fn next_glimpse(&mut self, canceled: bool, stats: &mut DuplicateScanStats) -> (r: CheckAction)
        requires
            old(self).wf(),
            old(self).stage == CheckStage::Glimpsing,
        ensures
            final(self).glimpses.wf(),
            final(self).classes.wf(),
            r == next_action(old(self)@, canceled, Map::empty()),
            final(self)@ == next_view(old(self)@, canceled, Map::empty()),
            *final(stats) == next_stats(old(self)@, *old(stats), canceled, Map::empty()),
    {
        if !canceled && self.looked < self.candidates.len() {
            return CheckAction::Glimpse(self.looked);
        }
        let ghost before = self@;
        self.survivors = self.glimpses.repeated();
        self.stage = CheckStage::Hashing;
        let dropped: usize = if self.looked > self.survivors.len() {
            self.looked - self.survivors.len()
        } else {
            0
        };
        stats.checked_candidates = match stats.checked_candidates.checked_add(dropped) {
            Some(sum) => sum,
            None => usize::MAX,
        };
        assert(self@ =~= next_view(before, canceled, Map::empty()));
        CheckAction::Again
    }

    fn lookup(&self, i: usize, cache: &DuplicateHashCache) -> (r: Option<Digest>)
        requires
            i < self.candidates@.len(),
            cache.wf(),
        ensures
            optional_digest(r) == cached_digest(self@.candidates[i as int], cache@),
    {
        assert(self@.candidates[i as int] == self.candidates@[i as int]@);
        match &self.candidates[i].cache_key {
            Some(key) => cache.get(key),
            None => None,
        }
    }

    fn next_hash(
        &mut self,
        canceled: bool,
        cache: &DuplicateHashCache,
        stats: &mut DuplicateScanStats,
    ) -> (r: CheckAction)
        requires
            old(self).wf(),
            old(self).stage == CheckStage::Hashing,
            cache.wf(),
        ensures
            final(self).glimpses.wf(),
            final(self).classes.wf(),
            r == next_action(old(self)@, canceled, cache@),
            final(self)@ == next_view(old(self)@, canceled, cache@),
            *final(stats) == next_stats(old(self)@, *old(stats), canceled, cache@),
    {
        let ghost before = self@;
        if canceled || self.hashed == self.survivors.len() {
            self.stage = CheckStage::Verifying;
            return CheckAction::Again;
        }
        let i: usize = self.survivors[self.hashed];
        assert(before.survivors[before.hashed] == i);
        match self.lookup(i, cache) {
            Some(digest) => {
                stats.cached_hashes = count_one(stats.cached_hashes);
                stats.checked_candidates = count_one(stats.checked_candidates);
                stats.hashed_files = count_one(stats.hashed_files);
                self.classes.add(digest, i);
                self.hashed = self.hashed + 1;
                assert(self@ =~= with_hash(before, digest@));
                CheckAction::Again
            },
            None => CheckAction::Hash(i),
        }
    }

    fn next_comparison(&mut self, canceled: bool, stats: &mut DuplicateScanStats) -> (r:
        CheckAction)
        requires
            old(self).wf(),
            old(self).stage == CheckStage::Verifying,
        ensures
            final(self).glimpses.wf(),
            final(self).classes.wf(),
            r == next_action(old(self)@, canceled, Map::empty()),
            final(self)@ == next_view(old(self)@, canceled, Map::empty()),
            *final(stats) == next_stats(old(self)@, *old(stats), canceled, Map::empty()),
    {
        let ghost before = self@;
        if self.class == self.classes.len() {
            return CheckAction::Done;
        }
        let len: usize = self.classes.class_len(self.class);
        if len <= 1 {
            self.class = self.class + 1;
            self.member = 0;
            return CheckAction::Again;
        }
        if !self.started {
            if canceled || self.member == len {
                self.close_class();
            } else {
                stats.verified_files = count_one(stats.verified_files);
                self.started = true;
                self.against = 0;
            }
            return CheckAction::Again;
        }
        let member: usize = self.classes.member(self.class, self.member);
        if self.against == self.representatives.len() {
            let mut group: Vec<usize> = Vec::new();
            group.push(member);
            assert(numbers(group@) =~= seq![member as int]);
            self.representatives.push(group);
            self.member = self.member + 1;
            self.started = false;
            self.against = 0;
            proof {
                assert(self@.representatives =~= before.representatives.push(
                    seq![member as int],
                ));
                assert(self@ =~= next_view(before, canceled, Map::empty()));
            }
            return CheckAction::Again;
        }
        proof {
            assert(before.representatives[before.against] == numbers(
                self.representatives@[self.against as int]@,
            ));
        }
        CheckAction::Compare(member, self.representatives[self.against][0])
    }

    fn close_class(&mut self)
        requires
            old(self).glimpses.wf(),
            old(self).classes.wf(),
            old(self).class < old(self).classes@.len(),
        ensures
            final(self).glimpses.wf(),
            final(self).classes.wf(),
            final(self)@ == with_class_closed(old(self)@),
    {
        let ghost before = self@;
        let mut taken: Vec<Vec<usize>> = Vec::new();
        std::mem::swap(&mut taken, &mut self.representatives);
        let ghost all = nested(taken@);
        let mut kept: Vec<Vec<usize>> = larger_lists(taken);
        let ghost groups = self.groups@;
        let ghost more = kept@;
        self.groups.append(&mut kept);
        let count: usize = self.classes.len();
        assert(self.class < count);
        self.class = self.class + 1;
        self.member = 0;
        self.started = false;
        self.against = 0;
        proof {
            assert(all == before.representatives);
            assert(self@.groups =~= nested(groups) + nested(more));
            assert(self@.representatives =~= Seq::<Seq<int>>::empty());
            assert(self@ =~= with_class_closed(before));
        }
    }

    /// Takes in the outcome of a quick look.
    pub fn glimpsed(&mut self, digest: Option<Digest>)
        requires
            old(self).wf(),
            old(self).stage == CheckStage::Glimpsing,
            old(self).looked < old(self).candidates@.len(),
        ensures
            final(self).wf(),
            final(self)@ == with_glimpse(old(self)@, optional_digest(digest)),
    {
        let ghost before = self@;
        proof {
            lemma_glimpse_in_range(before, optional_digest(digest));
        }
        if let Some(digest) = digest {
            self.glimpses.add(digest, self.looked);
        }
        let count: usize = self.candidates.len();
        assert(self.looked < count);
        self.looked = self.looked + 1;
        assert(self@ =~= with_glimpse(before, optional_digest(digest)));
    }

    /// Takes in the outcome of hashing a file. A file that could not be hashed
    /// is passed over; where hashing was canceled, no more files are hashed.
    pub fn hashed(
        &mut self,
        outcome: HashOutcome,
        cache: &mut DuplicateHashCache,
        stats: &mut DuplicateScanStats,
    )
        requires
            old(self).wf(),
            old(self).stage == CheckStage::Hashing,
            old(self).hashed < old(self).survivors@.len(),
            old(cache).wf(),
        ensures
            final(self).wf(),
            final(cache).wf(),
            match outcome {
                HashOutcome::Hashed(digest) => {
                    let candidate = old(self)@.candidates[old(self)@.survivors[old(self)@.hashed]];
                    &&& final(self)@ == with_hash(old(self)@, digest@)
                    &&& final(cache)@ == match candidate.cache_key {
                        Some(key) => old(cache)@.insert(key, digest@),
                        None => old(cache)@,
                    }
                    &&& *final(stats) == (DuplicateScanStats {
                        checked_candidates: counted(old(stats).checked_candidates),
                        hashed_files: counted(old(stats).hashed_files),
                        ..*old(stats)
                    })
                },
                HashOutcome::Failed => {
                    &&& final(self)@ == (CheckView {
                        hashed: old(self)@.hashed + 1,
                        ..old(self)@
                    })
                    &&& final(cache)@ == old(cache)@
                    &&& *final(stats) == (DuplicateScanStats {
                        checked_candidates: counted(old(stats).checked_candidates),
                        ..*old(stats)
                    })
                },
                HashOutcome::Canceled => {
                    &&& final(self)@ == (CheckView {
                        stage: CheckStage::Verifying,
                        ..old(self)@
                    })
                    &&& final(cache)@ == old(cache)@
                    &&& *final(stats) == *old(stats)
                },
            },
    {
        let ghost before = self@;
        let count: usize = self.survivors.len();
        assert(self.hashed < count);
        match outcome {
            HashOutcome::Hashed(digest) => {
                proof {
                    lemma_hash_in_range(before, digest@);
                }
                let i: usize = self.survivors[self.hashed];
                assert(before.survivors[before.hashed] == i);
                assert(before.candidates[i as int] == self.candidates@[i as int]@);
                if let Some(key) = copy_key(&self.candidates[i].cache_key) {
                    cache.insert(key, digest);
                }
                stats.checked_candidates = count_one(stats.checked_candidates);
                stats.hashed_files = count_one(stats.hashed_files);
                self.classes.add(digest, i);
                self.hashed = self.hashed + 1;
                assert(self@ =~= with_hash(before, digest@));
            },
            HashOutcome::Failed => {
                stats.checked_candidates = count_one(stats.checked_candidates);
                self.hashed = self.hashed + 1;
            },
            HashOutcome::Canceled => {
                self.stage = CheckStage::Verifying;
            },
        }
    }

    /// Takes in whether two files are equal.
    pub fn compared(&mut self, equal: bool)
        requires
            old(self).wf(),
            old(self).stage == CheckStage::Verifying,
            old(self).started,
            old(self).against < old(self).representatives@.len(),
        ensures
            final(self).wf(),
            final(self)@ == with_comparison(old(self)@, equal),
    {
        let ghost before = self@;
        proof {
            lemma_comparison_in_range(before, equal);
        }
        let lists: usize = self.representatives.len();
        assert(self.against < lists);
        let members: usize = self.classes.class_len(self.class);
        assert(self.member < members);
        if equal {
            let member: usize = self.classes.member(self.class, self.member);
            let at: usize = self.against;
            let ghost old_lists = self.representatives@;
            self.representatives[at].push(member);
            self.member = self.member + 1;
            self.started = false;
            self.against = 0;
            proof {
                assert(numbers(self.representatives@[at as int]@) =~= numbers(
                    old_lists[at as int]@,
                ).push(member as int));
                assert(self@.representatives =~= before.representatives.update(
                    at as int,
                    before.representatives[at as int].push(member as int),
                ));
                assert(self@ =~= with_comparison(before, equal));
            }
        } else {
            self.against = self.against + 1;
        }
    }

    /// The groups that were found, each in order.
    pub fn into_groups(self) -> (r: Vec<Vec<DuplicateFile>>)
        requires
            self.wf(),
        ensures
            r@.len() == self@.groups.len(),
            forall|k: int|
                0 <= k < r@.len() ==> is_sorted_group(
                    (#[trigger] r@[k])@,
                    self@.candidates,
                    self@.groups[k],
                ),
    {
        let mut out: Vec<Vec<DuplicateFile>> = Vec::new();
        let mut k: usize = 0;
        while k < self.groups.len()
            invariant
                self.wf(),
                k <= self.groups@.len(),
                out@.len() == k,
                forall|j: int|
                    0 <= j < k ==> is_sorted_group(
                        (#[trigger] out@[j])@,
                        self@.candidates,
                        self@.groups[j],
                    ),
            decreases self.groups@.len() - k,
        {
            let group: &Vec<usize> = &self.groups[k];
            assert(self@.groups[k as int] == numbers(group@));
            assert(below(self@.groups[k as int], self@.candidates.len() as int));
            let files: Vec<DuplicateFile> = collect_files(&self.candidates, group);
            let ghost unsorted = files@;
            let sorted: Vec<DuplicateFile> = stable_sort(files);
            assert(is_sorted_group(sorted@, self@.candidates, self@.groups[k as int])) by {
                assert(is_stable_sort(unsorted, sorted@));
            }
            out.push(sorted);
            k = k + 1;
        }
        out
    }
}

fn copy_key(key: &Option<DuplicateHashCacheKey>) -> (r: Option<DuplicateHashCacheKey>)
    ensures
        optional_key(r) == optional_key(*key),
{
    match key {
        Some(key) => Some(key.copy()),
        None => None,
    }
}

fn collect_files(candidates: &Vec<CandidateFile>, group: &Vec<usize>) -> (r: Vec<DuplicateFile>)
    requires
        below(numbers(group@), candidates@.len() as int),
    ensures
        files_view(r@) == files_at(candidates_view(candidates@), numbers(group@)),
{
    let mut files: Vec<DuplicateFile> = Vec::new();
    let mut i: usize = 0;
    while i < group.len()
        invariant
            i <= group@.len(),
            below(numbers(group@), candidates@.len() as int),
            files@.len() == i,
            forall|j: int|
                0 <= j < i ==> (#[trigger] files@[j])@ == candidates@[group@[j] as int]@.file,
        decreases group@.len() - i,
    {
        assert(numbers(group@)[i as int] == group@[i as int]);
        files.push(candidates[group[i]].to_file());
        i = i + 1;
    }
    proof {
        assert forall|j: int| 0 <= j < files@.len() implies files_view(files@)[j] == files_at(
            candidates_view(candidates@),
            numbers(group@),
        )[j] by {
            assert(numbers(group@)[j] == group@[j]);
            assert(candidates_view(candidates@)[group@[j] as int]
                == candidates@[group@[j] as int]@);
        }
        assert(files_view(files@) =~= files_at(candidates_view(candidates@), numbers(group@)));
    }
    files
}

/// The lists with more than one entry.
fn larger_lists(lists: Vec<Vec<usize>>) -> (r: Vec<Vec<usize>>)
    ensures
        nested(r@) == larger(nested(lists@)),
{
    let ghost all = nested(lists@);
    let ghost p = |g: Seq<int>| g.len() > 1;
    let mut out: Vec<Vec<usize>> = Vec::new();
    let mut i: usize = 0;
    proof {
        reveal(Seq::filter);
        assert(all.take(0).filter(p) =~= Seq::<Seq<int>>::empty());
        assert(nested(out@) =~= Seq::<Seq<int>>::empty());
    }
    while i < lists.len()
        invariant
            i <= lists@.len(),
            all == nested(lists@),
            p == (|g: Seq<int>| g.len() > 1),
            nested(out@) == all.take(i as int).filter(p),
        decreases lists@.len() - i,
    {
        let ghost before = nested(out@);
        proof {
            reveal(Seq::filter);
            assert(all.take(i + 1).drop_last() =~= all.take(i as int));
            assert(all.take(i + 1).last() == numbers(lists@[i as int]@));
        }
        if lists[i].len() > 1 {
            let copy: Vec<usize> = vstd::slice::slice_to_vec(lists[i].as_slice());
            out.push(copy);
            assert(nested(out@) =~= before.push(numbers(lists@[i as int]@)));
        }
        i = i + 1;
    }
    assert(all.take(i as int) =~= all);
    out
}

} // verus!
