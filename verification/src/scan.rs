//! The course of a search for duplicates once the files are known.
//!
//! Files of one size are checked in turn, and what is found is handed on in
//! batches. Reading files and handing batches on is left to the caller: a search
//! says what to do next and is told how it went.

use crate::batches::{
    is_due, DuplicateBatchEmitter, DuplicateScanBatch, DUPLICATE_BATCH_GROUP_SIZE,
};
use crate::check::{
    below, counted, files_at, fresh_check, is_sorted_group, next_action, next_stats, next_view,
    with_comparison, with_glimpse, with_hash, BucketCheck, CheckAction, CheckStage, CheckView,
    HashOutcome,
};
use crate::digest::{optional_digest, Digest};
use crate::duplicates::{
    breath_after, breathe_after_node, candidates_view, files_view, groups_view, reclaimable,
    sort_duplicate_groups, Breath, Bucket, CacheKeyView, CandidateFile, CandidateView,
    DuplicateFile, DuplicateGroup, DuplicateGroupView, DuplicateScanPhase, DuplicateScanStats,
    HASH_SLEEP_CHUNKS, HASH_YIELD_CHUNKS, SCAN_SLEEP_NODES, SCAN_YIELD_NODES,
};
use crate::file_reading::FileHashing;
use crate::hash_cache::DuplicateHashCache;
use crate::order::{is_stable_sort, stable_sort};
use crate::path::FilePath;
use crate::size_groups::{
    are_shared_sizes, lemma_of_size_members, lemma_shared_sizes_bounded, lemma_total_len_sorted,
    of_size, total_len,
};
use crate::walk::Walk;
use vstd::multiset::Multiset;
use vstd::prelude::*;

verus! {

#[derive(Clone, Copy, PartialEq, Eq, Structural, Debug)]
pub enum ScanStage {
    /// The files are sorted out, which is not announced yet.
    Grouped,
    /// It is announced that the files are sorted out.
    AnnouncedGrouped,
    /// Checking is about to begin, which is not announced yet.
    Ready,
    /// It is announced that checking begins.
    AnnouncedReady,
    /// Between the files of one size and those of the next.
    Between,
    /// Files of one size are being checked.
    Checking,
    /// Files that were found equal become groups.
    Collecting,
    /// A batch was handed on while groups are collected.
    Delivered,
    /// The last batch was handed on.
    DeliveredLast,
    Finished,
}

/// What to do next.
#[derive(Debug)]
pub enum ScanAction {
    /// Nothing: ask again.
    Again,
    /// Hand a batch on, and say whether it was taken.
    Emit(DuplicateScanBatch),
    /// Pause, then take a quick look at a file.
    Glimpse(FilePath, u64, Breath),
    /// Hash a file.
    Hash(FilePath),
    /// Compare two files.
    Compare(FilePath, FilePath),
    /// Nothing more.
    Done,
}

/// What a search found.
#[derive(Debug)]
pub struct DuplicateScanResult {
    pub groups: Vec<DuplicateGroup>,
    pub stats: DuplicateScanStats,
}

pub struct DuplicateScan {
    pub stage: ScanStage,
    pub stats: DuplicateScanStats,
    /// The files that are still to be checked, the next ones last.
    pub waiting: Vec<Bucket>,
    /// The check that is going on.
    pub check: Option<BucketCheck>,
    /// Files that were found equal and are no group yet, the next ones last.
    pub equal: Vec<Vec<DuplicateFile>>,
    pub groups: Vec<DuplicateGroup>,
    pub next_id: u64,
    pub emitter: DuplicateBatchEmitter,
    /// The groups that were handed on in batches.
    pub delivered: Ghost<Multiset<DuplicateGroupView>>,
}

/// Whether equal files make a group: several of one size.
pub open spec fn makes_group(files: Seq<DuplicateFile>) -> bool {
    &&& files.len() > 1
    &&& forall|i: int| 0 <= i < files.len() ==> (#[trigger] files[i]).size == files[0].size
}

/// Whether a group is one: several files of its size.
pub open spec fn is_group(group: DuplicateGroup) -> bool {
    &&& makes_group(group.files@)
    &&& group.files@[0].size == group.size
}

pub open spec fn of_one_size(files: Seq<CandidateFile>) -> bool {
    forall|i: int| 0 <= i < files.len() ==> (#[trigger] files[i]).size == files[0].size
}

/// The multiset of what a list of groups shows.
pub open spec fn shown(groups: Seq<DuplicateGroup>) -> Multiset<DuplicateGroupView> {
    groups_view(groups).to_multiset()
}

/// Lists with the same values come to the same when every value is mapped.
pub proof fn lemma_map_multiset<A, B>(a: Seq<A>, b: Seq<A>, f: spec_fn(A) -> B)
    requires
        a.to_multiset() == b.to_multiset(),
    ensures
        a.map_values(f).to_multiset() == b.map_values(f).to_multiset(),
    decreases a.len(),
{
    broadcast use vstd::seq_lib::group_to_multiset_ensures;

    assert(a.to_multiset().len() == a.len());
    assert(b.to_multiset().len() == b.len());
    if a.len() == 0 {
        assert(a.map_values(f) =~= b.map_values(f));
    } else {
        let x = a.last();
        assert(a.contains(x));
        assert(a.to_multiset().count(x) > 0);
        assert(b.contains(x));
        let i = choose|i: int| 0 <= i < b.len() && b[i] == x;
        let c = b.remove(i);
        assert(a.drop_last().push(x) =~= a);
        assert(a.to_multiset() =~= a.drop_last().to_multiset().insert(x));
        assert(b.remove(i).to_multiset() == b.to_multiset().remove(b[i]));
        assert(b.to_multiset() =~= c.to_multiset().insert(x));
        assert(a.drop_last().to_multiset() =~= c.to_multiset());
        lemma_map_multiset(a.drop_last(), c, f);
        assert(a.map_values(f) =~= a.drop_last().map_values(f).push(f(x)));
        assert(b.map_values(f).remove(i) =~= c.map_values(f));
        assert(b.map_values(f).remove(i).to_multiset() == b.map_values(f).to_multiset().remove(f(x)));
        assert(b.map_values(f).to_multiset() =~= c.map_values(f).to_multiset().insert(f(x)));
    }
}

/// Sorting groups changes nothing of what they show together.
proof fn lemma_sorting_keeps_shown(before: Seq<DuplicateGroup>, after: Seq<DuplicateGroup>)
    requires
        before.to_multiset() == after.to_multiset(),
    ensures
        shown(before) == shown(after),
{
    lemma_map_multiset(before, after, |g: DuplicateGroup| g@);
}

proof fn lemma_shown_push(groups: Seq<DuplicateGroup>, group: DuplicateGroup)
    ensures
        shown(groups.push(group)) == shown(groups).insert(group@),
{
    broadcast use vstd::seq_lib::group_to_multiset_ensures;

    assert(groups_view(groups.push(group)) =~= groups_view(groups).push(group@));
}

fn count_files(buckets: &Vec<Bucket>) -> (r: usize)
    requires
        total_len(buckets@) <= usize::MAX,
    ensures
        r == total_len(buckets@),
{
    let mut total: usize = 0;
    let mut i: usize = 0;
    assert(buckets@.take(0) =~= Seq::<Bucket>::empty());
    while i < buckets.len()
        invariant
            i <= buckets@.len(),
            total_len(buckets@) <= usize::MAX,
            total == total_len(buckets@.take(i as int)),
        decreases buckets@.len() - i,
    {
        proof {
            assert(buckets@.take(i + 1).drop_last() =~= buckets@.take(i as int));
            lemma_total_len_take(buckets@, i + 1);
        }
        total = total + buckets[i].files.len();
        i = i + 1;
    }
    assert(buckets@.take(i as int) =~= buckets@);
    total
}

proof fn lemma_total_len_take(buckets: Seq<Bucket>, n: int)
    requires
        0 <= n <= buckets.len(),
    ensures
        total_len(buckets.take(n)) <= total_len(buckets),
    decreases buckets.len(),
{
    if n < buckets.len() {
        lemma_total_len_take(buckets.drop_last(), n);
        assert(buckets.drop_last().take(n) =~= buckets.take(n));
    } else {
        assert(buckets.take(n) =~= buckets);
    }
}

fn reversed<T>(items: Vec<T>) -> (r: Vec<T>)
    ensures
        r@ == items@.reverse(),
{
    let ghost all = items@;
    let mut left: Vec<T> = items;
    let mut out: Vec<T> = Vec::new();
    while left.len() > 0
        invariant
            left@ == all.take(left@.len() as int),
            left@.len() <= all.len(),
            out@ == all.skip(left@.len() as int).reverse(),
        decreases left@.len(),
    {
        let ghost n = left@.len() - 1;
        if let Some(item) = left.pop() {
            out.push(item);
        }
        assert(left@ =~= all.take(n));
        assert(out@ =~= all.skip(n).reverse());
    }
    assert(all.skip(0) =~= all);
    out
}

impl DuplicateScan {
    /// The files that are still to be checked, the next ones first.
    pub open spec fn upcoming(&self) -> Seq<Bucket> {
        self.waiting@.reverse()
    }

    /// What is known of the files and groups at every stage.
    pub open spec fn holds_groups(&self) -> bool {
        &&& forall|i: int|
            0 <= i < self.waiting@.len() ==> of_one_size((#[trigger] self.waiting@[i]).files@)
        &&& forall|i: int| 0 <= i < self.equal@.len() ==> makes_group((#[trigger] self.equal@[i])@)
        &&& forall|i: int| 0 <= i < self.groups@.len() ==> is_group(#[trigger] self.groups@[i])
        &&& self.delivered@.add(shown(self.emitter.pending@)) == shown(self.groups@)
        &&& self.emitter.pending@.len() < DUPLICATE_BATCH_GROUP_SIZE
    }

    /// Groups have several files of one size, and every one of them was handed on
    /// in a batch or is waiting for the next.
    pub open spec fn wf(&self) -> bool {
        &&& self.holds_groups()
        &&& self.check is Some <==> self.stage == ScanStage::Checking
        &&& self.check is Some ==> self.check->0.wf() && of_one_size(self.check->0.candidates@)
        &&& self.stage == ScanStage::Collecting || self.stage == ScanStage::Delivered || self.stage
            == ScanStage::Finished || self.equal@.len() == 0
        &&& self.stage == ScanStage::Between || self.stage == ScanStage::Checking || self.stage
            == ScanStage::Collecting || self.emitter.pending@.len() == 0
        &&& self.stage == ScanStage::Grouped ==> self.stats.phase
            == DuplicateScanPhase::SizeGrouping && self.emitter.last_phase
            == DuplicateScanPhase::Walking
        &&& self.stage == ScanStage::AnnouncedGrouped ==> self.stats.phase
            == DuplicateScanPhase::SizeGrouping && self.emitter.last_phase
            == DuplicateScanPhase::SizeGrouping
        &&& self.stage == ScanStage::Ready ==> self.stats.phase != self.emitter.last_phase
        &&& self.stats.phase == DuplicateScanPhase::Complete ==> self.stage
            == ScanStage::DeliveredLast || self.stage == ScanStage::Finished
    }

    /// Begins to check what a walk has found.
    pub fn new(walk: Walk) -> (r: DuplicateScan)
        requires
            walk.wf(),
        ensures
            r.wf(),
            r.stage == ScanStage::Grouped,
            exists|buckets: Seq<Bucket>| #[trigger]
                are_shared_sizes(buckets, walk@.found) && is_stable_sort(buckets, r.upcoming())
                    && r.stats == (DuplicateScanStats {
                    phase: DuplicateScanPhase::SizeGrouping,
                    candidate_files: total_len(buckets) as usize,
                    ..walk@.stats
                }),
            r.stats.candidate_files == total_len(r.waiting@),
            r.stats.checked_candidates == 0,
            r.stats.groups == 0,
            r.stats.duplicate_bytes == 0,
            forall|i: int|
                0 <= i < r.waiting@.len() ==> (#[trigger] r.waiting@[i]).files@.len() > 1,
            r.groups@.len() == 0,
            r.equal@.len() == 0,
            r.next_id == 1,
            r.emitter.pending@.len() == 0,
            r.emitter.last_emit is None,
            r.delivered@ == Multiset::<DuplicateGroupView>::empty(),
    {
        let ghost found = walk@.found;
        let (buckets, walked): (Vec<Bucket>, DuplicateScanStats) = walk.finish();
        proof {
            lemma_shared_sizes_bounded(buckets@, found);
        }
        let ghost unsorted = buckets@;
        let mut stats: DuplicateScanStats = walked;
        stats.phase = DuplicateScanPhase::SizeGrouping;
        stats.candidate_files = count_files(&buckets);
        let sorted: Vec<Bucket> = stable_sort(buckets);
        let ghost order = sorted@;
        let waiting: Vec<Bucket> = reversed(sorted);
        let scan: DuplicateScan = DuplicateScan {
            stage: ScanStage::Grouped,
            stats,
            waiting,
            check: None,
            equal: Vec::new(),
            groups: Vec::new(),
            next_id: 1,
            emitter: DuplicateBatchEmitter::new(),
            delivered: Ghost(Multiset::empty()),
        };
        proof {
            assert(scan.upcoming() =~= order);
            assert(are_shared_sizes(unsorted, found) && is_stable_sort(unsorted, scan.upcoming()));
            lemma_nothing_shown(scan.groups@);
            lemma_nothing_shown(scan.emitter.pending@);
            assert(scan.delivered@.add(shown(scan.emitter.pending@)) =~= shown(scan.groups@));
            assert forall|i: int| 0 <= i < scan.waiting@.len() implies of_one_size(
                (#[trigger] scan.waiting@[i]).files@,
            ) by {
                lemma_sorted_bucket(unsorted, order, found, scan.waiting@.len() - 1 - i);
            }
            assert forall|i: int| 0 <= i < scan.waiting@.len() implies (
            #[trigger] scan.waiting@[i]).files@.len() > 1 by {
                lemma_sorted_bucket(unsorted, order, found, scan.waiting@.len() - 1 - i);
            }
            scan.waiting@.lemma_reverse_to_multiset();
            lemma_total_len_sorted(scan.waiting@, unsorted);
        }
        scan
    }
}

/// Whether what two searches have still to do and have found is the same.
pub open spec fn same_work(a: DuplicateScan, b: DuplicateScan) -> bool {
    &&& a.waiting == b.waiting
    &&& a.check == b.check
    &&& a.equal == b.equal
    &&& a.groups == b.groups
    &&& a.next_id == b.next_id
}

/// Whether nothing was handed on or collected.
pub open spec fn same_delivery(a: DuplicateScan, b: DuplicateScan) -> bool {
    &&& a.emitter == b.emitter
    &&& a.delivered == b.delivered
}

/// An announcement: an empty batch with the numbers so far.
pub open spec fn announced(
    before: DuplicateScan,
    after: DuplicateScan,
    now: u64,
    action: ScanAction,
) -> bool {
    &&& same_work(before, after)
    &&& after.stats == before.stats
    &&& after.delivered == before.delivered
    &&& after.emitter.pending == before.emitter.pending
    &&& after.emitter.last_emit == Some(now)
    &&& after.emitter.last_phase == before.stats.phase
    &&& action matches ScanAction::Emit(batch) && batch.groups@.len() == 0 && batch.stats
        == before.stats
}

/// Going on to the files of the next size, or ending the search where there are
/// none or it was canceled.
pub open spec fn went_on(
    before: DuplicateScan,
    after: DuplicateScan,
    canceled: bool,
    now: u64,
    action: ScanAction,
) -> bool {
    if canceled || before.waiting@.len() == 0 {
        let stats = DuplicateScanStats { phase: DuplicateScanPhase::Complete, ..before.stats };
        &&& after.stats == stats
        &&& after.waiting == before.waiting
        &&& after.equal == before.equal
        &&& after.next_id == before.next_id
        &&& if before.emitter.pending@.len() == 0 {
            &&& after.stage == ScanStage::Finished
            &&& action is Again
            &&& is_stable_sort(before.groups@, after.groups@)
            &&& same_delivery(before, after)
        } else {
            &&& after.stage == ScanStage::DeliveredLast
            &&& action matches ScanAction::Emit(batch) && batch.stats == stats && is_stable_sort(
                before.emitter.pending@,
                batch.groups@,
            )
            &&& after.groups == before.groups
            &&& after.emitter.pending@.len() == 0
            &&& after.emitter.last_emit == Some(now)
            &&& after.emitter.last_phase == DuplicateScanPhase::Complete
            &&& after.delivered@ == before.delivered@.add(shown(before.emitter.pending@))
        }
    } else {
        let bucket = before.waiting@.last();
        &&& action is Again
        &&& after.stats == before.stats
        &&& after.waiting@ == before.waiting@.drop_last()
        &&& after.equal == before.equal
        &&& after.groups == before.groups
        &&& after.next_id == before.next_id
        &&& same_delivery(before, after)
        &&& if bucket.files@.len() < 2 {
            after.stage == ScanStage::Between && after.check is None
        } else {
            &&& after.stage == ScanStage::Checking
            &&& after.check is Some
            &&& after.check->0@ == fresh_check(bucket@)
        }
    }
}

/// Going on with a check.
pub open spec fn checked(
    before: DuplicateScan,
    after: DuplicateScan,
    canceled: bool,
    cache: Map<CacheKeyView, Seq<u8>>,
    action: ScanAction,
) -> bool {
    let v = before.check->0@;
    &&& after.stats == next_stats(v, before.stats, canceled, cache)
    &&& after.waiting == before.waiting
    &&& after.groups == before.groups
    &&& after.next_id == before.next_id
    &&& same_delivery(before, after)
    &&& match next_action(v, canceled, cache) {
        CheckAction::Done => {
            &&& action is Again
            &&& after.stage == ScanStage::Collecting
            &&& after.check is None
            &&& after.equal@.len() == v.groups.len()
            &&& forall|k: int|
                0 <= k < v.groups.len() ==> is_sorted_group(
                    (#[trigger] after.equal@[k])@,
                    v.candidates,
                    v.groups[v.groups.len() - 1 - k],
                )
        },
        wanted => {
            &&& after.stage == ScanStage::Checking
            &&& after.equal == before.equal
            &&& after.check is Some
            &&& after.check->0@ == next_view(v, canceled, cache)
            &&& match (wanted, action) {
                (CheckAction::Again, ScanAction::Again) => true,
                (CheckAction::Glimpse(i), ScanAction::Glimpse(path, size, breath)) => {
                    &&& path@ == v.candidates[i as int].file.path
                    &&& size == v.candidates[i as int].file.size
                    &&& breath == breath_after(
                        i + 1,
                        SCAN_SLEEP_NODES as int,
                        SCAN_YIELD_NODES as int,
                    )
                },
                (CheckAction::Hash(i), ScanAction::Hash(path)) => path@
                    == v.candidates[i as int].file.path,
                (CheckAction::Compare(i, j), ScanAction::Compare(left, right)) => left@
                    == v.candidates[i as int].file.path && right@
                    == v.candidates[j as int].file.path,
                _ => false,
            }
        },
    }
}

/// The numbers with one more group.
pub open spec fn with_group(stats: DuplicateScanStats, group: DuplicateGroupView) ->
    DuplicateScanStats {
    DuplicateScanStats {
        groups: counted(stats.groups),
        duplicate_bytes: if stats.duplicate_bytes + reclaimable(group) <= u64::MAX {
            (stats.duplicate_bytes + reclaimable(group)) as u64
        } else {
            u64::MAX
        },
        ..stats
    }
}

/// Whether a batch holds what was collected and one more group, in order.
pub open spec fn is_batch_with(
    batch: Seq<DuplicateGroup>,
    pending: Seq<DuplicateGroup>,
    group: DuplicateGroup,
) -> bool {
    exists|copy: DuplicateGroup|
        copy@ == group@ && #[trigger] is_stable_sort(pending.push(copy), batch)
}

/// Making a group of equal files.
pub open spec fn collected(
    before: DuplicateScan,
    after: DuplicateScan,
    now: u64,
    action: ScanAction,
) -> bool {
    &&& after.waiting == before.waiting
    &&& after.check == before.check
    &&& if before.equal@.len() == 0 {
        &&& action is Again
        &&& after.stage == ScanStage::Between
        &&& after.stats == before.stats
        &&& same_work(before, after)
        &&& same_delivery(before, after)
    } else {
        let files = before.equal@.last();
        let group = DuplicateGroup { id: before.next_id, size: files@[0].size, files };
        let stats = with_group(before.stats, group@);
        &&& after.equal@ == before.equal@.drop_last()
        &&& after.groups@ == before.groups@.push(group)
        &&& after.next_id == if before.next_id < u64::MAX {
            before.next_id + 1
        } else {
            0
        }
        &&& after.stats == stats
        &&& if before.emitter.pending@.len() + 1 >= DUPLICATE_BATCH_GROUP_SIZE
            || is_due(before.emitter.last_emit, now) {
            &&& after.stage == ScanStage::Delivered
            &&& action matches ScanAction::Emit(batch) && batch.stats == stats
                && is_batch_with(batch.groups@, before.emitter.pending@, group)
            &&& after.emitter.pending@.len() == 0
            &&& after.emitter.last_emit == Some(now)
            &&& after.emitter.last_phase == stats.phase
            &&& after.delivered@ == before.delivered@.add(
                shown(before.emitter.pending@).insert(group@),
            )
        } else {
            &&& after.stage == ScanStage::Collecting
            &&& action is Again
            &&& groups_view(after.emitter.pending@) == groups_view(before.emitter.pending@).push(
                group@,
            )
            &&& after.emitter.last_emit == before.emitter.last_emit
            &&& after.emitter.last_phase == before.emitter.last_phase
            &&& after.delivered == before.delivered
        }
    }
}

/// One step of a search.
pub open spec fn stepped(
    before: DuplicateScan,
    after: DuplicateScan,
    canceled: bool,
    now: u64,
    cache: Map<CacheKeyView, Seq<u8>>,
    action: ScanAction,
) -> bool {
    match before.stage {
        ScanStage::Grouped => after.stage == ScanStage::AnnouncedGrouped && announced(
            before,
            after,
            now,
            action,
        ),
        ScanStage::Ready => after.stage == ScanStage::AnnouncedReady && announced(
            before,
            after,
            now,
            action,
        ),
        ScanStage::Between => went_on(before, after, canceled, now, action),
        ScanStage::Checking => checked(before, after, canceled, cache, action),
        ScanStage::Collecting => collected(before, after, now, action),
        ScanStage::Finished => action is Done && after == before,
        _ => action is Again && after == before,
    }
}

/// The end of a search, with what was found in order.
pub open spec fn ended(before: DuplicateScan, after: DuplicateScan) -> bool {
    &&& after.stage == ScanStage::Finished
    &&& is_stable_sort(before.groups@, after.groups@)
    &&& after.stats == before.stats
    &&& after.waiting == before.waiting
    &&& after.equal == before.equal
    &&& after.next_id == before.next_id
    &&& same_delivery(before, after)
}

/// Taking in whether a batch was taken.
pub open spec fn took_in_batch(before: DuplicateScan, after: DuplicateScan, taken: bool) -> bool {
    match before.stage {
        ScanStage::AnnouncedGrouped => if taken {
            after == (DuplicateScan {
                stage: ScanStage::Ready,
                stats: DuplicateScanStats {
                    phase: DuplicateScanPhase::ContentChecking,
                    ..before.stats
                },
                ..before
            })
        } else {
            ended(before, after)
        },
        ScanStage::AnnouncedReady => if taken {
            after == (DuplicateScan { stage: ScanStage::Between, ..before })
        } else {
            ended(before, after)
        },
        ScanStage::Delivered => if taken {
            after == (DuplicateScan { stage: ScanStage::Collecting, ..before })
        } else {
            ended(before, after)
        },
        ScanStage::DeliveredLast => ended(before, after),
        _ => after == before,
    }
}

impl DuplicateScan {
    /// Says what to do next. While a batch is on its way there is nothing to do
    /// until `accepted` tells whether it was taken.
    pub fn step(&mut self, canceled: bool, now: u64, cache: &DuplicateHashCache) -> (r: ScanAction)
        requires
            old(self).wf(),
            cache.wf(),
        ensures
            final(self).wf(),
            stepped(*old(self), *final(self), canceled, now, cache@, r),
    {
        match self.stage {
            ScanStage::Grouped => {
                self.stage = ScanStage::AnnouncedGrouped;
                self.announce(now)
            },
            ScanStage::Ready => {
                self.stage = ScanStage::AnnouncedReady;
                self.announce(now)
            },
            ScanStage::Between => self.go_on(canceled, now),
            ScanStage::Checking => self.check_on(canceled, cache),
            ScanStage::Collecting => self.collect(now),
            ScanStage::Finished => ScanAction::Done,
            _ => ScanAction::Again,
        }
    }

    fn announce(&mut self, now: u64) -> (r: ScanAction)
        requires
            old(self).stats.phase != old(self).emitter.last_phase,
        ensures
            final(self).stage == old(self).stage,
            announced(*old(self), *final(self), now, r),
    {
        match self.emitter.emit_progress(self.stats, now) {
            Some(batch) => ScanAction::Emit(batch),
            None => ScanAction::Again,
        }
    }

    fn sort_groups(&mut self)
        ensures
            is_stable_sort(old(self).groups@, final(self).groups@),
            *final(self) == (DuplicateScan { groups: final(self).groups, ..*old(self) }),
    {
        sort_duplicate_groups(&mut self.groups);
    }

    fn finish(&mut self)
        requires
            old(self).holds_groups(),
            old(self).emitter.pending@.len() == 0,
        ensures
            final(self).stage == ScanStage::Finished,
            final(self).check is None,
            final(self).next_id == old(self).next_id,
            is_stable_sort(old(self).groups@, final(self).groups@),
            final(self).stats == old(self).stats,
            final(self).waiting == old(self).waiting,
            final(self).equal == old(self).equal,
            same_delivery(*old(self), *final(self)),
            final(self).wf(),
    {
        let ghost before = self.groups@;
        self.stage = ScanStage::Finished;
        self.check = None;
        self.sort_groups();
        proof {
            lemma_sorting_keeps_shown(before, self.groups@);
            assert forall|i: int| 0 <= i < self.groups@.len() implies is_group(
                #[trigger] self.groups@[i],
            ) by {
                lemma_sorted_member(before, self.groups@, i);
            }
        }
    }

    fn go_on(&mut self, canceled: bool, now: u64) -> (r: ScanAction)
        requires
            old(self).wf(),
            old(self).stage == ScanStage::Between,
        ensures
            final(self).wf(),
            went_on(*old(self), *final(self), canceled, now, r),
    {
        let ghost before = *self;
        if canceled || self.waiting.len() == 0 {
            self.stats.phase = DuplicateScanPhase::Complete;
            let ghost pending = self.emitter.pending@;
            match self.emitter.flush(self.stats, now) {
                Some(batch) => {
                    self.stage = ScanStage::DeliveredLast;
                    self.delivered = Ghost(before.delivered@.add(shown(pending)));
                    proof {
                        lemma_nothing_shown(self.emitter.pending@);
                        assert(self.delivered@.add(shown(self.emitter.pending@)) =~= shown(
                            self.groups@,
                        ));
                    }
                    return ScanAction::Emit(batch);
                },
                None => {
                    self.finish();
                    return ScanAction::Again;
                },
            }
        }
        if let Some(bucket) = self.waiting.pop() {
            proof {
                assert(bucket == before.waiting@[before.waiting@.len() - 1]);
                assert forall|i: int| 0 <= i < self.waiting@.len() implies of_one_size(
                    (#[trigger] self.waiting@[i]).files@,
                ) by {
                    assert(self.waiting@[i] == before.waiting@[i]);
                }
            }
            if bucket.files.len() >= 2 {
                let ghost files = bucket.files@;
                let check: BucketCheck = BucketCheck::new(bucket.files);
                proof {
                    assert(check@.candidates == candidates_view(files));
                    assert forall|i: int| 0 <= i < check.candidates@.len() implies (
                    #[trigger] check.candidates@[i]).size == check.candidates@[0].size by {
                        assert(candidates_view(check.candidates@)[i] == check.candidates@[i]@);
                        assert(candidates_view(check.candidates@)[0] == check.candidates@[0]@);
                        assert(candidates_view(files)[i] == files[i]@);
                        assert(candidates_view(files)[0] == files[0]@);
                        assert(files[i].size == files[0].size);
                    }
                }
                self.check = Some(check);
                self.stage = ScanStage::Checking;
            }
        }
        ScanAction::Again
    }

    fn check_on(&mut self, canceled: bool, cache: &DuplicateHashCache) -> (r: ScanAction)
        requires
            old(self).wf(),
            old(self).stage == ScanStage::Checking,
            cache.wf(),
        ensures
            final(self).wf(),
            checked(*old(self), *final(self), canceled, cache@, r),
    {
        let ghost before = *self;
        let mut taken: Option<BucketCheck> = None;
        std::mem::swap(&mut taken, &mut self.check);
        let mut check: BucketCheck = match taken {
            Some(check) => check,
            None => return ScanAction::Done,
        };
        let ghost v = check@;
        let wanted: CheckAction = check.next(canceled, cache, &mut self.stats);
        proof {
            lemma_same_candidates(before.check->0, check);
        }
        match wanted {
            CheckAction::Done => {
                self.stage = ScanStage::Collecting;
                let found: Vec<Vec<DuplicateFile>> = check.into_groups();
                let ghost order = found@;
                self.equal = reversed(found);
                proof {
                    assert(check@ == v);
                    assert forall|k: int| 0 <= k < self.equal@.len() implies makes_group(
                        (#[trigger] self.equal@[k])@,
                    ) && is_sorted_group(
                        self.equal@[k]@,
                        v.candidates,
                        v.groups[v.groups.len() - 1 - k],
                    ) by {
                        let l = v.groups.len() - 1 - k;
                        assert(self.equal@[k] == order[l]);
                        assert(is_sorted_group(order[l]@, v.candidates, v.groups[l]));
                        lemma_group_of_one_size(check, self.equal@[k]@, l);
                    }
                }
                ScanAction::Again
            },
            CheckAction::Again => {
                self.check = Some(check);
                ScanAction::Again
            },
            CheckAction::Glimpse(i) => {
                let count: usize = check.candidates.len();
                assert(i < count);
                let candidate: &CandidateFile = &check.candidates[i];
                assert(check@.candidates[i as int] == candidate@);
                let action: ScanAction = ScanAction::Glimpse(
                    candidate.path.copy(),
                    candidate.size,
                    breathe_after_node(i + 1),
                );
                self.check = Some(check);
                action
            },
            CheckAction::Hash(i) => {
                let candidate: &CandidateFile = &check.candidates[i];
                assert(check@.candidates[i as int] == candidate@);
                let action: ScanAction = ScanAction::Hash(candidate.path.copy());
                self.check = Some(check);
                action
            },
            CheckAction::Compare(i, j) => {
                proof {
                    lemma_compared_in_range(v);
                }
                let left: &CandidateFile = &check.candidates[i];
                let right: &CandidateFile = &check.candidates[j];
                assert(check@.candidates[i as int] == left@);
                assert(check@.candidates[j as int] == right@);
                let action: ScanAction = ScanAction::Compare(left.path.copy(), right.path.copy());
                self.check = Some(check);
                action
            },
        }
    }

    fn collect(&mut self, now: u64) -> (r: ScanAction)
        requires
            old(self).wf(),
            old(self).stage == ScanStage::Collecting,
        ensures
            final(self).wf(),
            collected(*old(self), *final(self), now, r),
    {
        let ghost before = *self;
        if self.equal.len() == 0 {
            self.stage = ScanStage::Between;
            return ScanAction::Again;
        }
        match self.equal.pop() {
            None => ScanAction::Again,
            Some(files) => {
                proof {
                    assert(files == before.equal@[before.equal@.len() - 1]);
                    assert forall|i: int| 0 <= i < self.equal@.len() implies makes_group(
                        (#[trigger] self.equal@[i])@,
                    ) by {
                        assert(self.equal@[i] == before.equal@[i]);
                    }
                }
                let size: u64 = files[0].size;
                let group: DuplicateGroup = DuplicateGroup { id: self.next_id, size, files };
                self.next_id = if self.next_id < u64::MAX {
                    self.next_id + 1
                } else {
                    0
                };
                self.stats.groups = if self.stats.groups < usize::MAX {
                    self.stats.groups + 1
                } else {
                    self.stats.groups
                };
                self.stats.duplicate_bytes = match self.stats.duplicate_bytes.checked_add(
                    group.duplicate_bytes(),
                ) {
                    Some(sum) => sum,
                    None => u64::MAX,
                };
                let copy: DuplicateGroup = group.copy();
                let ghost pending = self.emitter.pending@;
                let ghost sent = pending.push(copy);
                let batch: Option<DuplicateScanBatch> = self.emitter.push(copy, self.stats, now);
                self.groups.push(group);
                proof {
                    lemma_shown_push(before.groups@, group);
                    lemma_shown_push(pending, copy);
                }
                match batch {
                    Some(batch) => {
                        self.stage = ScanStage::Delivered;
                        self.delivered = Ghost(before.delivered@.add(shown(sent)));
                        proof {
                            assert(copy@ == group@ && is_stable_sort(
                                pending.push(copy),
                                batch.groups@,
                            ));
                            lemma_sorting_keeps_shown(sent, batch.groups@);
                            lemma_nothing_shown(self.emitter.pending@);
                            assert(self.delivered@.add(shown(self.emitter.pending@)) =~= shown(
                                self.groups@,
                            ));
                        }
                        ScanAction::Emit(batch)
                    },
                    None => {
                        proof {
                            assert(groups_view(sent) =~= groups_view(pending).push(group@));
                            assert(self.delivered@.add(shown(self.emitter.pending@)) =~= shown(
                                self.groups@,
                            ));
                        }
                        ScanAction::Again
                    },
                }
            },
        }
    }

    /// Takes in whether a batch was taken. Where one was not, the search ends,
    /// with what was found in order.
    pub fn accepted(&mut self, taken: bool)
        requires
            old(self).wf(),
        ensures
            final(self).wf(),
            took_in_batch(*old(self), *final(self), taken),
    {
        match self.stage {
            ScanStage::AnnouncedGrouped => if taken {
                self.stage = ScanStage::Ready;
                self.stats.phase = DuplicateScanPhase::ContentChecking;
            } else {
                self.finish();
            },
            ScanStage::AnnouncedReady => if taken {
                self.stage = ScanStage::Between;
            } else {
                self.finish();
            },
            ScanStage::Delivered => if taken {
                self.stage = ScanStage::Collecting;
            } else {
                self.finish();
            },
            ScanStage::DeliveredLast => self.finish(),
            _ => {},
        }
    }
}

/// Whether a check waits for a quick look at a file.
pub open spec fn awaits_glimpse(scan: DuplicateScan) -> bool {
    scan.check is Some && scan.check->0.stage == CheckStage::Glimpsing && scan.check->0.looked
        < scan.check->0.candidates@.len()
}

/// Whether a check waits for the digest of a file.
pub open spec fn awaits_hash(scan: DuplicateScan) -> bool {
    scan.check is Some && scan.check->0.stage == CheckStage::Hashing && scan.check->0.hashed
        < scan.check->0.survivors@.len()
}

/// Whether a check waits for a comparison.
pub open spec fn awaits_comparison(scan: DuplicateScan) -> bool {
    scan.check is Some && scan.check->0.stage == CheckStage::Verifying && scan.check->0.started
        && scan.check->0.against < scan.check->0.representatives@.len()
}

/// Whether only the check of a search differs.
pub open spec fn same_but_check(a: DuplicateScan, b: DuplicateScan) -> bool {
    b == (DuplicateScan { check: b.check, ..a }) && (a.check is Some <==> b.check is Some)
}

/// Taking in the outcome of a quick look.
pub open spec fn took_in_glimpse(
    before: DuplicateScan,
    after: DuplicateScan,
    digest: Option<Seq<u8>>,
) -> bool {
    if awaits_glimpse(before) {
        &&& same_but_check(before, after)
        &&& after.check->0@ == with_glimpse(before.check->0@, digest)
    } else {
        after == before
    }
}

/// Taking in the outcome of hashing a file.
pub open spec fn took_in_hash(
    before: DuplicateScan,
    after: DuplicateScan,
    outcome: HashOutcome,
) -> bool {
    if awaits_hash(before) {
        let v = before.check->0@;
        &&& after == (DuplicateScan { check: after.check, stats: after.stats, ..before })
        &&& after.check is Some
        &&& match outcome {
            HashOutcome::Hashed(digest) => {
                &&& after.check->0@ == with_hash(v, digest@)
                &&& after.stats == (DuplicateScanStats {
                    checked_candidates: counted(before.stats.checked_candidates),
                    hashed_files: counted(before.stats.hashed_files),
                    ..before.stats
                })
            },
            HashOutcome::Failed => {
                &&& after.check->0@ == (CheckView { hashed: v.hashed + 1, ..v })
                &&& after.stats == (DuplicateScanStats {
                    checked_candidates: counted(before.stats.checked_candidates),
                    ..before.stats
                })
            },
            HashOutcome::Canceled => {
                &&& after.check->0@ == (CheckView { stage: CheckStage::Verifying, ..v })
                &&& after.stats == before.stats
            },
        }
    } else {
        after == before
    }
}

/// What is remembered after hashing a file: its digest, where the file can be
/// told apart from other versions of it.
pub open spec fn remembering(
    before: DuplicateScan,
    outcome: HashOutcome,
    cache: Map<CacheKeyView, Seq<u8>>,
) -> Map<CacheKeyView, Seq<u8>> {
    let v = before.check->0@;
    match (outcome, v.candidates[v.survivors[v.hashed]].cache_key) {
        (HashOutcome::Hashed(digest), Some(key)) => if awaits_hash(before) {
            cache.insert(key, digest@)
        } else {
            cache
        },
        _ => cache,
    }
}

/// Taking in whether two files are equal.
pub open spec fn took_in_comparison(
    before: DuplicateScan,
    after: DuplicateScan,
    equal: bool,
) -> bool {
    if awaits_comparison(before) {
        &&& same_but_check(before, after)
        &&& after.check->0@ == with_comparison(before.check->0@, equal)
    } else {
        after == before
    }
}

/// The numbers after a piece of a file was read.
pub open spec fn with_bytes(stats: DuplicateScanStats, more: int) -> DuplicateScanStats {
    DuplicateScanStats {
        processed_bytes: if stats.processed_bytes + more <= u64::MAX {
            (stats.processed_bytes + more) as u64
        } else {
            u64::MAX
        },
        ..stats
    }
}

/// Taking in that a piece of a file was read. Progress is reported where that is
/// due.
pub open spec fn took_in_piece(
    before: DuplicateScan,
    after: DuplicateScan,
    more: int,
    now: u64,
    report: Option<DuplicateScanBatch>,
) -> bool {
    let stats = with_bytes(before.stats, more);
    &&& after.stage == before.stage
    &&& after.stats == stats
    &&& same_work(before, after)
    &&& after.delivered == before.delivered
    &&& after.emitter.pending == before.emitter.pending
    &&& if stats.phase == before.emitter.last_phase && !is_due(before.emitter.last_emit, now) {
        report is None && after.emitter == before.emitter
    } else {
        &&& report is Some
        &&& report->0.groups@.len() == 0
        &&& report->0.stats == stats
        &&& after.emitter.last_emit == Some(now)
        &&& after.emitter.last_phase == stats.phase
    }
}

impl DuplicateScan {
    /// Takes in the outcome of a quick look; `None` where the file could not be
    /// read. An answer that was not asked for changes nothing.
    pub fn glimpsed(&mut self, digest: Option<Digest>)
        requires
            old(self).wf(),
        ensures
            final(self).wf(),
            took_in_glimpse(*old(self), *final(self), optional_digest(digest)),
    {
        let ghost before = *self;
        if let Some(check) = &mut self.check {
            if check.stage == CheckStage::Glimpsing && check.looked < check.candidates.len() {
                check.glimpsed(digest);
            }
        }
        proof {
            if awaits_glimpse(before) {
                lemma_same_candidates(before.check->0, self.check->0);
            }
        }
    }

    /// Takes in the outcome of hashing a file. An answer that was not asked for
    /// changes nothing.
    pub fn hashed(&mut self, outcome: HashOutcome, cache: &mut DuplicateHashCache)
        requires
            old(self).wf(),
            old(cache).wf(),
        ensures
            final(self).wf(),
            final(cache).wf(),
            took_in_hash(*old(self), *final(self), outcome),
            final(cache)@ == remembering(*old(self), outcome, old(cache)@),
    {
        let ghost before = *self;
        if let Some(check) = &mut self.check {
            if check.stage == CheckStage::Hashing && check.hashed < check.survivors.len() {
                check.hashed(outcome, cache, &mut self.stats);
            }
        }
        proof {
            if awaits_hash(before) {
                lemma_same_candidates(before.check->0, self.check->0);
            }
        }
    }

    /// Takes in whether two files are equal; files that could not be read count
    /// as different. An answer that was not asked for changes nothing.
    pub fn compared(&mut self, equal: bool)
        requires
            old(self).wf(),
        ensures
            final(self).wf(),
            took_in_comparison(*old(self), *final(self), equal),
    {
        let ghost before = *self;
        if let Some(check) = &mut self.check {
            if check.stage == CheckStage::Verifying && check.started && check.against
                < check.representatives.len() {
                check.compared(equal);
            }
        }
        proof {
            if awaits_comparison(before) {
                lemma_same_candidates(before.check->0, self.check->0);
            }
        }
    }

    /// Takes in a piece of a file that is being hashed: counts it, and reports
    /// progress where that is due.
    pub fn hash_chunk(&mut self, hashing: &mut FileHashing, bytes: &[u8], now: u64) -> (r: (
        Option<DuplicateScanBatch>,
        Breath,
    ))
        requires
            old(self).wf(),
            old(self).stage == ScanStage::Checking,
            old(hashing).wf(),
        ensures
            final(self).wf(),
            final(hashing).wf(),
            final(hashing).read() == old(hashing).read() + bytes@,
            r.1 == breath_after(
                final(hashing).chunks as int,
                HASH_SLEEP_CHUNKS as int,
                HASH_YIELD_CHUNKS as int,
            ),
            took_in_piece(*old(self), *final(self), bytes@.len() as int, now, r.0),
    {
        let breath: Breath = hashing.chunk(bytes);
        self.stats.processed_bytes = match self.stats.processed_bytes.checked_add(
            bytes.len() as u64,
        ) {
            Some(sum) => sum,
            None => u64::MAX,
        };
        let batch: Option<DuplicateScanBatch> = self.emitter.emit_progress(self.stats, now);
        (batch, breath)
    }

    /// What the search found. A search that has ended has handed on every group
    /// that it found, each in one batch, also where the last batch was refused.
    pub fn into_result(self) -> (r: DuplicateScanResult)
        requires
            self.wf(),
        ensures
            r.groups == self.groups,
            r.stats == self.stats,
            self.stage == ScanStage::Finished ==> self.delivered@ == shown(r.groups@),
    {
        proof {
            if self.stage == ScanStage::Finished {
                lemma_nothing_shown(self.emitter.pending@);
                assert(self.delivered@.add(Multiset::empty()) =~= self.delivered@);
            }
        }
        DuplicateScanResult { groups: self.groups, stats: self.stats }
    }
}

proof fn lemma_sorted_member(
    before: Seq<DuplicateGroup>,
    after: Seq<DuplicateGroup>,
    i: int,
)
    requires
        before.to_multiset() == after.to_multiset(),
        forall|i: int| 0 <= i < before.len() ==> is_group(#[trigger] before[i]),
        0 <= i < after.len(),
    ensures
        is_group(after[i]),
{
    broadcast use vstd::seq_lib::group_to_multiset_ensures;

    assert(after.contains(after[i]));
    assert(after.to_multiset().count(after[i]) > 0);
    assert(before.contains(after[i]));
    let k = choose|k: int| 0 <= k < before.len() && before[k] == after[i];
    assert(is_group(before[k]));
}

proof fn lemma_same_candidates(before: BucketCheck, after: BucketCheck)
    requires
        before@.candidates == after@.candidates,
        of_one_size(before.candidates@),
    ensures
        of_one_size(after.candidates@),
{
    assert forall|i: int| 0 <= i < after.candidates@.len() implies (
    #[trigger] after.candidates@[i]).size == after.candidates@[0].size by {
        assert(before@.candidates.len() == before.candidates@.len());
        assert(after@.candidates.len() == after.candidates@.len());
        assert(after@.candidates[i] == after.candidates@[i]@);
        assert(after@.candidates[0] == after.candidates@[0]@);
        assert(before@.candidates[i] == before.candidates@[i]@);
        assert(before@.candidates[0] == before.candidates@[0]@);
        assert(before.candidates@[i].size == before.candidates@[0].size);
    }
}

proof fn lemma_compared_in_range(v: CheckView)
    requires
        v.in_range(),
        v.stage == CheckStage::Verifying,
        v.started,
        v.against < v.representatives.len(),
    ensures
        0 <= v.classes[v.class].members[v.member] < v.candidates.len(),
        0 <= v.representatives[v.against][0] < v.candidates.len(),
{
    assert(below(v.classes[v.class].members, v.candidates.len() as int));
    assert(below(v.representatives[v.against], v.candidates.len() as int));
}

proof fn lemma_group_of_one_size(check: BucketCheck, files: Seq<DuplicateFile>, k: int)
    requires
        check.wf(),
        of_one_size(check.candidates@),
        0 <= k < check@.groups.len(),
        is_sorted_group(files, check@.candidates, check@.groups[k]),
    ensures
        makes_group(files),
{
    broadcast use vstd::seq_lib::group_to_multiset_ensures;

    let positions = check@.groups[k];
    let n = check@.candidates.len() as int;
    assert(below(positions, n) && positions.len() > 1);
    let unsorted = choose|unsorted: Seq<DuplicateFile>|
        files_view(unsorted) == files_at(check@.candidates, positions)
            && #[trigger] is_stable_sort(unsorted, files);
    assert(files.to_multiset().len() == files.len());
    assert(unsorted.to_multiset().len() == unsorted.len());
    assert(files_view(unsorted).len() == positions.len());
    let size = check.candidates@[0].size;
    assert forall|j: int| 0 <= j < unsorted.len() implies (#[trigger] unsorted[j]).size == size by {
        assert(files_view(unsorted)[j] == unsorted[j]@);
        let p = positions[j];
        assert(0 <= p < n);
        assert(files_at(check@.candidates, positions)[j]
            == check@.candidates[p].file);
        assert(check@.candidates[p] == check.candidates@[p]@);
        assert(check.candidates@[p].size == size);
    }
    assert forall|i: int| 0 <= i < files.len() implies (#[trigger] files[i]).size == size by {
        assert(files.contains(files[i]));
        assert(files.to_multiset().count(files[i]) > 0);
        assert(unsorted.contains(files[i]));
        let j = choose|j: int| 0 <= j < unsorted.len() && unsorted[j] == files[i];
        assert(unsorted[j].size == size);
    }
}

proof fn lemma_nothing_shown(groups: Seq<DuplicateGroup>)
    requires
        groups.len() == 0,
    ensures
        shown(groups) == Multiset::<DuplicateGroupView>::empty(),
{
    broadcast use vstd::seq_lib::group_to_multiset_ensures;

    assert(groups_view(groups).to_multiset().len() == 0);
    assert(shown(groups) =~= Multiset::<DuplicateGroupView>::empty());
}

proof fn lemma_sorted_bucket(
    unsorted: Seq<Bucket>,
    sorted: Seq<Bucket>,
    found: Seq<CandidateView>,
    i: int,
)
    requires
        are_shared_sizes(unsorted, found),
        is_stable_sort(unsorted, sorted),
        0 <= i < sorted.len(),
    ensures
        of_one_size(sorted[i].files@),
        sorted[i].files@.len() > 1,
{
    broadcast use vstd::seq_lib::group_to_multiset_ensures;

    let b = sorted[i];
    assert(sorted.contains(b));
    assert(sorted.to_multiset().count(b) > 0);
    assert(unsorted.contains(b));
    let k = choose|k: int| 0 <= k < unsorted.len() && unsorted[k] == b;
    let size = b@[0].file.size;
    lemma_of_size_members(found, size);
    assert(unsorted[k]@ == of_size(found, size));
    assert forall|j: int| 0 <= j < b.files@.len() implies (#[trigger] b.files@[j]).size
        == b.files@[0].size by {
        assert(b@[j] == b.files@[j]@);
        assert(of_size(found, size)[j].file.size == size);
        assert(b@[0] == b.files@[0]@);
    }
}

} // verus!
