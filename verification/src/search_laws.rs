//! What each step of a search does and counts.

use crate::batches::DuplicateScanBatch;
use crate::check::{
    below, counted, counted_by, fresh_check, next_action, next_stats, next_view, with_comparison,
    with_glimpse, CheckAction, CheckStage, CheckView, HashOutcome,
};
use crate::digest_classes::{distinct_digests, has_class, repeated, with_member, ClassView};
use crate::duplicates::{
    lemma_one_copy_is_kept, Breath, Bucket, CacheKeyView, CandidateView, DuplicateGroup, DuplicateScanPhase,
    DuplicateScanStats,
};
use crate::scan::{
    awaits_hash, remembering, stepped, took_in_batch, took_in_hash, took_in_piece, DuplicateScan,
    DuplicateScanResult, ScanAction, ScanStage,
};
use crate::size_groups::{are_shared_sizes, of_size, total_len};
use crate::worker::{after_send, batch_message, end_message, MessageView, WorkerView};
use vstd::prelude::*;

verus! {

/// Files of up to 256 KiB are hashed at once, all of them; larger ones are looked at
/// first.
pub proof fn lemma_small_files_are_hashed_at_once(candidates: Seq<CandidateView>)
    requires
        candidates.len() > 0,
    ensures
        ({
            let v = fresh_check(candidates);
            let small = candidates[0].file.size <= 262144;
            &&& v.candidates == candidates
            &&& small ==> v.stage == CheckStage::Hashing && v.survivors.len() == candidates.len()
                && forall|i: int|
                0 <= i < candidates.len() ==> #[trigger] v.survivors[i] == i
            &&& !small ==> v.stage == CheckStage::Glimpsing && v.survivors.len() == 0
            &&& v.looked == 0 && v.hashed == 0 && v.glimpses.len() == 0 && v.classes.len() == 0
            &&& v.groups.len() == 0 && v.representatives.len() == 0 && v.class == 0 && v.member == 0
                && !v.started && v.against == 0
        }),
{
}

/// Files are looked at one after the other, in their order.
pub proof fn lemma_files_are_looked_at_in_order(
    v: CheckView,
    cache: Map<CacheKeyView, Seq<u8>>,
    stats: DuplicateScanStats,
    digest: Seq<u8>,
)
    requires
        v.stage == CheckStage::Glimpsing,
        0 <= v.looked < v.candidates.len() <= usize::MAX,
    ensures
        next_action(v, false, cache) == CheckAction::Glimpse(v.looked as usize),
        next_view(v, false, cache) == v,
        next_stats(v, stats, false, cache) == stats,
        with_glimpse(v, None) == (CheckView { looked: v.looked + 1, ..v }),
        with_glimpse(v, Some(digest)) == (CheckView {
            looked: v.looked + 1,
            glimpses: with_member(v.glimpses, digest, v.looked),
            ..v
        }),
{
}

/// A file joins those with the same digest, behind them, or begins a class of its own
/// where there are none. Every other class stays as it is.
pub proof fn lemma_file_joins_its_class(
    classes: Seq<ClassView>,
    digest: Seq<u8>,
    member: int,
    k: int,
)
    requires
        distinct_digests(classes),
        0 <= k < classes.len(),
    ensures
        ({
            let after = with_member(classes, digest, member);
            &&& classes[k].digest == digest ==> after.len() == classes.len() && after[k]
                == (ClassView { digest, members: classes[k].members.push(member) })
            &&& classes[k].digest != digest ==> after[k] == classes[k]
            &&& !has_class(classes, digest) ==> after.len() == classes.len() + 1
                && after[classes.len() as int] == (ClassView { digest, members: seq![member] })
        }),
{
}

proof fn lemma_repeated_has(classes: Seq<ClassView>, m: int)
    ensures
        repeated(classes).contains(m) <==> exists|k: int|
            0 <= k < classes.len() && (#[trigger] classes[k]).members.len() > 1
                && classes[k].members.contains(m),
    decreases classes.len(),
{
    if classes.len() > 0 {
        let fewer = classes.drop_last();
        lemma_repeated_has(fewer, m);
        let last = classes.last();
        let n = classes.len() - 1;
        let before = repeated(fewer);
        assert(classes[n] == last);
        if repeated(classes).contains(m) {
            let i = choose|i: int| 0 <= i < repeated(classes).len() && repeated(classes)[i] == m;
            if last.members.len() > 1 && i >= before.len() {
                assert(last.members[i - before.len()] == m);
                assert(classes[n].members.contains(m));
            } else {
                assert(before[i] == m);
                let k = choose|k: int|
                    0 <= k < fewer.len() && (#[trigger] fewer[k]).members.len() > 1
                        && fewer[k].members.contains(m);
                assert(classes[k] == fewer[k]);
            }
        }
        if exists|k: int|
            0 <= k < classes.len() && (#[trigger] classes[k]).members.len() > 1
                && classes[k].members.contains(m) {
            let k = choose|k: int|
                0 <= k < classes.len() && (#[trigger] classes[k]).members.len() > 1
                    && classes[k].members.contains(m);
            if k < n {
                assert(fewer[k] == classes[k]);
                let i = choose|i: int| 0 <= i < before.len() && before[i] == m;
                assert(repeated(classes)[i] == m);
            } else {
                let i = choose|i: int| 0 <= i < last.members.len() && last.members[i] == m;
                assert(repeated(classes)[before.len() + i] == m);
            }
        }
    }
}

/// When all files were looked at, or the search is given up, exactly those that look like
/// another one are hashed. The others count as checked.
pub proof fn lemma_only_files_that_look_alike_are_hashed(
    v: CheckView,
    canceled: bool,
    cache: Map<CacheKeyView, Seq<u8>>,
    stats: DuplicateScanStats,
    m: int,
)
    requires
        v.stage == CheckStage::Glimpsing,
        canceled || v.looked == v.candidates.len(),
        v.looked >= repeated(v.glimpses).len(),
        stats.checked_candidates + v.looked <= usize::MAX,
    ensures
        ({
            let after = next_view(v, canceled, cache);
            &&& next_action(v, canceled, cache) == CheckAction::Again
            &&& after == (CheckView {
                stage: CheckStage::Hashing,
                survivors: after.survivors,
                ..v
            })
            &&& after.survivors.contains(m) <==> exists|k: int|
                0 <= k < v.glimpses.len() && (#[trigger] v.glimpses[k]).members.len() > 1
                    && v.glimpses[k].members.contains(m)
            &&& next_stats(v, stats, canceled, cache) == (DuplicateScanStats {
                checked_candidates: (stats.checked_candidates + (v.looked
                    - after.survivors.len())) as usize,
                ..stats
            })
        }),
{
    lemma_repeated_has(v.glimpses, m);
}

/// A digest that is remembered is used and counted, as hashed and as remembered; without
/// one the file is hashed.
pub proof fn lemma_remembered_digests_are_used(
    v: CheckView,
    cache: Map<CacheKeyView, Seq<u8>>,
    stats: DuplicateScanStats,
)
    requires
        v.stage == CheckStage::Hashing,
        0 <= v.hashed < v.survivors.len(),
        0 <= v.survivors[v.hashed] <= usize::MAX,
        stats.cached_hashes < usize::MAX,
        stats.checked_candidates < usize::MAX,
        stats.hashed_files < usize::MAX,
    ensures
        ({
            let i = v.survivors[v.hashed];
            let key = v.candidates[i].cache_key;
            let known = key is Some && cache.contains_key(key->0);
            &&& !known ==> next_action(v, false, cache) == CheckAction::Hash(i as usize)
                && next_view(v, false, cache) == v && next_stats(v, stats, false, cache) == stats
            &&& known ==> next_action(v, false, cache) == CheckAction::Again && next_view(
                v,
                false,
                cache,
            ) == (CheckView {
                hashed: v.hashed + 1,
                classes: with_member(v.classes, cache[key->0], i),
                ..v
            }) && next_stats(v, stats, false, cache) == (DuplicateScanStats {
                cached_hashes: (stats.cached_hashes + 1) as usize,
                checked_candidates: (stats.checked_candidates + 1) as usize,
                hashed_files: (stats.hashed_files + 1) as usize,
                ..stats
            })
        }),
{
}

/// A file that was hashed joins those with its digest and is counted as hashed and as
/// checked. One that could not be is only counted as checked, and hashing ends where it
/// was given up.
pub proof fn lemma_hashed_files_are_counted(
    before: DuplicateScan,
    after: DuplicateScan,
    outcome: HashOutcome,
)
    requires
        awaits_hash(before),
        took_in_hash(before, after, outcome),
        before.stats.checked_candidates < usize::MAX,
        before.stats.hashed_files < usize::MAX,
    ensures
        ({
            let v = before.check->0@;
            let w = after.check->0@;
            &&& outcome is Hashed ==> w == (CheckView {
                hashed: v.hashed + 1,
                classes: with_member(v.classes, outcome->Hashed_0@, v.survivors[v.hashed]),
                ..v
            }) && after.stats == (DuplicateScanStats {
                checked_candidates: (before.stats.checked_candidates + 1) as usize,
                hashed_files: (before.stats.hashed_files + 1) as usize,
                ..before.stats
            })
            &&& outcome is Failed ==> w == (CheckView { hashed: v.hashed + 1, ..v }) && after.stats
                == (DuplicateScanStats {
                checked_candidates: (before.stats.checked_candidates + 1) as usize,
                ..before.stats
            })
            &&& outcome is Canceled ==> w == (CheckView { stage: CheckStage::Verifying, ..v })
                && after.stats == before.stats
        }),
{
}

/// A digest is remembered under what the file is known by, and only where it was
/// computed; no other one is touched.
pub proof fn lemma_digests_are_remembered(
    before: DuplicateScan,
    outcome: HashOutcome,
    cache: Map<CacheKeyView, Seq<u8>>,
)
    requires
        awaits_hash(before),
    ensures
        ({
            let v = before.check->0@;
            let key = v.candidates[v.survivors[v.hashed]].cache_key;
            &&& outcome is Hashed && key is Some ==> remembering(before, outcome, cache)
                == cache.insert(key->0, outcome->Hashed_0@)
            &&& !(outcome is Hashed) || key is None ==> remembering(before, outcome, cache) == cache
        }),
{
}

/// Files with one digest are compared one by one with one file of each content that was
/// met so far: equal ones join it, and one that equals none begins a content of its own.
pub proof fn lemma_equal_digests_are_compared(
    v: CheckView,
    cache: Map<CacheKeyView, Seq<u8>>,
    stats: DuplicateScanStats,
)
    requires
        v.stage == CheckStage::Verifying,
        0 <= v.class < v.classes.len(),
        v.classes[v.class].members.len() > 1,
        0 <= v.member < v.classes[v.class].members.len(),
        0 <= v.against <= v.representatives.len(),
        stats.verified_files < usize::MAX,
        v.classes[v.class].members[v.member] <= usize::MAX,
        0 <= v.classes[v.class].members[v.member],
    ensures
        ({
            let file = v.classes[v.class].members[v.member];
            let after = next_view(v, false, cache);
            &&& !v.started ==> next_action(v, false, cache) == CheckAction::Again && after
                == (CheckView { started: true, against: 0, ..v }) && next_stats(
                v,
                stats,
                false,
                cache,
            ) == (DuplicateScanStats {
                verified_files: (stats.verified_files + 1) as usize,
                ..stats
            })
            &&& v.started && v.against < v.representatives.len() && 0
                <= v.representatives[v.against][0] <= usize::MAX ==> next_action(v, false, cache)
                == CheckAction::Compare(
                file as usize,
                v.representatives[v.against][0] as usize,
            ) && after == v && next_stats(v, stats, false, cache) == stats
            &&& v.started && v.against == v.representatives.len() ==> after == (CheckView {
                representatives: v.representatives.push(seq![file]),
                member: v.member + 1,
                started: false,
                against: 0,
                ..v
            })
            &&& v.against < v.representatives.len() ==> with_comparison(v, false) == (CheckView {
                against: v.against + 1,
                ..v
            })
            &&& v.against < v.representatives.len() ==> with_comparison(v, true) == (CheckView {
                representatives: v.representatives.update(
                    v.against,
                    v.representatives[v.against].push(file),
                ),
                member: v.member + 1,
                started: false,
                against: 0,
                ..v
            })
        }),
{
}

proof fn lemma_kept_are_larger(lists: Seq<Seq<int>>, g: Seq<int>)
    ensures
        lists.filter(|g: Seq<int>| g.len() > 1).contains(g) <==> lists.contains(g) && g.len() > 1,
    decreases lists.len(),
{
    reveal(Seq::filter);
    let f = |g: Seq<int>| g.len() > 1;
    if lists.len() > 0 {
        let fewer = lists.drop_last();
        lemma_kept_are_larger(fewer, g);
        let last = lists.len() - 1;
        assert(lists =~= fewer.push(lists[last]));
        let kept = fewer.filter(f);
        if lists.contains(g) {
            let i = choose|i: int| 0 <= i < lists.len() && lists[i] == g;
            if i < last {
                assert(fewer[i] == g);
            }
        }
        if fewer.contains(g) {
            let i = choose|i: int| 0 <= i < fewer.len() && fewer[i] == g;
            assert(lists[i] == g);
        }
        assert(lists.contains(lists[last]));
        let more = kept.push(lists[last]);
        assert(more[kept.len() as int] == lists[last]);
        if kept.contains(g) {
            let i = choose|i: int| 0 <= i < kept.len() && kept[i] == g;
            assert(more[i] == g);
        }
        if more.contains(g) {
            let i = choose|i: int| 0 <= i < more.len() && more[i] == g;
            if i < kept.len() {
                assert(kept[i] == g);
            }
        }
    }
}

/// When all files of a digest were compared, the contents that two files or more share
/// are kept, behind those that were found before, and the next digest is up. Digests of
/// single files are passed over.
pub proof fn lemma_shared_contents_are_kept(
    v: CheckView,
    cache: Map<CacheKeyView, Seq<u8>>,
    g: Seq<int>,
)
    requires
        v.stage == CheckStage::Verifying,
        0 <= v.class < v.classes.len(),
        !v.started,
    ensures
        ({
            let after = next_view(v, false, cache);
            let n = v.groups.len() as int;
            &&& v.classes[v.class].members.len() <= 1 ==> after == (CheckView {
                class: v.class + 1,
                member: 0,
                ..v
            })
            &&& v.classes[v.class].members.len() > 1 && v.member
                == v.classes[v.class].members.len() ==> {
                &&& after == (CheckView {
                    groups: after.groups,
                    representatives: Seq::empty(),
                    class: v.class + 1,
                    member: 0,
                    started: false,
                    against: 0,
                    ..v
                })
                &&& after.groups.len() >= n
                &&& after.groups.take(n) == v.groups
                &&& after.groups.skip(n).contains(g) <==> v.representatives.contains(g) && g.len()
                    > 1
            }
        }),
{
    let after = next_view(v, false, cache);
    let n = v.groups.len() as int;
    if v.classes[v.class].members.len() > 1 && v.member == v.classes[v.class].members.len() {
        lemma_kept_are_larger(v.representatives, g);
        let kept = v.representatives.filter(|g: Seq<int>| g.len() > 1);
        assert(after.groups =~= v.groups + kept);
        assert(after.groups.take(n) =~= v.groups);
        assert(after.groups.skip(n) =~= kept);
    }
}

/// Hashing is over when all were hashed or it is given up, and comparing when all digests
/// were met.
pub proof fn lemma_checking_goes_on(
    v: CheckView,
    canceled: bool,
    cache: Map<CacheKeyView, Seq<u8>>,
    stats: DuplicateScanStats,
)
    ensures
        v.stage == CheckStage::Hashing && (canceled || v.hashed == v.survivors.len())
            ==> next_action(v, canceled, cache) == CheckAction::Again && next_view(
            v,
            canceled,
            cache,
        ) == (CheckView { stage: CheckStage::Verifying, ..v }) && next_stats(
            v,
            stats,
            canceled,
            cache,
        ) == stats,
        v.stage == CheckStage::Verifying && v.class == v.classes.len() ==> next_action(
            v,
            canceled,
            cache,
        ) == CheckAction::Done && next_view(v, canceled, cache) == v,
{
}

/// A group gets the next number, the size of its files and all of them. It counts as one
/// more group, and frees the size times all files but one.
pub proof fn lemma_group_is_made(
    before: DuplicateScan,
    after: DuplicateScan,
    canceled: bool,
    now: u64,
    cache: Map<CacheKeyView, Seq<u8>>,
    action: ScanAction,
)
    requires
        before.stage == ScanStage::Collecting,
        before.equal@.len() > 0,
        before.equal@.last()@.len() > 0,
        stepped(before, after, canceled, now, cache, action),
        before.stats.groups < usize::MAX,
        before.next_id < u64::MAX,
    ensures
        ({
            let files = before.equal@.last();
            let size = files@[0].size;
            let freed = size * (files@.len() - 1);
            &&& after.equal@ == before.equal@.drop_last()
            &&& after.groups@ == before.groups@.push(
                DuplicateGroup { id: before.next_id, size, files },
            )
            &&& after.next_id == before.next_id + 1
            &&& after.stats.groups == before.stats.groups + 1
            &&& before.stats.duplicate_bytes + freed <= u64::MAX ==> after.stats.duplicate_bytes
                == before.stats.duplicate_bytes + freed
            &&& before.stats.duplicate_bytes + freed > u64::MAX ==> after.stats.duplicate_bytes
                == u64::MAX
            &&& after.stats == (DuplicateScanStats {
                groups: after.stats.groups,
                duplicate_bytes: after.stats.duplicate_bytes,
                ..before.stats
            })
            &&& action is Emit <==> before.emitter.pending@.len() >= 127
                || before.emitter.last_emit is None || now - before.emitter.last_emit->0
                >= 120000000
        }),
{
    let files = before.equal@.last();
    let group = DuplicateGroup { id: before.next_id, size: files@[0].size, files };
    lemma_one_copy_is_kept(group@);
    assert(group@.files.len() == files@.len());
    let size = files@[0].size as int;
    let n = files@.len() as int;
    assert(size * (n - 1) >= 0) by (nonlinear_arith)
        requires
            size >= 0,
            n >= 1,
    ;
}

/// A search tells that the files are grouped by size, then that contents are checked, each
/// with its numbers; where that is not taken it is over.
pub proof fn lemma_search_tells_how_far_it_is(
    before: DuplicateScan,
    after: DuplicateScan,
    now: u64,
    cache: Map<CacheKeyView, Seq<u8>>,
    action: ScanAction,
    canceled: bool,
)
    requires
        stepped(before, after, canceled, now, cache, action),
    ensures
        before.stage == ScanStage::Grouped || before.stage == ScanStage::Ready ==> action is Emit
            && action->Emit_0.groups@.len() == 0 && action->Emit_0.stats == before.stats
            && after.stats == before.stats && after.groups == before.groups && after.waiting
            == before.waiting,
        before.stage == ScanStage::Finished ==> action is Done && after == before,
{
}

/// When a batch was taken the search goes on from where it was: after the first with
/// checking contents. When it was not, or was the last, the search is over.
pub proof fn lemma_search_goes_on_when_taken(
    before: DuplicateScan,
    after: DuplicateScan,
    taken: bool,
)
    requires
        took_in_batch(before, after, taken),
    ensures
        taken && before.stage == ScanStage::AnnouncedGrouped ==> after.stage == ScanStage::Ready
            && after.stats == (DuplicateScanStats {
            phase: DuplicateScanPhase::ContentChecking,
            ..before.stats
        }) && after.waiting == before.waiting,
        taken && before.stage == ScanStage::AnnouncedReady ==> after == (DuplicateScan {
            stage: ScanStage::Between,
            ..before
        }),
        taken && before.stage == ScanStage::Delivered ==> after == (DuplicateScan {
            stage: ScanStage::Collecting,
            ..before
        }),
        (!taken && (before.stage == ScanStage::AnnouncedGrouped || before.stage
            == ScanStage::AnnouncedReady || before.stage == ScanStage::Delivered)) || before.stage
            == ScanStage::DeliveredLast ==> after.stage == ScanStage::Finished && after.stats
            == before.stats && after.groups@.to_multiset() == before.groups@.to_multiset(),
{
}

/// The sizes are checked in line, and the search is complete when none waits or it is
/// given up.
pub proof fn lemma_sizes_are_checked_in_line(
    before: DuplicateScan,
    after: DuplicateScan,
    canceled: bool,
    now: u64,
    cache: Map<CacheKeyView, Seq<u8>>,
    action: ScanAction,
)
    requires
        before.stage == ScanStage::Between,
        stepped(before, after, canceled, now, cache, action),
    ensures
        ({
            let over = canceled || before.waiting@.len() == 0;
            &&& over ==> after.stats == (DuplicateScanStats {
                phase: DuplicateScanPhase::Complete,
                ..before.stats
            }) && after.waiting == before.waiting && (action is Emit
                <==> before.emitter.pending@.len() > 0)
            &&& !over ==> action is Again && after.stats == before.stats && after.waiting@
                == before.waiting@.drop_last()
            &&& !over && before.waiting@.last().files@.len() >= 2 ==> after.stage
                == ScanStage::Checking && after.check->0@.candidates == before.waiting@.last()@
            &&& !over && before.waiting@.last().files@.len() < 2 ==> after.stage
                == ScanStage::Between
        }),
{
}

/// What is read is counted by its bytes, and reported where the phase is new or 120
/// milliseconds have passed since something was.
pub proof fn lemma_bytes_read_are_counted(
    before: DuplicateScan,
    after: DuplicateScan,
    more: int,
    now: u64,
    report: Option<DuplicateScanBatch>,
)
    requires
        took_in_piece(before, after, more, now, report),
        more >= 0,
    ensures
        before.stats.processed_bytes + more <= u64::MAX ==> after.stats.processed_bytes
            == before.stats.processed_bytes + more,
        before.stats.processed_bytes + more > u64::MAX ==> after.stats.processed_bytes == u64::MAX,
        after.stats == (DuplicateScanStats {
            processed_bytes: after.stats.processed_bytes,
            ..before.stats
        }),
        report is Some <==> before.stats.phase != before.emitter.last_phase
            || before.emitter.last_emit is None || now - before.emitter.last_emit->0 >= 120000000,
        report is Some ==> report->0.stats == after.stats && report->0.groups@.len() == 0,
        after.groups == before.groups,
{
}

/// A worker sends every batch for its request, and the end of the search unless a batch
/// could not be sent or the search was canceled. A failure is not forgotten.
pub proof fn lemma_worker_sends_the_end(
    w: WorkerView,
    batch: DuplicateScanBatch,
    canceled: bool,
    result: Result<DuplicateScanResult, String>,
)
    ensures
        batch_message(w, batch) == (MessageView::Batch { request: w.request, batch }),
        after_send(w, true) == w,
        after_send(w, false) == (WorkerView { progress_send_failed: true, ..w }),
        end_message(w, canceled, result) is None <==> canceled || w.progress_send_failed,
        end_message(w, canceled, result) is Some ==> end_message(w, canceled, result)->0 == (
        MessageView::Ended { request: w.request, result }),
{
}

/// Counters go up by what is counted and stop at the largest number.
pub proof fn lemma_counters_stop(n: usize, more: int)
    requires
        more >= 0,
    ensures
        n < usize::MAX ==> counted(n) == n + 1,
        n == usize::MAX ==> counted(n) == n,
        n + more <= usize::MAX ==> counted_by(n, more) == n + more,
        n + more > usize::MAX ==> counted_by(n, more) == usize::MAX,
{
}

/// The candidates of a search are all files that share their size.
pub proof fn lemma_candidates_are_added_up(buckets: Seq<Bucket>, bucket: Bucket)
    ensures
        total_len(Seq::<Bucket>::empty()) == 0,
        total_len(buckets.push(bucket)) == total_len(buckets) + bucket.files@.len(),
{
    assert(buckets.push(bucket).drop_last() =~= buckets);
}

/// The files of one size are those that were found with it, in the order in which they
/// were.
pub proof fn lemma_files_of_a_size(found: Seq<CandidateView>, c: CandidateView, size: u64)
    ensures
        of_size(Seq::empty(), size) == Seq::<CandidateView>::empty(),
        c.file.size == size ==> of_size(found.push(c), size) == of_size(found, size).push(c),
        c.file.size != size ==> of_size(found.push(c), size) == of_size(found, size),
{
    reveal(Seq::filter);
    assert(found.push(c).drop_last() =~= found);
}

/// Files are searched for by size: every size that two or more share, with all files that
/// have it, once.
pub proof fn lemma_shared_sizes_are_examined(
    buckets: Seq<Bucket>,
    found: Seq<CandidateView>,
    size: u64,
)
    requires
        are_shared_sizes(buckets, found),
    ensures
        of_size(found, size).len() > 1 <==> exists|i: int|
            0 <= i < buckets.len() && (#[trigger] buckets[i])@ == of_size(found, size),
        forall|i: int| 0 <= i < buckets.len() ==> (#[trigger] buckets[i])@.len() >= 2,
        forall|i: int, j: int|
            0 <= i < j < buckets.len() ==> (#[trigger] buckets[i])@[0].file.size != (
            #[trigger] buckets[j])@[0].file.size,
{
}

/// While contents are checked, a search asks about the files that are up: for a quick look
/// at the next one with its size and, every so often, a pause before it; for the digest
/// of the next one that is worth it; or whether the next two are equal.
pub proof fn lemma_search_asks_about_its_files(
    before: DuplicateScan,
    after: DuplicateScan,
    now: u64,
    cache: Map<CacheKeyView, Seq<u8>>,
    action: ScanAction,
)
    requires
        before.wf(),
        before.stage == ScanStage::Checking,
        stepped(before, after, false, now, cache, action),
    ensures
        ({
            let v = before.check->0@;
            let glimpsing = v.stage == CheckStage::Glimpsing && v.looked < v.candidates.len();
            let comparing = v.stage == CheckStage::Verifying && v.class < v.classes.len()
                && v.started && v.against < v.representatives.len();
            &&& glimpsing ==> action is Glimpse && action->Glimpse_0@
                == v.candidates[v.looked].file.path && action->Glimpse_1
                == v.candidates[v.looked].file.size
            &&& glimpsing ==> (action->Glimpse_2 == Breath::Sleep <==> (v.looked + 1) % 16384 == 0)
            &&& glimpsing ==> (action->Glimpse_2 == Breath::Yield <==> (v.looked + 1) % 512 == 0
                && (v.looked + 1) % 16384 != 0)
            &&& action is Hash ==> v.stage == CheckStage::Hashing && v.hashed < v.survivors.len()
                && action->Hash_0@ == v.candidates[v.survivors[v.hashed]].file.path
            &&& comparing ==> action is Compare && action->Compare_0@
                == v.candidates[v.classes[v.class].members[v.member]].file.path
                && action->Compare_1@ == v.candidates[v.representatives[v.against][0]].file.path
            &&& action is Glimpse <==> glimpsing
            &&& action is Compare <==> comparing
            &&& !(action is Emit) && !(action is Done)
        }),
{
    let v = before.check->0@;
    let check = before.check->0;
    assert(v.in_range());
    let count: usize = check.candidates.len();
    assert(v.candidates.len() == count);
    if v.stage == CheckStage::Hashing && v.hashed < v.survivors.len() {
        assert(0 <= v.survivors[v.hashed] < v.candidates.len());
    }
    if v.stage == CheckStage::Verifying && v.class < v.classes.len() && v.started && v.against
        < v.representatives.len() {
        let members = v.classes[v.class].members;
        assert(below(members, v.candidates.len() as int));
        assert(0 <= members[v.member] < v.candidates.len());
        assert(below(v.representatives[v.against], v.candidates.len() as int));
        assert(0 <= v.representatives[v.against][0] < v.candidates.len());
    }
}

} // verus!
