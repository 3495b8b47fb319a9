//! In which order a search lists what it has found.

use crate::batches::DuplicateScanBatch;
use crate::check::{files_at, is_sorted_group};
use crate::duplicates::{
    files_view, group_order, groups_view, member_order, CacheKeyView, CandidateView,
    DuplicateFile, DuplicateFileView, DuplicateGroup, DuplicateGroupView,
};
use crate::order::{equivalent, is_stable_sort, ties_of, Order, SortItem};
use crate::scan::{
    is_batch_with, lemma_map_multiset, stepped, DuplicateScan, ScanAction, ScanStage,
};
use crate::scan_laws::{
    happens, is_course, is_fresh, lemma_course_prefix, lemma_sorted_from, ScanEvent,
};
use vstd::prelude::*;

verus! {

/// A sorted list has the values of the list before, as often as that has them, every one
/// at most every later one. Those that tie stay in their order.
pub proof fn lemma_sorting_puts_in_order<T: SortItem>(before: Seq<T>, after: Seq<T>, x: T)
    requires
        is_stable_sort(before, after),
    ensures
        after.to_multiset() == before.to_multiset(),
        after.len() == before.len(),
        forall|i: int, j: int|
            0 <= i < j < after.len() ==> T::at_most(#[trigger] after[i], #[trigger] after[j]),
        after.filter(|y: T| T::at_most(x, y) && T::at_most(y, x)) == before.filter(
            |y: T| T::at_most(x, y) && T::at_most(y, x),
        ),
{
    before.to_multiset_ensures();
    after.to_multiset_ensures();
    let tie = |y: T| T::at_most(x, y) && T::at_most(y, x);
    let same = |y: T| equivalent(x, y);
    assert(tie =~= same);
    assert(ties_of(after, x) == ties_of(before, x));
}

/// Whether files stand in the order of a group's members.
pub open spec fn in_member_order(files: Seq<DuplicateFile>) -> bool {
    forall|i: int, j: int|
        0 <= i < j < files.len() ==> member_order(
            (#[trigger] files[i])@,
            (#[trigger] files[j])@,
        ) != Order::Greater
}

/// Files that are found equal are handed on in the order of a group's members: the files
/// at their positions, each as often as it stands there.
pub proof fn lemma_equal_files_are_put_in_order(
    files: Seq<DuplicateFile>,
    candidates: Seq<CandidateView>,
    positions: Seq<int>,
)
    requires
        is_sorted_group(files, candidates, positions),
    ensures
        in_member_order(files),
        files.len() == positions.len(),
        files_view(files).to_multiset() == positions.map_values(
            |i: int| candidates[i].file,
        ).to_multiset(),
{
    let unsorted = choose|unsorted: Seq<DuplicateFile>|
        files_view(unsorted) == files_at(candidates, positions) && #[trigger] is_stable_sort(
            unsorted,
            files,
        );
    lemma_map_multiset(files, unsorted, |f: DuplicateFile| f@);
    unsorted.to_multiset_ensures();
    files.to_multiset_ensures();
    assert(files_view(unsorted).len() == unsorted.len());
    assert(files_at(candidates, positions) =~= positions.map_values(
        |i: int| candidates[i].file,
    ));
    assert forall|i: int, j: int| 0 <= i < j < files.len() implies member_order(
        (#[trigger] files[i])@,
        (#[trigger] files[j])@,
    ) != Order::Greater by {
        assert(DuplicateFile::at_most(files[i], files[j]));
    }
}

/// Whether groups stand in their order.
pub open spec fn in_group_order(groups: Seq<DuplicateGroup>) -> bool {
    forall|i: int, j: int|
        0 <= i < j < groups.len() ==> group_order(
            (#[trigger] groups[i])@,
            (#[trigger] groups[j])@,
        ) != Order::Greater
}

proof fn lemma_sorted_groups(before: Seq<DuplicateGroup>, after: Seq<DuplicateGroup>)
    requires
        is_stable_sort(before, after),
    ensures
        in_group_order(after),
{
    assert forall|i: int, j: int| 0 <= i < j < after.len() implies group_order(
        (#[trigger] after[i])@,
        (#[trigger] after[j])@,
    ) != Order::Greater by {
        assert(DuplicateGroup::at_most(after[i], after[j]));
    }
}

/// Whether a search keeps the files of groups in order, and the groups when it has ended.
spec fn keeps_order(scan: DuplicateScan) -> bool {
    &&& forall|k: int|
        0 <= k < scan.equal@.len() ==> in_member_order((#[trigger] scan.equal@[k])@)
    &&& forall|g: int|
        0 <= g < scan.groups@.len() ==> in_member_order((#[trigger] scan.groups@[g]).files@)
    &&& scan.stage == ScanStage::Finished ==> in_group_order(scan.groups@)
}

proof fn lemma_sorting_keeps_files(before: Seq<DuplicateGroup>, after: Seq<DuplicateGroup>)
    requires
        is_stable_sort(before, after),
        forall|g: int|
            0 <= g < before.len() ==> in_member_order((#[trigger] before[g]).files@),
    ensures
        forall|g: int| 0 <= g < after.len() ==> in_member_order((#[trigger] after[g]).files@),
        in_group_order(after),
{
    lemma_sorted_groups(before, after);
    assert forall|g: int| 0 <= g < after.len() implies in_member_order(
        (#[trigger] after[g]).files@,
    ) by {
        let j = lemma_sorted_from(before, after, g);
        assert(in_member_order(before[j].files@));
    }
}

proof fn lemma_event_keeps_order(before: DuplicateScan, event: ScanEvent, after: DuplicateScan)
    requires
        keeps_order(before),
        happens(before, event, after),
    ensures
        keeps_order(after),
{
    match event {
        ScanEvent::Stepped { .. } => {
            if before.stage == ScanStage::Between && after.stage == ScanStage::Finished {
                lemma_sorting_keeps_files(before.groups@, after.groups@);
            }
            if before.stage == ScanStage::Checking && after.stage == ScanStage::Collecting {
                let v = before.check->0@;
                assert forall|k: int| 0 <= k < after.equal@.len() implies in_member_order(
                    (#[trigger] after.equal@[k])@,
                ) by {
                    lemma_equal_files_are_put_in_order(
                        after.equal@[k]@,
                        v.candidates,
                        v.groups[v.groups.len() - 1 - k],
                    );
                }
            }
            if before.stage == ScanStage::Collecting && before.equal@.len() > 0 {
                let last = before.equal@.len() - 1;
                assert(in_member_order(before.equal@[last]@));
                assert forall|g: int| 0 <= g < after.groups@.len() implies in_member_order(
                    (#[trigger] after.groups@[g]).files@,
                ) by {
                    if g < before.groups@.len() {
                        assert(after.groups@[g] == before.groups@[g]);
                    } else {
                        assert(after.groups@[g].files == before.equal@[last]);
                    }
                }
                assert forall|k: int| 0 <= k < after.equal@.len() implies in_member_order(
                    (#[trigger] after.equal@[k])@,
                ) by {
                    assert(after.equal@[k] == before.equal@[k]);
                }
            }
        },
        ScanEvent::Accepted(_) => {
            if after.stage == ScanStage::Finished && before.stage != ScanStage::Finished {
                lemma_sorting_keeps_files(before.groups@, after.groups@);
            }
        },
        _ => {},
    }
}

proof fn lemma_course_keeps_order(states: Seq<DuplicateScan>, events: Seq<ScanEvent>)
    requires
        is_course(states, events),
        is_fresh(states[0]),
    ensures
        keeps_order(states.last()),
    decreases events.len(),
{
    if events.len() > 0 {
        let n = events.len() - 1;
        lemma_course_prefix(states, events, |p: Seq<u8>| p);
        lemma_course_keeps_order(states.drop_last(), events.drop_last());
        assert(happens(states[n], events[n], states[n + 1]));
        assert(states.drop_last().last() == states[n]);
        lemma_event_keeps_order(states[n], events[n], states[n + 1]);
    }
}

/// A search that has ended lists its groups in their order, and at any time the files of
/// every group stand in the order of its members.
pub proof fn lemma_result_is_in_order(states: Seq<DuplicateScan>, events: Seq<ScanEvent>)
    requires
        is_course(states, events),
        is_fresh(states[0]),
    ensures
        ({
            let scan = states.last();
            &&& forall|g: int, i: int, j: int|
                0 <= g < scan.groups@.len() && 0 <= i < j < scan.groups@[g].files@.len()
                    ==> member_order(
                    (#[trigger] scan.groups@[g].files@[i])@,
                    (#[trigger] scan.groups@[g].files@[j])@,
                ) != Order::Greater
            &&& scan.stage == ScanStage::Finished ==> forall|g: int, h: int|
                0 <= g < h < scan.groups@.len() ==> group_order(
                    (#[trigger] scan.groups@[g])@,
                    (#[trigger] scan.groups@[h])@,
                ) != Order::Greater
        }),
{
    lemma_course_keeps_order(states, events);
    let scan = states.last();
    assert forall|g: int, i: int, j: int|
        0 <= g < scan.groups@.len() && 0 <= i < j
            < scan.groups@[g].files@.len() implies member_order(
        (#[trigger] scan.groups@[g].files@[i])@,
        (#[trigger] scan.groups@[g].files@[j])@,
    ) != Order::Greater by {
        assert(in_member_order(scan.groups@[g].files@));
    }
}

/// Every batch that a search hands on lists its groups in their order.
pub proof fn lemma_batches_are_in_order(
    before: DuplicateScan,
    after: DuplicateScan,
    canceled: bool,
    now: u64,
    cache: Map<CacheKeyView, Seq<u8>>,
    batch: DuplicateScanBatch,
)
    requires
        stepped(before, after, canceled, now, cache, ScanAction::Emit(batch)),
    ensures
        in_group_order(batch.groups@),
{
    if before.stage == ScanStage::Between {
        lemma_sorted_groups(before.emitter.pending@, batch.groups@);
    } else if before.stage == ScanStage::Collecting {
        let group = after.groups@.last();
        assert(is_batch_with(batch.groups@, before.emitter.pending@, group));
        let copy = choose|copy: DuplicateGroup|
            copy@ == group@ && #[trigger] is_stable_sort(
                before.emitter.pending@.push(copy),
                batch.groups@,
            );
        lemma_sorted_groups(before.emitter.pending@.push(copy), batch.groups@);
    }
}

/// Files and groups are shown in their places.
pub proof fn lemma_views_keep_places(files: Seq<DuplicateFile>, groups: Seq<DuplicateGroup>)
    ensures
        files_view(files).len() == files.len(),
        groups_view(groups).len() == groups.len(),
        forall|i: int| 0 <= i < files.len() ==> #[trigger] files_view(files)[i] == files[i]@,
        forall|i: int| 0 <= i < groups.len() ==> #[trigger] groups_view(groups)[i] == groups[i]@,
        forall|i: int|
            0 <= i < groups.len() ==> (#[trigger] groups[i])@ == (DuplicateGroupView {
                id: groups[i].id,
                size: groups[i].size,
                files: files_view(groups[i].files@),
            }),
        forall|i: int|
            0 <= i < files.len() ==> (#[trigger] files[i])@ == (DuplicateFileView {
                path: files[i].path@,
                name: files[i].name@,
                relative: files[i].relative@,
                size: files[i].size,
                modified: files[i].modified,
            }),
{
}

} // verus!
