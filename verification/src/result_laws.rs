//! What the groups and batches of a whole search have in common.

use crate::batches::DUPLICATE_BATCH_GROUP_SIZE;
use crate::check::{below, files_at, is_sorted_group, next_action, CheckView};
use crate::check_laws::{
    lemma_event_unique, lemma_fresh_unique, lemma_unique_groups, once, unique,
};
use crate::duplicates::{
    files_view, lemma_one_copy_is_kept, reclaimable, Bucket, CandidateView, DuplicateFile,
    DuplicateFileView, DuplicateGroup, DuplicateGroupView,
};
use crate::order::is_stable_sort;
use crate::path::components;
use crate::scan::{
    is_batch_with, lemma_map_multiset, shown, DuplicateScan, ScanAction, ScanStage,
};
use crate::scan_laws::{
    begins_with, check_event, happens, is_course, is_fresh, lemma_check_event_fits,
    lemma_course_prefix, ScanEvent,
};
use crate::size_groups::{are_shared_sizes, of_size};
use vstd::multiset::Multiset;
use vstd::prelude::*;

verus! {

/// The ids of groups.
pub open spec fn ids_of(groups: Seq<DuplicateGroup>) -> Seq<int> {
    groups.map_values(|g: DuplicateGroup| g.id as int)
}

/// The numbers from one on.
pub open spec fn first_numbers(n: nat) -> Seq<int> {
    Seq::new(n, |i: int| i + 1)
}

/// The bytes that the groups could free together.
pub open spec fn total_reclaimable(groups: Seq<DuplicateGroup>) -> int
    decreases groups.len(),
{
    if groups.len() == 0 {
        0
    } else {
        total_reclaimable(groups.drop_last()) + reclaimable(groups.last()@)
    }
}

/// A sum as far as a counter goes.
pub open spec fn bounded(sum: int) -> int {
    if sum <= u64::MAX {
        sum
    } else {
        u64::MAX as int
    }
}

/// Whether a search has numbered its groups and counted them.
pub open spec fn keeps_count(scan: DuplicateScan) -> bool {
    &&& ids_of(scan.groups@).to_multiset() == first_numbers(scan.groups@.len()).to_multiset()
    &&& scan.next_id == if scan.groups@.len() < u64::MAX {
        scan.groups@.len() + 1
    } else {
        0
    }
    &&& scan.stats.groups == scan.groups@.len()
    &&& scan.stats.duplicate_bytes == bounded(total_reclaimable(scan.groups@))
}

proof fn lemma_total_remove(groups: Seq<DuplicateGroup>, i: int)
    requires
        0 <= i < groups.len(),
    ensures
        total_reclaimable(groups) == total_reclaimable(groups.remove(i)) + reclaimable(groups[i]@),
    decreases groups.len(),
{
    let last = groups.len() - 1;
    if i < last {
        lemma_total_remove(groups.drop_last(), i);
        assert(groups.remove(i).drop_last() =~= groups.drop_last().remove(i));
        assert(groups.remove(i).last() == groups.last());
    } else {
        assert(groups.remove(i) =~= groups.drop_last());
    }
}

proof fn lemma_total_sorted(a: Seq<DuplicateGroup>, b: Seq<DuplicateGroup>)
    requires
        a.to_multiset() == b.to_multiset(),
    ensures
        total_reclaimable(a) == total_reclaimable(b),
    decreases a.len(),
{
    broadcast use vstd::seq_lib::group_to_multiset_ensures;

    assert(a.to_multiset().len() == a.len());
    assert(b.to_multiset().len() == b.len());
    if a.len() > 0 {
        let x = a.last();
        assert(a.contains(x));
        assert(a.to_multiset().count(x) > 0);
        assert(b.contains(x));
        let i = choose|i: int| 0 <= i < b.len() && b[i] == x;
        assert(a.remove(a.len() - 1) =~= a.drop_last());
        assert(a.remove(a.len() - 1).to_multiset() == a.to_multiset().remove(x));
        assert(b.remove(i).to_multiset() == b.to_multiset().remove(x));
        lemma_total_sorted(a.drop_last(), b.remove(i));
        lemma_total_remove(b, i);
    }
}

proof fn lemma_sorting_keeps_count(before: Seq<DuplicateGroup>, after: Seq<DuplicateGroup>)
    requires
        is_stable_sort(before, after),
    ensures
        after.len() == before.len(),
        ids_of(after).to_multiset() == ids_of(before).to_multiset(),
        total_reclaimable(after) == total_reclaimable(before),
{
    broadcast use vstd::seq_lib::group_to_multiset_ensures;

    assert(before.to_multiset().len() == before.len());
    assert(after.to_multiset().len() == after.len());
    lemma_map_multiset(after, before, |g: DuplicateGroup| g.id as int);
    lemma_total_sorted(after, before);
}

proof fn lemma_one_more_counted(before: DuplicateScan, after: DuplicateScan)
    requires
        keeps_count(before),
        after.groups@.len() == before.groups@.len() + 1,
        after.groups@.drop_last() == before.groups@,
        after.groups@.last().id == before.next_id,
        after.next_id == if before.next_id < u64::MAX {
            before.next_id + 1
        } else {
            0
        },
    ensures
        ids_of(after.groups@).to_multiset() == first_numbers(after.groups@.len()).to_multiset(),
        after.next_id == if after.groups@.len() < u64::MAX {
            after.groups@.len() + 1
        } else {
            0
        },
{
    broadcast use vstd::seq_lib::group_to_multiset_ensures;

    let n = before.groups@.len();
    let counted: usize = after.groups.len();
    assert(after.groups@.len() == counted);
    assert(n + 1 <= usize::MAX);
    assert(ids_of(after.groups@) =~= ids_of(before.groups@).push(n as int + 1));
    assert(first_numbers(n + 1) =~= first_numbers(n).push(n as int + 1));
}

/// Every event leaves the groups numbered and counted.
pub proof fn lemma_event_keeps_count(
    before: DuplicateScan,
    event: ScanEvent,
    after: DuplicateScan,
)
    requires
        keeps_count(before),
        happens(before, event, after),
    ensures
        keeps_count(after),
{
    match event {
        ScanEvent::Stepped { canceled, .. } => {
            if before.stage == ScanStage::Between && after.stage == ScanStage::Finished {
                lemma_sorting_keeps_count(before.groups@, after.groups@);
            }
            if before.stage == ScanStage::Collecting && before.equal@.len() > 0 {
                let group = after.groups@.last();
                assert(after.groups@.drop_last() =~= before.groups@);
                lemma_one_more_counted(before, after);
                assert(total_reclaimable(after.groups@) == total_reclaimable(before.groups@)
                    + reclaimable(group@));
                let counted: usize = after.groups.len();
                assert(after.groups@.len() == counted);
            }
        },
        ScanEvent::Accepted(_) => {
            if after.stage == ScanStage::Finished && before.stage != ScanStage::Finished {
                lemma_sorting_keeps_count(before.groups@, after.groups@);
            }
        },
        _ => {},
    }
}

/// At any time, and whatever was told, canceled or refused, a search has given its
/// groups the numbers from one on, each once, and its figures are those of its
/// groups: how many there are, and how many bytes they could free as far as the
/// counter goes.
pub proof fn lemma_groups_are_numbered_and_counted(
    states: Seq<DuplicateScan>,
    events: Seq<ScanEvent>,
)
    requires
        is_course(states, events),
        is_fresh(states[0]),
    ensures
        ({
            let scan = states.last();
            &&& ids_of(scan.groups@).to_multiset() == first_numbers(
                scan.groups@.len(),
            ).to_multiset()
            &&& scan.stats.groups == scan.groups@.len()
            &&& scan.stats.duplicate_bytes == bounded(total_reclaimable(scan.groups@))
        }),
{
    lemma_course_keeps_count(states, events);
}

proof fn lemma_total_is_a_sum(groups: Seq<DuplicateGroup>, f: spec_fn(int, DuplicateGroup) -> int)
    requires
        forall|sum: int, g: DuplicateGroup| #[trigger]
            f(sum, g) == sum + if g.files@.len() == 0 {
                0
            } else if g.size * (g.files@.len() - 1) <= u64::MAX {
                g.size * (g.files@.len() - 1)
            } else {
                u64::MAX as int
            },
    ensures
        total_reclaimable(groups) == groups.fold_left(0, f),
    decreases groups.len(),
{
    if groups.len() > 0 {
        lemma_total_is_a_sum(groups.drop_last(), f);
        lemma_one_copy_is_kept(groups.last()@);
    }
}

/// After any course of events, the bytes that a search says can be freed are the sum
/// over its groups of the size times all copies but one, as far as the counter goes.
pub proof fn lemma_all_copies_but_one_are_counted(
    states: Seq<DuplicateScan>,
    events: Seq<ScanEvent>,
)
    requires
        is_course(states, events),
        is_fresh(states[0]),
    ensures
        ({
            let freed = states.last().groups@.fold_left(
                0,
                |sum: int, g: DuplicateGroup|
                    sum + if g.files@.len() == 0 {
                        0
                    } else if g.size * (g.files@.len() - 1) <= u64::MAX {
                        g.size * (g.files@.len() - 1)
                    } else {
                        u64::MAX as int
                    },
            );
            states.last().stats.duplicate_bytes == if freed <= u64::MAX {
                freed
            } else {
                u64::MAX as int
            }
        }),
{
    lemma_course_keeps_count(states, events);
    let f = |sum: int, g: DuplicateGroup|
        sum + if g.files@.len() == 0 {
            0
        } else if g.size * (g.files@.len() - 1) <= u64::MAX {
            g.size * (g.files@.len() - 1)
        } else {
            u64::MAX as int
        };
    lemma_total_is_a_sum(states.last().groups@, f);
}

proof fn lemma_course_keeps_count(states: Seq<DuplicateScan>, events: Seq<ScanEvent>)
    requires
        is_course(states, events),
        is_fresh(states[0]),
    ensures
        keeps_count(states.last()),
    decreases events.len(),
{
    if events.len() == 0 {
        assert(ids_of(states[0].groups@) =~= first_numbers(0));
    } else {
        let n = events.len() - 1;
        lemma_course_prefix(states, events, |p: Seq<u8>| p);
        lemma_course_keeps_count(states.drop_last(), events.drop_last());
        assert(happens(states[n], events[n], states[n + 1]));
        assert(states.drop_last().last() == states[n]);
        lemma_event_keeps_count(states[n], events[n], states[n + 1]);
    }
}

/// The groups that an event hands on.
pub open spec fn handed_on(event: ScanEvent) -> Seq<DuplicateGroup> {
    match event {
        ScanEvent::Stepped { action, .. } => match action {
            ScanAction::Emit(batch) => batch.groups@,
            _ => Seq::empty(),
        },
        ScanEvent::PieceRead { report, .. } => match report {
            Some(batch) => batch.groups@,
            None => Seq::empty(),
        },
        _ => Seq::empty(),
    }
}

/// What all batches show together.
pub open spec fn all_handed_on(events: Seq<ScanEvent>) -> Multiset<DuplicateGroupView>
    decreases events.len(),
{
    if events.len() == 0 {
        Multiset::empty()
    } else {
        all_handed_on(events.drop_last()).add(shown(handed_on(events.last())))
    }
}

proof fn lemma_shows_nothing(groups: Seq<DuplicateGroup>)
    requires
        groups.len() == 0,
    ensures
        shown(groups) == Multiset::<DuplicateGroupView>::empty(),
{
    broadcast use vstd::seq_lib::group_to_multiset_ensures;

    assert(shown(groups).len() == 0);
}

proof fn lemma_event_delivers(before: DuplicateScan, event: ScanEvent, after: DuplicateScan)
    requires
        happens(before, event, after),
    ensures
        after.delivered@ == before.delivered@.add(shown(handed_on(event))),
        handed_on(event).len() <= DUPLICATE_BATCH_GROUP_SIZE,
{
    broadcast use vstd::seq_lib::group_to_multiset_ensures;

    let batch = handed_on(event);
    if batch.len() == 0 {
        lemma_shows_nothing(batch);
        assert(before.delivered@.add(Multiset::empty()) =~= before.delivered@);
    }
    if let ScanEvent::Stepped { canceled, now, cache, action } = event {
        if let ScanAction::Emit(_) = action {
            let pending = before.emitter.pending@;
            if before.stage == ScanStage::Between {
                assert(is_stable_sort(pending, batch));
                lemma_map_multiset(batch, pending, |g: DuplicateGroup| g@);
                assert(pending.to_multiset().len() == pending.len());
                assert(batch.to_multiset().len() == batch.len());
            }
            if before.stage == ScanStage::Collecting {
                let group = after.groups@.last();
                assert(is_batch_with(batch, pending, group));
                let copy = choose|copy: DuplicateGroup|
                    copy@ == group@ && #[trigger] is_stable_sort(pending.push(copy), batch);
                let all = pending.push(copy);
                lemma_map_multiset(batch, all, |g: DuplicateGroup| g@);
                assert(all.to_multiset().len() == all.len());
                assert(batch.to_multiset().len() == batch.len());
                assert(all.map_values(|g: DuplicateGroup| g@) =~= pending.map_values(
                    |g: DuplicateGroup| g@,
                ).push(group@));
                assert(shown(batch) == shown(pending).insert(group@));
            }
        }
    }
}

/// No batch has more groups than fit into one.
pub proof fn lemma_batches_are_small(
    before: DuplicateScan,
    event: ScanEvent,
    after: DuplicateScan,
)
    requires
        happens(before, event, after),
    ensures
        handed_on(event).len() <= DUPLICATE_BATCH_GROUP_SIZE,
{
    lemma_event_delivers(before, event, after);
}

proof fn lemma_course_delivers(states: Seq<DuplicateScan>, events: Seq<ScanEvent>)
    requires
        is_course(states, events),
        is_fresh(states[0]),
    ensures
        states.last().delivered@ == all_handed_on(events),
        states.last().wf(),
    decreases events.len(),
{
    if events.len() == 0 {
        let scan = states[0];
        lemma_shows_nothing(scan.groups@);
        lemma_shows_nothing(scan.emitter.pending@);
        assert(scan.delivered@ =~= scan.delivered@.add(Multiset::empty()));
    } else {
        let n = events.len() - 1;
        lemma_course_prefix(states, events, |p: Seq<u8>| p);
        lemma_course_delivers(states.drop_last(), events.drop_last());
        assert(happens(states[n], events[n], states[n + 1]));
        assert(states.drop_last().last() == states[n]);
        lemma_event_delivers(states[n], events[n], states[n + 1]);
    }
}

/// The batches of a search that has ended show together exactly the groups that it
/// found, also where it was canceled or its last batch was refused.
pub proof fn lemma_batches_make_up_the_result(
    states: Seq<DuplicateScan>,
    events: Seq<ScanEvent>,
)
    requires
        is_course(states, events),
        is_fresh(states[0]),
        states.last().stage == ScanStage::Finished,
    ensures
        all_handed_on(events) == shown(states.last().groups@),
{
    lemma_course_delivers(states, events);
    let scan = states.last();
    lemma_shows_nothing(scan.emitter.pending@);
    assert(scan.delivered@.add(Multiset::empty()) =~= scan.delivered@);
}

/// Everything in several multisets.
pub open spec fn together<T>(parts: Seq<Multiset<T>>) -> Multiset<T>
    decreases parts.len(),
{
    if parts.len() == 0 {
        Multiset::empty()
    } else {
        together(parts.drop_last()).add(parts.last())
    }
}

proof fn lemma_together_remove<T>(parts: Seq<Multiset<T>>, i: int)
    requires
        0 <= i < parts.len(),
    ensures
        together(parts) == together(parts.remove(i)).add(parts[i]),
    decreases parts.len(),
{
    let last = parts.len() - 1;
    if i < last {
        lemma_together_remove(parts.drop_last(), i);
        assert(parts.remove(i).drop_last() =~= parts.drop_last().remove(i));
        assert(parts.remove(i).last() == parts.last());
        assert(together(parts) =~= together(parts.remove(i)).add(parts[i]));
    } else {
        assert(parts.remove(i) =~= parts.drop_last());
    }
}

proof fn lemma_together_sorted<T>(a: Seq<Multiset<T>>, b: Seq<Multiset<T>>)
    requires
        a.to_multiset() == b.to_multiset(),
    ensures
        together(a) == together(b),
    decreases a.len(),
{
    broadcast use vstd::seq_lib::group_to_multiset_ensures;

    assert(a.to_multiset().len() == a.len());
    assert(b.to_multiset().len() == b.len());
    if a.len() > 0 {
        let x = a.last();
        assert(a.contains(x));
        assert(a.to_multiset().count(x) > 0);
        assert(b.contains(x));
        let i = choose|i: int| 0 <= i < b.len() && b[i] == x;
        assert(a.remove(a.len() - 1) =~= a.drop_last());
        assert(a.remove(a.len() - 1).to_multiset() == a.to_multiset().remove(x));
        assert(b.remove(i).to_multiset() == b.to_multiset().remove(x));
        lemma_together_sorted(a.drop_last(), b.remove(i));
        lemma_together_remove(b, i);
    }
}

/// The files of candidates, each as often as it is there.
pub open spec fn candidate_files(candidates: Seq<CandidateView>) -> Multiset<DuplicateFileView> {
    candidates.map_values(|c: CandidateView| c.file).to_multiset()
}

/// The files of a list, each as often as it is there.
pub open spec fn list_files(files: Seq<DuplicateFile>) -> Multiset<DuplicateFileView> {
    files_view(files).to_multiset()
}

/// The files of groups, each as often as it is there.
pub open spec fn grouped_files(groups: Seq<DuplicateGroup>) -> Multiset<DuplicateFileView> {
    together(groups.map_values(|g: DuplicateGroup| list_files(g.files@)))
}

/// The files of lists that are no groups yet.
spec fn equal_files(equal: Seq<Vec<DuplicateFile>>) -> Multiset<DuplicateFileView> {
    together(equal.map_values(|l: Vec<DuplicateFile>| list_files(l@)))
}

/// The files that wait to be checked.
spec fn waiting_files(waiting: Seq<Bucket>) -> Multiset<DuplicateFileView> {
    together(waiting.map_values(|b: Bucket| candidate_files(b@)))
}

/// The files that are being checked.
spec fn checked_files(scan: DuplicateScan) -> Multiset<DuplicateFileView> {
    if scan.check is Some {
        candidate_files(scan.check->0@.candidates)
    } else {
        Multiset::empty()
    }
}

/// The files that a search has, each as often as it has it.
spec fn held_files(scan: DuplicateScan) -> Multiset<DuplicateFileView> {
    waiting_files(scan.waiting@).add(checked_files(scan)).add(equal_files(scan.equal@)).add(
        grouped_files(scan.groups@),
    )
}

/// The positions in lists, one list behind the other.
spec fn in_a_row(lists: Seq<Seq<int>>) -> Seq<int>
    decreases lists.len(),
{
    if lists.len() == 0 {
        Seq::empty()
    } else {
        in_a_row(lists.drop_last()) + lists.last()
    }
}

proof fn lemma_in_a_row(lists: Seq<Seq<int>>, i: int) -> (at: (int, int))
    requires
        0 <= i < in_a_row(lists).len(),
    ensures
        0 <= at.0 < lists.len(),
        0 <= at.1 < lists[at.0].len(),
        lists[at.0][at.1] == in_a_row(lists)[i],
    decreases lists.len(),
{
    let before = in_a_row(lists.drop_last());
    if i < before.len() {
        lemma_in_a_row(lists.drop_last(), i)
    } else {
        (lists.len() - 1, i - before.len())
    }
}

proof fn lemma_row_once(lists: Seq<Seq<int>>)
    requires
        once(lists),
    ensures
        in_a_row(lists).no_duplicates(),
    decreases lists.len(),
{
    if lists.len() > 0 {
        let fewer = lists.drop_last();
        assert(once(fewer)) by {
            assert forall|k: int, a: int, l: int, b: int|
                0 <= k < fewer.len() && 0 <= a < fewer[k].len() && 0 <= l < fewer.len() && 0 <= b
                    < fewer[l].len() && #[trigger] fewer[k][a] == #[trigger] fewer[l][b] implies k
                == l && a == b by {
                assert(lists[k][a] == lists[l][b]);
            }
        }
        lemma_row_once(fewer);
        let row = in_a_row(lists);
        let before = in_a_row(fewer);
        let last = lists.len() - 1;
        assert forall|i: int, j: int| 0 <= i < row.len() && 0 <= j < row.len() && i != j implies
            row[i] != row[j] by {
            if i < before.len() && j < before.len() {
                assert(before[i] != before[j]);
            } else if i >= before.len() && j >= before.len() {
                let (a, b) = (i - before.len(), j - before.len());
                assert(lists[last][a] == row[i] && lists[last][b] == row[j]);
            } else {
                let (p, q) = if i < before.len() {
                    (i, j)
                } else {
                    (j, i)
                };
                let at = lemma_in_a_row(fewer, p);
                let b = q - before.len();
                assert(lists[at.0][at.1] == row[p]);
                assert(lists[last][b] == row[q]);
            }
        }
    }
}

/// Different positions give files as often as they are there at most.
proof fn lemma_files_at_different_positions(candidates: Seq<CandidateView>, positions: Seq<int>)
    requires
        positions.no_duplicates(),
        forall|i: int|
            0 <= i < positions.len() ==> 0 <= #[trigger] positions[i] < candidates.len(),
    ensures
        files_at(candidates, positions).to_multiset().subset_of(candidate_files(candidates)),
    decreases candidates.len(),
{
    broadcast use vstd::seq_lib::group_to_multiset_ensures;

    let files = files_at(candidates, positions);
    if candidates.len() == 0 {
        assert(positions.len() == 0) by {
            if positions.len() > 0 {
                assert(0 <= positions[0] < candidates.len());
            }
        }
        assert(files.to_multiset().len() == 0);
        assert(files.to_multiset() =~= Multiset::empty());
    } else {
        let fewer = candidates.drop_last();
        let last = candidates.len() - 1;
        let all = candidates.map_values(|c: CandidateView| c.file);
        let rest = fewer.map_values(|c: CandidateView| c.file);
        assert(all =~= rest.push(candidates[last].file));
        assert(all.to_multiset() == rest.to_multiset().insert(candidates[last].file));
        if positions.contains(last) {
            let k = choose|k: int| 0 <= k < positions.len() && positions[k] == last;
            let others = positions.remove(k);
            assert forall|i: int| 0 <= i < others.len() implies 0 <= #[trigger] others[i]
                < fewer.len() by {
                let j = if i < k {
                    i
                } else {
                    i + 1
                };
                assert(others[i] == positions[j]);
                assert(positions[j] != positions[k]);
            }
            assert(others.no_duplicates()) by {
                assert forall|i: int, j: int|
                    0 <= i < others.len() && 0 <= j < others.len() && i != j implies others[i]
                    != others[j] by {
                    let p = if i < k {
                        i
                    } else {
                        i + 1
                    };
                    let q = if j < k {
                        j
                    } else {
                        j + 1
                    };
                    assert(positions[p] != positions[q]);
                }
            }
            lemma_files_at_different_positions(fewer, others);
            assert(files_at(fewer, others) =~= files.remove(k));
            assert(files.remove(k).to_multiset() == files.to_multiset().remove(files[k]));
            assert(files[k] == candidates[last].file);
            assert(files.contains(files[k]));
            assert(files.to_multiset().count(files[k]) > 0);
            assert(files.to_multiset() =~= files.remove(k).to_multiset().insert(files[k]));
        } else {
            assert forall|i: int| 0 <= i < positions.len() implies 0 <= #[trigger] positions[i]
                < fewer.len() by {
                assert(positions.contains(positions[i]));
            }
            lemma_files_at_different_positions(fewer, positions);
            assert(files_at(fewer, positions) =~= files);
        }
    }
}

/// The files of lists of positions, one list behind the other.
proof fn lemma_files_of_lists(candidates: Seq<CandidateView>, lists: Seq<Seq<int>>)
    ensures
        together(lists.map_values(|l: Seq<int>| files_at(candidates, l).to_multiset()))
            == files_at(candidates, in_a_row(lists)).to_multiset(),
    decreases lists.len(),
{
    broadcast use vstd::seq_lib::group_to_multiset_ensures;

    let parts = lists.map_values(|l: Seq<int>| files_at(candidates, l).to_multiset());
    if lists.len() == 0 {
        assert(files_at(candidates, in_a_row(lists)).to_multiset().len() == 0);
        assert(files_at(candidates, in_a_row(lists)).to_multiset() =~= Multiset::empty());
    } else {
        let fewer = lists.drop_last();
        lemma_files_of_lists(candidates, fewer);
        assert(parts.drop_last() =~= fewer.map_values(
            |l: Seq<int>| files_at(candidates, l).to_multiset(),
        ));
        assert(files_at(candidates, in_a_row(lists)) =~= files_at(candidates, in_a_row(fewer))
            + files_at(candidates, lists.last()));
        vstd::seq_lib::lemma_multiset_commutative(
            files_at(candidates, in_a_row(fewer)),
            files_at(candidates, lists.last()),
        );
    }
}

/// What leaves a check was in it, as often at most.
proof fn lemma_leaving_files(v: CheckView, equal: Seq<Vec<DuplicateFile>>)
    requires
        unique(v),
        equal.len() == v.groups.len(),
        forall|k: int|
            0 <= k < v.groups.len() ==> is_sorted_group(
                (#[trigger] equal[k])@,
                v.candidates,
                v.groups[v.groups.len() - 1 - k],
            ),
    ensures
        equal_files(equal).subset_of(candidate_files(v.candidates)),
{
    broadcast use vstd::seq_lib::group_to_multiset_ensures;

    lemma_unique_groups(v);
    let groups = v.groups;
    let parts = groups.map_values(|l: Seq<int>| files_at(v.candidates, l).to_multiset());
    let lists = equal.map_values(|l: Vec<DuplicateFile>| list_files(l@));
    assert(lists =~= parts.reverse()) by {
        assert forall|k: int| 0 <= k < lists.len() implies lists[k] == parts.reverse()[k] by {
            let positions = groups[groups.len() - 1 - k];
            assert(is_sorted_group(equal[k]@, v.candidates, positions));
            let unsorted = choose|unsorted: Seq<DuplicateFile>|
                files_view(unsorted) == files_at(v.candidates, positions)
                    && #[trigger] is_stable_sort(unsorted, equal[k]@);
            lemma_map_multiset(equal[k]@, unsorted, |f: DuplicateFile| f@);
        }
    }
    parts.lemma_reverse_to_multiset();
    lemma_together_sorted(lists, parts);
    lemma_files_of_lists(v.candidates, groups);
    lemma_row_once(groups);
    let row = in_a_row(groups);
    assert forall|i: int| 0 <= i < row.len() implies 0 <= #[trigger] row[i]
        < v.candidates.len() by {
        let at = lemma_in_a_row(groups, i);
        assert(below(groups[at.0], v.candidates.len() as int));
        assert(0 <= groups[at.0][at.1] < v.candidates.len());
    }
    lemma_files_at_different_positions(v.candidates, row);
}

/// What holds of every search: no file is in two places.
spec fn repeats_nothing(scan: DuplicateScan, found: Seq<CandidateView>) -> bool {
    &&& scan.check is Some ==> unique(scan.check->0@)
    &&& held_files(scan).subset_of(candidate_files(found))
}

proof fn lemma_sorting_keeps_files(before: Seq<DuplicateGroup>, after: Seq<DuplicateGroup>)
    requires
        is_stable_sort(before, after),
    ensures
        grouped_files(after) == grouped_files(before),
{
    lemma_map_multiset(after, before, |g: DuplicateGroup| list_files(g.files@));
    lemma_together_sorted(
        after.map_values(|g: DuplicateGroup| list_files(g.files@)),
        before.map_values(|g: DuplicateGroup| list_files(g.files@)),
    );
}

proof fn lemma_step_repeats_nothing(before: DuplicateScan, event: ScanEvent, after: DuplicateScan)
    requires
        event is Stepped,
        before.check is Some ==> unique(before.check->0@),
        happens(before, event, after),
    ensures
        held_files(after).subset_of(held_files(before)),
{
    match before.stage {
        ScanStage::Between => {
            if after.waiting == before.waiting {
                if after.stage == ScanStage::Finished {
                    lemma_sorting_keeps_files(before.groups@, after.groups@);
                }
            } else {
                let parts = before.waiting@.map_values(|b: Bucket| candidate_files(b@));
                assert(parts.drop_last() =~= after.waiting@.map_values(
                    |b: Bucket| candidate_files(b@),
                ));
                assert(parts.last() == candidate_files(before.waiting@.last()@));
            }
        },
        ScanStage::Checking => {
            let v = before.check->0@;
            if let ScanEvent::Stepped { canceled, cache, .. } = event {
                if next_action(v, canceled, cache) is Done {
                    lemma_leaving_files(v, after.equal@);
                    assert(before.equal@.map_values(|l: Vec<DuplicateFile>| list_files(l@))
                        =~= Seq::empty());
                }
            }
        },
        ScanStage::Collecting => {
            if before.equal@.len() > 0 {
                let lists = before.equal@.map_values(|l: Vec<DuplicateFile>| list_files(l@));
                assert(lists.drop_last() =~= after.equal@.map_values(
                    |l: Vec<DuplicateFile>| list_files(l@),
                ));
                let groups = after.groups@.map_values(|g: DuplicateGroup| list_files(g.files@));
                assert(groups.drop_last() =~= before.groups@.map_values(
                    |g: DuplicateGroup| list_files(g.files@),
                ));
                assert(groups.last() == lists.last());
            }
        },
        _ => {},
    }
}

proof fn lemma_event_repeats_nothing(
    before: DuplicateScan,
    event: ScanEvent,
    after: DuplicateScan,
    found: Seq<CandidateView>,
)
    requires
        repeats_nothing(before, found),
        happens(before, event, after),
    ensures
        repeats_nothing(after, found),
{
    if let Some(told) = check_event(before, event) {
        lemma_check_event_fits(before, event);
        lemma_event_unique(before.check->0@, told);
    }
    if after.check is Some && before.check is None {
        lemma_fresh_unique(before.waiting@.last()@);
    }
    match event {
        ScanEvent::Stepped { .. } => lemma_step_repeats_nothing(before, event, after),
        ScanEvent::Accepted(_) => {
            if after.stage == ScanStage::Finished && before.stage != ScanStage::Finished {
                lemma_sorting_keeps_files(before.groups@, after.groups@);
            }
        },
        _ => {},
    }
}

proof fn lemma_of_size_files(found: Seq<CandidateView>, size: u64, x: DuplicateFileView)
    ensures
        candidate_files(of_size(found, size)).count(x) <= candidate_files(found).count(x),
        x.size != size ==> candidate_files(of_size(found, size)).count(x) == 0,
    decreases found.len(),
{
    broadcast use vstd::seq_lib::group_to_multiset_ensures;

    reveal(Seq::filter);
    let some = of_size(found, size);
    if found.len() == 0 {
        assert(some.map_values(|c: CandidateView| c.file).to_multiset().len() == 0);
        assert(candidate_files(some) =~= Multiset::empty());
    } else {
        let fewer = found.drop_last();
        lemma_of_size_files(fewer, size, x);
        let all = found.map_values(|c: CandidateView| c.file);
        assert(all =~= fewer.map_values(|c: CandidateView| c.file).push(found.last().file));
        if found.last().file.size == size {
            assert(some =~= of_size(fewer, size).push(found.last()));
            assert(some.map_values(|c: CandidateView| c.file) =~= of_size(fewer, size).map_values(
                |c: CandidateView| c.file,
            ).push(found.last().file));
        } else {
            assert(some =~= of_size(fewer, size));
        }
    }
}

/// Whether buckets hold files of different sizes, all that were found of each.
spec fn by_size(buckets: Seq<Bucket>, found: Seq<CandidateView>) -> bool {
    &&& forall|i: int|
        0 <= i < buckets.len() ==> (#[trigger] buckets[i])@ == of_size(
            found,
            buckets[i]@[0].file.size,
        )
    &&& forall|i: int, j: int|
        0 <= i < j < buckets.len() ==> (#[trigger] buckets[i])@[0].file.size != (
        #[trigger] buckets[j])@[0].file.size
}

proof fn lemma_buckets_hold_found(
    buckets: Seq<Bucket>,
    found: Seq<CandidateView>,
    x: DuplicateFileView,
)
    requires
        by_size(buckets, found),
    ensures
        waiting_files(buckets).count(x) <= candidate_files(found).count(x),
        (forall|i: int| 0 <= i < buckets.len() ==> (#[trigger] buckets[i])@[0].file.size != x.size)
            ==> waiting_files(buckets).count(x) == 0,
    decreases buckets.len(),
{
    if buckets.len() > 0 {
        let fewer = buckets.drop_last();
        let last = buckets.len() - 1;
        let size = buckets[last]@[0].file.size;
        assert(by_size(fewer, found)) by {
            assert forall|i: int| 0 <= i < fewer.len() implies (#[trigger] fewer[i])@ == of_size(
                found,
                fewer[i]@[0].file.size,
            ) by {
                assert(fewer[i] == buckets[i]);
            }
            assert forall|i: int, j: int| 0 <= i < j < fewer.len() implies (
            #[trigger] fewer[i])@[0].file.size != (#[trigger] fewer[j])@[0].file.size by {
                assert(buckets[i]@[0].file.size != buckets[j]@[0].file.size);
            }
        }
        lemma_buckets_hold_found(fewer, found, x);
        lemma_of_size_files(found, size, x);
        let parts = buckets.map_values(|b: Bucket| candidate_files(b@));
        assert(parts.drop_last() =~= fewer.map_values(|b: Bucket| candidate_files(b@)));
        assert(parts.last() == candidate_files(of_size(found, size)));
        if size == x.size {
            assert forall|i: int| 0 <= i < fewer.len() implies (#[trigger] fewer[i])@[0].file.size
                != x.size by {
                assert(fewer[i] == buckets[i]);
                assert(buckets[i]@[0].file.size != buckets[last]@[0].file.size);
            }
        }
        if forall|i: int|
            0 <= i < buckets.len() ==> (#[trigger] buckets[i])@[0].file.size != x.size {
            assert(buckets[last]@[0].file.size != x.size);
            assert forall|i: int| 0 <= i < fewer.len() implies (#[trigger] fewer[i])@[0].file.size
                != x.size by {
                assert(fewer[i] == buckets[i]);
            }
        }
    }
}

proof fn lemma_beginning_repeats_nothing(scan: DuplicateScan, found: Seq<CandidateView>)
    requires
        is_fresh(scan),
        begins_with(scan, found),
    ensures
        repeats_nothing(scan, found),
{
    let buckets = choose|buckets: Seq<Bucket>| #[trigger]
        are_shared_sizes(buckets, found) && is_stable_sort(buckets, scan.upcoming());
    let order = scan.upcoming();
    lemma_map_multiset(order, buckets, |b: Bucket| candidate_files(b@));
    let sorted = order.map_values(|b: Bucket| candidate_files(b@));
    lemma_together_sorted(sorted, buckets.map_values(|b: Bucket| candidate_files(b@)));
    let waiting = scan.waiting@.map_values(|b: Bucket| candidate_files(b@));
    assert(sorted =~= waiting.reverse());
    waiting.lemma_reverse_to_multiset();
    lemma_together_sorted(waiting, sorted);
    assert(by_size(buckets, found));
    assert(scan.equal@.map_values(|l: Vec<DuplicateFile>| list_files(l@)) =~= Seq::empty());
    assert(scan.groups@.map_values(|g: DuplicateGroup| list_files(g.files@)) =~= Seq::empty());
    assert forall|x: DuplicateFileView| held_files(scan).count(x) <= candidate_files(
        found,
    ).count(x) by {
        lemma_buckets_hold_found(buckets, found, x);
    }
}

proof fn lemma_course_repeats_nothing(
    states: Seq<DuplicateScan>,
    events: Seq<ScanEvent>,
    found: Seq<CandidateView>,
)
    requires
        is_course(states, events),
        is_fresh(states[0]),
        begins_with(states[0], found),
    ensures
        repeats_nothing(states.last(), found),
    decreases events.len(),
{
    if events.len() == 0 {
        lemma_beginning_repeats_nothing(states[0], found);
    } else {
        let n = events.len() - 1;
        lemma_course_prefix(states, events, |p: Seq<u8>| p);
        lemma_course_repeats_nothing(states.drop_last(), events.drop_last(), found);
        assert(happens(states[n], events[n], states[n + 1]));
        assert(states.drop_last().last() == states[n]);
        lemma_event_repeats_nothing(states[n], events[n], states[n + 1], found);
    }
}

/// The groups of a search hold files that were found, and none more often than it
/// was found, whatever was told, canceled or refused.
pub proof fn lemma_groups_repeat_nothing(
    states: Seq<DuplicateScan>,
    events: Seq<ScanEvent>,
    found: Seq<CandidateView>,
)
    requires
        is_course(states, events),
        is_fresh(states[0]),
        begins_with(states[0], found),
    ensures
        grouped_files(states.last().groups@).subset_of(candidate_files(found)),
{
    lemma_course_repeats_nothing(states, events, found);
    let scan = states.last();
    assert forall|x: DuplicateFileView| grouped_files(scan.groups@).count(x) <= candidate_files(
        found,
    ).count(x) by {
        assert(held_files(scan).count(x) <= candidate_files(found).count(x));
    }
}

/// A part has nothing more often than all parts together.
pub proof fn lemma_part_of_together<T>(parts: Seq<Multiset<T>>, i: int, x: T)
    requires
        0 <= i < parts.len(),
    ensures
        parts[i].count(x) <= together(parts).count(x),
{
    lemma_together_remove(parts, i);
}

proof fn lemma_parts_of_together<T>(parts: Seq<Multiset<T>>, i: int, j: int, x: T)
    requires
        0 <= i < j < parts.len(),
    ensures
        parts[i].count(x) + parts[j].count(x) <= together(parts).count(x),
{
    lemma_together_remove(parts, j);
    lemma_part_of_together(parts.remove(j), i, x);
}

proof fn lemma_counted_twice<T>(list: Seq<T>, i: int, j: int)
    requires
        0 <= i < j < list.len(),
        list[i] == list[j],
    ensures
        list.to_multiset().count(list[i]) >= 2,
{
    broadcast use vstd::seq_lib::group_to_multiset_ensures;

    let rest = list.remove(j);
    assert(rest[i] == list[i]);
    assert(rest.contains(list[i]));
    assert(rest.to_multiset().count(list[i]) > 0);
    assert(rest.to_multiset() == list.to_multiset().remove(list[j]));
    assert(list.contains(list[j]));
    assert(list.to_multiset().count(list[j]) > 0);
}

/// No path is in two groups of a search or twice in one, as long as none was found
/// twice.
pub proof fn lemma_no_path_is_grouped_twice(
    states: Seq<DuplicateScan>,
    events: Seq<ScanEvent>,
    found: Seq<CandidateView>,
    g: int,
    a: int,
    h: int,
    b: int,
)
    requires
        is_course(states, events),
        is_fresh(states[0]),
        begins_with(states[0], found),
        forall|i: int, j: int|
            0 <= i < j < found.len() ==> components((#[trigger] found[i]).file.path) != components(
                (#[trigger] found[j]).file.path,
            ),
        ({
            let groups = states.last().groups@;
            &&& 0 <= g < groups.len() && 0 <= a < groups[g].files@.len()
            &&& 0 <= h < groups.len() && 0 <= b < groups[h].files@.len()
            &&& components(groups[g].files@[a].path@) == components(groups[h].files@[b].path@)
        }),
    ensures
        g == h && a == b,
{
    broadcast use vstd::seq_lib::group_to_multiset_ensures;

    lemma_groups_repeat_nothing(states, events, found);
    let groups = states.last().groups@;
    let parts = groups.map_values(|g: DuplicateGroup| list_files(g.files@));
    let all = found.map_values(|c: CandidateView| c.file);
    let (x, y) = (groups[g].files@[a]@, groups[h].files@[b]@);
    let (p, q) = (files_view(groups[g].files@), files_view(groups[h].files@));
    assert(p[a] == x && q[b] == y);
    assert(p.contains(x) && q.contains(y));
    assert(parts[g].count(x) > 0 && parts[h].count(y) > 0);
    lemma_part_of_together(parts, g, x);
    lemma_part_of_together(parts, h, y);
    assert(all.to_multiset().count(x) > 0 && all.to_multiset().count(y) > 0);
    assert(all.contains(x) && all.contains(y));
    let i = choose|i: int| 0 <= i < all.len() && all[i] == x;
    let j = choose|j: int| 0 <= j < all.len() && all[j] == y;
    assert(found[i].file == x && found[j].file == y);
    assert(i == j);
    assert(all.no_duplicates()) by {
        assert forall|k: int, l: int| 0 <= k < all.len() && 0 <= l < all.len() && k
            != l implies all[k] != all[l] by {
            assert(found[k].file == all[k] && found[l].file == all[l]);
        }
    }
    all.lemma_multiset_has_no_duplicates();
    assert(all.to_multiset().contains(x));
    assert(all.to_multiset().count(x) == 1);
    if g < h {
        lemma_parts_of_together(parts, g, h, x);
    } else if h < g {
        lemma_parts_of_together(parts, h, g, x);
    } else if a < b {
        lemma_counted_twice(p, a, b);
    } else if b < a {
        lemma_counted_twice(p, b, a);
    }
}

} // verus!
