//! What the counter of checked files comes to.

use crate::check::{counted, next_stats, CheckStage, CheckView};
use crate::check_laws::{
    after_event, after_events, all_fit, finished, fits, lemma_event_unique, lemma_fresh_unique,
    lemma_unique_groups, unique, CheckEvent,
};
use crate::digest_classes::{class_for, has_class, repeated, with_member, ClassView};
use crate::duplicates::{Bucket, CandidateView, DuplicateScanStats};
use crate::scan::{DuplicateScan, ScanStage};
use crate::scan_laws::{
    check_event, happens, is_course, is_fresh, lemma_check_event_fits, lemma_course_prefix,
    ScanEvent,
};
use crate::size_groups::total_len;
use vstd::prelude::*;

verus! {

/// The numbers after an event of a check.
pub open spec fn event_stats(
    v: CheckView,
    stats: DuplicateScanStats,
    event: CheckEvent,
) -> DuplicateScanStats {
    match event {
        CheckEvent::Asked { canceled, cache } => next_stats(v, stats, canceled, cache),
        CheckEvent::Hashed(_) => DuplicateScanStats {
            checked_candidates: counted(stats.checked_candidates),
            hashed_files: counted(stats.hashed_files),
            ..stats
        },
        CheckEvent::HashFailed => DuplicateScanStats {
            checked_candidates: counted(stats.checked_candidates),
            ..stats
        },
        _ => stats,
    }
}

/// The numbers after the events of a check of fresh candidates.
pub open spec fn stats_after(
    candidates: Seq<CandidateView>,
    stats: DuplicateScanStats,
    events: Seq<CheckEvent>,
) -> DuplicateScanStats
    decreases events.len(),
{
    if events.len() == 0 {
        stats
    } else {
        event_stats(
            after_events(candidates, events.drop_last()),
            stats_after(candidates, stats, events.drop_last()),
            events.last(),
        )
    }
}

/// Whether nothing was canceled. Files may be unreadable.
pub open spec fn goes_on(event: CheckEvent) -> bool {
    match event {
        CheckEvent::Asked { canceled, .. } => !canceled,
        CheckEvent::HashCanceled => false,
        _ => true,
    }
}

/// How many files of a check are still to be counted.
spec fn left(v: CheckView) -> int {
    match v.stage {
        CheckStage::Glimpsing => v.candidates.len() as int,
        CheckStage::Hashing => v.survivors.len() - v.hashed,
        CheckStage::Verifying => 0,
    }
}

/// How many things are in classes.
spec fn sorted_in(classes: Seq<ClassView>) -> int
    decreases classes.len(),
{
    if classes.len() == 0 {
        0
    } else {
        sorted_in(classes.drop_last()) + classes.last().members.len()
    }
}

proof fn lemma_sorted_in_longer(classes: Seq<ClassView>, k: int, class: ClassView)
    requires
        0 <= k < classes.len(),
        class.members.len() == classes[k].members.len() + 1,
    ensures
        sorted_in(classes.update(k, class)) == sorted_in(classes) + 1,
    decreases classes.len(),
{
    let after = classes.update(k, class);
    if k < classes.len() - 1 {
        lemma_sorted_in_longer(classes.drop_last(), k, class);
        assert(after.drop_last() =~= classes.drop_last().update(k, class));
    } else {
        assert(after.drop_last() =~= classes.drop_last());
    }
}

proof fn lemma_sorted_in_with_member(classes: Seq<ClassView>, digest: Seq<u8>, member: int)
    ensures
        sorted_in(with_member(classes, digest, member)) == sorted_in(classes) + 1,
{
    if has_class(classes, digest) {
        let k = class_for(classes, digest);
        assert(0 <= k < classes.len());
        let class = ClassView { digest, members: classes[k].members.push(member) };
        lemma_sorted_in_longer(classes, k, class);
    } else {
        let after = with_member(classes, digest, member);
        assert(after.drop_last() =~= classes);
    }
}

proof fn lemma_repeated_are_sorted_in(classes: Seq<ClassView>)
    ensures
        repeated(classes).len() <= sorted_in(classes),
    decreases classes.len(),
{
    if classes.len() > 0 {
        lemma_repeated_are_sorted_in(classes.drop_last());
    }
}

/// What holds of every check: no more files are in classes than were looked at.
spec fn tidy(v: CheckView) -> bool {
    &&& unique(v)
    &&& sorted_in(v.glimpses) <= v.looked
}

proof fn lemma_fresh_tidy(candidates: Seq<CandidateView>)
    ensures
        tidy(after_events(candidates, Seq::empty())),
        left(after_events(candidates, Seq::empty())) == candidates.len(),
{
    lemma_fresh_unique(candidates);
}

/// What an event counts is what it leaves fewer to be counted; only canceling
/// leaves files out.
proof fn lemma_event_counts(v: CheckView, stats: DuplicateScanStats, event: CheckEvent)
    requires
        tidy(v),
        fits(v, event),
        stats.checked_candidates + left(v) <= usize::MAX,
    ensures
        tidy(after_event(v, event)),
        0 <= left(v),
        event_stats(v, stats, event).checked_candidates + left(after_event(v, event))
            <= stats.checked_candidates + left(v),
        goes_on(event) ==> event_stats(v, stats, event).checked_candidates + left(
            after_event(v, event),
        ) == stats.checked_candidates + left(v),
{
    lemma_unique_groups(v);
    assert(v.in_range());
    lemma_event_unique(v, event);
    lemma_unique_groups(after_event(v, event));
    lemma_repeated_are_sorted_in(v.glimpses);
    if let CheckEvent::Glimpsed(Some(digest)) = event {
        lemma_sorted_in_with_member(v.glimpses, digest, v.looked);
    }
}

proof fn lemma_events_count(
    candidates: Seq<CandidateView>,
    stats: DuplicateScanStats,
    events: Seq<CheckEvent>,
)
    requires
        all_fit(candidates, events),
        stats.checked_candidates + candidates.len() <= usize::MAX,
    ensures
        ({
            let v = after_events(candidates, events);
            let now = stats_after(candidates, stats, events).checked_candidates;
            let all = stats.checked_candidates + candidates.len();
            &&& tidy(v)
            &&& 0 <= left(v)
            &&& now + left(v) <= all
            &&& (forall|i: int| 0 <= i < events.len() ==> goes_on(#[trigger] events[i])) ==> now
                + left(v) == all
        }),
    decreases events.len(),
{
    if events.len() == 0 {
        assert(events =~= Seq::empty());
        lemma_fresh_tidy(candidates);
    } else {
        let fewer = events.drop_last();
        let n = events.len() - 1;
        assert(all_fit(candidates, fewer)) by {
            assert forall|i: int| 0 <= i < fewer.len() implies fits(
                after_events(candidates, fewer.take(i)),
                #[trigger] fewer[i],
            ) by {
                assert(fits(after_events(candidates, events.take(i)), events[i]));
                assert(fewer.take(i) =~= events.take(i));
            }
        }
        lemma_events_count(candidates, stats, fewer);
        assert(events.take(n) =~= fewer);
        assert(fits(after_events(candidates, events.take(n)), events[n]));
        lemma_event_counts(
            after_events(candidates, fewer),
            stats_after(candidates, stats, fewer),
            events.last(),
        );
        lemma_unique_groups(after_events(candidates, events));
        if forall|i: int| 0 <= i < events.len() ==> goes_on(#[trigger] events[i]) {
            assert(goes_on(events[n]));
            assert forall|i: int| 0 <= i < fewer.len() implies goes_on(#[trigger] fewer[i]) by {
                assert(goes_on(events[i]));
            }
        }
    }
}

/// A check that was not canceled counts every one of its files once, also those
/// that could not be read. One that was canceled counts no file twice.
pub proof fn lemma_check_counts_its_files(
    candidates: Seq<CandidateView>,
    stats: DuplicateScanStats,
    events: Seq<CheckEvent>,
)
    requires
        all_fit(candidates, events),
        finished(after_events(candidates, events)),
        stats.checked_candidates + candidates.len() <= usize::MAX,
    ensures
        ({
            let after = stats_after(candidates, stats, events).checked_candidates;
            &&& after <= stats.checked_candidates + candidates.len()
            &&& (forall|i: int| 0 <= i < events.len() ==> goes_on(#[trigger] events[i])) ==> after
                == stats.checked_candidates + candidates.len()
        }),
{
    lemma_events_count(candidates, stats, events);
}

/// Whether nothing was canceled or refused. Files may be unreadable.
pub open spec fn is_wanted(event: ScanEvent) -> bool {
    match event {
        ScanEvent::Stepped { canceled, .. } => !canceled,
        ScanEvent::Accepted(taken) => taken,
        ScanEvent::Hashed(outcome) => !(outcome is Canceled),
        _ => true,
    }
}

pub open spec fn all_wanted(events: Seq<ScanEvent>) -> bool {
    forall|i: int| 0 <= i < events.len() ==> is_wanted(#[trigger] events[i])
}

/// How many files of a search are still to be counted.
spec fn left_in(scan: DuplicateScan) -> int {
    total_len(scan.waiting@) + if scan.check is Some {
        left(scan.check->0@)
    } else {
        0
    }
}

/// What holds of every search.
spec fn counts(scan: DuplicateScan) -> bool {
    &&& scan.check is Some ==> tidy(scan.check->0@)
    &&& forall|i: int|
        0 <= i < scan.waiting@.len() ==> (#[trigger] scan.waiting@[i]).files@.len() > 1
    &&& scan.stats.checked_candidates + left_in(scan) <= scan.stats.candidate_files
}

/// What holds, besides, of a search that was neither canceled nor refused.
spec fn counts_all(scan: DuplicateScan) -> bool {
    &&& scan.stats.checked_candidates + left_in(scan) == scan.stats.candidate_files
    &&& scan.stage == ScanStage::DeliveredLast || scan.stage == ScanStage::Finished
        ==> scan.waiting@.len() == 0
}

proof fn lemma_event_keeps_counts(before: DuplicateScan, event: ScanEvent, after: DuplicateScan)
    requires
        counts(before),
        happens(before, event, after),
    ensures
        counts(after),
        counts_all(before) && is_wanted(event) ==> counts_all(after),
{
    if let Some(told) = check_event(before, event) {
        let v = before.check->0@;
        lemma_check_event_fits(before, event);
        lemma_event_counts(v, before.stats, told);
    }
    if before.check is None && after.check is Some {
        let bucket: Bucket = before.waiting@.last();
        assert(bucket@.len() == bucket.files@.len());
        lemma_fresh_tidy(bucket@);
    }
    match before.stage {
        ScanStage::Between => {
            if after.waiting != before.waiting {
                let n = before.waiting@.len() - 1;
                assert(before.waiting@[n].files@.len() > 1);
                assert forall|i: int| 0 <= i < after.waiting@.len() implies (
                #[trigger] after.waiting@[i]).files@.len() > 1 by {
                    assert(after.waiting@[i] == before.waiting@[i]);
                }
            }
        },
        _ => {},
    }
}

proof fn lemma_course_counts(states: Seq<DuplicateScan>, events: Seq<ScanEvent>)
    requires
        is_course(states, events),
        is_fresh(states[0]),
    ensures
        counts(states.last()),
        all_wanted(events) ==> counts_all(states.last()),
    decreases events.len(),
{
    if events.len() > 0 {
        let n = events.len() - 1;
        lemma_course_prefix(states, events, |p: Seq<u8>| p);
        lemma_course_counts(states.drop_last(), events.drop_last());
        assert(happens(states[n], events[n], states[n + 1]));
        assert(states.drop_last().last() == states[n]);
        lemma_event_keeps_counts(states[n], events[n], states[n + 1]);
        if all_wanted(events) {
            assert(is_wanted(events[n]));
            assert(all_wanted(events.drop_last())) by {
                assert forall|i: int| 0 <= i < n implies is_wanted(
                    #[trigger] events.drop_last()[i],
                ) by {
                    assert(is_wanted(events[i]));
                }
            }
        }
    }
}

/// At any time a search has counted no more files as checked than there are to
/// check. When it has ended, and was neither canceled nor refused, it has counted
/// all of them, also those that could not be read.
pub proof fn lemma_all_candidates_are_checked(
    states: Seq<DuplicateScan>,
    events: Seq<ScanEvent>,
)
    requires
        is_course(states, events),
        is_fresh(states[0]),
    ensures
        ({
            let scan = states.last();
            &&& scan.stats.checked_candidates <= scan.stats.candidate_files
            &&& scan.stage == ScanStage::Finished && all_wanted(events)
                ==> scan.stats.checked_candidates == scan.stats.candidate_files
        }),
{
    lemma_course_counts(states, events);
    let scan = states.last();
    assert(scan.wf()) by {
        if events.len() > 0 {
            let n = events.len() - 1;
            assert(happens(states[n], events[n], states[n + 1]));
        }
    }
    if scan.check is Some {
        lemma_unique_groups(scan.check->0@);
    }
}

} // verus!
