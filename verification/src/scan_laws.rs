//! What a whole search for duplicates comes to.

use crate::batches::DuplicateScanBatch;
use crate::check::{
    cached_digest, files_at, is_sorted_group, next_action, CheckView, HashOutcome,
};
use crate::check_laws::{
    compared, finished, fits, lemma_compared_groups, lemma_event_compared, lemma_event_sound,
    lemma_event_whole, lemma_fresh_compared, lemma_fresh_sound, lemma_fresh_whole,
    lemma_sound_is_compared, lemma_whole_groups, sound, truthful, whole, CheckEvent,
};
use crate::digest::blake3_digest;
use crate::duplicates::{
    files_view, Bucket, CacheKeyView, CandidateView, DuplicateFile, DuplicateFileView,
    DuplicateGroup,
};
use crate::order::{is_stable_sort, SortItem};
use crate::scan::{
    awaits_comparison, awaits_glimpse, awaits_hash, remembering, stepped, took_in_batch,
    took_in_comparison, took_in_glimpse, took_in_hash, took_in_piece, DuplicateScan, ScanAction, ScanStage,
};
use crate::size_groups::{are_shared_sizes, of_size, total_len};
use vstd::prelude::*;

verus! {

/// What happens to a search: it is asked what to do next, or an answer comes in.
pub ghost enum ScanEvent {
    Stepped { canceled: bool, now: u64, cache: Map<CacheKeyView, Seq<u8>>, action: ScanAction },
    Accepted(bool),
    Glimpsed(Option<Seq<u8>>),
    PieceRead { more: int, now: u64, report: Option<DuplicateScanBatch> },
    Hashed(HashOutcome),
    Compared(bool),
}

/// Whether an event brings a search from one state to another.
pub open spec fn happens(before: DuplicateScan, event: ScanEvent, after: DuplicateScan) -> bool {
    &&& before.wf()
    &&& after.wf()
    &&& match event {
        ScanEvent::Stepped { canceled, now, cache, action } => stepped(
            before,
            after,
            canceled,
            now,
            cache,
            action,
        ),
        ScanEvent::Accepted(taken) => took_in_batch(before, after, taken),
        ScanEvent::Glimpsed(digest) => took_in_glimpse(before, after, digest),
        ScanEvent::PieceRead { more, now, report } => before.stage == ScanStage::Checking
            && took_in_piece(before, after, more, now, report),
        ScanEvent::Hashed(outcome) => took_in_hash(before, after, outcome),
        ScanEvent::Compared(equal) => took_in_comparison(before, after, equal),
    }
}

/// The contents of files by their positions, given the contents by their paths.
pub open spec fn contents(
    candidates: Seq<CandidateView>,
    content: spec_fn(Seq<u8>) -> Seq<u8>,
) -> spec_fn(int) -> Seq<u8> {
    |i: int| content(candidates[i].file.path)
}

/// The event of the check that goes on, where an event is one.
pub open spec fn check_event(scan: DuplicateScan, event: ScanEvent) -> Option<CheckEvent> {
    match event {
        ScanEvent::Stepped { canceled, cache, .. } => if scan.check is Some {
            Some(CheckEvent::Asked { canceled, cache })
        } else {
            None
        },
        ScanEvent::Glimpsed(digest) => if awaits_glimpse(scan) {
            Some(CheckEvent::Glimpsed(digest))
        } else {
            None
        },
        ScanEvent::Hashed(outcome) => if awaits_hash(scan) {
            Some(
                match outcome {
                    HashOutcome::Hashed(digest) => CheckEvent::Hashed(digest@),
                    HashOutcome::Failed => CheckEvent::HashFailed,
                    HashOutcome::Canceled => CheckEvent::HashCanceled,
                },
            )
        } else {
            None
        },
        ScanEvent::Compared(equal) => if awaits_comparison(scan) {
            Some(CheckEvent::Compared(equal))
        } else {
            None
        },
        _ => None,
    }
}

/// Whether an answer, or a remembered digest, is true of the files' contents.
pub open spec fn is_true(
    scan: DuplicateScan,
    event: ScanEvent,
    content: spec_fn(Seq<u8>) -> Seq<u8>,
) -> bool {
    match check_event(scan, event) {
        Some(told) => {
            let v = scan.check->0@;
            truthful(v, told, contents(v.candidates, content))
        },
        None => true,
    }
}

/// Whether nothing was canceled, refused or unreadable.
pub open spec fn is_undisturbed(event: ScanEvent) -> bool {
    match event {
        ScanEvent::Stepped { canceled, .. } => !canceled,
        ScanEvent::Accepted(taken) => taken,
        ScanEvent::Glimpsed(digest) => digest is Some,
        ScanEvent::Hashed(outcome) => outcome is Hashed,
        _ => true,
    }
}

/// Whether files have the same content.
pub open spec fn of_one_content(
    files: Seq<DuplicateFileView>,
    content: spec_fn(Seq<u8>) -> Seq<u8>,
) -> bool {
    forall|i: int, j: int|
        0 <= i < files.len() && 0 <= j < files.len() ==> content((#[trigger] files[i]).path)
            == content((#[trigger] files[j]).path)
}

/// Whether files that stand together have the same content.
pub open spec fn files_agree(scan: DuplicateScan, content: spec_fn(Seq<u8>) -> Seq<u8>) -> bool {
    &&& forall|k: int|
        0 <= k < scan.equal@.len() ==> of_one_content(
            files_view((#[trigger] scan.equal@[k])@),
            content,
        )
    &&& forall|g: int|
        0 <= g < scan.groups@.len() ==> of_one_content(
            files_view((#[trigger] scan.groups@[g]).files@),
            content,
        )
}

/// What holds of a search whose answers were true.
pub open spec fn honest(scan: DuplicateScan, content: spec_fn(Seq<u8>) -> Seq<u8>) -> bool {
    &&& scan.check is Some ==> sound(
        scan.check->0@,
        contents(scan.check->0@.candidates, content),
    )
    &&& files_agree(scan, content)
}

/// What holds of a search whose comparisons were true, whatever digests it was
/// told or found remembered.
pub open spec fn compares_honestly(
    scan: DuplicateScan,
    content: spec_fn(Seq<u8>) -> Seq<u8>,
) -> bool {
    &&& scan.check is Some ==> compared(
        scan.check->0@,
        contents(scan.check->0@.candidates, content),
    )
    &&& files_agree(scan, content)
}

/// Every value of a sorted list was in the list before.
pub proof fn lemma_sorted_from<T: SortItem>(before: Seq<T>, after: Seq<T>, i: int) -> (j: int)
    requires
        is_stable_sort(before, after),
        0 <= i < after.len(),
    ensures
        0 <= j < before.len(),
        before[j] == after[i],
{
    broadcast use vstd::seq_lib::group_to_multiset_ensures;

    assert(after.contains(after[i]));
    assert(after.to_multiset().count(after[i]) > 0);
    assert(before.contains(after[i]));
    choose|j: int| 0 <= j < before.len() && before[j] == after[i]
}

/// The files of a group are those at its positions.
proof fn lemma_group_member(
    files: Seq<DuplicateFile>,
    candidates: Seq<CandidateView>,
    positions: Seq<int>,
    i: int,
) -> (j: int)
    requires
        is_sorted_group(files, candidates, positions),
        0 <= i < files.len(),
    ensures
        0 <= j < positions.len(),
        files[i]@ == candidates[positions[j]].file,
{
    let unsorted = choose|unsorted: Seq<DuplicateFile>|
        files_view(unsorted) == files_at(candidates, positions) && #[trigger] is_stable_sort(
            unsorted,
            files,
        );
    let j = lemma_sorted_from(unsorted, files, i);
    assert(files_view(unsorted).len() == unsorted.len());
    assert(files_at(candidates, positions).len() == positions.len());
    assert(files_view(unsorted)[j] == unsorted[j]@);
    assert(files_at(candidates, positions)[j] == candidates[positions[j]].file);
    j
}

proof fn lemma_sorting_keeps_honest(
    before: Seq<DuplicateGroup>,
    after: Seq<DuplicateGroup>,
    content: spec_fn(Seq<u8>) -> Seq<u8>,
)
    requires
        is_stable_sort(before, after),
        forall|g: int|
            0 <= g < before.len() ==> of_one_content(
                files_view((#[trigger] before[g]).files@),
                content,
            ),
    ensures
        forall|g: int|
            0 <= g < after.len() ==> of_one_content(
                files_view((#[trigger] after[g]).files@),
                content,
            ),
{
    assert forall|g: int| 0 <= g < after.len() implies of_one_content(
        files_view((#[trigger] after[g]).files@),
        content,
    ) by {
        let h = lemma_sorted_from(before, after, g);
        assert(of_one_content(files_view(before[h].files@), content));
    }
}

/// Equal files that leave a check have the same content.
proof fn lemma_leaving_check_honest(
    v: CheckView,
    files: Seq<DuplicateFile>,
    k: int,
    content: spec_fn(Seq<u8>) -> Seq<u8>,
)
    requires
        compared(v, contents(v.candidates, content)),
        0 <= k < v.groups.len(),
        is_sorted_group(files, v.candidates, v.groups[k]),
    ensures
        of_one_content(files_view(files), content),
{
    let by_position = contents(v.candidates, content);
    lemma_compared_groups(v, by_position);
    assert forall|i: int, j: int|
        0 <= i < files_view(files).len() && 0 <= j < files_view(files).len() implies content(
        (#[trigger] files_view(files)[i]).path,
    ) == content((#[trigger] files_view(files)[j]).path) by {
        let a = lemma_group_member(files, v.candidates, v.groups[k], i);
        let b = lemma_group_member(files, v.candidates, v.groups[k], j);
        assert(by_position(v.groups[k][a]) == by_position(v.groups[k][b]));
    }
}

/// What a search is told is an answer to what its check has to find out.
pub proof fn lemma_check_event_fits(scan: DuplicateScan, event: ScanEvent)
    requires
        scan.wf(),
        check_event(scan, event) is Some,
    ensures
        scan.check is Some,
        fits(scan.check->0@, check_event(scan, event)->0),
{
}

/// Files that stand together after an event have the same content where those
/// before it had.
proof fn lemma_event_keeps_agreement(
    before: DuplicateScan,
    event: ScanEvent,
    after: DuplicateScan,
    content: spec_fn(Seq<u8>) -> Seq<u8>,
)
    requires
        compares_honestly(before, content),
        happens(before, event, after),
    ensures
        files_agree(after, content),
{
    match event {
        ScanEvent::Stepped { canceled, now, cache, action } => {
            match before.stage {
                ScanStage::Between => {
                    if canceled || before.waiting@.len() == 0 {
                        if before.emitter.pending@.len() == 0 {
                            lemma_sorting_keeps_honest(before.groups@, after.groups@, content);
                        }
                    }
                },
                ScanStage::Checking => {
                    let v = before.check->0@;
                    if next_action(v, canceled, cache) is Done {
                        assert forall|k: int| 0 <= k < after.equal@.len() implies of_one_content(
                            files_view((#[trigger] after.equal@[k])@),
                            content,
                        ) by {
                            lemma_leaving_check_honest(
                                v,
                                after.equal@[k]@,
                                v.groups.len() - 1 - k,
                                content,
                            );
                        }
                    }
                },
                ScanStage::Collecting => {
                    if before.equal@.len() > 0 {
                        let last = before.equal@.len() - 1;
                        assert(of_one_content(files_view(before.equal@[last]@), content));
                    }
                },
                _ => {},
            }
        },
        ScanEvent::Accepted(taken) => {
            if after.stage == ScanStage::Finished && before.stage != ScanStage::Finished {
                lemma_sorting_keeps_honest(before.groups@, after.groups@, content);
            }
        },
        _ => {},
    }
}

/// An event whose answer is true leaves a search honest.
pub proof fn lemma_event_keeps_honest(
    before: DuplicateScan,
    event: ScanEvent,
    after: DuplicateScan,
    content: spec_fn(Seq<u8>) -> Seq<u8>,
)
    requires
        honest(before, content),
        happens(before, event, after),
        is_true(before, event, content),
    ensures
        honest(after, content),
{
    if before.check is Some {
        let v = before.check->0@;
        lemma_sound_is_compared(v, contents(v.candidates, content));
    }
    if let Some(told) = check_event(before, event) {
        lemma_check_event_fits(before, event);
        let v = before.check->0@;
        lemma_event_sound(v, told, contents(v.candidates, content));
    }
    if after.check is Some && before.check is None {
        let candidates = before.waiting@.last()@;
        lemma_fresh_sound(candidates, contents(candidates, content));
    }
    lemma_event_keeps_agreement(before, event, after, content);
}

/// Whether an event is no comparison of files, or one that is true.
pub open spec fn compares_in_truth(
    scan: DuplicateScan,
    event: ScanEvent,
    content: spec_fn(Seq<u8>) -> Seq<u8>,
) -> bool {
    event is Compared ==> is_true(scan, event, content)
}

/// A true comparison leaves the comparisons of a search honest, and so does every
/// other event.
pub proof fn lemma_event_keeps_comparisons(
    before: DuplicateScan,
    event: ScanEvent,
    after: DuplicateScan,
    content: spec_fn(Seq<u8>) -> Seq<u8>,
)
    requires
        compares_honestly(before, content),
        happens(before, event, after),
        compares_in_truth(before, event, content),
    ensures
        compares_honestly(after, content),
{
    if let Some(told) = check_event(before, event) {
        lemma_check_event_fits(before, event);
        let v = before.check->0@;
        lemma_event_compared(v, told, contents(v.candidates, content));
    }
    if after.check is Some && before.check is None {
        let candidates = before.waiting@.last()@;
        lemma_fresh_compared(candidates, contents(candidates, content));
    }
    lemma_event_keeps_agreement(before, event, after, content);
}

/// Whether events bring a search from state to state.
pub open spec fn is_course(states: Seq<DuplicateScan>, events: Seq<ScanEvent>) -> bool {
    &&& states.len() == events.len() + 1
    &&& forall|i: int|
        0 <= i < events.len() ==> happens(states[i], #[trigger] events[i], states[i + 1])
}

/// Whether a search has found out nothing yet.
pub open spec fn is_fresh(scan: DuplicateScan) -> bool {
    &&& scan.wf()
    &&& scan.stage == ScanStage::Grouped
    &&& scan.equal@.len() == 0
    &&& scan.groups@.len() == 0
    &&& scan.next_id == 1
    &&& scan.stats.candidate_files == total_len(scan.waiting@)
    &&& scan.stats.checked_candidates == 0
    &&& scan.stats.groups == 0
    &&& scan.stats.duplicate_bytes == 0
    &&& forall|i: int|
        0 <= i < scan.waiting@.len() ==> (#[trigger] scan.waiting@[i]).files@.len() > 1
}

pub open spec fn all_true(
    states: Seq<DuplicateScan>,
    events: Seq<ScanEvent>,
    content: spec_fn(Seq<u8>) -> Seq<u8>,
) -> bool {
    forall|i: int| 0 <= i < events.len() ==> is_true(states[i], #[trigger] events[i], content)
}

proof fn lemma_course_honest(
    states: Seq<DuplicateScan>,
    events: Seq<ScanEvent>,
    content: spec_fn(Seq<u8>) -> Seq<u8>,
)
    requires
        is_course(states, events),
        is_fresh(states[0]),
        all_true(states, events, content),
    ensures
        honest(states.last(), content),
        states.last().wf(),
    decreases events.len(),
{
    if events.len() > 0 {
        let n = events.len() - 1;
        lemma_course_prefix(states, events, content);
        lemma_course_honest(states.drop_last(), events.drop_last(), content);
        assert(happens(states[n], events[n], states[n + 1]));
        assert(is_true(states[n], events[n], content));
        assert(states.drop_last().last() == states[n]);
        lemma_event_keeps_honest(states[n], events[n], states[n + 1], content);
    }
}

/// Every group that a search finds holds several files, and they have the same
/// content, as long as the comparisons are true, whatever was canceled, refused or
/// unreadable on the way. No digest, whether told or remembered, can bring
/// different files into one group.
pub proof fn lemma_groups_rest_on_comparisons(
    states: Seq<DuplicateScan>,
    events: Seq<ScanEvent>,
    content: spec_fn(Seq<u8>) -> Seq<u8>,
)
    requires
        is_course(states, events),
        is_fresh(states[0]),
        forall|i: int|
            0 <= i < events.len() ==> compares_in_truth(states[i], #[trigger] events[i], content),
    ensures
        forall|g: int|
            0 <= g < states.last().groups@.len() ==> (#[trigger] states.last().groups@[g]).files@.len()
                > 1 && of_one_content(files_view(states.last().groups@[g].files@), content),
{
    lemma_course_compares_honestly(states, events, content);
}

proof fn lemma_course_compares_honestly(
    states: Seq<DuplicateScan>,
    events: Seq<ScanEvent>,
    content: spec_fn(Seq<u8>) -> Seq<u8>,
)
    requires
        is_course(states, events),
        is_fresh(states[0]),
        forall|i: int|
            0 <= i < events.len() ==> compares_in_truth(states[i], #[trigger] events[i], content),
    ensures
        compares_honestly(states.last(), content),
        states.last().wf(),
    decreases events.len(),
{
    if events.len() > 0 {
        let n = events.len() - 1;
        let (s, e) = (states.drop_last(), events.drop_last());
        lemma_course_prefix(states, events, content);
        assert forall|i: int| 0 <= i < e.len() implies compares_in_truth(
            s[i],
            #[trigger] e[i],
            content,
        ) by {
            assert(e[i] == events[i]);
        }
        lemma_course_compares_honestly(s, e, content);
        assert(happens(states[n], events[n], states[n + 1]));
        assert(compares_in_truth(states[n], events[n], content));
        assert(s.last() == states[n]);
        lemma_event_keeps_comparisons(states[n], events[n], states[n + 1], content);
    }
}

/// A course without its last event is one.
pub proof fn lemma_course_prefix(
    states: Seq<DuplicateScan>,
    events: Seq<ScanEvent>,
    content: spec_fn(Seq<u8>) -> Seq<u8>,
)
    requires
        is_course(states, events),
        events.len() > 0,
    ensures
        is_course(states.drop_last(), events.drop_last()),
        all_true(states, events, content) ==> all_true(
            states.drop_last(),
            events.drop_last(),
            content,
        ),
{
    let (s, e) = (states.drop_last(), events.drop_last());
    assert forall|i: int| 0 <= i < e.len() implies happens(s[i], #[trigger] e[i], s[i + 1]) by {
        assert(e[i] == events[i]);
    }
    if all_true(states, events, content) {
        assert forall|i: int| 0 <= i < e.len() implies is_true(s[i], #[trigger] e[i], content) by {
            assert(e[i] == events[i]);
        }
    }
}

/// Whether every remembered digest is that of the content which its key stands
/// for.
pub open spec fn remembers_truly(
    cache: Map<CacheKeyView, Seq<u8>>,
    content_for: spec_fn(CacheKeyView) -> Seq<u8>,
) -> bool {
    forall|key: CacheKeyView| #[trigger]
        cache.contains_key(key) ==> cache[key] == blake3_digest(content_for(key))
}

/// Whether the keys of files stand for their contents: no file has changed
/// without its key.
pub open spec fn keys_hold(
    candidates: Seq<CandidateView>,
    content: spec_fn(Seq<u8>) -> Seq<u8>,
    content_for: spec_fn(CacheKeyView) -> Seq<u8>,
) -> bool {
    forall|i: int|
        0 <= i < candidates.len() && (#[trigger] candidates[i]).cache_key is Some ==> content_for(
            candidates[i].cache_key->0,
        ) == content(candidates[i].file.path)
}

/// What is remembered stays true as long as the answers are, so it may be used
/// in later searches: a digest that is looked up is as good as one that is
/// computed.
pub proof fn lemma_memory_stays_true(
    scan: DuplicateScan,
    outcome: HashOutcome,
    cache: Map<CacheKeyView, Seq<u8>>,
    content: spec_fn(Seq<u8>) -> Seq<u8>,
    content_for: spec_fn(CacheKeyView) -> Seq<u8>,
    canceled: bool,
    now: u64,
    action: ScanAction,
)
    requires
        scan.wf(),
        scan.check is Some ==> keys_hold(scan.check->0@.candidates, content, content_for),
        remembers_truly(cache, content_for),
        is_true(scan, ScanEvent::Hashed(outcome), content),
    ensures
        remembers_truly(remembering(scan, outcome, cache), content_for),
        is_true(scan, ScanEvent::Stepped { canceled, now, cache, action }, content),
{
    if scan.check is Some {
        let v = scan.check->0@;
        assert forall|i: int| 0 <= i < v.candidates.len() implies match cached_digest(
            #[trigger] v.candidates[i],
            cache,
        ) {
            Some(digest) => digest == blake3_digest(contents(v.candidates, content)(i)),
            None => true,
        } by {
            if let Some(key) = v.candidates[i].cache_key {
                if cache.contains_key(key) {
                    assert(content_for(key) == content(v.candidates[i].file.path));
                }
            }
        }
        if awaits_hash(scan) {
            assert(v.in_range());
            let i = v.survivors[v.hashed];
            assert(0 <= i < v.candidates.len());
            assert(v.candidates[i].cache_key is Some ==> content_for(v.candidates[i].cache_key->0)
                == content(v.candidates[i].file.path));
        }
    }
}

/// Whether two of the files found have the same size and content.
pub open spec fn are_twins(
    found: Seq<CandidateView>,
    content: spec_fn(Seq<u8>) -> Seq<u8>,
    i: int,
    j: int,
) -> bool {
    &&& 0 <= i < j < found.len()
    &&& found[i].file.size == found[j].file.size
    &&& content(found[i].file.path) == content(found[j].file.path)
}

/// Whether a list has two values at different places.
pub open spec fn has_pair<T>(list: Seq<T>, a: T, b: T) -> bool {
    exists|x: int, y: int|
        0 <= x < list.len() && 0 <= y < list.len() && x != y && #[trigger] list[x] == a
            && #[trigger] list[y] == b
}

/// Whether some bucket has both files.
spec fn waits(scan: DuplicateScan, a: CandidateView, b: CandidateView) -> bool {
    exists|w: int| 0 <= w < scan.waiting@.len() && has_pair((#[trigger] scan.waiting@[w])@, a, b)
}

/// Whether some list of equal files has both.
spec fn is_equal_pair(scan: DuplicateScan, a: DuplicateFileView, b: DuplicateFileView) -> bool {
    exists|k: int|
        0 <= k < scan.equal@.len() && has_pair(files_view((#[trigger] scan.equal@[k])@), a, b)
}

/// Whether some group has both files.
pub open spec fn is_grouped(
    groups: Seq<DuplicateGroup>,
    a: DuplicateFileView,
    b: DuplicateFileView,
) -> bool {
    exists|g: int|
        0 <= g < groups.len() && has_pair(files_view((#[trigger] groups[g]).files@), a, b)
}

/// Whether two files are still to be compared or are known to be equal.
spec fn is_kept(scan: DuplicateScan, a: CandidateView, b: CandidateView) -> bool {
    ||| waits(scan, a, b)
    ||| scan.check is Some && has_pair(scan.check->0@.candidates, a, b)
    ||| is_equal_pair(scan, a.file, b.file)
    ||| is_grouped(scan.groups@, a.file, b.file)
}

/// What holds of a search whose answers were true and that nothing disturbed: no
/// pair of equal files is lost.
pub closed spec fn loses_nothing(
    scan: DuplicateScan,
    found: Seq<CandidateView>,
    content: spec_fn(Seq<u8>) -> Seq<u8>,
) -> bool {
    &&& scan.check is Some ==> whole(
        scan.check->0@,
        contents(scan.check->0@.candidates, content),
    )
    &&& scan.stage == ScanStage::Finished || scan.stage == ScanStage::DeliveredLast
        ==> scan.waiting@.len() == 0 && scan.equal@.len() == 0
    &&& forall|i: int, j: int| #[trigger]
        are_twins(found, content, i, j) ==> is_kept(scan, found[i], found[j])
}

/// A sorted list has two values at different places where the list before had.
proof fn lemma_sorting_keeps_pair<T: SortItem>(before: Seq<T>, after: Seq<T>, x: int, y: int)
    requires
        is_stable_sort(before, after),
        0 <= x < before.len(),
        0 <= y < before.len(),
        x != y,
    ensures
        has_pair(after, before[x], before[y]),
{
    broadcast use vstd::seq_lib::group_to_multiset_ensures;

    let (a, b) = (before[x], before[y]);
    assert(before.contains(a) && before.contains(b));
    assert(before.to_multiset().count(a) > 0);
    assert(before.to_multiset().count(b) > 0);
    assert(after.contains(a) && after.contains(b));
    let p = choose|p: int| 0 <= p < after.len() && after[p] == a;
    let q = choose|q: int| 0 <= q < after.len() && after[q] == b;
    if a == b {
        let fewer = before.remove(x);
        let y2 = if y < x {
            y
        } else {
            y - 1
        };
        assert(fewer[y2] == a);
        assert(fewer.contains(a));
        assert(fewer.to_multiset() == before.to_multiset().remove(a));
        assert(fewer.to_multiset().count(a) > 0);
        let rest = after.remove(p);
        assert(rest.to_multiset() == after.to_multiset().remove(a));
        assert(rest.to_multiset().count(a) > 0);
        assert(rest.contains(a));
        let r = choose|r: int| 0 <= r < rest.len() && rest[r] == a;
        let r2 = if r < p {
            r
        } else {
            r + 1
        };
        assert(after[r2] == a && r2 != p);
    } else {
        assert(p != q);
    }
}

/// Sorting groups keeps the pairs in them.
proof fn lemma_sorting_keeps_grouped(
    before: Seq<DuplicateGroup>,
    after: Seq<DuplicateGroup>,
    a: DuplicateFileView,
    b: DuplicateFileView,
)
    requires
        is_stable_sort(before, after),
        is_grouped(before, a, b),
    ensures
        is_grouped(after, a, b),
{
    broadcast use vstd::seq_lib::group_to_multiset_ensures;

    let g = choose|g: int|
        0 <= g < before.len() && has_pair(files_view((#[trigger] before[g]).files@), a, b);
    assert(before.contains(before[g]));
    assert(before.to_multiset().count(before[g]) > 0);
    assert(after.contains(before[g]));
    let h = choose|h: int| 0 <= h < after.len() && after[h] == before[g];
    assert(has_pair(files_view(after[h].files@), a, b));
}

/// Equal files that leave a check stay together.
proof fn lemma_leaving_check_pair(
    v: CheckView,
    files: Seq<DuplicateFile>,
    k: int,
    x: int,
    y: int,
)
    requires
        0 <= k < v.groups.len(),
        is_sorted_group(files, v.candidates, v.groups[k]),
        v.groups[k].contains(x),
        v.groups[k].contains(y),
        x != y,
    ensures
        has_pair(files_view(files), v.candidates[x].file, v.candidates[y].file),
{
    let positions = v.groups[k];
    let unsorted = choose|unsorted: Seq<DuplicateFile>|
        files_view(unsorted) == files_at(v.candidates, positions) && #[trigger] is_stable_sort(
            unsorted,
            files,
        );
    let p = choose|p: int| 0 <= p < positions.len() && positions[p] == x;
    let q = choose|q: int| 0 <= q < positions.len() && positions[q] == y;
    assert(files_view(unsorted).len() == unsorted.len());
    assert(files_at(v.candidates, positions).len() == positions.len());
    assert(files_view(unsorted)[p] == unsorted[p]@);
    assert(files_view(unsorted)[q] == unsorted[q]@);
    assert(files_at(v.candidates, positions)[p] == v.candidates[x].file);
    assert(files_at(v.candidates, positions)[q] == v.candidates[y].file);
    lemma_sorting_keeps_pair(unsorted, files, p, q);
    let (i, j) = choose|i: int, j: int|
        0 <= i < files.len() && 0 <= j < files.len() && i != j && #[trigger] files[i] == unsorted[p]
            && #[trigger] files[j] == unsorted[q];
    assert(files_view(files)[i] == v.candidates[x].file);
    assert(files_view(files)[j] == v.candidates[y].file);
}

/// A finished check hands on every pair of equal files.
proof fn lemma_finished_check_pair(
    before: DuplicateScan,
    after: DuplicateScan,
    a: CandidateView,
    b: CandidateView,
    content: spec_fn(Seq<u8>) -> Seq<u8>,
)
    requires
        before.check is Some,
        ({
            let v = before.check->0@;
            &&& finished(v)
            &&& sound(v, contents(v.candidates, content))
            &&& whole(v, contents(v.candidates, content))
            &&& has_pair(v.candidates, a, b)
            &&& after.equal@.len() == v.groups.len()
            &&& forall|k: int|
                0 <= k < v.groups.len() ==> is_sorted_group(
                    (#[trigger] after.equal@[k])@,
                    v.candidates,
                    v.groups[v.groups.len() - 1 - k],
                )
        }),
        content(a.file.path) == content(b.file.path),
    ensures
        is_equal_pair(after, a.file, b.file),
{
    let v = before.check->0@;
    let (x, y) = choose|x: int, y: int|
        0 <= x < v.candidates.len() && 0 <= y < v.candidates.len() && x != y
            && #[trigger] v.candidates[x] == a && #[trigger] v.candidates[y] == b;
    let by_position = contents(v.candidates, content);
    assert(by_position(x) == by_position(y));
    lemma_whole_groups(v, by_position, x, y);
    let k = choose|k: int|
        0 <= k < v.groups.len() && (#[trigger] v.groups[k]).contains(x) && v.groups[k].contains(y);
    let l = v.groups.len() - 1 - k;
    assert(is_sorted_group(after.equal@[l]@, v.candidates, v.groups[v.groups.len() - 1 - l]));
    lemma_leaving_check_pair(v, after.equal@[l]@, k, x, y);
}

/// What one step does to a pair of equal files.
proof fn lemma_step_keeps_pair(
    before: DuplicateScan,
    event: ScanEvent,
    after: DuplicateScan,
    a: CandidateView,
    b: CandidateView,
    content: spec_fn(Seq<u8>) -> Seq<u8>,
)
    requires
        event is Stepped,
        honest(before, content),
        before.check is Some ==> whole(
            before.check->0@,
            contents(before.check->0@.candidates, content),
        ),
        happens(before, event, after),
        is_undisturbed(event),
        is_kept(before, a, b),
        content(a.file.path) == content(b.file.path),
    ensures
        is_kept(after, a, b),
{
    match before.stage {
        ScanStage::Between => {
            if before.waiting@.len() == 0 {
                if before.emitter.pending@.len() == 0 && is_grouped(before.groups@, a.file, b.file) {
                    lemma_sorting_keeps_grouped(before.groups@, after.groups@, a.file, b.file);
                }
            } else if waits(before, a, b) {
                let w = choose|w: int|
                    0 <= w < before.waiting@.len() && has_pair(
                        (#[trigger] before.waiting@[w])@,
                        a,
                        b,
                    );
                if w < before.waiting@.len() - 1 {
                    assert(after.waiting@[w] == before.waiting@[w]);
                    assert(waits(after, a, b));
                } else {
                    let bucket = before.waiting@.last();
                    assert(bucket@.len() == bucket.files@.len());
                    assert(after.check->0@.candidates == bucket@);
                }
            }
        },
        ScanStage::Checking => {
            let v = before.check->0@;
            if let ScanEvent::Stepped { canceled, cache, .. } = event {
                if next_action(v, canceled, cache) is Done {
                    if has_pair(v.candidates, a, b) {
                        lemma_finished_check_pair(before, after, a, b, content);
                    }
                }
            }
        },
        ScanStage::Collecting => {
            if before.equal@.len() > 0 {
                let last = before.equal@.len() - 1;
                if is_equal_pair(before, a.file, b.file) {
                    let k = choose|k: int|
                        0 <= k < before.equal@.len() && has_pair(
                            files_view((#[trigger] before.equal@[k])@),
                            a.file,
                            b.file,
                        );
                    if k < last {
                        assert(after.equal@[k] == before.equal@[k]);
                    } else {
                        let g = before.groups@.len() as int;
                        assert(after.groups@[g].files == before.equal@[last]);
                        assert(has_pair(files_view(after.groups@[g].files@), a.file, b.file));
                    }
                }
                if is_grouped(before.groups@, a.file, b.file) {
                    let g = choose|g: int|
                        0 <= g < before.groups@.len() && has_pair(
                            files_view((#[trigger] before.groups@[g]).files@),
                            a.file,
                            b.file,
                        );
                    assert(after.groups@[g] == before.groups@[g]);
                }
            }
        },
        _ => {},
    }
}

proof fn lemma_same_files_kept(
    before: DuplicateScan,
    after: DuplicateScan,
    a: CandidateView,
    b: CandidateView,
)
    requires
        after.waiting == before.waiting,
        after.equal == before.equal,
        after.groups == before.groups,
        after.check is Some <==> before.check is Some,
        after.check is Some ==> after.check->0@.candidates == before.check->0@.candidates,
        is_kept(before, a, b),
    ensures
        is_kept(after, a, b),
{
    assert(waits(before, a, b) ==> waits(after, a, b));
    assert(is_equal_pair(before, a.file, b.file) ==> is_equal_pair(after, a.file, b.file));
}

/// An event that disturbs nothing, and whose answer is true, loses nothing.
pub proof fn lemma_event_loses_nothing(
    before: DuplicateScan,
    event: ScanEvent,
    after: DuplicateScan,
    found: Seq<CandidateView>,
    content: spec_fn(Seq<u8>) -> Seq<u8>,
)
    requires
        honest(before, content),
        loses_nothing(before, found, content),
        happens(before, event, after),
        is_true(before, event, content),
        is_undisturbed(event),
    ensures
        loses_nothing(after, found, content),
{
    if let Some(told) = check_event(before, event) {
        lemma_check_event_fits(before, event);
        let v = before.check->0@;
        lemma_event_whole(v, told, contents(v.candidates, content));
    }
    if after.check is Some && before.check is None {
        let candidates = before.waiting@.last()@;
        lemma_fresh_whole(candidates, contents(candidates, content));
    }
    assert forall|i: int, j: int| #[trigger] are_twins(found, content, i, j) implies is_kept(
        after,
        found[i],
        found[j],
    ) by {
        let (a, b) = (found[i], found[j]);
        assert(is_kept(before, a, b));
        match event {
            ScanEvent::Stepped { .. } => lemma_step_keeps_pair(before, event, after, a, b, content),
            ScanEvent::Accepted(_) => {
                if before.stage == ScanStage::DeliveredLast {
                    if is_grouped(before.groups@, a.file, b.file) {
                        lemma_sorting_keeps_grouped(before.groups@, after.groups@, a.file, b.file);
                    }
                } else {
                    lemma_same_files_kept(before, after, a, b);
                }
            },
            _ => lemma_same_files_kept(before, after, a, b),
        }
    }
}

/// Where files of one size stand among all files of that size.
proof fn lemma_of_size_pair(found: Seq<CandidateView>, i: int, j: int)
    requires
        0 <= i < j < found.len(),
        found[i].file.size == found[j].file.size,
    ensures
        has_pair(of_size(found, found[i].file.size), found[i], found[j]),
    decreases found.len(),
{
    reveal(Seq::filter);
    let size = found[i].file.size;
    let fewer = found.drop_last();
    let all = of_size(found, size);
    let rest = of_size(fewer, size);
    if j < found.len() - 1 {
        lemma_of_size_pair(fewer, i, j);
        let (x, y) = choose|x: int, y: int|
            0 <= x < rest.len() && 0 <= y < rest.len() && x != y && #[trigger] rest[x] == found[i]
                && #[trigger] rest[y] == found[j];
        assert(all[x] == found[i] && all[y] == found[j]);
    } else {
        lemma_of_size_has(fewer, i);
        let x = choose|x: int| 0 <= x < rest.len() && rest[x] == found[i];
        assert(all =~= rest.push(found[j]));
        assert(all[x] == found[i]);
        assert(all[rest.len() as int] == found[j]);
    }
}

proof fn lemma_of_size_has(found: Seq<CandidateView>, i: int)
    requires
        0 <= i < found.len(),
    ensures
        of_size(found, found[i].file.size).contains(found[i]),
    decreases found.len(),
{
    reveal(Seq::filter);
    let size = found[i].file.size;
    let fewer = found.drop_last();
    let rest = of_size(fewer, size);
    if i < found.len() - 1 {
        lemma_of_size_has(fewer, i);
        let x = choose|x: int| 0 <= x < rest.len() && rest[x] == found[i];
        assert(of_size(found, size)[x] == found[i]);
    } else {
        assert(of_size(found, size) =~= rest.push(found[i]));
        assert(of_size(found, size)[rest.len() as int] == found[i]);
    }
}

/// Whether a search begins with the files that were found, as `DuplicateScan::new`
/// begins it.
pub open spec fn begins_with(scan: DuplicateScan, found: Seq<CandidateView>) -> bool {
    exists|buckets: Seq<Bucket>| #[trigger]
        are_shared_sizes(buckets, found) && is_stable_sort(buckets, scan.upcoming())
}

proof fn lemma_beginning_loses_nothing(
    scan: DuplicateScan,
    found: Seq<CandidateView>,
    content: spec_fn(Seq<u8>) -> Seq<u8>,
)
    requires
        is_fresh(scan),
        begins_with(scan, found),
    ensures
        loses_nothing(scan, found, content),
{
    broadcast use vstd::seq_lib::group_to_multiset_ensures;

    let buckets = choose|buckets: Seq<Bucket>| #[trigger]
        are_shared_sizes(buckets, found) && is_stable_sort(buckets, scan.upcoming());
    assert forall|i: int, j: int| #[trigger] are_twins(found, content, i, j) implies is_kept(
        scan,
        found[i],
        found[j],
    ) by {
        let size = found[i].file.size;
        lemma_of_size_pair(found, i, j);
        let all = of_size(found, size);
        assert(all.len() > 1);
        let k = choose|k: int| 0 <= k < buckets.len() && (#[trigger] buckets[k])@ == all;
        assert(buckets.contains(buckets[k]));
        assert(buckets.to_multiset().count(buckets[k]) > 0);
        assert(scan.upcoming().contains(buckets[k]));
        let u = choose|u: int| 0 <= u < scan.upcoming().len() && scan.upcoming()[u] == buckets[k];
        let w = scan.waiting@.len() - 1 - u;
        assert(scan.waiting@[w] == buckets[k]);
        assert(waits(scan, found[i], found[j]));
    }
}

pub open spec fn all_undisturbed(events: Seq<ScanEvent>) -> bool {
    forall|i: int| 0 <= i < events.len() ==> is_undisturbed(#[trigger] events[i])
}

/// A search that ran to its end undisturbed puts any two files with the same size
/// and content into one group.
pub proof fn lemma_equal_files_are_found(
    states: Seq<DuplicateScan>,
    events: Seq<ScanEvent>,
    found: Seq<CandidateView>,
    content: spec_fn(Seq<u8>) -> Seq<u8>,
    i: int,
    j: int,
)
    requires
        is_course(states, events),
        is_fresh(states[0]),
        begins_with(states[0], found),
        all_true(states, events, content),
        all_undisturbed(events),
        states.last().stage == ScanStage::Finished,
        are_twins(found, content, i, j),
    ensures
        is_grouped(states.last().groups@, found[i].file, found[j].file),
{
    lemma_course_loses_nothing(states, events, found, content);
    let scan = states.last();
    assert(scan.wf());
    assert(is_kept(scan, found[i], found[j]));
}

proof fn lemma_course_loses_nothing(
    states: Seq<DuplicateScan>,
    events: Seq<ScanEvent>,
    found: Seq<CandidateView>,
    content: spec_fn(Seq<u8>) -> Seq<u8>,
)
    requires
        is_course(states, events),
        is_fresh(states[0]),
        begins_with(states[0], found),
        all_true(states, events, content),
        all_undisturbed(events),
    ensures
        loses_nothing(states.last(), found, content),
        states.last().wf(),
    decreases events.len(),
{
    if events.len() == 0 {
        lemma_beginning_loses_nothing(states[0], found, content);
    } else {
        let n = events.len() - 1;
        let (s, e) = (states.drop_last(), events.drop_last());
        lemma_course_prefix(states, events, content);
        assert forall|i: int| 0 <= i < e.len() implies is_undisturbed(#[trigger] e[i]) by {
            assert(e[i] == events[i]);
        }
        lemma_course_loses_nothing(s, e, found, content);
        lemma_course_honest(s, e, content);
        assert(happens(states[n], events[n], states[n + 1]));
        assert(is_true(states[n], events[n], content));
        assert(is_undisturbed(events[n]));
        lemma_event_loses_nothing(states[n], events[n], states[n + 1], found, content);
    }
}

} // verus!
