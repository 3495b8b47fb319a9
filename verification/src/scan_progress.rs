//! A search for duplicates comes to an end.

use crate::check::{members_of, next_action, CheckStage, CheckView};
use crate::scan::{
    awaits_comparison, awaits_glimpse, awaits_hash, DuplicateScan, ScanStage,
};
use crate::scan_laws::{happens, ScanEvent};
use vstd::prelude::*;

verus! {

/// How far a check is from its end: the stages to come, what is left in the stage,
/// the members of the class to come, and the comparisons to come.
pub open spec fn check_distance(v: CheckView) -> Seq<int> {
    match v.stage {
        CheckStage::Glimpsing => seq![2, v.candidates.len() - v.looked, 0, 0],
        CheckStage::Hashing => seq![1, v.survivors.len() - v.hashed, 0, 0],
        CheckStage::Verifying => seq![
            0,
            v.classes.len() - v.class,
            if v.class < v.classes.len() {
                members_of(v).len() - v.member
            } else {
                0
            },
            if v.started {
                v.representatives.len() - v.against
            } else {
                v.representatives.len() as int + 1
            },
        ],
    }
}

/// How far a search is from its end, the weightiest number first.
pub open spec fn distance(scan: DuplicateScan) -> Seq<int> {
    let waiting = scan.waiting@.len() as int;
    let equal = scan.equal@.len() as int;
    match scan.stage {
        ScanStage::Grouped => seq![6, waiting, 0, 0, 0, 0, 0],
        ScanStage::AnnouncedGrouped => seq![5, waiting, 0, 0, 0, 0, 0],
        ScanStage::Ready => seq![4, waiting, 0, 0, 0, 0, 0],
        ScanStage::AnnouncedReady => seq![3, waiting, 0, 0, 0, 0, 0],
        ScanStage::Between => seq![2, waiting, 0, 0, 0, 0, 0],
        ScanStage::Checking => seq![2, waiting, 2] + check_distance(scan.check->0@),
        ScanStage::Collecting => seq![2, waiting, 1, 2 * equal, 0, 0, 0],
        ScanStage::Delivered => seq![2, waiting, 1, 2 * equal + 1, 0, 0, 0],
        ScanStage::DeliveredLast => seq![1, waiting, 0, 0, 0, 0, 0],
        ScanStage::Finished => seq![0, waiting, 0, 0, 0, 0, 0],
    }
}

/// Whether one list of numbers comes before another: the first numbers that
/// differ decide. As no number is negative, there is no endless descent.
pub open spec fn is_closer(after: Seq<int>, before: Seq<int>) -> bool {
    exists|k: int|
        0 <= k < after.len() && k < before.len() && 0 <= #[trigger] after[k] < before[k] && (
        forall|i: int| 0 <= i < k ==> after[i] == before[i])
}

/// Whether a search waits to hear whether a batch was taken.
pub open spec fn awaits_acceptance(scan: DuplicateScan) -> bool {
    scan.stage == ScanStage::AnnouncedGrouped || scan.stage == ScanStage::AnnouncedReady
        || scan.stage == ScanStage::Delivered || scan.stage == ScanStage::DeliveredLast
}

/// Whether an event is one that a search makes use of: it is not asked before it
/// has its answer, and it is told only what it asked for.
pub open spec fn is_in_turn(scan: DuplicateScan, event: ScanEvent) -> bool {
    match event {
        ScanEvent::Stepped { .. } => scan.stage != ScanStage::Finished && !awaits_acceptance(scan),
        ScanEvent::Accepted(_) => awaits_acceptance(scan),
        ScanEvent::Glimpsed(_) => awaits_glimpse(scan),
        ScanEvent::Hashed(_) => awaits_hash(scan),
        ScanEvent::Compared(_) => awaits_comparison(scan),
        ScanEvent::PieceRead { .. } => false,
    }
}

/// Whether an event is a question to which the answer is to come.
pub open spec fn is_question(event: ScanEvent) -> bool {
    match event {
        ScanEvent::Stepped { action, .. } => action is Glimpse || action is Hash || action is Compare,
        _ => false,
    }
}

proof fn lemma_closer_at(after: Seq<int>, before: Seq<int>, k: int)
    requires
        0 <= k < after.len(),
        k < before.len(),
        0 <= after[k] < before[k],
        forall|i: int| 0 <= i < k ==> after[i] == before[i],
    ensures
        is_closer(after, before),
{
}

/// A check that is nearer to its end brings its search nearer.
proof fn lemma_check_closer(before: DuplicateScan, after: DuplicateScan, k: int)
    requires
        before.stage == ScanStage::Checking,
        after.stage == ScanStage::Checking,
        after.waiting == before.waiting,
        0 <= k < 4,
        ({
            let (d, e) = (check_distance(before.check->0@), check_distance(after.check->0@));
            0 <= e[k] < d[k] && forall|i: int| 0 <= i < k ==> e[i] == d[i]
        }),
    ensures
        is_closer(distance(after), distance(before)),
{
    let (d, e) = (distance(before), distance(after));
    assert(d[k + 3] == check_distance(before.check->0@)[k]);
    assert(e[k + 3] == check_distance(after.check->0@)[k]);
    assert forall|i: int| 0 <= i < k + 3 implies e[i] == d[i] by {
        if i >= 3 {
            assert(d[i] == check_distance(before.check->0@)[i - 3]);
            assert(e[i] == check_distance(after.check->0@)[i - 3]);
        }
    }
    lemma_closer_at(e, d, k + 3);
}

proof fn lemma_checking_closer(before: DuplicateScan, event: ScanEvent, after: DuplicateScan)
    requires
        before.stage == ScanStage::Checking,
        happens(before, event, after),
        is_in_turn(before, event),
        !is_question(event),
    ensures
        is_closer(distance(after), distance(before)),
{
    let v = before.check->0@;
    assert(v.in_range());
    match event {
        ScanEvent::Stepped { canceled, cache, action, .. } => {
            if next_action(v, canceled, cache) is Done {
                lemma_closer_at(distance(after), distance(before), 2);
            } else {
                let w = after.check->0@;
                assert(w.in_range());
                match v.stage {
                    CheckStage::Glimpsing => lemma_check_closer(before, after, 0),
                    CheckStage::Hashing => {
                        if w.stage == CheckStage::Verifying {
                            lemma_check_closer(before, after, 0);
                        } else {
                            lemma_check_closer(before, after, 1);
                        }
                    },
                    CheckStage::Verifying => {
                        if w.class > v.class {
                            lemma_check_closer(before, after, 1);
                        } else if w.member > v.member {
                            lemma_check_closer(before, after, 2);
                        } else {
                            lemma_check_closer(before, after, 3);
                        }
                    },
                }
            }
        },
        ScanEvent::Glimpsed(_) => lemma_check_closer(before, after, 1),
        ScanEvent::Hashed(_) => {
            if after.check->0@.stage == CheckStage::Verifying {
                lemma_check_closer(before, after, 0);
            } else {
                lemma_check_closer(before, after, 1);
            }
        },
        ScanEvent::Compared(equal) => {
            if equal {
                lemma_check_closer(before, after, 2);
            } else {
                lemma_check_closer(before, after, 3);
            }
        },
        _ => {},
    }
}

/// Everything that a search does in turn brings it nearer to its end, but for
/// questions, which leave it where it is until they are answered. So it ends.
pub proof fn lemma_search_comes_closer(
    before: DuplicateScan,
    event: ScanEvent,
    after: DuplicateScan,
)
    requires
        happens(before, event, after),
        is_in_turn(before, event),
    ensures
        !is_question(event) ==> is_closer(distance(after), distance(before)),
        is_question(event) ==> distance(after) == distance(before),
{
    if is_question(event) {
        assert(distance(after) =~= distance(before));
    } else {
        match before.stage {
            ScanStage::Checking => lemma_checking_closer(before, event, after),
            ScanStage::Between => {
                if after.stage == ScanStage::Checking || after.stage == ScanStage::Between {
                    lemma_closer_at(distance(after), distance(before), 1);
                } else {
                    lemma_closer_at(distance(after), distance(before), 0);
                }
            },
            ScanStage::Collecting => {
                if after.stage == ScanStage::Between {
                    lemma_closer_at(distance(after), distance(before), 2);
                } else {
                    lemma_closer_at(distance(after), distance(before), 3);
                }
            },
            ScanStage::Delivered => {
                if after.stage == ScanStage::Collecting {
                    lemma_closer_at(distance(after), distance(before), 3);
                } else {
                    lemma_closer_at(distance(after), distance(before), 0);
                }
            },
            _ => lemma_closer_at(distance(after), distance(before), 0),
        }
    }
}

} // verus!
