//! What a check of files of one size comes to.

use crate::check::{
    cached_digest, fresh_check, hashed_at_once, larger, lemma_comparison_in_range,
    lemma_glimpse_in_range, lemma_hash_in_range, lemma_next_in_range, members_of, next_view,
    stage_is_over, with_class_closed, with_comparison, with_glimpse, with_hash, CheckStage,
    CheckView,
};
use crate::digest::{blake3_digest, glimpse};
use crate::digest_classes::{
    class_for, distinct_digests, has_class, repeated, with_member, ClassView,
};
use crate::duplicates::{CacheKeyView, CandidateView};
use vstd::prelude::*;

verus! {

/// What happens to a check: it is asked what to find out next, or an answer
/// comes in.
pub ghost enum CheckEvent {
    Asked { canceled: bool, cache: Map<CacheKeyView, Seq<u8>> },
    Glimpsed(Option<Seq<u8>>),
    Hashed(Seq<u8>),
    HashFailed,
    HashCanceled,
    Compared(bool),
}

/// Whether an answer is one to what the check has to find out.
pub open spec fn fits(v: CheckView, event: CheckEvent) -> bool {
    match event {
        CheckEvent::Asked { .. } => true,
        CheckEvent::Glimpsed(_) => v.stage == CheckStage::Glimpsing && v.looked
            < v.candidates.len(),
        CheckEvent::Hashed(_) | CheckEvent::HashFailed | CheckEvent::HashCanceled => v.stage
            == CheckStage::Hashing && v.hashed < v.survivors.len(),
        CheckEvent::Compared(_) => v.stage == CheckStage::Verifying && v.started && v.against
            < v.representatives.len(),
    }
}

/// A check after an event.
pub open spec fn after_event(v: CheckView, event: CheckEvent) -> CheckView {
    match event {
        CheckEvent::Asked { canceled, cache } => next_view(v, canceled, cache),
        CheckEvent::Glimpsed(digest) => with_glimpse(v, digest),
        CheckEvent::Hashed(digest) => with_hash(v, digest),
        CheckEvent::HashFailed => CheckView { hashed: v.hashed + 1, ..v },
        CheckEvent::HashCanceled => CheckView { stage: CheckStage::Verifying, ..v },
        CheckEvent::Compared(equal) => with_comparison(v, equal),
    }
}

/// A check of fresh candidates after events.
pub open spec fn after_events(candidates: Seq<CandidateView>, events: Seq<CheckEvent>) -> CheckView
    decreases events.len(),
{
    if events.len() == 0 {
        fresh_check(candidates)
    } else {
        after_event(after_events(candidates, events.drop_last()), events.last())
    }
}

/// Whether every event fits the state in which it happens.
pub open spec fn all_fit(candidates: Seq<CandidateView>, events: Seq<CheckEvent>) -> bool {
    forall|i: int|
        0 <= i < events.len() ==> fits(
            after_events(candidates, events.take(i)),
            #[trigger] events[i],
        )
}

/// Whether an answer, or a remembered digest, is true of the files' contents.
pub open spec fn truthful(
    v: CheckView,
    event: CheckEvent,
    content: spec_fn(int) -> Seq<u8>,
) -> bool {
    match event {
        CheckEvent::Asked { canceled, cache } => forall|i: int|
            0 <= i < v.candidates.len() ==> match cached_digest(#[trigger] v.candidates[i], cache) {
                Some(digest) => digest == blake3_digest(content(i)),
                None => true,
            },
        CheckEvent::Glimpsed(digest) => digest is Some ==> digest->0 == blake3_digest(
            glimpse(content(v.looked)),
        ),
        CheckEvent::Hashed(digest) => digest == blake3_digest(content(v.survivors[v.hashed])),
        CheckEvent::Compared(equal) => equal == (content(members_of(v)[v.member]) == content(
            v.representatives[v.against][0],
        )),
        _ => true,
    }
}

pub open spec fn all_truthful(
    candidates: Seq<CandidateView>,
    events: Seq<CheckEvent>,
    content: spec_fn(int) -> Seq<u8>,
) -> bool {
    forall|i: int|
        0 <= i < events.len() ==> truthful(
            after_events(candidates, events.take(i)),
            #[trigger] events[i],
            content,
        )
}

/// Whether nothing was canceled and no file was unreadable.
pub open spec fn undisturbed(event: CheckEvent) -> bool {
    match event {
        CheckEvent::Asked { canceled, .. } => !canceled,
        CheckEvent::Glimpsed(digest) => digest is Some,
        CheckEvent::HashFailed | CheckEvent::HashCanceled => false,
        _ => true,
    }
}

pub open spec fn all_undisturbed(events: Seq<CheckEvent>) -> bool {
    forall|i: int| 0 <= i < events.len() ==> undisturbed(#[trigger] events[i])
}

/// Whether a check has nothing more to find out.
pub open spec fn finished(v: CheckView) -> bool {
    v.stage == CheckStage::Verifying && v.class == v.classes.len()
}

/// Whether a file is in some class.
spec fn listed(classes: Seq<ClassView>, m: int) -> bool {
    exists|k: int, a: int| #[trigger] at(classes, k, a) && classes[k].members[a] == m
}

/// Whether there is such a member of such a class.
spec fn at(classes: Seq<ClassView>, k: int, a: int) -> bool {
    0 <= k < classes.len() && 0 <= a < classes[k].members.len()
}

/// Whether the members of every class have its digest.
spec fn labelled(classes: Seq<ClassView>, label: spec_fn(int) -> Seq<u8>) -> bool {
    forall|k: int, a: int| #[trigger]
        at(classes, k, a) ==> label(classes[k].members[a]) == classes[k].digest
}

proof fn lemma_labelled_with_member(
    classes: Seq<ClassView>,
    digest: Seq<u8>,
    m: int,
    label: spec_fn(int) -> Seq<u8>,
)
    requires
        labelled(classes, label),
        label(m) == digest,
    ensures
        labelled(with_member(classes, digest, m), label),
{
    let after = with_member(classes, digest, m);
    assert forall|k: int, a: int| #[trigger] at(after, k, a) implies label(after[k].members[a])
        == after[k].digest by {
        if has_class(classes, digest) {
            let c = class_for(classes, digest);
            assert(0 <= c < classes.len() && classes[c].digest == digest);
            if k == c {
                if a < classes[c].members.len() {
                    assert(at(classes, k, a));
                }
            } else {
                assert(at(classes, k, a));
            }
        } else if k < classes.len() {
            assert(at(classes, k, a));
        }
    }
}

proof fn lemma_listed_with_member(classes: Seq<ClassView>, digest: Seq<u8>, m: int)
    ensures
        listed(with_member(classes, digest, m), m),
        forall|x: int| listed(classes, x) ==> #[trigger] listed(with_member(classes, digest, m), x),
{
    let after = with_member(classes, digest, m);
    if has_class(classes, digest) {
        let c = class_for(classes, digest);
        assert(0 <= c < classes.len() && classes[c].digest == digest);
        assert(at(after, c, classes[c].members.len() as int));
        assert(after[c].members[classes[c].members.len() as int] == m);
    } else {
        assert(at(after, classes.len() as int, 0));
        assert(after[classes.len() as int].members[0] == m);
    }
    assert forall|x: int| listed(classes, x) implies #[trigger] listed(after, x) by {
        let (k, a) = choose|k: int, a: int| #[trigger]
            at(classes, k, a) && classes[k].members[a] == x;
        assert(at(after, k, a));
        assert(after[k].members[a] == x);
    }
}

proof fn lemma_repeated_lists(classes: Seq<ClassView>, k: int, a: int)
    requires
        at(classes, k, a),
        classes[k].members.len() > 1,
    ensures
        repeated(classes).contains(classes[k].members[a]),
    decreases classes.len(),
{
    let x = classes[k].members[a];
    let rest = classes.drop_last();
    if k == classes.len() - 1 {
        let n = repeated(rest).len();
        assert(repeated(classes)[n + a] == x);
    } else {
        assert(at(rest, k, a));
        lemma_repeated_lists(rest, k, a);
        let t = choose|t: int| 0 <= t < repeated(rest).len() && repeated(rest)[t] == x;
        assert(repeated(classes)[t] == x);
    }
}

/// Whether all files of a list have the same content.
spec fn alike(list: Seq<int>, content: spec_fn(int) -> Seq<u8>) -> bool {
    forall|a: int| 0 <= a < list.len() ==> content(#[trigger] list[a]) == content(list[0])
}

/// Whether lists hold equal files each, and different ones from list to list.
spec fn told_apart(lists: Seq<Seq<int>>, content: spec_fn(int) -> Seq<u8>) -> bool {
    &&& forall|k: int| 0 <= k < lists.len() ==> alike(#[trigger] lists[k], content)
    &&& forall|k: int, l: int|
        0 <= k < l < lists.len() ==> content((#[trigger] lists[k])[0]) != content(
            (#[trigger] lists[l])[0],
        )
}

/// Whether the first files of lists have digests of the first classes.
spec fn from_classes(
    lists: Seq<Seq<int>>,
    classes: Seq<ClassView>,
    first: int,
    last: int,
    content: spec_fn(int) -> Seq<u8>,
) -> bool {
    forall|g: int|
        0 <= g < lists.len() ==> exists|k: int|
            first <= k < last && (#[trigger] classes[k]).digest == blake3_digest(
                content((#[trigger] lists[g])[0]),
            )
}

/// What holds of a check whose answers were true, whatever was canceled or
/// unreadable.
pub closed spec fn sound(v: CheckView, content: spec_fn(int) -> Seq<u8>) -> bool {
    &&& v.in_range()
    &&& labelled(v.glimpses, |i: int| blake3_digest(glimpse(content(i))))
    &&& labelled(v.classes, |i: int| blake3_digest(content(i)))
    &&& told_apart(v.representatives, content)
    &&& told_apart(v.groups, content)
    &&& v.representatives.len() > 0 ==> v.class < v.classes.len() && members_of(v).len() > 1
    &&& from_classes(v.representatives, v.classes, v.class, v.class + 1, content)
    &&& from_classes(v.groups, v.classes, 0, v.class, content)
    &&& v.started ==> forall|r: int|
        0 <= r < v.against ==> content((#[trigger] v.representatives[r])[0]) != content(
            members_of(v)[v.member],
        )
}

proof fn lemma_filter_told_apart(lists: Seq<Seq<int>>, content: spec_fn(int) -> Seq<u8>)
    requires
        told_apart(lists, content),
    ensures
        told_apart(larger(lists), content),
        forall|k: int|
            0 <= k < larger(lists).len() ==> lists.contains(#[trigger] larger(lists)[k]),
    decreases lists.len(),
{
    reveal(Seq::filter);
    if lists.len() > 0 {
        let rest = lists.drop_last();
        assert(told_apart(rest, content)) by {
            assert forall|k: int| 0 <= k < rest.len() implies alike(#[trigger] rest[k], content) by {
                assert(alike(lists[k], content));
            }
            assert forall|k: int, l: int| 0 <= k < l < rest.len() implies content(
                (#[trigger] rest[k])[0],
            ) != content((#[trigger] rest[l])[0]) by {
                assert(content(lists[k][0]) != content(lists[l][0]));
            }
        }
        lemma_filter_told_apart(rest, content);
        let before = larger(rest);
        let after = larger(lists);
        let last = lists[lists.len() - 1];
        assert(alike(last, content));
        assert forall|k: int| 0 <= k < after.len() implies lists.contains(#[trigger] after[k])
            && alike(after[k], content) by {
            if k < before.len() {
                assert(after[k] == before[k]);
                assert(rest.contains(before[k]));
                let t = choose|t: int| 0 <= t < rest.len() && rest[t] == before[k];
                assert(lists[t] == after[k]);
                assert(alike(before[k], content));
            } else {
                assert(lists[lists.len() - 1] == after[k]);
            }
        }
        assert forall|k: int, l: int| 0 <= k < l < after.len() implies content(
            (#[trigger] after[k])[0],
        ) != content((#[trigger] after[l])[0]) by {
            assert(after[k] == before[k]);
            if l < before.len() {
                assert(after[l] == before[l]);
                assert(content(before[k][0]) != content(before[l][0]));
            } else {
                assert(after[l] == last);
                assert(rest.contains(before[k]));
                let t = choose|t: int| 0 <= t < rest.len() && rest[t] == before[k];
                assert(lists[t] == after[k]);
                assert(content(lists[t][0]) != content(lists[lists.len() - 1][0]));
            }
        }
    }
}

/// A check begins with nothing untrue.
pub proof fn lemma_fresh_sound(candidates: Seq<CandidateView>, content: spec_fn(int) -> Seq<u8>)
    ensures
        sound(fresh_check(candidates), content),
{
}

proof fn lemma_class_digest(v: CheckView, content: spec_fn(int) -> Seq<u8>, k: int, a: int)
    requires
        labelled(v.classes, |i: int| blake3_digest(content(i))),
        at(v.classes, k, a),
    ensures
        blake3_digest(content(v.classes[k].members[a])) == v.classes[k].digest,
{
    let label = |i: int| blake3_digest(content(i));
    assert(label(v.classes[k].members[a]) == v.classes[k].digest);
}

proof fn lemma_closing_sound(v: CheckView, content: spec_fn(int) -> Seq<u8>)
    requires
        sound(v, content),
        v.stage == CheckStage::Verifying,
        v.class < v.classes.len(),
        with_class_closed(v).in_range(),
    ensures
        sound(with_class_closed(v), content),
{
    let after = with_class_closed(v);
    let more = larger(v.representatives);
    lemma_filter_told_apart(v.representatives, content);
    assert forall|g: int| 0 <= g < more.len() implies v.classes[v.class].digest == blake3_digest(
        content((#[trigger] more[g])[0]),
    ) by {
        assert(v.representatives.contains(more[g]));
        let t = choose|t: int|
            0 <= t < v.representatives.len() && v.representatives[t] == more[g];
        let k = choose|k: int|
            v.class <= k < v.class + 1 && (#[trigger] v.classes[k]).digest == blake3_digest(
                content(v.representatives[t][0]),
            );
        assert(k == v.class);
    }
    assert forall|g: int| 0 <= g < after.groups.len() implies exists|k: int|
        0 <= k < after.class && (#[trigger] after.classes[k]).digest == blake3_digest(
            content((#[trigger] after.groups[g])[0]),
        ) by {
        if g < v.groups.len() {
            let k = choose|k: int|
                0 <= k < v.class && (#[trigger] v.classes[k]).digest == blake3_digest(
                    content(v.groups[g][0]),
                );
            assert(after.classes[k].digest == blake3_digest(content(after.groups[g][0])));
        } else {
            assert(after.groups[g] == more[g - v.groups.len()]);
            assert(after.classes[v.class].digest == blake3_digest(content(after.groups[g][0])));
        }
    }
    assert(told_apart(after.groups, content)) by {
        assert forall|k: int| 0 <= k < after.groups.len() implies alike(
            #[trigger] after.groups[k],
            content,
        ) by {
            if k < v.groups.len() {
                assert(alike(v.groups[k], content));
            } else {
                assert(alike(more[k - v.groups.len()], content));
            }
        }
        assert forall|k: int, l: int| 0 <= k < l < after.groups.len() implies content(
            (#[trigger] after.groups[k])[0],
        ) != content((#[trigger] after.groups[l])[0]) by {
            let n = v.groups.len();
            if l < n {
                assert(content(v.groups[k][0]) != content(v.groups[l][0]));
            } else if k >= n {
                assert(content(more[k - n][0]) != content(more[l - n][0]));
            } else {
                let c = choose|c: int|
                    0 <= c < v.class && (#[trigger] v.classes[c]).digest == blake3_digest(
                        content(v.groups[k][0]),
                    );
                assert(v.classes[v.class].digest == blake3_digest(content(more[l - n][0])));
                assert(v.classes[c].digest != v.classes[v.class].digest);
            }
        }
    }
}

proof fn lemma_new_representative_sound(v: CheckView, content: spec_fn(int) -> Seq<u8>)
    requires
        sound(v, content),
        v.stage == CheckStage::Verifying,
        v.started,
        v.against == v.representatives.len(),
    ensures
        sound(next_view(v, false, Map::empty()), content),
{
    lemma_next_in_range(v, false, Map::empty());
    let after = next_view(v, false, Map::empty());
    let x = members_of(v)[v.member];
    assert(at(v.classes, v.class, v.member));
    lemma_class_digest(v, content, v.class, v.member);
    assert(after.representatives == v.representatives.push(seq![x]));
    assert(told_apart(after.representatives, content)) by {
        assert forall|k: int| 0 <= k < after.representatives.len() implies alike(
            #[trigger] after.representatives[k],
            content,
        ) by {
            if k < v.representatives.len() {
                assert(alike(v.representatives[k], content));
            }
        }
        assert forall|k: int, l: int| 0 <= k < l < after.representatives.len() implies content(
            (#[trigger] after.representatives[k])[0],
        ) != content((#[trigger] after.representatives[l])[0]) by {
            assert(after.representatives[k] == v.representatives[k]);
            if l < v.representatives.len() {
                assert(content(v.representatives[k][0]) != content(v.representatives[l][0]));
            }
        }
    }
    assert forall|g: int| 0 <= g < after.representatives.len() implies exists|k: int|
        v.class <= k < v.class + 1 && (#[trigger] v.classes[k]).digest == blake3_digest(
            content((#[trigger] after.representatives[g])[0]),
        ) by {
        if g < v.representatives.len() {
            let k = choose|k: int|
                v.class <= k < v.class + 1 && (#[trigger] v.classes[k]).digest == blake3_digest(
                    content(v.representatives[g][0]),
                );
            assert(v.classes[k].digest == blake3_digest(content(after.representatives[g][0])));
        } else {
            assert(v.classes[v.class].digest == blake3_digest(content(after.representatives[g][0])));
        }
    }
}

proof fn lemma_comparison_sound(
    v: CheckView,
    equal: bool,
    content: spec_fn(int) -> Seq<u8>,
)
    requires
        sound(v, content),
        fits(v, CheckEvent::Compared(equal)),
        truthful(v, CheckEvent::Compared(equal), content),
        with_comparison(v, equal).in_range(),
    ensures
        sound(with_comparison(v, equal), content),
{
    let after = with_comparison(v, equal);
    let x = members_of(v)[v.member];
    if equal {
        let list = v.representatives[v.against];
        assert(alike(list, content));
        assert(after.representatives[v.against] == list.push(x));
        assert(told_apart(after.representatives, content)) by {
            assert forall|k: int| 0 <= k < after.representatives.len() implies alike(
                #[trigger] after.representatives[k],
                content,
            ) && after.representatives[k][0] == v.representatives[k][0] by {
                assert(alike(v.representatives[k], content));
                assert(v.representatives[k].len() > 0);
                if k == v.against {
                    let longer = after.representatives[k];
                    assert forall|a: int| 0 <= a < longer.len() implies content(
                        #[trigger] longer[a],
                    ) == content(longer[0]) by {
                        if a < list.len() {
                            assert(longer[a] == list[a]);
                        }
                    }
                }
            }
            assert forall|k: int, l: int| 0 <= k < l < after.representatives.len() implies content(
                (#[trigger] after.representatives[k])[0],
            ) != content((#[trigger] after.representatives[l])[0]) by {
                assert(content(v.representatives[k][0]) != content(v.representatives[l][0]));
            }
        }
        assert forall|g: int| 0 <= g < after.representatives.len() implies exists|k: int|
            v.class <= k < v.class + 1 && (#[trigger] v.classes[k]).digest == blake3_digest(
                content((#[trigger] after.representatives[g])[0]),
            ) by {
            let k = choose|k: int|
                v.class <= k < v.class + 1 && (#[trigger] v.classes[k]).digest == blake3_digest(
                    content(v.representatives[g][0]),
                );
            assert(v.classes[k].digest == blake3_digest(content(after.representatives[g][0])));
        }
    }
}

proof fn lemma_hash_sound(v: CheckView, digest: Seq<u8>, content: spec_fn(int) -> Seq<u8>)
    requires
        sound(v, content),
        v.stage == CheckStage::Hashing,
        v.hashed < v.survivors.len(),
        digest == blake3_digest(content(v.survivors[v.hashed])),
        with_hash(v, digest).in_range(),
    ensures
        sound(with_hash(v, digest), content),
{
    lemma_labelled_with_member(
        v.classes,
        digest,
        v.survivors[v.hashed],
        |i: int| blake3_digest(content(i)),
    );
}

proof fn lemma_asked_sound(
    v: CheckView,
    canceled: bool,
    cache: Map<CacheKeyView, Seq<u8>>,
    content: spec_fn(int) -> Seq<u8>,
)
    requires
        sound(v, content),
        truthful(v, CheckEvent::Asked { canceled, cache }, content),
    ensures
        sound(next_view(v, canceled, cache), content),
{
    lemma_next_in_range(v, canceled, cache);
    match v.stage {
        CheckStage::Glimpsing => {},
        CheckStage::Hashing => {
            if !stage_is_over(v, canceled) {
                let i = v.survivors[v.hashed];
                if let Some(digest) = cached_digest(v.candidates[i], cache) {
                    lemma_hash_sound(v, digest, content);
                }
            }
        },
        CheckStage::Verifying => {
            if v.class < v.classes.len() {
                if members_of(v).len() <= 1 {
                    let after = next_view(v, canceled, cache);
                    assert forall|g: int| 0 <= g < after.groups.len() implies exists|k: int|
                        0 <= k < after.class && (#[trigger] after.classes[k]).digest
                            == blake3_digest(content((#[trigger] after.groups[g])[0])) by {
                        let k = choose|k: int|
                            0 <= k < v.class && (#[trigger] v.classes[k]).digest
                                == blake3_digest(content(v.groups[g][0]));
                        assert(after.classes[k].digest == blake3_digest(
                            content(after.groups[g][0]),
                        ));
                    }
                } else if !v.started {
                    if canceled || v.member == members_of(v).len() {
                        lemma_closing_sound(v, content);
                    }
                } else if v.against == v.representatives.len() {
                    lemma_new_representative_sound(v, content);
                }
            }
        },
    }
}

/// A true answer leaves nothing untrue.
pub proof fn lemma_event_sound(v: CheckView, event: CheckEvent, content: spec_fn(int) -> Seq<u8>)
    requires
        sound(v, content),
        fits(v, event),
        truthful(v, event, content),
    ensures
        sound(after_event(v, event), content),
{
    lemma_event_in_range(v, event);
    match event {
        CheckEvent::Asked { canceled, cache } => lemma_asked_sound(v, canceled, cache, content),
        CheckEvent::Glimpsed(digest) => {
            if let Some(digest) = digest {
                lemma_labelled_with_member(
                    v.glimpses,
                    digest,
                    v.looked,
                    |i: int| blake3_digest(glimpse(content(i))),
                );
            }
        },
        CheckEvent::Hashed(digest) => lemma_hash_sound(v, digest, content),
        CheckEvent::HashFailed => {},
        CheckEvent::HashCanceled => {},
        CheckEvent::Compared(equal) => lemma_comparison_sound(v, equal, content),
    }
}

/// What holds of a check whose comparisons were true, whatever digests it was told
/// or found remembered: files that stand together are equal.
pub closed spec fn compared(v: CheckView, content: spec_fn(int) -> Seq<u8>) -> bool {
    &&& v.in_range()
    &&& forall|k: int|
        0 <= k < v.representatives.len() ==> alike(#[trigger] v.representatives[k], content)
    &&& forall|k: int| 0 <= k < v.groups.len() ==> alike(#[trigger] v.groups[k], content)
}

/// Whether an event is no comparison, or one that is true.
pub open spec fn compares_truly(
    v: CheckView,
    event: CheckEvent,
    content: spec_fn(int) -> Seq<u8>,
) -> bool {
    event is Compared ==> truthful(v, event, content)
}

proof fn lemma_larger_from(lists: Seq<Seq<int>>, k: int)
    requires
        0 <= k < larger(lists).len(),
    ensures
        lists.contains(larger(lists)[k]),
    decreases lists.len(),
{
    reveal(Seq::filter);
    let rest = lists.drop_last();
    if k < larger(rest).len() {
        lemma_larger_from(rest, k);
        let t = choose|t: int| 0 <= t < rest.len() && rest[t] == larger(rest)[k];
        assert(larger(lists)[k] == larger(rest)[k]);
        assert(lists[t] == larger(lists)[k]);
    } else {
        assert(lists[lists.len() - 1] == larger(lists)[k]);
    }
}

/// A check begins with nothing compared.
pub proof fn lemma_fresh_compared(candidates: Seq<CandidateView>, content: spec_fn(int) -> Seq<u8>)
    ensures
        compared(fresh_check(candidates), content),
{
}

/// True comparisons keep equal files together, whatever else the check is told.
pub proof fn lemma_event_compared(v: CheckView, event: CheckEvent, content: spec_fn(int) -> Seq<u8>)
    requires
        compared(v, content),
        fits(v, event),
        compares_truly(v, event, content),
    ensures
        compared(after_event(v, event), content),
{
    lemma_event_in_range(v, event);
    let after = after_event(v, event);
    assert forall|k: int| 0 <= k < after.representatives.len() implies alike(
        #[trigger] after.representatives[k],
        content,
    ) by {
        if k < v.representatives.len() {
            assert(alike(v.representatives[k], content));
        }
    }
    assert forall|k: int| 0 <= k < after.groups.len() implies alike(
        #[trigger] after.groups[k],
        content,
    ) by {
        if k < v.groups.len() {
            assert(alike(v.groups[k], content));
            assert(after.groups[k] == v.groups[k]);
        } else {
            let n = v.groups.len() as int;
            assert(after == with_class_closed(v));
            assert(after.groups[k] == larger(v.representatives)[k - n]);
            lemma_larger_from(v.representatives, k - n);
            let t = choose|t: int|
                0 <= t < v.representatives.len() && v.representatives[t] == after.groups[k];
            assert(alike(v.representatives[t], content));
        }
    }
}

/// Where all answers were true, so were the comparisons.
pub proof fn lemma_sound_is_compared(v: CheckView, content: spec_fn(int) -> Seq<u8>)
    requires
        sound(v, content),
    ensures
        compared(v, content),
{
}

/// What is known of the groups of a check whose comparisons were true.
pub proof fn lemma_compared_groups(v: CheckView, content: spec_fn(int) -> Seq<u8>)
    requires
        compared(v, content),
    ensures
        forall|g: int| 0 <= g < v.groups.len() ==> (#[trigger] v.groups[g]).len() > 1,
        forall|g: int, a: int, b: int|
            0 <= g < v.groups.len() && 0 <= a < v.groups[g].len() && 0 <= b < v.groups[g].len()
                ==> content(#[trigger] v.groups[g][a]) == content(#[trigger] v.groups[g][b]),
{
    assert forall|g: int, a: int, b: int|
        0 <= g < v.groups.len() && 0 <= a < v.groups[g].len() && 0 <= b
            < v.groups[g].len() implies content(#[trigger] v.groups[g][a]) == content(
        #[trigger] v.groups[g][b],
    ) by {
        assert(alike(v.groups[g], content));
    }
}

/// Files in one group have the same content as long as the comparisons are true:
/// no digest, whether told or remembered, can bring different files together.
pub proof fn lemma_groups_need_no_true_digests(
    candidates: Seq<CandidateView>,
    events: Seq<CheckEvent>,
    content: spec_fn(int) -> Seq<u8>,
)
    requires
        all_fit(candidates, events),
        forall|i: int|
            0 <= i < events.len() ==> compares_truly(
                after_events(candidates, events.take(i)),
                #[trigger] events[i],
                content,
            ),
    ensures
        ({
            let groups = after_events(candidates, events).groups;
            &&& forall|g: int| 0 <= g < groups.len() ==> (#[trigger] groups[g]).len() > 1
            &&& forall|g: int, a: int, b: int|
                0 <= g < groups.len() && 0 <= a < groups[g].len() && 0 <= b < groups[g].len()
                    ==> content(#[trigger] groups[g][a]) == content(#[trigger] groups[g][b])
        }),
{
    lemma_events_compared(candidates, events, content);
    lemma_compared_groups(after_events(candidates, events), content);
}

proof fn lemma_events_compared(
    candidates: Seq<CandidateView>,
    events: Seq<CheckEvent>,
    content: spec_fn(int) -> Seq<u8>,
)
    requires
        all_fit(candidates, events),
        forall|i: int|
            0 <= i < events.len() ==> compares_truly(
                after_events(candidates, events.take(i)),
                #[trigger] events[i],
                content,
            ),
    ensures
        compared(after_events(candidates, events), content),
    decreases events.len(),
{
    if events.len() > 0 {
        let shorter = events.drop_last();
        lemma_prefix(candidates, events);
        assert forall|i: int| 0 <= i < shorter.len() implies compares_truly(
            after_events(candidates, shorter.take(i)),
            #[trigger] shorter[i],
            content,
        ) by {
            assert(shorter.take(i) =~= events.take(i));
            assert(shorter[i] == events[i]);
        }
        lemma_events_compared(candidates, shorter, content);
        let n = events.len() - 1;
        assert(events.take(n) =~= shorter);
        assert(compares_truly(after_events(candidates, events.take(n)), events[n], content));
        lemma_event_compared(after_events(candidates, shorter), events.last(), content);
    }
}

/// Whether a list of some lists has an entry.
spec fn in_lists(lists: Seq<Seq<int>>, x: int) -> bool {
    exists|k: int| 0 <= k < lists.len() && (#[trigger] lists[k]).contains(x)
}

/// Whether one of the lists has both entries.
pub open spec fn together(lists: Seq<Seq<int>>, x: int, y: int) -> bool {
    exists|k: int|
        0 <= k < lists.len() && (#[trigger] lists[k]).contains(x) && lists[k].contains(y)
}

/// Whether two of `n` files have the same content.
spec fn twins(n: nat, content: spec_fn(int) -> Seq<u8>, i: int, j: int) -> bool {
    0 <= i < n && 0 <= j < n && i != j && content(i) == content(j)
}

/// Whether two members of a class are different files with the same content.
spec fn partners(
    classes: Seq<ClassView>,
    content: spec_fn(int) -> Seq<u8>,
    k: int,
    a: int,
    b: int,
) -> bool {
    &&& at(classes, k, a)
    &&& at(classes, k, b)
    &&& classes[k].members[a] != classes[k].members[b]
    &&& content(classes[k].members[a]) == content(classes[k].members[b])
}

/// Whether every file with a twin is worth hashing.
spec fn twins_survive(v: CheckView, content: spec_fn(int) -> Seq<u8>) -> bool {
    forall|i: int, j: int| #[trigger]
        twins(v.candidates.len(), content, i, j) ==> v.survivors.contains(i)
}

/// Whether every file that was looked at is in a class.
spec fn glimpses_listed(v: CheckView) -> bool {
    forall|i: int| 0 <= i < v.looked ==> #[trigger] listed(v.glimpses, i)
}

/// Whether every file that was hashed is in a class.
spec fn hashes_listed(v: CheckView) -> bool {
    forall|t: int| 0 <= t < v.hashed ==> listed(v.classes, #[trigger] v.survivors[t])
}

/// Whether every member that was verified has its representative.
spec fn members_represented(v: CheckView) -> bool {
    forall|t: int| 0 <= t < v.member ==> in_lists(v.representatives, #[trigger] members_of(v)[t])
}

/// Whether partners in classes that were verified are grouped.
spec fn partners_grouped(v: CheckView, content: spec_fn(int) -> Seq<u8>) -> bool {
    forall|k: int, a: int, b: int|
        k < v.class && #[trigger] partners(v.classes, content, k, a, b) ==> together(
            v.groups,
            v.classes[k].members[a],
            v.classes[k].members[b],
        )
}

/// What holds of a check with true answers where nothing was canceled and every
/// file could be read: no equal pair is lost on the way.
pub closed spec fn whole(v: CheckView, content: spec_fn(int) -> Seq<u8>) -> bool {
    &&& v.stage == CheckStage::Glimpsing ==> glimpses_listed(v)
    &&& v.stage != CheckStage::Glimpsing ==> twins_survive(v, content)
    &&& hashes_listed(v)
    &&& v.stage == CheckStage::Verifying ==> v.hashed == v.survivors.len()
    &&& v.class < v.classes.len() && members_of(v).len() > 1 ==> members_represented(v)
    &&& partners_grouped(v, content)
}

proof fn lemma_event_in_range(v: CheckView, event: CheckEvent)
    requires
        v.in_range(),
        fits(v, event),
    ensures
        after_event(v, event).in_range(),
{
    match event {
        CheckEvent::Asked { canceled, cache } => lemma_next_in_range(v, canceled, cache),
        CheckEvent::Glimpsed(digest) => lemma_glimpse_in_range(v, digest),
        CheckEvent::Hashed(digest) => lemma_hash_in_range(v, digest),
        CheckEvent::HashFailed => {},
        CheckEvent::HashCanceled => {},
        CheckEvent::Compared(equal) => lemma_comparison_in_range(v, equal),
    }
}

/// A check begins with nothing lost.
pub proof fn lemma_fresh_whole(candidates: Seq<CandidateView>, content: spec_fn(int) -> Seq<u8>)
    ensures
        whole(fresh_check(candidates), content),
{
    let v = fresh_check(candidates);
    if hashed_at_once(candidates) {
        assert forall|i: int, j: int| #[trigger]
            twins(v.candidates.len(), content, i, j) implies v.survivors.contains(i) by {
            assert(v.survivors[i] == i);
        }
    }
}

/// Two files with equal labels are in the same class.
proof fn lemma_same_class(
    classes: Seq<ClassView>,
    label: spec_fn(int) -> Seq<u8>,
    k: int,
    a: int,
    l: int,
    b: int,
)
    requires
        distinct_digests(classes),
        labelled(classes, label),
        at(classes, k, a),
        at(classes, l, b),
        label(classes[k].members[a]) == label(classes[l].members[b]),
    ensures
        k == l,
{
    if k < l {
        assert(classes[k].digest != classes[l].digest);
    } else if l < k {
        assert(classes[l].digest != classes[k].digest);
    }
}

proof fn lemma_glimpses_keep_pairs(v: CheckView, content: spec_fn(int) -> Seq<u8>, i: int, j: int)
    requires
        sound(v, content),
        whole(v, content),
        v.stage == CheckStage::Glimpsing,
        v.looked == v.candidates.len(),
        0 <= i < v.candidates.len(),
        0 <= j < v.candidates.len(),
        i != j,
        content(i) == content(j),
    ensures
        repeated(v.glimpses).contains(i),
{
    let label = |i: int| blake3_digest(glimpse(content(i)));
    assert(listed(v.glimpses, i));
    assert(listed(v.glimpses, j));
    let (k, a) = choose|k: int, a: int| #[trigger]
        at(v.glimpses, k, a) && v.glimpses[k].members[a] == i;
    let (l, b) = choose|l: int, b: int| #[trigger]
        at(v.glimpses, l, b) && v.glimpses[l].members[b] == j;
    assert(label(i) == label(j));
    lemma_same_class(v.glimpses, label, k, a, l, b);
    assert(v.glimpses[k].members.len() > 1);
    lemma_repeated_lists(v.glimpses, k, a);
}

proof fn lemma_hash_whole(v: CheckView, digest: Seq<u8>, content: spec_fn(int) -> Seq<u8>)
    requires
        v.in_range(),
        whole(v, content),
        v.stage == CheckStage::Hashing,
        v.hashed < v.survivors.len(),
    ensures
        whole(with_hash(v, digest), content),
{
    let after = with_hash(v, digest);
    lemma_listed_with_member(v.classes, digest, v.survivors[v.hashed]);
    assert forall|t: int| 0 <= t < after.hashed implies listed(
        after.classes,
        #[trigger] after.survivors[t],
    ) by {
        if t < v.hashed {
            assert(listed(v.classes, v.survivors[t]));
        }
    }
}

proof fn lemma_larger_keeps(lists: Seq<Seq<int>>, k: int)
    requires
        0 <= k < lists.len(),
        lists[k].len() > 1,
    ensures
        larger(lists).contains(lists[k]),
    decreases lists.len(),
{
    reveal(Seq::filter);
    let rest = lists.drop_last();
    if k == lists.len() - 1 {
        assert(larger(lists)[larger(rest).len() as int] == lists[k]);
    } else {
        lemma_larger_keeps(rest, k);
        let t = choose|t: int| 0 <= t < larger(rest).len() && larger(rest)[t] == rest[k];
        assert(larger(lists)[t] == lists[k]);
    }
}

proof fn lemma_closing_whole(v: CheckView, content: spec_fn(int) -> Seq<u8>)
    requires
        sound(v, content),
        whole(v, content),
        v.stage == CheckStage::Verifying,
        v.class < v.classes.len(),
        members_of(v).len() > 1,
        v.member == members_of(v).len(),
    ensures
        whole(with_class_closed(v), content),
{
    let after = with_class_closed(v);
    let more = larger(v.representatives);
    assert forall|k: int, a: int, b: int|
        k < after.class && #[trigger] partners(after.classes, content, k, a, b) implies together(
        after.groups,
        after.classes[k].members[a],
        after.classes[k].members[b],
    ) by {
        let x = after.classes[k].members[a];
        let y = after.classes[k].members[b];
        if k < v.class {
            assert(partners(v.classes, content, k, a, b));
            assert(together(v.groups, x, y));
            let g = choose|g: int|
                0 <= g < v.groups.len() && (#[trigger] v.groups[g]).contains(x)
                    && v.groups[g].contains(y);
            assert(after.groups[g] == v.groups[g]);
        } else {
            assert(members_of(v)[a] == x);
            assert(members_of(v)[b] == y);
            let r = choose|r: int|
                0 <= r < v.representatives.len() && (#[trigger] v.representatives[r]).contains(x);
            let s = choose|s: int|
                0 <= s < v.representatives.len() && (#[trigger] v.representatives[s]).contains(y);
            let p = choose|p: int|
                0 <= p < v.representatives[r].len() && v.representatives[r][p] == x;
            let q = choose|q: int|
                0 <= q < v.representatives[s].len() && v.representatives[s][q] == y;
            assert(alike(v.representatives[r], content));
            assert(alike(v.representatives[s], content));
            assert(content(v.representatives[r][p]) == content(v.representatives[r][0]));
            assert(content(v.representatives[s][q]) == content(v.representatives[s][0]));
            if r < s {
                assert(content(v.representatives[r][0]) != content(v.representatives[s][0]));
            } else if s < r {
                assert(content(v.representatives[s][0]) != content(v.representatives[r][0]));
            }
            assert(r == s);
            assert(p != q);
            lemma_larger_keeps(v.representatives, r);
            let t = choose|t: int| 0 <= t < more.len() && more[t] == v.representatives[r];
            assert(after.groups[v.groups.len() + t] == v.representatives[r]);
        }
    }
}

proof fn lemma_asked_whole(
    v: CheckView,
    cache: Map<CacheKeyView, Seq<u8>>,
    content: spec_fn(int) -> Seq<u8>,
)
    requires
        sound(v, content),
        whole(v, content),
    ensures
        whole(next_view(v, false, cache), content),
{
    let after = next_view(v, false, cache);
    match v.stage {
        CheckStage::Glimpsing => {
            if stage_is_over(v, false) {
                assert forall|i: int, j: int| #[trigger]
                    twins(after.candidates.len(), content, i, j) implies after.survivors.contains(
                    i,
                ) by {
                    lemma_glimpses_keep_pairs(v, content, i, j);
                }
            }
        },
        CheckStage::Hashing => {
            if !stage_is_over(v, false) {
                if let Some(digest) = cached_digest(
                    v.candidates[v.survivors[v.hashed]],
                    cache,
                ) {
                    lemma_hash_whole(v, digest, content);
                }
            }
        },
        CheckStage::Verifying => {
            if v.class < v.classes.len() {
                if members_of(v).len() <= 1 {
                    assert forall|k: int, a: int, b: int|
                        k < after.class && #[trigger] partners(
                            after.classes,
                            content,
                            k,
                            a,
                            b,
                        ) implies together(
                        after.groups,
                        after.classes[k].members[a],
                        after.classes[k].members[b],
                    ) by {
                        assert(partners(v.classes, content, k, a, b));
                    }
                } else if !v.started {
                    if v.member == members_of(v).len() {
                        lemma_closing_whole(v, content);
                    }
                } else if v.against == v.representatives.len() {
                    let n = v.representatives.len();
                    assert forall|t: int| 0 <= t < after.member implies in_lists(
                        after.representatives,
                        #[trigger] members_of(after)[t],
                    ) by {
                        let x = members_of(v)[t];
                        if t < v.member {
                            assert(in_lists(v.representatives, x));
                            let k = choose|k: int|
                                0 <= k < n && (#[trigger] v.representatives[k]).contains(x);
                            assert(after.representatives[k].contains(x));
                        } else {
                            assert(after.representatives[n as int][0] == x);
                            assert(after.representatives[n as int].contains(x));
                        }
                    }
                }
            }
        },
    }
}

proof fn lemma_comparison_whole(v: CheckView, equal: bool, content: spec_fn(int) -> Seq<u8>)
    requires
        v.in_range(),
        whole(v, content),
        fits(v, CheckEvent::Compared(equal)),
    ensures
        whole(with_comparison(v, equal), content),
{
    let after = with_comparison(v, equal);
    if equal {
        assert forall|t: int| 0 <= t < after.member implies in_lists(
            after.representatives,
            #[trigger] members_of(after)[t],
        ) by {
            let x = members_of(v)[t];
            if t < v.member {
                assert(in_lists(v.representatives, x));
                let k = choose|k: int|
                    0 <= k < v.representatives.len() && (
                    #[trigger] v.representatives[k]).contains(x);
                let p = choose|p: int|
                    0 <= p < v.representatives[k].len() && v.representatives[k][p] == x;
                assert(after.representatives[k][p] == x);
                assert(after.representatives[k].contains(x));
            } else {
                let list = v.representatives[v.against];
                assert(after.representatives[v.against][list.len() as int] == x);
                assert(after.representatives[v.against].contains(x));
            }
        }
    }
}

/// Where nothing is canceled or unreadable, nothing is lost.
pub proof fn lemma_event_whole(v: CheckView, event: CheckEvent, content: spec_fn(int) -> Seq<u8>)
    requires
        sound(v, content),
        whole(v, content),
        fits(v, event),
        undisturbed(event),
    ensures
        whole(after_event(v, event), content),
{
    match event {
        CheckEvent::Asked { canceled, cache } => lemma_asked_whole(v, cache, content),
        CheckEvent::Glimpsed(digest) => {
            let after = with_glimpse(v, digest);
            lemma_listed_with_member(v.glimpses, digest->0, v.looked);
            assert forall|i: int| 0 <= i < after.looked implies #[trigger] listed(
                after.glimpses,
                i,
            ) by {
                if i < v.looked {
                    assert(listed(v.glimpses, i));
                }
            }
        },
        CheckEvent::Hashed(digest) => lemma_hash_whole(v, digest, content),
        CheckEvent::HashFailed => {},
        CheckEvent::HashCanceled => {},
        CheckEvent::Compared(equal) => lemma_comparison_whole(v, equal, content),
    }
}

proof fn lemma_prefix(candidates: Seq<CandidateView>, events: Seq<CheckEvent>)
    requires
        events.len() > 0,
        all_fit(candidates, events),
    ensures
        all_fit(candidates, events.drop_last()),
        fits(after_events(candidates, events.drop_last()), events.last()),
{
    let shorter = events.drop_last();
    assert forall|i: int| 0 <= i < shorter.len() implies fits(
        after_events(candidates, shorter.take(i)),
        #[trigger] shorter[i],
    ) by {
        assert(shorter.take(i) =~= events.take(i));
        assert(fits(after_events(candidates, events.take(i)), events[i]));
    }
    let n = events.len() - 1;
    assert(events.take(n) =~= shorter);
    assert(fits(after_events(candidates, events.take(n)), events[n]));
}

proof fn lemma_truthful_prefix(
    candidates: Seq<CandidateView>,
    events: Seq<CheckEvent>,
    content: spec_fn(int) -> Seq<u8>,
)
    requires
        events.len() > 0,
        all_truthful(candidates, events, content),
    ensures
        all_truthful(candidates, events.drop_last(), content),
        truthful(after_events(candidates, events.drop_last()), events.last(), content),
{
    let shorter = events.drop_last();
    assert forall|i: int| 0 <= i < shorter.len() implies truthful(
        after_events(candidates, shorter.take(i)),
        #[trigger] shorter[i],
        content,
    ) by {
        assert(shorter.take(i) =~= events.take(i));
        assert(truthful(after_events(candidates, events.take(i)), events[i], content));
    }
    let n = events.len() - 1;
    assert(events.take(n) =~= shorter);
    assert(truthful(after_events(candidates, events.take(n)), events[n], content));
}

proof fn lemma_events_sound(
    candidates: Seq<CandidateView>,
    events: Seq<CheckEvent>,
    content: spec_fn(int) -> Seq<u8>,
)
    requires
        all_fit(candidates, events),
        all_truthful(candidates, events, content),
    ensures
        sound(after_events(candidates, events), content),
    decreases events.len(),
{
    if events.len() == 0 {
        lemma_fresh_sound(candidates, content);
    } else {
        lemma_prefix(candidates, events);
        lemma_truthful_prefix(candidates, events, content);
        lemma_events_sound(candidates, events.drop_last(), content);
        lemma_event_sound(
            after_events(candidates, events.drop_last()),
            events.last(),
            content,
        );
    }
}

proof fn lemma_events_whole(
    candidates: Seq<CandidateView>,
    events: Seq<CheckEvent>,
    content: spec_fn(int) -> Seq<u8>,
)
    requires
        all_fit(candidates, events),
        all_truthful(candidates, events, content),
        all_undisturbed(events),
    ensures
        whole(after_events(candidates, events), content),
    decreases events.len(),
{
    if events.len() == 0 {
        lemma_fresh_whole(candidates, content);
    } else {
        let shorter = events.drop_last();
        lemma_prefix(candidates, events);
        lemma_truthful_prefix(candidates, events, content);
        assert(all_undisturbed(shorter)) by {
            assert forall|i: int| 0 <= i < shorter.len() implies undisturbed(
                #[trigger] shorter[i],
            ) by {
                assert(undisturbed(events[i]));
            }
        }
        assert(undisturbed(events[events.len() - 1]));
        lemma_events_whole(candidates, shorter, content);
        lemma_events_sound(candidates, shorter, content);
        lemma_event_whole(after_events(candidates, shorter), events.last(), content);
    }
}

/// What is known of the groups of a check whose answers were true.
pub proof fn lemma_sound_groups(v: CheckView, content: spec_fn(int) -> Seq<u8>)
    requires
        sound(v, content),
    ensures
        ({
            let groups = v.groups;
            &&& forall|g: int| 0 <= g < groups.len() ==> (#[trigger] groups[g]).len() > 1
            &&& forall|g: int, a: int, h: int, b: int|
                0 <= g < groups.len() && 0 <= a < groups[g].len() && 0 <= h < groups.len() && 0
                    <= b < groups[h].len() ==> (g == h <==> content(#[trigger] groups[g][a])
                    == content(#[trigger] groups[h][b]))
        }),
{
    let groups = v.groups;
    assert forall|g: int, a: int, h: int, b: int|
        0 <= g < groups.len() && 0 <= a < groups[g].len() && 0 <= h < groups.len() && 0 <= b
            < groups[h].len() implies (g == h <==> content(#[trigger] groups[g][a]) == content(
        #[trigger] groups[h][b],
    )) by {
        assert(alike(groups[g], content));
        assert(alike(groups[h], content));
        assert(content(groups[g][a]) == content(groups[g][0]));
        assert(content(groups[h][b]) == content(groups[h][0]));
        if g < h {
            assert(content(groups[g][0]) != content(groups[h][0]));
        } else if h < g {
            assert(content(groups[h][0]) != content(groups[g][0]));
        }
    }
}

/// Files in one group have the same content and files in different groups have
/// not, whatever was canceled or could not be read on the way. Every group has
/// at least two files.
pub proof fn lemma_groups_hold_equal_files(
    candidates: Seq<CandidateView>,
    events: Seq<CheckEvent>,
    content: spec_fn(int) -> Seq<u8>,
)
    requires
        all_fit(candidates, events),
        all_truthful(candidates, events, content),
    ensures
        ({
            let groups = after_events(candidates, events).groups;
            &&& forall|g: int| 0 <= g < groups.len() ==> (#[trigger] groups[g]).len() > 1
            &&& forall|g: int, a: int, h: int, b: int|
                0 <= g < groups.len() && 0 <= a < groups[g].len() && 0 <= h < groups.len() && 0
                    <= b < groups[h].len() ==> (g == h <==> content(#[trigger] groups[g][a])
                    == content(#[trigger] groups[h][b]))
        }),
{
    lemma_events_sound(candidates, events, content);
    lemma_sound_groups(after_events(candidates, events), content);
}

/// What is known of the groups of a finished check that has lost nothing.
pub proof fn lemma_whole_groups(
    v: CheckView,
    content: spec_fn(int) -> Seq<u8>,
    i: int,
    j: int,
)
    requires
        sound(v, content),
        whole(v, content),
        finished(v),
        0 <= i < v.candidates.len(),
        0 <= j < v.candidates.len(),
        i != j,
        content(i) == content(j),
    ensures
        together(v.groups, i, j),
{
    assert(twins(v.candidates.len(), content, i, j));
    assert(twins(v.candidates.len(), content, j, i));
    let label = |i: int| blake3_digest(content(i));
    let s = choose|s: int| 0 <= s < v.survivors.len() && v.survivors[s] == i;
    let t = choose|t: int| 0 <= t < v.survivors.len() && v.survivors[t] == j;
    assert(listed(v.classes, v.survivors[s]));
    assert(listed(v.classes, v.survivors[t]));
    let (k, a) = choose|k: int, a: int| #[trigger]
        at(v.classes, k, a) && v.classes[k].members[a] == i;
    let (l, b) = choose|l: int, b: int| #[trigger]
        at(v.classes, l, b) && v.classes[l].members[b] == j;
    assert(label(i) == label(j));
    lemma_same_class(v.classes, label, k, a, l, b);
    assert(partners(v.classes, content, k, a, b));
}

/// A check that was not canceled and could read every file puts files with the
/// same content in the same group.
pub proof fn lemma_equal_files_are_grouped(
    candidates: Seq<CandidateView>,
    events: Seq<CheckEvent>,
    content: spec_fn(int) -> Seq<u8>,
    i: int,
    j: int,
)
    requires
        all_fit(candidates, events),
        all_truthful(candidates, events, content),
        all_undisturbed(events),
        finished(after_events(candidates, events)),
        0 <= i < candidates.len(),
        0 <= j < candidates.len(),
        i != j,
        content(i) == content(j),
    ensures
        together(after_events(candidates, events).groups, i, j),
{
    lemma_events_sound(candidates, events, content);
    lemma_events_whole(candidates, events, content);
    lemma_candidates_stay(candidates, events);
    lemma_whole_groups(after_events(candidates, events), content, i, j);
}

proof fn lemma_candidates_stay(candidates: Seq<CandidateView>, events: Seq<CheckEvent>)
    ensures
        after_events(candidates, events).candidates == candidates,
    decreases events.len(),
{
    if events.len() > 0 {
        lemma_candidates_stay(candidates, events.drop_last());
    }
}

/// Whether there is such an entry of such a list.
spec fn cell(lists: Seq<Seq<int>>, k: int, a: int) -> bool {
    0 <= k < lists.len() && 0 <= a < lists[k].len()
}

/// Whether nothing stands twice in the lists.
pub open spec fn once(lists: Seq<Seq<int>>) -> bool {
    forall|k: int, a: int, l: int, b: int|
        0 <= k < lists.len() && 0 <= a < lists[k].len() && 0 <= l < lists.len() && 0 <= b
            < lists[l].len() && #[trigger] lists[k][a] == #[trigger] lists[l][b] ==> k == l && a
            == b
}

/// Whether nothing is in two classes or twice in one.
spec fn once_in_classes(classes: Seq<ClassView>) -> bool {
    forall|k: int, a: int, l: int, b: int| #[trigger]
        at(classes, k, a) && #[trigger] at(classes, l, b) && classes[k].members[a]
            == classes[l].members[b] ==> k == l && a == b
}

proof fn lemma_once_with_member(classes: Seq<ClassView>, digest: Seq<u8>, m: int)
    requires
        once_in_classes(classes),
        !listed(classes, m),
    ensures
        once_in_classes(with_member(classes, digest, m)),
        forall|x: int| #[trigger]
            listed(with_member(classes, digest, m), x) ==> listed(classes, x) || x == m,
{
    let after = with_member(classes, digest, m);
    if has_class(classes, digest) {
        let c = class_for(classes, digest);
        assert(0 <= c < classes.len() && classes[c].digest == digest);
    }
    assert forall|k: int, a: int| #[trigger] at(after, k, a) implies (at(classes, k, a)
        && after[k].members[a] == classes[k].members[a]) || after[k].members[a] == m by {
    }
    assert forall|x: int| #[trigger] listed(after, x) implies listed(classes, x) || x == m by {
        let (k, a) = choose|k: int, a: int| #[trigger] at(after, k, a) && after[k].members[a] == x;
        if x != m {
            assert(at(classes, k, a));
        }
    }
    assert forall|k: int, a: int, l: int, b: int| #[trigger]
        at(after, k, a) && #[trigger] at(after, l, b) && after[k].members[a]
            == after[l].members[b] implies k == l && a == b by {
        if at(classes, k, a) {
            assert(classes[k].members[a] != m);
        }
        if at(classes, l, b) {
            assert(classes[l].members[b] != m);
        }
    }
}

proof fn lemma_repeated_once(classes: Seq<ClassView>)
    requires
        once_in_classes(classes),
    ensures
        repeated(classes).no_duplicates(),
        forall|t: int|
            0 <= t < repeated(classes).len() ==> listed(classes, #[trigger] repeated(classes)[t]),
    decreases classes.len(),
{
    if classes.len() > 0 {
        let rest = classes.drop_last();
        let n = classes.len() - 1;
        let last = classes[n].members;
        assert(once_in_classes(rest)) by {
            assert forall|k: int, a: int, l: int, b: int| #[trigger]
                at(rest, k, a) && #[trigger] at(rest, l, b) && rest[k].members[a]
                    == rest[l].members[b] implies k == l && a == b by {
                assert(at(classes, k, a));
                assert(at(classes, l, b));
            }
        }
        lemma_repeated_once(rest);
        let before = repeated(rest);
        let after = repeated(classes);
        assert forall|t: int| 0 <= t < before.len() implies listed(classes, #[trigger] before[t])
            && !last.contains(before[t]) by {
            assert(listed(rest, before[t]));
            let (k, a) = choose|k: int, a: int| #[trigger]
                at(rest, k, a) && rest[k].members[a] == before[t];
            assert(at(classes, k, a));
            if last.contains(before[t]) {
                let b = choose|b: int| 0 <= b < last.len() && last[b] == before[t];
                assert(at(classes, n, b));
            }
        }
        if last.len() > 1 {
            assert forall|t: int| 0 <= t < after.len() implies listed(
                classes,
                #[trigger] after[t],
            ) by {
                if t < before.len() {
                    assert(listed(classes, before[t]));
                } else {
                    assert(at(classes, n, t - before.len()));
                    assert(classes[n].members[t - before.len()] == after[t]);
                }
            }
            assert forall|t: int, u: int|
                0 <= t < after.len() && 0 <= u < after.len() && t != u implies after[t]
                != after[u] by {
                if t < before.len() && u < before.len() {
                    assert(before[t] != before[u]);
                } else if t < before.len() {
                    assert(!last.contains(before[t]));
                    assert(last[u - before.len()] == after[u]);
                } else if u < before.len() {
                    assert(!last.contains(before[u]));
                    assert(last[t - before.len()] == after[t]);
                } else {
                    assert(at(classes, n, t - before.len()));
                    assert(at(classes, n, u - before.len()));
                }
            }
        }
    }
}

/// What keeps a file from being counted twice.
pub closed spec fn unique(v: CheckView) -> bool {
    &&& v.in_range()
    &&& once_in_classes(v.glimpses)
    &&& forall|i: int| #[trigger] listed(v.glimpses, i) ==> i < v.looked
    &&& v.survivors.no_duplicates()
    &&& once_in_classes(v.classes)
    &&& forall|i: int| #[trigger]
        listed(v.classes, i) ==> exists|t: int| 0 <= t < v.hashed && #[trigger] v.survivors[t] == i
    &&& once(v.representatives)
    &&& v.representatives.len() > 0 ==> v.class < v.classes.len() && members_of(v).len() > 1
    &&& forall|r: int, a: int| #[trigger]
        cell(v.representatives, r, a) ==> exists|t: int|
            0 <= t < v.member && #[trigger] members_of(v)[t] == v.representatives[r][a]
    &&& once(v.groups)
    &&& forall|g: int, a: int| #[trigger]
        cell(v.groups, g, a) ==> in_classes_before(v.classes, v.class, v.groups[g][a])
}

/// Whether a file is in one of the first classes.
spec fn in_classes_before(classes: Seq<ClassView>, n: int, x: int) -> bool {
    exists|k: int, a: int| k < n && #[trigger] at(classes, k, a) && classes[k].members[a] == x
}

proof fn lemma_hash_unique(v: CheckView, digest: Seq<u8>)
    requires
        unique(v),
        v.stage == CheckStage::Hashing,
        v.hashed < v.survivors.len(),
    ensures
        unique(with_hash(v, digest)),
{
    lemma_hash_in_range(v, digest);
    let after = with_hash(v, digest);
    let m = v.survivors[v.hashed];
    if listed(v.classes, m) {
        let t = choose|t: int| 0 <= t < v.hashed && #[trigger] v.survivors[t] == m;
        assert(v.survivors[t] != v.survivors[v.hashed]);
    }
    lemma_once_with_member(v.classes, digest, m);
    assert forall|i: int| #[trigger] listed(after.classes, i) implies exists|t: int|
        0 <= t < after.hashed && #[trigger] after.survivors[t] == i by {
        if i == m {
            assert(after.survivors[v.hashed] == i);
        } else {
            assert(listed(v.classes, i));
            let t = choose|t: int| 0 <= t < v.hashed && #[trigger] v.survivors[t] == i;
            assert(after.survivors[t] == i);
        }
    }
}

proof fn lemma_larger_once(lists: Seq<Seq<int>>)
    requires
        once(lists),
    ensures
        once(larger(lists)),
        forall|g: int, a: int| #[trigger]
            cell(larger(lists), g, a) ==> exists|r: int| #[trigger]
                cell(lists, r, a) && lists[r] == larger(lists)[g],
    decreases lists.len(),
{
    reveal(Seq::filter);
    if lists.len() > 0 {
        let rest = lists.drop_last();
        let n = lists.len() - 1;
        assert(once(rest)) by {
            assert forall|k: int, a: int, l: int, b: int|
                0 <= k < rest.len() && 0 <= a < rest[k].len() && 0 <= l < rest.len() && 0 <= b
                    < rest[l].len() && #[trigger] rest[k][a] == #[trigger] rest[l][b] implies k == l
                && a == b by {
                assert(lists[k][a] == lists[l][b]);
            }
        }
        lemma_larger_once(rest);
        let before = larger(rest);
        let after = larger(lists);
        assert forall|g: int, a: int| #[trigger] cell(after, g, a) implies exists|r: int| #[trigger]
            cell(lists, r, a) && lists[r] == after[g] && (g < before.len() ==> r < n) && (g
            >= before.len() ==> r == n) by {
            if g < before.len() {
                assert(cell(before, g, a));
                let r = choose|r: int| #[trigger] cell(rest, r, a) && rest[r] == before[g];
                assert(cell(lists, r, a) && lists[r] == after[g]);
            } else {
                assert(cell(lists, n, a) && lists[n] == after[g]);
            }
        }
        assert forall|k: int, a: int, l: int, b: int|
            0 <= k < after.len() && 0 <= a < after[k].len() && 0 <= l < after.len() && 0 <= b
                < after[l].len() && #[trigger] after[k][a] == #[trigger] after[l][b] implies k == l
            && a == b by {
            assert(cell(after, k, a));
            assert(cell(after, l, b));
            let r = choose|r: int| #[trigger]
                cell(lists, r, a) && lists[r] == after[k] && (k < before.len() ==> r < n) && (k
                    >= before.len() ==> r == n);
            let q = choose|q: int| #[trigger]
                cell(lists, q, b) && lists[q] == after[l] && (l < before.len() ==> q < n) && (l
                    >= before.len() ==> q == n);
            assert(lists[r][a] == lists[q][b]);
            assert(r == q && a == b);
            if k < before.len() {
                assert(after[k] == before[k]);
                assert(after[l] == before[l]);
                assert(before[k][a] == before[l][b]);
            }
        }
    }
}

proof fn lemma_closing_unique(v: CheckView)
    requires
        unique(v),
        v.stage == CheckStage::Verifying,
        v.class < v.classes.len(),
        with_class_closed(v).in_range(),
    ensures
        unique(with_class_closed(v)),
{
    let after = with_class_closed(v);
    let more = larger(v.representatives);
    let n = v.groups.len() as int;
    lemma_larger_once(v.representatives);
    assert forall|g: int, a: int| #[trigger] cell(more, g, a) implies exists|t: int| #[trigger]
        at(v.classes, v.class, t) && members_of(v)[t] == more[g][a] by {
        let r = choose|r: int| #[trigger]
            cell(v.representatives, r, a) && v.representatives[r] == more[g];
        let t = choose|t: int|
            0 <= t < v.member && #[trigger] members_of(v)[t] == v.representatives[r][a];
        assert(at(v.classes, v.class, t));
    }
    assert forall|g: int, a: int| #[trigger] cell(after.groups, g, a) implies in_classes_before(
        after.classes,
        after.class,
        after.groups[g][a],
    ) by {
        if g < n {
            assert(cell(v.groups, g, a));
            assert(in_classes_before(v.classes, v.class, v.groups[g][a]));
            let (k, b) = choose|k: int, b: int|
                k < v.class && #[trigger] at(v.classes, k, b) && v.classes[k].members[b]
                    == v.groups[g][a];
            assert(at(after.classes, k, b));
        } else {
            assert(cell(more, g - n, a));
            let t = choose|t: int| #[trigger]
                at(v.classes, v.class, t) && members_of(v)[t] == more[g - n][a];
            assert(at(after.classes, v.class, t));
        }
    }
    assert forall|k: int, a: int, l: int, b: int|
        0 <= k < after.groups.len() && 0 <= a < after.groups[k].len() && 0 <= l
            < after.groups.len() && 0 <= b < after.groups[l].len() && #[trigger] after.groups[k][a]
            == #[trigger] after.groups[l][b] implies k == l && a == b by {
        lemma_groups_from_different_classes(v, more, k, a, l, b);
    }
}

proof fn lemma_groups_from_different_classes(
    v: CheckView,
    more: Seq<Seq<int>>,
    k: int,
    a: int,
    l: int,
    b: int,
)
    requires
        unique(v),
        once(more),
        forall|g: int, a: int| #[trigger]
            cell(more, g, a) ==> exists|t: int| #[trigger]
                at(v.classes, v.class, t) && members_of(v)[t] == more[g][a],
        cell(v.groups + more, k, a),
        cell(v.groups + more, l, b),
        (v.groups + more)[k][a] == (v.groups + more)[l][b],
    ensures
        k == l,
        a == b,
{
    let n = v.groups.len() as int;
    let x = (v.groups + more)[k][a];
    if k < n && l < n {
        assert(v.groups[k][a] == v.groups[l][b]);
    } else if k >= n && l >= n {
        assert(more[k - n][a] == more[l - n][b]);
    } else {
        let (g, c, h, d) = if k < n {
            (k, a, l - n, b)
        } else {
            (l, b, k - n, a)
        };
        assert(cell(v.groups, g, c) && v.groups[g][c] == x);
        assert(cell(more, h, d) && more[h][d] == x);
        assert(in_classes_before(v.classes, v.class, x));
        let (i, e) = choose|i: int, e: int|
            i < v.class && #[trigger] at(v.classes, i, e) && v.classes[i].members[e] == x;
        let t = choose|t: int| #[trigger] at(v.classes, v.class, t) && members_of(v)[t] == x;
        assert(v.classes[v.class].members[t] == v.classes[i].members[e]);
    }
}

proof fn lemma_placed_unique(v: CheckView, after: CheckView, r: int)
    requires
        unique(v),
        v.stage == CheckStage::Verifying,
        v.started,
        after.in_range(),
        0 <= r <= v.representatives.len(),
        after == (CheckView {
            representatives: if r < v.representatives.len() {
                v.representatives.update(
                    r,
                    v.representatives[r].push(members_of(v)[v.member]),
                )
            } else {
                v.representatives.push(seq![members_of(v)[v.member]])
            },
            member: v.member + 1,
            started: false,
            against: 0,
            ..v
        }),
    ensures
        unique(after),
{
    let x = members_of(v)[v.member];
    assert forall|k: int, a: int| #[trigger] cell(v.representatives, k, a) implies
        v.representatives[k][a] != x by {
        let t = choose|t: int|
            0 <= t < v.member && #[trigger] members_of(v)[t] == v.representatives[k][a];
        assert(at(v.classes, v.class, t));
        assert(at(v.classes, v.class, v.member));
    }
    assert forall|k: int, a: int| #[trigger] cell(after.representatives, k, a) implies (cell(
        v.representatives,
        k,
        a,
    ) && after.representatives[k][a] == v.representatives[k][a]) || (after.representatives[k][a]
        == x && k == r && a == after.representatives[r].len() - 1) by {
    }
    assert forall|k: int, a: int| #[trigger] cell(after.representatives, k, a) implies exists|
        t: int,
    |
        0 <= t < after.member && #[trigger] members_of(after)[t] == after.representatives[k][a] by {
        if cell(v.representatives, k, a) && after.representatives[k][a] == v.representatives[k][a] {
            let t = choose|t: int|
                0 <= t < v.member && #[trigger] members_of(v)[t] == v.representatives[k][a];
            assert(members_of(after)[t] == after.representatives[k][a]);
        } else {
            assert(members_of(after)[v.member] == after.representatives[k][a]);
        }
    }
    assert forall|k: int, a: int, l: int, b: int|
        0 <= k < after.representatives.len() && 0 <= a < after.representatives[k].len() && 0 <= l
            < after.representatives.len() && 0 <= b < after.representatives[l].len()
            && #[trigger] after.representatives[k][a]
            == #[trigger] after.representatives[l][b] implies k == l && a == b by {
        assert(cell(after.representatives, k, a));
        assert(cell(after.representatives, l, b));
        if cell(v.representatives, k, a) && after.representatives[k][a] == v.representatives[k][a]
            && cell(v.representatives, l, b) && after.representatives[l][b]
            == v.representatives[l][b] {
            assert(v.representatives[k][a] == v.representatives[l][b]);
        }
    }
}

/// No answer puts a file into two places.
pub proof fn lemma_event_unique(v: CheckView, event: CheckEvent)
    requires
        unique(v),
        fits(v, event),
    ensures
        unique(after_event(v, event)),
{
    lemma_event_in_range(v, event);
    let after = after_event(v, event);
    match event {
        CheckEvent::Asked { canceled, cache } => match v.stage {
            CheckStage::Glimpsing => {
                lemma_repeated_once(v.glimpses);
            },
            CheckStage::Hashing => {
                if !stage_is_over(v, canceled) {
                    if let Some(digest) = cached_digest(
                        v.candidates[v.survivors[v.hashed]],
                        cache,
                    ) {
                        lemma_hash_unique(v, digest);
                    }
                }
            },
            CheckStage::Verifying => {
                if v.class < v.classes.len() {
                    if members_of(v).len() <= 1 {
                        assert forall|g: int, a: int| #[trigger]
                            cell(after.groups, g, a) implies in_classes_before(
                            after.classes,
                            after.class,
                            after.groups[g][a],
                        ) by {
                            assert(cell(v.groups, g, a));
                            assert(in_classes_before(v.classes, v.class, v.groups[g][a]));
                            let (k, b) = choose|k: int, b: int|
                                k < v.class && #[trigger] at(v.classes, k, b)
                                    && v.classes[k].members[b] == v.groups[g][a];
                            assert(at(after.classes, k, b));
                        }
                    } else if !v.started {
                        if canceled || v.member == members_of(v).len() {
                            lemma_closing_unique(v);
                        }
                    } else if v.against == v.representatives.len() {
                        lemma_placed_unique(v, after, v.representatives.len() as int);
                    }
                }
            },
        },
        CheckEvent::Glimpsed(digest) => {
            if let Some(digest) = digest {
                lemma_once_with_member(v.glimpses, digest, v.looked);
            }
        },
        CheckEvent::Hashed(digest) => lemma_hash_unique(v, digest),
        CheckEvent::HashFailed => {
            assert forall|i: int| #[trigger] listed(after.classes, i) implies exists|t: int|
                0 <= t < after.hashed && #[trigger] after.survivors[t] == i by {
                assert(listed(v.classes, i));
                let t = choose|t: int| 0 <= t < v.hashed && #[trigger] v.survivors[t] == i;
                assert(after.survivors[t] == i);
            }
        },
        CheckEvent::HashCanceled => {},
        CheckEvent::Compared(equal) => {
            if equal {
                lemma_placed_unique(v, after, v.against);
            }
        },
    }
}

/// No file is in two groups or twice in one, whatever the answers were.
pub proof fn lemma_no_file_is_grouped_twice(
    candidates: Seq<CandidateView>,
    events: Seq<CheckEvent>,
)
    requires
        all_fit(candidates, events),
    ensures
        once(after_events(candidates, events).groups),
{
    lemma_events_unique(candidates, events);
}

/// A check begins with no file in two places.
pub proof fn lemma_fresh_unique(candidates: Seq<CandidateView>)
    ensures
        unique(fresh_check(candidates)),
{
    let v = fresh_check(candidates);
    assert forall|i: int| #[trigger] listed(v.glimpses, i) implies i < v.looked by {
        let (k, a) = choose|k: int, a: int| #[trigger]
            at(v.glimpses, k, a) && v.glimpses[k].members[a] == i;
    }
    assert forall|i: int| #[trigger] listed(v.classes, i) implies exists|t: int|
        0 <= t < v.hashed && #[trigger] v.survivors[t] == i by {
        let (k, a) = choose|k: int, a: int| #[trigger]
            at(v.classes, k, a) && v.classes[k].members[a] == i;
    }
}

/// What is known of the groups of a check with no file in two places.
pub proof fn lemma_unique_groups(v: CheckView)
    requires
        unique(v),
    ensures
        once(v.groups),
        v.in_range(),
{
}

proof fn lemma_events_unique(candidates: Seq<CandidateView>, events: Seq<CheckEvent>)
    requires
        all_fit(candidates, events),
    ensures
        unique(after_events(candidates, events)),
    decreases events.len(),
{
    if events.len() == 0 {
        lemma_fresh_unique(candidates);
    } else {
        lemma_prefix(candidates, events);
        lemma_events_unique(candidates, events.drop_last());
        lemma_event_unique(after_events(candidates, events.drop_last()), events.last());
    }
}

} // verus!
