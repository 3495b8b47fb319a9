//! What paths are made of.

use crate::path::{
    body_spans, components, file_name_of, is_absolute, is_skipped, joined, lemma_segment_end,
    lemma_spans, parent_of, relative_to, segment_end, shown_text, spans, starts_with,
    windows_bytes,
};
use crate::platform::Platform;
use crate::text::utf8_lossy;
use vstd::prelude::*;

verus! {

proof fn lemma_segment_before_slash(a: Seq<u8>, s: Seq<u8>, i: int)
    requires
        0 <= i <= a.len(),
    ensures
        segment_end(a.push(47) + s, i) == segment_end(a, i),
    decreases a.len() - i,
{
    let b = a.push(47) + s;
    if i < a.len() {
        assert(b[i] == a[i]);
        if a[i] != 47 {
            lemma_segment_before_slash(a, s, i + 1);
        }
    } else {
        assert(b[i] == 47);
    }
}

proof fn lemma_last_segment(b: Seq<u8>, i: int)
    requires
        0 <= i <= b.len(),
        forall|k: int| i <= k < b.len() ==> #[trigger] b[k] != 47,
    ensures
        segment_end(b, i) == b.len(),
    decreases b.len() - i,
{
    if i < b.len() {
        lemma_last_segment(b, i + 1);
    }
}

proof fn lemma_spans_before_slash(a: Seq<u8>, s: Seq<u8>, i: int)
    requires
        0 <= i <= a.len(),
    ensures
        body_spans(a.push(47) + s, i) == body_spans(a, i) + body_spans(
            a.push(47) + s,
            a.len() as int + 1,
        ),
    decreases a.len() - i,
{
    let b = a.push(47) + s;
    let n = a.len() as int;
    lemma_segment_before_slash(a, s, i);
    if i < n {
        lemma_segment_end(a, i);
        let j = segment_end(a, i);
        assert(b[i] == a[i]);
        assert(is_skipped(a, i, j) == is_skipped(b, i, j));
        if j < n {
            lemma_spans_before_slash(a, s, j + 1);
        }
        assert(body_spans(b, j + 1) == body_spans(a, j + 1) + body_spans(b, n + 1));
        assert(body_spans(b, i) =~= body_spans(a, i) + body_spans(b, n + 1));
    } else {
        assert(b[i] == 47);
        assert(body_spans(b, i) =~= body_spans(a, i) + body_spans(b, n + 1));
    }
}

/// What is behind the last slash is a component, unless it is empty or a dot; what is
/// before it has the same components as without it. A slash at the very front is the root.
/// A path without a slash is its own component, unless it is empty.
pub proof fn lemma_slashes_part_components(a: Seq<u8>, s: Seq<u8>)
    requires
        forall|i: int| 0 <= i < s.len() ==> #[trigger] s[i] != 47,
    ensures
        ({
            let before = if a.len() == 0 {
                seq![seq![47u8]]
            } else {
                components(a)
            };
            components(a.push(47) + s) == if s.len() == 0 || s == seq![46u8] {
                before
            } else {
                before.push(s)
            }
        }),
        components(s) == if s.len() == 0 {
            Seq::<Seq<u8>>::empty()
        } else {
            seq![s]
        },
{
    let b = a.push(47) + s;
    let n = a.len() as int;
    let from = n + 1;
    assert forall|k: int| from <= k < b.len() implies #[trigger] b[k] != 47 by {
        assert(b[k] == s[k - from]);
    }
    lemma_last_segment(b, from);
    let tail = body_spans(b, from);
    let skipped = s.len() == 0 || s == seq![46u8];
    if s.len() > 0 {
        assert(b[from] == s[0]);
        if s.len() == 1 && s[0] == 46 {
            assert(s =~= seq![46u8]);
        }
        assert(is_skipped(b, from, b.len() as int) == skipped);
        assert(body_spans(b, b.len() as int + 1) =~= Seq::<(int, int)>::empty());
    }
    assert(tail =~= if skipped {
        Seq::<(int, int)>::empty()
    } else {
        seq![(from, b.len() as int)]
    });
    assert(b.subrange(from, b.len() as int) =~= s);
    if n == 0 {
        assert(b[0] == 47);
        assert(b.subrange(0, 1) =~= seq![47u8]);
        assert(components(b) =~= if skipped {
            seq![seq![47u8]]
        } else {
            seq![seq![47u8]].push(s)
        });
    } else {
        assert(b[0] == a[0]);
        let start: int = if is_absolute(a) {
            1
        } else {
            0
        };
        lemma_spans_before_slash(a, s, start);
        assert(spans(b) =~= spans(a) + tail);
        lemma_spans(a);
        assert forall|k: int| 0 <= k < components(a).len() implies components(b)[k] == #[trigger] components(
            a,
        )[k] by {
            let span = spans(a)[k];
            assert(spans(b)[k] == span);
            assert(0 <= span.0 <= span.1 <= a.len());
            assert(b.subrange(span.0, span.1) =~= a.subrange(span.0, span.1));
        }
        assert(components(b) =~= if skipped {
            components(a)
        } else {
            components(a).push(s)
        });
    }
    lemma_last_segment(s, 0);
    if s.len() > 0 {
        assert(body_spans(s, s.len() as int + 1) =~= Seq::<(int, int)>::empty());
        assert(body_spans(s, 0) =~= seq![(0int, s.len() as int)]);
        assert(s.subrange(0, s.len() as int) =~= s);
        assert(components(s) =~= seq![s]);
    } else {
        assert(components(s) =~= Seq::<Seq<u8>>::empty());
    }
}

/// A name that is looked up in a directory is one component more, and is the file name of
/// what is found.
pub proof fn lemma_joined_name_is_the_last_component(b: Seq<u8>, name: Seq<u8>)
    requires
        name.len() > 0,
        forall|i: int| 0 <= i < name.len() ==> #[trigger] name[i] != 47,
        name != seq![46u8],
    ensures
        components(joined(b, name)) == components(b).push(name),
        name != seq![46u8, 46u8] ==> file_name_of(joined(b, name)) == Some(name),
        name == seq![46u8, 46u8] ==> file_name_of(joined(b, name)) is None,
{
    assert(name[0] != 47);
    assert(seq![47u8][0] == 47);
    lemma_slashes_part_components(Seq::empty(), name);
    if b.len() == 0 {
        assert(b + name =~= name);
        assert(components(b) =~= Seq::<Seq<u8>>::empty()) by {
            lemma_slashes_part_components(Seq::empty(), Seq::empty());
            assert(b =~= Seq::<u8>::empty());
        }
        assert(components(name) =~= components(b).push(name));
    } else if b.last() == 47 {
        let a = b.drop_last();
        assert(b =~= a.push(47));
        assert(b =~= a.push(47) + Seq::<u8>::empty());
        lemma_slashes_part_components(a, name);
        lemma_slashes_part_components(a, Seq::empty());
    } else {
        lemma_slashes_part_components(b, name);
    }
    assert(components(joined(b, name)).last() == name);
}

/// A path that begins with a slash stands alone, wherever it is looked up; any other goes
/// behind the directory, with one slash between them.
pub proof fn lemma_joined_paths_meet_at_a_slash(b: Seq<u8>, rel: Seq<u8>)
    ensures
        rel.len() > 0 && rel[0] == 47 ==> joined(b, rel) == rel,
        (rel.len() == 0 || rel[0] != 47) && b.len() == 0 ==> joined(b, rel) == rel,
        (rel.len() == 0 || rel[0] != 47) && b.len() > 0 && b.last() == 47 ==> joined(b, rel) == b
            + rel,
        (rel.len() == 0 || rel[0] != 47) && b.len() > 0 && b.last() != 47 ==> joined(b, rel) == b
            + seq![47u8] + rel,
        is_absolute(b) <==> b.len() > 0 && b[0] == 47,
{
    assert(b.push(47) =~= b + seq![47u8]);
    if b.len() == 0 {
        assert(b + rel =~= rel);
    }
}

/// A path has a file name exactly where it ends in a component that is neither the root
/// nor made of one or two dots, and that is the name.
pub proof fn lemma_file_name_is_the_last_component(b: Seq<u8>)
    ensures
        ({
            let c = components(b);
            match file_name_of(b) {
                Some(name) => c.len() > 0 && name == c[c.len() - 1] && name != seq![47u8] && name
                    != seq![46u8] && name != seq![46u8, 46u8],
                None => c.len() == 0 || c[c.len() - 1] == seq![47u8] || c[c.len() - 1] == seq![46u8]
                    || c[c.len() - 1] == seq![46u8, 46u8],
            }
        }),
{
}

proof fn lemma_segment_of_front(b: Seq<u8>, e: int, i: int)
    requires
        0 <= i <= e <= b.len(),
        segment_end(b, i) <= e,
    ensures
        segment_end(b.take(e), i) == segment_end(b, i),
    decreases b.len() - i,
{
    lemma_segment_end(b, i);
    if i < e {
        assert(b.take(e)[i] == b[i]);
        if b[i] != 47 {
            lemma_segment_of_front(b, e, i + 1);
        }
    }
}

proof fn lemma_spans_of_front(b: Seq<u8>, i: int, k: int)
    requires
        0 <= i,
        0 <= k < body_spans(b, i).len(),
    ensures
        i <= body_spans(b, i)[k].1 <= b.len(),
        body_spans(b.take(body_spans(b, i)[k].1), i) == body_spans(b, i).take(k + 1),
    decreases b.len() + 1 - i,
{
    let e = body_spans(b, i)[k].1;
    lemma_segment_end(b, i);
    let j = segment_end(b, i);
    let rest = body_spans(b, j + 1);
    if is_skipped(b, i, j) {
        assert(body_spans(b, i) == rest);
        lemma_spans_of_front(b, j + 1, k);
        let front = b.take(e);
        lemma_segment_of_front(b, e, i);
        assert(i < e);
        assert(front[i] == b[i]);
        assert(is_skipped(front, i, j));
        assert(body_spans(front, i) =~= body_spans(b, i).take(k + 1));
    } else {
        assert(body_spans(b, i) =~= seq![(i, j)] + rest);
        if k == 0 {
            let front = b.take(j);
            lemma_segment_of_front(b, j, i);
            assert(i < j);
            assert(front[i] == b[i]);
            assert(!is_skipped(front, i, j));
            assert(body_spans(front, j + 1) =~= Seq::<(int, int)>::empty());
            assert(body_spans(front, i) =~= seq![(i, j)]);
            assert(body_spans(b, i).take(1) =~= seq![(i, j)]);
        } else {
            assert(rest[k - 1] == body_spans(b, i)[k]);
            lemma_spans_of_front(b, j + 1, k - 1);
            let front = b.take(e);
            lemma_segment_of_front(b, e, i);
            assert(front[i] == b[i]);
            assert(!is_skipped(front, i, j));
            assert(body_spans(front, i) =~= seq![(i, j)] + rest.take(k));
            assert(body_spans(b, i).take(k + 1) =~= seq![(i, j)] + rest.take(k));
        }
    }
}

proof fn lemma_components_of_front(b: Seq<u8>, k: int)
    requires
        0 <= k < spans(b).len(),
    ensures
        0 < spans(b)[k].1 <= b.len(),
        spans(b.take(spans(b)[k].1)) == spans(b).take(k + 1),
        components(b.take(spans(b)[k].1)) == components(b).take(k + 1),
{
    lemma_spans(b);
    let e = spans(b)[k].1;
    let front = b.take(e);
    assert(front[0] == b[0]);
    if is_absolute(b) {
        if k == 0 {
            assert(body_spans(front, 1) =~= Seq::<(int, int)>::empty());
        } else {
            assert(body_spans(b, 1)[k - 1] == spans(b)[k]);
            lemma_spans_of_front(b, 1, k - 1);
        }
    } else {
        lemma_spans_of_front(b, 0, k);
    }
    assert(spans(front) =~= spans(b).take(k + 1));
    assert forall|i: int| 0 <= i < k + 1 implies #[trigger] components(front)[i] == components(
        b,
    )[i] by {
        let span = spans(b)[i];
        assert(spans(front)[i] == span);
        assert(span.1 <= e);
        assert(front.subrange(span.0, span.1) =~= b.subrange(span.0, span.1));
    }
    assert(components(front) =~= components(b).take(k + 1));
}

/// The parent of a path is the beginning of it that has all of its components but the
/// last, and ends where the last of those ends. The empty path and the root have none.
pub proof fn lemma_parent_has_all_but_the_last(b: Seq<u8>)
    ensures
        parent_of(b) is None <==> components(b).len() == 0 || components(b) == seq![seq![47u8]],
        parent_of(b) is Some ==> ({
            let parent = parent_of(b)->0;
            let c = components(parent);
            &&& parent.len() <= b.len()
            &&& parent == b.take(parent.len() as int)
            &&& c == components(b).drop_last()
            &&& c.len() == 0 <==> parent.len() == 0
            &&& c.len() > 0 ==> c.last().len() <= parent.len() && parent.skip(
                parent.len() - c.last().len(),
            ) == c.last()
        }),
{
    lemma_spans(b);
    let s = spans(b);
    if parent_of(b) is Some {
        let parent = parent_of(b)->0;
        if s.len() == 1 {
            assert(components(parent) =~= Seq::<Seq<u8>>::empty());
            assert(components(b).drop_last() =~= Seq::<Seq<u8>>::empty());
            assert(b.take(0) =~= Seq::<u8>::empty());
        } else {
            let k = s.len() - 2;
            lemma_components_of_front(b, k);
            assert(components(b).take(k + 1) =~= components(b).drop_last());
            let last = s[k];
            assert(spans(parent)[k] == last);
            let c = components(parent);
            assert(c.last() == parent.subrange(last.0, last.1));
            assert(last.1 == parent.len());
            assert(parent.skip(parent.len() - c.last().len()) =~= c.last());
        }
    }
}

proof fn lemma_segment_of_back(b: Seq<u8>, from: int, i: int)
    requires
        0 <= from <= i <= b.len(),
    ensures
        segment_end(b.skip(from), i - from) == segment_end(b, i) - from,
    decreases b.len() - i,
{
    if i < b.len() {
        assert(b.skip(from)[i - from] == b[i]);
        if b[i] != 47 {
            lemma_segment_of_back(b, from, i + 1);
        }
    }
}

proof fn lemma_spans_of_back(b: Seq<u8>, from: int, i: int)
    requires
        0 <= from < i,
        from <= b.len(),
    ensures
        body_spans(b, i) == body_spans(b.skip(from), i - from).map_values(
            |s: (int, int)| (s.0 + from, s.1 + from),
        ),
    decreases b.len() + 1 - i,
{
    let back = b.skip(from);
    let f = |s: (int, int)| (s.0 + from, s.1 + from);
    if i < b.len() {
        lemma_segment_end(b, i);
        let j = segment_end(b, i);
        lemma_segment_of_back(b, from, i);
        assert(back[i - from] == b[i]);
        assert(is_skipped(b, i, j) == is_skipped(back, i - from, j - from));
        lemma_spans_of_back(b, from, j + 1);
        let rest = body_spans(back, j + 1 - from);
        if !is_skipped(b, i, j) {
            assert(body_spans(back, i - from) == seq![(i - from, j - from)] + rest);
            assert(body_spans(b, i) =~= (seq![(i - from, j - from)] + rest).map_values(f));
        }
    } else {
        assert(body_spans(b, i) =~= body_spans(back, i - from).map_values(f));
    }
}

proof fn lemma_find_span(b: Seq<u8>, i: int, k: int)
    requires
        0 <= i,
        0 <= k < body_spans(b, i).len(),
    ensures
        ({
            let from = body_spans(b, i)[k].0;
            &&& i <= from < b.len()
            &&& segment_end(b, from) == body_spans(b, i)[k].1
            &&& !is_skipped(b, from, body_spans(b, i)[k].1)
            &&& body_spans(b, from) == body_spans(b, i).skip(k)
        }),
    decreases b.len() + 1 - i,
{
    lemma_segment_end(b, i);
    let j = segment_end(b, i);
    let rest = body_spans(b, j + 1);
    if is_skipped(b, i, j) {
        lemma_find_span(b, j + 1, k);
    } else {
        assert(body_spans(b, i) =~= seq![(i, j)] + rest);
        if k > 0 {
            assert(rest[k - 1] == body_spans(b, i)[k]);
            lemma_find_span(b, j + 1, k - 1);
            assert(rest.skip(k - 1) =~= body_spans(b, i).skip(k));
        } else {
            assert(body_spans(b, i).skip(0) =~= body_spans(b, i));
        }
    }
}

proof fn lemma_components_of_back(b: Seq<u8>, k: int)
    requires
        0 <= k < spans(b).len(),
        k > 0 || !is_absolute(b),
    ensures
        0 <= spans(b)[k].0 < b.len(),
        components(b.skip(spans(b)[k].0)) == components(b).skip(k),
{
    lemma_spans(b);
    let start: int = if is_absolute(b) {
        1
    } else {
        0
    };
    let from = spans(b)[k].0;
    assert(body_spans(b, start)[k - start] == spans(b)[k]);
    lemma_find_span(b, start, k - start);
    let j = segment_end(b, from);
    let back = b.skip(from);
    lemma_segment_of_back(b, from, from);
    lemma_segment_end(b, from);
    assert(back[0] == b[from]);
    assert(from < j);
    assert(b[from] != 47);
    assert(!is_absolute(back));
    lemma_spans_of_back(b, from, j + 1);
    let rest = body_spans(back, j + 1 - from);
    assert(!is_skipped(back, 0, j - from));
    assert(spans(back) =~= seq![(0int, j - from)] + rest);
    assert(body_spans(b, from) =~= seq![(from, j)] + body_spans(b, j + 1));
    assert(spans(b).skip(k) =~= body_spans(b, from)) by {
        assert(body_spans(b, start).skip(k - start) =~= spans(b).skip(k));
    }
    assert(body_spans(b, j + 1).len() == rest.len());
    assert(spans(b).skip(k).len() == 1 + rest.len());
    assert(spans(back).len() == spans(b).len() - k);
    lemma_spans(back);
    assert forall|i: int| 0 <= i < spans(back).len() implies #[trigger] components(back)[i]
        == components(b)[i + k] by {
        let t = spans(back)[i];
        assert(spans(b).skip(k)[i] == (t.0 + from, t.1 + from));
        assert(spans(b)[i + k] == (t.0 + from, t.1 + from));
        assert(back.subrange(t.0, t.1) =~= b.subrange(t.0 + from, t.1 + from));
    }
    assert(components(back) =~= components(b).skip(k));
}

/// A path has a way from a directory exactly where it begins with the components of that
/// directory, and the way has the components behind those.
pub proof fn lemma_way_is_what_is_behind(b: Seq<u8>, base: Seq<u8>)
    ensures
        ({
            let n = components(base).len() as int;
            let below = n <= components(b).len() && components(b).take(n) == components(base);
            &&& starts_with(b, base) <==> below
            &&& relative_to(b, base) is Some <==> below
            &&& below ==> components(relative_to(b, base)->0) == components(b).skip(n)
        }),
{
    let n = components(base).len() as int;
    lemma_spans(b);
    if relative_to(b, base) is Some {
        let way = relative_to(b, base)->0;
        if n == components(b).len() {
            assert(components(way) =~= Seq::<Seq<u8>>::empty());
            assert(components(b).skip(n) =~= Seq::<Seq<u8>>::empty());
        } else {
            let last = spans(b).len() - 1;
            lemma_components_of_front(b, last);
            let front = b.take(spans(b)[last].1);
            assert(components(front) =~= components(b)) by {
                assert(components(b).take(last + 1) =~= components(b));
            }
            assert(spans(front) =~= spans(b)) by {
                assert(spans(b).take(last + 1) =~= spans(b));
            }
            let from = spans(b)[n].0;
            assert(front[0] == b[0]);
            if n == 0 && is_absolute(b) {
                assert(from == 0);
                assert(way =~= front);
                assert(components(b).skip(0) =~= components(b));
            } else {
                lemma_components_of_back(front, n);
                assert(way =~= front.skip(from));
            }
        }
    }
}

/// Below a directory, what is looked up there has the way by which it was looked up.
pub proof fn lemma_way_leads_back(b: Seq<u8>, name: Seq<u8>)
    requires
        name.len() > 0,
        forall|i: int| 0 <= i < name.len() ==> #[trigger] name[i] != 47,
        name != seq![46u8],
    ensures
        relative_to(joined(b, name), b) is Some,
        components(relative_to(joined(b, name), b)->0) == seq![name],
        parent_of(joined(b, name)) is Some,
        components(parent_of(joined(b, name))->0) == components(b),
{
    lemma_joined_name_is_the_last_component(b, name);
    let whole = joined(b, name);
    let n = components(b).len() as int;
    lemma_way_is_what_is_behind(whole, b);
    assert(components(whole).take(n) =~= components(b));
    assert(components(whole).skip(n) =~= seq![name]);
    lemma_parent_has_all_but_the_last(whole);
    assert(components(whole).drop_last() =~= components(b));
    assert(name[0] != 47);
    assert(seq![47u8][0] == 47);
    if components(whole) == seq![seq![47u8]] {
        assert(components(whole).last() == seq![47u8]);
    }
}

/// Paths are shown as they are, but for ill-formed parts; on Windows with backslashes for
/// the slashes between components, and with a replacement character in place of half of a
/// surrogate pair.
pub proof fn lemma_paths_are_shown(b: Seq<u8>, c: u8, platform: Platform)
    ensures
        platform != Platform::Windows ==> shown_text(b, platform) == utf8_lossy(b),
        platform == Platform::Windows ==> shown_text(b, platform) == utf8_lossy(windows_bytes(b)),
        windows_bytes(Seq::empty()) == Seq::<u8>::empty(),
        windows_bytes(seq![47u8] + b) == seq![92u8] + windows_bytes(b),
        c != 47 && !(c == 0xED && b.len() >= 2 && b[0] >= 0xA0) ==> windows_bytes(seq![c] + b)
            == seq![c] + windows_bytes(b),
        b.len() >= 3 && b[0] == 0xED && b[1] >= 0xA0 ==> windows_bytes(b) == seq![
            0xEFu8,
            0xBFu8,
            0xBDu8,
        ] + windows_bytes(b.subrange(3, b.len() as int)),
{
    let slashed = seq![47u8] + b;
    assert(slashed[0] == 47);
    assert(slashed.skip(1) =~= b);
    let more = seq![c] + b;
    assert(more[0] == c);
    assert(more.skip(1) =~= b);
    if more.len() >= 3 {
        assert(more[1] == b[0]);
    }
    if b.len() >= 3 {
        assert(b.skip(3) =~= b.subrange(3, b.len() as int));
    }
}

} // verus!
