//! Paths as byte strings, compared and taken apart by components.
//!
//! Components are separated by slashes on every platform. Where the platform has
//! another separator, paths come in with slashes in its place, and the separator is
//! back where a path is shown or taken out.

use crate::order::{
    ascending, bytes_order, compare_bytes, first_difference, lemma_bytes_order_antisymmetric,
    lemma_bytes_order_transitive, same_bytes, Order, SortItem,
};
use crate::platform::Platform;
use crate::text::{lossy_text, utf8_lossy, utf8_text};
use vstd::prelude::*;
use vstd::slice::slice_subrange;

verus! {

pub const SLASH: u8 = 47;

pub const BACKSLASH: u8 = 92;

pub const DOT: u8 = 46;

/// A path as the bytes that name it, with slashes between the components.
#[derive(Debug)]
pub struct FilePath {
    pub bytes: Vec<u8>,
}

impl View for FilePath {
    type V = Seq<u8>;

    open spec fn view(&self) -> Seq<u8> {
        self.bytes@
    }
}

/// The end of the segment that starts at `i`: the next slash, or the end.
pub open spec fn segment_end(b: Seq<u8>, i: int) -> int
    decreases b.len() - i,
{
    if i >= b.len() || b[i] == SLASH {
        i
    } else {
        segment_end(b, i + 1)
    }
}

/// A segment that is no component: an empty one, and a dot that does not open
/// the path.
pub open spec fn is_skipped(b: Seq<u8>, i: int, j: int) -> bool {
    i == j || (i > 0 && j == i + 1 && b[i] == DOT)
}

/// Where the components lie in the part of the path from `i` on.
pub open spec fn body_spans(b: Seq<u8>, i: int) -> Seq<(int, int)>
    decreases b.len() + 1 - i,
{
    if i >= b.len() {
        Seq::empty()
    } else {
        proof {
            lemma_segment_end(b, i);
        }
        let j = segment_end(b, i);
        if is_skipped(b, i, j) {
            body_spans(b, j + 1)
        } else {
            seq![(i, j)] + body_spans(b, j + 1)
        }
    }
}

/// Whether the path starts at the root.
pub open spec fn is_absolute(b: Seq<u8>) -> bool {
    b.len() > 0 && b[0] == SLASH
}

/// Where the components lie in the path, the root's slash first.
pub open spec fn spans(b: Seq<u8>) -> Seq<(int, int)> {
    if is_absolute(b) {
        seq![(0int, 1int)] + body_spans(b, 1)
    } else {
        body_spans(b, 0)
    }
}

/// The components of the path. The root is a slash; two paths are the same
/// when their components are.
pub open spec fn components(b: Seq<u8>) -> Seq<Seq<u8>> {
    spans(b).map_values(|s: (int, int)| b.subrange(s.0, s.1))
}

/// The bytes of several paths.
pub open spec fn path_bytes(paths: Seq<FilePath>) -> Seq<Seq<u8>> {
    paths.map_values(|p: FilePath| p@)
}

pub open spec fn root_component() -> Seq<u8> {
    seq![SLASH]
}

pub open spec fn current_component() -> Seq<u8> {
    seq![DOT]
}

pub open spec fn parent_component() -> Seq<u8> {
    seq![DOT, DOT]
}

/// A component that names a file or directory.
pub open spec fn is_normal(c: Seq<u8>) -> bool {
    c != root_component() && c != current_component() && c != parent_component()
}

/// The last component, where it names something.
pub open spec fn file_name_of(b: Seq<u8>) -> Option<Seq<u8>> {
    let c = components(b);
    if c.len() > 0 && is_normal(c.last()) {
        Some(c.last())
    } else {
        None
    }
}

/// The path up to the component before the last; the root and the empty path
/// have none.
pub open spec fn parent_of(b: Seq<u8>) -> Option<Seq<u8>> {
    let s = spans(b);
    if s.len() == 0 || components(b) == seq![root_component()] {
        None
    } else if s.len() == 1 {
        Some(Seq::empty())
    } else {
        Some(b.take(s[s.len() - 2].1))
    }
}

/// Whether the components of `base` open those of the path.
pub open spec fn starts_with(b: Seq<u8>, base: Seq<u8>) -> bool {
    components(base).len() <= components(b).len() && components(b).take(
        components(base).len() as int,
    ) == components(base)
}

/// What is left of the path behind `base`.
pub open spec fn relative_to(b: Seq<u8>, base: Seq<u8>) -> Option<Seq<u8>> {
    if !starts_with(b, base) {
        None
    } else if components(base).len() == components(b).len() {
        Some(Seq::empty())
    } else {
        Some(b.subrange(spans(b)[components(base).len() as int].0, spans(b).last().1))
    }
}

/// `rel` looked up from `b`: an absolute `rel` stands alone.
pub open spec fn joined(b: Seq<u8>, rel: Seq<u8>) -> Seq<u8> {
    if is_absolute(rel) {
        rel
    } else if b.len() == 0 || b.last() == SLASH {
        b + rel
    } else {
        b.push(SLASH) + rel
    }
}

/// The path, its parent, and so on up.
pub open spec fn ancestors_of(b: Seq<u8>) -> Seq<Seq<u8>>
    decreases b.len(),
{
    proof {
        lemma_parent_shorter(b);
    }
    match parent_of(b) {
        Some(p) => seq![b] + ancestors_of(p),
        None => seq![b],
    }
}

/// Whether bytes begin with half of a surrogate pair, as names on Windows may hold.
pub open spec fn begins_with_surrogate(b: Seq<u8>) -> bool {
    b.len() >= 3 && b[0] == 0xED && b[1] >= 0xA0
}

/// A path as Windows writes it: backslashes between the components, and a
/// replacement character for half of a surrogate pair.
pub open spec fn windows_bytes(b: Seq<u8>) -> Seq<u8>
    decreases b.len(),
{
    if b.len() == 0 {
        Seq::empty()
    } else if begins_with_surrogate(b) {
        seq![0xEFu8, 0xBFu8, 0xBDu8] + windows_bytes(b.skip(3))
    } else {
        seq![
            if b[0] == SLASH {
                BACKSLASH
            } else {
                b[0]
            },
        ] + windows_bytes(b.skip(1))
    }
}

/// A path or a name as it is shown, with the separator of the platform and with
/// ill-formed parts replaced.
pub open spec fn shown_text(b: Seq<u8>, platform: Platform) -> Seq<char> {
    utf8_lossy(
        if platform.unix() {
            b
        } else {
            windows_bytes(b)
        },
    )
}

/// Root before `.` before `..` before names.
pub open spec fn component_rank(c: Seq<u8>) -> int {
    if c == root_component() {
        0
    } else if c == current_component() {
        1
    } else if c == parent_component() {
        2
    } else {
        3
    }
}

pub open spec fn component_order(a: Seq<u8>, b: Seq<u8>) -> Order {
    first_difference(ascending(component_rank(a), component_rank(b)), bytes_order(a, b))
}

/// Dictionary order on lists of components.
pub open spec fn components_order(a: Seq<Seq<u8>>, b: Seq<Seq<u8>>) -> Order
    decreases a.len(),
{
    if a.len() == 0 {
        if b.len() == 0 {
            Order::Equal
        } else {
            Order::Less
        }
    } else if b.len() == 0 {
        Order::Greater
    } else {
        first_difference(
            component_order(a[0], b[0]),
            components_order(a.drop_first(), b.drop_first()),
        )
    }
}

pub proof fn lemma_segment_end(b: Seq<u8>, i: int)
    requires
        i <= b.len(),
    ensures
        i <= segment_end(b, i) <= b.len(),
        segment_end(b, i) < b.len() ==> b[segment_end(b, i)] == SLASH,
    decreases b.len() - i,
{
    if i < b.len() && b[i] != SLASH {
        lemma_segment_end(b, i + 1);
    }
}

proof fn lemma_body_spans(b: Seq<u8>, i: int)
    requires
        0 <= i,
    ensures
        forall|k: int|
            0 <= k < body_spans(b, i).len() ==> i <= (#[trigger] body_spans(b, i)[k]).0
                < body_spans(b, i)[k].1 <= b.len(),
        forall|k: int, l: int|
            0 <= k < l < body_spans(b, i).len() ==> (#[trigger] body_spans(b, i)[k]).1 < (
            #[trigger] body_spans(b, i)[l]).0,
    decreases b.len() + 1 - i,
{
    if i < b.len() {
        lemma_segment_end(b, i);
        let j = segment_end(b, i);
        let rest = body_spans(b, j + 1);
        lemma_body_spans(b, j + 1);
        if !is_skipped(b, i, j) {
            let s = body_spans(b, i);
            assert(s =~= seq![(i, j)] + rest);
            assert forall|k: int| 0 <= k < s.len() implies i <= (#[trigger] s[k]).0 < s[k].1
                <= b.len() by {
                if k > 0 {
                    assert(s[k] == rest[k - 1]);
                }
            }
            assert forall|k: int, l: int| 0 <= k < l < s.len() implies (#[trigger] s[k]).1 < (
            #[trigger] s[l]).0 by {
                assert(s[l] == rest[l - 1]);
                if k > 0 {
                    assert(s[k] == rest[k - 1]);
                }
            }
        }
    }
}

/// Components lie in the path one behind the other.
pub proof fn lemma_spans(b: Seq<u8>)
    ensures
        forall|k: int|
            0 <= k < spans(b).len() ==> 0 <= (#[trigger] spans(b)[k]).0 < spans(b)[k].1 <= b.len(),
        forall|k: int, l: int|
            0 <= k < l < spans(b).len() ==> (#[trigger] spans(b)[k]).1 <= (#[trigger] spans(
                b,
            )[l]).0,
        components(b).len() == spans(b).len(),
        forall|k: int|
            0 <= k < spans(b).len() ==> #[trigger] components(b)[k] == b.subrange(
                spans(b)[k].0,
                spans(b)[k].1,
            ),
{
    if is_absolute(b) {
        lemma_body_spans(b, 1);
        let rest = body_spans(b, 1);
        assert forall|k: int| 0 <= k < spans(b).len() implies 0 <= (#[trigger] spans(b)[k]).0
            < spans(b)[k].1 <= b.len() by {
            if k > 0 {
                assert(spans(b)[k] == rest[k - 1]);
            }
        }
        assert forall|k: int, l: int| 0 <= k < l < spans(b).len() implies (#[trigger] spans(
            b,
        )[k]).1 <= (#[trigger] spans(b)[l]).0 by {
            assert(spans(b)[l] == rest[l - 1]);
            if k > 0 {
                assert(spans(b)[k] == rest[k - 1]);
            }
        }
    } else {
        lemma_body_spans(b, 0);
    }
}

pub proof fn lemma_parent_shorter(b: Seq<u8>)
    ensures
        parent_of(b) matches Some(p) ==> p.len() < b.len(),
{
    lemma_spans(b);
    let s = spans(b);
    if s.len() == 1 {
        assert(0 <= s[0].0 < s[0].1 <= b.len());
    } else if s.len() > 1 {
        let k = s.len() - 2;
        let l = s.len() - 1;
        assert(s[k].1 <= s[l].0);
        assert(s[l].0 < s[l].1 <= b.len());
    }
}

proof fn lemma_component_order_antisymmetric(a: Seq<u8>, b: Seq<u8>)
    ensures
        component_order(a, b) == Order::Equal <==> a == b,
        component_order(a, b) == Order::Less <==> component_order(b, a) == Order::Greater,
{
    lemma_bytes_order_antisymmetric(a, b);
}

proof fn lemma_component_order_transitive(a: Seq<u8>, b: Seq<u8>, c: Seq<u8>)
    requires
        component_order(a, b) != Order::Greater,
        component_order(b, c) != Order::Greater,
    ensures
        component_order(a, c) != Order::Greater,
{
    if component_rank(a) == component_rank(b) && component_rank(b) == component_rank(c) {
        lemma_bytes_order_transitive(a, b, c);
    }
}

/// Paths compare equal exactly when their components are the same, and
/// swapping the sides swaps the outcome.
pub proof fn lemma_components_order_antisymmetric(a: Seq<Seq<u8>>, b: Seq<Seq<u8>>)
    ensures
        components_order(a, b) == Order::Equal <==> a == b,
        components_order(a, b) == Order::Less <==> components_order(b, a) == Order::Greater,
    decreases a.len(),
{
    if a.len() > 0 && b.len() > 0 {
        lemma_component_order_antisymmetric(a[0], b[0]);
        lemma_component_order_antisymmetric(b[0], a[0]);
        lemma_components_order_antisymmetric(a.drop_first(), b.drop_first());
        if a[0] == b[0] && a.drop_first() == b.drop_first() {
            assert(a =~= seq![a[0]] + a.drop_first());
            assert(b =~= seq![b[0]] + b.drop_first());
        }
    } else {
        assert(a.len() == 0 && b.len() == 0 ==> a =~= b);
    }
}

/// The order of paths is transitive.
pub proof fn lemma_components_order_transitive(
    a: Seq<Seq<u8>>,
    b: Seq<Seq<u8>>,
    c: Seq<Seq<u8>>,
)
    requires
        components_order(a, b) != Order::Greater,
        components_order(b, c) != Order::Greater,
    ensures
        components_order(a, c) != Order::Greater,
    decreases a.len(),
{
    if a.len() > 0 && b.len() > 0 && c.len() > 0 {
        lemma_component_order_transitive(a[0], b[0], c[0]);
        lemma_component_order_antisymmetric(a[0], b[0]);
        lemma_component_order_antisymmetric(b[0], c[0]);
        lemma_component_order_antisymmetric(a[0], c[0]);
        lemma_component_order_antisymmetric(b[0], a[0]);
        lemma_component_order_antisymmetric(c[0], b[0]);
        if a[0] == b[0] && b[0] == c[0] {
            lemma_components_order_transitive(a.drop_first(), b.drop_first(), c.drop_first());
        } else if component_order(a[0], c[0]) == Order::Equal {
            assert(a[0] == c[0]);
            assert(component_order(b[0], a[0]) != Order::Greater);
            assert(a[0] == b[0]);
        }
    }
}

pub open spec fn int_spans(s: Seq<(usize, usize)>) -> Seq<(int, int)> {
    s.map_values(|p: (usize, usize)| (p.0 as int, p.1 as int))
}

/// Where the components lie.
fn find_spans(b: &[u8]) -> (r: Vec<(usize, usize)>)
    ensures
        int_spans(r@) == spans(b@),
{
    let mut out: Vec<(usize, usize)> = Vec::new();
    let mut i: usize = 0;
    let n: usize = b.len();
    if n > 0 && b[0] == SLASH {
        out.push((0, 1));
        i = 1;
    }
    assert(int_spans(out@) + body_spans(b@, i as int) =~= spans(b@));
    while i < n
        invariant
            n == b@.len(),
            i <= n,
            int_spans(out@) + body_spans(b@, i as int) =~= spans(b@),
        decreases n - i,
    {
        let mut j: usize = i;
        while j < n && b[j] != SLASH
            invariant
                n == b@.len(),
                i <= j <= n,
                segment_end(b@, i as int) == segment_end(b@, j as int),
            decreases n - j,
        {
            j = j + 1;
        }
        let ghost before = out@;
        let skip: bool = i == j || (i > 0 && j - i == 1 && b[i] == DOT);
        if !skip {
            out.push((i, j));
            assert(int_spans(out@) =~= int_spans(before).push((i as int, j as int)));
        }
        assert(segment_end(b@, i as int) == j);
        assert(body_spans(b@, i as int) == if skip {
            body_spans(b@, j + 1)
        } else {
            seq![(i as int, j as int)] + body_spans(b@, j + 1)
        });
        assert(int_spans(out@) + body_spans(b@, j + 1) =~= spans(b@));
        if j < n {
            i = j + 1;
        } else {
            i = n;
            assert(body_spans(b@, n as int) == body_spans(b@, n + 1));
        }
    }
    out
}

fn component_at<'a>(b: &'a [u8], s: &Vec<(usize, usize)>, k: usize) -> (r: &'a [u8])
    requires
        int_spans(s@) == spans(b@),
        k < s@.len(),
    ensures
        r@ == components(b@)[k as int],
{
    proof {
        lemma_spans(b@);
        assert(int_spans(s@)[k as int] == spans(b@)[k as int]);
    }
    slice_subrange(b, s[k].0, s[k].1)
}

fn is_normal_component(c: &[u8]) -> (r: bool)
    ensures
        r == is_normal(c@),
{
    if c.len() == 1 && (c[0] == SLASH || c[0] == DOT) {
        assert(c@ =~= seq![c@[0]]);
        return false;
    }
    if c.len() == 2 && c[0] == DOT && c[1] == DOT {
        assert(c@ =~= parent_component());
        return false;
    }
    assert(root_component()[0] == SLASH && root_component().len() == 1);
    assert(current_component()[0] == DOT && current_component().len() == 1);
    assert(parent_component()[0] == DOT && parent_component()[1] == DOT
        && parent_component().len() == 2);
    true
}

fn rank_of_component(c: &[u8]) -> (r: u64)
    ensures
        r == component_rank(c@),
{
    if c.len() == 1 && c[0] == SLASH {
        assert(c@ =~= root_component());
        return 0;
    }
    assert(root_component()[0] == SLASH && root_component().len() == 1);
    if c.len() == 1 && c[0] == DOT {
        assert(c@ =~= current_component());
        return 1;
    }
    assert(current_component()[0] == DOT && current_component().len() == 1);
    if c.len() == 2 && c[0] == DOT && c[1] == DOT {
        assert(c@ =~= parent_component());
        return 2;
    }
    assert(parent_component()[0] == DOT && parent_component()[1] == DOT
        && parent_component().len() == 2);
    3
}

fn compare_components(a: &[u8], b: &[u8]) -> (r: Order)
    ensures
        r == component_order(a@, b@),
{
    let left: u64 = rank_of_component(a);
    let right: u64 = rank_of_component(b);
    if left < right {
        Order::Less
    } else if left > right {
        Order::Greater
    } else {
        compare_bytes(a, b)
    }
}

fn copy_bytes(b: &[u8]) -> (r: Vec<u8>)
    ensures
        r@ == b@,
{
    let mut out: Vec<u8> = Vec::new();
    let mut i: usize = 0;
    while i < b.len()
        invariant
            i <= b@.len(),
            out@ == b@.take(i as int),
        decreases b@.len() - i,
    {
        out.push(b[i]);
        i = i + 1;
        assert(out@ =~= b@.take(i as int));
    }
    assert(b@.take(b@.len() as int) =~= b@);
    out
}

fn to_windows_bytes(b: &[u8]) -> (r: Vec<u8>)
    ensures
        r@ == windows_bytes(b@),
{
    let mut out: Vec<u8> = Vec::new();
    let mut i: usize = 0;
    assert(b@.skip(0) =~= b@);
    while i < b.len()
        invariant
            i <= b@.len(),
            out@ + windows_bytes(b@.skip(i as int)) =~= windows_bytes(b@),
        decreases b@.len() - i,
    {
        let ghost before = out@;
        let ghost rest = b@.skip(i as int);
        if b.len() - i >= 3 && b[i] == 0xED && b[i + 1] >= 0xA0 {
            out.push(0xEF);
            out.push(0xBF);
            out.push(0xBD);
            i = i + 3;
            assert(rest.skip(3) =~= b@.skip(i as int));
            assert(out@ =~= before + seq![0xEFu8, 0xBFu8, 0xBDu8]);
        } else {
            let byte: u8 = if b[i] == SLASH {
                BACKSLASH
            } else {
                b[i]
            };
            out.push(byte);
            i = i + 1;
            assert(rest.skip(1) =~= b@.skip(i as int));
            assert(out@ =~= before + seq![byte]);
        }
    }
    assert(b@.skip(i as int) =~= Seq::<u8>::empty());
    out
}

/// A path or a name as it is shown.
pub fn text_to_show(b: &[u8], platform: Platform) -> (r: String)
    ensures
        r@ == shown_text(b@, platform),
{
    if platform.is_unix() {
        lossy_text(b)
    } else {
        let written: Vec<u8> = to_windows_bytes(b);
        lossy_text(written.as_slice())
    }
}

impl FilePath {
    /// The path with these bytes.
    pub fn from_bytes(bytes: Vec<u8>) -> (r: FilePath)
        ensures
            r@ == bytes@,
    {
        FilePath { bytes }
    }

    /// The path that a text names.
    pub fn from_text(text: &str) -> (r: FilePath)
        ensures
            r@ == vstd::utf8::encode_utf8(text@),
    {
        FilePath { bytes: copy_bytes(text.as_bytes()) }
    }

    /// Another value for the same bytes.
    pub fn copy(&self) -> (r: FilePath)
        ensures
            r@ == self@,
    {
        FilePath { bytes: copy_bytes(self.bytes.as_slice()) }
    }

    pub fn is_absolute(&self) -> (r: bool)
        ensures
            r == is_absolute(self@),
    {
        self.bytes.len() > 0 && self.bytes[0] == SLASH
    }

    /// The last component, where it names something.
    pub fn file_name(&self) -> (r: Option<Vec<u8>>)
        ensures
            match r {
                Some(name) => file_name_of(self@) == Some(name@),
                None => file_name_of(self@) is None,
            },
    {
        let b: &[u8] = self.bytes.as_slice();
        let s: Vec<(usize, usize)> = find_spans(b);
        proof {
            lemma_spans(self@);
            assert(int_spans(s@).len() == s@.len());
        }
        if s.len() == 0 {
            return None;
        }
        let last: &[u8] = component_at(b, &s, s.len() - 1);
        if is_normal_component(last) {
            Some(copy_bytes(last))
        } else {
            None
        }
    }

    /// The last component as text, where it is valid UTF-8.
    pub fn file_name_text(&self) -> (r: Option<String>)
        ensures
            match r {
                Some(text) => file_name_of(self@) is Some && vstd::utf8::valid_utf8(
                    file_name_of(self@)->0,
                ) && text@ == vstd::utf8::decode_utf8(file_name_of(self@)->0),
                None => file_name_of(self@) is None || !vstd::utf8::valid_utf8(
                    file_name_of(self@)->0,
                ),
            },
    {
        match self.file_name() {
            Some(name) => match utf8_text(name.as_slice()) {
                Some(text) => Some(text.to_owned()),
                None => None,
            },
            None => None,
        }
    }

    /// The path above this one.
    pub fn parent(&self) -> (r: Option<FilePath>)
        ensures
            match r {
                Some(p) => parent_of(self@) == Some(p@),
                None => parent_of(self@) is None,
            },
    {
        let b: &[u8] = self.bytes.as_slice();
        let s: Vec<(usize, usize)> = find_spans(b);
        proof {
            lemma_spans(self@);
            assert(int_spans(s@).len() == s@.len());
        }
        if s.len() == 0 {
            return None;
        }
        if s.len() == 1 {
            let only: &[u8] = component_at(b, &s, 0);
            if only.len() == 1 && only[0] == SLASH {
                assert(only@ =~= root_component());
                assert(components(self@) =~= seq![root_component()]);
                return None;
            }
            proof {
                if components(self@) == seq![root_component()] {
                    assert(seq![root_component()][0] == root_component());
                    assert(only@ == root_component());
                    assert(root_component()[0] == SLASH && root_component().len() == 1);
                }
            }
            return Some(FilePath { bytes: Vec::new() });
        }
        let k: usize = s.len() - 2;
        proof {
            assert(int_spans(s@)[k as int] == spans(self@)[k as int]);
        }
        let head: &[u8] = slice_subrange(b, 0, s[k].1);
        assert(head@ =~= self@.take(spans(self@)[k as int].1));
        assert(seq![root_component()].len() == 1);
        Some(FilePath { bytes: copy_bytes(head) })
    }

    /// Whether both paths have the same components.
    pub fn same_path(&self, other: &FilePath) -> (r: bool)
        ensures
            r == (components(self@) == components(other@)),
    {
        let r: bool = self.compare(other) == Order::Equal;
        proof {
            lemma_components_order_antisymmetric(components(self@), components(other@));
        }
        r
    }

    /// Compares component by component.
    pub fn compare(&self, other: &FilePath) -> (r: Order)
        ensures
            r == components_order(components(self@), components(other@)),
    {
        let a: &[u8] = self.bytes.as_slice();
        let b: &[u8] = other.bytes.as_slice();
        let s: Vec<(usize, usize)> = find_spans(a);
        let t: Vec<(usize, usize)> = find_spans(b);
        let ghost c = components(self@);
        let ghost d = components(other@);
        proof {
            lemma_spans(self@);
            lemma_spans(other@);
            assert(int_spans(s@).len() == s@.len());
            assert(int_spans(t@).len() == t@.len());
        }
        let mut i: usize = 0;
        assert(c.skip(0) =~= c);
        assert(d.skip(0) =~= d);
        while i < s.len() && i < t.len()
            invariant
                i <= s@.len(),
                i <= t@.len(),
                a@ == self@,
                b@ == other@,
                int_spans(s@) == spans(a@),
                int_spans(t@) == spans(b@),
                c == components(self@),
                d == components(other@),
                c.len() == s@.len(),
                d.len() == t@.len(),
                components_order(c, d) == components_order(c.skip(i as int), d.skip(i as int)),
            decreases s@.len() - i,
        {
            let step: Order = compare_components(component_at(a, &s, i), component_at(b, &t, i));
            assert(c.skip(i as int)[0] == c[i as int]);
            assert(d.skip(i as int)[0] == d[i as int]);
            if step != Order::Equal {
                return step;
            }
            assert(c.skip(i as int).drop_first() =~= c.skip(i + 1));
            assert(d.skip(i as int).drop_first() =~= d.skip(i + 1));
            i = i + 1;
        }
        if i < t.len() {
            Order::Less
        } else if i < s.len() {
            Order::Greater
        } else {
            Order::Equal
        }
    }

    /// What is left behind `base`, where `base` opens the path.
    pub fn strip_prefix(&self, base: &FilePath) -> (r: Option<FilePath>)
        ensures
            match r {
                Some(p) => relative_to(self@, base@) == Some(p@),
                None => relative_to(self@, base@) is None,
            },
    {
        let a: &[u8] = self.bytes.as_slice();
        let b: &[u8] = base.bytes.as_slice();
        let s: Vec<(usize, usize)> = find_spans(a);
        let t: Vec<(usize, usize)> = find_spans(b);
        let ghost c = components(self@);
        let ghost d = components(base@);
        proof {
            lemma_spans(self@);
            lemma_spans(base@);
            assert(int_spans(s@).len() == s@.len());
            assert(int_spans(t@).len() == t@.len());
        }
        if t.len() > s.len() {
            return None;
        }
        let mut i: usize = 0;
        while i < t.len()
            invariant
                i <= t@.len() <= s@.len(),
                a@ == self@,
                b@ == base@,
                int_spans(s@) == spans(a@),
                int_spans(t@) == spans(b@),
                c == components(self@),
                d == components(base@),
                c.len() == s@.len(),
                d.len() == t@.len(),
                forall|j: int| 0 <= j < i ==> c[j] == d[j],
            decreases t@.len() - i,
        {
            if !same_bytes(component_at(a, &s, i), component_at(b, &t, i)) {
                proof {
                    assert(c[i as int] != d[i as int]);
                    if starts_with(self@, base@) {
                        assert(c.take(d.len() as int)[i as int] == d[i as int]);
                    }
                }
                return None;
            }
            i = i + 1;
        }
        assert(c.take(d.len() as int) =~= d);
        if t.len() == s.len() {
            return Some(FilePath { bytes: Vec::new() });
        }
        let first: usize = t.len();
        let last: usize = s.len() - 1;
        proof {
            assert(int_spans(s@)[first as int] == spans(self@)[first as int]);
            assert(int_spans(s@)[last as int] == spans(self@)[last as int]);
        }
        Some(FilePath { bytes: copy_bytes(slice_subrange(a, s[first].0, s[last].1)) })
    }

    /// `rel` looked up from this path.
    pub fn join(&self, rel: &[u8]) -> (r: FilePath)
        ensures
            r@ == joined(self@, rel@),
    {
        if rel.len() > 0 && rel[0] == SLASH {
            return FilePath { bytes: copy_bytes(rel) };
        }
        let mut out: Vec<u8> = copy_bytes(self.bytes.as_slice());
        if out.len() > 0 && out[out.len() - 1] != SLASH {
            out.push(SLASH);
        }
        let mut tail: Vec<u8> = copy_bytes(rel);
        out.append(&mut tail);
        FilePath { bytes: out }
    }

    /// The path, its parent, and so on up.
    pub fn ancestors(&self) -> (r: Vec<FilePath>)
        ensures
            path_bytes(r@) == ancestors_of(self@),
    {
        let mut out: Vec<FilePath> = Vec::new();
        let mut current: FilePath = self.copy();
        loop
            invariant
                out@.map_values(|p: FilePath| p@) + ancestors_of(current@) == ancestors_of(self@),
            decreases current@.len(),
        {
            proof {
                lemma_parent_shorter(current@);
            }
            let up: Option<FilePath> = current.parent();
            let ghost before = out@;
            let ghost here = current@;
            match up {
                Some(p) => {
                    out.push(current);
                    proof {
                        assert(out@.map_values(|p: FilePath| p@) =~= before.map_values(
                            |p: FilePath| p@,
                        ).push(here));
                        assert(out@.map_values(|p: FilePath| p@) + ancestors_of(p@)
                            =~= before.map_values(|p: FilePath| p@) + ancestors_of(here));
                    }
                    current = p;
                },
                None => {
                    out.push(current);
                    proof {
                        assert(out@.map_values(|p: FilePath| p@) =~= before.map_values(
                            |p: FilePath| p@,
                        ) + ancestors_of(here));
                    }
                    return out;
                },
            }
        }
    }

    /// The path as it is shown.
    pub fn display(&self, platform: Platform) -> (r: String)
        ensures
            r@ == shown_text(self@, platform),
    {
        text_to_show(self.bytes.as_slice(), platform)
    }
}

impl SortItem for FilePath {
    open spec fn at_most(a: FilePath, b: FilePath) -> bool {
        components_order(components(a@), components(b@)) != Order::Greater
    }

    proof fn lemma_total(a: FilePath, b: FilePath) {
        lemma_components_order_antisymmetric(components(a@), components(b@));
        lemma_components_order_antisymmetric(components(b@), components(a@));
    }

    proof fn lemma_transitive(a: FilePath, b: FilePath, c: FilePath) {
        lemma_components_order_transitive(components(a@), components(b@), components(c@));
    }

    fn is_at_most(&self, other: &FilePath) -> (r: bool) {
        self.compare(other) != Order::Greater
    }
}

} // verus!
