//! Lists of user and group ids.

use crate::order::{is_sorted, stable_sort, SortItem};
use crate::text::{
    chars_of, decimal, lemma_decimal_round_trip, number_fault, parsed_u32, push_char,
    push_decimal, read_u32, text_of, NumberFault,
};
use vstd::prelude::*;
use vstd::slice::slice_subrange;

verus! {

impl SortItem for u32 {
    open spec fn at_most(a: u32, b: u32) -> bool {
        a <= b
    }

    proof fn lemma_total(a: u32, b: u32) {
    }

    proof fn lemma_transitive(a: u32, b: u32, c: u32) {
    }

    fn is_at_most(&self, other: &u32) -> (r: bool) {
        *self <= *other
    }
}

/// Every id is smaller than the ones behind it.
pub open spec fn strictly_increasing(s: Seq<u32>) -> bool {
    forall|i: int, j: int| 0 <= i < j < s.len() ==> s[i] < s[j]
}

/// Two strictly increasing lists of the same ids are the same list.
pub proof fn lemma_increasing_unique(a: Seq<u32>, b: Seq<u32>)
    requires
        strictly_increasing(a),
        strictly_increasing(b),
        a.to_set() == b.to_set(),
    ensures
        a == b,
    decreases a.len(),
{
    if a.len() == 0 {
        if b.len() > 0 {
            assert(b.to_set().contains(b[0]));
            assert(a.to_set().contains(b[0]));
        }
        assert(a =~= b);
    } else {
        let x = a.last();
        assert(a.to_set().contains(x));
        assert(b.to_set().contains(x));
        let k = choose|k: int| 0 <= k < b.len() && b[k] == x;
        assert(b.to_set().contains(b.last()));
        assert(a.to_set().contains(b.last()));
        let l = choose|l: int| 0 <= l < a.len() && a[l] == b.last();
        assert(k == b.len() - 1) by {
            if k < b.len() - 1 {
                assert(b[k] < b[b.len() - 1]);
                if l < a.len() - 1 {
                    assert(a[l] < a[a.len() - 1]);
                }
            }
        }
        let c = a.drop_last();
        let d = b.drop_last();
        assert(c.to_set() =~= d.to_set()) by {
            assert forall|v: u32| c.to_set().contains(v) implies d.to_set().contains(v) by {
                let i = choose|i: int| 0 <= i < c.len() && c[i] == v;
                assert(a[i] == v && a[i] < a[a.len() - 1]);
                assert(a.to_set().contains(v));
                assert(b.to_set().contains(v));
                let j = choose|j: int| 0 <= j < b.len() && b[j] == v;
                assert(d[j] == v);
            }
            assert forall|v: u32| d.to_set().contains(v) implies c.to_set().contains(v) by {
                let i = choose|i: int| 0 <= i < d.len() && d[i] == v;
                assert(b[i] == v && b[i] < b[b.len() - 1]);
                assert(b.to_set().contains(v));
                assert(a.to_set().contains(v));
                let j = choose|j: int| 0 <= j < a.len() && a[j] == v;
                assert(c[j] == v);
            }
        }
        lemma_increasing_unique(c, d);
        assert(a =~= c.push(x));
        assert(b =~= d.push(x));
    }
}

proof fn lemma_same_elements<T>(a: Seq<T>, b: Seq<T>)
    requires
        a.to_multiset() == b.to_multiset(),
    ensures
        a.to_set() == b.to_set(),
{
    broadcast use vstd::seq_lib::group_to_multiset_ensures;

    assert forall|v: T| a.to_set().contains(v) <==> b.to_set().contains(v) by {
        assert(a.contains(v) <==> a.to_multiset().count(v) > 0);
        assert(b.contains(v) <==> b.to_multiset().count(v) > 0);
    }
    assert(a.to_set() =~= b.to_set());
}

/// The ids in ascending order, each once.
pub fn sorted_ids(ids: Vec<u32>) -> (r: Vec<u32>)
    ensures
        strictly_increasing(r@),
        r@.to_set() == ids@.to_set(),
{
    let ghost before = ids@;
    let sorted: Vec<u32> = stable_sort(ids);
    proof {
        lemma_same_elements(before, sorted@);
    }
    let mut out: Vec<u32> = Vec::new();
    let mut i: usize = 0;
    assert(out@.to_set() =~= sorted@.take(0).to_set());
    while i < sorted.len()
        invariant
            i <= sorted@.len(),
            is_sorted(sorted@),
            strictly_increasing(out@),
            out@.to_set() == sorted@.take(i as int).to_set(),
            i > 0 ==> out@.len() > 0 && out@.last() == sorted@[i - 1],
            i == 0 ==> out@.len() == 0,
        decreases sorted@.len() - i,
    {
        let v: u32 = sorted[i];
        let ghost old_out = out@;
        proof {
            if i > 0 {
                assert(u32::at_most(sorted@[i - 1], sorted@[i as int]));
            }
            assert(sorted@.take(i + 1) =~= sorted@.take(i as int).push(v));
        }
        if out.len() == 0 || out[out.len() - 1] != v {
            out.push(v);
            proof {
                assert forall|a: int, b: int| 0 <= a < b < out@.len() implies out@[a]
                    < out@[b] by {
                    if b == out@.len() - 1 {
                        if a < old_out.len() - 1 {
                            assert(old_out[a] < old_out[old_out.len() - 1]);
                        }
                    } else {
                        assert(old_out[a] < old_out[b]);
                    }
                }
            }
        }
        proof {
            sorted@.take(i as int).lemma_push_to_set_commute(v);
            old_out.lemma_push_to_set_commute(v);
            if out@ == old_out {
                assert(old_out[old_out.len() - 1] == v);
                assert(old_out.to_set().insert(v) =~= old_out.to_set());
            }
        }
        i = i + 1;
    }
    assert(sorted@.take(sorted@.len() as int) =~= sorted@);
    out
}

/// Whether two lists name the same ids.
pub fn same_ids(a: Vec<u32>, b: Vec<u32>) -> (r: bool)
    ensures
        r == (a@.to_set() == b@.to_set()),
{
    let left: Vec<u32> = sorted_ids(a);
    let right: Vec<u32> = sorted_ids(b);
    proof {
        if left@.to_set() == right@.to_set() {
            lemma_increasing_unique(left@, right@);
        }
    }
    if left.len() != right.len() {
        return false;
    }
    let mut i: usize = 0;
    while i < left.len()
        invariant
            i <= left@.len(),
            left@.len() == right@.len(),
            left@.to_set() == a@.to_set(),
            right@.to_set() == b@.to_set(),
            left@.to_set() == right@.to_set() ==> left@ == right@,
            forall|j: int| 0 <= j < i ==> left@[j] == right@[j],
        decreases left@.len() - i,
    {
        if left[i] != right[i] {
            return false;
        }
        i = i + 1;
    }
    assert(left@ =~= right@);
    true
}

/// Where the first comma stands, or the length where there is none.
pub open spec fn first_comma(s: Seq<char>) -> int
    decreases s.len(),
{
    if s.len() == 0 || s[0] == ',' {
        0
    } else {
        1 + first_comma(s.drop_first())
    }
}

/// The parts of a text between its commas.
pub open spec fn comma_fields(s: Seq<char>) -> Seq<Seq<char>>
    decreases s.len(),
{
    let k = first_comma(s);
    if k < 0 || k >= s.len() {
        seq![s]
    } else {
        seq![s.take(k)] + comma_fields(s.skip(k + 1))
    }
}

/// The numbers that fields denote, where each denotes one.
pub open spec fn parsed_fields(fields: Seq<Seq<char>>) -> Option<Seq<u32>>
    decreases fields.len(),
{
    if fields.len() == 0 {
        Some(Seq::empty())
    } else {
        match (parsed_u32(fields[0]), parsed_fields(fields.drop_first())) {
            (Some(first), Some(others)) => Some(seq![first] + others),
            _ => None,
        }
    }
}

/// The ids that a text lists between commas.
pub open spec fn parsed_ids(s: Seq<char>) -> Option<Seq<u32>> {
    parsed_fields(comma_fields(s))
}

/// Why the first field that denotes no number denotes none.
pub open spec fn fields_fault(fields: Seq<Seq<char>>) -> Option<NumberFault>
    decreases fields.len(),
{
    if fields.len() == 0 {
        None
    } else if number_fault(fields[0]) is Some {
        number_fault(fields[0])
    } else {
        fields_fault(fields.drop_first())
    }
}

/// Why a text lists no ids, where it lists none.
pub open spec fn ids_fault(s: Seq<char>) -> Option<NumberFault> {
    fields_fault(comma_fields(s))
}

/// Ids in decimal notation with commas between them.
pub open spec fn listed_ids(ids: Seq<u32>) -> Seq<char>
    decreases ids.len(),
{
    if ids.len() == 0 {
        Seq::empty()
    } else if ids.len() == 1 {
        decimal(ids[0] as nat)
    } else {
        decimal(ids[0] as nat) + seq![','] + listed_ids(ids.drop_first())
    }
}

proof fn lemma_first_comma(s: Seq<char>)
    ensures
        0 <= first_comma(s) <= s.len(),
        first_comma(s) < s.len() ==> s[first_comma(s)] == ',',
        forall|i: int| 0 <= i < first_comma(s) ==> s[i] != ',',
    decreases s.len(),
{
    if s.len() > 0 && s[0] != ',' {
        lemma_first_comma(s.drop_first());
        assert forall|i: int| 0 <= i < first_comma(s) implies s[i] != ',' by {
            if i > 0 {
                assert(s[i] == s.drop_first()[i - 1]);
            }
        }
    }
}

proof fn lemma_first_comma_at(s: Seq<char>, k: int)
    requires
        0 <= k <= s.len(),
        forall|i: int| 0 <= i < k ==> s[i] != ',',
        k < s.len() ==> s[k] == ',',
    ensures
        first_comma(s) == k,
{
    lemma_first_comma(s);
    let f = first_comma(s);
    if f < k {
        assert(s[f] != ',');
    } else if k < f {
        assert(s[k] != ',');
    }
}

proof fn lemma_no_comma(n: nat)
    ensures
        forall|i: int| 0 <= i < decimal(n).len() ==> decimal(n)[i] != ',',
    decreases n,
{
    if n >= 10 {
        lemma_no_comma(n / 10);
        assert forall|i: int| 0 <= i < decimal(n).len() implies decimal(n)[i] != ',' by {
            if i < decimal(n).len() - 1 {
                assert(decimal(n)[i] == decimal(n / 10)[i]);
            }
        }
    }
}

/// A list of ids is read back from its notation.
pub proof fn lemma_listed_ids_round_trip(ids: Seq<u32>)
    requires
        ids.len() > 0,
    ensures
        parsed_ids(listed_ids(ids)) == Some(ids),
    decreases ids.len(),
{
    let head = decimal(ids[0] as nat);
    let text = listed_ids(ids);
    lemma_no_comma(ids[0] as nat);
    lemma_decimal_round_trip(ids[0]);
    if ids.len() == 1 {
        lemma_first_comma_at(text, text.len() as int);
        let fields = comma_fields(text);
        assert(fields =~= seq![head]);
        assert(fields.drop_first() =~= Seq::<Seq<char>>::empty());
        assert(parsed_fields(fields.drop_first()) == Some(Seq::<u32>::empty()));
        assert(seq![ids[0]] + Seq::<u32>::empty() =~= ids);
    } else {
        let others = ids.drop_first();
        lemma_listed_ids_round_trip(others);
        lemma_first_comma_at(text, head.len() as int);
        assert(text.take(head.len() as int) =~= head);
        assert(text.skip((head.len() + 1) as int) =~= listed_ids(others));
        let fields = comma_fields(text);
        assert(fields =~= seq![head] + comma_fields(listed_ids(others)));
        assert(fields.drop_first() =~= comma_fields(listed_ids(others)));
        assert(seq![ids[0]] + others =~= ids);
    }
}

/// Writes ids with commas between them.
pub fn list_ids(ids: &Vec<u32>) -> (r: String)
    ensures
        r@ == listed_ids(ids@),
{
    let mut out: String = String::new();
    let mut i: usize = 0;
    assert(ids@.skip(0) =~= ids@);
    assert(out@ + listed_ids(ids@.skip(0)) =~= listed_ids(ids@));
    while i < ids.len()
        invariant
            i <= ids@.len(),
            out@ + listed_ids(ids@.skip(i as int)) == listed_ids(ids@),
        decreases ids@.len() - i,
    {
        let ghost before = out@;
        let ghost rest = ids@.skip(i as int);
        push_decimal(&mut out, ids[i]);
        assert(rest[0] == ids@[i as int]);
        assert(rest.drop_first() =~= ids@.skip(i + 1));
        if i + 1 < ids.len() {
            push_char(&mut out, ',');
        } else {
            assert(ids@.skip(i + 1) =~= Seq::<u32>::empty());
        }
        i = i + 1;
        assert(out@ + listed_ids(ids@.skip(i as int)) =~= before + listed_ids(rest));
    }
    assert(ids@.skip(ids@.len() as int) =~= Seq::<u32>::empty());
    assert(out@ + Seq::<char>::empty() =~= out@);
    out
}

/// What is parsed so far, continued by what the rest of the text lists.
spec fn continued(done: Seq<u32>, rest: Seq<char>) -> Option<Seq<u32>> {
    match parsed_ids(rest) {
        Some(others) => Some(done + others),
        None => None,
    }
}

/// Reads ids with commas between them.
pub fn parse_ids(text: &str) -> (r: Result<Vec<u32>, NumberFault>)
    ensures
        match r {
            Ok(ids) => parsed_ids(text@) == Some(ids@),
            Err(fault) => parsed_ids(text@) is None && ids_fault(text@) == Some(fault),
        },
{
    let chars: Vec<char> = chars_of(text);
    let mut out: Vec<u32> = Vec::new();
    let mut start: usize = 0;
    proof {
        assert(text@.skip(0) =~= text@);
        if let Some(others) = parsed_ids(text@) {
            assert(out@ + others =~= others);
        }
    }
    loop
        invariant
            chars@ == text@,
            start <= chars@.len(),
            parsed_ids(text@) == continued(out@, text@.skip(start as int)),
            ids_fault(text@) == ids_fault(text@.skip(start as int)),
        decreases chars@.len() - start,
    {
        let ghost rest = text@.skip(start as int);
        let mut end: usize = start;
        while end < chars.len() && chars[end] != ','
            invariant
                chars@ == text@,
                rest == text@.skip(start as int),
                start <= end <= chars@.len(),
                forall|i: int| 0 <= i < end - start ==> rest[i] != ',',
            decreases chars@.len() - end,
        {
            end = end + 1;
        }
        proof {
            lemma_first_comma_at(rest, end - start);
        }
        let field: String = text_of(slice_subrange(chars.as_slice(), start, end));
        assert(field@ =~= rest.take(end - start));
        let ghost fields = comma_fields(rest);
        let ghost done = out@;
        match read_u32(field.as_str()) {
            Ok(id) => {
                out.push(id);
                if end == chars.len() {
                    proof {
                        assert(rest.take(end - start) =~= rest);
                        assert(fields =~= seq![rest]);
                        assert(fields.drop_first() =~= Seq::<Seq<char>>::empty());
                        assert(parsed_fields(fields.drop_first()) == Some(Seq::<u32>::empty()));
                        assert(done + (seq![id] + Seq::<u32>::empty()) =~= out@);
                    }
                    return Ok(out);
                }
                proof {
                    let after = rest.skip(end - start + 1);
                    assert(fields =~= seq![rest.take(end - start)] + comma_fields(after));
                    assert(fields.drop_first() =~= comma_fields(after));
                    assert(after =~= text@.skip(end + 1));
                    if let Some(others) = parsed_ids(after) {
                        assert(done + (seq![id] + others) =~= out@ + others);
                    }
                }
                start = end + 1;
            },
            Err(fault) => {
                proof {
                    if end < chars@.len() {
                        assert(fields[0] == rest.take(end - start));
                    } else {
                        assert(rest.take(end - start) =~= rest);
                        assert(fields[0] == rest);
                    }
                    assert(parsed_fields(fields) is None);
                }
                return Err(fault);
            },
        }
    }
}

} // verus!
