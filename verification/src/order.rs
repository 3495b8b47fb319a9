//! Three-way comparison, dictionary order on bytes, and a stable sort.

use vstd::prelude::*;

verus! {

/// Outcome of comparing a left value with a right one.
#[derive(Clone, Copy, PartialEq, Eq, Structural, Debug)]
pub enum Order {
    Less,
    Equal,
    Greater,
}

/// The first outcome that is not `Equal`.
pub open spec fn first_difference(first: Order, second: Order) -> Order {
    if first == Order::Equal {
        second
    } else {
        first
    }
}

/// Natural numbers from small to large.
pub open spec fn ascending(a: int, b: int) -> Order {
    if a < b {
        Order::Less
    } else if a == b {
        Order::Equal
    } else {
        Order::Greater
    }
}

/// Dictionary order on byte strings: the first differing byte decides, and a
/// proper prefix comes first.
pub open spec fn bytes_order(a: Seq<u8>, b: Seq<u8>) -> Order
    decreases a.len(),
{
    if a.len() == 0 {
        if b.len() == 0 {
            Order::Equal
        } else {
            Order::Less
        }
    } else if b.len() == 0 {
        Order::Greater
    } else if a[0] != b[0] {
        ascending(a[0] as int, b[0] as int)
    } else {
        bytes_order(a.drop_first(), b.drop_first())
    }
}

/// Byte strings compare equal exactly when they are the same, and swapping the
/// sides swaps the outcome.
pub proof fn lemma_bytes_order_antisymmetric(a: Seq<u8>, b: Seq<u8>)
    ensures
        bytes_order(a, b) == Order::Equal <==> a == b,
        bytes_order(a, b) == Order::Less <==> bytes_order(b, a) == Order::Greater,
    decreases a.len(),
{
    if a.len() > 0 && b.len() > 0 {
        if a[0] == b[0] {
            lemma_bytes_order_antisymmetric(a.drop_first(), b.drop_first());
            if a.drop_first() == b.drop_first() {
                assert(a =~= seq![a[0]] + a.drop_first());
                assert(b =~= seq![b[0]] + b.drop_first());
            }
        }
    } else {
        assert(a.len() == 0 && b.len() == 0 ==> a =~= b);
    }
}

/// Dictionary order on byte strings is transitive.
pub proof fn lemma_bytes_order_transitive(a: Seq<u8>, b: Seq<u8>, c: Seq<u8>)
    requires
        bytes_order(a, b) != Order::Greater,
        bytes_order(b, c) != Order::Greater,
    ensures
        bytes_order(a, c) != Order::Greater,
    decreases a.len(),
{
    if a.len() > 0 && b.len() > 0 && c.len() > 0 {
        if a[0] == b[0] && b[0] == c[0] {
            lemma_bytes_order_transitive(a.drop_first(), b.drop_first(), c.drop_first());
        }
    }
}

proof fn lemma_bytes_order_skip(a: Seq<u8>, b: Seq<u8>, n: int)
    requires
        0 <= n < a.len(),
        n < b.len(),
        a[n] == b[n],
    ensures
        bytes_order(a.skip(n), b.skip(n)) == bytes_order(a.skip(n + 1), b.skip(n + 1)),
{
    assert(a.skip(n).drop_first() =~= a.skip(n + 1));
    assert(b.skip(n).drop_first() =~= b.skip(n + 1));
}

/// Compares two byte strings in dictionary order.
pub fn compare_bytes(a: &[u8], b: &[u8]) -> (r: Order)
    ensures
        r == bytes_order(a@, b@),
{
    let mut i: usize = 0;
    assert(a@.skip(0) =~= a@);
    assert(b@.skip(0) =~= b@);
    while i < a.len() && i < b.len()
        invariant
            i <= a@.len(),
            i <= b@.len(),
            bytes_order(a@, b@) == bytes_order(a@.skip(i as int), b@.skip(i as int)),
        decreases a@.len() - i,
    {
        if a[i] < b[i] {
            return Order::Less;
        }
        if a[i] > b[i] {
            return Order::Greater;
        }
        proof {
            lemma_bytes_order_skip(a@, b@, i as int);
        }
        i = i + 1;
    }
    if i < b.len() {
        Order::Less
    } else if i < a.len() {
        Order::Greater
    } else {
        Order::Equal
    }
}

/// Whether two byte strings are the same.
pub fn same_bytes(a: &[u8], b: &[u8]) -> (r: bool)
    ensures
        r == (a@ == b@),
{
    if a.len() != b.len() {
        return false;
    }
    let mut i: usize = 0;
    while i < a.len()
        invariant
            i <= a@.len(),
            a@.len() == b@.len(),
            forall|j: int| 0 <= j < i ==> a@[j] == b@[j],
        decreases a@.len() - i,
    {
        if a[i] != b[i] {
            return false;
        }
        i = i + 1;
    }
    assert(a@ =~= b@);
    true
}

/// Compares two unsigned numbers.
pub fn compare_numbers(a: u64, b: u64) -> (r: Order)
    ensures
        r == ascending(a as int, b as int),
{
    if a < b {
        Order::Less
    } else if a == b {
        Order::Equal
    } else {
        Order::Greater
    }
}

/// Values that a list can be sorted by: `at_most` is a total preorder.
pub trait SortItem: Sized {
    spec fn at_most(a: Self, b: Self) -> bool;

    proof fn lemma_total(a: Self, b: Self)
        ensures
            Self::at_most(a, b) || Self::at_most(b, a),
    ;

    proof fn lemma_transitive(a: Self, b: Self, c: Self)
        requires
            Self::at_most(a, b),
            Self::at_most(b, c),
        ensures
            Self::at_most(a, c),
    ;

    fn is_at_most(&self, other: &Self) -> (r: bool)
        ensures
            r == Self::at_most(*self, *other),
    ;
}

/// Neither value comes before the other.
pub open spec fn equivalent<T: SortItem>(a: T, b: T) -> bool {
    T::at_most(a, b) && T::at_most(b, a)
}

/// Every earlier value is at most every later one.
pub open spec fn is_sorted<T: SortItem>(s: Seq<T>) -> bool {
    forall|i: int, j: int| 0 <= i < j < s.len() ==> #[trigger] T::at_most(s[i], s[j])
}

/// The values of `s` that are equivalent to `x`, in their order in `s`.
pub open spec fn ties_of<T: SortItem>(s: Seq<T>, x: T) -> Seq<T> {
    s.filter(|y: T| equivalent(x, y))
}

/// `after` holds the values of `before` in ascending order, ties in the order
/// in which `before` has them.
pub open spec fn is_stable_sort<T: SortItem>(before: Seq<T>, after: Seq<T>) -> bool {
    &&& is_sorted(after)
    &&& after.to_multiset() == before.to_multiset()
    &&& forall|x: T| #[trigger] ties_of(after, x) == ties_of(before, x)
}

proof fn lemma_ties_add<T: SortItem>(a: Seq<T>, b: Seq<T>, x: T)
    ensures
        ties_of(a + b, x) == ties_of(a, x) + ties_of(b, x),
{
    Seq::<T>::filter_distributes_over_add(a, b, |y: T| equivalent(x, y));
}

proof fn lemma_no_ties<T: SortItem>(s: Seq<T>, x: T)
    requires
        forall|i: int| 0 <= i < s.len() ==> !equivalent(x, #[trigger] s[i]),
    ensures
        ties_of(s, x) == Seq::<T>::empty(),
    decreases s.len(),
{
    reveal(Seq::filter);
    if s.len() > 0 {
        let rest = s.drop_last();
        assert forall|i: int| 0 <= i < rest.len() implies !equivalent(x, #[trigger] rest[i]) by {
            assert(rest[i] == s[i]);
        }
        lemma_no_ties(rest, x);
        assert(s.last() == s[s.len() - 1]);
    }
    assert(ties_of(s, x) =~= Seq::<T>::empty());
}

/// Moving the greatest value of the left list behind a right list whose values
/// are all smaller changes no run of ties.
proof fn lemma_move_behind<T: SortItem>(l: Seq<T>, v: T, r: Seq<T>, x: T)
    requires
        forall|i: int| 0 <= i < r.len() ==> !T::at_most(v, #[trigger] r[i]),
    ensures
        ties_of((l + seq![v]) + r, x) == ties_of((l + r) + seq![v], x),
{
    lemma_ties_add(l + seq![v], r, x);
    lemma_ties_add(l, seq![v], x);
    lemma_ties_add(l + r, seq![v], x);
    lemma_ties_add(l, r, x);
    if equivalent(x, v) {
        assert forall|i: int| 0 <= i < r.len() implies !equivalent(x, #[trigger] r[i]) by {
            if equivalent(x, r[i]) {
                T::lemma_transitive(v, x, r[i]);
            }
        }
        lemma_no_ties(r, x);
        assert(ties_of((l + seq![v]) + r, x) =~= ties_of((l + r) + seq![v], x));
    } else {
        assert(seq![v][0] == v);
        lemma_no_ties(seq![v], x);
        assert(ties_of((l + seq![v]) + r, x) =~= ties_of((l + r) + seq![v], x));
    }
}

proof fn lemma_multiset_add<T>(a: Seq<T>, b: Seq<T>)
    ensures
        (a + b).to_multiset() == a.to_multiset().add(b.to_multiset()),
{
    vstd::seq_lib::lemma_multiset_commutative(a, b);
}

proof fn lemma_multiset_move<T>(l: Seq<T>, v: T, r: Seq<T>, t: Seq<T>)
    ensures
        (((l + seq![v]) + r) + t).to_multiset() =~= ((l + r) + (seq![v] + t)).to_multiset(),
{
    lemma_multiset_add((l + seq![v]) + r, t);
    lemma_multiset_add(l + seq![v], r);
    lemma_multiset_add(l, seq![v]);
    lemma_multiset_add(l + r, seq![v] + t);
    lemma_multiset_add(l, r);
    lemma_multiset_add(seq![v], t);
}

/// Merges two sorted lists; among ties the left list's values come first.
fn merge<T: SortItem>(left: Vec<T>, right: Vec<T>) -> (out: Vec<T>)
    requires
        is_sorted(left@),
        is_sorted(right@),
    ensures
        is_stable_sort(left@ + right@, out@),
{
    let ghost l0 = left@;
    let ghost r0 = right@;
    let mut left: Vec<T> = left;
    let mut right: Vec<T> = right;
    let mut reversed: Vec<T> = Vec::new();
    let ghost mut tail: Seq<T> = Seq::empty();
    assert((left@ + right@) + tail =~= l0 + r0);
    while left.len() > 0 || right.len() > 0
        invariant
            tail =~= reversed@.reverse(),
            left@.len() <= l0.len(),
            right@.len() <= r0.len(),
            is_sorted(left@),
            is_sorted(right@),
            is_sorted(tail),
            forall|i: int, j: int|
                0 <= i < left@.len() && 0 <= j < tail.len() ==> #[trigger] T::at_most(
                    left@[i],
                    tail[j],
                ),
            forall|i: int, j: int|
                0 <= i < right@.len() && 0 <= j < tail.len() ==> #[trigger] T::at_most(
                    right@[i],
                    tail[j],
                ),
            ((left@ + right@) + tail).to_multiset() == (l0 + r0).to_multiset(),
            forall|x: T| #[trigger] ties_of((left@ + right@) + tail, x) == ties_of(l0 + r0, x),
        decreases left@.len() + right@.len(),
    {
        let take_left: bool = if right.len() == 0 {
            true
        } else if left.len() == 0 {
            false
        } else {
            !left[left.len() - 1].is_at_most(&right[right.len() - 1])
        };
        let ghost l = left@;
        let ghost r = right@;
        let ghost t = tail;
        if take_left {
            let v: T = left.pop().unwrap();
            proof {
                assert(l =~= left@ + seq![v]);
                assert forall|i: int| 0 <= i < r.len() implies !T::at_most(v, #[trigger] r[i]) && T::at_most(r[i], v) by {
                    let top = r[r.len() - 1];
                    if i < r.len() - 1 {
                        assert(T::at_most(r[i], top));
                        if T::at_most(v, r[i]) {
                            T::lemma_transitive(v, r[i], top);
                        }
                    }
                    T::lemma_total(v, r[i]);
                }
                assert forall|x: T| #[trigger]
                    ties_of((left@ + r) + (seq![v] + t), x) == ties_of(l0 + r0, x) by {
                    assert(ties_of((l + r) + t, x) == ties_of(l0 + r0, x));
                    lemma_ties_add(l + r, t, x);
                    lemma_move_behind(left@, v, r, x);
                    lemma_ties_add((left@ + r) + seq![v], t, x);
                    assert((left@ + r) + (seq![v] + t) =~= ((left@ + r) + seq![v]) + t);
                }
                lemma_multiset_move(left@, v, r, t);
                assert forall|i: int| 0 <= i < left@.len() implies T::at_most(#[trigger] left@[i], v) by {
                    assert(T::at_most(l[i], l[l.len() - 1]));
                }
                tail = seq![v] + t;
            }
            reversed.push(v);
        } else {
            let v: T = right.pop().unwrap();
            proof {
                assert(r =~= right@ + seq![v]);
                assert forall|i: int| 0 <= i < l.len() implies T::at_most(#[trigger] l[i], v) by {
                    let top = l[l.len() - 1];
                    if i < l.len() - 1 {
                        assert(T::at_most(l[i], top));
                        T::lemma_transitive(l[i], top, v);
                    }
                }
                assert((l + r) + t =~= (l + right@) + (seq![v] + t));
                assert forall|i: int| 0 <= i < right@.len() implies T::at_most(#[trigger] right@[i], v) by {
                    assert(T::at_most(r[i], r[r.len() - 1]));
                }
                tail = seq![v] + t;
            }
            reversed.push(v);
        }
        proof {
            let v = tail[0];
            assert forall|j: int| 0 <= j < t.len() implies T::at_most(v, #[trigger] t[j]) by {
                if take_left {
                    assert(T::at_most(l[l.len() - 1], t[j]));
                } else {
                    assert(T::at_most(r[r.len() - 1], t[j]));
                }
            }
            assert(tail =~= reversed@.reverse());
            assert forall|i: int, j: int| 0 <= i < j < tail.len() implies #[trigger] T::at_most(
                tail[i],
                tail[j],
            ) by {
                assert(tail[j] == t[j - 1]);
                if i > 0 {
                    assert(tail[i] == t[i - 1]);
                }
            }
            assert forall|i: int, j: int|
                0 <= i < left@.len() && 0 <= j < tail.len() implies #[trigger] T::at_most(
                left@[i],
                tail[j],
            ) by {
                assert(left@[i] == l[i]);
                if j > 0 {
                    assert(tail[j] == t[j - 1]);
                }
            }
            assert forall|i: int, j: int|
                0 <= i < right@.len() && 0 <= j < tail.len() implies #[trigger] T::at_most(
                right@[i],
                tail[j],
            ) by {
                assert(right@[i] == r[i]);
                if j > 0 {
                    assert(tail[j] == t[j - 1]);
                }
            }
            assert forall|i: int, j: int| 0 <= i < j < left@.len() implies #[trigger] T::at_most(
                left@[i],
                left@[j],
            ) by {
                assert(T::at_most(l[i], l[j]));
            }
            assert forall|i: int, j: int| 0 <= i < j < right@.len() implies #[trigger] T::at_most(
                right@[i],
                right@[j],
            ) by {
                assert(T::at_most(r[i], r[j]));
            }
        }
    }
    assert((left@ + right@) + tail =~= tail);
    let mut out: Vec<T> = Vec::new();
    while reversed.len() > 0
        invariant
            out@ + reversed@.reverse() =~= tail,
        decreases reversed@.len(),
    {
        let ghost before = reversed@;
        let ghost out_before = out@;
        let v: T = reversed.pop().unwrap();
        out.push(v);
        proof {
            assert(before.reverse() =~= seq![v] + reversed@.reverse());
            assert(out@ + reversed@.reverse() =~= out_before + before.reverse());
        }
    }
    assert(out@ =~= tail);
    assert forall|x: T| #[trigger] ties_of(out@, x) == ties_of(l0 + r0, x) by {
        assert(ties_of((left@ + right@) + tail, x) == ties_of(l0 + r0, x));
    }
    out
}

/// Sorts a list in ascending order and keeps ties in their order.
pub fn stable_sort<T: SortItem>(items: Vec<T>) -> (r: Vec<T>)
    ensures
        is_stable_sort(items@, r@),
    decreases items@.len(),
{
    if items.len() <= 1 {
        return items;
    }
    let ghost all = items@;
    let mut left: Vec<T> = items;
    let middle: usize = left.len() / 2;
    let right: Vec<T> = left.split_off(middle);
    let ghost l0 = left@;
    let ghost r0 = right@;
    assert(all =~= l0 + r0);
    let left: Vec<T> = stable_sort(left);
    let right: Vec<T> = stable_sort(right);
    let ghost l1 = left@;
    let ghost r1 = right@;
    let out: Vec<T> = merge(left, right);
    proof {
        lemma_multiset_add(l0, r0);
        lemma_multiset_add(l1, r1);
        assert forall|x: T| #[trigger] ties_of(out@, x) == ties_of(all, x) by {
            lemma_ties_add(l0, r0, x);
            lemma_ties_add(l1, r1, x);
            assert(ties_of(l1, x) == ties_of(l0, x));
            assert(ties_of(r1, x) == ties_of(r0, x));
        }
    }
    out
}

/// The values equivalent to `x`, the first value looked at on its own.
proof fn lemma_ties_first<T: SortItem>(s: Seq<T>, x: T)
    requires
        s.len() > 0,
    ensures
        ties_of(s, x) == if equivalent(x, s[0]) {
            seq![s[0]] + ties_of(s.drop_first(), x)
        } else {
            ties_of(s.drop_first(), x)
        },
{
    assert(s =~= seq![s[0]] + s.drop_first());
    lemma_ties_add(seq![s[0]], s.drop_first(), x);
    reveal_with_fuel(Seq::filter, 2);
    assert(seq![s[0]].drop_last() =~= Seq::<T>::empty());
    let alone = ties_of(seq![s[0]], x);
    if equivalent(x, s[0]) {
        assert(alone =~= seq![s[0]]);
    } else {
        assert(alone =~= Seq::<T>::empty());
    }
    assert(Seq::<T>::empty() + ties_of(s.drop_first(), x) =~= ties_of(s.drop_first(), x));
}

proof fn lemma_sorted_unique<T: SortItem>(a: Seq<T>, b: Seq<T>)
    requires
        is_sorted(a),
        is_sorted(b),
        a.to_multiset() == b.to_multiset(),
        forall|x: T| #[trigger] ties_of(a, x) == ties_of(b, x),
    ensures
        a == b,
    decreases a.len(),
{
    broadcast use vstd::seq_lib::group_to_multiset_ensures;

    assert(a.to_multiset().len() == a.len());
    assert(b.to_multiset().len() == b.len());
    if a.len() == 0 {
        assert(a =~= b);
    } else {
        let (x, y) = (a[0], b[0]);
        assert(a.contains(x) && b.contains(y));
        assert(a.to_multiset().count(x) > 0 && b.to_multiset().count(y) > 0);
        assert(b.contains(x) && a.contains(y));
        let i = choose|i: int| 0 <= i < b.len() && b[i] == x;
        let j = choose|j: int| 0 <= j < a.len() && a[j] == y;
        T::lemma_total(x, x);
        T::lemma_total(y, y);
        assert(T::at_most(y, x)) by {
            if i > 0 {
                assert(T::at_most(b[0], b[i]));
            }
        }
        assert(T::at_most(x, y)) by {
            if j > 0 {
                assert(T::at_most(a[0], a[j]));
            }
        }
        lemma_ties_first(a, x);
        lemma_ties_first(b, x);
        assert(ties_of(a, x)[0] == x);
        assert(ties_of(b, x)[0] == y);
        assert(x == y);
        let (c, d) = (a.drop_first(), b.drop_first());
        assert forall|z: T| #[trigger] ties_of(c, z) == ties_of(d, z) by {
            lemma_ties_first(a, z);
            lemma_ties_first(b, z);
            assert(ties_of(a, z) == ties_of(b, z));
            if equivalent(z, x) {
                assert(ties_of(c, z) =~= ties_of(a, z).skip(1));
                assert(ties_of(d, z) =~= ties_of(b, z).skip(1));
            }
        }
        assert(c =~= a.remove(0));
        assert(d =~= b.remove(0));
        assert forall|p: int, q: int| 0 <= p < q < c.len() implies #[trigger] T::at_most(
            c[p],
            c[q],
        ) by {
            assert(T::at_most(a[p + 1], a[q + 1]));
        }
        assert forall|p: int, q: int| 0 <= p < q < d.len() implies #[trigger] T::at_most(
            d[p],
            d[q],
        ) by {
            assert(T::at_most(b[p + 1], b[q + 1]));
        }
        lemma_sorted_unique(c, d);
        assert(a =~= seq![x] + c);
        assert(b =~= seq![y] + d);
    }
}

/// A list can be sorted in one way only if ties are to keep their order.
pub proof fn lemma_stable_sort_is_unique<T: SortItem>(list: Seq<T>, a: Seq<T>, b: Seq<T>)
    requires
        is_stable_sort(list, a),
        is_stable_sort(list, b),
    ensures
        a == b,
{
    assert forall|x: T| #[trigger] ties_of(a, x) == ties_of(b, x) by {
        assert(ties_of(a, x) == ties_of(list, x));
        assert(ties_of(b, x) == ties_of(list, x));
    }
    lemma_sorted_unique(a, b);
}

} // verus!
