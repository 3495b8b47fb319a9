//! A set of paths. Paths with the same components are one path.

use crate::order::Order;
use crate::path::{
    components, components_order, lemma_components_order_antisymmetric,
    lemma_components_order_transitive, path_bytes, FilePath,
};
use vstd::prelude::*;

verus! {

/// Paths in ascending order, each once. The view maps the components of each
/// path to its bytes.
#[derive(Debug)]
pub struct PathSet {
    paths: Vec<FilePath>,
}

/// How two paths compare.
pub open spec fn path_order(a: Seq<u8>, b: Seq<u8>) -> Order {
    components_order(components(a), components(b))
}

/// Every path comes before the ones behind it.
pub open spec fn in_path_order(paths: Seq<Seq<u8>>) -> bool {
    forall|i: int, j: int|
        0 <= i < j < paths.len() ==> #[trigger] path_order(paths[i], paths[j]) == Order::Less
}

/// Whether a path has these components.
pub open spec fn holds(paths: Seq<Seq<u8>>, c: Seq<Seq<u8>>) -> bool {
    exists|i: int| 0 <= i < paths.len() && components(#[trigger] paths[i]) == c
}

/// The path with these components, if there is one.
pub open spec fn held(paths: Seq<Seq<u8>>, c: Seq<Seq<u8>>) -> Seq<u8> {
    paths[choose|i: int| 0 <= i < paths.len() && components(#[trigger] paths[i]) == c]
}

/// The components of paths and their bytes.
pub open spec fn by_components(paths: Seq<Seq<u8>>) -> Map<Seq<Seq<u8>>, Seq<u8>> {
    Map::new(|c: Seq<Seq<u8>>| holds(paths, c), |c: Seq<Seq<u8>>| held(paths, c))
}

/// Whether paths are exactly those of a set, in ascending order.
pub open spec fn is_listing(paths: Seq<Seq<u8>>, set: Map<Seq<Seq<u8>>, Seq<u8>>) -> bool {
    in_path_order(paths) && by_components(paths) == set
}

/// The paths of a set in ascending order.
pub open spec fn listing(set: Map<Seq<Seq<u8>>, Seq<u8>>) -> Seq<Seq<u8>> {
    choose|paths: Seq<Seq<u8>>| is_listing(paths, set)
}

/// A set is listed in one way only.
pub proof fn lemma_listing_unique(
    a: Seq<Seq<u8>>,
    b: Seq<Seq<u8>>,
    set: Map<Seq<Seq<u8>>, Seq<u8>>,
)
    requires
        is_listing(a, set),
        is_listing(b, set),
    ensures
        a == b,
    decreases a.len(),
{
    if a.len() == 0 {
        if b.len() > 0 {
            lemma_held(b, 0);
            assert(by_components(b).contains_key(components(b[0])));
            assert(by_components(a).contains_key(components(b[0])));
            assert(holds(a, components(b[0])));
        }
        assert(a =~= b);
    } else {
        let m = a.len() - 1;
        let n = b.len() - 1;
        lemma_held(a, m);
        assert(by_components(a).contains_key(components(a[m])));
        assert(by_components(b).contains_key(components(a[m])));
        assert(holds(b, components(a[m])));
        let j = choose|j: int|
            0 <= j < b.len() && components(#[trigger] b[j]) == components(a[m]);
        lemma_held(b, j);
        if j < n {
            assert(path_order(b[j], b[n]) == Order::Less);
            lemma_held(b, n);
            assert(by_components(b).contains_key(components(b[n])));
            assert(by_components(a).contains_key(components(b[n])));
            assert(holds(a, components(b[n])));
            let i = choose|i: int|
                0 <= i < a.len() && components(#[trigger] a[i]) == components(b[n]);
            lemma_components_order_antisymmetric(components(a[m]), components(b[n]));
            lemma_components_order_antisymmetric(components(b[n]), components(a[m]));
            if i < m {
                assert(path_order(a[i], a[m]) == Order::Less);
            }
        }
        assert(j == n);
        assert(by_components(a)[components(a[m])] == by_components(b)[components(a[m])]);
        assert(a[m] == b[n]);
        lemma_removed(a, m);
        lemma_removed(b, n);
        lemma_listing_unique(a.remove(m), b.remove(n), set.remove(components(a[m])));
        assert(a =~= a.remove(m).push(a[m]));
        assert(b =~= b.remove(n).push(b[n]));
    }
}

proof fn lemma_distinct(paths: Seq<Seq<u8>>, i: int, j: int)
    requires
        in_path_order(paths),
        0 <= i < paths.len(),
        0 <= j < paths.len(),
        components(paths[i]) == components(paths[j]),
    ensures
        i == j,
{
    lemma_components_order_antisymmetric(components(paths[i]), components(paths[j]));
    if i < j {
        assert(path_order(paths[i], paths[j]) == Order::Less);
    } else if j < i {
        assert(path_order(paths[j], paths[i]) == Order::Less);
    }
}

proof fn lemma_held(paths: Seq<Seq<u8>>, i: int)
    requires
        in_path_order(paths),
        0 <= i < paths.len(),
    ensures
        holds(paths, components(paths[i])),
        held(paths, components(paths[i])) == paths[i],
{
    let c = components(paths[i]);
    assert(holds(paths, c));
    let k = choose|k: int| 0 <= k < paths.len() && components(#[trigger] paths[k]) == c;
    lemma_distinct(paths, k, i);
}

proof fn lemma_less_transitive(a: Seq<u8>, b: Seq<u8>, c: Seq<u8>)
    requires
        path_order(a, b) == Order::Less,
        path_order(b, c) == Order::Less,
    ensures
        path_order(a, c) == Order::Less,
{
    let x = components(a);
    let y = components(b);
    let z = components(c);
    lemma_components_order_transitive(x, y, z);
    if components_order(x, z) == Order::Equal {
        lemma_components_order_antisymmetric(x, z);
        lemma_components_order_antisymmetric(y, z);
        lemma_components_order_antisymmetric(x, y);
    }
}

impl View for PathSet {
    type V = Map<Seq<Seq<u8>>, Seq<u8>>;

    closed spec fn view(&self) -> Map<Seq<Seq<u8>>, Seq<u8>> {
        by_components(path_bytes(self.paths@))
    }
}

impl PathSet {
    pub closed spec fn wf(&self) -> bool {
        in_path_order(path_bytes(self.paths@))
    }

    pub fn new() -> (r: PathSet)
        ensures
            r.wf(),
            r@ == Map::<Seq<Seq<u8>>, Seq<u8>>::empty(),
    {
        let r: PathSet = PathSet { paths: Vec::new() };
        assert(r@ =~= Map::<Seq<Seq<u8>>, Seq<u8>>::empty());
        r
    }

    pub fn is_empty(&self) -> (r: bool)
        requires
            self.wf(),
        ensures
            r == (self@ == Map::<Seq<Seq<u8>>, Seq<u8>>::empty()),
    {
        proof {
            if self.paths@.len() == 0 {
                assert(self@ =~= Map::<Seq<Seq<u8>>, Seq<u8>>::empty());
            } else {
                lemma_held(path_bytes(self.paths@), 0);
                assert(self@.contains_key(components(self.paths@[0]@)));
            }
        }
        self.paths.len() == 0
    }

    /// How many paths there are.
    pub fn len(&self) -> (r: usize)
        requires
            self.wf(),
        ensures
            r == self@.dom().len(),
            self@.dom().finite(),
    {
        proof {
            lemma_count(path_bytes(self.paths@));
        }
        self.paths.len()
    }

    pub fn clear(&mut self)
        ensures
            final(self).wf(),
            final(self)@ == Map::<Seq<Seq<u8>>, Seq<u8>>::empty(),
    {
        self.paths.clear();
        assert(self@ =~= Map::<Seq<Seq<u8>>, Seq<u8>>::empty());
    }

    /// Where a path stands, or where it would stand.
    fn locate(&self, path: &FilePath) -> (r: (bool, usize))
        requires
            self.wf(),
        ensures
            r.1 <= self.paths@.len(),
            r.0 ==> r.1 < self.paths@.len() && components(self.paths@[r.1 as int]@) == components(
                path@,
            ),
            !r.0 ==> !holds(path_bytes(self.paths@), components(path@)),
            forall|i: int|
                0 <= i < r.1 ==> path_order((#[trigger] self.paths@[i])@, path@) == Order::Less,
            !r.0 ==> forall|i: int|
                r.1 <= i < self.paths@.len() ==> path_order(path@, (#[trigger] self.paths@[i])@)
                    == Order::Less,
    {
        let mut low: usize = 0;
        let mut high: usize = self.paths.len();
        while low < high
            invariant
                self.wf(),
                low <= high <= self.paths@.len(),
                forall|i: int|
                    0 <= i < low ==> path_order((#[trigger] self.paths@[i])@, path@) == Order::Less,
                forall|i: int|
                    high <= i < self.paths@.len() ==> path_order(path@, (#[trigger] self.paths@[i])@)
                        == Order::Less,
            decreases high - low,
        {
            let middle: usize = low + (high - low) / 2;
            let order: Order = self.paths[middle].compare(path);
            proof {
                lemma_components_order_antisymmetric(
                    components(self.paths@[middle as int]@),
                    components(path@),
                );
                lemma_components_order_antisymmetric(
                    components(path@),
                    components(self.paths@[middle as int]@),
                );
            }
            if order == Order::Equal {
                proof {
                    assert forall|i: int| 0 <= i < middle implies path_order(
                        (#[trigger] self.paths@[i])@,
                        path@,
                    ) == Order::Less by {
                        assert(path_order(path_bytes(self.paths@)[i], path_bytes(self.paths@)[middle as int])
                            == Order::Less);
                    }
                }
                return (true, middle);
            }
            if order == Order::Less {
                proof {
                    assert forall|i: int| 0 <= i < middle + 1 implies path_order(
                        (#[trigger] self.paths@[i])@,
                        path@,
                    ) == Order::Less by {
                        if i < middle {
                            assert(path_order(path_bytes(self.paths@)[i], path_bytes(self.paths@)[middle as int])
                                == Order::Less);
                            lemma_less_transitive(
                                self.paths@[i]@,
                                self.paths@[middle as int]@,
                                path@,
                            );
                        }
                    }
                }
                low = middle + 1;
            } else {
                proof {
                    assert forall|i: int| middle <= i < self.paths@.len() implies path_order(
                        path@,
                        (#[trigger] self.paths@[i])@,
                    ) == Order::Less by {
                        if i > middle {
                            assert(path_order(path_bytes(self.paths@)[middle as int], path_bytes(self.paths@)[i])
                                == Order::Less);
                            lemma_less_transitive(
                                path@,
                                self.paths@[middle as int]@,
                                self.paths@[i]@,
                            );
                        }
                    }
                }
                high = middle;
            }
        }
        proof {
            if holds(path_bytes(self.paths@), components(path@)) {
                let i = choose|i: int|
                    0 <= i < path_bytes(self.paths@).len() && components(
                        #[trigger] path_bytes(self.paths@)[i],
                    ) == components(path@);
                assert(path_bytes(self.paths@)[i] == self.paths@[i]@);
                lemma_components_order_antisymmetric(
                    components(self.paths@[i]@),
                    components(path@),
                );
                lemma_components_order_antisymmetric(
                    components(path@),
                    components(self.paths@[i]@),
                );
            }
        }
        (false, low)
    }

    pub fn contains(&self, path: &FilePath) -> (r: bool)
        requires
            self.wf(),
        ensures
            r == self@.contains_key(components(path@)),
    {
        let (found, at): (bool, usize) = self.locate(path);
        proof {
            if found {
                lemma_held(path_bytes(self.paths@), at as int);
                assert(path_bytes(self.paths@)[at as int] == self.paths@[at as int]@);
            }
        }
        found
    }

    /// Adds a path unless it is there; says whether it was not.
    pub fn insert(&mut self, path: &FilePath) -> (r: bool)
        requires
            old(self).wf(),
        ensures
            final(self).wf(),
            r == !old(self)@.contains_key(components(path@)),
            final(self)@ == if r {
                old(self)@.insert(components(path@), path@)
            } else {
                old(self)@
            },
    {
        let (found, at): (bool, usize) = self.locate(path);
        let ghost before = path_bytes(self.paths@);
        if found {
            proof {
                lemma_held(before, at as int);
                assert(before[at as int] == self.paths@[at as int]@);
            }
            return false;
        }
        let copy: FilePath = path.copy();
        self.paths.insert(at, copy);
        proof {
            assert(path_bytes(self.paths@) =~= before.insert(at as int, path@));
            lemma_inserted(before, at as int, path@);
        }
        true
    }

    /// Takes a path out; says whether it was there.
    pub fn remove(&mut self, path: &FilePath) -> (r: bool)
        requires
            old(self).wf(),
        ensures
            final(self).wf(),
            r == old(self)@.contains_key(components(path@)),
            final(self)@ == old(self)@.remove(components(path@)),
    {
        let (found, at): (bool, usize) = self.locate(path);
        let ghost before = path_bytes(self.paths@);
        if !found {
            assert(self@.remove(components(path@)) =~= self@);
            return false;
        }
        proof {
            lemma_held(before, at as int);
            lemma_removed(before, at as int);
            assert(before[at as int] == self.paths@[at as int]@);
        }
        let _ = self.paths.remove(at);
        assert(path_bytes(self.paths@) =~= before.remove(at as int));
        true
    }

    /// The paths in ascending order.
    pub fn to_sorted(&self) -> (r: Vec<FilePath>)
        requires
            self.wf(),
        ensures
            is_listing(path_bytes(r@), self@),
            path_bytes(r@) == listing(self@),
    {
        let mut out: Vec<FilePath> = Vec::new();
        let mut i: usize = 0;
        while i < self.paths.len()
            invariant
                i <= self.paths@.len(),
                out@.len() == i,
                forall|j: int| 0 <= j < i ==> (#[trigger] out@[j])@ == self.paths@[j]@,
            decreases self.paths@.len() - i,
        {
            out.push(self.paths[i].copy());
            i = i + 1;
        }
        proof {
            assert(path_bytes(out@) =~= path_bytes(self.paths@));
            assert(is_listing(path_bytes(out@), self@));
            lemma_listing_unique(path_bytes(out@), listing(self@), self@);
        }
        out
    }
}

/// The listing of a set has every path of the set and no other, each before those
/// that are greater.
pub proof fn lemma_listing_is_the_set(set: PathSet)
    requires
        set.wf(),
    ensures
        forall|i: int|
            0 <= i < listing(set@).len() ==> set@.contains_key(
                components(#[trigger] listing(set@)[i]),
            ) && set@[components(listing(set@)[i])] == listing(set@)[i],
        forall|c: Seq<Seq<u8>>| #[trigger]
            set@.contains_key(c) ==> components(set@[c]) == c && listing(set@).contains(set@[c]),
        forall|i: int, j: int|
            0 <= i < j < listing(set@).len() ==> components_order(
                components(#[trigger] listing(set@)[i]),
                components(#[trigger] listing(set@)[j]),
            ) == Order::Less,
        listing(set@).len() == 0 <==> set@ == Map::<Seq<Seq<u8>>, Seq<u8>>::empty(),
{
    let paths = path_bytes(set.paths@);
    assert(is_listing(paths, set@));
    lemma_listing_unique(paths, listing(set@), set@);
    assert forall|i: int| 0 <= i < paths.len() implies set@.contains_key(
        components(#[trigger] paths[i]),
    ) && set@[components(paths[i])] == paths[i] by {
        lemma_held(paths, i);
    }
    assert forall|c: Seq<Seq<u8>>| #[trigger] set@.contains_key(c) implies components(set@[c]) == c
        && paths.contains(set@[c]) by {
        let i = choose|i: int| 0 <= i < paths.len() && components(#[trigger] paths[i]) == c;
        lemma_held(paths, i);
        assert(paths[i] == set@[c]);
    }
    assert forall|i: int, j: int| 0 <= i < j < paths.len() implies components_order(
        components(#[trigger] paths[i]),
        components(#[trigger] paths[j]),
    ) == Order::Less by {
        assert(path_order(paths[i], paths[j]) == Order::Less);
    }
    if paths.len() == 0 {
        assert(set@ =~= Map::<Seq<Seq<u8>>, Seq<u8>>::empty());
    } else {
        assert(set@.contains_key(components(paths[0])));
    }
}

proof fn lemma_inserted(before: Seq<Seq<u8>>, at: int, path: Seq<u8>)
    requires
        in_path_order(before),
        0 <= at <= before.len(),
        !holds(before, components(path)),
        forall|i: int| 0 <= i < at ==> path_order(#[trigger] before[i], path) == Order::Less,
        forall|i: int|
            at <= i < before.len() ==> path_order(path, #[trigger] before[i]) == Order::Less,
    ensures
        in_path_order(before.insert(at, path)),
        by_components(before.insert(at, path)) == by_components(before).insert(
            components(path),
            path,
        ),
{
    let after = before.insert(at, path);
    let c = components(path);
    assert forall|i: int, j: int| 0 <= i < j < after.len() implies #[trigger] path_order(
        after[i],
        after[j],
    ) == Order::Less by {
        if j < at {
            assert(path_order(before[i], before[j]) == Order::Less);
        } else if j == at {
            assert(path_order(before[i], path) == Order::Less);
        } else if i < at {
            assert(path_order(before[i], before[j - 1]) == Order::Less);
        } else if i == at {
            assert(path_order(path, before[j - 1]) == Order::Less);
        } else {
            assert(path_order(before[i - 1], before[j - 1]) == Order::Less);
        }
    }
    lemma_held(after, at);
    assert(after[at] == path);
    assert forall|d: Seq<Seq<u8>>| #[trigger] holds(after, d) <==> holds(before, d) || d == c by {
        if holds(after, d) {
            let i = choose|i: int| 0 <= i < after.len() && components(#[trigger] after[i]) == d;
            if i < at {
                assert(components(before[i]) == d);
            } else if i > at {
                assert(components(before[i - 1]) == d);
            }
        }
        if holds(before, d) {
            let i = choose|i: int|
                0 <= i < before.len() && components(#[trigger] before[i]) == d;
            let k = if i < at {
                i
            } else {
                i + 1
            };
            assert(components(after[k]) == d);
        }
    }
    assert forall|d: Seq<Seq<u8>>| holds(before, d) implies #[trigger] held(after, d) == held(
        before,
        d,
    ) by {
        let i = choose|i: int| 0 <= i < before.len() && components(#[trigger] before[i]) == d;
        let k = if i < at {
            i
        } else {
            i + 1
        };
        assert(after[k] == before[i]);
        lemma_held(before, i);
        lemma_held(after, k);
    }
    assert(by_components(after) =~= by_components(before).insert(c, path));
}

proof fn lemma_removed(before: Seq<Seq<u8>>, at: int)
    requires
        in_path_order(before),
        0 <= at < before.len(),
    ensures
        in_path_order(before.remove(at)),
        by_components(before.remove(at)) == by_components(before).remove(
            components(before[at]),
        ),
{
    let after = before.remove(at);
    let c = components(before[at]);
    assert forall|i: int, j: int| 0 <= i < j < after.len() implies #[trigger] path_order(
        after[i],
        after[j],
    ) == Order::Less by {
        let k = if i < at {
            i
        } else {
            i + 1
        };
        let l = if j < at {
            j
        } else {
            j + 1
        };
        assert(path_order(before[k], before[l]) == Order::Less);
    }
    assert forall|d: Seq<Seq<u8>>| #[trigger] holds(after, d) <==> holds(before, d) && d != c by {
        if holds(after, d) {
            let i = choose|i: int| 0 <= i < after.len() && components(#[trigger] after[i]) == d;
            let k = if i < at {
                i
            } else {
                i + 1
            };
            assert(components(before[k]) == d);
            if d == c {
                lemma_distinct(before, k, at);
            }
        }
        if holds(before, d) && d != c {
            let i = choose|i: int|
                0 <= i < before.len() && components(#[trigger] before[i]) == d;
            let k = if i < at {
                i
            } else {
                i - 1
            };
            assert(i != at);
            assert(components(after[k]) == d);
        }
    }
    assert forall|d: Seq<Seq<u8>>| holds(after, d) implies #[trigger] held(after, d) == held(
        before,
        d,
    ) by {
        let i = choose|i: int| 0 <= i < after.len() && components(#[trigger] after[i]) == d;
        let k = if i < at {
            i
        } else {
            i + 1
        };
        assert(before[k] == after[i]);
        lemma_held(after, i);
        lemma_held(before, k);
    }
    assert(by_components(after) =~= by_components(before).remove(c));
}

proof fn lemma_count(paths: Seq<Seq<u8>>)
    requires
        in_path_order(paths),
    ensures
        by_components(paths).dom().finite(),
        by_components(paths).dom().len() == paths.len(),
    decreases paths.len(),
{
    if paths.len() == 0 {
        assert(by_components(paths).dom() =~= Set::empty());
    } else {
        let n = paths.len() - 1;
        let rest = paths.remove(n);
        lemma_removed(paths, n);
        lemma_count(rest);
        lemma_held(paths, n);
        let c = components(paths[n]);
        assert(by_components(paths).dom() =~= by_components(rest).dom().insert(c));
        assert(!by_components(rest).dom().contains(c));
    }
}

} // verus!
