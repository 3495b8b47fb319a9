//! Finding the positions in a list at which a number stands.

use std::collections::HashMap;
use vstd::prelude::*;

verus! {

/// For a list of numbers, where each of them stands. The view is the list.
pub struct PositionIndex {
    lists: HashMap<u64, Vec<usize>>,
    len: usize,
    numbers: Ghost<Seq<u64>>,
}

/// Whether positions are exactly those at which a number stands, in ascending
/// order.
pub open spec fn are_positions_of(positions: Seq<usize>, numbers: Seq<u64>, n: u64) -> bool {
    &&& forall|i: int, j: int| 0 <= i < j < positions.len() ==> positions[i] < positions[j]
    &&& forall|i: int|
        0 <= i < positions.len() ==> (#[trigger] positions[i]) < numbers.len()
            && numbers[positions[i] as int] == n
    &&& forall|p: int|
        0 <= p < numbers.len() && #[trigger] numbers[p] == n ==> positions.contains(p as usize)
}

impl View for PositionIndex {
    type V = Seq<u64>;

    closed spec fn view(&self) -> Seq<u64> {
        self.numbers@
    }
}

impl PositionIndex {
    pub closed spec fn wf(&self) -> bool {
        &&& self.len == self.numbers@.len()
        &&& forall|n: u64| #[trigger]
            self.lists@.contains_key(n) ==> are_positions_of(self.lists@[n]@, self.numbers@, n)
        &&& forall|p: int|
            0 <= p < self.numbers@.len() ==> self.lists@.contains_key(#[trigger] self.numbers@[p])
    }

    pub fn new() -> (r: PositionIndex)
        ensures
            r.wf(),
            r@ == Seq::<u64>::empty(),
    {
        broadcast use vstd::std_specs::hash::group_hash_axioms;

        PositionIndex { lists: HashMap::new(), len: 0, numbers: Ghost(Seq::empty()) }
    }

    /// Adds a number at the end of the list.
    pub fn push(&mut self, n: u64)
        requires
            old(self).wf(),
            old(self)@.len() < usize::MAX,
        ensures
            final(self).wf(),
            final(self)@ == old(self)@.push(n),
    {
        broadcast use vstd::std_specs::hash::group_hash_axioms;

        let ghost before = self.numbers@;
        let ghost old_lists = self.lists@;
        let position: usize = self.len;
        let mut list: Vec<usize> = match self.lists.remove(&n) {
            Some(list) => list,
            None => Vec::new(),
        };
        let ghost old_list = list@;
        proof {
            if !old_lists.contains_key(n) {
                assert forall|p: int| 0 <= p < before.len() implies #[trigger] before[p] != n by {
                    assert(old_lists.contains_key(before[p]));
                }
            }
            assert(are_positions_of(old_list, before, n));
        }
        list.push(position);
        let ghost new_list = list@;
        self.lists.insert(n, list);
        self.len = position + 1;
        self.numbers = Ghost(before.push(n));
        proof {
            let after = before.push(n);
            assert(are_positions_of(new_list, after, n)) by {
                assert forall|p: int|
                    0 <= p < after.len() && #[trigger] after[p] == n implies new_list.contains(
                    p as usize,
                ) by {
                    if p < before.len() {
                        assert(before[p] == n);
                        let k = choose|k: int| 0 <= k < old_list.len() && old_list[k] == p as usize;
                        assert(new_list[k] == p as usize);
                    } else {
                        assert(new_list[old_list.len() as int] == p as usize);
                    }
                }
                assert forall|i: int| 0 <= i < new_list.len() implies (#[trigger] new_list[i])
                    < after.len() && after[new_list[i] as int] == n by {
                    if i < old_list.len() {
                        assert(old_list[i] < before.len());
                    }
                }
            }
            assert forall|m: u64| #[trigger]
                self.lists@.contains_key(m) implies are_positions_of(
                self.lists@[m]@,
                after,
                m,
            ) by {
                if m != n {
                    assert(old_lists.contains_key(m));
                    assert(are_positions_of(old_lists[m]@, before, m));
                    let l = old_lists[m]@;
                    assert(self.lists@[m]@ == l);
                    assert forall|i: int| 0 <= i < l.len() implies (#[trigger] l[i]) < after.len()
                        && after[l[i] as int] == m by {
                        assert(l[i] < before.len());
                    }
                    assert forall|p: int|
                        0 <= p < after.len() && #[trigger] after[p] == m implies l.contains(
                        p as usize,
                    ) by {
                        assert(before[p] == m);
                    }
                }
            }
            assert forall|p: int| 0 <= p < after.len() implies self.lists@.contains_key(
                #[trigger] after[p],
            ) by {
                if p < before.len() {
                    assert(old_lists.contains_key(before[p]));
                }
            }
        }
    }

    /// The positions at which a number stands.
    pub fn positions(&self, n: u64) -> (r: Option<&Vec<usize>>)
        requires
            self.wf(),
        ensures
            r is Some ==> are_positions_of(r->0@, self@, n),
            r is None ==> forall|p: int| 0 <= p < self@.len() ==> #[trigger] self@[p] != n,
    {
        broadcast use vstd::std_specs::hash::group_hash_axioms;

        let found: Option<&Vec<usize>> = self.lists.get(&n);
        proof {
            if found is None {
                assert forall|p: int| 0 <= p < self@.len() implies #[trigger] self@[p] != n by {
                    assert(self.lists@.contains_key(self.numbers@[p]));
                }
            }
        }
        found
    }
}

} // verus!
