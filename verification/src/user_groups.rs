//! The groups that a user belongs to.

use crate::ids::{sorted_ids, strictly_increasing};
use vstd::prelude::*;

verus! {

pub const INITIAL_CAPACITY: usize = 16;

pub const MAX_CAPACITY: usize = 16384;

/// Whether bytes can be handed over as a C string.
pub open spec fn holds_nul(bytes: Seq<u8>) -> bool {
    bytes.contains(0)
}

pub fn contains_nul(bytes: &[u8]) -> (r: bool)
    ensures
        r == holds_nul(bytes@),
{
    let mut i: usize = 0;
    while i < bytes.len()
        invariant
            i <= bytes@.len(),
            forall|j: int| 0 <= j < i ==> bytes@[j] != 0,
        decreases bytes@.len() - i,
    {
        if bytes[i] == 0 {
            assert(bytes@[i as int] == 0);
            return true;
        }
        i = i + 1;
    }
    false
}

/// How large a buffer to offer where the system first says how many groups
/// there are.
pub fn group_capacity(name: &[u8], announced: i32) -> (r: Option<usize>)
    ensures
        r is Some <==> !holds_nul(name@) && announced > 0,
        r is Some ==> r->0 == announced,
{
    if contains_nul(name) || announced <= 0 {
        None
    } else {
        Some(announced as usize)
    }
}

/// The first groups of a buffer, all of it where it holds fewer.
pub open spec fn filled<T>(buffer: Seq<T>, count: int) -> Seq<T> {
    if count < buffer.len() {
        buffer.take(count)
    } else {
        buffer
    }
}

/// Whether ids are exactly the groups read and the primary group, in ascending
/// order.
pub open spec fn is_group_list(ids: Seq<u32>, read: Seq<u32>, primary: u32) -> bool {
    &&& strictly_increasing(ids)
    &&& ids.to_set() == read.to_set().insert(primary)
}

fn with_primary(read: Vec<u32>, primary: u32) -> (r: Vec<u32>)
    ensures
        is_group_list(r@, read@, primary),
{
    let mut groups: Vec<u32> = read;
    groups.push(primary);
    proof {
        read@.lemma_push_to_set_commute(primary);
    }
    sorted_ids(groups)
}

/// The groups of a user, from a buffer that the system has filled.
pub fn supplementary_groups(primary: u32, status: i32, count: i32, buffer: Vec<u32>) -> (r: Option<
    Vec<u32>,
>)
    ensures
        r is Some <==> status >= 0 && count > 0,
        r is Some ==> is_group_list(r->0@, filled(buffer@, count as int), primary),
{
    if status < 0 || count <= 0 {
        return None;
    }
    let limit: usize = count as usize;
    let mut read: Vec<u32> = Vec::new();
    let mut i: usize = 0;
    while i < buffer.len() && i < limit
        invariant
            limit == count,
            i <= buffer@.len(),
            i <= limit,
            read@ == buffer@.take(i as int),
        decreases buffer@.len() - i,
    {
        read.push(buffer[i]);
        i = i + 1;
        assert(read@ =~= buffer@.take(i as int));
    }
    assert(buffer@.take(buffer@.len() as int) =~= buffer@);
    Some(with_primary(read, primary))
}

/// What to do after an attempt to read groups into a buffer that may be too
/// small.
#[derive(Debug)]
pub enum GroupStep {
    Retry(usize),
    Done(Option<Vec<u32>>),
}

/// Signed group ids as unsigned ones.
pub open spec fn unsigned_ids(ids: Seq<i32>) -> Seq<u32> {
    ids.map_values(|id: i32| id as u32)
}

pub open spec fn all_unsigned(ids: Seq<i32>) -> bool {
    forall|i: int| 0 <= i < ids.len() ==> #[trigger] ids[i] >= 0
}

/// Whether signed groups can be read at all for a user.
pub fn signed_primary(name: &[u8], primary: u32) -> (r: Option<i32>)
    ensures
        r is Some <==> !holds_nul(name@) && primary <= i32::MAX,
        r is Some ==> r->0 == primary,
{
    if contains_nul(name) || primary > 2147483647 {
        None
    } else {
        Some(primary as i32)
    }
}

/// Judges an attempt with a buffer of the given capacity. The system does not
/// say how large a buffer it needs, so a failed attempt is repeated with twice
/// the capacity, up to a fixed bound.
pub fn signed_groups(
    primary: u32,
    capacity: usize,
    status: i32,
    count: i32,
    buffer: &[i32],
) -> (r: GroupStep)
    requires
        buffer@.len() == capacity,
    ensures
        r is Retry <==> status == -1 && 0 < capacity < 16384,
        r is Retry && capacity <= 8192 ==> r->Retry_0 == 2 * capacity,
        r is Retry && capacity > 8192 ==> r->Retry_0 == 16384,
        match r {
            GroupStep::Retry(next) => {
                &&& status == -1
                &&& capacity < MAX_CAPACITY
                &&& next == if capacity * 2 <= MAX_CAPACITY {
                    capacity * 2
                } else {
                    MAX_CAPACITY as int
                }
                &&& next > capacity
            },
            GroupStep::Done(Some(groups)) => {
                &&& status == 0
                &&& 0 < count <= capacity
                &&& all_unsigned(buffer@.take(count as int))
                &&& is_group_list(groups@, unsigned_ids(buffer@.take(count as int)), primary)
            },
            GroupStep::Done(None) => if status == 0 {
                !(0 < count <= capacity) || !all_unsigned(buffer@.take(count as int))
            } else {
                status != -1 || capacity >= MAX_CAPACITY || capacity == 0
            },
        },
{
    if status == 0 {
        if count <= 0 {
            return GroupStep::Done(None);
        }
        let returned: usize = count as usize;
        if returned > buffer.len() {
            return GroupStep::Done(None);
        }
        let mut read: Vec<u32> = Vec::new();
        let mut i: usize = 0;
        while i < returned
            invariant
                i <= returned <= buffer@.len(),
                returned == count,
                status == 0,
                read@ == unsigned_ids(buffer@.take(i as int)),
                all_unsigned(buffer@.take(i as int)),
            decreases returned - i,
        {
            let id: i32 = buffer[i];
            if id < 0 {
                assert(buffer@.take(count as int)[i as int] == id);
                return GroupStep::Done(None);
            }
            read.push(id as u32);
            assert(buffer@.take(i + 1) =~= buffer@.take(i as int).push(id));
            i = i + 1;
            assert(read@ =~= unsigned_ids(buffer@.take(i as int)));
        }
        return GroupStep::Done(Some(with_primary(read, primary)));
    }
    if status != -1 || capacity >= MAX_CAPACITY || capacity == 0 {
        return GroupStep::Done(None);
    }
    let doubled: usize = capacity * 2;
    if doubled <= MAX_CAPACITY {
        GroupStep::Retry(doubled)
    } else {
        GroupStep::Retry(MAX_CAPACITY)
    }
}

/// A user's list of groups always holds the primary group.
pub proof fn lemma_primary_is_listed(ids: Seq<u32>, read: Seq<u32>, primary: u32)
    requires
        is_group_list(ids, read, primary),
    ensures
        ids.contains(primary),
        ids.len() > 0,
{
    assert(ids.to_set().contains(primary));
}

} // verus!
