//! Where trashed files came from.

use crate::path::FilePath;
use crate::text::{chars_of, concat, is_digit, lossy_text, same_text, text_of, utf8_lossy};
use vstd::prelude::*;
use vstd::slice::slice_subrange;

verus! {

/// Where files in the trash came from, by their names there.
#[derive(Debug)]
pub struct Origins {
    entries: Vec<(String, String)>,
}

/// What entries come to: the last one for a name counts.
pub open spec fn origins_of(entries: Seq<(String, String)>) -> Map<Seq<char>, Seq<char>>
    decreases entries.len(),
{
    if entries.len() == 0 {
        Map::empty()
    } else {
        origins_of(entries.drop_last()).insert(entries.last().0@, entries.last().1@)
    }
}

/// No name has two entries.
pub open spec fn distinct_names(entries: Seq<(String, String)>) -> bool {
    forall|i: int, j: int|
        0 <= i < j < entries.len() ==> (#[trigger] entries[i]).0@ != (#[trigger] entries[j]).0@
}

proof fn lemma_origins(entries: Seq<(String, String)>, name: Seq<char>)
    ensures
        origins_of(entries).contains_key(name) <==> exists|i: int|
            0 <= i < entries.len() && (#[trigger] entries[i]).0@ == name,
    decreases entries.len(),
{
    if entries.len() > 0 {
        let fewer = entries.drop_last();
        lemma_origins(fewer, name);
        if origins_of(fewer).contains_key(name) {
            let i = choose|i: int| 0 <= i < fewer.len() && (#[trigger] fewer[i]).0@ == name;
            assert(entries[i].0@ == name);
        }
        if exists|i: int| 0 <= i < entries.len() && (#[trigger] entries[i]).0@ == name {
            let i = choose|i: int| 0 <= i < entries.len() && (#[trigger] entries[i]).0@ == name;
            if i < fewer.len() {
                assert(fewer[i].0@ == name);
            }
        }
    }
}

proof fn lemma_origins_value(entries: Seq<(String, String)>, i: int)
    requires
        distinct_names(entries),
        0 <= i < entries.len(),
    ensures
        origins_of(entries).contains_key(entries[i].0@),
        origins_of(entries)[entries[i].0@] == entries[i].1@,
    decreases entries.len(),
{
    if i < entries.len() - 1 {
        let fewer = entries.drop_last();
        assert(distinct_names(fewer)) by {
            assert forall|a: int, b: int| 0 <= a < b < fewer.len() implies (
            #[trigger] fewer[a]).0@ != (#[trigger] fewer[b]).0@ by {
                assert(entries[a].0@ != entries[b].0@);
            }
        }
        lemma_origins_value(fewer, i);
        assert(entries[i].0@ != entries[entries.len() - 1].0@);
    }
}

proof fn lemma_removed(entries: Seq<(String, String)>, i: int)
    requires
        distinct_names(entries),
        0 <= i < entries.len(),
    ensures
        distinct_names(entries.remove(i)),
        origins_of(entries.remove(i)) == origins_of(entries).remove(entries[i].0@),
{
    let after = entries.remove(i);
    let name = entries[i].0@;
    assert forall|a: int, b: int| 0 <= a < b < after.len() implies (#[trigger] after[a]).0@ != (
    #[trigger] after[b]).0@ by {
        let k = if a < i {
            a
        } else {
            a + 1
        };
        let l = if b < i {
            b
        } else {
            b + 1
        };
        assert(entries[k].0@ != entries[l].0@);
    }
    assert forall|n: Seq<char>| #[trigger] origins_of(after).contains_key(n) <==> origins_of(
        entries,
    ).contains_key(n) && n != name by {
        lemma_origins(after, n);
        lemma_origins(entries, n);
        if origins_of(after).contains_key(n) {
            let k = choose|k: int| 0 <= k < after.len() && (#[trigger] after[k]).0@ == n;
            let l = if k < i {
                k
            } else {
                k + 1
            };
            assert(entries[l].0@ == n);
            if l < i {
                assert(entries[l].0@ != entries[i].0@);
            } else {
                assert(entries[i].0@ != entries[l].0@);
            }
        }
        if origins_of(entries).contains_key(n) && n != name {
            let l = choose|l: int| 0 <= l < entries.len() && (#[trigger] entries[l]).0@ == n;
            let k = if l < i {
                l
            } else {
                l - 1
            };
            assert(after[k].0@ == n);
        }
    }
    assert forall|n: Seq<char>| origins_of(after).contains_key(n) implies #[trigger] origins_of(
        after,
    )[n] == origins_of(entries)[n] by {
        lemma_origins(after, n);
        let k = choose|k: int| 0 <= k < after.len() && (#[trigger] after[k]).0@ == n;
        let l = if k < i {
            k
        } else {
            k + 1
        };
        assert(entries[l] == after[k]);
        lemma_origins_value(after, k);
        lemma_origins_value(entries, l);
    }
    assert(origins_of(after) =~= origins_of(entries).remove(name));
}

impl View for Origins {
    type V = Map<Seq<char>, Seq<char>>;

    closed spec fn view(&self) -> Map<Seq<char>, Seq<char>> {
        origins_of(self.entries@)
    }
}

impl Origins {
    pub closed spec fn wf(&self) -> bool {
        distinct_names(self.entries@)
    }

    pub fn new() -> (r: Origins)
        ensures
            r.wf(),
            r@ == Map::<Seq<char>, Seq<char>>::empty(),
    {
        Origins { entries: Vec::new() }
    }

    /// Where a name stands.
    fn position(&self, name: &str) -> (r: Option<usize>)
        requires
            self.wf(),
        ensures
            match r {
                Some(i) => i < self.entries@.len() && self.entries@[i as int].0@ == name@,
                None => !self@.contains_key(name@),
            },
    {
        let mut i: usize = 0;
        while i < self.entries.len()
            invariant
                i <= self.entries@.len(),
                forall|k: int| 0 <= k < i ==> (#[trigger] self.entries@[k]).0@ != name@,
            decreases self.entries@.len() - i,
        {
            if same_text(self.entries[i].0.as_str(), name) {
                return Some(i);
            }
            i = i + 1;
        }
        proof {
            lemma_origins(self.entries@, name@);
        }
        None
    }

    pub fn contains_key(&self, name: &str) -> (r: bool)
        requires
            self.wf(),
        ensures
            r == self@.contains_key(name@),
    {
        match self.position(name) {
            Some(i) => {
                proof {
                    lemma_origins_value(self.entries@, i as int);
                }
                true
            },
            None => false,
        }
    }

    /// Where the file with a name came from.
    pub fn get(&self, name: &str) -> (r: Option<&str>)
        requires
            self.wf(),
        ensures
            match r {
                Some(origin) => self@.contains_key(name@) && self@[name@] == origin@,
                None => !self@.contains_key(name@),
            },
    {
        match self.position(name) {
            Some(i) => {
                proof {
                    lemma_origins_value(self.entries@, i as int);
                }
                Some(self.entries[i].1.as_str())
            },
            None => None,
        }
    }

    /// Notes where a file came from, in place of what was noted before.
    pub fn insert(&mut self, name: String, origin: String)
        requires
            old(self).wf(),
        ensures
            final(self).wf(),
            final(self)@ == old(self)@.insert(name@, origin@),
    {
        let _ = self.remove(name.as_str());
        let ghost before = self.entries@;
        proof {
            assert forall|i: int| 0 <= i < before.len() implies (#[trigger] before[i]).0@
                != name@ by {
                if before[i].0@ == name@ {
                    lemma_origins_value(before, i);
                }
            }
        }
        self.entries.push((name, origin));
        assert(self.entries@.drop_last() =~= before);
        assert(self@ =~= origins_of(before).insert(name@, origin@));
    }

    /// Forgets a name; says whether it was known.
    pub fn remove(&mut self, name: &str) -> (r: bool)
        requires
            old(self).wf(),
        ensures
            final(self).wf(),
            r == old(self)@.contains_key(name@),
            final(self)@ == old(self)@.remove(name@),
    {
        match self.position(name) {
            Some(i) => {
                proof {
                    lemma_origins_value(self.entries@, i as int);
                    lemma_removed(self.entries@, i as int);
                }
                let _ = self.entries.remove(i);
                true
            },
            None => {
                assert(self@.remove(name@) =~= self@);
                false
            },
        }
    }

    pub fn is_empty(&self) -> (r: bool)
        requires
            self.wf(),
        ensures
            r == (self@ == Map::<Seq<char>, Seq<char>>::empty()),
    {
        proof {
            if self.entries@.len() > 0 {
                lemma_origins_value(self.entries@, 0);
            }
        }
        self.entries.len() == 0
    }

    pub fn len(&self) -> (r: usize)
        requires
            self.wf(),
        ensures
            self@.dom().finite(),
            r == self@.dom().len(),
    {
        proof {
            lemma_count(self.entries@);
        }
        self.entries.len()
    }
}

proof fn lemma_count(entries: Seq<(String, String)>)
    requires
        distinct_names(entries),
    ensures
        origins_of(entries).dom().finite(),
        origins_of(entries).dom().len() == entries.len(),
    decreases entries.len(),
{
    if entries.len() == 0 {
        assert(origins_of(entries).dom() =~= Set::empty());
    } else {
        let n = entries.len() - 1;
        lemma_removed(entries, n);
        assert(entries.remove(n) =~= entries.drop_last());
        lemma_count(entries.drop_last());
        assert(!origins_of(entries.drop_last()).contains_key(entries[n].0@));
        assert(origins_of(entries).dom() =~= origins_of(entries.drop_last()).dom().insert(
            entries[n].0@,
        ));
    }
}

/// Where the extension of a name begins, its dot included; the end where there
/// is none. A dot at the beginning starts no extension.
pub open spec fn extension_start(name: Seq<char>) -> int {
    extension_before(name, name.len() as int)
}

/// Where the extension begins among the first characters, the end of the name
/// where it does not.
pub open spec fn extension_before(name: Seq<char>, n: int) -> int
    decreases n,
{
    if n <= 1 || n > name.len() {
        name.len() as int
    } else if name[n - 1] == '.' {
        n - 1
    } else {
        extension_before(name, n - 1)
    }
}

/// How many of the first `n` characters are left when digits at their end are
/// cut off.
pub open spec fn before_digits(name: Seq<char>, n: int) -> int
    decreases n,
{
    if n <= 0 || n > name.len() || !is_digit(name[n - 1]) {
        n
    } else {
        before_digits(name, n - 1)
    }
}

/// The name that a file had before a number was put behind it to tell it from
/// another: `report.pdf` for `report 2.pdf`.
pub open spec fn unnumbered(name: Seq<char>) -> Option<Seq<char>> {
    let dot = extension_start(name);
    let digits = before_digits(name, dot);
    if digits < dot && digits >= 2 && name[digits - 1] == ' ' {
        Some(name.take(digits - 1) + name.skip(dot))
    } else {
        None
    }
}

proof fn lemma_bounds(name: Seq<char>, n: int)
    requires
        0 <= n <= name.len(),
    ensures
        0 <= before_digits(name, n) <= n,
        0 <= extension_before(name, n) <= name.len(),
    decreases n,
{
    if n > 0 {
        lemma_bounds(name, n - 1);
    }
}

/// The name without a number that tells it from another.
pub fn strip_collision_suffix(name: &str) -> (r: Option<String>)
    ensures
        match r {
            Some(base) => unnumbered(name@) == Some(base@),
            None => unnumbered(name@) is None,
        },
{
    let chars: Vec<char> = chars_of(name);
    let mut dot: usize = chars.len();
    let mut n: usize = chars.len();
    while n > 1
        invariant_except_break
            dot == chars@.len(),
        invariant
            chars@ == name@,
            n <= chars@.len(),
            extension_start(name@) == extension_before(name@, n as int),
        ensures
            dot == extension_start(name@),
        decreases n,
    {
        if chars[n - 1] == '.' {
            dot = n - 1;
            break;
        }
        n = n - 1;
    }
    proof {
        lemma_bounds(name@, name@.len() as int);
    }
    let mut digits: usize = dot;
    while digits > 0 && '0' <= chars[digits - 1] && chars[digits - 1] <= '9'
        invariant
            chars@ == name@,
            digits <= dot <= chars@.len(),
            before_digits(name@, dot as int) == before_digits(name@, digits as int),
        decreases digits,
    {
        digits = digits - 1;
    }
    assert(digits == before_digits(name@, dot as int));
    if digits < dot && digits >= 2 && chars[digits - 1] == ' ' {
        let stem: String = text_of(slice_subrange(chars.as_slice(), 0, digits - 1));
        let extension: String = text_of(slice_subrange(chars.as_slice(), dot, chars.len()));
        assert(stem@ =~= name@.take(digits - 1));
        assert(extension@ =~= name@.skip(dot as int));
        Some(concat(stem.as_str(), extension.as_str()))
    } else {
        None
    }
}

/// Origins without a name, or, where that is not known, without the name that
/// the file had before a number was put behind it.
pub open spec fn without_name(
    origins: Map<Seq<char>, Seq<char>>,
    name: Seq<char>,
) -> Map<Seq<char>, Seq<char>> {
    if origins.contains_key(name) {
        origins.remove(name)
    } else {
        match unnumbered(name) {
            Some(base) => origins.remove(base),
            None => origins,
        }
    }
}

/// Origins without several names, forgotten in turn.
pub open spec fn without_names(
    origins: Map<Seq<char>, Seq<char>>,
    names: Seq<Seq<char>>,
) -> Map<Seq<char>, Seq<char>>
    decreases names.len(),
{
    if names.len() == 0 {
        origins
    } else {
        without_name(without_names(origins, names.drop_last()), names.last())
    }
}

/// The texts of several names.
pub open spec fn names_view(names: Seq<&str>) -> Seq<Seq<char>> {
    names.map_values(|n: &str| n@)
}

/// Forgets names; says whether anything was forgotten.
pub fn remove_from_origins_map(map: &mut Origins, names: &[&str]) -> (r: bool)
    requires
        old(map).wf(),
    ensures
        final(map).wf(),
        final(map)@ == without_names(old(map)@, names_view(names@)),
        r == (final(map)@ != old(map)@),
{
    let ghost before = map@;
    let ghost all = names_view(names@);
    let mut changed: bool = false;
    let mut i: usize = 0;
    assert(all.take(0) =~= Seq::<Seq<char>>::empty());
    while i < names.len()
        invariant
            i <= names@.len(),
            all == names_view(names@),
            map.wf(),
            map@ == without_names(before, all.take(i as int)),
            map@.dom().subset_of(before.dom()),
            changed <==> map@ != before,
            changed ==> map@.dom() != before.dom(),
        decreases names@.len() - i,
    {
        let name: &str = names[i];
        let ghost now = map@;
        proof {
            assert(all.take(i + 1).drop_last() =~= all.take(i as int));
            assert(all.take(i + 1).last() == name@);
        }
        if map.remove(name) {
            changed = true;
            proof {
                assert(!map@.dom().contains(name@) && before.dom().contains(name@));
            }
        } else {
            assert(map@ =~= now);
            if let Some(base) = strip_collision_suffix(name) {
                if map.remove(base.as_str()) {
                    changed = true;
                    proof {
                        assert(!map@.dom().contains(base@) && before.dom().contains(base@));
                    }
                } else {
                    assert(map@ =~= now);
                }
            }
        }
        i = i + 1;
    }
    assert(all.take(i as int) =~= all);
    changed
}

/// What an attempt to read the store of origins gave.
#[derive(Debug)]
pub enum StoreRead {
    Missing,
    Failed,
    Contents(Vec<u8>),
}

/// What to do with the store of origins.
#[derive(Debug)]
pub enum StoreUpdate {
    /// Leave it as it is.
    Keep,
    /// Write it anew.
    Write(Vec<u8>),
    /// Give up, for this reason.
    Fail(String),
}

/// An error of the JSON library.
#[verifier::external_type_specification]
#[verifier::external_body]
pub struct ExJsonError(serde_json::Error);

/// The string-to-string object that a JSON text holds, if it holds one, as
/// `serde_json::from_slice` reads it.
pub uninterp spec fn json_object(text: Seq<u8>) -> Option<Map<Seq<char>, Seq<char>>>;

/// The JSON text for a string-to-string object, as `serde_json::to_vec` writes
/// it for a map in ascending order of its keys.
pub uninterp spec fn json_text(object: Map<Seq<char>, Seq<char>>) -> Seq<u8>;

/// Calls `serde_json::from_slice` for a map of strings: its entries, each key
/// once, where the text is a JSON object of strings, and an error otherwise.
#[verifier::external_body]
fn read_json(text: &[u8]) -> (r: Result<Vec<(String, String)>, serde_json::Error>)
    ensures
        match r {
            Ok(entries) => distinct_names(entries@) && json_object(text@) == Some(
                origins_of(entries@),
            ),
            Err(_) => json_object(text@) is None,
        },
{
    let map: std::collections::BTreeMap<String, String> = serde_json::from_slice(text)?;
    Ok(map.into_iter().collect())
}

/// Calls `serde_json::to_vec` for a map of strings. It fails only for keys that
/// are not strings and for values that refuse to be written, so it does not fail
/// here. What it writes depends on the map alone, and is read back as the same map.
#[verifier::external_body]
fn write_json(entries: &Vec<(String, String)>) -> (r: Result<Vec<u8>, serde_json::Error>)
    requires
        distinct_names(entries@),
    ensures
        match r {
            Ok(text) => text@ == json_text(origins_of(entries@)) && json_object(text@) == Some(
                origins_of(entries@),
            ),
            Err(_) => false,
        },
{
    let map: std::collections::BTreeMap<&str, &str> =
        entries.iter().map(|e| (e.0.as_str(), e.1.as_str())).collect();
    serde_json::to_vec(&map)
}

impl Origins {
    /// The origins that a store holds.
    pub fn from_json(text: &[u8]) -> (r: Option<Origins>)
        ensures
            match r {
                Some(origins) => origins.wf() && json_object(text@) == Some(origins@),
                None => json_object(text@) is None,
            },
    {
        match read_json(text) {
            Ok(entries) => Some(Origins { entries }),
            Err(_) => None,
        }
    }

    /// The contents of a store with these origins.
    pub fn to_json(&self) -> (r: Vec<u8>)
        requires
            self.wf(),
        ensures
            r@ == json_text(self@),
            json_object(r@) == Some(self@),
    {
        write_json(&self.entries).unwrap()
    }
}

pub open spec fn store_failure(what: Seq<char>, path: Seq<u8>) -> Seq<char> {
    what + utf8_lossy(path)
}

/// The message for a store that could not be written.
pub fn write_failure(path: &FilePath) -> (r: String)
    ensures
        r@ == store_failure("cannot write "@, path@),
{
    let place: String = lossy_text(path.bytes.as_slice());
    concat("cannot write ", place.as_str())
}

/// Decides what to do with a store of origins when names are to be forgotten. A
/// store that does not exist or does not know them is left alone, one that
/// cannot be read or understood is an error.
pub fn remove_restore_origins_at_path_checked(path: &FilePath, read: StoreRead, names: &[&str]) -> (r:
    StoreUpdate)
    ensures
        match read {
            StoreRead::Missing => r is Keep,
            StoreRead::Failed => r matches StoreUpdate::Fail(text) && text@ == store_failure(
                "cannot read "@,
                path@,
            ),
            StoreRead::Contents(contents) => match json_object(contents@) {
                None => r matches StoreUpdate::Fail(text) && text@ == store_failure(
                    "cannot parse "@,
                    path@,
                ),
                Some(origins) => {
                    let after = without_names(origins, names_view(names@));
                    if after == origins {
                        r is Keep
                    } else {
                        r matches StoreUpdate::Write(text) && text@ == json_text(after)
                            && json_object(text@) == Some(after)
                    }
                },
            },
        },
{
    match read {
        StoreRead::Missing => StoreUpdate::Keep,
        StoreRead::Failed => {
            let place: String = lossy_text(path.bytes.as_slice());
            StoreUpdate::Fail(concat("cannot read ", place.as_str()))
        },
        StoreRead::Contents(contents) => match Origins::from_json(contents.as_slice()) {
            None => {
                let place: String = lossy_text(path.bytes.as_slice());
                StoreUpdate::Fail(concat("cannot parse ", place.as_str()))
            },
            Some(found) => {
                let mut origins: Origins = found;
                if remove_from_origins_map(&mut origins, names) {
                    StoreUpdate::Write(origins.to_json())
                } else {
                    StoreUpdate::Keep
                }
            },
        },
    }
}

/// Forgetting names leaves every other name with its origin.
pub proof fn lemma_other_names_stay(
    origins: Map<Seq<char>, Seq<char>>,
    names: Seq<Seq<char>>,
    other: Seq<char>,
)
    requires
        forall|i: int|
            0 <= i < names.len() ==> #[trigger] names[i] != other && unnumbered(names[i]) != Some(
                other,
            ),
    ensures
        without_names(origins, names).contains_key(other) == origins.contains_key(other),
        origins.contains_key(other) ==> without_names(origins, names)[other] == origins[other],
    decreases names.len(),
{
    if names.len() > 0 {
        let fewer = names.drop_last();
        assert forall|i: int| 0 <= i < fewer.len() implies #[trigger] fewer[i] != other
            && unnumbered(fewer[i]) != Some(other) by {
            assert(fewer[i] == names[i]);
        }
        lemma_other_names_stay(origins, fewer, other);
        assert(names[names.len() - 1] != other);
    }
}

/// A name that was forgotten is not known any more.
pub proof fn lemma_forgotten_name_is_gone(
    origins: Map<Seq<char>, Seq<char>>,
    name: Seq<char>,
)
    ensures
        !without_name(origins, name).contains_key(name),
        !origins.contains_key(name) && unnumbered(name) is Some ==> !without_name(
            origins,
            name,
        ).contains_key(unnumbered(name)->0),
{
}

} // verus!
