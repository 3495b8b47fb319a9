//! What is forgotten of where trashed things came from.

use crate::restore::{
    before_digits, extension_before, extension_start, store_failure, unnumbered, without_name,
    without_names,
};
use crate::text::utf8_lossy;
use vstd::prelude::*;

verus! {

proof fn lemma_dot_is_found(name: Seq<char>, dot: int, n: int)
    requires
        1 <= dot < n <= name.len(),
        name[dot] == '.',
        forall|i: int| dot < i < n ==> #[trigger] name[i] != '.',
    ensures
        extension_before(name, n) == dot,
    decreases n,
{
    if n - 1 > dot {
        lemma_dot_is_found(name, dot, n - 1);
    }
}

proof fn lemma_no_dot_is_found(name: Seq<char>, n: int)
    requires
        0 <= n <= name.len(),
        forall|i: int| 1 <= i < n ==> #[trigger] name[i] != '.',
    ensures
        extension_before(name, n) == name.len(),
    decreases n,
{
    if n > 1 {
        lemma_no_dot_is_found(name, n - 1);
    }
}

proof fn lemma_digits_are_passed(name: Seq<char>, from: int, n: int)
    requires
        0 <= from <= n <= name.len(),
        forall|i: int| from <= i < n ==> '0' <= #[trigger] name[i] <= '9',
        from > 0 ==> !('0' <= name[from - 1] <= '9'),
    ensures
        before_digits(name, n) == from,
    decreases n,
{
    if n > from {
        lemma_digits_are_passed(name, from, n - 1);
    }
}

/// A name that got a number behind a space, before its extension or at its end, is the
/// name without both.
pub proof fn lemma_numbers_are_taken_off(
    stem: Seq<char>,
    digits: Seq<char>,
    extension: Seq<char>,
)
    requires
        stem.len() > 0,
        digits.len() > 0,
        forall|i: int| 0 <= i < digits.len() ==> '0' <= #[trigger] digits[i] <= '9',
        extension.len() > 0 ==> extension[0] == '.',
        forall|i: int| 1 <= i < extension.len() ==> #[trigger] extension[i] != '.',
        extension.len() == 0 ==> forall|i: int| 1 <= i < stem.len() ==> #[trigger] stem[i] != '.',
    ensures
        unnumbered(stem + seq![' '] + digits + extension) == Some(stem + extension),
{
    let name = stem + seq![' '] + digits + extension;
    let from = stem.len() as int + 1;
    let dot = from + digits.len();
    let n = name.len() as int;
    assert(name[from - 1] == ' ');
    assert forall|i: int| from <= i < dot implies '0' <= #[trigger] name[i] <= '9' by {
        assert(name[i] == digits[i - from]);
    }
    if extension.len() > 0 {
        assert(name[dot] == extension[0]);
        assert forall|i: int| dot < i < n implies #[trigger] name[i] != '.' by {
            assert(name[i] == extension[i - dot]);
        }
        lemma_dot_is_found(name, dot, n);
    } else {
        assert forall|i: int| 1 <= i < n implies #[trigger] name[i] != '.' by {
            if i < stem.len() {
                assert(name[i] == stem[i]);
            }
        }
        lemma_no_dot_is_found(name, n);
    }
    assert(extension_start(name) == dot);
    lemma_digits_are_passed(name, from, dot);
    assert(name.take(from - 1) + name.skip(dot) =~= stem + extension);
}

proof fn lemma_digits_before(name: Seq<char>, n: int)
    requires
        0 <= n <= name.len(),
    ensures
        0 <= before_digits(name, n) <= n,
        forall|i: int| before_digits(name, n) <= i < n ==> '0' <= #[trigger] name[i] <= '9',
    decreases n,
{
    if n > 0 && '0' <= name[n - 1] <= '9' {
        lemma_digits_before(name, n - 1);
    }
}

proof fn lemma_extension_begins_with_a_dot(name: Seq<char>, n: int)
    requires
        0 <= n <= name.len(),
    ensures
        0 <= extension_before(name, n) <= name.len(),
        extension_before(name, n) < name.len() ==> name[extension_before(name, n)] == '.',
    decreases n,
{
    if n > 1 && name[n - 1] != '.' {
        lemma_extension_begins_with_a_dot(name, n - 1);
    }
}

/// Only a number behind a space and behind at least one other character is taken off.
pub proof fn lemma_only_numbers_are_taken_off(name: Seq<char>) -> (parts: (
    Seq<char>,
    Seq<char>,
    Seq<char>,
))
    requires
        unnumbered(name) is Some,
    ensures
        ({
            let (stem, digits, extension) = parts;
            &&& name == stem + seq![' '] + digits + extension
            &&& unnumbered(name) == Some(stem + extension)
            &&& stem.len() > 0
            &&& digits.len() > 0
            &&& forall|i: int| 0 <= i < digits.len() ==> '0' <= #[trigger] digits[i] <= '9'
            &&& extension.len() > 0 ==> extension[0] == '.'
        }),
{
    let n = name.len() as int;
    lemma_extension_begins_with_a_dot(name, n);
    let dot = extension_start(name);
    lemma_digits_before(name, dot);
    let from = before_digits(name, dot);
    let stem = name.take(from - 1);
    let digits = name.subrange(from, dot);
    let extension = name.skip(dot);
    assert(name =~= stem + seq![' '] + digits + extension);
    assert forall|i: int| 0 <= i < digits.len() implies '0' <= #[trigger] digits[i] <= '9' by {
        assert(digits[i] == name[from + i]);
    }
    (stem, digits, extension)
}

/// Forgetting a name forgets it where it is known, else the name without the number that
/// it got, and nothing else.
pub proof fn lemma_one_name_is_forgotten(
    origins: Map<Seq<char>, Seq<char>>,
    name: Seq<char>,
    other: Seq<char>,
)
    ensures
        ({
            let after = without_name(origins, name);
            let gone = if origins.contains_key(name) {
                Some(name)
            } else {
                unnumbered(name)
            };
            &&& gone == Some(other) ==> !after.contains_key(other)
            &&& gone != Some(other) ==> after.contains_key(other) == origins.contains_key(other)
            &&& gone != Some(other) && origins.contains_key(other) ==> after[other]
                == origins[other]
        }),
{
}

/// Several names are forgotten one after the other.
pub proof fn lemma_names_are_forgotten_in_turn(
    origins: Map<Seq<char>, Seq<char>>,
    names: Seq<Seq<char>>,
    name: Seq<char>,
)
    ensures
        without_names(origins, Seq::empty()) == origins,
        without_names(origins, names.push(name)) == without_name(
            without_names(origins, names),
            name,
        ),
{
    assert(names.push(name).drop_last() =~= names);
}

/// A failure says what could not be done, and with which file.
pub proof fn lemma_failures_name_the_file(what: Seq<char>, path: Seq<u8>)
    ensures
        store_failure(what, path) == what + utf8_lossy(path),
{
}

} // verus!
