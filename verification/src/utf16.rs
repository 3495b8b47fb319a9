//! Text in big-endian UTF-16.

use crate::text::push_char;
use vstd::prelude::*;

verus! {

/// The 16-bit units that pairs of bytes make up, the high byte first.
pub open spec fn be_units(bytes: Seq<u8>) -> Seq<int> {
    Seq::new((bytes.len() / 2) as nat, |i: int| bytes[2 * i] * 256 + bytes[2 * i + 1])
}

pub open spec fn is_high_surrogate(unit: int) -> bool {
    0xd800 <= unit <= 0xdbff
}

pub open spec fn is_low_surrogate(unit: int) -> bool {
    0xdc00 <= unit <= 0xdfff
}

/// The character that a pair of surrogates stands for.
pub open spec fn paired(high: int, low: int) -> char {
    (0x10000 + (high - 0xd800) * 0x400 + (low - 0xdc00)) as char
}

/// The text that 16-bit units stand for, unless a surrogate is without its
/// partner.
pub open spec fn utf16_text(units: Seq<int>) -> Option<Seq<char>>
    decreases units.len(),
{
    if units.len() == 0 {
        Some(Seq::empty())
    } else if is_high_surrogate(units[0]) {
        if units.len() >= 2 && is_low_surrogate(units[1]) {
            match utf16_text(units.skip(2)) {
                Some(rest) => Some(seq![paired(units[0], units[1])] + rest),
                None => None,
            }
        } else {
            None
        }
    } else if is_low_surrogate(units[0]) {
        None
    } else {
        match utf16_text(units.skip(1)) {
            Some(rest) => Some(seq![units[0] as char] + rest),
            None => None,
        }
    }
}

/// Calls `char::from_u32`: the character with this number, where there is one.
#[verifier::external_body]
fn char_of(number: u32) -> (r: Option<char>)
    ensures
        match r {
            Some(c) => c as int == number,
            None => number > 0x10ffff || 0xd800 <= number <= 0xdfff,
        },
{
    char::from_u32(number)
}

fn push_number(text: &mut String, number: u32)
    requires
        number <= 0x10ffff,
        !(0xd800 <= number <= 0xdfff),
    ensures
        final(text)@ == old(text)@.push(number as char),
{
    if let Some(c) = char_of(number) {
        push_char(text, c);
    }
}

/// What is decoded so far, continued by what the other units stand for.
spec fn continued(done: Seq<char>, units: Seq<int>) -> Option<Seq<char>> {
    match utf16_text(units) {
        Some(rest) => Some(done + rest),
        None => None,
    }
}

/// Decodes text in big-endian UTF-16, unless it is ill-formed.
pub fn decode_utf16be(bytes: &[u8]) -> (r: Option<String>)
    ensures
        match r {
            Some(text) => bytes@.len() % 2 == 0 && utf16_text(be_units(bytes@)) == Some(text@),
            None => bytes@.len() % 2 != 0 || utf16_text(be_units(bytes@)) is None,
        },
{
    if bytes.len() % 2 != 0 {
        return None;
    }
    let ghost units = be_units(bytes@);
    let mut text: String = String::new();
    let mut i: usize = 0;
    proof {
        assert(units.skip(0) =~= units);
        if let Some(all) = utf16_text(units) {
            assert(Seq::<char>::empty() + all =~= all);
        }
    }
    while i < bytes.len()
        invariant
            bytes@.len() % 2 == 0,
            i % 2 == 0,
            i <= bytes@.len(),
            units == be_units(bytes@),
            units.len() == bytes@.len() / 2,
            utf16_text(units) == continued(text@, units.skip(i as int / 2)),
        decreases bytes@.len() - i,
    {
        let ghost k = i as int / 2;
        let ghost rest = units.skip(k);
        let ghost done = text@;
        proof {
            assert(2 * k == i);
            assert(rest[0] == units[k]);
        }
        let unit: u32 = bytes[i] as u32 * 256 + bytes[i + 1] as u32;
        assert(unit == rest[0]);
        if 0xd800 <= unit && unit <= 0xdbff {
            if i + 2 >= bytes.len() {
                return None;
            }
            proof {
                assert(rest[1] == units[k + 1]);
            }
            let low: u32 = bytes[i + 2] as u32 * 256 + bytes[i + 3] as u32;
            assert(low == rest[1]);
            if !(0xdc00 <= low && low <= 0xdfff) {
                return None;
            }
            let number: u32 = 0x10000 + (unit - 0xd800) * 0x400 + (low - 0xdc00);
            push_number(&mut text, number);
            i = i + 4;
            proof {
                assert(rest.skip(2) =~= units.skip(i as int / 2));
                if let Some(others) = utf16_text(rest.skip(2)) {
                    assert(done + (seq![paired(rest[0], rest[1])] + others) =~= text@ + others);
                }
            }
        } else if 0xdc00 <= unit && unit <= 0xdfff {
            return None;
        } else {
            push_number(&mut text, unit);
            i = i + 2;
            proof {
                assert(rest.skip(1) =~= units.skip(i as int / 2));
                if let Some(others) = utf16_text(rest.skip(1)) {
                    assert(done + (seq![rest[0] as char] + others) =~= text@ + others);
                }
            }
        }
    }
    assert(units.skip(i as int / 2) =~= Seq::<int>::empty());
    assert(text@ + Seq::<char>::empty() =~= text@);
    Some(text)
}

/// The units that stand for a character.
pub open spec fn units_of_char(c: char) -> Seq<int> {
    let n = c as int;
    if n < 0x10000 {
        seq![n]
    } else {
        seq![0xd800 + (n - 0x10000) / 0x400, 0xdc00 + (n - 0x10000) % 0x400]
    }
}

/// The units that stand for a text.
pub open spec fn units_of(text: Seq<char>) -> Seq<int>
    decreases text.len(),
{
    if text.len() == 0 {
        Seq::empty()
    } else {
        units_of_char(text[0]) + units_of(text.drop_first())
    }
}

proof fn lemma_char_range(c: char)
    ensures
        c as int <= 0x10ffff,
        !(0xd800 <= c as int <= 0xdfff),
        (c as int) as char == c,
{
}

/// Text that is written in units is read back from them.
pub proof fn lemma_units_round_trip(text: Seq<char>)
    ensures
        utf16_text(units_of(text)) == Some(text),
    decreases text.len(),
{
    if text.len() == 0 {
        assert(text =~= Seq::<char>::empty());
    } else {
        let rest = text.drop_first();
        lemma_units_round_trip(rest);
        let first = units_of_char(text[0]);
        let units = units_of(text);
        let n = text[0] as int;
        lemma_char_range(text[0]);
        assert(text =~= seq![text[0]] + rest);
        if n < 0x10000 {
            assert(units.skip(1) =~= units_of(rest));
            assert(units[0] == n);
            assert(units[0] as char == text[0]);
        } else {
            assert(units.skip(2) =~= units_of(rest));
            assert(units[0] == first[0] && units[1] == first[1]);
            assert(is_high_surrogate(units[0]));
            assert(is_low_surrogate(units[1]));
            assert(0x10000 + (units[0] - 0xd800) * 0x400 + (units[1] - 0xdc00) == n);
            assert(paired(units[0], units[1]) == text[0]);
        }
    }
}

} // verus!
