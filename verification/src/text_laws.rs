//! What texts write.

use crate::ids::{
    comma_fields, fields_fault, first_comma, ids_fault, listed_ids, parsed_fields, parsed_ids,
};
use crate::text::{
    decimal, digits_value, forward_slashes, is_digit, leading_digits, number_fault, parsed_u32,
    NumberFault,
};
use crate::utf16::{be_units, utf16_text};
use vstd::prelude::*;

verus! {

/// Every backslash becomes a slash, and every other character stays.
pub proof fn lemma_slashes_go_forward(text: Seq<char>, i: int)
    requires
        0 <= i < text.len(),
    ensures
        forward_slashes(text).len() == text.len(),
        text[i] == '\\' ==> forward_slashes(text)[i] == '/',
        text[i] != '\\' ==> forward_slashes(text)[i] == text[i],
{
}

/// Decimal notation has only digits, begins with a zero only where it is one, and its last
/// digit is what is left when tens are taken away.
pub proof fn lemma_decimal_notation(n: nat)
    ensures
        decimal(n).len() > 0,
        forall|i: int| 0 <= i < decimal(n).len() ==> '0' <= #[trigger] decimal(n)[i] <= '9',
        n > 0 ==> decimal(n)[0] != '0',
        n == 0 ==> decimal(n) == seq!['0'],
        digits_value(decimal(n)) == n,
    decreases n,
{
    if n < 10 {
        let d = decimal(n);
        assert(d.drop_last() =~= Seq::<char>::empty());
        assert(d.last() == (48 + n) as char);
        assert(digits_value(d.drop_last()) == 0);
        if n == 0 {
            assert(d =~= seq!['0']);
        }
    } else {
        let m = n / 10;
        lemma_decimal_notation(m);
        let d = decimal(n);
        assert(d.drop_last() =~= decimal(m));
        assert(d.last() == (48 + n % 10) as char);
        assert(d[0] == decimal(m)[0]);
        assert forall|i: int| 0 <= i < d.len() implies '0' <= #[trigger] d[i] <= '9' by {
            if i < decimal(m).len() {
                assert(d[i] == decimal(m)[i]);
            }
        }
    }
}

/// Digits write their number, with a plus sign before them or without, as long as 32 bits
/// hold it.
pub proof fn lemma_digits_write_a_number(digits: Seq<char>)
    requires
        digits.len() > 0,
        forall|i: int| 0 <= i < digits.len() ==> '0' <= #[trigger] digits[i] <= '9',
    ensures
        digits_value(digits) <= u32::MAX ==> parsed_u32(digits) == Some(
            digits_value(digits) as u32,
        ) && parsed_u32(seq!['+'] + digits) == Some(digits_value(digits) as u32) && number_fault(
            digits,
        ) is None,
        digits_value(digits) > u32::MAX ==> parsed_u32(digits) is None && parsed_u32(
            seq!['+'] + digits,
        ) is None && number_fault(digits) == Some(NumberFault::TooLarge),
{
    let signed = seq!['+'] + digits;
    assert(digits[0] != '+');
    assert(signed[0] == '+');
    assert(signed.skip(1) =~= digits);
    lemma_all_lead(digits);
    assert(digits.take(digits.len() as int) =~= digits);
}

proof fn lemma_all_lead(digits: Seq<char>)
    requires
        forall|i: int| 0 <= i < digits.len() ==> '0' <= #[trigger] digits[i] <= '9',
    ensures
        leading_digits(digits) == digits.len(),
    decreases digits.len(),
{
    if digits.len() > 0 {
        lemma_all_lead(digits.drop_first());
    }
}

/// Nothing else writes a number: not the empty text, not a sign alone, and no text with
/// another character, but for one plus sign in front.
pub proof fn lemma_only_digits_write_numbers(text: Seq<char>, i: int)
    requires
        text.len() == 0 || text == seq!['+'] || (0 <= i < text.len() && !('0' <= text[i] <= '9')
            && !(i == 0 && text[i] == '+')),
    ensures
        parsed_u32(text) is None,
        text.len() == 0 ==> number_fault(text) == Some(NumberFault::Empty),
        text.len() > 0 ==> number_fault(text) is Some && number_fault(text)->0
            != NumberFault::Empty,
{
    if text.len() > 0 {
        if text == seq!['+'] {
            assert(text[0] == '+');
            assert(text.skip(1).len() == 0);
        } else if text[0] == '+' {
            assert(text.skip(1)[i - 1] == text[i]);
            assert(!is_digit(text.skip(1)[i - 1]));
        } else {
            assert(!is_digit(text[i]));
        }
    }
}

proof fn lemma_comma_stands(field: Seq<char>, rest: Seq<char>)
    requires
        forall|i: int| 0 <= i < field.len() ==> #[trigger] field[i] != ',',
    ensures
        first_comma(field) == field.len(),
        first_comma(field + seq![','] + rest) == field.len(),
    decreases field.len(),
{
    let text = field + seq![','] + rest;
    if field.len() > 0 {
        let less = field.drop_first();
        lemma_comma_stands(less, rest);
        assert(text[0] == field[0]);
        assert(text.drop_first() =~= less + seq![','] + rest);
    } else {
        assert(text[0] == ',');
    }
}

/// A list of ids is read part by part between its commas, and only where every part writes
/// a number.
pub proof fn lemma_ids_are_read_between_commas(field: Seq<char>, rest: Seq<char>)
    requires
        forall|i: int| 0 <= i < field.len() ==> #[trigger] field[i] != ',',
    ensures
        parsed_ids(field) == match parsed_u32(field) {
            Some(id) => Some(seq![id]),
            None => None,
        },
        parsed_ids(field + seq![','] + rest) == match (parsed_u32(field), parsed_ids(rest)) {
            (Some(id), Some(ids)) => Some(seq![id] + ids),
            _ => None,
        },
{
    lemma_comma_stands(field, rest);
    let text = field + seq![','] + rest;
    let n = field.len() as int;
    assert(text.take(n) =~= field);
    assert(text.skip(n + 1) =~= rest);
    let fields = comma_fields(text);
    assert(fields =~= seq![field] + comma_fields(rest));
    assert(fields[0] == field);
    assert(fields.drop_first() =~= comma_fields(rest));
    let one = comma_fields(field);
    assert(one =~= seq![field]);
    assert(one.drop_first() =~= Seq::<Seq<char>>::empty());
    assert(parsed_fields(one.drop_first()) == Some(Seq::<u32>::empty()));
    if parsed_u32(field) is Some {
        let id = parsed_u32(field)->0;
        assert(seq![id] + Seq::<u32>::empty() =~= seq![id]);
    }
}

/// A list of ids is written in decimal notation with commas between them.
pub proof fn lemma_ids_are_written_with_commas(id: u32, ids: Seq<u32>)
    ensures
        listed_ids(Seq::empty()) == Seq::<char>::empty(),
        listed_ids(seq![id]) == decimal(id as nat),
        ids.len() > 0 ==> listed_ids(seq![id] + ids) == decimal(id as nat) + seq![',']
            + listed_ids(ids),
{
    let all = seq![id] + ids;
    assert(all[0] == id);
    assert(all.drop_first() =~= ids);
}

/// Two bytes make a unit, the higher first.
pub proof fn lemma_high_byte_comes_first(bytes: Seq<u8>, i: int)
    requires
        0 <= i,
        2 * i + 1 < bytes.len(),
    ensures
        be_units(bytes).len() == bytes.len() / 2,
        be_units(bytes)[i] == 256 * bytes[2 * i] + bytes[2 * i + 1],
{
}

/// Units are read from the front: one that is no surrogate is a character, a high and a
/// low one together are, and any other surrogate makes the whole ill-formed.
pub proof fn lemma_units_are_read(u: int, v: int, rest: Seq<int>)
    requires
        0 <= u <= 0xffff,
        0 <= v <= 0xffff,
    ensures
        utf16_text(Seq::empty()) == Some(Seq::<char>::empty()),
        u < 0xd800 || u > 0xdfff ==> utf16_text(seq![u] + rest) == match utf16_text(rest) {
            Some(text) => Some(seq![u as char] + text),
            None => None,
        },
        0xdc00 <= u <= 0xdfff ==> utf16_text(seq![u] + rest) is None,
        0xd800 <= u <= 0xdbff ==> utf16_text(seq![u]) is None,
        0xd800 <= u <= 0xdbff && !(0xdc00 <= v <= 0xdfff) ==> utf16_text(
            seq![u, v] + rest,
        ) is None,
        0xd800 <= u <= 0xdbff && 0xdc00 <= v <= 0xdfff ==> utf16_text(seq![u, v] + rest)
            == match utf16_text(rest) {
            Some(text) => Some(
                seq![(65536 + 1024 * (u - 0xd800) + (v - 0xdc00)) as char] + text,
            ),
            None => None,
        },
{
    let one = seq![u] + rest;
    assert(one[0] == u);
    assert(one.skip(1) =~= rest);
    let two = seq![u, v] + rest;
    assert(two[0] == u && two[1] == v);
    assert(two.skip(2) =~= rest);
}

proof fn lemma_digits_lead(digits: Seq<char>, c: char, rest: Seq<char>)
    requires
        forall|i: int| 0 <= i < digits.len() ==> '0' <= #[trigger] digits[i] <= '9',
        !('0' <= c <= '9'),
    ensures
        leading_digits(digits + seq![c] + rest) == digits.len(),
    decreases digits.len(),
{
    let text = digits + seq![c] + rest;
    if digits.len() > 0 {
        assert(text[0] == digits[0]);
        assert(text.drop_first() =~= digits.drop_first() + seq![c] + rest);
        lemma_digits_lead(digits.drop_first(), c, rest);
    } else {
        assert(text[0] == c);
    }
}

/// A text is read from the left: where its digits come to too much before another
/// character, it is too large, else that character is the fault.
pub proof fn lemma_first_fault_counts(digits: Seq<char>, c: char, rest: Seq<char>)
    requires
        forall|i: int| 0 <= i < digits.len() ==> '0' <= #[trigger] digits[i] <= '9',
        !('0' <= c <= '9'),
        digits.len() > 0 || c != '+',
    ensures
        ({
            let text = digits + seq![c] + rest;
            &&& digits_value(digits) > u32::MAX ==> number_fault(text) == Some(
                NumberFault::TooLarge,
            )
            &&& digits_value(digits) <= u32::MAX ==> number_fault(text) == Some(
                NumberFault::InvalidDigit,
            )
        }),
{
    let text = digits + seq![c] + rest;
    let n = digits.len() as int;
    assert(text[n] == c);
    assert(!is_digit(text[n]));
    lemma_digits_lead(digits, c, rest);
    assert(text.take(n) =~= digits);
    if n > 0 {
        assert(text[0] == digits[0]);
    }
}

/// Of a list of ids, the fault of the first part that writes no number is told.
pub proof fn lemma_first_faulty_part_counts(field: Seq<char>, rest: Seq<char>)
    requires
        forall|i: int| 0 <= i < field.len() ==> #[trigger] field[i] != ',',
    ensures
        ids_fault(field) == number_fault(field),
        number_fault(field) is Some ==> ids_fault(field + seq![','] + rest) == number_fault(field),
        number_fault(field) is None ==> ids_fault(field + seq![','] + rest) == ids_fault(rest),
{
    lemma_comma_stands(field, rest);
    let text = field + seq![','] + rest;
    let n = field.len() as int;
    assert(text.take(n) =~= field);
    assert(text.skip(n + 1) =~= rest);
    let fields = comma_fields(text);
    assert(fields =~= seq![field] + comma_fields(rest));
    assert(fields[0] == field);
    assert(fields.drop_first() =~= comma_fields(rest));
    let one = comma_fields(field);
    assert(one =~= seq![field]);
    assert(one[0] == field);
    assert(one.drop_first() =~= Seq::<Seq<char>>::empty());
    assert(fields_fault(one.drop_first()) is None);
}

} // verus!
