//! In which order things are listed and examined.

use crate::batches::is_due;
use crate::digest::{glimpse, partial_input};
use crate::duplicates::{
    bucket_priority, group_order, lemma_one_copy_is_kept, member_order, priority_order,
    CandidateView, DuplicateFileView, DuplicateGroupView,
};
use crate::file_reading::HASH_CHUNK_SIZE;
use crate::natural::{
    digit_run, lemma_digit_run, natural_order, natural_tokens, NaturalToken,
};
use crate::order::{bytes_order, lemma_bytes_order_antisymmetric, Order};
use crate::path::components_order;
use crate::text::{digits_value, lowercase_text};
use crate::user_groups::INITIAL_CAPACITY;
use crate::wire::le_bytes;
use vstd::prelude::*;
use vstd::utf8::encode_utf8;

verus! {

/// Of two byte strings, the one with the smaller byte where they first differ comes
/// first; a string that only continues another comes after it.
pub proof fn lemma_first_differing_byte_decides(a: Seq<u8>, b: Seq<u8>, n: int)
    requires
        0 <= n <= a.len(),
        n <= b.len(),
        forall|i: int| 0 <= i < n ==> #[trigger] a[i] == b[i],
    ensures
        n < a.len() && n < b.len() && a[n] < b[n] ==> bytes_order(a, b) == Order::Less,
        n < a.len() && n < b.len() && a[n] > b[n] ==> bytes_order(a, b) == Order::Greater,
        n == a.len() && n < b.len() ==> bytes_order(a, b) == Order::Less,
        n < a.len() && n == b.len() ==> bytes_order(a, b) == Order::Greater,
        n == a.len() && n == b.len() ==> bytes_order(a, b) == Order::Equal,
    decreases n,
{
    if n > 0 {
        let x = a.drop_first();
        let y = b.drop_first();
        assert forall|i: int| 0 <= i < n - 1 implies #[trigger] x[i] == y[i] by {
            assert(a[i + 1] == b[i + 1]);
        }
        lemma_first_differing_byte_decides(x, y, n - 1);
        assert(a[0] == b[0]);
    }
}

/// Of two paths, the one with the lesser component where they first differ comes first; a
/// path comes before those below it. A component is the root before a dot, before two
/// dots, before any name; names compare by their bytes.
pub proof fn lemma_first_differing_component_decides(a: Seq<Seq<u8>>, b: Seq<Seq<u8>>, n: int)
    requires
        0 <= n <= a.len(),
        n <= b.len(),
        forall|i: int| 0 <= i < n ==> #[trigger] a[i] == b[i],
    ensures
        n == a.len() && n < b.len() ==> components_order(a, b) == Order::Less,
        n < a.len() && n == b.len() ==> components_order(a, b) == Order::Greater,
        n == a.len() && n == b.len() ==> components_order(a, b) == Order::Equal,
        n < a.len() && n < b.len() && a[n] != b[n] ==> ({
            let x = a[n];
            let y = b[n];
            let special = seq![seq![47u8], seq![46u8], seq![46u8, 46u8]];
            let order = components_order(a, b);
            &&& !special.contains(x) && !special.contains(y) ==> order == bytes_order(x, y)
            &&& special.contains(x) && !special.contains(y) ==> order == Order::Less
            &&& !special.contains(x) && special.contains(y) ==> order == Order::Greater
            &&& x == special[0] && y == special[1] ==> order == Order::Less
            &&& x == special[0] && y == special[2] ==> order == Order::Less
            &&& x == special[1] && y == special[2] ==> order == Order::Less
            &&& y == special[0] && x == special[1] ==> order == Order::Greater
            &&& y == special[0] && x == special[2] ==> order == Order::Greater
            &&& y == special[1] && x == special[2] ==> order == Order::Greater
        }),
    decreases n,
{
    if n > 0 {
        let x = a.drop_first();
        let y = b.drop_first();
        assert forall|i: int| 0 <= i < n - 1 implies #[trigger] x[i] == y[i] by {
            assert(a[i + 1] == b[i + 1]);
        }
        lemma_first_differing_component_decides(x, y, n - 1);
        assert(a[0] == b[0]);
        lemma_first_differing_byte_decides(a[0], a[0], a[0].len() as int);
        if n < a.len() && n < b.len() {
            assert(x[n - 1] == a[n] && y[n - 1] == b[n]);
        }
    } else if a.len() > 0 && b.len() > 0 && a[0] != b[0] {
        let special = seq![seq![47u8], seq![46u8], seq![46u8, 46u8]];
        assert(special[0] == seq![47u8] && special[1] == seq![46u8] && special[2] == seq![
            46u8,
            46u8,
        ]);
        assert(special[0].len() == 1 && special[1].len() == 1 && special[2].len() == 2);
        assert(special[0][0] == 47 && special[1][0] == 46);
        assert(special.contains(special[0]) && special.contains(special[1]) && special.contains(
            special[2],
        ));
        assert forall|c: Seq<u8>| special.contains(c) implies c == special[0] || c == special[1]
            || c == special[2] by {
            let k = choose|k: int| 0 <= k < special.len() && special[k] == c;
            assert(k == 0 || k == 1 || k == 2);
        }
        lemma_bytes_order_antisymmetric(a[0], b[0]);
    }
}

/// The empty name comes before every other, and ties with itself.
pub proof fn lemma_empty_name_comes_first(a: Seq<char>)
    ensures
        natural_order(Seq::empty(), Seq::empty()) == Order::Equal,
        a.len() > 0 ==> natural_order(Seq::empty(), a) == Order::Less,
        a.len() > 0 ==> natural_order(a, Seq::empty()) == Order::Greater,
{
    if a.len() > 0 {
        let k = digit_run(a);
        lemma_digit_run(a);
        if 0 < k {
            assert(natural_tokens(a) == seq![NaturalToken::Number(digits_value(a.take(k)))]
                + natural_tokens(a.skip(k)));
        } else {
            assert(a =~= seq![a[0]] + a.skip(1));
            lemma_first_letter(a[0], a.skip(1));
        }
    }
    assert(natural_tokens(Seq::<char>::empty()) =~= Seq::<NaturalToken>::empty());
}

proof fn lemma_first_letter(c: char, s: Seq<char>)
    requires
        !('0' <= c <= '9'),
    ensures
        natural_tokens(seq![c] + s) == seq![NaturalToken::Letter(c)] + natural_tokens(s),
        natural_tokens(seq![c] + s)[0] == NaturalToken::Letter(c),
        natural_tokens(seq![c] + s).drop_first() == natural_tokens(s),
{
    let text = seq![c] + s;
    assert(text[0] == c);
    assert(digit_run(text) == 0);
    assert(text.skip(1) =~= s);
    assert(natural_tokens(text).drop_first() =~= natural_tokens(s));
}

proof fn lemma_run_is_counted(digits: Seq<char>, s: Seq<char>)
    requires
        forall|i: int| 0 <= i < digits.len() ==> '0' <= #[trigger] digits[i] <= '9',
        s.len() > 0 ==> !('0' <= s[0] <= '9'),
    ensures
        digit_run(digits + s) == digits.len(),
    decreases digits.len(),
{
    if digits.len() > 0 {
        let rest = digits.drop_first();
        assert((digits + s)[0] == digits[0]);
        assert((digits + s).drop_first() =~= rest + s);
        lemma_run_is_counted(rest, s);
    } else {
        assert(digits + s =~= s);
    }
}

proof fn lemma_first_number(digits: Seq<char>, s: Seq<char>)
    requires
        digits.len() > 0,
        forall|i: int| 0 <= i < digits.len() ==> '0' <= #[trigger] digits[i] <= '9',
        s.len() > 0 ==> !('0' <= s[0] <= '9'),
    ensures
        natural_tokens(digits + s)[0] == NaturalToken::Number(digits_value(digits)),
        natural_tokens(digits + s).len() > 0,
        natural_tokens(digits + s).drop_first() == natural_tokens(s),
{
    lemma_run_is_counted(digits, s);
    let text = digits + s;
    let k = digit_run(text);
    assert(text.take(k) =~= digits);
    assert(text.skip(k) =~= s);
    assert(natural_tokens(text).drop_first() =~= natural_tokens(s));
}

/// Names that begin with characters that are no digits go by these, and on behind them
/// where they are the same.
pub proof fn lemma_letters_decide(c: char, d: char, s: Seq<char>, t: Seq<char>)
    requires
        !('0' <= c <= '9'),
        !('0' <= d <= '9'),
    ensures
        c < d ==> natural_order(seq![c] + s, seq![d] + t) == Order::Less,
        c > d ==> natural_order(seq![c] + s, seq![d] + t) == Order::Greater,
        c == d ==> natural_order(seq![c] + s, seq![d] + t) == natural_order(s, t),
{
    lemma_first_letter(c, s);
    lemma_first_letter(d, t);
}

/// Names that begin with digits go by the numbers that these write, and on behind them
/// where the numbers are the same, however many zeros lead.
pub proof fn lemma_numbers_decide(x: Seq<char>, y: Seq<char>, s: Seq<char>, t: Seq<char>)
    requires
        x.len() > 0,
        y.len() > 0,
        forall|i: int| 0 <= i < x.len() ==> '0' <= #[trigger] x[i] <= '9',
        forall|i: int| 0 <= i < y.len() ==> '0' <= #[trigger] y[i] <= '9',
        s.len() > 0 ==> !('0' <= s[0] <= '9'),
        t.len() > 0 ==> !('0' <= t[0] <= '9'),
    ensures
        digits_value(x) < digits_value(y) ==> natural_order(x + s, y + t) == Order::Less,
        digits_value(x) > digits_value(y) ==> natural_order(x + s, y + t) == Order::Greater,
        digits_value(x) == digits_value(y) ==> natural_order(x + s, y + t) == natural_order(s, t),
{
    lemma_first_number(x, s);
    lemma_first_number(y, t);
}

/// A number stands among characters where digits do.
pub proof fn lemma_numbers_stand_among_letters(x: Seq<char>, s: Seq<char>, c: char, t: Seq<char>)
    requires
        x.len() > 0,
        forall|i: int| 0 <= i < x.len() ==> '0' <= #[trigger] x[i] <= '9',
        s.len() > 0 ==> !('0' <= s[0] <= '9'),
        !('0' <= c <= '9'),
    ensures
        c < '0' ==> natural_order(x + s, seq![c] + t) == Order::Greater,
        c < '0' ==> natural_order(seq![c] + t, x + s) == Order::Less,
        c > '9' ==> natural_order(x + s, seq![c] + t) == Order::Less,
        c > '9' ==> natural_order(seq![c] + t, x + s) == Order::Greater,
{
    lemma_first_number(x, s);
    lemma_first_letter(c, t);
}

/// Digits write a number in decimal notation.
pub proof fn lemma_digits_are_decimal(digits: Seq<char>, d: char)
    requires
        '0' <= d <= '9',
    ensures
        digits_value(Seq::empty()) == 0,
        digits_value(digits.push(d)) == 10 * digits_value(digits) + (d as int - '0' as int),
{
    assert(digits.push(d).drop_last() =~= digits);
}

/// Groups of larger files come first; of groups with files of one size those with more
/// copies, as long as what these free can be told apart; of groups with equally many
/// those whose first file's relative path comes first by its bytes.
pub proof fn lemma_groups_are_listed(a: DuplicateGroupView, b: DuplicateGroupView)
    requires
        a.files.len() > 0,
        b.files.len() > 0,
    ensures
        a.size > b.size ==> group_order(a, b) == Order::Less,
        a.size < b.size ==> group_order(a, b) == Order::Greater,
        a.size == b.size && a.size > 0 && a.size * (a.files.len() - 1) <= u64::MAX && a.files.len()
            > b.files.len() ==> group_order(a, b) == Order::Less && group_order(b, a)
            == Order::Greater,
        a.size == b.size && a.files.len() == b.files.len() ==> group_order(a, b) == bytes_order(
            encode_utf8(a.files[0].relative),
            encode_utf8(b.files[0].relative),
        ),
{
    lemma_one_copy_is_kept(a);
    lemma_one_copy_is_kept(b);
    let s = a.size as int;
    let m = a.files.len() - 1;
    let n = b.files.len() - 1;
    if a.size == b.size && s > 0 && m > n {
        assert(s * m > s * n) by (nonlinear_arith)
            requires
                s > 0,
                m > n,
        ;
    }
}

/// Files of a group are listed in natural order of their relative paths in lower case;
/// those that tie, by the bytes of the paths.
pub proof fn lemma_members_are_listed(a: DuplicateFileView, b: DuplicateFileView)
    ensures
        ({
            let order = natural_order(lowercase_text(a.relative), lowercase_text(b.relative));
            &&& order != Order::Equal ==> member_order(a, b) == order
            &&& order == Order::Equal ==> member_order(a, b) == bytes_order(
                encode_utf8(a.relative),
                encode_utf8(b.relative),
            )
        }),
{
}

/// Files of up to 256 KiB are examined first; then, where three or more share a size,
/// files of up to 64 MiB; then the rest of up to 512 MiB; then larger ones.
pub proof fn lemma_cheap_files_are_examined_first(a: Seq<CandidateView>, b: Seq<CandidateView>)
    requires
        a.len() > 0,
        b.len() > 0,
    ensures
        ({
            let x = a[0].file.size;
            let y = b[0].file.size;
            let order = priority_order(bucket_priority(a), bucket_priority(b));
            &&& x <= 262144 && y > 262144 ==> order == Order::Less
            &&& 262144 < x <= 67108864 && a.len() >= 3 && y > 262144 && (y > 67108864 || b.len()
                < 3) ==> order == Order::Less
            &&& x <= 536870912 && y > 536870912 ==> order == Order::Less
        }),
{
}

/// Among files that are equally cheap, sizes that more files share are examined first,
/// and of sizes that equally many share the smaller one.
pub proof fn lemma_shared_sizes_are_examined_first(a: Seq<CandidateView>, b: Seq<CandidateView>)
    requires
        0 < a.len() <= usize::MAX,
        0 < b.len() <= usize::MAX,
        ({
            let x = a[0].file.size;
            let y = b[0].file.size;
            ||| x <= 262144 && y <= 262144
            ||| 262144 < x <= 67108864 && 262144 < y <= 67108864 && a.len() >= 3 && b.len() >= 3
            ||| 67108864 < x <= 536870912 && 67108864 < y <= 536870912
            ||| 262144 < x <= 536870912 && 262144 < y <= 536870912 && a.len() < 3 && b.len() < 3
            ||| x > 536870912 && y > 536870912
        }),
    ensures
        ({
            let x = a[0].file.size;
            let y = b[0].file.size;
            let order = priority_order(bucket_priority(a), bucket_priority(b));
            &&& a.len() > b.len() ==> order == Order::Less
            &&& a.len() < b.len() ==> order == Order::Greater
            &&& a.len() == b.len() && x < y && y * a.len() <= u64::MAX ==> order == Order::Less
            &&& a.len() == b.len() && x == y ==> order == Order::Equal
        }),
{
    let x = a[0].file.size as int;
    let y = b[0].file.size as int;
    let n = a.len() as int;
    if x < y {
        assert(x * n < y * n) by (nonlinear_arith)
            requires
                x < y,
                n > 0,
        ;
    }
}

/// How much there is to read for a size, and how much it could free, are the size times
/// the files, and times all of them but one, as far as 64 bits go.
pub proof fn lemma_cost_is_what_is_read(files: Seq<CandidateView>)
    requires
        0 < files.len() <= usize::MAX,
    ensures
        ({
            let size = files[0].file.size;
            let priority = bucket_priority(files);
            &&& priority.size == size
            &&& priority.len == files.len()
            &&& size * files.len() <= u64::MAX ==> priority.read_bytes == size * files.len()
                && priority.duplicate_bytes + size == priority.read_bytes
            &&& size * files.len() > u64::MAX ==> priority.read_bytes == u64::MAX
            &&& size * (files.len() - 1) > u64::MAX ==> priority.duplicate_bytes == u64::MAX
        }),
{
    let size = files[0].file.size as int;
    let n = files.len() as int;
    assert(size * (n - 1) + size == size * n) by (nonlinear_arith);
    assert(size * (n - 1) >= 0) by (nonlinear_arith)
        requires
            size >= 0,
            n >= 1,
    ;
}

/// Something is handed on at once, and then again when 120 milliseconds have passed.
pub proof fn lemma_results_are_due(then: u64, now: u64)
    ensures
        is_due(None, now),
        is_due(Some(then), now) <==> now - then >= 120000000,
{
}

/// A quick look at a file takes in its size, in eight bytes from the lowest on, and all
/// of it where it has at most 64 KiB, else its first and its last 64 KiB.
pub proof fn lemma_quick_look_takes_in_both_ends(content: Seq<u8>)
    ensures
        content.len() <= 65536 ==> glimpse(content) == le_bytes(content.len(), 8) + content,
        content.len() > 65536 ==> glimpse(content) == le_bytes(content.len(), 8)
            + content.subrange(0, 65536) + content.subrange(
            content.len() - 65536,
            content.len() as int,
        ),
{
    if content.len() > 65536 {
        assert(content.take(65536) =~= content.subrange(0, 65536));
        assert(content.skip(content.len() - 65536) =~= content.subrange(
            content.len() - 65536,
            content.len() as int,
        ));
    }
}

/// The end of a file counts for a quick look exactly where the file has more than 64 KiB.
pub proof fn lemma_end_counts_for_large_files(size: u64, first: Seq<u8>, last: Seq<u8>)
    ensures
        size <= 65536 ==> partial_input(size, first, last) == le_bytes(size as nat, 8) + first,
        size > 65536 ==> partial_input(size, first, last) == le_bytes(size as nat, 8) + first
            + last,
{
    assert(le_bytes(size as nat, 8) + first + Seq::<u8>::empty() =~= le_bytes(size as nat, 8)
        + first);
}

/// A group without files comes before one with files of the same size, unless that frees
/// more, and ties with another one without.
pub proof fn lemma_empty_groups_come_first(a: DuplicateGroupView, b: DuplicateGroupView)
    requires
        a.files.len() == 0,
        a.size == b.size,
    ensures
        b.files.len() == 0 ==> group_order(a, b) == Order::Equal,
        b.files.len() == 1 ==> group_order(a, b) == Order::Less && group_order(b, a)
            == Order::Greater,
{
    lemma_one_copy_is_kept(a);
    lemma_one_copy_is_kept(b);
    assert(b.size * 0 == 0) by (nonlinear_arith);
}

/// Of sizes that equally many files share and that cost more to read than 64 bits can
/// tell, the one that could free more is examined first, and where that cannot be told
/// either, the smaller one.
pub proof fn lemma_huge_sizes_are_examined(a: Seq<CandidateView>, b: Seq<CandidateView>)
    requires
        0 < a.len() == b.len() <= usize::MAX,
        536870912 < a[0].file.size < b[0].file.size,
        a[0].file.size * a.len() > u64::MAX,
    ensures
        ({
            let order = priority_order(bucket_priority(a), bucket_priority(b));
            let freed = a[0].file.size * (a.len() - 1);
            &&& freed < u64::MAX && a.len() > 1 ==> order == Order::Greater
            &&& freed >= u64::MAX ==> order == Order::Less
        }),
{
    let x = a[0].file.size as int;
    let y = b[0].file.size as int;
    let n = a.len() as int;
    assert(x * n < y * n) by (nonlinear_arith)
        requires
            x < y,
            n > 0,
    ;
    if n > 1 {
        assert(x * (n - 1) < y * (n - 1)) by (nonlinear_arith)
            requires
                x < y,
                n > 1,
        ;
    }
    assert(x * 0 == 0 && y * 0 == 0) by (nonlinear_arith);
}

/// Files are read in pieces of a MiB, and groups are first asked for with room for 16.
pub proof fn lemma_first_buffers()
    ensures
        HASH_CHUNK_SIZE == 1048576,
        INITIAL_CAPACITY == 16,
{
}

} // verus!
