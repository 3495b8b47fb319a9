//! Names in the order in which people list them: runs of digits by their value.

use crate::order::{ascending, first_difference, Order};
use crate::text::{chars_of, digits_value, is_digit};
use vstd::prelude::*;
use vstd::slice::slice_subrange;

verus! {

/// A piece of a name: a run of digits or a single other character.
pub enum NaturalToken {
    Number(nat),
    Letter(char),
}

/// How many digits a text begins with.
pub open spec fn digit_run(s: Seq<char>) -> int
    decreases s.len(),
{
    if s.len() == 0 || !is_digit(s[0]) {
        0
    } else {
        1 + digit_run(s.drop_first())
    }
}

/// The pieces of a name.
pub open spec fn natural_tokens(s: Seq<char>) -> Seq<NaturalToken>
    decreases s.len(),
{
    let k = digit_run(s);
    if s.len() == 0 {
        Seq::empty()
    } else if 0 < k <= s.len() {
        seq![NaturalToken::Number(digits_value(s.take(k)))] + natural_tokens(s.skip(k))
    } else {
        seq![NaturalToken::Letter(s[0])] + natural_tokens(s.skip(1))
    }
}

/// Where a piece stands among all pieces: numbers where digits stand among the
/// characters, by their value.
pub open spec fn token_rank(token: NaturalToken) -> (int, int) {
    match token {
        NaturalToken::Number(value) => (1, value as int),
        NaturalToken::Letter(c) => if '0' > c {
            (0, c as int)
        } else {
            (2, c as int)
        },
    }
}

pub open spec fn token_order(a: NaturalToken, b: NaturalToken) -> Order {
    first_difference(
        ascending(token_rank(a).0, token_rank(b).0),
        ascending(token_rank(a).1, token_rank(b).1),
    )
}

/// Dictionary order on pieces: the first difference decides, and a proper
/// prefix comes first.
pub open spec fn tokens_order(a: Seq<NaturalToken>, b: Seq<NaturalToken>) -> Order
    decreases a.len(),
{
    if a.len() == 0 {
        if b.len() == 0 {
            Order::Equal
        } else {
            Order::Less
        }
    } else if b.len() == 0 {
        Order::Greater
    } else {
        first_difference(token_order(a[0], b[0]), tokens_order(a.drop_first(), b.drop_first()))
    }
}

/// How two names compare.
pub open spec fn natural_order(a: Seq<char>, b: Seq<char>) -> Order {
    tokens_order(natural_tokens(a), natural_tokens(b))
}

proof fn lemma_tokens_antisymmetric(a: Seq<NaturalToken>, b: Seq<NaturalToken>)
    ensures
        tokens_order(a, b) == Order::Less <==> tokens_order(b, a) == Order::Greater,
        tokens_order(a, b) == Order::Equal <==> tokens_order(b, a) == Order::Equal,
    decreases a.len(),
{
    if a.len() > 0 && b.len() > 0 {
        lemma_tokens_antisymmetric(a.drop_first(), b.drop_first());
    }
}

proof fn lemma_tokens_transitive(
    a: Seq<NaturalToken>,
    b: Seq<NaturalToken>,
    c: Seq<NaturalToken>,
)
    requires
        tokens_order(a, b) != Order::Greater,
        tokens_order(b, c) != Order::Greater,
    ensures
        tokens_order(a, c) != Order::Greater,
        tokens_order(a, c) == Order::Equal ==> tokens_order(a, b) == Order::Equal
            && tokens_order(b, c) == Order::Equal,
    decreases a.len(),
{
    if a.len() > 0 && b.len() > 0 && c.len() > 0 {
        if token_order(a[0], b[0]) == Order::Equal && token_order(b[0], c[0]) == Order::Equal {
            lemma_tokens_transitive(a.drop_first(), b.drop_first(), c.drop_first());
        }
    }
}

/// Swapping the sides swaps the outcome.
pub proof fn lemma_natural_order_antisymmetric(a: Seq<char>, b: Seq<char>)
    ensures
        natural_order(a, b) == Order::Less <==> natural_order(b, a) == Order::Greater,
        natural_order(a, b) == Order::Equal <==> natural_order(b, a) == Order::Equal,
{
    lemma_tokens_antisymmetric(natural_tokens(a), natural_tokens(b));
}

/// Natural order is transitive, and names tie only with names that tie with
/// each other.
pub proof fn lemma_natural_order_transitive(a: Seq<char>, b: Seq<char>, c: Seq<char>)
    requires
        natural_order(a, b) != Order::Greater,
        natural_order(b, c) != Order::Greater,
    ensures
        natural_order(a, c) != Order::Greater,
        natural_order(a, c) == Order::Equal ==> natural_order(a, b) == Order::Equal
            && natural_order(b, c) == Order::Equal,
{
    lemma_tokens_transitive(natural_tokens(a), natural_tokens(b), natural_tokens(c));
}

pub proof fn lemma_digit_run(s: Seq<char>)
    ensures
        0 <= digit_run(s) <= s.len(),
        forall|i: int| 0 <= i < digit_run(s) ==> is_digit(#[trigger] s[i]),
        digit_run(s) < s.len() ==> !is_digit(s[digit_run(s)]),
    decreases s.len(),
{
    if s.len() > 0 && is_digit(s[0]) {
        let t = s.drop_first();
        lemma_digit_run(t);
        assert forall|i: int| 0 <= i < digit_run(s) implies is_digit(#[trigger] s[i]) by {
            if i > 0 {
                assert(is_digit(t[i - 1]));
            }
        }
    }
}

/// A piece of a name, a number by its digits.
#[derive(Debug)]
enum Piece {
    Number(Vec<char>),
    Letter(char),
}

impl View for Piece {
    type V = NaturalToken;

    closed spec fn view(&self) -> NaturalToken {
        match *self {
            Piece::Number(digits) => NaturalToken::Number(digits_value(digits@)),
            Piece::Letter(c) => NaturalToken::Letter(c),
        }
    }
}

spec fn pieces_view(pieces: Seq<Piece>) -> Seq<NaturalToken> {
    pieces.map_values(|p: Piece| p@)
}

/// Numbers hold digits and letters are none.
spec fn proper(pieces: Seq<Piece>) -> bool {
    forall|i: int| 0 <= i < pieces.len() ==> proper_piece(#[trigger] pieces[i])
}

spec fn proper_piece(piece: Piece) -> bool {
    match piece {
        Piece::Number(digits) => all_digits(digits@),
        Piece::Letter(c) => !is_digit(c),
    }
}

spec fn all_digits(s: Seq<char>) -> bool {
    forall|i: int| 0 <= i < s.len() ==> is_digit(#[trigger] s[i])
}

fn digit_value(c: char) -> (r: u32)
    requires
        is_digit(c),
    ensures
        r == c as int - 48,
        r < 10,
{
    c as u32 - 48
}

/// The digits of `s` among the first `i` of `width`, where `s` is filled up with
/// zeros on the left.
spec fn aligned(s: Seq<char>, i: int, width: int) -> Seq<char> {
    if i <= width - s.len() {
        Seq::empty()
    } else {
        s.take(i - (width - s.len()))
    }
}

fn aligned_digit(s: &Vec<char>, i: usize, width: usize) -> (r: u32)
    requires
        all_digits(s@),
        s@.len() <= width,
        i < width,
    ensures
        r < 10,
        digits_value(aligned(s@, i + 1, width as int)) == digits_value(
            aligned(s@, i as int, width as int),
        ) * 10 + r,
{
    let pad: usize = width - s.len();
    if i < pad {
        assert(aligned(s@, i + 1, width as int) =~= Seq::<char>::empty());
        0
    } else {
        let c: char = s[i - pad];
        proof {
            let next = aligned(s@, i + 1, width as int);
            assert(is_digit(s@[i - pad]));
            assert(next.last() == c);
            assert(next.drop_last() =~= aligned(s@, i as int, width as int));
        }
        digit_value(c)
    }
}

fn compare_values(a: &Vec<char>, b: &Vec<char>) -> (r: Order)
    requires
        all_digits(a@),
        all_digits(b@),
    ensures
        r == ascending(digits_value(a@) as int, digits_value(b@) as int),
{
    let width: usize = if a.len() < b.len() {
        b.len()
    } else {
        a.len()
    };
    let mut order: Order = Order::Equal;
    let mut i: usize = 0;
    while i < width
        invariant
            all_digits(a@),
            all_digits(b@),
            i <= width,
            a@.len() <= width,
            b@.len() <= width,
            order == ascending(
                digits_value(aligned(a@, i as int, width as int)) as int,
                digits_value(aligned(b@, i as int, width as int)) as int,
            ),
        decreases width - i,
    {
        let x: u32 = aligned_digit(a, i, width);
        let y: u32 = aligned_digit(b, i, width);
        if order == Order::Equal {
            order = if x < y {
                Order::Less
            } else if x == y {
                Order::Equal
            } else {
                Order::Greater
            };
        }
        i = i + 1;
    }
    assert(aligned(a@, width as int, width as int) =~= a@);
    assert(aligned(b@, width as int, width as int) =~= b@);
    order
}

fn compare_chars(a: char, b: char) -> (r: Order)
    ensures
        r == ascending(a as int, b as int),
{
    if a < b {
        Order::Less
    } else if a == b {
        Order::Equal
    } else {
        Order::Greater
    }
}

fn compare_pieces(a: &Piece, b: &Piece) -> (r: Order)
    requires
        proper_piece(*a),
        proper_piece(*b),
    ensures
        r == token_order(a@, b@),
{
    match (a, b) {
        (Piece::Number(x), Piece::Number(y)) => compare_values(x, y),
        (Piece::Number(_), Piece::Letter(c)) => if '0' > *c {
            Order::Greater
        } else {
            Order::Less
        },
        (Piece::Letter(c), Piece::Number(_)) => if '0' > *c {
            Order::Less
        } else {
            Order::Greater
        },
        (Piece::Letter(c), Piece::Letter(d)) => compare_chars(*c, *d),
    }
}

fn letter_at(chars: &Vec<char>, i: usize) -> (r: Piece)
    requires
        i < chars@.len(),
    ensures
        r == Piece::Letter(chars@[i as int]),
{
    Piece::Letter(chars[i])
}

fn pieces_of(text: &str) -> (r: Vec<Piece>)
    ensures
        proper(r@),
        pieces_view(r@) == natural_tokens(text@),
{
    let chars: Vec<char> = chars_of(text);
    let mut out: Vec<Piece> = Vec::new();
    let mut i: usize = 0;
    assert(text@.skip(0) =~= text@);
    assert(pieces_view(out@) + natural_tokens(text@.skip(0)) =~= natural_tokens(text@));
    while i < chars.len()
        invariant
            chars@ == text@,
            i <= chars@.len(),
            proper(out@),
            pieces_view(out@) + natural_tokens(text@.skip(i as int)) == natural_tokens(text@),
        decreases chars@.len() - i,
    {
        let ghost rest = text@.skip(i as int);
        let ghost before = out@;
        let mut end: usize = i;
        while end < chars.len() && '0' <= chars[end] && chars[end] <= '9'
            invariant
                chars@ == text@,
                rest == text@.skip(i as int),
                i <= end <= chars@.len(),
                forall|j: int| 0 <= j < end - i ==> is_digit(#[trigger] rest[j]),
            decreases chars@.len() - end,
        {
            end = end + 1;
        }
        proof {
            lemma_digit_run(rest);
            let k = digit_run(rest);
            let e = end - i;
            if k < e {
                assert(is_digit(rest[k]));
            } else if e < k {
                assert(is_digit(rest[e]));
            }
        }
        let next: usize;
        let piece: Piece;
        if end > i {
            let digits: Vec<char> = vstd::slice::slice_to_vec(
                slice_subrange(chars.as_slice(), i, end),
            );
            proof {
                assert(digits@ =~= rest.take(end - i));
                assert(all_digits(digits@)) by {
                    assert forall|j: int| 0 <= j < digits@.len() implies is_digit(
                        #[trigger] digits@[j],
                    ) by {
                        assert(is_digit(rest[j]));
                    }
                }
                assert(rest.skip(end - i) =~= text@.skip(end as int));
            }
            piece = Piece::Number(digits);
            next = end;
        } else {
            piece = letter_at(&chars, i);
            next = i + 1;
            assert(rest.skip(1) =~= text@.skip(next as int));
        }
        let ghost token = piece@;
        assert(natural_tokens(rest) =~= seq![token] + natural_tokens(text@.skip(next as int)));
        out.push(piece);
        i = next;
        proof {
            assert(pieces_view(out@) =~= pieces_view(before).push(token));
            assert(pieces_view(out@) + natural_tokens(text@.skip(i as int)) =~= pieces_view(before)
                + natural_tokens(rest));
        }
    }
    assert(natural_tokens(text@.skip(i as int)) =~= Seq::<NaturalToken>::empty());
    assert(pieces_view(out@) =~= natural_tokens(text@));
    out
}

/// Compares two names in natural order.
pub fn natural_compare(a: &str, b: &str) -> (r: Order)
    ensures
        r == natural_order(a@, b@),
{
    let left: Vec<Piece> = pieces_of(a);
    let right: Vec<Piece> = pieces_of(b);
    let ghost x = pieces_view(left@);
    let ghost y = pieces_view(right@);
    let mut i: usize = 0;
    assert(x.skip(0) =~= x);
    assert(y.skip(0) =~= y);
    while i < left.len() && i < right.len()
        invariant
            i <= left@.len(),
            i <= right@.len(),
            proper(left@),
            proper(right@),
            x == pieces_view(left@),
            y == pieces_view(right@),
            natural_order(a@, b@) == tokens_order(x.skip(i as int), y.skip(i as int)),
        decreases left@.len() - i,
    {
        let order: Order = compare_pieces(&left[i], &right[i]);
        proof {
            assert(x.skip(i as int)[0] == left@[i as int]@);
            assert(y.skip(i as int)[0] == right@[i as int]@);
            assert(x.skip(i as int).drop_first() =~= x.skip(i + 1));
            assert(y.skip(i as int).drop_first() =~= y.skip(i + 1));
        }
        if order != Order::Equal {
            return order;
        }
        i = i + 1;
    }
    if i < right.len() {
        Order::Less
    } else if i < left.len() {
        Order::Greater
    } else {
        Order::Equal
    }
}

} // verus!
