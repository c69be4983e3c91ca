//! What holds of the operations on text, whatever they are used for.

use crate::order::Ordered;
use crate::path;
use crate::text;
use vstd::prelude::*;

verus! {

/// Joined texts can be joined in two steps; one text is joined to itself, and none to nothing.
pub proof fn law_joining_in_two_steps(
    a: Seq<Seq<char>>,
    b: Seq<Seq<char>>,
    one: Seq<char>,
    separator: Seq<char>,
)
    requires
        a.len() > 0,
        b.len() > 0,
    ensures
        text::joined(a + b, separator) == text::joined(a, separator) + separator + text::joined(
            b,
            separator,
        ),
        text::joined(seq![one], separator) == one,
        text::joined(Seq::empty(), separator).len() == 0,
    decreases b.len(),
{
    let whole = a + b;
    assert(whole.drop_last() =~= a + b.drop_last());
    assert(whole.last() == b.last());
    if b.len() == 1 {
        assert(whole.drop_last() =~= a);
        assert(b[0] == b.last());
    } else {
        law_joining_in_two_steps(a, b.drop_last(), one, separator);
        assert(text::joined(whole, separator) =~= text::joined(a, separator) + separator
            + text::joined(b, separator));
    }
}

/// The number that a digit stands for; none for another character.
pub open spec fn digit_value(c: char) -> Option<nat> {
    match c {
        '0' => Some(0),
        '1' => Some(1),
        '2' => Some(2),
        '3' => Some(3),
        '4' => Some(4),
        '5' => Some(5),
        '6' => Some(6),
        '7' => Some(7),
        '8' => Some(8),
        '9' => Some(9),
        _ => None,
    }
}

/// The number that a text of digits stands for; none for the empty text, or with another
/// character in it.
pub open spec fn number(t: Seq<char>) -> Option<nat>
    decreases t.len(),
{
    if t.len() == 0 {
        None
    } else if t.len() == 1 {
        digit_value(t[0])
    } else {
        match (number(t.drop_last()), digit_value(t.last())) {
            (Some(n), Some(d)) => Some(10 * n + d),
            _ => None,
        }
    }
}

proof fn lemma_digit_value(d: nat)
    requires
        d < 10,
    ensures
        digit_value(text::digit(d)) == Some(d),
        text::digit(d) == '0' <==> d == 0,
{
    assert(digit_value(text::digit(0)) == Some(0nat));
    assert(digit_value(text::digit(1)) == Some(1nat));
    assert(digit_value(text::digit(2)) == Some(2nat));
    assert(digit_value(text::digit(3)) == Some(3nat));
    assert(digit_value(text::digit(4)) == Some(4nat));
    assert(digit_value(text::digit(5)) == Some(5nat));
    assert(digit_value(text::digit(6)) == Some(6nat));
    assert(digit_value(text::digit(7)) == Some(7nat));
    assert(digit_value(text::digit(8)) == Some(8nat));
    assert(digit_value(text::digit(9)) == Some(9nat));
}

/// A number that is written in decimal reads as itself, and only zero starts with a zero.
pub proof fn law_decimals_read_back(n: nat)
    ensures
        number(text::decimal(n)) == Some(n),
        text::decimal(n)[0] == '0' <==> n == 0,
    decreases n,
{
    if n < 10 {
        lemma_digit_value(n);
    } else {
        law_decimals_read_back(n / 10);
        lemma_digit_value(n % 10);
        let t = text::decimal(n);
        assert(t.drop_last() =~= text::decimal(n / 10));
        assert(text::decimal(n / 10).len() > 0);
        assert(t[0] == text::decimal(n / 10)[0]);
        assert(10 * (n / 10) + n % 10 == n);
    }
}

/// A negative number is written with one `-` ahead of its decimals, another number without.
pub proof fn law_signs_stand_ahead(i: int)
    ensures
        i >= 0 ==> number(text::signed_decimal(i)) == Some(i as nat),
        i < 0 ==> text::signed_decimal(i)[0] == '-' && number(
            text::signed_decimal(i).drop_first(),
        ) == Some((-i) as nat),
        i < 0 ==> text::signed_decimal(i).drop_first()[0] != '0',
{
    if i >= 0 {
        law_decimals_read_back(i as nat);
    } else {
        law_decimals_read_back((-i) as nat);
        assert(text::signed_decimal(i).drop_first() =~= text::decimal((-i) as nat));
    }
}

/// Numbers that are filled up to a width read as themselves, and have at least that width; more
/// only if their decimals have.
pub proof fn law_padded_decimals_read_back(n: nat, width: nat)
    ensures
        number(text::padded_decimal(n, width)) == Some(n),
        text::padded_decimal(n, width).len() >= width,
        text::padded_decimal(n, width).len() > width ==> text::padded_decimal(n, width)
            == text::decimal(n),
{
    law_decimals_read_back(n);
    if text::decimal(n).len() < width {
        lemma_zeros_ahead((width - text::decimal(n).len()) as nat, text::decimal(n));
    }
}

proof fn lemma_zeros_ahead(count: nat, t: Seq<char>)
    requires
        number(t) is Some,
    ensures
        number(text::zeros(count) + t) == number(t),
    decreases t.len(), count,
{
    let whole = text::zeros(count) + t;
    if t.len() == 1 {
        if count > 0 {
            assert(whole.drop_last() =~= text::zeros(count));
            assert(whole.last() == t[0]);
            lemma_only_zeros(count);
        } else {
            assert(whole =~= t);
        }
    } else {
        lemma_zeros_ahead(count, t.drop_last());
        assert(whole.drop_last() =~= text::zeros(count) + t.drop_last());
        assert(whole.last() == t.last());
    }
}

proof fn lemma_only_zeros(count: nat)
    requires
        count > 0,
    ensures
        number(text::zeros(count)) == Some(0nat),
    decreases count,
{
    if count > 1 {
        lemma_only_zeros((count - 1) as nat);
        assert(text::zeros(count).drop_last() =~= text::zeros((count - 1) as nat));
    }
}

/// Replacing goes character by character: in each part of a text for itself, and in one
/// character by putting the new text in its place, or leaving it.
pub proof fn law_replacing_goes_by_character(
    a: Seq<char>,
    b: Seq<char>,
    c: char,
    from: char,
    to: Seq<char>,
)
    ensures
        text::replaced(a + b, from, to) == text::replaced(a, from, to) + text::replaced(b, from, to),
        text::replaced(seq![from], from, to) == to,
        c != from ==> text::replaced(seq![c], from, to) == seq![c],
{
    path::lemma_replaced_concat(a, b, from, to);
    reveal_with_fuel(text::replaced, 2);
    assert(seq![c].drop_last() =~= Seq::empty());
    assert(seq![from].drop_last() =~= Seq::empty());
    assert(text::replaced(seq![from], from, to) =~= to);
    if c != from {
        assert(text::replaced(seq![c], from, to) =~= seq![c]);
    }
}

/// All characters of a text are white space.
pub open spec fn all_white(t: Seq<char>) -> bool {
    forall|i: int| 0 <= i < t.len() ==> text::is_white(#[trigger] t[i])
}

/// White space around a text that neither starts nor ends with it is all that trimming takes
/// away, and of white space alone nothing is left.
pub proof fn law_trimming_takes_white_space(a: Seq<char>, t: Seq<char>, b: Seq<char>)
    requires
        all_white(a),
        all_white(b),
        t.len() > 0 ==> !text::is_white(t[0]) && !text::is_white(t.last()),
    ensures
        text::trimmed(a + t + b) == t,
    decreases a.len() + b.len(),
{
    let whole = a + t + b;
    if a.len() > 0 {
        assert(text::is_white(a[0]));
        assert(whole[0] == a[0]);
        assert(whole.drop_first() =~= a.drop_first() + t + b);
        assert forall|i: int| 0 <= i < a.drop_first().len() implies text::is_white(
            #[trigger] a.drop_first()[i],
        ) by {
            assert(a.drop_first()[i] == a[i + 1]);
        }
        law_trimming_takes_white_space(a.drop_first(), t, b);
    } else if t.len() > 0 {
        assert(whole =~= t + b);
        assert(whole[0] == t[0]);
        assert(text::trim_start(whole) == whole);
        lemma_trim_end(t, b);
    } else if b.len() > 0 {
        assert(whole =~= b);
        assert(text::is_white(b[0]));
        assert forall|i: int| 0 <= i < b.drop_first().len() implies text::is_white(
            #[trigger] b.drop_first()[i],
        ) by {
            assert(b.drop_first()[i] == b[i + 1]);
        }
        assert(b.drop_first() =~= a + t + b.drop_first());
        law_trimming_takes_white_space(a, t, b.drop_first());
    } else {
        assert(whole =~= t);
    }
}

proof fn lemma_trim_end(t: Seq<char>, b: Seq<char>)
    requires
        t.len() > 0,
        !text::is_white(t.last()),
        all_white(b),
    ensures
        text::trim_end(t + b) == t,
    decreases b.len(),
{
    if b.len() > 0 {
        assert(text::is_white(b[b.len() - 1]));
        assert((t + b).last() == b.last());
        assert((t + b).drop_last() =~= t + b.drop_last());
        assert forall|i: int| 0 <= i < b.drop_last().len() implies text::is_white(
            #[trigger] b.drop_last()[i],
        ) by {
            assert(b.drop_last()[i] == b[i]);
        }
        lemma_trim_end(t, b.drop_last());
    } else {
        assert(t + b =~= t);
    }
}

/// Space, tabs, line ends and the other separators of Unicode are white space; letters, digits
/// and signs are not.
pub proof fn law_white_space(c: char)
    ensures
        text::is_white(c) <==> c == ' ' || ('\t' <= c <= '\r') || c == '\u{85}' || c == '\u{A0}' || c
            == '\u{1680}' || ('\u{2000}' <= c <= '\u{200A}') || c == '\u{2028}' || c == '\u{2029}' || c
            == '\u{202F}' || c == '\u{205F}' || c == '\u{3000}',
        text::is_white(c) ==> c == ' ' || c == '\t' || c == '\n' || c == '\r' || c == '\x0b' || c
            == '\x0c' || c as u32 >= 0x80,
        text::is_white(' ') && text::is_white('\t') && text::is_white('\n') && text::is_white('\r')
            && text::is_white('\x0b') && text::is_white('\x0c'),
        text::is_white('\u{85}') && text::is_white('\u{A0}') && text::is_white('\u{1680}')
            && text::is_white('\u{2000}') && text::is_white('\u{2005}') && text::is_white('\u{200A}')
            && text::is_white('\u{2028}') && text::is_white('\u{2029}') && text::is_white('\u{202F}')
            && text::is_white('\u{205F}') && text::is_white('\u{3000}'),
        !text::is_white('\u{200B}') && !text::is_white('\u{FEFF}') && !text::is_white('\0'),
{
}

/// As many of `c` as there are at one end of a text are taken off there, and nothing else.
pub proof fn law_ends_are_taken_off(n: nat, t: Seq<char>, c: char)
    ensures
        t.len() == 0 || t.last() != c ==> text::without_tail(t + Seq::new(n, |i: int| c), c) == t,
        t.len() == 0 || t[0] != c ==> text::without_head(Seq::new(n, |i: int| c) + t, c) == t,
    decreases n,
{
    let run = Seq::new(n, |i: int| c);
    if n == 0 {
        assert(t + run =~= t);
        assert(run + t =~= t);
    } else {
        let less = Seq::new((n - 1) as nat, |i: int| c);
        law_ends_are_taken_off((n - 1) as nat, t, c);
        assert((t + run).drop_last() =~= t + less);
        assert((run + t).drop_first() =~= less + t);
    }
}

/// A text starts with a head, and ends with a tail, exactly if it is that and something more.
pub proof fn law_heads_and_tails(whole: Seq<char>, part: Seq<char>, rest: Seq<char>)
    ensures
        text::has_prefix(part + rest, part),
        text::has_suffix(rest + part, part),
        text::has_prefix(whole, part) ==> whole == part + whole.skip(part.len() as int),
        text::has_suffix(whole, part) ==> whole == whole.take(whole.len() - part.len()) + part,
{
    assert((part + rest).take(part.len() as int) =~= part);
    assert((rest + part).skip((rest + part).len() - part.len()) =~= part);
    if text::has_prefix(whole, part) {
        assert(whole =~= whole.take(part.len() as int) + whole.skip(part.len() as int));
    }
    if text::has_suffix(whole, part) {
        let n = whole.len() - part.len();
        assert(whole =~= whole.take(n) + whole.skip(n));
    }
}

/// Texts are ordered by the code point at the first place where they differ; a text comes ahead of
/// those that go on behind it.
pub proof fn law_texts_are_ordered_by_code_points(a: Seq<char>, b: Seq<char>, i: int)
    requires
        0 <= i <= a.len(),
        i < b.len(),
        a.take(i) == b.take(i),
    ensures
        i < a.len() && (a[i] as int) < (b[i] as int) ==> a.before(b) && !b.before(a),
        i == a.len() ==> a.before(b) && !b.before(a),
        !a.before(a),
    decreases i,
{
    Ordered::irreflexive(a);
    if i > 0 {
        assert(a.take(i)[0] == a[0] && b.take(i)[0] == b[0]);
        let c = a.drop_first();
        let d = b.drop_first();
        assert(c.take(i - 1) =~= a.take(i).drop_first());
        assert(d.take(i - 1) =~= b.take(i).drop_first());
        law_texts_are_ordered_by_code_points(c, d, i - 1);
    }
}

} // verus!
