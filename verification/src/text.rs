//! Operations on text, specified over the sequence of its characters.

use crate::order;
use crate::order::Ordered;
use crate::ordmap;
use crate::ordmap::{from_pairs, Key};
use vstd::prelude::*;

verus! {

/// Decides the lexicographic order by code points.
pub fn text_precedes(a: &str, b: &str) -> (r: bool)
    ensures
        r == a@.before(b@),
{
    let mut y = b.chars();
    assert(a@.skip(0) =~= a@);
    for c in it: a.chars()
        invariant
            it.seq() == a@,
            order::lex_before(a@, b@) == order::lex_before(
                a@.skip(it.index() as int),
                vstd::std_specs::iter::IteratorSpec::remaining(&y),
            ),
    {
        assert(a@.skip(it.index() as int).drop_first() =~= a@.skip(it.index() as int + 1));
        match y.next() {
            None => {
                return false;
            },
            Some(d) => {
                if c != d {
                    return c < d;
                }
            },
        }
    }
    assert(a@.skip(a@.len() as int) =~= Seq::empty());
    match y.next() {
        None => false,
        Some(_) => true,
    }
}

/// Decides whether two texts are the same.
pub fn same_text(a: &str, b: &str) -> (r: bool)
    ensures
        r == (a@ == b@),
{
    let mut y = b.chars();
    assert(b@.skip(0) =~= b@);
    for c in it: a.chars()
        invariant
            it.seq() == a@,
            it.index() <= b@.len(),
            b@.take(it.index() as int) == a@.take(it.index() as int),
            vstd::std_specs::iter::IteratorSpec::remaining(&y) == b@.skip(it.index() as int),
    {
        let ghost n = it.index() as int;
        match y.next() {
            None => {
                assert(b@.len() == n);
                return false;
            },
            Some(d) => {
                assert(b@.skip(n).drop_first() =~= b@.skip(n + 1));
                if c != d {
                    assert(a@[n] != b@[n]);
                    return false;
                }
                assert(b@.take(n + 1) =~= b@.take(n).push(d));
                assert(a@.take(n + 1) =~= a@.take(n).push(d));
            },
        }
    }
    assert(a@.take(a@.len() as int) =~= a@);
    match y.next() {
        None => {
            assert(b@.take(b@.len() as int) =~= b@);
            true
        },
        Some(_) => false,
    }
}

impl Key for String {
    type Model = Seq<char>;

    open spec fn model(&self) -> Seq<char> {
        self@
    }

    fn precedes(&self, other: &Self) -> (r: bool) {
        text_precedes(self.as_str(), other.as_str())
    }
}

impl Key for usize {
    type Model = nat;

    open spec fn model(&self) -> nat {
        *self as nat
    }

    fn precedes(&self, other: &Self) -> (r: bool) {
        assert(self.model().before(other.model()) == ((*self as nat) < (*other as nat)));
        *self < *other
    }
}

impl Key for u64 {
    type Model = nat;

    open spec fn model(&self) -> nat {
        *self as nat
    }

    fn precedes(&self, other: &Self) -> (r: bool) {
        assert(self.model().before(other.model()) == ((*self as nat) < (*other as nat)));
        *self < *other
    }
}

impl<A: Key, B: Key> Key for (A, B) {
    type Model = (A::Model, B::Model);

    open spec fn model(&self) -> (A::Model, B::Model) {
        (self.0.model(), self.1.model())
    }

    fn precedes(&self, other: &Self) -> (r: bool) {
        proof {
            A::Model::total(self.0.model(), other.0.model());
            A::Model::irreflexive(self.0.model());
            assert(self.model().before(other.model()) == (self.0.model().before(other.0.model()) || (
            self.0.model() == other.0.model() && self.1.model().before(other.1.model()))));
        }
        if self.0.precedes(&other.0) {
            true
        } else if other.0.precedes(&self.0) {
            proof {
                order::lemma_before_excludes(other.0.model(), self.0.model());
            }
            false
        } else {
            self.1.precedes(&other.1)
        }
    }
}

/// The models of the elements of a vector.
pub open spec fn models<A: Key>(v: Seq<A>) -> Seq<A::Model> {
    Seq::new(v.len(), |i: int| v[i].model())
}

impl<A: Key> Key for Vec<A> {
    type Model = Seq<A::Model>;

    open spec fn model(&self) -> Seq<A::Model> {
        models(self@)
    }

    fn precedes(&self, other: &Self) -> (r: bool) {
        let ghost a = self.model();
        let ghost b = other.model();
        let mut i: usize = 0;
        assert(a.skip(0) =~= a);
        assert(b.skip(0) =~= b);
        while i < self.len() && i < other.len()
            invariant
                a == self.model(),
                b == other.model(),
                i <= a.len(),
                i <= b.len(),
                order::lex_before(a, b) == order::lex_before(a.skip(i as int), b.skip(i as int)),
            decreases a.len() - i,
        {
            proof {
                A::Model::total(a[i as int], b[i as int]);
                A::Model::irreflexive(a[i as int]);
                assert(a.skip(i as int).drop_first() =~= a.skip(i + 1));
                assert(b.skip(i as int).drop_first() =~= b.skip(i + 1));
            }
            if self[i].precedes(&other[i]) {
                return true;
            }
            if other[i].precedes(&self[i]) {
                proof {
                    order::lemma_before_excludes(b[i as int], a[i as int]);
                }
                return false;
            }
            i = i + 1;
        }
        i < other.len()
    }
}

/// The values of `v`, each once, in ascending order.
pub fn sorted_vec<A: Key>(v: Vec<A>) -> (r: Vec<A>)
    ensures
        models(r@) == order::sorted_set(models(v@)),
{
    let ghost all = v@;
    let mut pairs: Vec<(A, ())> = Vec::new();
    for item in it: v
        invariant
            it.seq() == all,
            pairs@.len() == it.index(),
            forall|i: int| 0 <= i < pairs@.len() ==> (#[trigger] pairs@[i]).0 == all[i],
    {
        pairs.push((item, ()));
    }
    assert(ordmap::key_models(pairs@) =~= models(all));
    let set = from_pairs(pairs);
    let ghost keys = set.keys();
    let ghost entries = set.entries@;
    let mut out: Vec<A> = Vec::new();
    for entry in it: set.entries
        invariant
            it.seq() == entries,
            keys.len() == entries.len(),
            forall|i: int| 0 <= i < keys.len() ==> #[trigger] keys[i] == entries[i].0.model(),
            out@.len() == it.index(),
            forall|i: int| 0 <= i < out@.len() ==> (#[trigger] out@[i]).model() == keys[i],
    {
        out.push(entry.0);
    }
    assert(models(out@) =~= keys);
    out
}

/// `String::push` puts one character behind the text.
pub assume_specification[ String::push ](this: &mut String, c: char)
    ensures
        final(this)@ == old(this)@.push(c),
;

pub fn chars_of(text: &str) -> (r: Vec<char>)
    ensures
        r@ == text@,
{
    let mut out: Vec<char> = Vec::new();
    assert(text@.take(0) =~= out@);
    for c in it: text.chars()
        invariant
            it.seq() == text@,
            out@ == text@.take(it.index() as int),
    {
        out.push(c);
        assert(text@.take(it.index() as int + 1) =~= text@.take(it.index() as int).push(c));
    }
    assert(text@.take(text@.len() as int) =~= text@);
    out
}

pub fn ends_with_char(text: &str, c: char) -> (r: bool)
    ensures
        r == (text@.len() > 0 && text@.last() == c),
{
    let length = text.unicode_len();
    length > 0 && text.get_char(length - 1) == c
}

/// `whole` ends with `tail`.
pub open spec fn has_suffix(whole: Seq<char>, tail: Seq<char>) -> bool {
    tail.len() <= whole.len() && whole.skip(whole.len() - tail.len()) == tail
}

/// `whole` starts with `head`.
pub open spec fn has_prefix(whole: Seq<char>, head: Seq<char>) -> bool {
    head.len() <= whole.len() && whole.take(head.len() as int) == head
}

pub fn ends_with(whole: &str, tail: &str) -> (r: bool)
    ensures
        r == has_suffix(whole@, tail@),
{
    let n = whole.unicode_len();
    let m = tail.unicode_len();
    m <= n && same_text(whole.substring_char(n - m, n), tail)
}

pub fn starts_with(whole: &str, head: &str) -> (r: bool)
    ensures
        r == has_prefix(whole@, head@),
{
    let n = whole.unicode_len();
    let m = head.unicode_len();
    m <= n && same_text(whole.substring_char(0, m), head)
}

/// A character with the Unicode property `White_Space`.
pub open spec fn is_white(c: char) -> bool {
    let n = c as u32;
    9 <= n <= 13 || n == 0x20 || n == 0x85 || n == 0xA0 || n == 0x1680 || 0x2000 <= n <= 0x200A || n
        == 0x2028 || n == 0x2029 || n == 0x202F || n == 0x205F || n == 0x3000
}

pub fn is_whitespace(c: char) -> (r: bool)
    ensures
        r == is_white(c),
{
    let n = c as u32;
    (9 <= n && n <= 13) || n == 0x20 || n == 0x85 || n == 0xA0 || n == 0x1680 || (0x2000 <= n && n
        <= 0x200A) || n == 0x2028 || n == 0x2029 || n == 0x202F || n == 0x205F || n == 0x3000
}

/// The text without leading white space.
pub open spec fn trim_start(text: Seq<char>) -> Seq<char>
    decreases text.len(),
{
    if text.len() > 0 && is_white(text[0]) {
        trim_start(text.drop_first())
    } else {
        text
    }
}

/// The text without trailing white space.
pub open spec fn trim_end(text: Seq<char>) -> Seq<char>
    decreases text.len(),
{
    if text.len() > 0 && is_white(text.last()) {
        trim_end(text.drop_last())
    } else {
        text
    }
}

/// The text without white space at its ends.
pub open spec fn trimmed(text: Seq<char>) -> Seq<char> {
    trim_end(trim_start(text))
}

pub proof fn lemma_trimmed_len(text: Seq<char>)
    ensures
        trimmed(text).len() <= text.len(),
{
    lemma_trim_start_len(text);
    lemma_trim_end_len(trim_start(text));
}

proof fn lemma_trim_start_len(text: Seq<char>)
    ensures
        trim_start(text).len() <= text.len(),
    decreases text.len(),
{
    if text.len() > 0 && is_white(text[0]) {
        lemma_trim_start_len(text.drop_first());
    }
}

proof fn lemma_trim_end_len(text: Seq<char>)
    ensures
        trim_end(text).len() <= text.len(),
    decreases text.len(),
{
    if text.len() > 0 && is_white(text.last()) {
        lemma_trim_end_len(text.drop_last());
    }
}

/// Takes white space off both ends.
pub fn trim<'a>(text: &'a str) -> (r: &'a str)
    ensures
        r@ == trimmed(text@),
{
    let chars = chars_of(text);
    let mut low: usize = 0;
    assert(text@.skip(0) =~= text@);
    while low < chars.len() && is_whitespace(chars[low])
        invariant
            chars@ == text@,
            low <= chars@.len(),
            trim_start(text@) == trim_start(text@.skip(low as int)),
        decreases chars@.len() - low,
    {
        assert(text@.skip(low as int).drop_first() =~= text@.skip(low + 1));
        low = low + 1;
    }
    let mut high: usize = chars.len();
    assert(trim_start(text@) == text@.skip(low as int));
    assert(text@.subrange(low as int, high as int) =~= text@.skip(low as int));
    while high > low && is_whitespace(chars[high - 1])
        invariant
            chars@ == text@,
            low <= high <= chars@.len(),
            trimmed(text@) == trim_end(text@.subrange(low as int, high as int)),
        decreases high - low,
    {
        assert(text@.subrange(low as int, high as int).drop_last() =~= text@.subrange(
            low as int,
            high - 1,
        ));
        high = high - 1;
    }
    text.substring_char(low, high)
}

/// Whether a text holds white space only.
pub fn is_blank(text: &str) -> (r: bool)
    ensures
        r == (trimmed(text@).len() == 0),
{
    assert(text@.skip(0) =~= text@);
    for c in it: text.chars()
        invariant
            it.seq() == text@,
            trim_start(text@) == trim_start(text@.skip(it.index() as int)),
    {
        proof {
            let rest = text@.skip(it.index() as int);
            assert(rest.drop_first() =~= text@.skip(it.index() as int + 1));
            assert(rest[0] == c);
            if !is_white(c) {
                assert(trim_start(rest) == rest);
                lemma_trim_end_nonempty(rest, 0);
            }
        }
        if !is_whitespace(c) {
            return false;
        }
    }
    assert(text@.skip(text@.len() as int) =~= Seq::empty());
    true
}

proof fn lemma_trim_end_nonempty(text: Seq<char>, i: int)
    requires
        0 <= i < text.len(),
        !is_white(text[i]),
    ensures
        trim_end(text).len() > 0,
    decreases text.len(),
{
    if is_white(text.last()) {
        lemma_trim_end_nonempty(text.drop_last(), i);
    }
}

/// The text without the characters `c` at its end.
pub open spec fn without_tail(text: Seq<char>, c: char) -> Seq<char>
    decreases text.len(),
{
    if text.len() > 0 && text.last() == c {
        without_tail(text.drop_last(), c)
    } else {
        text
    }
}

pub fn trim_end_char<'a>(text: &'a str, c: char) -> (r: &'a str)
    ensures
        r@ == without_tail(text@, c),
{
    let chars = chars_of(text);
    let mut high: usize = chars.len();
    assert(text@.take(high as int) =~= text@);
    while high > 0 && chars[high - 1] == c
        invariant
            chars@ == text@,
            high <= chars@.len(),
            without_tail(text@, c) == without_tail(text@.take(high as int), c),
        decreases high,
    {
        assert(text@.take(high as int).drop_last() =~= text@.take(high - 1));
        high = high - 1;
    }
    assert(text@.subrange(0, high as int) =~= text@.take(high as int));
    text.substring_char(0, high)
}

/// The text without the characters `c` at its start.
pub open spec fn without_head(text: Seq<char>, c: char) -> Seq<char>
    decreases text.len(),
{
    if text.len() > 0 && text[0] == c {
        without_head(text.drop_first(), c)
    } else {
        text
    }
}

pub fn trim_start_char<'a>(text: &'a str, c: char) -> (r: &'a str)
    ensures
        r@ == without_head(text@, c),
{
    let chars = chars_of(text);
    let mut low: usize = 0;
    assert(text@.skip(0) =~= text@);
    while low < chars.len() && chars[low] == c
        invariant
            chars@ == text@,
            low <= chars@.len(),
            without_head(text@, c) == without_head(text@.skip(low as int), c),
        decreases chars@.len() - low,
    {
        assert(text@.skip(low as int).drop_first() =~= text@.skip(low + 1));
        low = low + 1;
    }
    assert(text@.subrange(low as int, text@.len() as int) =~= text@.skip(low as int));
    text.substring_char(low, chars.len())
}

/// `text` with `to` in place of each `from`.
pub open spec fn replaced(text: Seq<char>, from: char, to: Seq<char>) -> Seq<char>
    decreases text.len(),
{
    if text.len() == 0 {
        Seq::empty()
    } else {
        replaced(text.drop_last(), from, to) + if text.last() == from {
            to
        } else {
            seq![text.last()]
        }
    }
}

pub fn replace_char(text: &str, from: char, to: &str) -> (r: String)
    ensures
        r@ == replaced(text@, from, to@),
{
    let mut out = String::new();
    assert(text@.take(0) =~= Seq::empty());
    for c in it: text.chars()
        invariant
            it.seq() == text@,
            out@ == replaced(text@.take(it.index() as int), from, to@),
    {
        proof {
            let n = it.index() as int;
            assert(text@.take(n + 1).drop_last() =~= text@.take(n));
        }
        if c == from {
            out.append(to);
        } else {
            let ghost before = out@;
            out.push(c);
            assert(out@ =~= before + seq![c]);
        }
    }
    assert(text@.take(text@.len() as int) =~= text@);
    out
}

/// The parts in their order, with `separator` between neighbours.
pub open spec fn joined(parts: Seq<Seq<char>>, separator: Seq<char>) -> Seq<char>
    decreases parts.len(),
{
    if parts.len() == 0 {
        Seq::empty()
    } else if parts.len() == 1 {
        parts[0]
    } else {
        joined(parts.drop_last(), separator) + separator + parts.last()
    }
}

pub proof fn lemma_joined_first(parts: Seq<Seq<char>>, separator: Seq<char>)
    requires
        parts.len() > 1,
    ensures
        joined(parts, separator) == parts[0] + separator + joined(
            parts.drop_first(),
            separator,
        ),
    decreases parts.len(),
{
    let d = parts.drop_last();
    let rest = parts.drop_first();
    if parts.len() == 2 {
        reveal_with_fuel(joined, 3);
        assert(d =~= seq![parts[0]]);
        assert(rest =~= seq![parts[1]]);
    } else {
        lemma_joined_first(d, separator);
        assert(d.drop_first() =~= rest.drop_last());
        assert(rest.last() == parts.last());
        assert(joined(parts, separator) =~= parts[0] + separator + joined(
            rest,
            separator,
        ));
    }
}

pub fn join_texts(parts: &Vec<String>, separator: &str) -> (r: String)
    ensures
        r@ == joined(models(parts@), separator@),
{
    let ghost all = models(parts@);
    let mut out = String::new();
    let mut i: usize = 0;
    assert(all.take(0) =~= Seq::empty());
    while i < parts.len()
        invariant
            all == models(parts@),
            i <= parts@.len(),
            out@ == joined(all.take(i as int), separator@),
        decreases parts@.len() - i,
    {
        proof {
            assert(all.take(i + 1).drop_last() =~= all.take(i as int));
            assert(all.take(i + 1)[i as int] == parts@[i as int]@);
        }
        if i > 0 {
            out.append(separator);
        }
        let ghost before = out@;
        out.append(parts[i].as_str());
        assert(i == 0 ==> before + parts@[0]@ =~= parts@[0]@);
        i = i + 1;
    }
    assert(all.take(all.len() as int) =~= all);
    out
}

/// The decimal digit `d`.
pub open spec fn digit(d: nat) -> char {
    (48 + d) as u8 as char
}

/// `n` in decimal digits without leading zeros.
pub open spec fn decimal(n: nat) -> Seq<char>
    decreases n,
{
    if n < 10 {
        seq![digit(n)]
    } else {
        decimal(n / 10).push(digit(n % 10))
    }
}

/// `i` in decimal digits, with a sign when it is negative.
pub open spec fn signed_decimal(i: int) -> Seq<char> {
    if i < 0 {
        seq!['-'] + decimal((-i) as nat)
    } else {
        decimal(i as nat)
    }
}

fn push_decimal(out: &mut String, n: u128)
    ensures
        final(out)@ == old(out)@ + decimal(n as nat),
    decreases n,
{
    let ghost before = out@;
    if n >= 10 {
        push_decimal(out, n / 10);
    }
    let d = (n % 10) as u8;
    let ghost middle = out@;
    out.push((48u8 + d) as char);
    assert(n < 10 ==> out@ =~= before + seq![digit(n as nat)]);
    assert(n >= 10 ==> out@ =~= before + decimal((n / 10) as nat).push(digit((n % 10) as nat)));
}

pub fn decimal_text(n: u128) -> (r: String)
    ensures
        r@ == decimal(n as nat),
{
    let mut out = String::new();
    push_decimal(&mut out, n);
    assert(Seq::<char>::empty() + decimal(n as nat) =~= decimal(n as nat));
    out
}

pub fn signed_decimal_text(n: i64) -> (r: String)
    ensures
        r@ == signed_decimal(n as int),
{
    let mut out = String::new();
    if n < 0 {
        out.push('-');
        assert(out@ =~= seq!['-']);
        let magnitude: i128 = -(n as i128);
        push_decimal(&mut out, magnitude as u128);
    } else {
        push_decimal(&mut out, n as u128);
        assert(Seq::<char>::empty() + decimal(n as nat) =~= decimal(n as nat));
    }
    out
}

/// The number of decimal digits of `n`.
pub open spec fn digit_count(n: nat) -> nat {
    decimal(n).len()
}

/// `count` zeros.
pub open spec fn zeros(count: nat) -> Seq<char> {
    Seq::new(count, |i: int| '0')
}

/// `n` in decimal digits, filled up with leading zeros to `width` of them.
pub open spec fn padded_decimal(n: nat, width: nat) -> Seq<char> {
    if digit_count(n) < width {
        zeros((width - digit_count(n)) as nat) + decimal(n)
    } else {
        decimal(n)
    }
}

pub fn push_padded_decimal(out: &mut String, n: usize, width: usize)
    ensures
        final(out)@ == old(out)@ + padded_decimal(n as nat, width as nat),
{
    let digits = decimal_text(n as u128);
    let count = digits.as_str().unicode_len();
    let ghost before = out@;
    let mut filled: usize = count;
    while filled < width
        invariant
            count == digits@.len(),
            filled >= count,
            filled <= width || filled == count,
            out@ == before + zeros((filled - count) as nat),
        decreases width - filled,
    {
        let ghost so_far = out@;
        out.push('0');
        filled = filled + 1;
        assert(out@ =~= before + zeros((filled - count) as nat));
    }
    out.append(digits.as_str());
    proof {
        assert(zeros(0) =~= Seq::empty());
        assert(out@ =~= before + padded_decimal(n as nat, width as nat));
    }
}

} // verus!
