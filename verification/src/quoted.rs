//! The JSON text of objects whose values are all texts.

use crate::text;
use vstd::prelude::*;

verus! {

/// A hexadecimal digit.
pub open spec fn hex_digit(d: nat) -> char {
    if d < 10 {
        (48 + d) as u8 as char
    } else {
        (87 + d) as u8 as char
    }
}

/// The letter that stands for an escaped character behind a backslash; `u` where its number
/// follows.
pub open spec fn escape_letter(c: char) -> char {
    if c == '"' {
        '"'
    } else if c == '\\' {
        '\\'
    } else if c == '\x08' {
        'b'
    } else if c == '\t' {
        't'
    } else if c == '\n' {
        'n'
    } else if c == '\x0C' {
        'f'
    } else if c == '\r' {
        'r'
    } else {
        'u'
    }
}

/// Quotes, backslashes and control characters are escaped.
pub open spec fn is_escaped(c: char) -> bool {
    c == '"' || c == '\\' || (c as u32) < 0x20
}

/// How a character stands in a JSON text.
pub open spec fn char_text(c: char) -> Seq<char> {
    if !is_escaped(c) {
        seq![c]
    } else if escape_letter(c) == 'u' {
        seq![
            '\\',
            'u',
            '0',
            '0',
            hex_digit((c as u32 / 16) as nat),
            hex_digit((c as u32 % 16) as nat),
        ]
    } else {
        seq!['\\', escape_letter(c)]
    }
}

pub open spec fn escaped(t: Seq<char>) -> Seq<char>
    decreases t.len(),
{
    if t.len() == 0 {
        Seq::empty()
    } else {
        char_text(t[0]) + escaped(t.drop_first())
    }
}

/// A text in quotes.
pub open spec fn quoted(t: Seq<char>) -> Seq<char> {
    seq!['"'] + escaped(t) + seq!['"']
}

/// A field of an object on one line.
pub open spec fn field_text(f: (Seq<char>, Seq<char>)) -> Seq<char> {
    quoted(f.0) + seq![':'] + quoted(f.1)
}

/// An object on one line.
pub open spec fn compact_text(fields: Seq<(Seq<char>, Seq<char>)>) -> Seq<char> {
    seq!['{'] + text::joined(
        Seq::new(fields.len(), |i: int| field_text(fields[i])),
        seq![','],
    ) + seq!['}']
}

/// An object with each field on a line of its own.
pub open spec fn pretty_text(fields: Seq<(Seq<char>, Seq<char>)>) -> Seq<char> {
    if fields.len() == 0 {
        seq!['{', '}']
    } else {
        seq!['{', '\n'] + text::joined(
            Seq::new(
                fields.len(),
                |i: int|
                    seq![' ', ' '] + quoted(fields[i].0) + seq![':', ' '] + quoted(fields[i].1),
            ),
            seq![',', '\n'],
        ) + seq!['\n', '}']
    }
}

/// A character can be read off what it stands as.
proof fn lemma_char_read(c: char, d: char, x: Seq<char>, y: Seq<char>)
    requires
        char_text(c) + x == char_text(d) + y,
    ensures
        c == d,
        x == y,
{
    let s = char_text(c) + x;
    let t = char_text(d) + y;
    assert(s[0] == t[0]);
    assert(s[0] == char_text(c)[0] && t[0] == char_text(d)[0]);
    if is_escaped(c) && is_escaped(d) {
        assert(s[1] == char_text(c)[1] && t[1] == char_text(d)[1]);
        assert(escape_letter(c) == escape_letter(d));
        if escape_letter(c) == 'u' {
            assert(s[4] == char_text(c)[4] && t[4] == char_text(d)[4]);
            assert(s[5] == char_text(c)[5] && t[5] == char_text(d)[5]);
            let m = c as u32;
            let n = d as u32;
            lemma_hex((m / 16) as nat, (n / 16) as nat);
            lemma_hex((m % 16) as nat, (n % 16) as nat);
            assert(m == n);
        }
    }
    assert(c == d);
    let k = char_text(c).len() as int;
    assert(x =~= s.skip(k));
    assert(y =~= t.skip(k));
}

proof fn lemma_hex(a: nat, b: nat)
    requires
        a < 16,
        b < 16,
        hex_digit(a) == hex_digit(b),
    ensures
        a == b,
{
}

/// A text can be read off its escaped form up to the closing quote.
proof fn lemma_escaped_read(a: Seq<char>, b: Seq<char>, x: Seq<char>, y: Seq<char>)
    requires
        escaped(a) + seq!['"'] + x == escaped(b) + seq!['"'] + y,
    ensures
        a == b,
        x == y,
    decreases a.len(),
{
    let s = escaped(a) + seq!['"'] + x;
    let t = escaped(b) + seq!['"'] + y;
    if a.len() == 0 && b.len() == 0 {
        assert(a =~= b);
        assert(x =~= s.skip(1));
        assert(y =~= t.skip(1));
    } else if a.len() == 0 {
        assert(s[0] == '"');
        assert(t[0] == char_text(b[0])[0]);
    } else if b.len() == 0 {
        assert(t[0] == '"');
        assert(s[0] == char_text(a[0])[0]);
    } else {
        let c = a.drop_first();
        let d = b.drop_first();
        let u = escaped(c) + seq!['"'] + x;
        let v = escaped(d) + seq!['"'] + y;
        assert(s =~= char_text(a[0]) + u);
        assert(t =~= char_text(b[0]) + v);
        lemma_char_read(a[0], b[0], u, v);
        lemma_escaped_read(c, d, x, y);
        assert(a =~= seq![a[0]] + c);
        assert(b =~= seq![b[0]] + d);
    }
}

proof fn lemma_quoted_read(a: Seq<char>, b: Seq<char>, x: Seq<char>, y: Seq<char>)
    requires
        quoted(a) + x == quoted(b) + y,
    ensures
        a == b,
        x == y,
{
    let s = quoted(a) + x;
    let t = quoted(b) + y;
    assert(s.skip(1) =~= escaped(a) + seq!['"'] + x);
    assert(t.skip(1) =~= escaped(b) + seq!['"'] + y);
    lemma_escaped_read(a, b, x, y);
}

/// What follows a field: the next one behind a comma, or the end.
spec fn after_field(fields: Seq<(Seq<char>, Seq<char>)>) -> Seq<char>
    decreases fields.len(),
{
    if fields.len() == 0 {
        seq!['}']
    } else {
        seq![','] + field_text(fields[0]) + after_field(fields.drop_first())
    }
}

proof fn lemma_fields_in_order(fields: Seq<(Seq<char>, Seq<char>)>)
    requires
        fields.len() > 0,
    ensures
        text::joined(
            Seq::new(fields.len(), |i: int| field_text(fields[i])),
            seq![','],
        ) + seq!['}'] == field_text(fields[0]) + after_field(fields.drop_first()),
    decreases fields.len(),
{
    let parts = Seq::new(fields.len(), |i: int| field_text(fields[i]));
    let d = fields.drop_first();
    if fields.len() > 1 {
        let rest = Seq::new(d.len(), |i: int| field_text(d[i]));
        text::lemma_joined_first(parts, seq![',']);
        assert(parts.drop_first() =~= rest);
        lemma_fields_in_order(d);
        assert(text::joined(parts, seq![',']) + seq!['}'] =~= field_text(fields[0]) + (seq![',']
            + (text::joined(rest, seq![',']) + seq!['}'])));
        assert(after_field(d) =~= seq![','] + (field_text(d[0]) + after_field(d.drop_first())));
    }
}

proof fn lemma_field_read(
    a: (Seq<char>, Seq<char>),
    b: (Seq<char>, Seq<char>),
    x: Seq<char>,
    y: Seq<char>,
)
    requires
        field_text(a) + x == field_text(b) + y,
    ensures
        a == b,
        x == y,
{
    let u = seq![':'] + (quoted(a.1) + x);
    let v = seq![':'] + (quoted(b.1) + y);
    assert(field_text(a) + x =~= quoted(a.0) + u);
    assert(field_text(b) + y =~= quoted(b.0) + v);
    lemma_quoted_read(a.0, b.0, u, v);
    assert(u.skip(1) =~= quoted(a.1) + x);
    assert(v.skip(1) =~= quoted(b.1) + y);
    lemma_quoted_read(a.1, b.1, x, y);
}

proof fn lemma_after_field_read(a: Seq<(Seq<char>, Seq<char>)>, b: Seq<(Seq<char>, Seq<char>)>)
    requires
        after_field(a) == after_field(b),
    ensures
        a == b,
    decreases a.len(),
{
    let s = after_field(a);
    let t = after_field(b);
    assert(s[0] == t[0]);
    if a.len() > 0 && b.len() > 0 {
        let c = a.drop_first();
        let d = b.drop_first();
        assert(s.skip(1) =~= field_text(a[0]) + after_field(c));
        assert(t.skip(1) =~= field_text(b[0]) + after_field(d));
        lemma_field_read(a[0], b[0], after_field(c), after_field(d));
        lemma_after_field_read(c, d);
        assert(a =~= seq![a[0]] + c);
        assert(b =~= seq![b[0]] + d);
    } else {
        assert(a.len() == 0 && b.len() == 0);
        assert(a =~= b);
    }
}

/// Objects with other fields have other texts.
pub proof fn law_texts_tell_objects_apart(
    a: Seq<(Seq<char>, Seq<char>)>,
    b: Seq<(Seq<char>, Seq<char>)>,
)
    requires
        compact_text(a) == compact_text(b),
    ensures
        a == b,
{
    let s = compact_text(a).skip(1);
    let t = compact_text(b).skip(1);
    if a.len() > 0 {
        lemma_fields_in_order(a);
        assert(s =~= field_text(a[0]) + after_field(a.drop_first()));
        assert(s[0] == '"');
    } else {
        assert(s =~= seq!['}']);
        assert(s[0] == '}');
    }
    if b.len() > 0 {
        lemma_fields_in_order(b);
        assert(t =~= field_text(b[0]) + after_field(b.drop_first()));
        assert(t[0] == '"');
    } else {
        assert(t =~= seq!['}']);
        assert(t[0] == '}');
    }
    if a.len() > 0 && b.len() > 0 {
        lemma_field_read(
            a[0],
            b[0],
            after_field(a.drop_first()),
            after_field(b.drop_first()),
        );
        lemma_after_field_read(a.drop_first(), b.drop_first());
        assert(a =~= seq![a[0]] + a.drop_first());
        assert(b =~= seq![b[0]] + b.drop_first());
    } else {
        assert(a =~= b);
    }
}

} // verus!
