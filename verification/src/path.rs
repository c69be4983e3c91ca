//! Paths of schema references: escaped segments under an output directory.

use crate::text;
use crate::text::{join_texts, replace_char};
use vstd::prelude::*;

verus! {

/// A key as one path segment: `%` and `/` are written as `%25` and `%2F`.
pub open spec fn segment(key: Seq<char>) -> Seq<char> {
    text::replaced(text::replaced(key, '%', "%25"@), '/', "%2F"@)
}

pub open spec fn segments_of(keys: Seq<Seq<char>>) -> Seq<Seq<char>> {
    Seq::new(keys.len(), |i: int| segment(keys[i]))
}

/// The path of the keys `keys` under `outdir`.
pub open spec fn reference(outdir: Seq<char>, keys: Seq<Seq<char>>) -> Seq<char> {
    outdir + "/"@ + text::joined(segments_of(keys), "/"@)
}

/// The path of the field `key` of the object at `base`.
pub open spec fn child(base: Seq<char>, key: Seq<char>) -> Seq<char> {
    base + "/"@ + segment(key)
}

/// What stands ahead of the last segment in the path of `keys` and one more key.
pub open spec fn child_prefix(outdir: Seq<char>, keys: Seq<Seq<char>>) -> Seq<char> {
    if keys.len() == 0 {
        outdir + "/"@
    } else {
        reference(outdir, keys) + "/"@
    }
}

/// The file that describes the objects at `base`.
pub open spec fn json_file(base: Seq<char>) -> Seq<char> {
    base + ".json"@
}

/// The positions `index`, written in decimal with `_` between them.
pub open spec fn file_stem(index: Seq<nat>) -> Seq<char> {
    text::joined(decimals(index), "_"@)
}

pub open spec fn decimals(index: Seq<nat>) -> Seq<Seq<char>> {
    Seq::new(index.len(), |i: int| text::decimal(index[i]))
}

pub fn path_segment(segment: &str) -> (r: String)
    ensures
        r@ == self::segment(segment@),
{
    let percent = replace_char(segment, '%', "%25");
    replace_char(percent.as_str(), '/', "%2F")
}

pub fn reference_path(outdir: &str, segments: &Vec<String>) -> (r: String)
    ensures
        r@ == reference(outdir@, text::models(segments@)),
{
    let mut escaped: Vec<String> = Vec::new();
    let mut i: usize = 0;
    while i < segments.len()
        invariant
            i <= segments@.len(),
            escaped@.len() == i,
            forall|j: int| 0 <= j < i ==> (#[trigger] escaped@[j])@ == segment(segments@[j]@),
        decreases segments@.len() - i,
    {
        escaped.push(path_segment(segments[i].as_str()));
        i = i + 1;
    }
    assert(text::models(escaped@) =~= segments_of(text::models(segments@)));
    let mut path = outdir.to_string();
    path.append("/");
    path.append(join_texts(&escaped, "/").as_str());
    path
}

pub fn child_path_base(path_base: &str, key: &str) -> (r: String)
    ensures
        r@ == child(path_base@, key@),
{
    let mut path = path_base.to_string();
    path.append("/");
    path.append(path_segment(key).as_str());
    path
}

/// `<base>.json`.
pub fn json_path(base: &str) -> (r: String)
    ensures
        r@ == json_file(base@),
{
    let mut path = base.to_string();
    path.append(".json");
    path
}

pub fn index_path_file_stem(index_path: &Vec<usize>) -> (r: String)
    ensures
        r@ == file_stem(text::models(index_path@)),
{
    let mut parts: Vec<String> = Vec::new();
    let mut i: usize = 0;
    while i < index_path.len()
        invariant
            i <= index_path@.len(),
            parts@.len() == i,
            forall|j: int|
                0 <= j < i ==> (#[trigger] parts@[j])@ == text::decimal(index_path@[j] as nat),
        decreases index_path@.len() - i,
    {
        parts.push(text::decimal_text(index_path[i] as u128));
        i = i + 1;
    }
    assert(text::models(parts@) =~= decimals(text::models(index_path@)));
    join_texts(&parts, "_")
}

/// The path of a field is the parent's prefix and the escaped key.
pub proof fn lemma_reference_push(outdir: Seq<char>, keys: Seq<Seq<char>>, key: Seq<char>)
    ensures
        reference(outdir, keys.push(key)) == child_prefix(outdir, keys) + segment(key),
        keys.len() > 0 ==> reference(outdir, keys.push(key)) == child(
            reference(outdir, keys),
            key,
        ),
{
    let more = segments_of(keys.push(key));
    assert(more.drop_last() =~= segments_of(keys));
    assert(more.last() == segment(key));
    assert(reference(outdir, keys.push(key)) =~= child_prefix(outdir, keys) + segment(key));
}

pub proof fn lemma_replaced_concat(a: Seq<char>, b: Seq<char>, from: char, to: Seq<char>)
    ensures
        text::replaced(a + b, from, to) == text::replaced(a, from, to) + text::replaced(b, from, to),
    decreases b.len(),
{
    if b.len() == 0 {
        assert(a + b =~= a);
        assert(text::replaced(a, from, to) + Seq::<char>::empty() =~= text::replaced(a, from, to));
    } else {
        lemma_replaced_concat(a, b.drop_last(), from, to);
        assert((a + b).drop_last() =~= a + b.drop_last());
        assert((a + b).last() == b.last());
        assert(text::replaced(a + b, from, to) =~= text::replaced(a, from, to) + text::replaced(
            b,
            from,
            to,
        ));
    }
}

pub proof fn lemma_segment_concat(a: Seq<char>, b: Seq<char>)
    ensures
        segment(a + b) == segment(a) + segment(b),
{
    lemma_replaced_concat(a, b, '%', "%25"@);
    lemma_replaced_concat(
        text::replaced(a, '%', "%25"@),
        text::replaced(b, '%', "%25"@),
        '/',
        "%2F"@,
    );
}

/// The code word of one character.
pub proof fn lemma_segment_char(c: char)
    ensures
        c == '%' ==> segment(seq![c]) == seq!['%', '2', '5'],
        c == '/' ==> segment(seq![c]) == seq!['%', '2', 'F'],
        c != '%' && c != '/' ==> segment(seq![c]) == seq![c],
{
    reveal_strlit("%25");
    reveal_strlit("%2F");
    reveal_with_fuel(text::replaced, 4);
    let one = seq![c];
    assert(one.drop_last() =~= Seq::<char>::empty());
    if c == '%' {
        let p = text::replaced(one, '%', "%25"@);
        assert(p =~= seq!['%', '2', '5']);
        assert(p.drop_last() =~= seq!['%', '2']);
        assert(p.drop_last().drop_last() =~= seq!['%']);
        assert(p.drop_last().drop_last().drop_last() =~= Seq::<char>::empty());
        assert(segment(one) =~= seq!['%', '2', '5']);
    } else {
        let p = text::replaced(one, '%', "%25"@);
        assert(p =~= one);
        if c == '/' {
            assert(segment(one) =~= seq!['%', '2', 'F']);
        } else {
            assert(segment(one) =~= one);
        }
    }
}

proof fn lemma_segment_first(key: Seq<char>)
    requires
        key.len() > 0,
    ensures
        segment(key) == segment(seq![key[0]]) + segment(key.drop_first()),
{
    assert(key =~= seq![key[0]] + key.drop_first());
    lemma_segment_concat(seq![key[0]], key.drop_first());
}

/// A segment holds no `/`.
pub proof fn lemma_segment_has_no_slash(key: Seq<char>)
    ensures
        !segment(key).contains('/'),
    decreases key.len(),
{
    if key.len() > 0 {
        lemma_segment_first(key);
        lemma_segment_char(key[0]);
        lemma_segment_has_no_slash(key.drop_first());
        let s = segment(key);
        let head = segment(seq![key[0]]);
        assert forall|i: int| 0 <= i < s.len() implies s[i] != '/' by {
            if i >= head.len() {
                assert(s[i] == segment(key.drop_first())[i - head.len()]);
                assert(segment(key.drop_first()).contains(s[i]));
            }
        }
    }
}

/// Keys that are different have segments that are different.
pub proof fn lemma_segment_injective(a: Seq<char>, b: Seq<char>)
    requires
        segment(a) == segment(b),
    ensures
        a == b,
    decreases a.len(),
{
    if a.len() > 0 {
        lemma_segment_first(a);
        lemma_segment_char(a[0]);
    }
    if b.len() > 0 {
        lemma_segment_first(b);
        lemma_segment_char(b[0]);
    }
    if a.len() == 0 || b.len() == 0 {
        assert(a =~= b);
    } else {
        let x = segment(seq![a[0]]);
        let y = segment(seq![b[0]]);
        assert(segment(a)[0] == x[0] && segment(b)[0] == y[0]);
        if x.len() == 3 && y.len() == 3 {
            assert(segment(a)[2] == x[2] && segment(b)[2] == y[2]);
        }
        assert(a[0] == b[0]);
        assert(segment(a.drop_first()) =~= segment(a).skip(x.len() as int));
        assert(segment(b.drop_first()) =~= segment(b).skip(x.len() as int));
        lemma_segment_injective(a.drop_first(), b.drop_first());
        assert(a =~= seq![a[0]] + a.drop_first());
        assert(b =~= seq![b[0]] + b.drop_first());
    }
}

proof fn lemma_joined_slashes(parts: Seq<Seq<char>>)
    requires
        parts.len() > 1,
        forall|i: int| 0 <= i < parts.len() ==> !(#[trigger] parts[i]).contains('/'),
    ensures
        text::joined(parts, "/"@).len() >= parts.last().len() + 1,
        text::joined(parts, "/"@)[text::joined(parts, "/"@).len() - parts.last().len() - 1] == '/',
{
    reveal_strlit("/");
}

proof fn lemma_joined_injective(a: Seq<Seq<char>>, b: Seq<Seq<char>>)
    requires
        a.len() > 0,
        b.len() > 0,
        forall|i: int| 0 <= i < a.len() ==> !(#[trigger] a[i]).contains('/'),
        forall|i: int| 0 <= i < b.len() ==> !(#[trigger] b[i]).contains('/'),
        text::joined(a, "/"@) == text::joined(b, "/"@),
    ensures
        a == b,
    decreases a.len(),
{
    reveal_strlit("/");
    let t = text::joined(a, "/"@);
    if a.len() == 1 && b.len() == 1 {
        assert(a =~= seq![t]);
        assert(b =~= seq![t]);
    } else if a.len() == 1 {
        lemma_joined_slashes(b);
        assert(a[0].contains(t[t.len() - b.last().len() - 1]));
    } else if b.len() == 1 {
        lemma_joined_slashes(a);
        assert(b[0].contains(t[t.len() - a.last().len() - 1]));
    } else {
        lemma_joined_slashes(a);
        lemma_joined_slashes(b);
        let m = a.last().len();
        let n = b.last().len();
        if m < n {
            assert(b.last()[n - m - 1] == t[t.len() - m - 1]);
            assert(b[b.len() - 1].contains(b.last()[n - m - 1]));
        } else if n < m {
            assert(a.last()[m - n - 1] == t[t.len() - n - 1]);
            assert(a[a.len() - 1].contains(a.last()[m - n - 1]));
        }
        assert(a.last() =~= t.skip(t.len() - m));
        assert(b.last() =~= t.skip(t.len() - m));
        assert(text::joined(a.drop_last(), "/"@) =~= t.take(t.len() - m - 1));
        assert(text::joined(b.drop_last(), "/"@) =~= t.take(t.len() - m - 1));
        lemma_joined_injective(a.drop_last(), b.drop_last());
        assert(a =~= a.drop_last().push(a.last()));
        assert(b =~= b.drop_last().push(b.last()));
    }
}

/// Under one output directory, two chains of keys lead to one path only if they are the same.
pub proof fn law_reference_paths_are_distinct(
    outdir: Seq<char>,
    a: Seq<Seq<char>>,
    b: Seq<Seq<char>>,
)
    requires
        a.len() > 0,
        b.len() > 0,
        reference(outdir, a) == reference(outdir, b),
    ensures
        a == b,
{
    let x = segments_of(a);
    let y = segments_of(b);
    let skip = (outdir + "/"@).len() as int;
    assert(text::joined(x, "/"@) =~= reference(outdir, a).skip(skip));
    assert(text::joined(y, "/"@) =~= reference(outdir, b).skip(skip));
    assert forall|i: int| 0 <= i < x.len() implies !(#[trigger] x[i]).contains('/') by {
        lemma_segment_has_no_slash(a[i]);
    }
    assert forall|i: int| 0 <= i < y.len() implies !(#[trigger] y[i]).contains('/') by {
        lemma_segment_has_no_slash(b[i]);
    }
    lemma_joined_injective(x, y);
    assert forall|i: int| 0 <= i < a.len() implies a[i] == b[i] by {
        assert(x[i] == y[i]);
        lemma_segment_injective(a[i], b[i]);
    }
    assert(a =~= b);
}

/// The paths of two fields are the same only if base and key are.
pub proof fn lemma_child_injective(p: Seq<char>, q: Seq<char>, k: Seq<char>, l: Seq<char>)
    requires
        child(p, k) == child(q, l),
    ensures
        p == q,
        k == l,
{
    reveal_strlit("/");
    lemma_segment_has_no_slash(k);
    lemma_segment_has_no_slash(l);
    let t = child(p, k);
    let m = segment(k).len();
    let n = segment(l).len();
    assert(t[t.len() - m - 1] == '/' && t[t.len() - n - 1] == '/');
    if m < n {
        assert(segment(l)[n - m - 1] == t[t.len() - m - 1]);
        assert(segment(l).contains('/'));
    } else if n < m {
        assert(segment(k)[m - n - 1] == t[t.len() - n - 1]);
        assert(segment(k).contains('/'));
    }
    assert(segment(k) =~= t.skip(t.len() - m));
    assert(segment(l) =~= t.skip(t.len() - m));
    assert(p =~= t.take(t.len() - m - 1));
    assert(q =~= t.take(t.len() - m - 1));
    lemma_segment_injective(k, l);
}

} // verus!
