//! What holds of labels, positions, counts and tables as a whole.

use crate::facts;
use crate::index;
use crate::index_path;
use crate::json;
use crate::json::Json;
use crate::kinds;
use crate::kinds::Kinds;
use crate::label;
use crate::names;
use crate::order;
use crate::order::Ordered;
use crate::ordmap::{Key, OrdMap};
use crate::path;
use crate::recorder;
use crate::records;
use crate::relations;
use crate::relations::Target;
use crate::same_records;
use crate::statistics;
use crate::statistics::{Fault, Lookups};
use crate::tables;
use crate::tables::{Log, Tables};
use crate::text;
use crate::walk::Occ;
use vstd::prelude::*;

verus! {

/// A field that only ever holds objects, or is null or missing, is labelled with the plain
/// path of those objects.
pub proof fn law_object_labels_are_plain(
    base: Seq<char>,
    k: Kinds,
    partial: bool,
    profile: Seq<Kinds>,
)
    requires
        k.object,
        !k.array && !k.boolean && !k.number && !k.string,
    ensures
        label::field_label(base, k, partial, profile) == path::json_file(base),
{
}

/// A field that only ever holds arrays, or is null or missing, is labelled with the label of
/// those arrays.
pub proof fn law_array_labels_are_plain(
    base: Seq<char>,
    k: Kinds,
    partial: bool,
    profile: Seq<Kinds>,
)
    requires
        k.array,
        !k.object && !k.boolean && !k.number && !k.string,
    ensures
        label::field_label(base, k, partial, profile) == label::array_of(
            label::member_label(base, profile),
        ),
{
    let l = label::array_of(label::member_label(base, profile));
    assert(seq![l] + kinds::kind_names(Kinds { array: false, null: false, ..k }) =~= seq![l]);
    label::lemma_union_of_one(l);
}

/// `inner` in `depth` arrays.
pub open spec fn in_arrays(inner: Seq<char>, depth: nat) -> Seq<char>
    decreases depth,
{
    if depth == 0 {
        inner
    } else {
        label::array_of(in_arrays(inner, (depth - 1) as nat))
    }
}

/// A text without `|` is one part.
proof fn lemma_one_part(t: Seq<char>)
    requires
        !t.contains('|'),
    ensures
        relations::split_state(t).parts.len() == 0,
        relations::split_state(t).current == t,
    decreases t.len(),
{
    if t.len() > 0 {
        let d = t.drop_last();
        if d.contains('|') {
            let i = choose|i: int| 0 <= i < d.len() && d[i] == '|';
            assert(t[i] == '|');
        }
        lemma_one_part(d);
        assert(t[t.len() - 1] == t.last());
        assert(t =~= d.push(t.last()));
    } else {
        assert(relations::split_state(t).current =~= t);
    }
}

proof fn lemma_in_arrays_has_no_bar(inner: Seq<char>, depth: nat)
    requires
        !inner.contains('|'),
    ensures
        !in_arrays(inner, depth).contains('|'),
    decreases depth,
{
    if depth > 0 {
        lemma_in_arrays_has_no_bar(inner, (depth - 1) as nat);
        reveal_strlit("array(");
        reveal_strlit(")");
        let m = in_arrays(inner, (depth - 1) as nat);
        let t = label::array_of(m);
        assert forall|i: int| 0 <= i < t.len() implies t[i] != '|' by {
            if 6 <= i < 6 + m.len() {
                assert(t[i] == m[i - 6]);
                assert(m.contains(m[i - 6]));
            }
        }
    }
}

/// The targets of a label that is one part.
proof fn lemma_only_part(t: Seq<char>, depth: nat, optional: bool)
    requires
        relations::split_union(t) == seq![t],
    ensures
        relations::label_targets(t, depth, optional) == match relations::inner_label(
            text::trimmed(t),
        ) {
            Some(inner) => if inner.len() < t.len() {
                relations::with_mixed(relations::label_targets(inner, depth + 1, optional), false)
            } else {
                Seq::empty()
            },
            None => if text::has_suffix(text::trimmed(t), ".json"@) {
                seq![Target { path: text::trimmed(t), depth, mixed: false, optional }]
            } else {
                Seq::empty()
            },
        },
{
    let parts = relations::split_union(t);
    let rest = relations::parts_targets(parts.drop_last(), false, depth, optional, t.len());
    assert(parts.drop_last().len() == 0);
    assert(rest =~= Seq::empty());
    assert(parts.last() == t);
    let whole = relations::parts_targets(parts, false, depth, optional, t.len());
    assert(relations::label_targets(t, depth, optional) == whole);
    match relations::inner_label(text::trimmed(t)) {
        Some(inner) => {
            if inner.len() < t.len() {
                let found = relations::with_mixed(
                    relations::label_targets(inner, depth + 1, optional),
                    false,
                );
                assert(whole == rest + found);
                assert(whole =~= found);
            } else {
                assert(whole =~= Seq::empty());
            }
        },
        None => {
            if text::has_suffix(text::trimmed(t), ".json"@) {
                assert(whole =~= seq![
                    Target { path: text::trimmed(t), depth, mixed: false, optional },
                ]);
            } else {
                assert(whole =~= Seq::empty());
            }
        },
    }
}

/// How many brackets a text opens and does not close.
pub open spec fn opened(t: Seq<char>) -> int
    decreases t.len(),
{
    if t.len() == 0 {
        0
    } else {
        opened(t.drop_last()) + if t.last() == '(' {
            1int
        } else if t.last() == ')' {
            -1
        } else {
            0
        }
    }
}

/// Every bracket is closed, and none that was not opened.
pub open spec fn balanced(t: Seq<char>) -> bool {
    opened(t) == 0 && forall|n: int| 0 <= n <= t.len() ==> opened(#[trigger] t.take(n)) >= 0
}

/// Inside of a bracket nothing is split.
proof fn lemma_inside_of_array(x: Seq<char>, n: int)
    requires
        balanced(x),
        0 <= n <= x.len(),
    ensures
        ({
            let s = relations::split_state("array("@ + x.take(n));
            s.parts.len() == 0 && s.current == "array("@ + x.take(n) && s.depth == 1 + opened(
                x.take(n),
            )
        }),
    decreases n,
{
    reveal_strlit("array(");
    let t = "array("@ + x.take(n);
    if n == 0 {
        assert(t =~= "array("@);
        reveal_with_fuel(relations::split_state, 7);
        assert(t.drop_last().drop_last().drop_last().drop_last().drop_last().drop_last().len()
            == 0);
        assert(relations::split_state(t).current =~= t);
    } else {
        lemma_inside_of_array(x, n - 1);
        assert(t.drop_last() =~= "array("@ + x.take(n - 1));
        assert(x.take(n).drop_last() =~= x.take(n - 1));
        assert(t.last() == x.take(n).last());
        assert(opened(x.take(n - 1)) >= 0);
        assert(opened(x.take(n)) >= 0);
        assert(relations::split_state(t).current =~= t);
    }
}

/// An array around a label puts its targets one array deeper and changes nothing else. The
/// brackets of the label are balanced. (Depth and nesting together stay the same, so that the
/// targets of both can be listed, or of neither.)
pub proof fn law_arrays_deepen_targets(x: Seq<char>, depth: nat, optional: bool)
    requires
        balanced(x),
    ensures
        relations::label_targets(label::array_of(x), depth, optional) == relations::label_targets(
            x,
            depth + 1,
            optional,
        ),
        depth + relations::nesting(label::array_of(x)) == depth + 1 + relations::nesting(x),
{
    reveal_strlit("array(");
    reveal_strlit(")");
    let t = label::array_of(x);
    lemma_inside_of_array(x, x.len() as int);
    assert(x.take(x.len() as int) =~= x);
    assert(t.drop_last() =~= "array("@ + x);
    assert(t.last() == ')');
    assert(relations::split_state(t).current =~= t);
    assert(relations::split_union(t) =~= seq![t]);
    lemma_only_part(t, depth, optional);
    assert(t[0] == 'a');
    assert(text::trimmed(t) == t);
    assert(t.take(6) =~= "array("@);
    assert(t.skip(t.len() - 1) =~= ")"@);
    assert(t.subrange(6, t.len() - 1) =~= x);
    assert(relations::inner_label(t) == Some(x));
    let found = relations::label_targets(x, depth + 1, optional);
    assert(relations::with_mixed(found, false) =~= found);
    let parts = relations::split_union(t);
    assert(parts.drop_last() =~= Seq::empty());
    assert(relations::parts_nesting(parts.drop_last(), t.len()) == 0);
    assert(relations::part_nesting(t, t.len()) == 1 + relations::nesting(x));
}

proof fn lemma_nested_targets(p: Seq<char>, nesting: nat, depth: nat)
    requires
        !p.contains('|'),
        text::has_suffix(p, ".json"@),
        !text::is_white(p[0]),
        relations::inner_label(p) is None,
    ensures
        relations::label_targets(in_arrays(p, nesting), depth, false) == seq![
            Target { path: p, depth: depth + nesting, mixed: false, optional: false },
        ],
    decreases nesting,
{
    reveal_strlit(".json");
    let t = in_arrays(p, nesting);
    lemma_in_arrays_has_no_bar(p, nesting);
    lemma_one_part(t);
    assert(relations::split_union(t) =~= seq![t]);
    lemma_only_part(t, depth, false);
    assert(p.skip(p.len() - 5)[4] == p.last());
    if nesting == 0 {
        assert(text::trimmed(t) == t);
        assert(relations::label_targets(t, depth, false) =~= seq![
            Target { path: p, depth: depth + nesting, mixed: false, optional: false },
        ]);
    } else {
        let m = in_arrays(p, (nesting - 1) as nat);
        reveal_strlit("array(");
        reveal_strlit(")");
        assert(t[0] == 'a' && t.last() == ')');
        assert(text::trimmed(t) == t);
        assert(t.take(6) =~= "array("@);
        assert(t.skip(t.len() - 1) =~= ")"@);
        assert(t.subrange(6, t.len() - 1) =~= m);
        assert(relations::inner_label(t) == Some(m));
        lemma_nested_targets(p, (nesting - 1) as nat, depth + 1);
        let found = relations::label_targets(m, depth + 1, false);
        assert(relations::with_mixed(found, false) =~= found);
        assert(relations::label_targets(t, depth, false) =~= found);
    }
}

/// The label of a field that holds objects, or arrays of them at any depth, leads to the
/// objects' schema and to nothing else. The path holds no `|` and starts with no white space.
pub proof fn law_reference_labels_lead_to_their_schemas(base: Seq<char>, nesting: nat)
    requires
        base.len() > 0,
        !base.contains('|'),
        !text::is_white(base[0]),
    ensures
        relations::field_targets(in_arrays(path::json_file(base), nesting)) == seq![
            Target {
                path: path::json_file(base),
                depth: nesting,
                mixed: false,
                optional: false,
            },
        ],
{
    reveal_strlit(".json");
    reveal_strlit(")");
    let p = path::json_file(base);
    let t = in_arrays(p, nesting);
    assert(p.skip(base.len() as int) =~= ".json"@);
    assert(p.last() == 'n');
    assert(p[0] == base[0]);
    assert(!p.contains('|')) by {
        assert forall|i: int| 0 <= i < p.len() implies p[i] != '|' by {
            if i < base.len() {
                assert(base.contains(base[i]));
            }
        }
    }
    assert(relations::inner_label(p) is None) by {
        if text::has_suffix(p, ")"@) {
            assert(p.skip(p.len() - 1)[0] == ')');
        }
    }
    lemma_nested_targets(p, nesting, 0);
    assert(t.len() > 0 && t.last() != '?') by {
        if nesting > 0 {
            assert(t.last() == ')');
        }
    }
    assert(text::without_tail(t, '?') == t);
    let one = Target { path: p, depth: nesting, mixed: false, optional: false };
    let found = seq![one];
    let keys = relations::target_keys(found);
    let listed = Seq::new(keys.len(), |i: int| (keys[i], i as nat));
    assert(listed.drop_last() =~= Seq::empty());
    reveal_with_fuel(order::sorted_set, 2);
    assert(order::ranked(keys) =~= seq![((p, nesting), 0nat)]);
    assert(relations::sorted_targets(found) =~= found);
    assert(found.drop_last() =~= Seq::empty());
    reveal_with_fuel(relations::dedup, 2);
    assert(relations::dedup(found) =~= found);
}

/// `n` in exactly `width` digits.
spec fn digits(n: nat, width: nat) -> Seq<char>
    decreases width,
{
    if width == 0 {
        Seq::empty()
    } else {
        digits(n / 10, (width - 1) as nat).push(text::digit(n % 10))
    }
}

spec fn power(width: nat) -> nat
    decreases width,
{
    if width == 0 {
        1
    } else {
        10 * power((width - 1) as nat)
    }
}

proof fn lemma_zero_digits(width: nat)
    ensures
        digits(0, width) == text::zeros(width),
    decreases width,
{
    if width > 0 {
        lemma_zero_digits((width - 1) as nat);
        assert(digits(0, width) =~= text::zeros(width));
    } else {
        assert(digits(0, width) =~= text::zeros(width));
    }
}

proof fn lemma_padded_digits(n: nat, width: nat)
    requires
        n < power(width),
        width > 0,
    ensures
        text::padded_decimal(n, width) == digits(n, width),
        text::decimal(n).len() <= width,
        text::decimal(n).len() > 0,
        digits(n, width).len() == width,
    decreases width,
{
    let w = (width - 1) as nat;
    if n < 10 {
        lemma_zero_digits(w);
        assert(n / 10 == 0 && n % 10 == n) by (nonlinear_arith)
            requires
                n < 10,
        ;
        assert(digits(n, width) =~= text::zeros(w).push(text::digit(n)));
        if width > 1 {
            assert(text::padded_decimal(n, width) =~= text::zeros(w) + seq![text::digit(n)]);
            assert(text::padded_decimal(n, width) =~= digits(n, width));
        } else {
            assert(text::padded_decimal(n, width) =~= digits(n, width));
        }
    } else {
        assert(w > 0) by {
            if w == 0 {
                reveal_with_fuel(power, 2);
            }
        }
        assert(n / 10 < power(w)) by (nonlinear_arith)
            requires
                n < 10 * power(w),
        ;
        lemma_padded_digits(n / 10, w);
        let head = text::decimal(n / 10);
        assert(text::decimal(n) == head.push(text::digit(n % 10)));
        if head.len() < w {
            let z = text::zeros((w - head.len()) as nat);
            assert(text::padded_decimal(n, width) =~= (z + head).push(text::digit(n % 10)));
        }
        assert(text::padded_decimal(n, width) =~= digits(n, width));
    }
}

proof fn lemma_lex_push<A: Ordered>(a: Seq<A>, b: Seq<A>, x: A, y: A)
    requires
        a.len() == b.len(),
    ensures
        order::lex_before(a.push(x), b.push(y)) <==> order::lex_before(a, b) || (a == b
            && x.before(y)),
    decreases a.len(),
{
    let p = a.push(x);
    let q = b.push(y);
    if a.len() == 0 {
        assert(a =~= b);
        assert(p.drop_first() =~= Seq::empty());
        assert(q.drop_first() =~= Seq::empty());
        reveal_with_fuel(order::lex_before, 2);
        A::irreflexive(x);
    } else {
        assert(p.drop_first() =~= a.drop_first().push(x));
        assert(q.drop_first() =~= b.drop_first().push(y));
        lemma_lex_push(a.drop_first(), b.drop_first(), x, y);
        if a[0] == b[0] {
            if a.drop_first() == b.drop_first() {
                assert(a =~= seq![a[0]] + a.drop_first());
                assert(b =~= seq![b[0]] + b.drop_first());
            }
        }
    }
}

proof fn lemma_digits_order(m: nat, n: nat, width: nat)
    requires
        m < power(width),
        n < power(width),
    ensures
        order::lex_before(digits(m, width), digits(n, width)) <==> m < n,
        digits(m, width) == digits(n, width) <==> m == n,
        digits(m, width).len() == width,
        digits(n, width).len() == width,
    decreases width,
{
    if width > 0 {
        let w = (width - 1) as nat;
        assert(m / 10 < power(w) && n / 10 < power(w)) by (nonlinear_arith)
            requires
                m < 10 * power(w),
                n < 10 * power(w),
        ;
        lemma_digits_order(m / 10, n / 10, w);
        let a = digits(m / 10, w);
        let b = digits(n / 10, w);
        let x = text::digit(m % 10);
        let y = text::digit(n % 10);
        lemma_lex_push(a, b, x, y);
        assert(x.before(y) <==> m % 10 < n % 10);
        assert(x == y <==> m % 10 == n % 10);
        if digits(m, width) == digits(n, width) {
            assert(a =~= digits(m, width).drop_last());
            assert(b =~= digits(n, width).drop_last());
            assert(digits(m, width).last() == x && digits(n, width).last() == y);
        }
    }
}

proof fn lemma_lex_concat<A: Ordered>(p: Seq<A>, q: Seq<A>, s: Seq<A>, t: Seq<A>)
    requires
        p.len() == q.len(),
    ensures
        order::lex_before(p + s, q + t) <==> order::lex_before(p, q) || (p == q
            && order::lex_before(s, t)),
    decreases p.len(),
{
    if p.len() == 0 {
        assert(p =~= q);
        assert(p + s =~= s);
        assert(q + t =~= t);
    } else {
        assert((p + s).drop_first() =~= p.drop_first() + s);
        assert((q + t).drop_first() =~= q.drop_first() + t);
        lemma_lex_concat(p.drop_first(), q.drop_first(), s, t);
        if p[0] == q[0] && p.drop_first() == q.drop_first() {
            assert(p =~= seq![p[0]] + p.drop_first());
            assert(q =~= seq![q[0]] + q.drop_first());
        }
    }
}

/// What follows the first place in a sort key.
spec fn key_tail(index: Seq<nat>) -> Seq<char> {
    if index.len() <= 1 {
        Seq::empty()
    } else {
        "/"@ + index_path::sort_key(index.drop_first())
    }
}

proof fn lemma_key_split(index: Seq<nat>)
    requires
        index.len() > 0,
    ensures
        index_path::sort_key(index) == text::padded_decimal(index[0], 20) + key_tail(index),
{
    let parts = index_path::padded(index);
    if index.len() == 1 {
        assert(index_path::sort_key(index) =~= text::padded_decimal(index[0], 20) + key_tail(
            index,
        ));
    } else {
        text::lemma_joined_first(parts, "/"@);
        assert(parts.drop_first() =~= index_path::padded(index.drop_first()));
        assert(index_path::sort_key(index) =~= text::padded_decimal(index[0], 20) + key_tail(
            index,
        ));
    }
}

/// Every place fits into twenty digits.
pub open spec fn fits(index: Seq<nat>) -> bool {
    forall|i: int| 0 <= i < index.len() ==> #[trigger] index[i] <= u64::MAX
}

/// Sort keys stand in the order of the positions that they are made from.
pub proof fn law_sort_keys_follow_positions(a: Seq<nat>, b: Seq<nat>)
    requires
        fits(a),
        fits(b),
    ensures
        index_path::sort_key(a).before(index_path::sort_key(b)) <==> a.before(b),
    decreases a.len(),
{
    if a.len() == 0 {
        assert(index_path::sort_key(a) =~= Seq::empty());
        if b.len() > 0 {
            lemma_key_split(b);
            reveal_with_fuel(power, 21);
            lemma_padded_digits(b[0], 20);
        } else {
            assert(index_path::sort_key(b) =~= Seq::empty());
        }
    } else if b.len() == 0 {
        assert(index_path::sort_key(b) =~= Seq::empty());
    } else {
        lemma_key_split(a);
        lemma_key_split(b);
        reveal_with_fuel(power, 21);
        assert(a[0] <= u64::MAX && b[0] <= u64::MAX);
        lemma_padded_digits(a[0], 20);
        lemma_padded_digits(b[0], 20);
        lemma_digits_order(a[0], b[0], 20);
        let p = text::padded_decimal(a[0], 20);
        let q = text::padded_decimal(b[0], 20);
        lemma_lex_concat(p, q, key_tail(a), key_tail(b));
        let c = a.drop_first();
        let d = b.drop_first();
        assert(fits(c)) by {
            assert forall|i: int| 0 <= i < c.len() implies #[trigger] c[i] <= u64::MAX by {
                assert(c[i] == a[i + 1]);
            }
        }
        assert(fits(d)) by {
            assert forall|i: int| 0 <= i < d.len() implies #[trigger] d[i] <= u64::MAX by {
                assert(d[i] == b[i + 1]);
            }
        }
        law_sort_keys_follow_positions(c, d);
        reveal_strlit("/");
        if a.len() > 1 && b.len() > 1 {
            lemma_lex_concat("/"@, "/"@, index_path::sort_key(c), index_path::sort_key(d));
            order::Ordered::irreflexive("/"@);
        }
    }
}

proof fn lemma_same_counts<K: Key, V>(
    a: OrdMap<K, i64>,
    b: OrdMap<K, i64>,
    pairs: Seq<(K::Model, V)>,
)
    requires
        tables::counts_entries(a, pairs),
        tables::counts_entries(b, pairs),
    ensures
        a.map() == b.map(),
{
    let m = a.map();
    let n = b.map();
    assert forall|k: K::Model| m.dom().contains(k) == n.dom().contains(k) by {
        assert(m.contains_key(k) <==> order::firsts(pairs).contains(k));
        assert(n.contains_key(k) <==> order::firsts(pairs).contains(k));
    }
    assert forall|k: K::Model| #[trigger] m.dom().contains(k) implies m[k] == n[k] by {
        assert(m.contains_key(k) && n.contains_key(k));
        assert(m[k] == order::under(pairs, k).len());
        assert(n[k] == order::under(pairs, k).len());
    }
    assert(m =~= n);
}

/// Two tables that hold one log agree row by row: however the entries came in, numbered or by
/// name, the same is stored.
pub proof fn law_tables_are_fixed_by_their_log<P: Key, F: Key>(
    a: Tables<P, F>,
    b: Tables<P, F>,
    log: Log<P::Model, F::Model>,
)
    requires
        a.holds(log),
        b.holds(log),
    ensures
        a.object_totals.map() == b.object_totals.map(),
        a.object_field_facts.map().dom() == b.object_field_facts.map().dom(),
        forall|k: (P::Model, F::Model)| #[trigger]
            a.object_field_facts.map().contains_key(k) ==> a.object_field_facts.map()[k].count
                == b.object_field_facts.map()[k].count
                && a.object_field_facts.map()[k].counts.tally()
                == b.object_field_facts.map()[k].counts.tally(),
        a.array_member_facts.map().dom() == b.array_member_facts.map().dom(),
        forall|k: (P::Model, nat)| #[trigger]
            a.array_member_facts.map().contains_key(k) ==> a.array_member_facts.map()[k].count
                == b.array_member_facts.map()[k].count
                && a.array_member_facts.map()[k].counts.tally()
                == b.array_member_facts.map()[k].counts.tally(),
        a.item_schema_counts.map().dom() == b.item_schema_counts.map().dom(),
        forall|k: ((nat, P::Model), Seq<char>)| #[trigger]
            a.item_schema_counts.map().contains_key(k)
                ==> a.item_schema_counts.map()[k].object_count
                == b.item_schema_counts.map()[k].object_count && json::schema_model(
                a.item_schema_counts.map()[k].schema@,
            ) == json::schema_model(b.item_schema_counts.map()[k].schema@),
        index::texts_of(a.item_schema_index_refs) == index::texts_of(b.item_schema_index_refs),
        a.item_schema_field_counts.map() == b.item_schema_field_counts.map(),
{
    lemma_same_counts(a.object_totals, b.object_totals, log.objects);
    assert(a.object_field_facts.map().dom() =~= b.object_field_facts.map().dom());
    assert(a.array_member_facts.map().dom() =~= b.array_member_facts.map().dom());
    assert(a.item_schema_counts.map().dom() =~= b.item_schema_counts.map().dom());
    lemma_same_counts(a.item_schema_field_counts, b.item_schema_field_counts, log.item_fields);
}

/// An occurrence whose schema stands for an array.
pub open spec fn in_container(
    outdir: Seq<char>,
    l: Lookups,
    o: Occ<Seq<Seq<char>>>,
) -> bool {
    statistics::resolved(outdir, l.paths, l.refs, o) matches Ok(p) && index::is_container(
        l.definitions[p],
    )
}

/// Every object of a walk is counted once, for the schema that describes it, unless that
/// schema stands for an array.
pub proof fn law_every_object_is_counted_once(
    outdir: Seq<char>,
    l: Lookups,
    occs: Seq<Occ<Seq<Seq<char>>>>,
)
    requires
        statistics::statistics_fault(outdir, l, occs) is None,
        forall|i: int| 0 <= i < occs.len() ==> !in_container(outdir, l, #[trigger] occs[i]),
    ensures
        statistics::hits(outdir, l, occs).len() == occs.len(),
        forall|i: int|
            0 <= i < occs.len() ==> statistics::resolved(
                outdir,
                l.paths,
                l.refs,
                #[trigger] occs[i],
            ) == Ok::<_, Fault>(statistics::hits(outdir, l, occs)[i].0) && statistics::hits(
                outdir,
                l,
                occs,
            )[i].1 == occs[i].fields,
    decreases occs.len(),
{
    if occs.len() > 0 {
        let d = occs.drop_last();
        let n = occs.len() - 1;
        assert forall|i: int| 0 <= i < d.len() implies !in_container(outdir, l, #[trigger] d[i]) by {
            assert(d[i] == occs[i]);
        }
        law_every_object_is_counted_once(outdir, l, d);
        assert(!in_container(outdir, l, occs[n]));
        let whole = statistics::hits(outdir, l, occs);
        let before = statistics::hits(outdir, l, d);
        assert forall|i: int| 0 <= i < occs.len() implies statistics::resolved(
            outdir,
            l.paths,
            l.refs,
            #[trigger] occs[i],
        ) == Ok::<_, Fault>(whole[i].0) && whole[i].1 == occs[i].fields by {
            if i < n {
                assert(d[i] == occs[i]);
                assert(whole[i] == before[i]);
            }
        }
    }
}

/// A field is counted at most once for each counted object.
pub proof fn law_fields_are_counted_once_per_object(
    hits: Seq<(Seq<char>, Seq<(Seq<char>, Json)>)>,
    p: Seq<char>,
    name: Seq<char>,
)
    requires
        forall|i: int|
            0 <= i < hits.len() ==> order::ascending(json::names((#[trigger] hits[i]).1)),
    ensures
        order::under(statistics::field_hits(hits), (p, name)).len() <= order::under(hits, p).len(),
    decreases hits.len(),
{
    if hits.len() > 0 {
        let d = hits.drop_last();
        let last = hits[hits.len() - 1];
        assert forall|i: int| 0 <= i < d.len() implies order::ascending(
            json::names((#[trigger] d[i]).1),
        ) by {
            assert(d[i] == hits[i]);
        }
        law_fields_are_counted_once_per_object(d, p, name);
        let own = statistics::hits_of_fields(last.0, last.1);
        order::lemma_under_concat(statistics::field_hits(d), own, (p, name));
        let names = json::names(last.1);
        if last.0 == p && names.contains(name) {
            let i = choose|i: int| 0 <= i < names.len() && names[i] == name;
            assert forall|j: int| 0 <= j < own.len() implies (i <= j < i + 1 <==> (
            #[trigger] own[j]).0 == (p, name)) by {
                assert(names[j] == last.1[j].0);
                if j < i {
                    order::lemma_before_excludes(names[j], names[i]);
                } else if i < j {
                    order::lemma_before_excludes(names[i], names[j]);
                }
            }
            order::lemma_under_range(own, (p, name), i, i + 1);
        } else {
            assert forall|j: int| 0 <= j < own.len() implies (#[trigger] own[j]).0 != (p, name) by {
                assert(names[j] == last.1[j].0);
            }
            order::lemma_under_none(own, (p, name));
        }
    }
}

/// Items that all have one schema share the file of their array, which lists every position.
pub proof fn law_equal_items_share_one_file(
    base: Seq<char>,
    prefix: Seq<char>,
    items: Seq<(Seq<nat>, Seq<(Seq<char>, Json)>)>,
    container: bool,
)
    requires
        items.len() > 0,
        forall|i: int|
            0 <= i < items.len() ==> (#[trigger] records::item_rows(prefix, items)[i]).0
                == records::item_rows(prefix, items)[0].0,
    ensures
        ({
            let recs = records::item_records(
                base,
                records::distinct_rows(records::item_rows(prefix, items)),
                records::item_refs(prefix, items),
                container,
            );
            &&& recs.len() == 1
            &&& recs[0].schema_path == path::json_file(base)
            &&& recs[0].schema == records::item_rows(prefix, items)[0].1
            &&& forall|i: int|
                0 <= i < items.len() ==> recs[0].index_paths.contains((#[trigger] items[i]).0)
        }),
{
    let rows = records::item_rows(prefix, items);
    let refs = records::item_refs(prefix, items);
    let canon = rows[0].0;
    let canons = order::sorted_set(order::firsts(rows));
    order::lemma_sorted_set(order::firsts(rows));
    assert(order::firsts(rows)[0] == canon);
    assert(canons.contains(canon));
    assert forall|i: int| 0 <= i < canons.len() implies #[trigger] canons[i] == canon by {
        assert(canons.contains(canons[i]));
        let j = choose|j: int| 0 <= j < rows.len() && order::firsts(rows)[j] == canons[i];
        assert(rows[j].0 == canon);
    }
    if canons.len() > 1 {
        order::lemma_before_excludes(canons[0], canons[1]);
    }
    assert(rows =~= seq![rows[0]] + rows.skip(1));
    facts::lemma_under_one(rows[0], canon);
    order::lemma_under_concat(seq![rows[0]], rows.skip(1), canon);
    assert(order::under(rows, canon)[0] == rows[0].1);
    let recs = records::item_records(base, records::distinct_rows(rows), refs, container);
    order::lemma_sorted_set(order::under(refs, canon));
    assert forall|i: int| 0 <= i < items.len() implies recs[0].index_paths.contains(
        (#[trigger] items[i]).0,
    ) by {
        assert(rows[i].0 == canon);
        assert(refs[i] == (canon, items[i].0));
        assert(refs.contains((canon, items[i].0)));
        same_records::lemma_under_contains(refs, canon, items[i].0);
    }
}

/// No two records of merged candidates have one schema: each schema is written once.
pub proof fn law_merged_schemas_are_distinct(
    candidates: Seq<(Seq<char>, Seq<(Seq<char>, Seq<char>)>)>,
    i: int,
    j: int,
)
    requires
        0 <= i < j < records::merged(candidates).len(),
    ensures
        records::merged(candidates)[i].schema != records::merged(candidates)[j].schema,
{
    let canons = order::sorted_set(order::firsts(records::canonical_pairs(candidates)));
    order::lemma_sorted_set(order::firsts(records::canonical_pairs(candidates)));
    lemma_merged_text(candidates, i);
    lemma_merged_text(candidates, j);
    order::lemma_before_excludes(canons[i], canons[j]);
}

pub proof fn lemma_merged_text(candidates: Seq<(Seq<char>, Seq<(Seq<char>, Seq<char>)>)>, i: int)
    requires
        0 <= i < records::merged(candidates).len(),
    ensures
        json::compact_json(records::merged(candidates)[i].schema) == order::sorted_set(
            order::firsts(records::canonical_pairs(candidates)),
        )[i],
{
    let pairs = records::canonical_pairs(candidates);
    let canons = order::sorted_set(order::firsts(pairs));
    let same = order::under(pairs, canons[i]);
    order::lemma_sorted_set(order::firsts(pairs));
    assert(canons.contains(canons[i]));
    order::lemma_under_nonempty(pairs, canons[i]);
    order::lemma_ranked(order::firsts(same));
    let x = same[order::ranked(order::firsts(same))[0].1 as int];
    assert(same.contains(x));
    same_records::lemma_under_contains(pairs, canons[i], x);
    let k = choose|k: int| 0 <= k < pairs.len() && pairs[k] == (canons[i], x);
    assert(candidates[k] == x);
}

proof fn lemma_members_depths(base: Seq<char>, items: Seq<Json>, depth: nat)
    ensures
        forall|i: int|
            0 <= i < recorder::members_log(base, items, depth).len() ==> (
            #[trigger] recorder::members_log(base, items, depth)[i]).0.1 < depth
                + recorder::members_log(base, items, depth).len(),
    decreases items,
{
    let whole = recorder::members_log(base, items, depth);
    if items.len() > 0 {
        let head = recorder::members_log(base, items.drop_last(), depth);
        lemma_members_depths(base, items.drop_last(), depth);
        let own = seq![((base, depth), items.last())];
        let tail = match items.last() {
            Json::Array(nested) => recorder::members_log(base, nested, depth + 1),
            _ => Seq::empty(),
        };
        if items.last() is Array {
            assert(decreases_to!(items => items.last()));
            lemma_members_depths(base, items.last()->Array_0, depth + 1);
        }
        assert(whole == head + own + tail);
        assert forall|i: int| 0 <= i < whole.len() implies (#[trigger] whole[i]).0.1 < depth
            + whole.len() by {
            if i < head.len() {
                assert(whole[i] == head[i]);
            } else if i > head.len() {
                assert(whole[i] == tail[i - head.len() - 1]);
            }
        }
    }
}

proof fn lemma_fields_depths(at: Seq<char>, fields: Seq<(Seq<char>, Json)>)
    ensures
        forall|i: int|
            0 <= i < recorder::fields_members(at, fields).len() ==> (
            #[trigger] recorder::fields_members(at, fields)[i]).0.1 < recorder::fields_members(
                at,
                fields,
            ).len(),
    decreases fields.len(),
{
    if fields.len() > 0 {
        let whole = recorder::fields_members(at, fields);
        let head = recorder::fields_members(at, fields.drop_last());
        lemma_fields_depths(at, fields.drop_last());
        if let Json::Array(items) = fields.last().1 {
            let tail = recorder::members_log(path::child(at, fields.last().0), items, 0);
            lemma_members_depths(path::child(at, fields.last().0), items, 0);
            assert forall|i: int| 0 <= i < whole.len() implies (#[trigger] whole[i]).0.1
                < whole.len() by {
                if i < head.len() {
                    assert(whole[i] == head[i]);
                } else {
                    assert(whole[i] == tail[i - head.len()]);
                }
            }
        } else {
            assert(whole =~= head);
        }
    }
}

proof fn lemma_log_depths(occs: Seq<Occ<Seq<char>>>)
    ensures
        forall|i: int|
            0 <= i < recorder::log_of(occs).members.len() ==> (#[trigger] recorder::log_of(
                occs,
            ).members[i]).0.1 < recorder::log_of(occs).members.len(),
    decreases occs.len(),
{
    if occs.len() > 0 {
        let whole = recorder::log_of(occs).members;
        let head = recorder::log_of(occs.drop_last()).members;
        let tail = recorder::own_log(occs.last()).members;
        lemma_log_depths(occs.drop_last());
        lemma_fields_depths(occs.last().at, occs.last().fields);
        assert forall|i: int| 0 <= i < whole.len() implies (#[trigger] whole[i]).0.1
            < whole.len() by {
            if i < head.len() {
                assert(whole[i] == head[i]);
            } else {
                assert(whole[i] == tail[i - head.len()]);
            }
        }
    }
}

proof fn lemma_few_counts<K, V>(pairs: Seq<(K, V)>)
    requires
        pairs.len() <= i64::MAX,
    ensures
        tables::counts_fit(pairs),
{
    assert forall|k: K| (#[trigger] order::under(pairs, k)).len() <= i64::MAX by {
        statistics::lemma_under_len(pairs, k);
    }
}

/// A walk that adds no more entries to the log than there are numbers for names can be
/// recorded: every count fits, and there is a number for every name.
pub proof fn law_small_logs_fit(occs: Seq<Occ<Seq<char>>>)
    requires
        tables::log_size(recorder::log_of(occs)) <= u32::MAX,
    ensures
        tables::facts_fit(recorder::log_of(occs)),
        names::fits(names::names_of(occs)),
{
    let log = recorder::log_of(occs);
    names::law_names_are_no_more_than_facts(occs);
    lemma_few_counts(log.objects);
    lemma_few_counts(log.fields);
    lemma_few_counts(log.members);
    lemma_few_counts(log.items);
    lemma_few_counts(log.item_fields);
    lemma_log_depths(occs);
}

} // verus!
