//! Strict total orders and the sequences that are sorted by them.

use vstd::prelude::*;

verus! {

/// A type whose values stand in a strict total order.
pub trait Ordered: Sized {
    /// `self` comes strictly before `other`.
    spec fn before(self, other: Self) -> bool;

    proof fn irreflexive(a: Self)
        ensures
            !a.before(a),
    ;

    proof fn transitive(a: Self, b: Self, c: Self)
        requires
            a.before(b),
            b.before(c),
        ensures
            a.before(c),
    ;

    proof fn total(a: Self, b: Self)
        ensures
            a.before(b) || b.before(a) || a == b,
    ;
}

impl Ordered for nat {
    open spec fn before(self, other: Self) -> bool {
        self < other
    }

    proof fn irreflexive(a: Self) {
    }

    proof fn transitive(a: Self, b: Self, c: Self) {
    }

    proof fn total(a: Self, b: Self) {
    }
}

/// Characters are ordered by code point.
impl Ordered for char {
    open spec fn before(self, other: Self) -> bool {
        (self as int) < (other as int)
    }

    proof fn irreflexive(a: Self) {
    }

    proof fn transitive(a: Self, b: Self, c: Self) {
    }

    proof fn total(a: Self, b: Self) {
    }
}

/// The lexicographic order: at the first place where two sequences differ, the smaller
/// element decides; a proper prefix comes first.
pub open spec fn lex_before<A: Ordered>(a: Seq<A>, b: Seq<A>) -> bool
    decreases a.len(),
{
    if b.len() == 0 {
        false
    } else if a.len() == 0 {
        true
    } else if a[0] == b[0] {
        lex_before(a.drop_first(), b.drop_first())
    } else {
        a[0].before(b[0])
    }
}

proof fn lex_irreflexive<A: Ordered>(a: Seq<A>)
    ensures
        !lex_before(a, a),
    decreases a.len(),
{
    if a.len() > 0 {
        lex_irreflexive(a.drop_first());
    }
}

proof fn lex_transitive<A: Ordered>(a: Seq<A>, b: Seq<A>, c: Seq<A>)
    requires
        lex_before(a, b),
        lex_before(b, c),
    ensures
        lex_before(a, c),
    decreases a.len(),
{
    if a.len() > 0 {
        if a[0] == b[0] && b[0] == c[0] {
            lex_transitive(a.drop_first(), b.drop_first(), c.drop_first());
        } else if a[0] != b[0] && b[0] != c[0] {
            A::transitive(a[0], b[0], c[0]);
            if a[0] == c[0] {
                A::irreflexive(a[0]);
            }
        }
    }
}

proof fn lex_total<A: Ordered>(a: Seq<A>, b: Seq<A>)
    ensures
        lex_before(a, b) || lex_before(b, a) || a == b,
    decreases a.len(),
{
    if a.len() > 0 && b.len() > 0 {
        A::total(a[0], b[0]);
        if a[0] == b[0] {
            lex_total(a.drop_first(), b.drop_first());
            if a.drop_first() == b.drop_first() {
                assert(a =~= seq![a[0]] + a.drop_first());
                assert(b =~= seq![b[0]] + b.drop_first());
            }
        }
    } else if a.len() == 0 && b.len() == 0 {
        assert(a =~= b);
    }
}

impl<A: Ordered> Ordered for Seq<A> {
    open spec fn before(self, other: Self) -> bool {
        lex_before(self, other)
    }

    proof fn irreflexive(a: Self) {
        lex_irreflexive(a);
    }

    proof fn transitive(a: Self, b: Self, c: Self) {
        lex_transitive(a, b, c);
    }

    proof fn total(a: Self, b: Self) {
        lex_total(a, b);
    }
}

/// Pairs are ordered by their first component, and by their second where the first agrees.
impl<A: Ordered, B: Ordered> Ordered for (A, B) {
    open spec fn before(self, other: Self) -> bool {
        self.0.before(other.0) || (self.0 == other.0 && self.1.before(other.1))
    }

    proof fn irreflexive(a: Self) {
        A::irreflexive(a.0);
        B::irreflexive(a.1);
    }

    proof fn transitive(a: Self, b: Self, c: Self) {
        if a.0 != b.0 && b.0 != c.0 {
            A::transitive(a.0, b.0, c.0);
        } else if a.0 == b.0 && b.0 == c.0 {
            A::irreflexive(a.0);
            B::transitive(a.1, b.1, c.1);
        }
    }

    proof fn total(a: Self, b: Self) {
        A::total(a.0, b.0);
        B::total(a.1, b.1);
    }
}

/// Every element comes before each later one.
pub open spec fn ascending<K: Ordered>(s: Seq<K>) -> bool {
    forall|i: int, j: int| 0 <= i < j < s.len() ==> (#[trigger] s[i]).before(#[trigger] s[j])
}

/// An ascending sequence with `k` at its place; a `k` that is there already stays as it is.
pub open spec fn with_key<K: Ordered>(s: Seq<K>, k: K) -> Seq<K>
    decreases s.len(),
{
    if s.len() == 0 {
        seq![k]
    } else if s.last() == k {
        s
    } else if s.last().before(k) {
        s.push(k)
    } else {
        with_key(s.drop_last(), k).push(s.last())
    }
}

/// The elements of `s`, each once, in ascending order.
pub open spec fn sorted_set<K: Ordered>(s: Seq<K>) -> Seq<K>
    decreases s.len(),
{
    if s.len() == 0 {
        Seq::empty()
    } else {
        with_key(sorted_set(s.drop_last()), s.last())
    }
}

pub proof fn lemma_before_excludes<K: Ordered>(a: K, b: K)
    requires
        a.before(b),
    ensures
        a != b,
        !b.before(a),
{
    K::irreflexive(a);
    if b.before(a) {
        K::transitive(a, b, a);
    }
}

pub proof fn lemma_with_key<K: Ordered>(s: Seq<K>, k: K)
    requires
        ascending(s),
    ensures
        ascending(with_key(s, k)),
        forall|x: K| #[trigger] with_key(s, k).contains(x) <==> s.contains(x) || x == k,
    decreases s.len(),
{
    let w = with_key(s, k);
    if s.len() == 0 {
        assert(w[0] == k);
    } else if s.last() == k {
        assert(s[s.len() - 1] == k);
    } else if s.last().before(k) {
        assert forall|i: int, j: int| 0 <= i < j < w.len() implies (#[trigger] w[i]).before(
            #[trigger] w[j],
        ) by {
            if j == s.len() && i < s.len() - 1 {
                K::transitive(s[i], s.last(), k);
            }
        }
        assert(w[s.len() as int] == k);
        assert forall|x: K| #[trigger] w.contains(x) <==> s.contains(x) || x == k by {
            if s.contains(x) {
                let i = choose|i: int| 0 <= i < s.len() && s[i] == x;
                assert(w[i] == x);
            }
        }
    } else {
        let d = s.drop_last();
        K::total(s.last(), k);
        lemma_with_key(d, k);
        let v = with_key(d, k);
        assert forall|i: int, j: int| 0 <= i < j < w.len() implies (#[trigger] w[i]).before(
            #[trigger] w[j],
        ) by {
            if j == v.len() {
                assert(v.contains(v[i]));
                if d.contains(v[i]) {
                    let m = choose|m: int| 0 <= m < d.len() && d[m] == v[i];
                    assert(s[m].before(s[s.len() - 1]));
                }
            }
        }
        assert forall|x: K| #[trigger] w.contains(x) <==> s.contains(x) || x == k by {
            if w.contains(x) {
                let i = choose|i: int| 0 <= i < w.len() && w[i] == x;
                if i < v.len() {
                    assert(v.contains(x));
                    if d.contains(x) {
                        let m = choose|m: int| 0 <= m < d.len() && d[m] == x;
                        assert(s[m] == x);
                    }
                } else {
                    assert(s[s.len() - 1] == x);
                }
            }
            if s.contains(x) {
                let i = choose|i: int| 0 <= i < s.len() && s[i] == x;
                if i < d.len() {
                    assert(d[i] == x);
                    assert(v.contains(x));
                    let m = choose|m: int| 0 <= m < v.len() && v[m] == x;
                    assert(w[m] == x);
                } else {
                    assert(w[v.len() as int] == x);
                }
            }
            if x == k {
                assert(v.contains(x));
                let m = choose|m: int| 0 <= m < v.len() && v[m] == x;
                assert(w[m] == x);
            }
        }
    }
}

/// Where `k` goes: behind the elements before it, ahead of those after it.
pub proof fn lemma_with_key_insert<K: Ordered>(s: Seq<K>, k: K, i: int)
    requires
        0 <= i <= s.len(),
        forall|j: int| 0 <= j < i ==> (#[trigger] s[j]).before(k),
        forall|j: int| i <= j < s.len() ==> k.before(#[trigger] s[j]),
    ensures
        with_key(s, k) == s.insert(i, k),
    decreases s.len(),
{
    if s.len() == 0 {
        assert(s.insert(i, k) =~= seq![k]);
    } else if i == s.len() {
        lemma_before_excludes(s[s.len() - 1], k);
        assert(s.insert(i, k) =~= s.push(k));
    } else {
        lemma_before_excludes(k, s[s.len() - 1]);
        let d = s.drop_last();
        lemma_with_key_insert(d, k, i);
        assert(s.insert(i, k) =~= d.insert(i, k).push(s.last()));
    }
}

pub proof fn lemma_with_key_present<K: Ordered>(s: Seq<K>, i: int)
    requires
        ascending(s),
        0 <= i < s.len(),
    ensures
        with_key(s, s[i]) == s,
    decreases s.len(),
{
    if i < s.len() - 1 {
        lemma_before_excludes(s[i], s[s.len() - 1]);
        lemma_with_key_present(s.drop_last(), i);
        assert(s =~= s.drop_last().push(s.last()));
    }
}

pub proof fn lemma_sorted_set<K: Ordered>(s: Seq<K>)
    ensures
        ascending(sorted_set(s)),
        forall|x: K| #[trigger] sorted_set(s).contains(x) <==> s.contains(x),
    decreases s.len(),
{
    if s.len() > 0 {
        let d = s.drop_last();
        lemma_sorted_set(d);
        lemma_with_key(sorted_set(d), s.last());
        assert forall|x: K| #[trigger] sorted_set(s).contains(x) <==> s.contains(x) by {
            if s.contains(x) {
                let i = choose|i: int| 0 <= i < s.len() && s[i] == x;
                if i < d.len() {
                    assert(d[i] == x);
                }
            }
            if d.contains(x) {
                let i = choose|i: int| 0 <= i < d.len() && d[i] == x;
                assert(s[i] == x);
            }
            assert(s[s.len() - 1] == s.last());
        }
    }
}

/// An ascending sequence is fixed by what it contains.
pub proof fn lemma_ascending_unique<K: Ordered>(a: Seq<K>, b: Seq<K>)
    requires
        ascending(a),
        ascending(b),
        forall|x: K| a.contains(x) <==> b.contains(x),
    ensures
        a == b,
    decreases a.len(),
{
    if a.len() == 0 {
        if b.len() > 0 {
            assert(b.contains(b[0]));
        }
        assert(a =~= b);
    } else {
        assert(a.contains(a[0]));
        assert(b.len() > 0);
        let x = a[a.len() - 1];
        let y = b[b.len() - 1];
        assert(a.contains(x) && b.contains(y));
        if x != y {
            let i = choose|i: int| 0 <= i < b.len() && b[i] == x;
            let j = choose|j: int| 0 <= j < a.len() && a[j] == y;
            assert(b[i].before(y) && a[j].before(x));
            lemma_before_excludes(x, y);
        }
        let c = a.drop_last();
        let d = b.drop_last();
        assert forall|z: K| c.contains(z) <==> d.contains(z) by {
            lemma_drop_last_contains(a, z);
            lemma_drop_last_contains(b, z);
        }
        lemma_ascending_unique(c, d);
        assert(a =~= c.push(x));
        assert(b =~= d.push(y));
    }
}

proof fn lemma_drop_last_contains<K: Ordered>(s: Seq<K>, z: K)
    requires
        ascending(s),
        s.len() > 0,
    ensures
        s.drop_last().contains(z) <==> s.contains(z) && z != s.last(),
{
    let d = s.drop_last();
    if d.contains(z) {
        let i = choose|i: int| 0 <= i < d.len() && d[i] == z;
        assert(s[i] == z);
        lemma_before_excludes(s[i], s[s.len() - 1]);
    }
    if s.contains(z) && z != s.last() {
        let i = choose|i: int| 0 <= i < s.len() && s[i] == z;
        assert(d[i] == z);
    }
}

/// The second components of the pairs whose first is `k`, in their order.
pub open spec fn under<K, T>(pairs: Seq<(K, T)>, k: K) -> Seq<T>
    decreases pairs.len(),
{
    if pairs.len() == 0 {
        Seq::empty()
    } else if pairs.last().0 == k {
        under(pairs.drop_last(), k).push(pairs.last().1)
    } else {
        under(pairs.drop_last(), k)
    }
}

/// The first components of the pairs.
pub open spec fn firsts<K, T>(pairs: Seq<(K, T)>) -> Seq<K> {
    Seq::new(pairs.len(), |i: int| pairs[i].0)
}

/// The elements with their positions, in ascending order: a stable sort.
pub open spec fn ranked<K: Ordered>(s: Seq<K>) -> Seq<(K, nat)> {
    sorted_set(Seq::new(s.len(), |i: int| (s[i], i as nat)))
}

pub proof fn lemma_ranked<K: Ordered>(s: Seq<K>)
    ensures
        s.len() > 0 ==> ranked(s).len() > 0,
        forall|i: int|
            0 <= i < ranked(s).len() ==> (#[trigger] ranked(s)[i]).1 < s.len() && ranked(s)[i].0
                == s[ranked(s)[i].1 as int],
{
    let all = Seq::new(s.len(), |i: int| (s[i], i as nat));
    lemma_sorted_set(all);
    if s.len() > 0 {
        assert(all.contains(all[0]));
        assert(ranked(s).contains(all[0]));
    }
    assert forall|i: int| 0 <= i < ranked(s).len() implies (#[trigger] ranked(s)[i]).1 < s.len()
        && ranked(s)[i].0 == s[ranked(s)[i].1 as int] by {
        assert(ranked(s).contains(ranked(s)[i]));
        assert(all.contains(ranked(s)[i]));
    }
}

/// A key has something under it exactly if it is a first component.
pub proof fn lemma_under_nonempty<K, T>(pairs: Seq<(K, T)>, k: K)
    ensures
        under(pairs, k).len() > 0 <==> firsts(pairs).contains(k),
    decreases pairs.len(),
{
    if pairs.len() > 0 {
        let d = pairs.drop_last();
        lemma_under_nonempty(d, k);
        assert(firsts(pairs)[pairs.len() - 1] == pairs.last().0);
        if firsts(d).contains(k) {
            let i = choose|i: int| 0 <= i < d.len() && firsts(d)[i] == k;
            assert(firsts(pairs)[i] == k);
        }
        if firsts(pairs).contains(k) && pairs.last().0 != k {
            let i = choose|i: int| 0 <= i < pairs.len() && firsts(pairs)[i] == k;
            assert(firsts(d)[i] == k);
        }
    }
}

/// Under a first component that occurs once stands what is beside it.
pub proof fn lemma_under_unique<K: Ordered, T>(pairs: Seq<(K, T)>, i: int)
    requires
        ascending(firsts(pairs)),
        0 <= i < pairs.len(),
    ensures
        under(pairs, pairs[i].0) == seq![pairs[i].1],
    decreases pairs.len(),
{
    let d = pairs.drop_last();
    assert forall|a: int, b: int| 0 <= a < b < d.len() implies (#[trigger] firsts(d)[a]).before(
        #[trigger] firsts(d)[b],
    ) by {
        assert(firsts(pairs)[a].before(firsts(pairs)[b]));
    }
    if i == pairs.len() - 1 {
        lemma_under_nonempty(d, pairs[i].0);
        if firsts(d).contains(pairs[i].0) {
            let j = choose|j: int| 0 <= j < d.len() && firsts(d)[j] == pairs[i].0;
            assert(firsts(pairs)[j].before(firsts(pairs)[i]));
            lemma_before_excludes(firsts(pairs)[j], firsts(pairs)[i]);
        }
        assert(under(d, pairs[i].0) =~= Seq::empty());
        assert(under(pairs, pairs[i].0) =~= seq![pairs[i].1]);
    } else {
        assert(firsts(pairs)[i].before(firsts(pairs)[pairs.len() - 1]));
        lemma_before_excludes(firsts(pairs)[i], firsts(pairs)[pairs.len() - 1]);
        lemma_under_unique(d, i);
    }
}

/// What stands under one first component of ascending pairs is ascending.
pub proof fn lemma_under_ascending<K: Ordered, T: Ordered>(pairs: Seq<(K, T)>, k: K)
    requires
        ascending(pairs),
    ensures
        ascending(under(pairs, k)),
        forall|x: T| #[trigger] under(pairs, k).contains(x) <==> pairs.contains((k, x)),
    decreases pairs.len(),
{
    if pairs.len() == 0 {
        assert forall|x: T| #[trigger] under(pairs, k).contains(x) <==> pairs.contains((k, x)) by {}
    } else {
        let d = pairs.drop_last();
        let u = under(d, k);
        let w = under(pairs, k);
        assert(ascending(d)) by {
            assert forall|i: int, j: int| 0 <= i < j < d.len() implies (#[trigger] d[i]).before(
                #[trigger] d[j],
            ) by {
                assert(pairs[i].before(pairs[j]));
            }
        }
        lemma_under_ascending(d, k);
        let last = pairs[pairs.len() - 1];
        assert forall|i: int, j: int| 0 <= i < j < w.len() implies (#[trigger] w[i]).before(
            #[trigger] w[j],
        ) by {
            if j == u.len() {
                assert(u.contains(u[i]));
                assert(d.contains((k, u[i])));
                let m = choose|m: int| 0 <= m < d.len() && d[m] == (k, u[i]);
                assert(pairs[m].before(last));
                K::irreflexive(k);
            }
        }
        assert forall|x: T| #[trigger] w.contains(x) <==> pairs.contains((k, x)) by {
            if w.contains(x) {
                let i = choose|i: int| 0 <= i < w.len() && w[i] == x;
                if i < u.len() {
                    assert(u.contains(x));
                    let m = choose|m: int| 0 <= m < d.len() && d[m] == (k, x);
                    assert(pairs[m] == (k, x));
                } else {
                    assert(last == (k, x));
                }
            }
            if pairs.contains((k, x)) {
                let m = choose|m: int| 0 <= m < pairs.len() && pairs[m] == (k, x);
                if m < d.len() {
                    assert(d[m] == (k, x));
                    assert(u.contains(x));
                    let i = choose|i: int| 0 <= i < u.len() && u[i] == x;
                    assert(w[i] == x);
                } else {
                    assert(w[u.len() as int] == x);
                }
            }
        }
    }
}

/// Pairs with one first component that stand together.
pub proof fn lemma_under_range<K, T>(pairs: Seq<(K, T)>, k: K, low: int, high: int)
    requires
        0 <= low <= high <= pairs.len(),
        forall|j: int| 0 <= j < pairs.len() ==> (low <= j < high <==> (#[trigger] pairs[j]).0 == k),
    ensures
        under(pairs, k) == Seq::new((high - low) as nat, |j: int| pairs[low + j].1),
    decreases pairs.len(),
{
    let target = Seq::new((high - low) as nat, |j: int| pairs[low + j].1);
    if pairs.len() == 0 {
        assert(under(pairs, k) =~= target);
    } else {
        let d = pairs.drop_last();
        let n = d.len() as int;
        assert(pairs[n] == pairs.last());
        let l = if low > n {
            n
        } else {
            low
        };
        let h = if high > n {
            n
        } else {
            high
        };
        assert forall|j: int| 0 <= j < d.len() implies (l <= j < h <==> (#[trigger] d[j]).0 == k) by {
            assert(pairs[j] == d[j]);
        }
        lemma_under_range(d, k, l, h);
        assert(under(pairs, k) =~= target);
    }
}

pub proof fn lemma_under_concat<K, T>(a: Seq<(K, T)>, b: Seq<(K, T)>, k: K)
    ensures
        under(a + b, k) == under(a, k) + under(b, k),
    decreases b.len(),
{
    if b.len() == 0 {
        assert(a + b =~= a);
        assert(under(a, k) + Seq::<T>::empty() =~= under(a, k));
    } else {
        lemma_under_concat(a, b.drop_last(), k);
        assert((a + b).drop_last() =~= a + b.drop_last());
        assert((a + b).last() == b.last());
        assert(under(a + b, k) =~= under(a, k) + under(b, k));
    }
}

/// Nothing stands under a key that does not occur.
pub proof fn lemma_under_none<K, T>(pairs: Seq<(K, T)>, k: K)
    requires
        forall|i: int| 0 <= i < pairs.len() ==> (#[trigger] pairs[i]).0 != k,
    ensures
        under(pairs, k) == Seq::<T>::empty(),
{
    lemma_under_nonempty(pairs, k);
    if firsts(pairs).contains(k) {
        let i = choose|i: int| 0 <= i < pairs.len() && firsts(pairs)[i] == k;
        assert(pairs[i].0 == k);
    }
    assert(under(pairs, k) =~= Seq::empty());
}

} // verus!
