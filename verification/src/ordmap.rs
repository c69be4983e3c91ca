//! Maps and groups held in key order.

use crate::index;
use crate::order;
use crate::order::Ordered;
use crate::overrides;
use crate::stream;
use vstd::prelude::*;

verus! {

/// A value that can be a key: its model stands in a strict total order, which the
/// executable comparison decides.
pub trait Key: Sized {
    type Model: Ordered;

    spec fn model(&self) -> Self::Model;

    fn precedes(&self, other: &Self) -> (r: bool)
        ensures
            r == self.model().before(other.model()),
    ;
}

/// Entries in ascending key order, each key once.
pub struct OrdMap<K, V> {
    pub entries: Vec<(K, V)>,
}

impl<K: Key, V> OrdMap<K, V> {
    pub open spec fn keys(self) -> Seq<K::Model> {
        Seq::new(self.entries@.len(), |i: int| self.entries@[i].0.model())
    }

    pub open spec fn wf(self) -> bool {
        order::ascending(self.keys())
    }

    pub open spec fn map(self) -> Map<K::Model, V> {
        Map::new(
            |k: K::Model| self.keys().contains(k),
            |k: K::Model| self.entries@[self.keys().index_of(k)].1,
        )
    }

    pub proof fn lemma_entry(self, i: int)
        requires
            self.wf(),
            0 <= i < self.entries@.len(),
        ensures
            self.map().contains_key(self.entries@[i].0.model()),
            self.map()[self.entries@[i].0.model()] == self.entries@[i].1,
    {
        let k = self.keys()[i];
        assert(self.keys().contains(k));
        let j = self.keys().index_of(k);
        if i < j {
            order::lemma_before_excludes(self.keys()[i], self.keys()[j]);
        } else if j < i {
            order::lemma_before_excludes(self.keys()[j], self.keys()[i]);
        }
    }

    /// The keys of a map are its domain in ascending order.
    pub proof fn lemma_keys(self, domain: Seq<K::Model>)
        requires
            self.wf(),
            forall|k: K::Model| #[trigger] self.map().contains_key(k) <==> domain.contains(k),
        ensures
            self.keys() == order::sorted_set(domain),
    {
        order::lemma_sorted_set(domain);
        assert forall|k: K::Model| self.keys().contains(k) <==> order::sorted_set(domain).contains(
            k,
        ) by {
            assert(self.map().contains_key(k) <==> self.keys().contains(k));
        }
        order::lemma_ascending_unique(self.keys(), order::sorted_set(domain));
    }

    pub fn new() -> (r: Self)
        ensures
            r.wf(),
            r.keys() == Seq::<K::Model>::empty(),
            r.map() == Map::<K::Model, V>::empty(),
    {
        let r = OrdMap { entries: Vec::new() };
        assert(r.keys() =~= Seq::<K::Model>::empty());
        assert(r.map() =~= Map::<K::Model, V>::empty());
        r
    }

    /// The place of `key`, and whether it is there.
    pub fn locate(&self, key: &K) -> (r: (usize, bool))
        requires
            self.wf(),
        ensures
            r.0 <= self.entries@.len(),
            r.1 ==> r.0 < self.entries@.len() && self.keys()[r.0 as int] == key.model(),
            r.1 == self.keys().contains(key.model()),
            forall|j: int| 0 <= j < r.0 ==> (#[trigger] self.keys()[j]).before(key.model()),
            !r.1 ==> forall|j: int|
                r.0 <= j < self.entries@.len() ==> key.model().before(#[trigger] self.keys()[j]),
    {
        let ghost k = key.model();
        let ghost keys = self.keys();
        let mut low: usize = 0;
        let mut high: usize = self.entries.len();
        while low < high
            invariant
                self.wf(),
                keys == self.keys(),
                k == key.model(),
                low <= high <= self.entries@.len(),
                forall|j: int| 0 <= j < low ==> (#[trigger] keys[j]).before(k),
                forall|j: int| high <= j < keys.len() ==> !(#[trigger] keys[j]).before(k),
            decreases high - low,
        {
            let mid = low + (high - low) / 2;
            if self.entries[mid].0.precedes(key) {
                assert(keys[mid as int].before(k));
                assert forall|j: int| 0 <= j < mid + 1 implies (#[trigger] keys[j]).before(k) by {
                    if low <= j < mid {
                        K::Model::transitive(keys[j], keys[mid as int], k);
                    }
                }
                low = mid + 1;
            } else {
                assert(!keys[mid as int].before(k));
                assert forall|j: int| mid <= j < keys.len() implies !(#[trigger] keys[j]).before(
                    k,
                ) by {
                    if mid < j && keys[j].before(k) {
                        K::Model::transitive(keys[mid as int], keys[j], k);
                    }
                }
                high = mid;
            }
        }
        proof {
            assert forall|j: int| low <= j < keys.len() implies k == #[trigger] keys[j] || k.before(
                keys[j],
            ) by {
                K::Model::total(k, keys[j]);
            }
        }
        if low < self.entries.len() && !key.precedes(&self.entries[low].0) {
            assert(keys[low as int] == k);
            (low, true)
        } else {
            proof {
                assert forall|j: int| low <= j < keys.len() implies k.before(#[trigger] keys[j]) by {
                    assert(k.before(keys[low as int]));
                    if low < j {
                        K::Model::transitive(k, keys[low as int], keys[j]);
                    }
                }
                if keys.contains(k) {
                    let j = choose|j: int| 0 <= j < keys.len() && keys[j] == k;
                    K::Model::irreflexive(k);
                }
            }
            (low, false)
        }
    }

    pub fn get(&self, key: &K) -> (r: Option<&V>)
        requires
            self.wf(),
        ensures
            r is Some <==> self.map().contains_key(key.model()),
            r matches Some(v) ==> *v == self.map()[key.model()],
    {
        let (at, found) = self.locate(key);
        if found {
            proof {
                self.lemma_entry(at as int);
            }
            Some(&self.entries[at].1)
        } else {
            None
        }
    }

    pub fn insert(&mut self, key: K, value: V)
        requires
            old(self).wf(),
        ensures
            final(self).wf(),
            final(self).keys() == order::with_key(old(self).keys(), key.model()),
            final(self).map() == old(self).map().insert(key.model(), value),
    {
        let ghost before = *self;
        let ghost k = key.model();
        let (at, found) = self.locate(&key);
        proof {
            order::lemma_with_key(before.keys(), k);
        }
        if found {
            self.entries[at].1 = value;
            proof {
                order::lemma_with_key_present(before.keys(), at as int);
                assert(self.keys() =~= before.keys());
            }
        } else {
            self.entries.insert(at, (key, value));
            proof {
                order::lemma_with_key_insert(before.keys(), k, at as int);
                assert(self.keys() =~= before.keys().insert(at as int, k));
            }
        }
        proof {
            let after = *self;
            after.lemma_entry(at as int);
            assert forall|x: K::Model| before.map().contains_key(x) && x != k implies
                #[trigger] after.map()[x] == before.map()[x] by {
                let i = before.keys().index_of(x);
                assert(before.keys()[i] == x);
                before.lemma_entry(i);
                if found || i < at {
                    assert(after.entries@[i] == before.entries@[i] || i == at);
                    after.lemma_entry(i);
                } else {
                    assert(after.entries@[i + 1] == before.entries@[i]);
                    after.lemma_entry(i + 1);
                }
            }
            assert(after.map() =~= before.map().insert(k, value));
        }
    }
}

/// The pairs by the models of their keys.
pub open spec fn pair_models<K: Key, V>(pairs: Seq<(K, V)>) -> Seq<(K::Model, V)> {
    Seq::new(pairs.len(), |i: int| (pairs[i].0.model(), pairs[i].1))
}

/// What has been taken off the ends of two ascending lists of entries, the largest key first.
spec fn taken_off<K: Key, V>(
    left: Seq<(K, V)>,
    right: Seq<(K, V)>,
    i: int,
    j: int,
    back: Seq<(K, V)>,
) -> bool {
    let a = key_models(left);
    let b = key_models(right);
    let keys = key_models(back);
    &&& forall|x: int, y: int| 0 <= x < y < back.len() ==> (#[trigger] keys[y]).before(#[trigger] keys[x])
    &&& forall|x: int, n: int|
        0 <= x < back.len() && 0 <= n < i ==> (#[trigger] a[n]).before(#[trigger] keys[x])
    &&& forall|x: int, n: int|
        0 <= x < back.len() && 0 <= n < j ==> (#[trigger] b[n]).before(#[trigger] keys[x])
    &&& forall|x: int|
        0 <= x < back.len() ==> right.contains(#[trigger] back[x]) || (left.contains(back[x])
            && !b.contains(keys[x]))
    &&& forall|n: int| j <= n < right.len() ==> back.contains(#[trigger] right[n])
    &&& forall|n: int| i <= n < left.len() ==> keys.contains(#[trigger] a[n])
}

proof fn lemma_key_at<K: Key, V>(pairs: Seq<(K, V)>, e: (K, V))
    requires
        pairs.contains(e),
    ensures
        key_models(pairs).contains(e.0.model()),
{
    let i = choose|i: int| 0 <= i < pairs.len() && pairs[i] == e;
    assert(key_models(pairs)[i] == e.0.model());
}

/// One more entry is taken off: the last of `left`, or the last of `right` and with it one of
/// `left` that has the same key.
proof fn lemma_take_off<K: Key, V>(
    left: Seq<(K, V)>,
    right: Seq<(K, V)>,
    i: int,
    j: int,
    back: Seq<(K, V)>,
    m: int,
    n: int,
    e: (K, V),
)
    requires
        order::ascending(key_models(left)),
        order::ascending(key_models(right)),
        0 <= m <= i <= left.len(),
        0 <= n <= j <= right.len(),
        taken_off(left, right, i, j, back),
        (m == i - 1 && n == j && e == left[m] && (j > 0 ==> key_models(right)[j - 1].before(
            key_models(left)[m],
        ))) || (n == j - 1 && e == right[n] && (m == i && (i > 0 ==> key_models(left)[i
            - 1].before(key_models(right)[n])) || m == i - 1 && key_models(left)[m] == key_models(
            right,
        )[n])),
    ensures
        taken_off(left, right, m, n, back.push(e)),
{
    let a = key_models(left);
    let b = key_models(right);
    let keys = key_models(back);
    let more = back.push(e);
    let all = key_models(more);
    let k = e.0.model();
    assert forall|x: int| 0 <= x < back.len() implies #[trigger] all[x] == keys[x] by {}
    assert(all[back.len() as int] == k);
    assert forall|x: int| 0 <= x < back.len() implies k.before(#[trigger] keys[x]) by {
        if n == j {
            assert(a[m].before(keys[x]));
        } else {
            assert(b[n].before(keys[x]));
        }
    }
    assert forall|x: int| 0 <= x < m implies (#[trigger] a[x]).before(k) by {
        if n == j {
            assert(a[x].before(a[m]));
        } else if m == i {
            if x < i - 1 {
                K::Model::transitive(a[x], a[i - 1], k);
            }
        } else {
            assert(a[x].before(a[m]));
        }
    }
    assert forall|x: int| 0 <= x < n implies (#[trigger] b[x]).before(k) by {
        if n == j {
            if x < j - 1 {
                K::Model::transitive(b[x], b[j - 1], k);
            }
        } else {
            assert(b[x].before(b[n]));
        }
    }
    assert forall|x: int| 0 <= x < more.len() implies right.contains(#[trigger] more[x]) || (
    left.contains(more[x]) && !b.contains(all[x])) by {
        if x < back.len() {
            assert(more[x] == back[x]);
            assert(all[x] == keys[x]);
        } else if n == j {
            assert(left[m] == e);
            if b.contains(k) {
                let y = choose|y: int| 0 <= y < b.len() && b[y] == k;
                K::Model::irreflexive(k);
                if y >= j {
                    assert(back.contains(right[y]));
                    lemma_key_at(back, right[y]);
                    let z = choose|z: int| 0 <= z < keys.len() && keys[z] == k;
                    assert(k.before(keys[z]));
                } else {
                    assert(b[y].before(k));
                }
            }
        } else {
            assert(right[n] == e);
        }
    }
    assert forall|x: int| n <= x < right.len() implies more.contains(#[trigger] right[x]) by {
        if x == n && n < j {
            assert(more[back.len() as int] == e);
        } else {
            assert(back.contains(right[x]));
            let y = choose|y: int| 0 <= y < back.len() && back[y] == right[x];
            assert(more[y] == right[x]);
        }
    }
    assert forall|x: int| m <= x < left.len() implies all.contains(#[trigger] a[x]) by {
        if x == m && m < i {
            assert(all[back.len() as int] == a[x]);
        } else {
            assert(keys.contains(a[x]));
            let y = choose|y: int| 0 <= y < keys.len() && keys[y] == a[x];
            assert(all[y] == a[x]);
        }
    }
    assert forall|x: int, y: int| 0 <= x < y < more.len() implies (#[trigger] all[y]).before(
        #[trigger] all[x],
    ) by {
        if y < back.len() {
            assert(keys[y].before(keys[x]));
        } else {
            assert(k.before(keys[x]));
        }
    }
}

/// The entries of both maps; where both have a key, that of `b`.
pub(crate) fn united<K: Key, V>(a: OrdMap<K, V>, b: OrdMap<K, V>) -> (r: OrdMap<K, V>)
    requires
        a.wf(),
        b.wf(),
    ensures
        r.wf(),
        r.map() == a.map().union_prefer_right(b.map()),
{
    let ghost first = a;
    let ghost second = b;
    let ghost left = a.entries@;
    let ghost right = b.entries@;
    let mut left_rest = a.entries;
    let mut right_rest = b.entries;
    let mut back: Vec<(K, V)> = Vec::new();
    assert(key_models(left) =~= first.keys());
    assert(key_models(right) =~= second.keys());
    assert(left.take(left.len() as int) =~= left);
    assert(right.take(right.len() as int) =~= right);
    while left_rest.len() > 0 || right_rest.len() > 0
        invariant
            order::ascending(key_models(left)),
            order::ascending(key_models(right)),
            left_rest@.len() <= left.len(),
            right_rest@.len() <= right.len(),
            left_rest@ == left.take(left_rest@.len() as int),
            right_rest@ == right.take(right_rest@.len() as int),
            taken_off(
                left,
                right,
                left_rest@.len() as int,
                right_rest@.len() as int,
                back@,
            ),
        decreases left_rest@.len() + right_rest@.len(),
    {
        let i = left_rest.len();
        let j = right_rest.len();
        let ghost so_far = back@;
        if j == 0 || (i > 0 && right_rest[j - 1].0.precedes(&left_rest[i - 1].0)) {
            let entry = left_rest.pop();
            if let Some(e) = entry {
                back.push(e);
                proof {
                    lemma_take_off(left, right, i as int, j as int, so_far, i - 1, j as int, e);
                }
            }
            assert(left.take(i as int).drop_last() =~= left.take(i - 1));
        } else {
            let same = i > 0 && !left_rest[i - 1].0.precedes(&right_rest[j - 1].0);
            proof {
                if i > 0 {
                    K::Model::total(key_models(left)[i - 1], key_models(right)[j - 1]);
                }
            }
            if same {
                left_rest.pop();
                assert(left.take(i as int).drop_last() =~= left.take(i - 1));
            }
            let entry = right_rest.pop();
            if let Some(e) = entry {
                back.push(e);
                proof {
                    lemma_take_off(
                        left,
                        right,
                        i as int,
                        j as int,
                        so_far,
                        left_rest@.len() as int,
                        j - 1,
                        e,
                    );
                }
            }
            assert(right.take(j as int).drop_last() =~= right.take(j - 1));
        }
    }
    let ghost whole = back@;
    let r = OrdMap { entries: reversed(back) };
    proof {
        let n = whole.len();
        let keys = key_models(whole);
        assert forall|x: int, y: int| 0 <= x < y < n implies (#[trigger] r.keys()[x]).before(
            #[trigger] r.keys()[y],
        ) by {
            assert(keys[n - 1 - x].before(keys[n - 1 - y]));
        }
        let target = first.map().union_prefer_right(second.map());
        assert forall|k: K::Model| r.map().dom().contains(k) == target.dom().contains(k) by {
            if r.keys().contains(k) {
                let x = choose|x: int| 0 <= x < n && r.keys()[x] == k;
                let e = whole[n - 1 - x];
                assert(keys[n - 1 - x] == k);
                if right.contains(e) {
                    lemma_key_at(right, e);
                } else {
                    lemma_key_at(left, e);
                }
            }
            if first.keys().contains(k) {
                let y = choose|y: int| 0 <= y < left.len() && key_models(left)[y] == k;
                assert(keys.contains(key_models(left)[y]));
                let x = choose|x: int| 0 <= x < n && keys[x] == k;
                assert(r.keys()[n - 1 - x] == k);
            }
            if second.keys().contains(k) {
                let y = choose|y: int| 0 <= y < right.len() && key_models(right)[y] == k;
                assert(whole.contains(right[y]));
                lemma_key_at(whole, right[y]);
                let x = choose|x: int| 0 <= x < n && keys[x] == k;
                assert(r.keys()[n - 1 - x] == k);
            }
        }
        assert forall|k: K::Model| #[trigger] r.map().dom().contains(k) implies r.map()[k]
            == target[k] by {
            if second.keys().contains(k) {
                let y = choose|y: int| 0 <= y < right.len() && key_models(right)[y] == k;
                second.lemma_entry(y);
                assert(whole.contains(right[y]));
                let x = choose|x: int| 0 <= x < n && whole[x] == right[y];
                assert(r.entries@[n - 1 - x] == right[y]);
                r.lemma_entry(n - 1 - x);
            } else {
                let x = choose|x: int| 0 <= x < n && r.keys()[x] == k;
                let e = whole[n - 1 - x];
                r.lemma_entry(x);
                assert(keys[n - 1 - x] == k);
                if right.contains(e) {
                    lemma_key_at(right, e);
                }
                assert(left.contains(e));
                let y = choose|y: int| 0 <= y < left.len() && left[y] == e;
                first.lemma_entry(y);
            }
        }
        assert(r.map() =~= target);
    }
    r
}

fn reversed<T>(items: Vec<T>) -> (r: Vec<T>)
    ensures
        r@.len() == items@.len(),
        forall|i: int| 0 <= i < r@.len() ==> #[trigger] r@[i] == items@[items@.len() - 1 - i],
{
    let ghost all = items@;
    let mut rest = items;
    let mut out: Vec<T> = Vec::new();
    assert(all.take(all.len() as int) =~= all);
    while rest.len() > 0
        invariant
            rest@.len() + out@.len() == all.len(),
            rest@ == all.take(rest@.len() as int),
            forall|i: int| 0 <= i < out@.len() ==> #[trigger] out@[i] == all[all.len() - 1 - i],
        decreases rest@.len(),
    {
        let ghost n = rest@.len() as int;
        let item = rest.pop();
        if let Some(x) = item {
            out.push(x);
        }
        assert(all.take(n).drop_last() =~= all.take(n - 1));
    }
    out
}

/// The map of the pairs; where a key occurs again, the last pair stays. The pairs are merged
/// by halves.
pub fn from_pairs<K: Key, V>(pairs: Vec<(K, V)>) -> (r: OrdMap<K, V>)
    ensures
        r.wf(),
        r.map() == index::last_wins(pair_models(pairs@)),
        r.keys() == order::sorted_set(key_models(pairs@)),
    decreases pairs@.len(),
{
    let ghost all = pairs@;
    let n = pairs.len();
    let r = if n <= 1 {
        let r = OrdMap { entries: pairs };
        proof {
            let models = pair_models(all);
            if n == 1 {
                assert(r.keys()[0] == all[0].0.model());
                assert(models.drop_last() =~= Seq::empty());
                r.lemma_entry(0);
                assert(index::last_wins(models.drop_last()) =~= Map::empty());
                assert(r.map() =~= Map::empty().insert(models[0].0, models[0].1));
            } else {
                assert(r.map() =~= Map::empty());
            }
        }
        r
    } else {
        let mut first = pairs;
        let second = first.split_off(n / 2);
        let ghost a = first@;
        let ghost b = second@;
        let left = from_pairs(first);
        let right = from_pairs(second);
        let r = united(left, right);
        proof {
            let x = pair_models(a);
            let y = pair_models(b);
            assert(pair_models(all) =~= x + y);
            let target = index::last_wins(x + y);
            assert forall|k: K::Model| r.map().dom().contains(k) == target.dom().contains(k) by {
                overrides::lemma_last_wins_concat(x, y, k);
            }
            assert forall|k: K::Model| #[trigger] r.map().dom().contains(k) implies r.map()[k]
                == target[k] by {
                overrides::lemma_last_wins_concat(x, y, k);
            }
            assert(r.map() =~= target);
        }
        r
    };
    proof {
        let models = pair_models(all);
        assert(order::firsts(models) =~= key_models(all));
        assert forall|k: K::Model| #[trigger] r.map().contains_key(k) <==> key_models(all).contains(
            k,
        ) by {
            stream::lemma_last_wins_under(models, k);
            order::lemma_under_nonempty(models, k);
        }
        r.lemma_keys(key_models(all));
    }
    r
}

/// The second components of the pairs whose key is `k`, in their order.
pub open spec fn picked<K: Key, T>(items: Seq<(K, T)>, k: K::Model) -> Seq<T>
    decreases items.len(),
{
    if items.len() == 0 {
        Seq::empty()
    } else if items.last().0.model() == k {
        picked(items.drop_last(), k).push(items.last().1)
    } else {
        picked(items.drop_last(), k)
    }
}

pub open spec fn key_models<K: Key, T>(items: Seq<(K, T)>) -> Seq<K::Model> {
    Seq::new(items.len(), |i: int| items[i].0.model())
}

/// The items under each key, the keys ascending and each once, the items in their order.
pub fn group_by<K: Key, T>(items: Vec<(K, T)>) -> (r: OrdMap<K, Vec<T>>)
    ensures
        r.wf(),
        r.keys() == order::sorted_set(key_models(items@)),
        forall|i: int|
            0 <= i < r.entries@.len() ==> (#[trigger] r.entries@[i]).1@ == picked(
                items@,
                r.entries@[i].0.model(),
            ),
{
    let ghost all = items@;
    let mut groups: OrdMap<K, Vec<T>> = OrdMap::new();
    assert(all.take(0) =~= Seq::empty());
    assert(key_models(all.take(0)) =~= Seq::empty());
    for item in it: items
        invariant
            it.seq() == all,
            groups.wf(),
            groups.keys() == order::sorted_set(key_models(all.take(it.index() as int))),
            forall|i: int|
                0 <= i < groups.entries@.len() ==> (#[trigger] groups.entries@[i]).1@ == picked(
                    all.take(it.index() as int),
                    groups.entries@[i].0.model(),
                ),
    {
        let ghost n = it.index() as int;
        let ghost before = groups;
        let ghost k = item.0.model();
        proof {
            assert(all.take(n + 1).drop_last() =~= all.take(n));
            assert(key_models(all.take(n + 1)).drop_last() =~= key_models(all.take(n)));
            assert(item == all[n]);
            order::lemma_sorted_set(key_models(all.take(n)));
            order::lemma_with_key(before.keys(), k);
        }
        let (key, value) = item;
        let (at, found) = groups.locate(&key);
        if found {
            groups.entries[at].1.push(value);
            proof {
                order::lemma_with_key_present(before.keys(), at as int);
                assert(groups.keys() =~= before.keys());
            }
        } else {
            let mut group: Vec<T> = Vec::new();
            group.push(value);
            groups.entries.insert(at, (key, group));
            proof {
                order::lemma_with_key_insert(before.keys(), k, at as int);
                assert(groups.keys() =~= before.keys().insert(at as int, k));
                lemma_picked_absent(all.take(n), k);
            }
        }
        proof {
            assert forall|i: int| 0 <= i < groups.entries@.len() implies (
            #[trigger] groups.entries@[i]).1@ == picked(
                all.take(n + 1),
                groups.entries@[i].0.model(),
            ) by {
                assert(groups.keys()[i] == groups.entries@[i].0.model());
                if found {
                    if i == at {
                        assert(groups.entries@[i].1@ == before.entries@[i].1@.push(all[n].1));
                    } else {
                        assert(groups.entries@[i] == before.entries@[i]);
                        if i < at {
                            order::lemma_before_excludes(groups.keys()[i], groups.keys()[at as int]);
                        } else {
                            order::lemma_before_excludes(groups.keys()[at as int], groups.keys()[i]);
                        }
                    }
                } else {
                    if i < at {
                        assert(groups.entries@[i] == before.entries@[i]);
                        order::lemma_before_excludes(groups.keys()[i], groups.keys()[at as int]);
                    } else if i == at {
                        assert(groups.entries@[i].1@ =~= seq![all[n].1]);
                    } else {
                        assert(groups.entries@[i] == before.entries@[i - 1]);
                        order::lemma_before_excludes(groups.keys()[at as int], groups.keys()[i]);
                    }
                }
            }
        }
    }
    assert(all.take(all.len() as int) =~= all);
    groups
}

/// Puts a value behind those of a key.
pub fn push_under<K: Key, T>(m: &mut OrdMap<K, Vec<T>>, key: K, value: T)
    requires
        old(m).wf(),
    ensures
        final(m).wf(),
        forall|k: K::Model| #[trigger]
            final(m).map().contains_key(k) <==> old(m).map().contains_key(k) || k == key.model(),
        forall|k: K::Model|
            k != key.model() && #[trigger] old(m).map().contains_key(k) ==> final(m).map()[k]
                == old(m).map()[k],
        final(m).map()[key.model()]@ == (if old(m).map().contains_key(key.model()) {
            old(m).map()[key.model()]@
        } else {
            Seq::empty()
        }).push(value),
{
    let ghost before = *m;
    let ghost k = key.model();
    let (at, found) = m.locate(&key);
    proof {
        order::lemma_with_key(before.keys(), k);
    }
    if found {
        proof {
            before.lemma_entry(at as int);
        }
        m.entries[at].1.push(value);
        proof {
            order::lemma_with_key_present(before.keys(), at as int);
            assert(m.keys() =~= before.keys());
        }
    } else {
        let mut group: Vec<T> = Vec::new();
        group.push(value);
        m.entries.insert(at, (key, group));
        proof {
            order::lemma_with_key_insert(before.keys(), k, at as int);
            assert(m.keys() =~= before.keys().insert(at as int, k));
        }
    }
    proof {
        let after = *m;
        after.lemma_entry(at as int);
        assert forall|x: K::Model| x != k && #[trigger] before.map().contains_key(x) implies
            after.map()[x] == before.map()[x] by {
            let i = before.keys().index_of(x);
            assert(before.keys()[i] == x);
            before.lemma_entry(i);
            if found || i < at {
                assert(after.entries@[i] == before.entries@[i] || i == at);
                after.lemma_entry(i);
            } else {
                assert(after.entries@[i + 1] == before.entries@[i]);
                after.lemma_entry(i + 1);
            }
        }
    }
}

proof fn lemma_picked_absent<K: Key, T>(items: Seq<(K, T)>, k: K::Model)
    requires
        !key_models(items).contains(k),
    ensures
        picked(items, k) == Seq::<T>::empty(),
    decreases items.len(),
{
    if items.len() > 0 {
        assert(key_models(items)[items.len() - 1] == items.last().0.model());
        let d = items.drop_last();
        if key_models(d).contains(k) {
            let i = choose|i: int| 0 <= i < d.len() && key_models(d)[i] == k;
            assert(key_models(items)[i] == k);
        }
        lemma_picked_absent(d, k);
    }
}

/// What is picked, seen through `f`.
pub proof fn lemma_picked<K: Key, T, U>(items: Seq<(K, T)>, f: spec_fn(T) -> U, k: K::Model)
    ensures
        order::under(
            Seq::new(items.len(), |i: int| (items[i].0.model(), f(items[i].1))),
            k,
        ) == picked(items, k).map_values(f),
    decreases items.len(),
{
    let pairs = Seq::new(items.len(), |i: int| (items[i].0.model(), f(items[i].1)));
    if items.len() == 0 {
        assert(picked(items, k).map_values(f) =~= Seq::<U>::empty());
    } else {
        let d = items.drop_last();
        lemma_picked(d, f, k);
        assert(pairs.drop_last() =~= Seq::new(d.len(), |i: int| (d[i].0.model(), f(d[i].1))));
        if items.last().0.model() == k {
            assert(picked(items, k).map_values(f) =~= picked(d, k).map_values(f).push(
                f(items.last().1),
            ));
        }
    }
}

/// Where the entries start whose keys have first components at or behind `place`, or strictly
/// behind it.
fn bound<A: Key, B: Key, V>(m: &OrdMap<(A, B), V>, place: &A, behind: bool) -> (r: usize)
    requires
        m.wf(),
    ensures
        r <= m.entries@.len(),
        forall|j: int|
            0 <= j < r ==> (#[trigger] m.keys()[j]).0.before(place.model()) || (behind
                && m.keys()[j].0 == place.model()),
        forall|j: int|
            r <= j < m.keys().len() ==> place.model().before((#[trigger] m.keys()[j]).0) || (!behind
                && m.keys()[j].0 == place.model()),
{
    let ghost keys = m.keys();
    let ghost k = place.model();
    let mut low: usize = 0;
    let mut high: usize = m.entries.len();
    while low < high
        invariant
            m.wf(),
            keys == m.keys(),
            k == place.model(),
            low <= high <= m.entries@.len(),
            forall|j: int|
                0 <= j < low ==> (#[trigger] keys[j]).0.before(k) || (behind && keys[j].0 == k),
            forall|j: int|
                high <= j < keys.len() ==> k.before((#[trigger] keys[j]).0) || (!behind && keys[j].0
                    == k),
        decreases high - low,
    {
        let mid = low + (high - low) / 2;
        let ghost at = keys[mid as int].0;
        let entry = &m.entries[mid].0.0;
        proof {
            assert(at == entry.model());
            A::Model::total(at, k);
            A::Model::irreflexive(k);
            if at.before(k) {
                order::lemma_before_excludes(at, k);
            }
            if k.before(at) {
                order::lemma_before_excludes(k, at);
            }
        }
        let ahead = if behind {
            !place.precedes(entry)
        } else {
            entry.precedes(place)
        };
        if ahead {
            assert forall|j: int| 0 <= j < mid + 1 implies (#[trigger] keys[j]).0.before(k) || (
            behind && keys[j].0 == k) by {
                if low <= j < mid {
                    assert(keys[j].before(keys[mid as int]));
                    if keys[j].0 != at && at != k {
                        A::Model::transitive(keys[j].0, at, k);
                    }
                }
            }
            low = mid + 1;
        } else {
            assert forall|j: int| mid <= j < keys.len() implies k.before((#[trigger] keys[j]).0) || (
            !behind && keys[j].0 == k) by {
                if mid < j < high {
                    assert(keys[mid as int].before(keys[j]));
                    if keys[j].0 != at && at != k {
                        A::Model::transitive(k, at, keys[j].0);
                    }
                }
            }
            high = mid;
        }
    }
    low
}

/// The range of the entries whose keys start with `place`.
pub fn range_of<A: Key, B: Key, V>(m: &OrdMap<(A, B), V>, place: &A) -> (r: (usize, usize))
    requires
        m.wf(),
    ensures
        r.0 <= r.1 <= m.entries@.len(),
        order::under(m.keys(), place.model()) == Seq::new(
            (r.1 - r.0) as nat,
            |j: int| m.keys()[r.0 + j].1,
        ),
        forall|j: int|
            0 <= j < m.keys().len() ==> (r.0 <= j < r.1 <==> (#[trigger] m.keys()[j]).0
                == place.model()),
{
    let low = bound(m, place, false);
    let high = bound(m, place, true);
    let ghost keys = m.keys();
    let ghost k = place.model();
    proof {
        A::Model::irreflexive(k);
        assert forall|j: int| 0 <= j < keys.len() implies (low <= j < high <==> (
        #[trigger] keys[j]).0 == k) by {
            if j < low {
                order::lemma_before_excludes(keys[j].0, k);
            }
            if j >= high {
                order::lemma_before_excludes(k, keys[j].0);
            }
            if low <= j < high && keys[j].0 != k {
                order::lemma_before_excludes(k, keys[j].0);
            }
        }
        if high < low {
            order::lemma_before_excludes(keys[high as int].0, k);
        }
        order::lemma_under_range(keys, k, low as int, high as int);
    }
    (low, high)
}

} // verus!
