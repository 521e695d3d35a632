//! Maps keyed by strings, kept in key order as `BTreeMap<String, V>` keeps them.
use vstd::prelude::*;

use crate::text::{
    views,
    lemma_seq_lt_irreflexive, lemma_seq_lt_transitive, lemma_seq_lt_trichotomy, seq_lt, str_lt,
};

verus! {

/// The keys of an item list.
pub open spec fn keys_of<V>(items: Seq<(String, V)>) -> Seq<Seq<char>> {
    items.map_values(|kv: (String, V)| kv.0@)
}

/// Whether keys are strictly increasing.
pub open spec fn strictly_sorted(keys: Seq<Seq<char>>) -> bool {
    forall|i: int, j: int| 0 <= i < j < keys.len() ==> seq_lt(#[trigger] keys[i], #[trigger] keys[j])
}

/// The map that a list of items with distinct keys denotes.
pub open spec fn map_of<V>(items: Seq<(String, V)>) -> Map<Seq<char>, V>
    decreases items.len(),
{
    if items.len() == 0 {
        Map::empty()
    } else {
        map_of(items.drop_last()).insert(items.last().0@, items.last().1)
    }
}

pub proof fn lemma_sorted_distinct(keys: Seq<Seq<char>>, i: int, j: int)
    requires
        strictly_sorted(keys),
        0 <= i < keys.len(),
        0 <= j < keys.len(),
        i != j,
    ensures
        keys[i] != keys[j],
{
    if i < j {
        assert(seq_lt(keys[i], keys[j]));
        lemma_seq_lt_irreflexive(keys[i]);
    } else {
        assert(seq_lt(keys[j], keys[i]));
        lemma_seq_lt_irreflexive(keys[j]);
    }
}

/// Membership and lookup in the map of a list with distinct keys.
pub proof fn lemma_map_of<V>(items: Seq<(String, V)>)
    requires
        strictly_sorted(keys_of(items)),
    ensures
        forall|k: Seq<char>| #[trigger] map_of(items).contains_key(k) <==> keys_of(items).contains(k),
        forall|i: int|
            0 <= i < items.len() ==> #[trigger] map_of(items)[items[i].0@] == items[i].1,
    decreases items.len(),
{
    if items.len() > 0 {
        let rest = items.drop_last();
        assert(keys_of(rest) =~= keys_of(items).drop_last());
        lemma_map_of(rest);
        let n = items.len() - 1;
        assert forall|k: Seq<char>| #[trigger] map_of(items).contains_key(k) <==> keys_of(items).contains(k) by {
            if keys_of(items).contains(k) {
                let i = choose|i: int| 0 <= i < keys_of(items).len() && keys_of(items)[i] == k;
                if i < n {
                    assert(keys_of(rest)[i] == k);
                }
            }
            if map_of(rest).contains_key(k) {
                let i = choose|i: int| 0 <= i < keys_of(rest).len() && keys_of(rest)[i] == k;
                assert(keys_of(items)[i] == k);
            }
            assert(keys_of(items)[n] == items[n].0@);
        }
        assert forall|i: int| 0 <= i < items.len() implies #[trigger] map_of(items)[items[i].0@] == items[i].1 by {
            if i < n {
                lemma_sorted_distinct(keys_of(items), i, n);
                assert(keys_of(items)[i] == items[i].0@);
                assert(keys_of(items)[n] == items[n].0@);
                assert(rest[i] == items[i]);
                assert(map_of(rest)[rest[i].0@] == rest[i].1);
            }
        }
    }
}

/// A map from strings to values, iterated in key order.
#[derive(Debug, Clone)]
pub struct StrMap<V> {
    items: Vec<(String, V)>,
}

impl<V> StrMap<V> {
    /// Items in key order.
    pub closed spec fn items(&self) -> Seq<(String, V)> {
        self.items@
    }

    /// Keys in order.
    pub open spec fn key_seq(&self) -> Seq<Seq<char>> {
        keys_of(self.items())
    }

    /// The map denoted.
    pub open spec fn view(&self) -> Map<Seq<char>, V> {
        map_of(self.items())
    }

    /// Keys strictly increase.
    pub open spec fn wf(&self) -> bool {
        strictly_sorted(self.key_seq())
    }

    pub proof fn lemma_view(&self)
        requires
            self.wf(),
        ensures
            forall|k: Seq<char>| #[trigger] self.view().contains_key(k) <==> self.key_seq().contains(k),
            forall|i: int|
                0 <= i < self.items().len() ==> #[trigger] self.view()[self.items()[i].0@]
                    == self.items()[i].1,
            self.view().dom().finite(),
            self.view().dom().len() == self.items().len(),
    {
        lemma_map_of(self.items());
        lemma_map_of_len(self.items());
    }

    /// An empty map.
    pub fn new() -> (r: Self)
        ensures
            r.wf(),
            r.items().len() == 0,
            r.view() == Map::<Seq<char>, V>::empty(),
    {
        StrMap { items: Vec::new() }
    }

    /// Whether the keys are in strictly increasing order, as every map built through `new` and
    /// `insert` has them.
    pub fn is_wf(&self) -> (r: bool)
        ensures
            r == self.wf(),
    {
        let n = self.items.len();
        let mut i: usize = 1;
        if n == 0 {
            return true;
        }
        while i < n
            invariant
                n == self.items@.len(),
                1 <= i <= n,
                strictly_sorted(self.key_seq().take(i as int)),
            decreases n - i,
        {
            let ghost keys = self.key_seq();
            if !str_lt(self.items[i - 1].0.as_str(), self.items[i].0.as_str()) {
                proof {
                    assert(keys[i - 1] == self.items@[i - 1].0@);
                    assert(keys[i as int] == self.items@[i as int].0@);
                }
                return false;
            }
            proof {
                let t = keys.take(i + 1);
                assert forall|a: int, b: int| 0 <= a < b < t.len() implies seq_lt(#[trigger] t[a], #[trigger] t[b]) by {
                    assert(t[a] == keys[a]);
                    assert(t[b] == keys[b]);
                    if b < i {
                        assert(keys.take(i as int)[a] == keys[a]);
                        assert(keys.take(i as int)[b] == keys[b]);
                    } else if a < i - 1 {
                        assert(keys.take(i as int)[a] == keys[a]);
                        assert(keys.take(i as int)[i - 1] == keys[i - 1]);
                        assert(keys[i - 1] == self.items@[i - 1].0@);
                        assert(keys[i as int] == self.items@[i as int].0@);
                        lemma_seq_lt_transitive(keys[a], keys[i - 1], keys[b]);
                    } else {
                        assert(keys[i - 1] == self.items@[i - 1].0@);
                        assert(keys[i as int] == self.items@[i as int].0@);
                    }
                }
            }
            i = i + 1;
        }
        assert(self.key_seq().take(n as int) =~= self.key_seq());
        true
    }

    /// Number of entries.
    pub fn len(&self) -> (r: usize)
        ensures
            r == self.items().len(),
    {
        self.items.len()
    }

    /// The key and value at position `i` in key order.
    pub fn at(&self, i: usize) -> (r: (&String, &V))
        requires
            i < self.items().len(),
        ensures
            *r.0 == self.items()[i as int].0,
            *r.1 == self.items()[i as int].1,
    {
        let kv = &self.items[i];
        (&kv.0, &kv.1)
    }

    /// Position of `key`, if present.
    pub fn find(&self, key: &str) -> (r: Option<usize>)
        requires
            self.wf(),
        ensures
            match r {
                Some(i) => i < self.items().len() && self.items()[i as int].0@ == key@,
                None => !self.key_seq().contains(key@),
            },
            r is Some <==> self.view().contains_key(key@),
    {
        proof {
            self.lemma_view();
        }
        let mut i: usize = 0;
        while i < self.items.len()
            invariant
                self.wf(),
                i <= self.items@.len(),
                forall|j: int| 0 <= j < i ==> self.items@[j].0@ != key@,
            decreases self.items@.len() - i,
        {
            if crate::text::str_eq(self.items[i].0.as_str(), key) {
                assert(self.key_seq()[i as int] == key@);
                assert(self.key_seq().contains(key@));
                proof {
                    self.lemma_view();
                }
                return Some(i);
            }
            i = i + 1;
        }
        assert forall|j: int| 0 <= j < self.key_seq().len() implies self.key_seq()[j] != key@ by {
            assert(self.key_seq()[j] == self.items@[j].0@);
        }
        None
    }

    /// The value stored under `key`.
    pub fn get(&self, key: &str) -> (r: Option<&V>)
        requires
            self.wf(),
        ensures
            match r {
                Some(v) => self.view().contains_key(key@) && *v == self.view()[key@],
                None => !self.view().contains_key(key@),
            },
    {
        proof {
            self.lemma_view();
        }
        match self.find(key) {
            Some(i) => Some(&self.items[i].1),
            None => None,
        }
    }

    /// Whether `key` is present.
    pub fn contains_key(&self, key: &str) -> (r: bool)
        requires
            self.wf(),
        ensures
            r == self.view().contains_key(key@),
    {
        self.find(key).is_some()
    }

    /// Stores `value` under `key`, replacing any earlier value.
    pub fn insert(&mut self, key: String, value: V)
        requires
            old(self).wf(),
        ensures
            final(self).wf(),
            final(self).view() == old(self).view().insert(key@, value),
    {
        proof {
            self.lemma_view();
        }
        let ghost k = key@;
        let ghost old_items = self.items@;
        let mut i: usize = 0;
        while i < self.items.len() && str_lt(self.items[i].0.as_str(), key.as_str())
            invariant
                self.items@ == old_items,
                strictly_sorted(keys_of(old_items)),
                i <= old_items.len(),
                k == key@,
                forall|j: int| 0 <= j < i ==> seq_lt(#[trigger] old_items[j].0@, k),
            decreases old_items.len() - i,
        {
            i = i + 1;
        }
        let ghost ks = keys_of(old_items);
        if i < self.items.len() && crate::text::str_eq(self.items[i].0.as_str(), key.as_str()) {
            self.items.set(i, (key, value));
            proof {
                let ni = self.items@;
                assert(keys_of(ni) =~= ks.update(i as int, k));
                assert(ks[i as int] == k);
                assert(keys_of(ni) =~= ks);
                lemma_map_of(ni);
                lemma_map_of(old_items);
                assert(map_of(ni) =~= map_of(old_items).insert(k, value)) by {
                    assert forall|q: Seq<char>| #[trigger] map_of(ni).contains_key(q) implies map_of(old_items).insert(k, value).contains_key(q) by {
                        assert(keys_of(ni).contains(q));
                    }
                    assert forall|q: Seq<char>| #[trigger] map_of(old_items).insert(k, value).contains_key(q) implies map_of(ni).contains_key(q) by {
                        if q != k {
                            assert(keys_of(old_items).contains(q));
                        } else {
                            assert(keys_of(ni)[i as int] == q);
                        }
                    }
                    assert forall|q: Seq<char>| #[trigger] map_of(ni).contains_key(q) implies map_of(ni)[q] == map_of(old_items).insert(k, value)[q] by {
                        assert(keys_of(ni).contains(q));
                        let j = choose|j: int| 0 <= j < keys_of(ni).len() && keys_of(ni)[j] == q;
                        assert(ni[j].0@ == q);
                        if j != i {
                            assert(ni[j] == old_items[j]);
                            lemma_sorted_distinct(ks, j, i as int);
                        }
                    }
                }
            }
        } else {
            self.items.insert(i, (key, value));
            proof {
                let ni = self.items@;
                assert(keys_of(ni) =~= ks.insert(i as int, k));
                if i < old_items.len() {
                    lemma_seq_lt_trichotomy(ks[i as int], k);
                    assert(seq_lt(k, ks[i as int]));
                }
                assert forall|a: int, b: int| 0 <= a < b < keys_of(ni).len() implies seq_lt(#[trigger] keys_of(ni)[a], #[trigger] keys_of(ni)[b]) by {
                    if b < i {
                    } else if b == i {
                        assert(keys_of(ni)[a] == ks[a]);
                        assert(seq_lt(old_items[a].0@, k));
                    } else if a == i {
                        assert(keys_of(ni)[b] == ks[b - 1]);
                        if b - 1 > i {
                            lemma_seq_lt_transitive(k, ks[i as int], ks[b - 1]);
                        }
                    } else if a < i {
                        assert(keys_of(ni)[a] == ks[a]);
                        assert(keys_of(ni)[b] == ks[b - 1]);
                    } else {
                        assert(keys_of(ni)[a] == ks[a - 1]);
                        assert(keys_of(ni)[b] == ks[b - 1]);
                    }
                }
                lemma_map_of(ni);
                lemma_map_of(old_items);
                assert(!ks.contains(k)) by {
                    if ks.contains(k) {
                        let j = choose|j: int| 0 <= j < ks.len() && ks[j] == k;
                        if j < i {
                            assert(seq_lt(old_items[j].0@, k));
                            lemma_seq_lt_irreflexive(k);
                        } else {
                            if j > i {
                                lemma_seq_lt_transitive(k, ks[i as int], ks[j]);
                            }
                            lemma_seq_lt_irreflexive(k);
                        }
                    }
                }
                assert(map_of(ni) =~= map_of(old_items).insert(k, value)) by {
                    assert forall|q: Seq<char>| #[trigger] map_of(ni).contains_key(q) implies map_of(old_items).insert(k, value).contains_key(q) by {
                        let j = choose|j: int| 0 <= j < keys_of(ni).len() && keys_of(ni)[j] == q;
                        if j < i {
                            assert(ks[j] == q);
                        } else if j > i {
                            assert(ks[j - 1] == q);
                        }
                    }
                    assert forall|q: Seq<char>| #[trigger] map_of(old_items).insert(k, value).contains_key(q) implies map_of(ni).contains_key(q) by {
                        if q != k {
                            let j = choose|j: int| 0 <= j < ks.len() && ks[j] == q;
                            if j < i {
                                assert(keys_of(ni)[j] == q);
                            } else {
                                assert(keys_of(ni)[j + 1] == q);
                            }
                        } else {
                            assert(keys_of(ni)[i as int] == q);
                        }
                    }
                    assert forall|q: Seq<char>| #[trigger] map_of(ni).contains_key(q) implies map_of(ni)[q] == map_of(old_items).insert(k, value)[q] by {
                        let j = choose|j: int| 0 <= j < keys_of(ni).len() && keys_of(ni)[j] == q;
                        assert(ni[j].0@ == q);
                        if j < i {
                            assert(ni[j] == old_items[j]);
                        } else if j > i {
                            assert(ni[j] == old_items[j - 1]);
                        }
                    }
                }
            }
        }
    }

    /// Removes the entry at position `i`.
    pub fn remove_at(&mut self, i: usize) -> (r: (String, V))
        requires
            old(self).wf(),
            i < old(self).items().len(),
        ensures
            final(self).wf(),
            r == old(self).items()[i as int],
            final(self).items() == old(self).items().remove(i as int),
            final(self).view() == old(self).view().remove(r.0@),
    {
        let ghost old_items = self.items@;
        let r = self.items.remove(i);
        proof {
            let ni = self.items@;
            let ks = keys_of(old_items);
            assert(keys_of(ni) =~= ks.remove(i as int));
            assert forall|a: int, b: int| 0 <= a < b < keys_of(ni).len() implies seq_lt(#[trigger] keys_of(ni)[a], #[trigger] keys_of(ni)[b]) by {
                if b < i {
                } else if a < i {
                    assert(keys_of(ni)[b] == ks[b + 1]);
                } else {
                    assert(keys_of(ni)[a] == ks[a + 1]);
                    assert(keys_of(ni)[b] == ks[b + 1]);
                }
            }
            lemma_map_of(ni);
            lemma_map_of(old_items);
            let k = r.0@;
            assert(ks[i as int] == k);
            assert(map_of(ni) =~= map_of(old_items).remove(k)) by {
                assert forall|q: Seq<char>| #[trigger] map_of(ni).contains_key(q) implies map_of(old_items).remove(k).contains_key(q) by {
                    let j = choose|j: int| 0 <= j < keys_of(ni).len() && keys_of(ni)[j] == q;
                    if j < i {
                        assert(ks[j] == q);
                        lemma_sorted_distinct(ks, j, i as int);
                    } else {
                        assert(ks[j + 1] == q);
                        lemma_sorted_distinct(ks, j + 1, i as int);
                    }
                }
                assert forall|q: Seq<char>| #[trigger] map_of(old_items).remove(k).contains_key(q) implies map_of(ni).contains_key(q) by {
                    let j = choose|j: int| 0 <= j < ks.len() && ks[j] == q;
                    if j < i {
                        assert(keys_of(ni)[j] == q);
                    } else {
                        assert(j != i);
                        assert(keys_of(ni)[j - 1] == q);
                    }
                }
                assert forall|q: Seq<char>| #[trigger] map_of(ni).contains_key(q) implies map_of(ni)[q] == map_of(old_items).remove(k)[q] by {
                    let j = choose|j: int| 0 <= j < keys_of(ni).len() && keys_of(ni)[j] == q;
                    assert(ni[j].0@ == q);
                    if j < i {
                        assert(ni[j] == old_items[j]);
                    } else {
                        assert(ni[j] == old_items[j + 1]);
                    }
                }
            }
        }
        r
    }

    /// Removes the entry under `key`, returning its value.
    pub fn remove(&mut self, key: &str) -> (r: Option<V>)
        requires
            old(self).wf(),
        ensures
            final(self).wf(),
            final(self).view() == old(self).view().remove(key@),
            match r {
                Some(v) => old(self).view().contains_key(key@) && v == old(self).view()[key@],
                None => !old(self).view().contains_key(key@),
            },
    {
        proof {
            self.lemma_view();
        }
        match self.find(key) {
            Some(i) => {
                let (_, v) = self.remove_at(i);
                Some(v)
            },
            None => {
                assert(old(self).view().remove(key@) =~= old(self).view());
                None
            },
        }
    }
}

impl<V> StrMap<V> {
    /// The keys in order.
    pub fn keys(&self) -> (r: Vec<String>)
        ensures
            views(r@) == self.key_seq(),
    {
        let mut r: Vec<String> = Vec::new();
        let mut i: usize = 0;
        while i < self.items.len()
            invariant
                i <= self.items@.len(),
                views(r@) == keys_of(self.items@).take(i as int),
            decreases self.items@.len() - i,
        {
            let k = self.items[i].0.clone();
            assert(k@ == keys_of(self.items@)[i as int]);
            let ghost before = r@;
            r.push(k);
            proof {
                assert(r@ == before.push(k));
                let lhs = views(r@);
                let rhs = keys_of(self.items@).take(i + 1);
                assert(keys_of(self.items@).len() == self.items@.len());
                assert(before.len() == views(before).len());
                assert(before.len() == i);
                assert(r@.len() == i + 1);
                assert(views(r@).len() == r@.len());
                assert(lhs.len() == i + 1);
                assert(rhs.len() == i + 1);
                assert(views(before) == keys_of(self.items@).take(i as int));
                assert forall|j: int| 0 <= j < lhs.len() implies lhs[j] == rhs[j] by {
                    if j < i {
                        assert(lhs[j] == views(before)[j]);
                    }
                }
                assert(lhs =~= rhs);
            }
            i = i + 1;
        }
        assert(keys_of(self.items@).take(i as int) =~= keys_of(self.items@));
        r
    }

    /// The items in key order, consuming the map.
    pub fn into_items(self) -> (r: Vec<(String, V)>)
        ensures
            r@ == self.items(),
    {
        self.items
    }

    /// Removes every key in `doomed`.
    pub fn remove_all(&mut self, doomed: &Vec<String>)
        requires
            old(self).wf(),
        ensures
            final(self).wf(),
            final(self).view() == old(self).view().remove_keys(views(doomed@).to_set()),
    {
        let ghost start = self.view();
        let mut i: usize = 0;
        while i < doomed.len()
            invariant
                self.wf(),
                i <= doomed@.len(),
                self.view() == start.remove_keys(views(doomed@).take(i as int).to_set()),
            decreases doomed@.len() - i,
        {
            let ghost before = self.view();
            let _ = self.remove(doomed[i].as_str());
            proof {
                let d = views(doomed@);
                let t1 = d.take(i + 1);
                let t0 = d.take(i as int);
                assert forall|x: Seq<char>| t1.contains(x) == t0.to_set().insert(d[i as int]).contains(x) by {
                    if t1.contains(x) {
                        let j = choose|j: int| 0 <= j < t1.len() && #[trigger] t1[j] == x;
                        if j < i {
                            assert(d.take(i as int)[j] == x);
                        }
                    }
                    if x == d[i as int] {
                        assert(d.take(i + 1)[i as int] == x);
                    }
                    if t0.contains(x) {
                        let j = choose|j: int| 0 <= j < t0.len() && #[trigger] t0[j] == x;
                        assert(d.take(i + 1)[j] == x);
                    }
                }
                assert(d.take(i + 1).to_set() =~= d.take(i as int).to_set().insert(d[i as int]));
                assert(self.view() =~= start.remove_keys(d.take(i + 1).to_set()));
            }
            i = i + 1;
        }
        assert(views(doomed@).take(i as int) =~= views(doomed@));
    }
}

impl StrMap<String> {
    /// A copy of this map.
    pub fn duplicate(&self) -> (r: Self)
        ensures
            r.items() == self.items(),
    {
        let mut items: Vec<(String, String)> = Vec::new();
        let mut i: usize = 0;
        while i < self.items.len()
            invariant
                i <= self.items@.len(),
                items@ == self.items@.take(i as int),
            decreases self.items@.len() - i,
        {
            let k = self.items[i].0.clone();
            let v = self.items[i].1.clone();
            items.push((k, v));
            assert(items@ =~= self.items@.take(i + 1));
            i = i + 1;
        }
        assert(self.items@.take(i as int) =~= self.items@);
        StrMap { items }
    }
}

pub proof fn lemma_map_of_len<V>(items: Seq<(String, V)>)
    requires
        strictly_sorted(keys_of(items)),
    ensures
        map_of(items).dom().finite(),
        map_of(items).dom().len() == items.len(),
    decreases items.len(),
{
    if items.len() > 0 {
        let rest = items.drop_last();
        assert(keys_of(rest) =~= keys_of(items).drop_last());
        lemma_map_of_len(rest);
        lemma_map_of(rest);
        let k = items.last().0@;
        assert(!keys_of(rest).contains(k)) by {
            if keys_of(rest).contains(k) {
                let j = choose|j: int| 0 <= j < keys_of(rest).len() && keys_of(rest)[j] == k;
                lemma_sorted_distinct(keys_of(items), j, items.len() - 1);
            }
        }
    }
}

} // verus!

verus! {

/// The keys of a finite set of strings in strictly increasing order.
pub open spec fn sorted_keys(d: Set<Seq<char>>) -> Seq<Seq<char>> {
    choose|s: Seq<Seq<char>>| strictly_sorted(s) && s.to_set() == d
}

/// `x` placed among strictly increasing keys.
spec fn insert_key(s: Seq<Seq<char>>, x: Seq<char>) -> Seq<Seq<char>>
    decreases s.len(),
{
    if s.len() == 0 {
        seq![x]
    } else if seq_lt(x, s[0]) {
        seq![x] + s
    } else {
        seq![s[0]] + insert_key(s.drop_first(), x)
    }
}

proof fn lemma_insert_key(s: Seq<Seq<char>>, x: Seq<char>)
    requires
        strictly_sorted(s),
        !s.contains(x),
    ensures
        strictly_sorted(insert_key(s, x)),
        forall|y: Seq<char>| insert_key(s, x).contains(y) <==> (s.contains(y) || y == x),
    decreases s.len(),
{
    let r = insert_key(s, x);
    if s.len() == 0 {
        assert(r =~= seq![x]);
        assert forall|y: Seq<char>| r.contains(y) <==> (s.contains(y) || y == x) by {
            if r.contains(y) {
                assert(r[0] == x);
            }
            if y == x {
                assert(r[0] == y);
            }
        }
    } else if seq_lt(x, s[0]) {
        assert forall|i: int, j: int| 0 <= i < j < r.len() implies seq_lt(#[trigger] r[i], #[trigger] r[j]) by {
            if i == 0 {
                assert(r[j] == s[j - 1]);
                if j > 1 {
                    assert(seq_lt(s[0], s[j - 1]));
                    lemma_seq_lt_transitive(x, s[0], s[j - 1]);
                }
            } else {
                assert(r[i] == s[i - 1]);
                assert(r[j] == s[j - 1]);
            }
        }
        assert forall|y: Seq<char>| r.contains(y) <==> (s.contains(y) || y == x) by {
            if r.contains(y) {
                let k = choose|k: int| 0 <= k < r.len() && r[k] == y;
                if k > 0 {
                    assert(s[k - 1] == y);
                }
            }
            if s.contains(y) {
                let k = choose|k: int| 0 <= k < s.len() && s[k] == y;
                assert(r[k + 1] == y);
            }
            if y == x {
                assert(r[0] == y);
            }
        }
    } else {
        let rest = s.drop_first();
        assert(strictly_sorted(rest)) by {
            assert forall|i: int, j: int| 0 <= i < j < rest.len() implies seq_lt(#[trigger] rest[i], #[trigger] rest[j]) by {
                assert(rest[i] == s[i + 1]);
                assert(rest[j] == s[j + 1]);
            }
        }
        assert(!rest.contains(x)) by {
            if rest.contains(x) {
                let k = choose|k: int| 0 <= k < rest.len() && rest[k] == x;
                assert(s[k + 1] == x);
            }
        }
        lemma_insert_key(rest, x);
        let t = insert_key(rest, x);
        assert(x != s[0]);
        lemma_seq_lt_trichotomy(x, s[0]);
        assert(seq_lt(s[0], x));
        assert(r == seq![s[0]] + t);
        assert forall|i: int, j: int| 0 <= i < j < r.len() implies seq_lt(#[trigger] r[i], #[trigger] r[j]) by {
            assert(r[j] == t[j - 1]);
            if i == 0 {
                assert(t.contains(t[j - 1]));
                if t[j - 1] != x {
                    assert(rest.contains(t[j - 1]));
                    let k = choose|k: int| 0 <= k < rest.len() && rest[k] == t[j - 1];
                    assert(s[k + 1] == t[j - 1]);
                }
            } else {
                assert(r[i] == t[i - 1]);
            }
        }
        assert forall|y: Seq<char>| r.contains(y) <==> (s.contains(y) || y == x) by {
            if r.contains(y) {
                let k = choose|k: int| 0 <= k < r.len() && r[k] == y;
                if k > 0 {
                    assert(t[k - 1] == y);
                    assert(t.contains(y));
                    if rest.contains(y) {
                        let q = choose|q: int| 0 <= q < rest.len() && rest[q] == y;
                        assert(s[q + 1] == y);
                    }
                } else {
                    assert(s[0] == y);
                }
            }
            if s.contains(y) {
                let k = choose|k: int| 0 <= k < s.len() && s[k] == y;
                if k == 0 {
                    assert(r[0] == y);
                } else {
                    assert(rest[k - 1] == y);
                    assert(rest.contains(y));
                    assert(t.contains(y));
                    let q = choose|q: int| 0 <= q < t.len() && t[q] == y;
                    assert(r[q + 1] == y);
                }
            }
            if y == x {
                assert(t.contains(x));
                let q = choose|q: int| 0 <= q < t.len() && t[q] == x;
                assert(r[q + 1] == x);
            }
        }
    }
}

proof fn sorted_witness(d: Set<Seq<char>>) -> (s: Seq<Seq<char>>)
    requires
        d.finite(),
    ensures
        strictly_sorted(s),
        s.to_set() == d,
    decreases d.len(),
{
    if d.len() == 0 {
        assert(d =~= Set::<Seq<char>>::empty());
        assert(Seq::<Seq<char>>::empty().to_set() =~= d);
        Seq::empty()
    } else {
        let x = d.choose();
        let s0 = sorted_witness(d.remove(x));
        assert(!s0.contains(x)) by {
            if s0.contains(x) {
                assert(s0.to_set().contains(x));
            }
        }
        lemma_insert_key(s0, x);
        let r = insert_key(s0, x);
        assert forall|y: Seq<char>| r.to_set().contains(y) <==> d.contains(y) by {
            if r.to_set().contains(y) {
                assert(r.contains(y));
                if y != x {
                    assert(s0.contains(y));
                    assert(s0.to_set().contains(y));
                }
            }
            if d.contains(y) {
                if y != x {
                    assert(d.remove(x).contains(y));
                    assert(s0.to_set().contains(y));
                    assert(s0.contains(y));
                }
                assert(r.contains(y));
            }
        }
        assert(r.to_set() =~= d);
        r
    }
}

/// The keys of a finite set, in strictly increasing order, are exactly its members.
pub proof fn lemma_sorted_keys(d: Set<Seq<char>>)
    requires
        d.finite(),
    ensures
        strictly_sorted(sorted_keys(d)),
        sorted_keys(d).to_set() == d,
        forall|k: Seq<char>| d.contains(k) ==> #[trigger] sorted_keys(d).contains(k),
{
    let w = sorted_witness(d);
    assert(strictly_sorted(w) && w.to_set() == d);
    let s = sorted_keys(d);
    assert forall|k: Seq<char>| d.contains(k) implies #[trigger] s.contains(k) by {
        assert(s.to_set().contains(k));
    }
}

/// A finite map's entries in key order are entries of the map.
pub proof fn lemma_map_pairs_members<V>(m: Map<Seq<char>, V>)
    requires
        m.dom().finite(),
    ensures
        forall|t: int| 0 <= t < map_pairs(m).len() ==> m.contains_key((#[trigger] map_pairs(m)[t]).0)
            && map_pairs(m)[t].1 == m[map_pairs(m)[t].0],
{
    lemma_sorted_keys(m.dom());
    let s = sorted_keys(m.dom());
    assert forall|t: int| 0 <= t < map_pairs(m).len() implies m.contains_key((#[trigger] map_pairs(m)[t]).0)
        && map_pairs(m)[t].1 == m[map_pairs(m)[t].0] by {
        assert(map_pairs(m)[t] == (s[t], m[s[t]]));
        assert(s.to_set().contains(s[t]));
    }
}

/// A finite map's entries in key order hold each of its entries.
pub proof fn lemma_map_pairs_hold<V>(m: Map<Seq<char>, V>, k: Seq<char>)
    requires
        m.dom().finite(),
        m.contains_key(k),
    ensures
        exists|i: int| 0 <= i < map_pairs(m).len() && #[trigger] map_pairs(m)[i] == (k, m[k]),
{
    lemma_sorted_keys(m.dom());
    let s = sorted_keys(m.dom());
    assert(s.contains(k));
    let i = choose|i: int| 0 <= i < s.len() && s[i] == k;
    assert(map_pairs(m)[i] == (k, m[k]));
}

/// A map's entries in key order.
pub open spec fn map_pairs<V>(m: Map<Seq<char>, V>) -> Seq<(Seq<char>, V)> {
    sorted_keys(m.dom()).map_values(|k: Seq<char>| (k, m[k]))
}

/// Two strictly increasing sequences of the same keys are the same sequence.
pub proof fn lemma_sorted_unique(a: Seq<Seq<char>>, b: Seq<Seq<char>>)
    requires
        strictly_sorted(a),
        strictly_sorted(b),
        a.to_set() == b.to_set(),
    ensures
        a == b,
    decreases a.len(),
{
    if a.len() == 0 {
        if b.len() > 0 {
            assert(b.to_set().contains(b[0]));
            assert(a.to_set().contains(b[0]));
        }
        assert(a =~= b);
    } else {
        assert(a.to_set().contains(a[0]));
        assert(b.to_set().contains(a[0]));
        assert(b.len() > 0);
        assert(b.to_set().contains(b[0]));
        assert(a.to_set().contains(b[0]));
        let i = choose|i: int| 0 <= i < b.len() && b[i] == a[0];
        let j = choose|j: int| 0 <= j < a.len() && a[j] == b[0];
        if i > 0 {
            assert(seq_lt(b[0], b[i]));
            if j > 0 {
                assert(seq_lt(a[0], a[j]));
                lemma_seq_lt_transitive(a[0], b[0], a[0]);
                lemma_seq_lt_irreflexive(a[0]);
            } else {
                lemma_seq_lt_irreflexive(a[0]);
            }
        }
        assert(a[0] == b[0]);
        let ar = a.drop_first();
        let br = b.drop_first();
        assert forall|x: int, y: int| 0 <= x < y < ar.len() implies seq_lt(#[trigger] ar[x], #[trigger] ar[y]) by {
            assert(ar[x] == a[x + 1]);
            assert(ar[y] == a[y + 1]);
        }
        assert forall|x: int, y: int| 0 <= x < y < br.len() implies seq_lt(#[trigger] br[x], #[trigger] br[y]) by {
            assert(br[x] == b[x + 1]);
            assert(br[y] == b[y + 1]);
        }
        assert forall|q: Seq<char>| ar.to_set().contains(q) <==> br.to_set().contains(q) by {
            if ar.contains(q) {
                let t = choose|t: int| 0 <= t < ar.len() && ar[t] == q;
                assert(a[t + 1] == q);
                assert(seq_lt(a[0], q));
                assert(a.to_set().contains(q));
                assert(b.contains(q));
                let u = choose|u: int| 0 <= u < b.len() && b[u] == q;
                if u == 0 {
                    lemma_seq_lt_irreflexive(q);
                }
                assert(br[u - 1] == q);
            }
            if br.contains(q) {
                let t = choose|t: int| 0 <= t < br.len() && br[t] == q;
                assert(b[t + 1] == q);
                assert(seq_lt(b[0], q));
                assert(b.to_set().contains(q));
                assert(a.contains(q));
                let u = choose|u: int| 0 <= u < a.len() && a[u] == q;
                if u == 0 {
                    lemma_seq_lt_irreflexive(q);
                }
                assert(ar[u - 1] == q);
            }
        }
        assert(ar.to_set() =~= br.to_set());
        lemma_sorted_unique(ar, br);
        assert(a =~= seq![a[0]] + ar);
        assert(b =~= seq![b[0]] + br);
    }
}

impl<V> StrMap<V> {
    /// The items of a well-formed map are its entries in key order.
    pub proof fn lemma_items_are_map_pairs(&self)
        requires
            self.wf(),
        ensures
            self.key_seq() == sorted_keys(self.view().dom()),
            self.items().map_values(|kv: (String, V)| (kv.0@, kv.1)) == map_pairs(self.view()),
    {
        self.lemma_view();
        let ks = self.key_seq();
        assert(ks.to_set() =~= self.view().dom());
        let s = sorted_keys(self.view().dom());
        assert(strictly_sorted(s) && s.to_set() == self.view().dom());
        lemma_sorted_unique(ks, s);
        let lhs = self.items().map_values(|kv: (String, V)| (kv.0@, kv.1));
        assert forall|i: int| 0 <= i < lhs.len() implies lhs[i] == map_pairs(self.view())[i] by {
            assert(ks[i] == self.items()[i].0@);
        }
        assert(lhs =~= map_pairs(self.view()));
    }
}

} // verus!
