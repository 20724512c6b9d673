//! A map from case-insensitive keys to values, kept in key order.

use vstd::prelude::*;
use crate::key::{Key, ToKey, texts, same_key, key_lt, lemma_key_order_total};
use crate::sorted_keys::{
    ascending, splits_at, insert_pos, lemma_key_lt_transitive, search, is_ascending,
};
use crate::unicase_index_map::{
    entries_of, map_has, map_wf, entry_index, lookup, map_remove, pair_texts, same_entries,
    answered_entry,
    lemma_entry_index,
};
use crate::seq_lemmas::{kept, lemma_kept_push};
use vstd::std_specs::iter::IteratorSpec;
use vstd::std_specs::cmp::PartialEqSpec;

verus! {

/// The key texts of the entries of `m`, in order.
pub open spec fn map_keys<V>(m: Seq<(Seq<char>, V)>) -> Seq<Seq<char>> {
    m.map_values(|e: (Seq<char>, V)| e.0)
}

/// `m`, ascending by key, after inserting `v` under `k`: an entry whose key
/// folds like `k` keeps its key text and takes the value; otherwise the pair
/// goes to its place in key order.
pub open spec fn sorted_map_insert<V>(m: Seq<(Seq<char>, V)>, k: Seq<char>, v: V) -> Seq<
    (Seq<char>, V),
> {
    if map_has(m, k) {
        let i = entry_index(m, k);
        m.update(i, (m[i].0, v))
    } else {
        m.insert(insert_pos(map_keys(m), k), (k, v))
    }
}

/// `m` after inserting each pair of `items` in turn, as `sorted_map_insert` does.
pub open spec fn sorted_map_insert_all<V>(
    m: Seq<(Seq<char>, V)>,
    items: Seq<(Seq<char>, V)>,
) -> Seq<(Seq<char>, V)>
    decreases items.len(),
{
    if items.len() == 0 {
        m
    } else {
        let last = items.last();
        sorted_map_insert(sorted_map_insert_all(m, items.drop_last()), last.0, last.1)
    }
}

/// A map from keys compared without regard to case to values, kept in key order.
#[derive(Debug, Clone)]
pub struct UniCaseBTreeMap<V> {
    keys: Vec<Key>,
    values: Vec<V>,
}

impl<V> View for UniCaseBTreeMap<V> {
    type V = Seq<(Seq<char>, V)>;

    /// The entries as pairs of key text and value, in key order.
    open spec fn view(&self) -> Seq<(Seq<char>, V)> {
        entries_of(texts(self.key_seq()), self.value_seq())
    }
}

impl<V> UniCaseBTreeMap<V> {
    /// The stored keys, in key order.
    pub closed spec fn key_seq(&self) -> Seq<Key> {
        self.keys@
    }

    /// The values, at the positions of their keys.
    pub closed spec fn value_seq(&self) -> Seq<V> {
        self.values@
    }

    /// Each key has its value, and the keys ascend strictly in key order.
    pub open spec fn wf(&self) -> bool {
        &&& self.value_seq().len() == self.key_seq().len()
        &&& ascending(texts(self.key_seq()))
    }

    /// What the view holds when the map is well formed.
    proof fn lemma_view(&self)
        requires
            self.wf(),
        ensures
            map_wf(self@),
            self@.len() == self.keys@.len(),
            self@.len() == self.values@.len(),
            map_keys(self@) == texts(self.keys@),
            forall|i: int|
                0 <= i < self@.len() ==> #[trigger] self@[i] == (self.keys@[i]@, self.values@[i]),
    {
        let m = self@;
        let t = texts(self.keys@);
        assert(map_keys(m) =~= t);
        assert forall|i: int, j: int|
            0 <= i < m.len() && 0 <= j < m.len() && i != j implies !same_key(
            #[trigger] m[i].0,
            #[trigger] m[j].0,
        ) by {
            assert(m[i].0 == t[i] && m[j].0 == t[j]);
            if i < j {
                lemma_key_order_total(t[i], t[j]);
            } else {
                lemma_key_order_total(t[j], t[i]);
            }
        }
    }

    /// Creates an empty map.
    pub fn new() -> (r: Self)
        ensures
            r.wf(),
            r@ == Seq::<(Seq<char>, V)>::empty(),
    {
        let r = UniCaseBTreeMap { keys: Vec::new(), values: Vec::new() };
        assert(r@ =~= Seq::<(Seq<char>, V)>::empty());
        assert(texts(r.keys@) =~= Seq::<Seq<char>>::empty());
        r
    }

    /// Removes every entry.
    pub fn clear(&mut self)
        ensures
            final(self).wf(),
            final(self)@ == Seq::<(Seq<char>, V)>::empty(),
    {
        self.keys.clear();
        self.values.clear();
        assert(self@ =~= Seq::<(Seq<char>, V)>::empty());
        assert(texts(self.keys@) =~= Seq::<Seq<char>>::empty());
    }

    /// Where the entry whose key folds like `k` stands, if there is one.
    fn find(&self, k: &Key) -> (r: Option<usize>)
        requires
            self.wf(),
        ensures
            match r {
                Some(i) => i < self@.len() && map_has(self@, k@) && entry_index(self@, k@) == i,
                None => !map_has(self@, k@),
            },
    {
        proof {
            self.lemma_view();
        }
        match search(&self.keys, k) {
            Ok(i) => {
                proof {
                    lemma_entry_index(self@, k@, i as int);
                }
                Some(i)
            },
            Err(_) => {
                assert forall|i: int| 0 <= i < self@.len() implies !same_key(
                    #[trigger] self@[i].0,
                    k@,
                ) by {
                    assert(self@[i].0 == texts(self.keys@)[i]);
                }
                None
            },
        }
    }

    /// Whether the map has an entry whose key folds like `k`.
    pub fn contains_key<K: ToKey>(&self, k: K) -> (r: bool)
        requires
            self.wf(),
        ensures
            r == map_has(self@, k.key_text()),
    {
        let key = k.to_key();
        self.find(&key).is_some()
    }

    /// The value stored under the key that folds like `k`.
    pub fn get<K: ToKey>(&self, k: K) -> (r: Option<&V>)
        requires
            self.wf(),
        ensures
            match r {
                Some(v) => lookup(self@, k.key_text()) == Some(*v),
                None => lookup(self@, k.key_text()) == None::<V>,
            },
    {
        let key = k.to_key();
        proof {
            self.lemma_view();
        }
        match self.find(&key) {
            Some(i) => Some(&self.values[i]),
            None => None,
        }
    }

    /// The stored key, with the text it was first inserted with, and its value.
    pub fn get_key_value<K: ToKey>(&self, k: K) -> (r: Option<(&Key, &V)>)
        requires
            self.wf(),
        ensures
            match r {
                Some((key, v)) => map_has(self@, k.key_text()) && self@[entry_index(
                    self@,
                    k.key_text(),
                )] == (key@, *v),
                None => !map_has(self@, k.key_text()),
            },
    {
        let key = k.to_key();
        proof {
            self.lemma_view();
        }
        match self.find(&key) {
            Some(i) => Some((&self.keys[i], &self.values[i])),
            None => None,
        }
    }

    /// A mutable reference to the value stored under the key that folds like `k`.
    pub fn get_mut<K: ToKey>(&mut self, k: K) -> (r: Option<&mut V>)
        requires
            old(self).wf(),
        ensures
            match r {
                Some(v) => map_has(old(self)@, k.key_text()) && *v == old(self)@[entry_index(
                    old(self)@,
                    k.key_text(),
                )].1 && final(self).wf() && final(self)@ == old(self)@.update(
                    entry_index(old(self)@, k.key_text()),
                    (old(self)@[entry_index(old(self)@, k.key_text())].0, *final(v)),
                ),
                None => !map_has(old(self)@, k.key_text()) && final(self)@ == old(self)@,
            },
    {
        let key = k.to_key();
        proof {
            self.lemma_view();
        }
        match self.find(&key) {
            Some(i) => Some(&mut self.values[i]),
            None => None,
        }
    }

    /// Stores `v` under `k`. Where a key that folds like `k` is present it
    /// keeps its text, and its old value is returned; otherwise the entry goes
    /// to its place in key order and `None` is returned.
    pub fn insert<K: ToKey>(&mut self, k: K, v: V) -> (r: Option<V>)
        requires
            old(self).wf(),
        ensures
            final(self).wf(),
            r == lookup(old(self)@, k.key_text()),
            final(self)@ == sorted_map_insert(old(self)@, k.key_text(), v),
    {
        let key = k.to_key();
        let ghost before = self@;
        let ghost kt = k.key_text();
        proof {
            self.lemma_view();
        }
        match search(&self.keys, &key) {
            Ok(i) => {
                proof {
                    lemma_entry_index(before, kt, i as int);
                }
                let mut slot = v;
                std::mem::swap(&mut self.values[i], &mut slot);
                assert(self@ =~= before.update(i as int, (before[i as int].0, v)));
                Some(slot)
            },
            Err(p) => {
                let ghost t = texts(self.keys@);
                proof {
                    assert forall|j: int| 0 <= j < before.len() implies !same_key(
                        #[trigger] before[j].0,
                        kt,
                    ) by {
                        assert(before[j].0 == t[j]);
                    }
                    let q = insert_pos(map_keys(before), kt);
                    assert(splits_at(map_keys(before), kt, p as int));
                    if q < p {
                        lemma_key_order_total(t[q], kt);
                    } else if q > p {
                        lemma_key_order_total(t[p as int], kt);
                    }
                }
                self.keys.insert(p, key);
                self.values.insert(p, v);
                assert(texts(self.keys@) =~= t.insert(p as int, kt));
                assert(self@ =~= before.insert(p as int, (kt, v)));
                let ghost t2 = texts(self.keys@);
                assert forall|i: int, j: int| 0 <= i < j < t2.len() implies key_lt(
                    #[trigger] t2[i],
                    #[trigger] t2[j],
                ) by {
                    if j < p {
                    } else if j == p {
                    } else if i < p {
                        lemma_key_lt_transitive(t2[i], kt, t2[j]);
                    } else if i == p {
                    } else {
                        assert(t[i - 1] == t2[i] && t[j - 1] == t2[j]);
                    }
                }
                None
            },
        }
    }

    /// Whether the map has no entry.
    pub fn is_empty(&self) -> (r: bool)
        requires
            self.wf(),
        ensures
            r == (self@.len() == 0),
    {
        self.keys.len() == 0
    }

    /// The number of entries.
    pub fn len(&self) -> (r: usize)
        requires
            self.wf(),
        ensures
            r == self@.len(),
    {
        self.keys.len()
    }

    /// The entries in key order.
    pub fn iter(&self) -> (r: Vec<(&Key, &V)>)
        requires
            self.wf(),
        ensures
            r@.len() == self@.len(),
            forall|i: int|
                0 <= i < self@.len() ==> (#[trigger] r@[i]).0@ == self@[i].0 && *r@[i].1
                    == self@[i].1,
    {
        proof {
            self.lemma_view();
        }
        let mut out: Vec<(&Key, &V)> = Vec::new();
        let mut i: usize = 0;
        while i < self.keys.len()
            invariant
                self.wf(),
                self@.len() == self.keys@.len(),
                i <= self@.len(),
                out@.len() == i,
                forall|j: int|
                    0 <= j < self@.len() ==> #[trigger] self@[j] == (
                        self.keys@[j]@,
                        self.values@[j],
                    ),
                forall|j: int|
                    0 <= j < i ==> (#[trigger] out@[j]).0@ == self@[j].0 && *out@[j].1
                        == self@[j].1,
            decreases self@.len() - i,
        {
            out.push((&self.keys[i], &self.values[i]));
            i = i + 1;
        }
        out
    }

    /// The keys in key order.
    pub fn keys(&self) -> (r: std::slice::Iter<'_, Key>)
        requires
            self.wf(),
        ensures
            r.remaining().map_values(|k: &Key| k@) == map_keys(self@),
    {
        proof {
            self.lemma_view();
        }
        let r = self.keys.iter();
        assert(r.remaining().map_values(|k: &Key| k@) =~= map_keys(self@));
        r
    }

    /// The values in the order of their keys.
    pub fn values(&self) -> (r: std::slice::Iter<'_, V>)
        requires
            self.wf(),
        ensures
            r.remaining().map_values(|v: &V| *v) == self@.map_values(|e: (Seq<char>, V)| e.1),
    {
        proof {
            self.lemma_view();
        }
        let r = self.values.iter();
        assert(r.remaining().map_values(|v: &V| *v) =~= self@.map_values(
            |e: (Seq<char>, V)| e.1,
        ));
        r
    }

    /// Removes the entry whose key folds like `k` and returns its value.
    pub fn remove<K: ToKey>(&mut self, k: K) -> (r: Option<V>)
        requires
            old(self).wf(),
        ensures
            final(self).wf(),
            r == lookup(old(self)@, k.key_text()),
            final(self)@ == map_remove(old(self)@, k.key_text()),
    {
        match self.remove_entry(k) {
            Some((_, v)) => Some(v),
            None => None,
        }
    }

    /// Removes the entry whose key folds like `k` and returns the stored key,
    /// with the text it was first inserted with, and the value.
    pub fn remove_entry<K: ToKey>(&mut self, k: K) -> (r: Option<(Key, V)>)
        requires
            old(self).wf(),
        ensures
            final(self).wf(),
            match r {
                Some((key, v)) => map_has(old(self)@, k.key_text()) && old(self)@[entry_index(
                    old(self)@,
                    k.key_text(),
                )] == (key@, v),
                None => !map_has(old(self)@, k.key_text()),
            },
            match r {
                Some((_, v)) => lookup(old(self)@, k.key_text()) == Some(v),
                None => lookup(old(self)@, k.key_text()) == None::<V>,
            },
            final(self)@ == map_remove(old(self)@, k.key_text()),
    {
        let key = k.to_key();
        let ghost before = self@;
        proof {
            self.lemma_view();
        }
        match self.find(&key) {
            Some(i) => {
                let ghost t = texts(self.keys@);
                let stored = self.keys.remove(i);
                let v = self.values.remove(i);
                assert(self@ =~= before.remove(i as int));
                assert(texts(self.keys@) =~= t.remove(i as int));
                let ghost t2 = texts(self.keys@);
                assert forall|a: int, b: int| 0 <= a < b < t2.len() implies key_lt(
                    #[trigger] t2[a],
                    #[trigger] t2[b],
                ) by {
                    let a0 = if a < i { a } else { a + 1 };
                    let b0 = if b < i { b } else { b + 1 };
                    assert(t2[a] == t[a0] && t2[b] == t[b0]);
                }
                Some((stored, v))
            },
            None => None,
        }
    }

    /// Keeps the entries for which `f` returns true, in key order, and removes
    /// the others.
    pub fn retain<F: Fn(&Key, &V) -> bool>(&mut self, f: F)
        requires
            old(self).wf(),
            forall|k: &Key, v: &V| #[trigger] f.requires((k, v)),
        ensures
            final(self).wf(),
            exists|keep: Seq<bool>|
                keep.len() == old(self)@.len() && (forall|i: int|
                    0 <= i < keep.len() ==> #[trigger] answered_entry(
                        f,
                        old(self)@[i].0,
                        old(self)@[i].1,
                        keep[i],
                    )) && final(self)@ == kept(old(self)@, keep),
    {
        proof {
            self.lemma_view();
        }
        let ghost before = self@;
        let ghost t = texts(self.keys@);
        let ghost mut keep: Seq<bool> = Seq::empty();
        let n = self.keys.len();
        let mut pending_keys: Vec<Key> = Vec::new();
        let mut pending_values: Vec<V> = Vec::new();
        std::mem::swap(&mut self.keys, &mut pending_keys);
        std::mem::swap(&mut self.values, &mut pending_values);
        let mut rev_keys: Vec<Key> = Vec::new();
        let mut rev_values: Vec<V> = Vec::new();
        while pending_keys.len() > 0
            invariant
                pending_keys@.len() == pending_values@.len(),
                pending_keys@.len() + rev_keys@.len() == n,
                rev_keys@.len() == rev_values@.len(),
                n == before.len(),
                forall|j: int|
                    0 <= j < pending_keys@.len() ==> #[trigger] pending_keys@[j]@ == before[j].0
                        && pending_values@[j] == before[j].1,
                forall|j: int|
                    0 <= j < rev_keys@.len() ==> #[trigger] rev_keys@[j]@ == before[n - 1 - j].0
                        && rev_values@[j] == before[n - 1 - j].1,
            decreases pending_keys@.len(),
        {
            let k = pending_keys.pop().unwrap();
            let v = pending_values.pop().unwrap();
            rev_keys.push(k);
            rev_values.push(v);
        }
        let mut out_keys: Vec<Key> = Vec::new();
        let mut out_values: Vec<V> = Vec::new();
        let mut i: usize = 0;
        while i < n
            invariant
                n == before.len(),
                map_keys(before) == t,
                ascending(t),
                i <= n,
                rev_keys@.len() == n - i,
                rev_values@.len() == n - i,
                forall|j: int|
                    0 <= j < rev_keys@.len() ==> #[trigger] rev_keys@[j]@ == before[n - 1 - j].0
                        && rev_values@[j] == before[n - 1 - j].1,
                keep.len() == i,
                forall|j: int|
                    0 <= j < i ==> #[trigger] answered_entry(f, before[j].0, before[j].1, keep[j]),
                forall|k: &Key, v: &V| #[trigger] f.requires((k, v)),
                out_keys@.len() == out_values@.len(),
                entries_of(texts(out_keys@), out_values@) == kept(before.take(i as int), keep),
                ascending(texts(out_keys@)),
                forall|a: int, b: int|
                    0 <= a < out_keys@.len() && i <= b < n ==> key_lt(
                        #[trigger] texts(out_keys@)[a],
                        #[trigger] t[b],
                    ),
            decreases n - i,
        {
            let k = rev_keys.pop().unwrap();
            let v = rev_values.pop().unwrap();
            let b = f(&k, &v);
            let ghost old_texts = texts(out_keys@);
            let ghost old_vals = out_values@;
            proof {
                assert(k@ == before[i as int].0);
                assert(v == before[i as int].1);
                assert(t[i as int] == before[i as int].0);
                lemma_kept_push(before.take(i as int), keep, before[i as int], b);
                assert(before.take(i as int).push(before[i as int]) =~= before.take(i + 1));
                keep = keep.push(b);
                assert(answered_entry(f, before[i as int].0, before[i as int].1, keep[i as int]));
            }
            if b {
                out_keys.push(k);
                out_values.push(v);
                assert(texts(out_keys@) =~= old_texts.push(t[i as int]));
                assert(entries_of(texts(out_keys@), out_values@) =~= entries_of(
                    old_texts,
                    old_vals,
                ).push(before[i as int]));
            } else {
                assert(texts(out_keys@) =~= old_texts);
            }
            i = i + 1;
            assert forall|a: int, c: int|
                0 <= a < out_keys@.len() && i <= c < n implies key_lt(
                #[trigger] texts(out_keys@)[a],
                #[trigger] t[c],
            ) by {
                if a < old_texts.len() {
                    lemma_key_lt_transitive(texts(out_keys@)[a], t[i - 1], t[c]);
                }
            }
        }
        assert(before.take(i as int) =~= before);
        self.keys = out_keys;
        self.values = out_values;
    }

    /// Inserts each pair of `items` in turn, as `insert` does.
    pub fn extend<K: ToKey>(&mut self, items: Vec<(K, V)>)
        requires
            old(self).wf(),
        ensures
            final(self).wf(),
            final(self)@ == sorted_map_insert_all(old(self)@, pair_texts(items@)),
    {
        let ghost start = self@;
        let ghost all = pair_texts(items@);
        let n = items.len();
        let mut pending = items;
        let mut reversed: Vec<(K, V)> = Vec::new();
        while pending.len() > 0
            invariant
                pending@.len() + reversed@.len() == n,
                n == all.len(),
                forall|j: int|
                    0 <= j < pending@.len() ==> (#[trigger] pending@[j]).0.key_text() == all[j].0
                        && pending@[j].1 == all[j].1,
                forall|j: int|
                    0 <= j < reversed@.len() ==> (#[trigger] reversed@[j]).0.key_text() == all[n
                        - 1 - j].0 && reversed@[j].1 == all[n - 1 - j].1,
            decreases pending@.len(),
        {
            let p = pending.pop().unwrap();
            reversed.push(p);
        }
        let mut i: usize = 0;
        while i < n
            invariant
                self.wf(),
                n == all.len(),
                i <= n,
                reversed@.len() == n - i,
                forall|j: int|
                    0 <= j < reversed@.len() ==> (#[trigger] reversed@[j]).0.key_text() == all[n
                        - 1 - j].0 && reversed@[j].1 == all[n - 1 - j].1,
                self@ == sorted_map_insert_all(start, all.take(i as int)),
            decreases n - i,
        {
            let (k, v) = reversed.pop().unwrap();
            proof {
                assert(all.take(i + 1).drop_last() =~= all.take(i as int));
            }
            self.insert(k, v);
            i = i + 1;
        }
        assert(all.take(n as int) =~= all);
    }

    /// A map holding the pairs of `items`, inserted in turn as `insert` does.
    pub fn from_iter<K: ToKey>(items: Vec<(K, V)>) -> (r: Self)
        ensures
            r.wf(),
            r@ == sorted_map_insert_all(Seq::empty(), pair_texts(items@)),
    {
        let mut r = Self::new();
        r.extend(items);
        r
    }

    /// Whether each key has its value and the keys ascend strictly.
    fn well_formed(&self) -> (r: bool)
        ensures
            r == self.wf(),
    {
        if self.keys.len() != self.values.len() {
            return false;
        }
        is_ascending(&self.keys)
    }

    /// Whether both maps are well formed and hold the same keys, as folded,
    /// with equal values.
    fn same_entries_as(&self, other: &Self) -> (r: bool)
        where
            V: PartialEq,
        ensures
            <V as PartialEqSpec>::obeys_eq_spec() ==> r == (self.wf() && other.wf()
                && same_entries(self@, other@)),
    {
        if !self.well_formed() || !other.well_formed() {
            return false;
        }
        if self.keys.len() != other.keys.len() {
            proof {
                self.lemma_view();
                other.lemma_view();
            }
            return false;
        }
        proof {
            self.lemma_view();
            other.lemma_view();
        }
        let n = self.keys.len();
        let mut i: usize = 0;
        while i < n
            invariant
                self.wf(),
                other.wf(),
                map_wf(other@),
                n == self@.len(),
                n == other@.len(),
                n == self.keys@.len(),
                i <= n,
                forall|j: int|
                    0 <= j < self@.len() ==> #[trigger] self@[j] == (
                        self.keys@[j]@,
                        self.values@[j],
                    ),
                <V as PartialEqSpec>::obeys_eq_spec() ==> forall|j: int|
                    0 <= j < i ==> map_has(other@, #[trigger] self@[j].0) && self@[j].1.eq_spec(
                        &other@[entry_index(other@, self@[j].0)].1,
                    ),
            decreases n - i,
        {
            match other.find(&self.keys[i]) {
                Some(j) => {
                    proof {
                        other.lemma_view();
                        assert(other@[j as int].1 == other.values@[j as int]);
                    }
                    let same = self.values[i].eq(&other.values[j]);
                    if !same {
                        assert(map_has(other@, self@[i as int].0));
                        return false;
                    }
                },
                None => {
                    assert(!map_has(other@, self@[i as int].0));
                    return false;
                },
            }
            i = i + 1;
        }
        true
    }
}

impl<V: PartialEq> PartialEq for UniCaseBTreeMap<V> {
    fn eq(&self, other: &Self) -> (r: bool) {
        self.same_entries_as(other)
    }
}

impl<V: PartialEq> vstd::std_specs::cmp::PartialEqSpecImpl for UniCaseBTreeMap<V> {
    open spec fn obeys_eq_spec() -> bool {
        <V as PartialEqSpec>::obeys_eq_spec()
    }

    open spec fn eq_spec(&self, other: &Self) -> bool {
        self.wf() && other.wf() && same_entries(self@, other@)
    }
}

impl<V> Default for UniCaseBTreeMap<V> {
    /// An empty map.
    fn default() -> (r: Self)
        ensures
            r.wf(),
            r@.len() == 0,
    {
        Self::new()
    }
}

} // verus!
