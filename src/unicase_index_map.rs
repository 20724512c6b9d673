//! A map from case-insensitive keys to values, kept in insertion order.

use vstd::prelude::*;
use indexmap::IndexSet;
use unicase::UniCase;
use crate::index_engine::{
    indexed_texts, index_new, index_len, index_clear, index_position, index_insert, index_remove,
    index_text,
};
use crate::key::{
    Key, ToKey, same_key, distinct_keys, lemma_distinct_push, lemma_distinct_remove,
};
use crate::seq_lemmas::{kept, lemma_kept_push};
use vstd::std_specs::iter::IteratorSpec;
use vstd::std_specs::cmp::PartialEqSpec;

verus! {

/// Pairs each key text of `ks` with the value at the same position of `vs`.
pub open spec fn entries_of<V>(ks: Seq<Seq<char>>, vs: Seq<V>) -> Seq<(Seq<char>, V)> {
    Seq::new(ks.len(), |i: int| (ks[i], vs[i]))
}

/// Whether some entry of `m` has a key that folds like `k`.
pub open spec fn map_has<V>(m: Seq<(Seq<char>, V)>, k: Seq<char>) -> bool {
    exists|i: int| 0 <= i < m.len() && #[trigger] same_key(m[i].0, k)
}

/// No two entries of `m` have keys that fold alike.
pub open spec fn map_wf<V>(m: Seq<(Seq<char>, V)>) -> bool {
    forall|i: int, j: int|
        0 <= i < m.len() && 0 <= j < m.len() && i != j ==> !same_key(
            #[trigger] m[i].0,
            #[trigger] m[j].0,
        )
}

/// The position of the entry of `m` whose key folds like `k`, where there is one.
pub open spec fn entry_index<V>(m: Seq<(Seq<char>, V)>, k: Seq<char>) -> int {
    choose|i: int| 0 <= i < m.len() && #[trigger] same_key(m[i].0, k)
}

/// The value stored under the key that folds like `k`.
pub open spec fn lookup<V>(m: Seq<(Seq<char>, V)>, k: Seq<char>) -> Option<V> {
    if map_has(m, k) {
        Some(m[entry_index(m, k)].1)
    } else {
        None
    }
}

/// `m` after inserting `v` under `k`: an entry whose key folds like `k` keeps
/// its key text and place and takes the value; otherwise the pair comes last.
pub open spec fn map_insert<V>(m: Seq<(Seq<char>, V)>, k: Seq<char>, v: V) -> Seq<(Seq<char>, V)> {
    if map_has(m, k) {
        let i = entry_index(m, k);
        m.update(i, (m[i].0, v))
    } else {
        m.push((k, v))
    }
}

/// `m` after inserting each pair of `items` in turn.
pub open spec fn map_insert_all<V>(m: Seq<(Seq<char>, V)>, items: Seq<(Seq<char>, V)>) -> Seq<
    (Seq<char>, V),
>
    decreases items.len(),
{
    if items.len() == 0 {
        m
    } else {
        let last = items.last();
        map_insert(map_insert_all(m, items.drop_last()), last.0, last.1)
    }
}

/// `m` without the entry whose key folds like `k`, the entries after it
/// keeping their order.
pub open spec fn map_remove<V>(m: Seq<(Seq<char>, V)>, k: Seq<char>) -> Seq<(Seq<char>, V)> {
    if map_has(m, k) {
        m.remove(entry_index(m, k))
    } else {
        m
    }
}

/// Where the keys are distinct, the entry whose key folds like `k` is the one
/// `entry_index` names.
pub proof fn lemma_entry_index<V>(m: Seq<(Seq<char>, V)>, k: Seq<char>, i: int)
    requires
        map_wf(m),
        0 <= i < m.len(),
        same_key(m[i].0, k),
    ensures
        map_has(m, k),
        entry_index(m, k) == i,
{
    let j = entry_index(m, k);
    assert(same_key(m[j].0, k));
}

/// Inserting keeps the keys distinct.
pub proof fn lemma_map_wf_insert<V>(m: Seq<(Seq<char>, V)>, k: Seq<char>, v: V)
    requires
        map_wf(m),
    ensures
        map_wf(map_insert(m, k, v)),
{
    let r = map_insert(m, k, v);
    if map_has(m, k) {
        let i = entry_index(m, k);
        assert forall|a: int, b: int|
            0 <= a < r.len() && 0 <= b < r.len() && a != b implies !same_key(
            #[trigger] r[a].0,
            #[trigger] r[b].0,
        ) by {
            assert(r[a].0 == m[a].0 && r[b].0 == m[b].0);
        }
    } else {
        assert forall|a: int, b: int|
            0 <= a < r.len() && 0 <= b < r.len() && a != b implies !same_key(
            #[trigger] r[a].0,
            #[trigger] r[b].0,
        ) by {
            if a == m.len() {
                assert(!same_key(m[b].0, k));
            } else if b == m.len() {
                assert(!same_key(m[a].0, k));
            } else {
                assert(r[a] == m[a] && r[b] == m[b]);
            }
        }
    }
}

/// Whether `f` returned `b` when called on a key with text `t` and the value `v`.
pub open spec fn answered_entry<V, F: Fn(&Key, &V) -> bool>(f: F, t: Seq<char>, v: V, b: bool) -> bool {
    exists|key: Key| key@ == t && #[trigger] f.ensures((&key, &v), b)
}

/// The pairs of `items` with each key given as its text.
pub open spec fn pair_texts<K: ToKey, V>(items: Seq<(K, V)>) -> Seq<(Seq<char>, V)> {
    items.map_values(|p: (K, V)| (p.0.key_text(), p.1))
}

/// Both sequences have as many entries, and each entry of `a` has a
/// counterpart in `b` whose key folds alike and whose value is equal to it.
pub open spec fn same_entries<V: PartialEq>(a: Seq<(Seq<char>, V)>, b: Seq<(Seq<char>, V)>) -> bool {
    &&& a.len() == b.len()
    &&& forall|i: int|
        0 <= i < a.len() ==> map_has(b, #[trigger] a[i].0) && a[i].1.eq_spec(
            &b[entry_index(b, a[i].0)].1,
        )
}

/// The result of looking a key up in a map, kept for a later `or_insert`.
pub enum Entry {
    /// An entry whose key folds like the one looked up: the stored key and its
    /// position.
    Occupied(Key, usize),
    /// No such entry: the key looked up.
    Vacant(Key),
}

impl Entry {
    /// The stored key where the entry is occupied, else the key looked up.
    pub fn key(&self) -> (r: &Key)
        ensures
            r@ == match self {
                Entry::Occupied(k, _) => k@,
                Entry::Vacant(k) => k@,
            },
    {
        match self {
            Entry::Occupied(k, _) => k,
            Entry::Vacant(k) => k,
        }
    }
}

/// A map from keys compared without regard to case to values, kept in the
/// order in which the keys were first inserted.
#[derive(Debug)]
pub struct UniCaseIndexMap<V> {
    keys: IndexSet<UniCase<String>>,
    values: Vec<V>,
}

impl<V> View for UniCaseIndexMap<V> {
    type V = Seq<(Seq<char>, V)>;

    /// The entries as pairs of key text and value, in insertion order.
    open spec fn view(&self) -> Seq<(Seq<char>, V)> {
        entries_of(indexed_texts(self.engine()), self.value_seq())
    }
}

impl<V> UniCaseIndexMap<V> {
    /// The underlying insertion-ordered set of keys.
    pub closed spec fn engine(&self) -> IndexSet<UniCase<String>> {
        self.keys
    }

    /// The values, at the positions of their keys.
    pub closed spec fn value_seq(&self) -> Seq<V> {
        self.values@
    }

    /// Each key has its value, and no two keys fold alike.
    pub open spec fn wf(&self) -> bool {
        &&& self.value_seq().len() == indexed_texts(self.engine()).len()
        &&& distinct_keys(indexed_texts(self.engine()))
    }

    /// What the view holds when the map is well formed.
    proof fn lemma_view(&self)
        requires
            self.wf(),
        ensures
            map_wf(self@),
            self@.len() == self.values@.len(),
            forall|i: int|
                0 <= i < self@.len() ==> #[trigger] self@[i] == (
                    indexed_texts(self.keys)[i],
                    self.values@[i],
                ),
    {
        let m = self@;
        assert forall|i: int, j: int|
            0 <= i < m.len() && 0 <= j < m.len() && i != j implies !same_key(
            #[trigger] m[i].0,
            #[trigger] m[j].0,
        ) by {
            assert(m[i].0 == indexed_texts(self.keys)[i]);
            assert(m[j].0 == indexed_texts(self.keys)[j]);
        }
    }

    /// Creates an empty map.
    pub fn new() -> (r: Self)
        ensures
            r.wf(),
            r@ == Seq::<(Seq<char>, V)>::empty(),
    {
        let r = UniCaseIndexMap { keys: index_new(), values: Vec::new() };
        assert(r@ =~= Seq::<(Seq<char>, V)>::empty());
        r
    }

    /// Removes every entry.
    pub fn clear(&mut self)
        ensures
            final(self).wf(),
            final(self)@ == Seq::<(Seq<char>, V)>::empty(),
    {
        index_clear(&mut self.keys);
        self.values.clear();
        assert(self@ =~= Seq::<(Seq<char>, V)>::empty());
    }

    /// Where the entry whose key folds like `k` stands, if there is one.
    fn find(&self, k: &Key) -> (r: Option<usize>)
        requires
            self.wf(),
        ensures
            match r {
                Some(i) => i < self@.len() && map_has(self@, k@) && entry_index(self@, k@) == i,
                None => !map_has(self@, k@),
            },
    {
        proof {
            self.lemma_view();
        }
        match index_position(&self.keys, k.as_str()) {
            Some(i) => {
                proof {
                    lemma_entry_index(self@, k@, i as int);
                }
                Some(i)
            },
            None => {
                assert forall|i: int| 0 <= i < self@.len() implies !same_key(
                    #[trigger] self@[i].0,
                    k@,
                ) by {
                    assert(self@[i].0 == indexed_texts(self.keys)[i]);
                }
                None
            },
        }
    }

    /// Whether the map has an entry whose key folds like `k`.
    pub fn contains_key<K: ToKey>(&self, k: K) -> (r: bool)
        requires
            self.wf(),
        ensures
            r == map_has(self@, k.key_text()),
    {
        let key = k.to_key();
        self.find(&key).is_some()
    }

    /// The value stored under the key that folds like `k`.
    pub fn get<K: ToKey>(&self, k: K) -> (r: Option<&V>)
        requires
            self.wf(),
        ensures
            match r {
                Some(v) => lookup(self@, k.key_text()) == Some(*v),
                None => lookup(self@, k.key_text()) == None::<V>,
            },
    {
        let key = k.to_key();
        proof {
            self.lemma_view();
        }
        match self.find(&key) {
            Some(i) => Some(&self.values[i]),
            None => None,
        }
    }

    /// The stored key, with the text it was first inserted with, and its value.
    pub fn get_key_value<K: ToKey>(&self, k: K) -> (r: Option<(Key, &V)>)
        requires
            self.wf(),
        ensures
            match r {
                Some((key, v)) => map_has(self@, k.key_text()) && self@[entry_index(
                    self@,
                    k.key_text(),
                )] == (key@, *v),
                None => !map_has(self@, k.key_text()),
            },
    {
        let key = k.to_key();
        proof {
            self.lemma_view();
        }
        match self.find(&key) {
            Some(i) => {
                let stored = Key::new(index_text(&self.keys, i).to_owned());
                Some((stored, &self.values[i]))
            },
            None => None,
        }
    }

    /// A mutable reference to the value stored under the key that folds like `k`.
    pub fn get_mut<K: ToKey>(&mut self, k: K) -> (r: Option<&mut V>)
        requires
            old(self).wf(),
        ensures
            match r {
                Some(v) => map_has(old(self)@, k.key_text()) && *v == old(self)@[entry_index(
                    old(self)@,
                    k.key_text(),
                )].1 && final(self).wf() && final(self)@ == old(self)@.update(
                    entry_index(old(self)@, k.key_text()),
                    (old(self)@[entry_index(old(self)@, k.key_text())].0, *final(v)),
                ),
                None => !map_has(old(self)@, k.key_text()) && final(self)@ == old(self)@,
            },
    {
        let key = k.to_key();
        proof {
            self.lemma_view();
        }
        match self.find(&key) {
            Some(i) => Some(&mut self.values[i]),
            None => None,
        }
    }

    /// Stores `v` under `k`. Where a key that folds like `k` is present it
    /// keeps its text and place, and its old value is returned; otherwise the
    /// entry is added last and `None` is returned.
    pub fn insert<K: ToKey>(&mut self, k: K, v: V) -> (r: Option<V>)
        requires
            old(self).wf(),
        ensures
            final(self).wf(),
            r == lookup(old(self)@, k.key_text()),
            final(self)@ == map_insert(old(self)@, k.key_text(), v),
    {
        let key = k.to_key();
        let ghost before = self@;
        let ghost kt = k.key_text();
        proof {
            self.lemma_view();
        }
        let (i, added) = index_insert(&mut self.keys, key.into_string());
        if added {
            self.values.push(v);
            proof {
                lemma_distinct_push(indexed_texts(old(self).keys), kt);
                assert forall|j: int| 0 <= j < before.len() implies !same_key(
                    #[trigger] before[j].0,
                    kt,
                ) by {
                    assert(before[j].0 == indexed_texts(old(self).keys)[j]);
                }
                assert(self@ =~= before.push((kt, v)));
            }
            None
        } else {
            proof {
                lemma_entry_index(before, kt, i as int);
            }
            let mut slot = v;
            std::mem::swap(&mut self.values[i], &mut slot);
            assert(self@ =~= before.update(i as int, (before[i as int].0, v)));
            Some(slot)
        }
    }

    /// Whether the map has no entry.
    pub fn is_empty(&self) -> (r: bool)
        requires
            self.wf(),
        ensures
            r == (self@.len() == 0),
    {
        index_len(&self.keys) == 0
    }

    /// The number of entries.
    pub fn len(&self) -> (r: usize)
        requires
            self.wf(),
        ensures
            r == self@.len(),
    {
        index_len(&self.keys)
    }

    /// The entries in insertion order, each key with the text it was first
    /// inserted with.
    pub fn iter(&self) -> (r: Vec<(Key, &V)>)
        requires
            self.wf(),
        ensures
            r@.len() == self@.len(),
            forall|i: int|
                0 <= i < self@.len() ==> (#[trigger] r@[i]).0@ == self@[i].0 && *r@[i].1
                    == self@[i].1,
    {
        proof {
            self.lemma_view();
        }
        let n = index_len(&self.keys);
        let mut out: Vec<(Key, &V)> = Vec::new();
        let mut i: usize = 0;
        while i < n
            invariant
                self.wf(),
                n == self@.len(),
                i <= n,
                out@.len() == i,
                forall|j: int|
                    0 <= j < i ==> (#[trigger] out@[j]).0@ == self@[j].0 && *out@[j].1
                        == self@[j].1,
            decreases n - i,
        {
            proof {
                self.lemma_view();
            }
            out.push((Key::new(index_text(&self.keys, i).to_owned()), &self.values[i]));
            i = i + 1;
        }
        out
    }

    /// The keys in insertion order, each with the text it was first inserted with.
    pub fn keys(&self) -> (r: Vec<Key>)
        requires
            self.wf(),
        ensures
            r@.len() == self@.len(),
            forall|i: int| 0 <= i < self@.len() ==> #[trigger] r@[i]@ == self@[i].0,
    {
        proof {
            self.lemma_view();
        }
        let n = index_len(&self.keys);
        let mut out: Vec<Key> = Vec::new();
        let mut i: usize = 0;
        while i < n
            invariant
                self.wf(),
                n == self@.len(),
                i <= n,
                out@.len() == i,
                forall|j: int| 0 <= j < i ==> #[trigger] out@[j]@ == self@[j].0,
            decreases n - i,
        {
            proof {
                self.lemma_view();
            }
            out.push(Key::new(index_text(&self.keys, i).to_owned()));
            i = i + 1;
        }
        out
    }

    /// The values in the order of their keys.
    pub fn values(&self) -> (r: std::slice::Iter<'_, V>)
        requires
            self.wf(),
        ensures
            r.remaining().map_values(|v: &V| *v) == self@.map_values(|e: (Seq<char>, V)| e.1),
    {
        proof {
            self.lemma_view();
        }
        let r = self.values.iter();
        assert(r.remaining().map_values(|v: &V| *v) =~= self@.map_values(
            |e: (Seq<char>, V)| e.1,
        ));
        r
    }

    /// The values in the order of their keys, to change in place; the keys stay.
    pub fn values_mut(&mut self) -> (r: &mut [V])
        requires
            old(self).wf(),
        ensures
            r@ == old(self)@.map_values(|e: (Seq<char>, V)| e.1),
            final(r)@.len() == r@.len() ==> final(self).wf() && final(self)@ == entries_of(
                old(self)@.map_values(|e: (Seq<char>, V)| e.0),
                final(r)@,
            ),
    {
        proof {
            self.lemma_view();
            assert(self.values@ =~= old(self)@.map_values(|e: (Seq<char>, V)| e.1));
            assert(indexed_texts(self.keys) =~= old(self)@.map_values(|e: (Seq<char>, V)| e.0));
        }
        self.values.as_mut_slice()
    }

    /// Removes the entry whose key folds like `k` and returns its value; the
    /// entries after it keep their order.
    pub fn remove<K: ToKey>(&mut self, k: K) -> (r: Option<V>)
        requires
            old(self).wf(),
        ensures
            final(self).wf(),
            r == lookup(old(self)@, k.key_text()),
            final(self)@ == map_remove(old(self)@, k.key_text()),
    {
        match self.remove_entry(k) {
            Some((_, v)) => Some(v),
            None => None,
        }
    }

    /// Removes the entry whose key folds like `k` and returns the stored key,
    /// with the text it was first inserted with, and the value.
    pub fn remove_entry<K: ToKey>(&mut self, k: K) -> (r: Option<(Key, V)>)
        requires
            old(self).wf(),
        ensures
            final(self).wf(),
            match r {
                Some((key, v)) => map_has(old(self)@, k.key_text()) && old(self)@[entry_index(
                    old(self)@,
                    k.key_text(),
                )] == (key@, v),
                None => !map_has(old(self)@, k.key_text()),
            },
            match r {
                Some((_, v)) => lookup(old(self)@, k.key_text()) == Some(v),
                None => lookup(old(self)@, k.key_text()) == None::<V>,
            },
            final(self)@ == map_remove(old(self)@, k.key_text()),
    {
        let key = k.to_key();
        let ghost before = self@;
        let ghost kt = k.key_text();
        proof {
            self.lemma_view();
        }
        match index_remove(&mut self.keys, key.as_str()) {
            Some((i, text)) => {
                let stored = Key::new(text);
                proof {
                    lemma_entry_index(before, kt, i as int);
                    lemma_distinct_remove(indexed_texts(old(self).keys), i as int);
                }
                let v = self.values.remove(i);
                assert(self@ =~= before.remove(i as int));
                Some((stored, v))
            },
            None => {
                assert forall|j: int| 0 <= j < before.len() implies !same_key(
                    #[trigger] before[j].0,
                    kt,
                ) by {
                    assert(before[j].0 == indexed_texts(old(self).keys)[j]);
                }
                None
            },
        }
    }

    /// The value stored under the key that folds like `k`, which must be present.
    pub fn index<K: ToKey>(&self, k: K) -> (r: &V)
        requires
            self.wf(),
            map_has(self@, k.key_text()),
        ensures
            lookup(self@, k.key_text()) == Some(*r),
    {
        let key = k.to_key();
        proof {
            self.lemma_view();
        }
        let i = self.find(&key).unwrap();
        &self.values[i]
    }

    /// Keeps the entries for which `f` returns true, in their order, and
    /// removes the others.
    pub fn retain<F: Fn(&Key, &V) -> bool>(&mut self, f: F)
        requires
            old(self).wf(),
            forall|k: &Key, v: &V| #[trigger] f.requires((k, v)),
        ensures
            final(self).wf(),
            exists|keep: Seq<bool>|
                keep.len() == old(self)@.len() && (forall|i: int|
                    0 <= i < keep.len() ==> #[trigger] answered_entry(
                        f,
                        old(self)@[i].0,
                        old(self)@[i].1,
                        keep[i],
                    )) && final(self)@ == kept(old(self)@, keep),
    {
        proof {
            self.lemma_view();
        }
        let ghost before = self@;
        let ghost mut keep: Seq<bool> = Seq::empty();
        let n = index_len(&self.keys);
        let mut pending: Vec<V> = Vec::new();
        std::mem::swap(&mut self.values, &mut pending);
        let mut reversed: Vec<V> = Vec::new();
        while pending.len() > 0
            invariant
                pending@.len() + reversed@.len() == n,
                n == before.len(),
                forall|j: int| 0 <= j < pending@.len() ==> #[trigger] pending@[j] == before[j].1,
                forall|j: int|
                    0 <= j < reversed@.len() ==> #[trigger] reversed@[j] == before[n - 1 - j].1,
            decreases pending@.len(),
        {
            let v = pending.pop().unwrap();
            reversed.push(v);
        }
        let mut out_keys = index_new();
        let mut out_values: Vec<V> = Vec::new();
        let mut i: usize = 0;
        while i < n
            invariant
                indexed_texts(self.keys) == before.map_values(|e: (Seq<char>, V)| e.0),
                map_wf(before),
                n == before.len(),
                i <= n,
                reversed@.len() == n - i,
                forall|j: int|
                    0 <= j < reversed@.len() ==> #[trigger] reversed@[j] == before[n - 1 - j].1,
                keep.len() == i,
                forall|j: int|
                    0 <= j < i ==> #[trigger] answered_entry(f, before[j].0, before[j].1, keep[j]),
                forall|k: &Key, v: &V| #[trigger] f.requires((k, v)),
                out_values@.len() == indexed_texts(out_keys).len(),
                entries_of(indexed_texts(out_keys), out_values@) == kept(before.take(i as int), keep),
                distinct_keys(indexed_texts(out_keys)),
                forall|a: int|
                    0 <= a < indexed_texts(out_keys).len() ==> exists|j: int|
                        0 <= j < i && #[trigger] indexed_texts(out_keys)[a] == before[j].0,
            decreases n - i,
        {
            let key = Key::new(index_text(&self.keys, i).to_owned());
            let v = reversed.pop().unwrap();
            let b = f(&key, &v);
            let ghost old_texts = indexed_texts(out_keys);
            let ghost old_vals = out_values@;
            proof {
                assert(key@ == before[i as int].0);
                assert(v == before[i as int].1);
                lemma_kept_push(before.take(i as int), keep, before[i as int], b);
                assert(before.take(i as int).push(before[i as int]) =~= before.take(i + 1));
                keep = keep.push(b);
                assert(answered_entry(f, before[i as int].0, before[i as int].1, keep[i as int]));
            }
            if b {
                proof {
                    assert forall|a: int| 0 <= a < old_texts.len() implies !same_key(
                        #[trigger] old_texts[a],
                        key@,
                    ) by {
                        let j = choose|j: int| 0 <= j < i && old_texts[a] == before[j].0;
                    }
                    lemma_distinct_push(old_texts, key@);
                }
                let (_, added) = index_insert(&mut out_keys, key.into_string());
                out_values.push(v);
                assert(entries_of(indexed_texts(out_keys), out_values@) =~= entries_of(
                    old_texts,
                    old_vals,
                ).push(before[i as int]));
                assert forall|a: int|
                    0 <= a < indexed_texts(out_keys).len() implies exists|j: int|
                        0 <= j < i + 1 && #[trigger] indexed_texts(out_keys)[a] == before[j].0 by {
                    if a < old_texts.len() {
                        let j = choose|j: int| 0 <= j < i && old_texts[a] == before[j].0;
                        assert(0 <= j < i + 1 && indexed_texts(out_keys)[a] == before[j].0);
                    } else {
                        assert(indexed_texts(out_keys)[a] == before[i as int].0);
                    }
                }
            }
            i = i + 1;
        }
        assert(before.take(i as int) =~= before);
        self.keys = out_keys;
        self.values = out_values;
    }

    /// Looks `k` up once, for a later `or_insert`.
    pub fn entry<K: ToKey>(&self, k: K) -> (r: Entry)
        requires
            self.wf(),
        ensures
            self.entry_fits(&r),
            match r {
                Entry::Occupied(key, i) => map_has(self@, k.key_text()) && i == entry_index(
                    self@,
                    k.key_text(),
                ),
                Entry::Vacant(key) => !map_has(self@, k.key_text()) && key@ == k.key_text(),
            },
    {
        let key = k.to_key();
        proof {
            self.lemma_view();
        }
        match self.find(&key) {
            Some(i) => Entry::Occupied(Key::new(index_text(&self.keys, i).to_owned()), i),
            None => Entry::Vacant(key),
        }
    }

    /// Whether `e` still describes this map: the stored key at its position, or
    /// a key that no entry folds like.
    pub open spec fn entry_fits(&self, e: &Entry) -> bool {
        match e {
            Entry::Occupied(key, i) => i < self@.len() && self@[*i as int].0 == key@,
            Entry::Vacant(key) => !map_has(self@, key@),
        }
    }

    /// The value of an occupied entry, or `default` stored under the key of a
    /// vacant one, added last; either way as a mutable reference.
    pub fn or_insert(&mut self, e: Entry, default: V) -> (r: &mut V)
        requires
            old(self).wf(),
            old(self).entry_fits(&e),
        ensures
            final(self).wf(),
            match e {
                Entry::Occupied(key, i) => *r == old(self)@[i as int].1 && final(self)@ == old(
                    self,
                )@.update(i as int, (key@, *final(r))),
                Entry::Vacant(key) => *r == default && final(self)@ == old(self)@.push(
                    (key@, *final(r)),
                ),
            },
    {
        proof {
            self.lemma_view();
        }
        let ghost before = self@;
        match e {
            Entry::Occupied(_, i) => &mut self.values[i],
            Entry::Vacant(key) => {
                let ghost kt = key@;
                let (_, added) = index_insert(&mut self.keys, key.into_string());
                proof {
                    assert forall|j: int| 0 <= j < indexed_texts(old(self).keys).len() implies !same_key(
                        #[trigger] indexed_texts(old(self).keys)[j],
                        kt,
                    ) by {
                        assert(before[j].0 == indexed_texts(old(self).keys)[j]);
                    }
                    lemma_distinct_push(indexed_texts(old(self).keys), kt);
                }
                self.values.push(default);
                let last = self.values.len() - 1;
                assert(indexed_texts(self.keys)[last as int] == kt);
                &mut self.values[last]
            },
        }
    }

    /// Inserts each pair of `items` in turn, as `insert` does.
    pub fn extend<K: ToKey>(&mut self, items: Vec<(K, V)>)
        requires
            old(self).wf(),
        ensures
            final(self).wf(),
            final(self)@ == map_insert_all(old(self)@, pair_texts(items@)),
    {
        let ghost start = self@;
        let ghost all = pair_texts(items@);
        let n = items.len();
        let mut pending = items;
        let mut reversed: Vec<(K, V)> = Vec::new();
        while pending.len() > 0
            invariant
                pending@.len() + reversed@.len() == n,
                n == all.len(),
                forall|j: int|
                    0 <= j < pending@.len() ==> (#[trigger] pending@[j]).0.key_text() == all[j].0
                        && pending@[j].1 == all[j].1,
                forall|j: int|
                    0 <= j < reversed@.len() ==> (#[trigger] reversed@[j]).0.key_text() == all[n
                        - 1 - j].0 && reversed@[j].1 == all[n - 1 - j].1,
            decreases pending@.len(),
        {
            let p = pending.pop().unwrap();
            reversed.push(p);
        }
        let mut i: usize = 0;
        while i < n
            invariant
                self.wf(),
                n == all.len(),
                i <= n,
                reversed@.len() == n - i,
                forall|j: int|
                    0 <= j < reversed@.len() ==> (#[trigger] reversed@[j]).0.key_text() == all[n
                        - 1 - j].0 && reversed@[j].1 == all[n - 1 - j].1,
                self@ == map_insert_all(start, all.take(i as int)),
            decreases n - i,
        {
            let (k, v) = reversed.pop().unwrap();
            proof {
                assert(all.take(i + 1).drop_last() =~= all.take(i as int));
            }
            self.insert(k, v);
            i = i + 1;
        }
        assert(all.take(n as int) =~= all);
    }

    /// A map holding the pairs of `items`, inserted in turn as `insert` does.
    pub fn from_iter<K: ToKey>(items: Vec<(K, V)>) -> (r: Self)
        ensures
            r.wf(),
            r@ == map_insert_all(Seq::empty(), pair_texts(items@)),
    {
        let mut r = Self::new();
        r.extend(items);
        r
    }

    /// The keys in insertion order, beside the values to change in place.
    pub fn iter_mut(&mut self) -> (r: (Vec<Key>, &mut [V]))
        requires
            old(self).wf(),
        ensures
            r.0@.len() == old(self)@.len(),
            forall|i: int| 0 <= i < old(self)@.len() ==> #[trigger] r.0@[i]@ == old(self)@[i].0,
            r.1@ == old(self)@.map_values(|e: (Seq<char>, V)| e.1),
            final(r.1)@.len() == r.1@.len() ==> final(self).wf() && final(self)@ == entries_of(
                old(self)@.map_values(|e: (Seq<char>, V)| e.0),
                final(r.1)@,
            ),
    {
        let keys = self.keys();
        (keys, self.values_mut())
    }
}

impl<V: PartialEq> UniCaseIndexMap<V> {
    /// Each key has its value.
    pub open spec fn paired(&self) -> bool {
        self.value_seq().len() == indexed_texts(self.engine()).len()
    }

    fn same_entries_as(&self, other: &Self) -> (r: bool)
        ensures
            <V as PartialEqSpec>::obeys_eq_spec() ==> r == (self.paired() && other.paired() && same_entries(
                self@,
                other@,
            )),
    {
        let n = index_len(&self.keys);
        if self.values.len() != n || other.values.len() != index_len(&other.keys) {
            return false;
        }
        if n != index_len(&other.keys) {
            return false;
        }
        let mut i: usize = 0;
        while i < n
            invariant
                self.paired(),
                other.paired(),
                n == self@.len(),
                n == other@.len(),
                i <= n,
                <V as PartialEqSpec>::obeys_eq_spec() ==> forall|j: int|
                    0 <= j < i ==> map_has(other@, #[trigger] self@[j].0) && self@[j].1.eq_spec(
                        &other@[entry_index(other@, self@[j].0)].1,
                    ),
            decreases n - i,
        {
            let t = index_text(&self.keys, i);
            assert(t@ == self@[i as int].0);
            match index_position(&other.keys, t) {
                Some(j) => {
                    proof {
                        assert(other@[j as int].0 == indexed_texts(other.keys)[j as int]);
                        assert(same_key(other@[j as int].0, t@));
                        let c = entry_index(other@, t@);
                        assert(other@[c].0 == indexed_texts(other.keys)[c]);
                    }
                    if !self.values[i].eq(&other.values[j]) {
                        return false;
                    }
                },
                None => {
                    proof {
                        assert forall|j: int| 0 <= j < other@.len() implies !same_key(
                            #[trigger] other@[j].0,
                            t@,
                        ) by {
                            assert(other@[j].0 == indexed_texts(other.keys)[j]);
                        }
                    }
                    return false;
                },
            }
            i = i + 1;
        }
        true
    }
}

impl<V: PartialEq> PartialEq for UniCaseIndexMap<V> {
    fn eq(&self, other: &Self) -> (r: bool) {
        self.same_entries_as(other)
    }
}

impl<V: PartialEq> vstd::std_specs::cmp::PartialEqSpecImpl for UniCaseIndexMap<V> {
    open spec fn obeys_eq_spec() -> bool {
        <V as PartialEqSpec>::obeys_eq_spec()
    }

    open spec fn eq_spec(&self, other: &Self) -> bool {
        self.paired() && other.paired() && same_entries(self@, other@)
    }
}

impl<V> Default for UniCaseIndexMap<V> {
    /// An empty map.
    fn default() -> (r: Self)
        ensures
            r.wf(),
            r@.len() == 0,
    {
        Self::new()
    }
}

} // verus!
