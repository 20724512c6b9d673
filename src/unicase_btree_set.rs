//! A set of case-insensitive keys kept in key order.

use vstd::prelude::*;
use crate::key::{Key, ToKey, texts, has_key, same_key, key_lt, lemma_key_order_total};
use crate::sorted_keys::{
    ascending, splits_at, insert_pos, sorted_insert, sorted_insert_all, lemma_key_lt_transitive,
    search, is_ascending,
};
use crate::seq_lemmas::{kept, lemma_kept_push};
use vstd::std_specs::iter::IteratorSpec;

verus! {

/// The texts of the keys that `items` make.
pub open spec fn key_texts<K: ToKey>(items: Seq<K>) -> Seq<Seq<char>> {
    items.map_values(|k: K| k.key_text())
}

/// A set of keys compared without regard to case, kept in key order.
#[derive(Debug, Clone)]
pub struct UniCaseBTreeSet {
    keys: Vec<Key>,
}

impl View for UniCaseBTreeSet {
    type V = Seq<Seq<char>>;

    /// The texts of the keys, in key order.
    open spec fn view(&self) -> Seq<Seq<char>> {
        texts(self.stored())
    }
}

impl UniCaseBTreeSet {
    /// The stored keys, in key order.
    pub closed spec fn stored(&self) -> Seq<Key> {
        self.keys@
    }

    /// The keys ascend strictly in key order, so no key occurs twice.
    pub open spec fn wf(&self) -> bool {
        ascending(self@)
    }

    /// Creates an empty set.
    pub fn new() -> (r: Self)
        ensures
            r.wf(),
            r@ == Seq::<Seq<char>>::empty(),
    {
        let r = UniCaseBTreeSet { keys: Vec::new() };
        assert(r@ =~= Seq::<Seq<char>>::empty());
        r
    }

    /// Removes every key.
    pub fn clear(&mut self)
        ensures
            final(self).wf(),
            final(self)@ == Seq::<Seq<char>>::empty(),
    {
        self.keys.clear();
        assert(self@ =~= Seq::<Seq<char>>::empty());
    }

    /// Whether the set holds a key that folds like `k`.
    pub fn contains<K: ToKey>(&self, k: K) -> (r: bool)
        requires
            self.wf(),
        ensures
            r == has_key(self@, k.key_text()),
    {
        let key = k.to_key();
        match search(&self.keys, &key) {
            Ok(_) => true,
            Err(_) => false,
        }
    }

    /// The stored key that folds like `k`, with the text it was inserted with.
    pub fn get<K: ToKey>(&self, k: K) -> (r: Option<&Key>)
        requires
            self.wf(),
        ensures
            match r {
                Some(found) => exists|i: int|
                    0 <= i < self@.len() && self@[i] == found@ && same_key(self@[i], k.key_text()),
                None => !has_key(self@, k.key_text()),
            },
    {
        let key = k.to_key();
        match search(&self.keys, &key) {
            Ok(i) => {
                assert(self@[i as int] == self.keys@[i as int]@);
                Some(&self.keys[i])
            },
            Err(_) => None,
        }
    }

    /// Adds `k` unless a key that folds like it is present. Returns whether it
    /// was added; a key already present keeps its text.
    pub fn insert<K: ToKey>(&mut self, k: K) -> (r: bool)
        requires
            old(self).wf(),
        ensures
            final(self).wf(),
            r == !has_key(old(self)@, k.key_text()),
            final(self)@ == sorted_insert(old(self)@, k.key_text()),
    {
        let key = k.to_key();
        match search(&self.keys, &key) {
            Ok(_) => false,
            Err(p) => {
                let ghost before = self@;
                proof {
                    assert(splits_at(before, k.key_text(), p as int));
                    let q = insert_pos(before, k.key_text());
                    if q < p {
                        lemma_key_order_total(before[q], k.key_text());
                    } else if q > p {
                        lemma_key_order_total(before[p as int], k.key_text());
                    }
                }
                self.keys.insert(p, key);
                assert(self@ =~= before.insert(p as int, k.key_text()));
                assert forall|i: int, j: int| 0 <= i < j < self@.len() implies key_lt(
                    #[trigger] self@[i],
                    #[trigger] self@[j],
                ) by {
                    if j < p {
                    } else if j == p {
                    } else if i < p {
                        lemma_key_lt_transitive(self@[i], k.key_text(), self@[j]);
                    } else if i == p {
                    } else {
                        assert(before[i - 1] == self@[i] && before[j - 1] == self@[j]);
                    }
                }
                true
            },
        }
    }

    /// Whether the set holds no key.
    pub fn is_empty(&self) -> (r: bool)
        ensures
            r == (self@.len() == 0),
    {
        self.keys.len() == 0
    }

    /// The keys in key order.
    pub fn iter(&self) -> (r: std::slice::Iter<'_, Key>)
        ensures
            r.remaining().map_values(|k: &Key| k@) == self@,
    {
        let r = self.keys.iter();
        assert(r.remaining().map_values(|k: &Key| k@) =~= self@);
        r
    }

    /// The number of keys.
    pub fn len(&self) -> (r: usize)
        ensures
            r == self@.len(),
    {
        self.keys.len()
    }

    /// Removes the key that folds like `k`. Returns whether there was one.
    pub fn remove<K: ToKey>(&mut self, k: K) -> (r: bool)
        requires
            old(self).wf(),
        ensures
            final(self).wf(),
            r == has_key(old(self)@, k.key_text()),
            r ==> exists|i: int|
                0 <= i < old(self)@.len() && same_key(old(self)@[i], k.key_text())
                    && final(self)@ == old(self)@.remove(i),
            !r ==> final(self)@ == old(self)@,
    {
        let key = k.to_key();
        match search(&self.keys, &key) {
            Ok(i) => {
                let ghost before = self@;
                assert(before[i as int] == self.keys@[i as int]@);
                self.keys.remove(i);
                assert(self@ =~= before.remove(i as int));
                assert forall|a: int, b: int| 0 <= a < b < self@.len() implies key_lt(
                    #[trigger] self@[a],
                    #[trigger] self@[b],
                ) by {
                    let a0 = if a < i { a } else { a + 1 };
                    let b0 = if b < i { b } else { b + 1 };
                    assert(self@[a] == before[a0] && self@[b] == before[b0]);
                }
                true
            },
            Err(_) => false,
        }
    }

    /// Keeps the keys for which `f` returns true, in their order, and removes
    /// the others.
    pub fn retain<F: Fn(&Key) -> bool>(&mut self, f: F)
        requires
            old(self).wf(),
            forall|k: &Key| #[trigger] f.requires((k,)),
        ensures
            final(self).wf(),
            exists|keep: Seq<bool>|
                keep.len() == old(self)@.len() && (forall|i: int|
                    0 <= i < keep.len() ==> #[trigger] f.ensures((&old(self).stored()[i],), keep[i]))
                    && final(self)@ == kept(old(self)@, keep),
    {
        let ghost before = self@;
        let ghost mut keep: Seq<bool> = Seq::empty();
        let mut out: Vec<Key> = Vec::new();
        let mut i: usize = 0;
        while i < self.keys.len()
            invariant
                self@ == before,
                ascending(before),
                before.len() == self.keys@.len(),
                i <= before.len(),
                keep.len() == i,
                forall|j: int| 0 <= j < i ==> #[trigger] f.ensures((&self.keys@[j],), keep[j]),
                forall|k: &Key| #[trigger] f.requires((k,)),
                texts(out@) == kept(before.take(i as int), keep),
                ascending(texts(out@)),
                forall|a: int, b: int|
                    0 <= a < out@.len() && i <= b < before.len() ==> key_lt(
                        #[trigger] texts(out@)[a],
                        #[trigger] before[b],
                    ),
            decreases before.len() - i,
        {
            let b = f(&self.keys[i]);
            let ghost old_out = texts(out@);
            proof {
                lemma_kept_push(before.take(i as int), keep, before[i as int], b);
                assert(before.take(i as int).push(before[i as int]) =~= before.take(i + 1));
                keep = keep.push(b);
            }
            if b {
                out.push(self.keys[i].copy_key());
                assert(texts(out@) =~= old_out.push(before[i as int]));
            } else {
                assert(texts(out@) =~= old_out);
            }
            i = i + 1;
            assert forall|a: int, c: int|
                0 <= a < out@.len() && i <= c < before.len() implies key_lt(
                #[trigger] texts(out@)[a],
                #[trigger] before[c],
            ) by {
                if a < old_out.len() {
                    lemma_key_lt_transitive(texts(out@)[a], before[i - 1], before[c]);
                }
            }
        }
        assert(before.take(i as int) =~= before);
        self.keys = out;
    }

    /// Adds each of `items` in turn, as `insert` does.
    pub fn extend<K: ToKey>(&mut self, items: Vec<K>)
        requires
            old(self).wf(),
        ensures
            final(self).wf(),
            final(self)@ == sorted_insert_all(old(self)@, key_texts(items@)),
    {
        let ghost start = self@;
        let ghost all = key_texts(items@);
        let n = items.len();
        let mut pending = items;
        let mut reversed: Vec<K> = Vec::new();
        while pending.len() > 0
            invariant
                pending@.len() + reversed@.len() == n,
                n == all.len(),
                forall|j: int| 0 <= j < pending@.len() ==> (#[trigger] pending@[j]).key_text() == all[j],
                forall|j: int|
                    0 <= j < reversed@.len() ==> (#[trigger] reversed@[j]).key_text() == all[n - 1 - j],
            decreases pending@.len(),
        {
            let k = pending.pop().unwrap();
            reversed.push(k);
        }
        let mut i: usize = 0;
        while i < n
            invariant
                self.wf(),
                n == all.len(),
                i <= n,
                reversed@.len() == n - i,
                forall|j: int|
                    0 <= j < reversed@.len() ==> (#[trigger] reversed@[j]).key_text() == all[n - 1 - j],
                self@ == sorted_insert_all(start, all.take(i as int)),
            decreases n - i,
        {
            let k = reversed.pop().unwrap();
            proof {
                assert(all.take(i + 1).drop_last() =~= all.take(i as int));
            }
            self.insert(k);
            i = i + 1;
        }
        assert(all.take(n as int) =~= all);
    }

    /// A set holding `items`, added in turn as `insert` does.
    pub fn from_iter<K: ToKey>(items: Vec<K>) -> (r: Self)
        ensures
            r.wf(),
            r@ == sorted_insert_all(Seq::empty(), key_texts(items@)),
    {
        let mut r = Self::new();
        r.extend(items);
        r
    }

    /// Whether both sets are in key order, have as many keys, and each key of
    /// this one folds like a key of the other.
    fn same_keys_as(&self, other: &Self) -> (r: bool)
        ensures
            r == (self.wf() && other.wf() && same_keys(self@, other@)),
    {
        if !is_ascending(&self.keys) || !is_ascending(&other.keys) {
            return false;
        }
        if self.keys.len() != other.keys.len() {
            return false;
        }
        let mut i: usize = 0;
        while i < self.keys.len()
            invariant
                self.wf(),
                other.wf(),
                self@.len() == other@.len(),
                i <= self@.len(),
                forall|j: int| 0 <= j < i ==> has_key(other@, #[trigger] self@[j]),
            decreases self@.len() - i,
        {
            assert(self@[i as int] == self.keys@[i as int]@);
            match search(&other.keys, &self.keys[i]) {
                Ok(j) => {
                    assert(same_key(other@[j as int], self@[i as int]));
                },
                Err(_) => {
                    return false;
                },
            }
            i = i + 1;
        }
        true
    }
}

/// Both have as many keys, and each key of `a` folds like a key of `b`.
pub open spec fn same_keys(a: Seq<Seq<char>>, b: Seq<Seq<char>>) -> bool {
    a.len() == b.len() && forall|i: int| 0 <= i < a.len() ==> has_key(b, #[trigger] a[i])
}

impl PartialEq for UniCaseBTreeSet {
    fn eq(&self, other: &Self) -> (r: bool) {
        self.same_keys_as(other)
    }
}

impl vstd::std_specs::cmp::PartialEqSpecImpl for UniCaseBTreeSet {
    open spec fn obeys_eq_spec() -> bool {
        true
    }

    open spec fn eq_spec(&self, other: &Self) -> bool {
        self.wf() && other.wf() && same_keys(self@, other@)
    }
}

impl<'a> IntoIterator for &'a UniCaseBTreeSet {
    type Item = &'a Key;

    type IntoIter = std::slice::Iter<'a, Key>;

    /// The keys in key order.
    fn into_iter(self) -> (r: std::slice::Iter<'a, Key>) {
        self.keys.iter()
    }
}

impl IntoIterator for UniCaseBTreeSet {
    type Item = Key;

    type IntoIter = std::vec::IntoIter<Key>;

    /// The keys in key order, taken out of the set.
    fn into_iter(self) -> (r: std::vec::IntoIter<Key>) {
        self.keys.into_iter()
    }
}

impl Default for UniCaseBTreeSet {
    /// An empty set.
    fn default() -> (r: Self)
        ensures
            r.wf(),
            r@.len() == 0,
    {
        Self::new()
    }
}

} // verus!
