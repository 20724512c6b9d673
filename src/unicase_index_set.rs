//! A set of case-insensitive keys kept in insertion order.

use vstd::prelude::*;
use indexmap::IndexSet;
use unicase::UniCase;
use crate::index_engine::{
    indexed_texts, index_new, index_len, index_clear, index_position, index_insert, index_remove,
    index_text,
};
use crate::key::{Key, ToKey, has_key, same_key, distinct_keys, answered,
    lemma_distinct_push};
use crate::seq_lemmas::{kept, lemma_kept_push};
use crate::unicase_btree_set::{key_texts, same_keys};

verus! {

/// `s` after adding `k` last, unless a text that folds like it is present.
pub open spec fn set_insert(s: Seq<Seq<char>>, k: Seq<char>) -> Seq<Seq<char>> {
    if has_key(s, k) {
        s
    } else {
        s.push(k)
    }
}

/// `s` after adding each of `items` in turn.
pub open spec fn set_insert_all(s: Seq<Seq<char>>, items: Seq<Seq<char>>) -> Seq<Seq<char>>
    decreases items.len(),
{
    if items.len() == 0 {
        s
    } else {
        set_insert(set_insert_all(s, items.drop_last()), items.last())
    }
}

/// A set of keys compared without regard to case, kept in the order in which
/// they were first inserted.
#[derive(Debug)]
pub struct UniCaseIndexSet {
    inner: IndexSet<UniCase<String>>,
}

impl View for UniCaseIndexSet {
    type V = Seq<Seq<char>>;

    /// The texts of the keys, in insertion order.
    open spec fn view(&self) -> Seq<Seq<char>> {
        indexed_texts(self.engine())
    }
}

impl UniCaseIndexSet {
    /// The underlying insertion-ordered set.
    pub closed spec fn engine(&self) -> IndexSet<UniCase<String>> {
        self.inner
    }

    /// No two keys fold alike.
    pub open spec fn wf(&self) -> bool {
        distinct_keys(self@)
    }

    /// Creates an empty set.
    pub fn new() -> (r: Self)
        ensures
            r.wf(),
            r@ == Seq::<Seq<char>>::empty(),
    {
        UniCaseIndexSet { inner: index_new() }
    }

    /// Removes every key.
    pub fn clear(&mut self)
        ensures
            final(self).wf(),
            final(self)@ == Seq::<Seq<char>>::empty(),
    {
        index_clear(&mut self.inner);
    }

    /// Whether the set holds a key that folds like `k`.
    pub fn contains<K: ToKey>(&self, k: K) -> (r: bool)
        ensures
            r == has_key(self@, k.key_text()),
    {
        let key = k.to_key();
        index_position(&self.inner, key.as_str()).is_some()
    }

    /// The stored key that folds like `k`, with the text it was inserted with.
    pub fn get<K: ToKey>(&self, k: K) -> (r: Option<Key>)
        ensures
            match r {
                Some(found) => exists|i: int|
                    0 <= i < self@.len() && self@[i] == found@ && same_key(self@[i], k.key_text()),
                None => !has_key(self@, k.key_text()),
            },
    {
        let key = k.to_key();
        match index_position(&self.inner, key.as_str()) {
            Some(i) => {
                let found = Key::new(index_text(&self.inner, i).to_owned());
                assert(self@[i as int] == found@);
                Some(found)
            },
            None => None,
        }
    }

    /// Adds `k` last unless a key that folds like it is present. Returns
    /// whether it was added; a key already present keeps its text and place.
    pub fn insert<K: ToKey>(&mut self, k: K) -> (r: bool)
        requires
            old(self).wf(),
        ensures
            final(self).wf(),
            r == !has_key(old(self)@, k.key_text()),
            r ==> final(self)@ == old(self)@.push(k.key_text()),
            !r ==> final(self)@ == old(self)@,
    {
        let key = k.to_key();
        let ghost before = self@;
        let (_, added) = index_insert(&mut self.inner, key.into_string());
        if added {
            proof {
                lemma_distinct_push(before, k.key_text());
            }
        }
        added
    }

    /// Whether the set holds no key.
    pub fn is_empty(&self) -> (r: bool)
        ensures
            r == (self@.len() == 0),
    {
        index_len(&self.inner) == 0
    }

    /// The keys in insertion order.
    pub fn iter(&self) -> (r: Vec<Key>)
        ensures
            r@.len() == self@.len(),
            forall|i: int| 0 <= i < self@.len() ==> #[trigger] r@[i]@ == self@[i],
    {
        let n = index_len(&self.inner);
        let mut out: Vec<Key> = Vec::new();
        let mut i: usize = 0;
        while i < n
            invariant
                n == self@.len(),
                i <= n,
                out@.len() == i,
                forall|j: int| 0 <= j < i ==> #[trigger] out@[j]@ == self@[j],
            decreases n - i,
        {
            out.push(Key::new(index_text(&self.inner, i).to_owned()));
            i = i + 1;
        }
        out
    }

    /// The number of keys.
    pub fn len(&self) -> (r: usize)
        ensures
            r == self@.len(),
    {
        index_len(&self.inner)
    }

    /// Removes the key that folds like `k`; the keys after it keep their order.
    /// Returns whether there was one.
    pub fn remove<K: ToKey>(&mut self, k: K) -> (r: bool)
        requires
            old(self).wf(),
        ensures
            final(self).wf(),
            r == has_key(old(self)@, k.key_text()),
            r ==> exists|i: int|
                0 <= i < old(self)@.len() && same_key(old(self)@[i], k.key_text())
                    && final(self)@ == old(self)@.remove(i),
            !r ==> final(self)@ == old(self)@,
    {
        let key = k.to_key();
        let ghost before = self@;
        match index_remove(&mut self.inner, key.as_str()) {
            Some((i, _)) => {
                assert forall|a: int, b: int|
                    0 <= a < self@.len() && 0 <= b < self@.len() && a != b implies !same_key(
                    #[trigger] self@[a],
                    #[trigger] self@[b],
                ) by {
                    let a0 = if a < i { a } else { a + 1 };
                    let b0 = if b < i { b } else { b + 1 };
                    assert(self@[a] == before[a0] && self@[b] == before[b0]);
                }
                assert(same_key(before[i as int], k.key_text()));
                true
            },
            None => false,
        }
    }

    /// Keeps the keys for which `f` returns true, in their order, and removes
    /// the others.
    pub fn retain<F: Fn(&Key) -> bool>(&mut self, f: F)
        requires
            old(self).wf(),
            forall|k: &Key| #[trigger] f.requires((k,)),
        ensures
            final(self).wf(),
            exists|keep: Seq<bool>|
                keep.len() == old(self)@.len() && (forall|i: int|
                    0 <= i < keep.len() ==> #[trigger] answered(f, old(self)@[i], keep[i]))
                    && final(self)@ == kept(old(self)@, keep),
    {
        let ghost before = self@;
        let ghost mut keep: Seq<bool> = Seq::empty();
        let mut out = index_new();
        let n = index_len(&self.inner);
        let mut i: usize = 0;
        while i < n
            invariant
                self@ == before,
                distinct_keys(before),
                n == before.len(),
                i <= n,
                keep.len() == i,
                forall|j: int| 0 <= j < i ==> #[trigger] answered(f, before[j], keep[j]),
                forall|k: &Key| #[trigger] f.requires((k,)),
                indexed_texts(out) == kept(before.take(i as int), keep),
                distinct_keys(indexed_texts(out)),
                forall|a: int|
                    0 <= a < indexed_texts(out).len() ==> exists|j: int|
                        0 <= j < i && #[trigger] indexed_texts(out)[a] == before[j],
            decreases n - i,
        {
            let key = Key::new(index_text(&self.inner, i).to_owned());
            let b = f(&key);
            let ghost old_out = indexed_texts(out);
            proof {
                lemma_kept_push(before.take(i as int), keep, before[i as int], b);
                assert(before.take(i as int).push(before[i as int]) =~= before.take(i + 1));
                keep = keep.push(b);
                assert(answered(f, before[i as int], keep[i as int]));
            }
            if b {
                proof {
                    assert forall|a: int| 0 <= a < old_out.len() implies !same_key(
                        #[trigger] old_out[a],
                        key@,
                    ) by {
                        let j = choose|j: int| 0 <= j < i && old_out[a] == before[j];
                    }
                }
                let (_, added) = index_insert(&mut out, key.into_string());
                assert(added);
                assert forall|a: int|
                    0 <= a < indexed_texts(out).len() implies exists|j: int|
                        0 <= j < i + 1 && #[trigger] indexed_texts(out)[a] == before[j] by {
                    if a < old_out.len() {
                        let j = choose|j: int| 0 <= j < i && old_out[a] == before[j];
                        assert(0 <= j < i + 1 && indexed_texts(out)[a] == before[j]);
                    } else {
                        assert(indexed_texts(out)[a] == before[i as int]);
                    }
                }
            }
            i = i + 1;
        }
        assert(before.take(i as int) =~= before);
        self.inner = out;
    }

    /// Adds each of `items` in turn, as `insert` does.
    pub fn extend<K: ToKey>(&mut self, items: Vec<K>)
        requires
            old(self).wf(),
        ensures
            final(self).wf(),
            final(self)@ == set_insert_all(old(self)@, key_texts(items@)),
    {
        let ghost start = self@;
        let ghost all = key_texts(items@);
        let n = items.len();
        let mut pending = items;
        let mut reversed: Vec<K> = Vec::new();
        while pending.len() > 0
            invariant
                pending@.len() + reversed@.len() == n,
                n == all.len(),
                forall|j: int| 0 <= j < pending@.len() ==> (#[trigger] pending@[j]).key_text() == all[j],
                forall|j: int|
                    0 <= j < reversed@.len() ==> (#[trigger] reversed@[j]).key_text() == all[n - 1 - j],
            decreases pending@.len(),
        {
            let k = pending.pop().unwrap();
            reversed.push(k);
        }
        let mut i: usize = 0;
        while i < n
            invariant
                self.wf(),
                n == all.len(),
                i <= n,
                reversed@.len() == n - i,
                forall|j: int|
                    0 <= j < reversed@.len() ==> (#[trigger] reversed@[j]).key_text() == all[n - 1 - j],
                self@ == set_insert_all(start, all.take(i as int)),
            decreases n - i,
        {
            let k = reversed.pop().unwrap();
            proof {
                assert(all.take(i + 1).drop_last() =~= all.take(i as int));
            }
            self.insert(k);
            i = i + 1;
        }
        assert(all.take(n as int) =~= all);
    }

    /// A set holding `items`, added in turn as `insert` does.
    pub fn from_iter<K: ToKey>(items: Vec<K>) -> (r: Self)
        ensures
            r.wf(),
            r@ == set_insert_all(Seq::empty(), key_texts(items@)),
    {
        let mut r = Self::new();
        r.extend(items);
        r
    }

    /// Whether both sets have as many keys and each key of this one folds like
    /// a key of the other.
    fn same_keys_as(&self, other: &Self) -> (r: bool)
        ensures
            r == same_keys(self@, other@),
    {
        let n = index_len(&self.inner);
        if n != index_len(&other.inner) {
            return false;
        }
        let mut i: usize = 0;
        while i < n
            invariant
                n == self@.len(),
                self@.len() == other@.len(),
                i <= n,
                forall|j: int| 0 <= j < i ==> has_key(other@, #[trigger] self@[j]),
            decreases n - i,
        {
            let t = index_text(&self.inner, i);
            match index_position(&other.inner, t) {
                Some(j) => {
                    assert(same_key(other@[j as int], self@[i as int]));
                },
                None => {
                    return false;
                },
            }
            i = i + 1;
        }
        true
    }
}

impl PartialEq for UniCaseIndexSet {
    fn eq(&self, other: &Self) -> (r: bool) {
        self.same_keys_as(other)
    }
}

impl vstd::std_specs::cmp::PartialEqSpecImpl for UniCaseIndexSet {
    open spec fn obeys_eq_spec() -> bool {
        true
    }

    open spec fn eq_spec(&self, other: &Self) -> bool {
        same_keys(self@, other@)
    }
}

impl<'a> IntoIterator for &'a UniCaseIndexSet {
    type Item = Key;

    type IntoIter = std::vec::IntoIter<Key>;

    /// Copies of the keys in insertion order.
    fn into_iter(self) -> (r: std::vec::IntoIter<Key>) {
        self.iter().into_iter()
    }
}

impl IntoIterator for UniCaseIndexSet {
    type Item = Key;

    type IntoIter = std::vec::IntoIter<Key>;

    /// The keys in insertion order.
    fn into_iter(self) -> (r: std::vec::IntoIter<Key>) {
        self.iter().into_iter()
    }
}

impl Default for UniCaseIndexSet {
    /// An empty set.
    fn default() -> (r: Self)
        ensures
            r.wf(),
            r@.len() == 0,
    {
        Self::new()
    }
}

} // verus!
