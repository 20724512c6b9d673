//! Properties that hold of every map and set, stated over the models that the
//! operations' contracts use.

use vstd::prelude::*;
use crate::key::{same_key, has_key, distinct_keys, folded};
use crate::unicase_index_map::{
    map_has, map_wf, entry_index, lookup, map_insert, map_insert_all, map_remove,
    lemma_entry_index, lemma_map_wf_insert,
};
use crate::unicase_index_set::set_insert;
use crate::unicase_btree_map::{map_keys, sorted_map_insert, sorted_map_insert_all};
use crate::sorted_keys::{sorted_insert, insert_pos, splits_at, ascending, lemma_key_lt_transitive};
use crate::key::{key_lt, lemma_key_order_total};

verus! {

/// After a key is inserted into a map that has no key folding like it, a lookup
/// by any text that folds alike finds it, with the text it was inserted with
/// and its value.
pub proof fn lemma_map_lookup_any_casing<V>(m: Seq<(Seq<char>, V)>, t: Seq<char>, t2: Seq<char>, v: V)
    requires
        map_wf(m),
        !map_has(m, t),
        same_key(t, t2),
    ensures
        map_has(map_insert(m, t, v), t2),
        map_insert(m, t, v)[entry_index(map_insert(m, t, v), t2)] == (t, v),
        lookup(map_insert(m, t, v), t2) == Some(v),
{
    let m2 = map_insert(m, t, v);
    lemma_map_wf_insert(m, t, v);
    assert(m2 == m.push((t, v)));
    lemma_entry_index(m2, t2, m.len() as int);
}

/// After a key is inserted into an insertion-ordered set that has no key
/// folding like it, the only key that folds like any casing of it has the
/// inserted text.
pub proof fn lemma_set_lookup_any_casing(s: Seq<Seq<char>>, t: Seq<char>, t2: Seq<char>)
    requires
        distinct_keys(s),
        !has_key(s, t),
        same_key(t, t2),
    ensures
        has_key(set_insert(s, t), t2),
        forall|i: int|
            0 <= i < set_insert(s, t).len() && same_key(#[trigger] set_insert(s, t)[i], t2) ==> set_insert(
                s,
                t,
            )[i] == t,
{
    let s2 = set_insert(s, t);
    assert(s2 == s.push(t));
    assert(same_key(s2[s.len() as int], t2));
    assert forall|i: int| 0 <= i < s2.len() && same_key(#[trigger] s2[i], t2) implies s2[i] == t by {
        if i < s.len() {
            assert(same_key(s[i], t));
        }
    }
}

/// After a key is inserted into an ordered set that has no key folding like it,
/// the only key that folds like any casing of it has the inserted text.
pub proof fn lemma_sorted_lookup_any_casing(s: Seq<Seq<char>>, t: Seq<char>, t2: Seq<char>)
    requires
        ascending(s),
        !has_key(s, t),
        same_key(t, t2),
    ensures
        has_key(sorted_insert(s, t), t2),
        forall|i: int|
            0 <= i < sorted_insert(s, t).len() && same_key(#[trigger] sorted_insert(s, t)[i], t2)
                ==> sorted_insert(s, t)[i] == t,
{
    lemma_split_exists(s, t);
    let p = insert_pos(s, t);
    let s2 = sorted_insert(s, t);
    assert(s2 == s.insert(p, t));
    assert(same_key(s2[p], t2));
    assert forall|i: int| 0 <= i < s2.len() && same_key(#[trigger] s2[i], t2) implies s2[i] == t by {
        if i < p {
            assert(s2[i] == s[i]);
            assert(same_key(s[i], t));
        } else if i > p {
            assert(s2[i] == s[i - 1]);
            assert(same_key(s[i - 1], t));
        }
    }
}

/// Ascending texts have a place for every text that folds like none of them.
proof fn lemma_split_exists(s: Seq<Seq<char>>, t: Seq<char>)
    requires
        ascending(s),
        !has_key(s, t),
    ensures
        exists|p: int| splits_at(s, t, p),
    decreases s.len(),
{
    if s.len() == 0 {
        assert(splits_at(s, t, 0));
    } else {
        let n = s.len() - 1;
        let init = s.drop_last();
        lemma_key_order_total(s[n], t);
        assert(!same_key(s[n], t));
        if key_lt(s[n], t) {
            assert forall|j: int| 0 <= j < s.len() implies key_lt(#[trigger] s[j], t) by {
                if j < n {
                    lemma_key_lt_transitive(s[j], s[n], t);
                }
            }
            assert(splits_at(s, t, s.len() as int));
        } else {
            assert(!has_key(init, t)) by {
                assert forall|j: int| 0 <= j < init.len() implies !same_key(#[trigger] init[j], t) by {
                    assert(init[j] == s[j]);
                }
            }
            lemma_split_exists(init, t);
            let p = choose|p: int| splits_at(init, t, p);
            assert forall|j: int| 0 <= j < p implies key_lt(#[trigger] s[j], t) by {
                assert(init[j] == s[j]);
            }
            assert forall|j: int| p <= j < s.len() implies key_lt(t, #[trigger] s[j]) by {
                if j < n {
                    assert(init[j] == s[j]);
                }
            }
            assert(splits_at(s, t, p));
        }
    }
}

/// Inserting a key and then another casing of it leaves the first text as the
/// stored key and the second value as its value.
pub proof fn lemma_update_keeps_first_text<V>(
    m: Seq<(Seq<char>, V)>,
    k1: Seq<char>,
    v1: V,
    k2: Seq<char>,
    v2: V,
)
    requires
        map_wf(m),
        !map_has(m, k1),
        same_key(k1, k2),
    ensures
        map_insert(map_insert(m, k1, v1), k2, v2) == m.push((k1, v2)),
        lookup(map_insert(map_insert(m, k1, v1), k2, v2), k1) == Some(v2),
{
    let m1 = map_insert(m, k1, v1);
    lemma_map_lookup_any_casing(m, k1, k2, v1);
    lemma_map_wf_insert(m, k1, v1);
    let m2 = map_insert(m1, k2, v2);
    assert(m2 =~= m.push((k1, v2)));
    lemma_map_wf_insert(m1, k2, v2);
    lemma_entry_index(m2, k1, m.len() as int);
}

/// Removing an absent key changes nothing and finds nothing; removing twice
/// after an insertion finds the value once, then nothing.
pub proof fn lemma_remove_idempotent<V>(m: Seq<(Seq<char>, V)>, k: Seq<char>, v: V)
    requires
        map_wf(m),
    ensures
        !map_has(m, k) ==> map_remove(m, k) == m && lookup(m, k) == None::<V>,
        lookup(map_remove(m, k), k) == None::<V>,
        map_remove(map_remove(m, k), k) == map_remove(m, k),
        lookup(map_insert(m, k, v), k) == Some(v),
        lookup(map_remove(map_insert(m, k, v), k), k) == None::<V>,
{
    lemma_absent_after_remove(m, k);
    let m1 = map_insert(m, k, v);
    lemma_map_wf_insert(m, k, v);
    if map_has(m, k) {
        let i = entry_index(m, k);
        assert(same_key(m1[i].0, k));
        lemma_entry_index(m1, k, i);
    } else {
        assert(same_key(m1[m.len() as int].0, k));
        lemma_entry_index(m1, k, m.len() as int);
    }
    lemma_absent_after_remove(m1, k);
}

/// Once a key is removed, no entry folds like it.
proof fn lemma_absent_after_remove<V>(m: Seq<(Seq<char>, V)>, k: Seq<char>)
    requires
        map_wf(m),
    ensures
        !map_has(map_remove(m, k), k),
{
    if map_has(m, k) {
        let i = entry_index(m, k);
        let r = m.remove(i);
        assert forall|j: int| 0 <= j < r.len() implies !same_key(#[trigger] r[j].0, k) by {
            let j0 = if j < i { j } else { j + 1 };
            assert(r[j] == m[j0]);
        }
    }
}

/// The value of the last pair of `items` whose key folds like `k`.
pub open spec fn last_value<V>(items: Seq<(Seq<char>, V)>, k: Seq<char>) -> V
    decreases items.len(),
{
    if items.len() == 0 {
        arbitrary()
    } else if same_key(items.last().0, k) {
        items.last().1
    } else {
        last_value(items.drop_last(), k)
    }
}

/// The distinct foldings of the keys of `m`.
pub open spec fn folded_keys<V>(m: Seq<(Seq<char>, V)>) -> Set<Seq<char>> {
    m.map_values(|e: (Seq<char>, V)| folded(e.0)).to_set()
}

/// An entry folds like `t` exactly when the folding of `t` is among the
/// foldings of the keys.
proof fn lemma_has_iff_folded<V>(m: Seq<(Seq<char>, V)>, t: Seq<char>)
    ensures
        map_has(m, t) <==> folded_keys(m).contains(folded(t)),
{
    let f = m.map_values(|e: (Seq<char>, V)| folded(e.0));
    if map_has(m, t) {
        let i = choose|i: int| 0 <= i < m.len() && #[trigger] same_key(m[i].0, t);
        assert(f[i] == folded(t));
    }
    if folded_keys(m).contains(folded(t)) {
        let i = choose|i: int| 0 <= i < f.len() && f[i] == folded(t);
        assert(same_key(m[i].0, t));
    }
}

/// The foldings of the keys after an insertion are those before, with the
/// folding of the inserted key.
proof fn lemma_folded_keys_insert<V>(m: Seq<(Seq<char>, V)>, k: Seq<char>, v: V)
    ensures
        folded_keys(map_insert(m, k, v)) == folded_keys(m).insert(folded(k)),
{
    let m2 = map_insert(m, k, v);
    let f = m.map_values(|e: (Seq<char>, V)| folded(e.0));
    let f2 = m2.map_values(|e: (Seq<char>, V)| folded(e.0));
    lemma_has_iff_folded(m, k);
    if map_has(m, k) {
        assert(f2 =~= f);
    } else {
        assert(f2 =~= f.push(folded(k)));
        f.lemma_push_to_set_commute(folded(k));
    }
    assert(folded_keys(m2) =~= folded_keys(m).insert(folded(k)));
}

/// What inserting `items` in turn into an empty map gives: distinct keys, the
/// same foldings as `items`, and under each the value of its last pair.
proof fn lemma_bulk_build_steps<V>(items: Seq<(Seq<char>, V)>)
    ensures
        map_wf(map_insert_all(Seq::empty(), items)),
        folded_keys(map_insert_all(Seq::empty(), items)) == folded_keys(items),
        forall|t: Seq<char>|
            folded_keys(items).contains(folded(t)) ==> #[trigger] lookup(
                map_insert_all(Seq::empty(), items),
                t,
            ) == Some(last_value(items, t)),
    decreases items.len(),
{
    let r = map_insert_all(Seq::<(Seq<char>, V)>::empty(), items);
    if items.len() == 0 {
        assert(folded_keys(items) =~= Set::empty());
        assert(folded_keys(r) =~= Set::empty());
    } else {
        let init = items.drop_last();
        let (k, v) = items.last();
        let r0 = map_insert_all(Seq::<(Seq<char>, V)>::empty(), init);
        lemma_bulk_build_steps(init);
        assert(r == map_insert(r0, k, v));
        lemma_map_wf_insert(r0, k, v);
        lemma_folded_keys_insert(r0, k, v);
        let fi = init.map_values(|e: (Seq<char>, V)| folded(e.0));
        assert(items.map_values(|e: (Seq<char>, V)| folded(e.0)) =~= fi.push(folded(k)));
        fi.lemma_push_to_set_commute(folded(k));
        assert(folded_keys(items) == folded_keys(init).insert(folded(k)));
        assert(folded_keys(r) == folded_keys(items));
        assert forall|t: Seq<char>| folded_keys(items).contains(folded(t)) implies #[trigger] lookup(
            r,
            t,
        ) == Some(last_value(items, t)) by {
            lemma_has_iff_folded(r, t);
            assert(map_has(r, t));
            assert(items.last() == (k, v));
            assert(items.drop_last() == init);
            if same_key(k, t) {
                assert(last_value(items, t) == v);
                lemma_has_iff_folded(r0, k);
                if map_has(r0, k) {
                    let j = entry_index(r0, k);
                    assert(same_key(r[j].0, t));
                    lemma_entry_index(r, t, j);
                } else {
                    assert(r == r0.push((k, v)));
                    assert(same_key(r[r0.len() as int].0, t));
                    lemma_entry_index(r, t, r0.len() as int);
                }
                assert(lookup(r, t) == Some(v));
            } else {
                assert(last_value(items, t) == last_value(init, t));
                assert(folded_keys(init).contains(folded(t)));
                assert(lookup(r0, t) == Some(last_value(init, t)));
                lemma_has_iff_folded(r0, t);
                let j = entry_index(r0, t);
                assert(same_key(r0[j].0, t));
                assert(r[j].0 == r0[j].0);
                lemma_entry_index(r, t, j);
                if map_has(r0, k) {
                    assert(r[j] == r0[j]);
                } else {
                    assert(r[j] == r0[j]);
                }
            }
        }
    }
}

/// Building a map from pairs gives one entry per distinct folding of their
/// keys, each holding the value of the last pair whose key folds like it.
pub proof fn lemma_bulk_build<V>(items: Seq<(Seq<char>, V)>)
    ensures
        map_insert_all(Seq::empty(), items).len() == folded_keys(items).len(),
        forall|i: int|
            0 <= i < items.len() ==> lookup(map_insert_all(Seq::empty(), items), #[trigger] items[i].0)
                == Some(last_value(items, items[i].0)),
{
    let r = map_insert_all(Seq::<(Seq<char>, V)>::empty(), items);
    lemma_bulk_build_steps(items);
    let f = r.map_values(|e: (Seq<char>, V)| folded(e.0));
    assert(f.no_duplicates()) by {
        assert forall|a: int, b: int| 0 <= a < f.len() && 0 <= b < f.len() && a != b implies f[a] != f[b] by {
            assert(map_wf(r));
            assert(f[a] == folded(r[a].0) && f[b] == folded(r[b].0));
            assert(!same_key(r[a].0, r[b].0));
        }
        assert(f.no_duplicates());
    }
    f.unique_seq_to_set();
    assert forall|i: int| 0 <= i < items.len() implies lookup(r, #[trigger] items[i].0) == Some(
        last_value(items, items[i].0),
    ) by {
        let fi = items.map_values(|e: (Seq<char>, V)| folded(e.0));
        assert(fi[i] == folded(items[i].0));
        assert(folded_keys(items).contains(folded(items[i].0)));
    }
}

/// After a key is inserted into an ordered map that has no key folding like
/// it, a lookup by any text that folds alike finds it, with the text it was
/// inserted with and its value.
pub proof fn lemma_sorted_map_lookup_any_casing<V>(
    m: Seq<(Seq<char>, V)>,
    t: Seq<char>,
    t2: Seq<char>,
    v: V,
)
    requires
        map_wf(m),
        ascending(map_keys(m)),
        !map_has(m, t),
        same_key(t, t2),
    ensures
        map_has(sorted_map_insert(m, t, v), t2),
        sorted_map_insert(m, t, v)[entry_index(sorted_map_insert(m, t, v), t2)] == (t, v),
        lookup(sorted_map_insert(m, t, v), t2) == Some(v),
        map_wf(sorted_map_insert(m, t, v)),
        sorted_map_insert(m, t, v).len() == m.len() + 1,
{
    let ks = map_keys(m);
    assert(!has_key(ks, t)) by {
        assert forall|j: int| 0 <= j < ks.len() implies !same_key(#[trigger] ks[j], t) by {
            assert(ks[j] == m[j].0);
        }
    }
    lemma_split_exists(ks, t);
    let p = insert_pos(ks, t);
    let m2 = sorted_map_insert(m, t, v);
    assert(m2 == m.insert(p, (t, v)));
    assert(map_wf(m2)) by {
        assert forall|a: int, b: int|
            0 <= a < m2.len() && 0 <= b < m2.len() && a != b implies !same_key(
            #[trigger] m2[a].0,
            #[trigger] m2[b].0,
        ) by {
            if a != p && b != p {
                let a0 = if a < p { a } else { a - 1 };
                let b0 = if b < p { b } else { b - 1 };
                assert(m2[a] == m[a0] && m2[b] == m[b0]);
            } else if a == p {
                let b0 = if b < p { b } else { b - 1 };
                assert(m2[b] == m[b0]);
                assert(!same_key(m[b0].0, t));
            } else {
                let a0 = if a < p { a } else { a - 1 };
                assert(m2[a] == m[a0]);
                assert(!same_key(m[a0].0, t));
            }
        }
    }
    lemma_entry_index(m2, t2, p);
}

/// In an ordered map, inserting a key and then another casing of it leaves the
/// first text as the stored key and the second value as its value.
pub proof fn lemma_sorted_update_keeps_first_text<V>(
    m: Seq<(Seq<char>, V)>,
    k1: Seq<char>,
    v1: V,
    k2: Seq<char>,
    v2: V,
)
    requires
        map_wf(m),
        ascending(map_keys(m)),
        !map_has(m, k1),
        same_key(k1, k2),
    ensures
        map_has(sorted_map_insert(sorted_map_insert(m, k1, v1), k2, v2), k1),
        sorted_map_insert(sorted_map_insert(m, k1, v1), k2, v2)[entry_index(
            sorted_map_insert(sorted_map_insert(m, k1, v1), k2, v2),
            k1,
        )] == (k1, v2),
        sorted_map_insert(sorted_map_insert(m, k1, v1), k2, v2).len() == m.len() + 1,
{
    let m1 = sorted_map_insert(m, k1, v1);
    lemma_sorted_map_lookup_any_casing(m, k1, k2, v1);
    lemma_sorted_map_lookup_any_casing(m, k1, k1, v1);
    let i = entry_index(m1, k2);
    let m2 = sorted_map_insert(m1, k2, v2);
    assert(m2 == m1.update(i, (k1, v2)));
    assert(map_wf(m2)) by {
        assert forall|a: int, b: int|
            0 <= a < m2.len() && 0 <= b < m2.len() && a != b implies !same_key(
            #[trigger] m2[a].0,
            #[trigger] m2[b].0,
        ) by {
            assert(m2[a].0 == m1[a].0 && m2[b].0 == m1[b].0);
        }
    }
    assert(same_key(m2[i].0, k1));
    lemma_entry_index(m2, k1, i);
}

/// Inserting at a position adds the item to the set of items.
proof fn lemma_to_set_of_insert<A>(s: Seq<A>, p: int, x: A)
    requires
        0 <= p <= s.len(),
    ensures
        s.insert(p, x).to_set() == s.to_set().insert(x),
{
    let r = s.insert(p, x);
    assert forall|y: A| r.to_set().contains(y) <==> s.to_set().insert(x).contains(y) by {
        if r.to_set().contains(y) {
            let i = choose|i: int| 0 <= i < r.len() && r[i] == y;
            if i < p {
                assert(s[i] == y);
            } else if i > p {
                assert(s[i - 1] == y);
            }
        }
        if s.to_set().contains(y) {
            let i = choose|i: int| 0 <= i < s.len() && s[i] == y;
            if i < p {
                assert(r[i] == y);
            } else {
                assert(r[i + 1] == y);
            }
        }
        if y == x {
            assert(r[p] == x);
        }
    }
    assert(r.to_set() =~= s.to_set().insert(x));
}

/// What one insertion does to an ordered map: its keys stay distinct and
/// ascending, the folding of the key joins the foldings, a lookup by the key
/// finds the new value, and other lookups are unchanged.
proof fn lemma_sorted_insert_facts<V>(m: Seq<(Seq<char>, V)>, k: Seq<char>, v: V)
    requires
        map_wf(m),
        ascending(map_keys(m)),
    ensures
        map_wf(sorted_map_insert(m, k, v)),
        ascending(map_keys(sorted_map_insert(m, k, v))),
        folded_keys(sorted_map_insert(m, k, v)) == folded_keys(m).insert(folded(k)),
        forall|t: Seq<char>|
            same_key(k, t) ==> #[trigger] lookup(sorted_map_insert(m, k, v), t) == Some(v),
        forall|t: Seq<char>|
            !same_key(k, t) ==> #[trigger] lookup(sorted_map_insert(m, k, v), t) == lookup(m, t),
{
    let r = sorted_map_insert(m, k, v);
    let ks = map_keys(m);
    let f = m.map_values(|e: (Seq<char>, V)| folded(e.0));
    let fr = r.map_values(|e: (Seq<char>, V)| folded(e.0));
    lemma_has_iff_folded(m, k);
    if map_has(m, k) {
        let i = entry_index(m, k);
        assert(r == m.update(i, (m[i].0, v)));
        assert(map_keys(r) =~= ks);
        assert(map_wf(r)) by {
            assert forall|a: int, b: int|
                0 <= a < r.len() && 0 <= b < r.len() && a != b implies !same_key(
                #[trigger] r[a].0,
                #[trigger] r[b].0,
            ) by {
                assert(r[a].0 == m[a].0 && r[b].0 == m[b].0);
            }
        }
        assert(fr =~= f);
        assert(folded_keys(r) =~= folded_keys(m).insert(folded(k)));
        assert forall|t: Seq<char>| same_key(k, t) implies #[trigger] lookup(r, t) == Some(v) by {
            assert(same_key(r[i].0, t));
            lemma_entry_index(r, t, i);
        }
        assert forall|t: Seq<char>| !same_key(k, t) implies #[trigger] lookup(r, t) == lookup(
            m,
            t,
        ) by {
            if map_has(m, t) {
                let j = entry_index(m, t);
                assert(same_key(m[j].0, t));
                assert(j != i);
                assert(r[j] == m[j]);
                lemma_entry_index(r, t, j);
            } else {
                assert forall|j: int| 0 <= j < r.len() implies !same_key(#[trigger] r[j].0, t) by {
                    assert(r[j].0 == m[j].0);
                }
            }
        }
    } else {
        lemma_sorted_map_lookup_any_casing(m, k, k, v);
        assert forall|j: int| 0 <= j < ks.len() implies !same_key(#[trigger] ks[j], k) by {
            assert(ks[j] == m[j].0);
        }
        lemma_split_exists(ks, k);
        let p = insert_pos(ks, k);
        assert(r == m.insert(p, (k, v)));
        let t2 = map_keys(r);
        assert(t2 =~= ks.insert(p, k));
        assert forall|a: int, b: int| 0 <= a < b < t2.len() implies key_lt(
            #[trigger] t2[a],
            #[trigger] t2[b],
        ) by {
            if b < p {
            } else if b == p {
            } else if a < p {
                lemma_key_lt_transitive(t2[a], k, t2[b]);
            } else if a == p {
            } else {
                assert(ks[a - 1] == t2[a] && ks[b - 1] == t2[b]);
            }
        }
        assert(fr =~= f.insert(p, folded(k)));
        lemma_to_set_of_insert(f, p, folded(k));
        assert forall|t: Seq<char>| same_key(k, t) implies #[trigger] lookup(r, t) == Some(v) by {
            lemma_sorted_map_lookup_any_casing(m, k, t, v);
        }
        assert forall|t: Seq<char>| !same_key(k, t) implies #[trigger] lookup(r, t) == lookup(
            m,
            t,
        ) by {
            if map_has(m, t) {
                let j = entry_index(m, t);
                assert(same_key(m[j].0, t));
                let j2 = if j < p { j } else { j + 1 };
                assert(r[j2] == m[j]);
                lemma_entry_index(r, t, j2);
            } else {
                assert forall|j: int| 0 <= j < r.len() implies !same_key(#[trigger] r[j].0, t) by {
                    if j < p {
                        assert(r[j] == m[j]);
                    } else if j > p {
                        assert(r[j] == m[j - 1]);
                    }
                }
            }
        }
    }
}

/// What inserting `items` in turn into an empty ordered map gives: distinct,
/// ascending keys, the same foldings as `items`, and under each the value of
/// its last pair.
proof fn lemma_sorted_bulk_build_steps<V>(items: Seq<(Seq<char>, V)>)
    ensures
        map_wf(sorted_map_insert_all(Seq::empty(), items)),
        ascending(map_keys(sorted_map_insert_all(Seq::empty(), items))),
        folded_keys(sorted_map_insert_all(Seq::empty(), items)) == folded_keys(items),
        forall|t: Seq<char>|
            folded_keys(items).contains(folded(t)) ==> #[trigger] lookup(
                sorted_map_insert_all(Seq::empty(), items),
                t,
            ) == Some(last_value(items, t)),
    decreases items.len(),
{
    let r = sorted_map_insert_all(Seq::<(Seq<char>, V)>::empty(), items);
    if items.len() == 0 {
        assert(folded_keys(items) =~= Set::empty());
        assert(folded_keys(r) =~= Set::empty());
        assert(map_keys(r) =~= Seq::empty());
    } else {
        let init = items.drop_last();
        let (k, v) = items.last();
        let r0 = sorted_map_insert_all(Seq::<(Seq<char>, V)>::empty(), init);
        lemma_sorted_bulk_build_steps(init);
        assert(r == sorted_map_insert(r0, k, v));
        lemma_sorted_insert_facts(r0, k, v);
        let fi = init.map_values(|e: (Seq<char>, V)| folded(e.0));
        assert(items.map_values(|e: (Seq<char>, V)| folded(e.0)) =~= fi.push(folded(k)));
        fi.lemma_push_to_set_commute(folded(k));
        assert(folded_keys(items) == folded_keys(init).insert(folded(k)));
        assert forall|t: Seq<char>| folded_keys(items).contains(folded(t)) implies #[trigger] lookup(
            r,
            t,
        ) == Some(last_value(items, t)) by {
            assert(items.last() == (k, v));
            assert(items.drop_last() == init);
            if same_key(k, t) {
                assert(last_value(items, t) == v);
            } else {
                assert(last_value(items, t) == last_value(init, t));
                assert(folded_keys(init).contains(folded(t)));
                assert(lookup(r0, t) == Some(last_value(init, t)));
            }
        }
    }
}

/// Building an ordered map from pairs gives one entry per distinct folding of
/// their keys, each holding the value of the last pair whose key folds like it.
pub proof fn lemma_sorted_bulk_build<V>(items: Seq<(Seq<char>, V)>)
    ensures
        sorted_map_insert_all(Seq::empty(), items).len() == folded_keys(items).len(),
        forall|i: int|
            0 <= i < items.len() ==> lookup(
                sorted_map_insert_all(Seq::empty(), items),
                #[trigger] items[i].0,
            ) == Some(last_value(items, items[i].0)),
{
    let r = sorted_map_insert_all(Seq::<(Seq<char>, V)>::empty(), items);
    lemma_sorted_bulk_build_steps(items);
    let f = r.map_values(|e: (Seq<char>, V)| folded(e.0));
    assert(f.no_duplicates()) by {
        assert forall|a: int, b: int| 0 <= a < f.len() && 0 <= b < f.len() && a != b implies f[a] != f[b] by {
            assert(map_wf(r));
            assert(f[a] == folded(r[a].0) && f[b] == folded(r[b].0));
            assert(!same_key(r[a].0, r[b].0));
        }
        assert(f.no_duplicates());
    }
    f.unique_seq_to_set();
    assert forall|i: int| 0 <= i < items.len() implies lookup(r, #[trigger] items[i].0) == Some(
        last_value(items, items[i].0),
    ) by {
        let fi = items.map_values(|e: (Seq<char>, V)| folded(e.0));
        assert(fi[i] == folded(items[i].0));
        assert(folded_keys(items).contains(folded(items[i].0)));
    }
}

/// In an insertion-ordered map, a key removed and inserted again comes last,
/// after the entries that stayed, which keep their order.
pub proof fn lemma_reinsert_moves_to_end<V>(m: Seq<(Seq<char>, V)>, b: Seq<char>, v: V)
    requires
        map_wf(m),
        map_has(m, b),
    ensures
        map_remove(m, b) == m.remove(entry_index(m, b)),
        map_insert(map_remove(m, b), b, v) == map_remove(m, b).push((b, v)),
{
    lemma_absent_after_remove(m, b);
}

/// In an insertion-ordered set, a key removed and inserted again comes last,
/// after the keys that stayed, which keep their order.
pub proof fn lemma_set_reinsert_moves_to_end(s: Seq<Seq<char>>, i: int, b: Seq<char>)
    requires
        distinct_keys(s),
        0 <= i < s.len(),
        same_key(s[i], b),
    ensures
        set_insert(s.remove(i), b) == s.remove(i).push(b),
{
    let r = s.remove(i);
    assert forall|j: int| 0 <= j < r.len() implies !same_key(#[trigger] r[j], b) by {
        let j0 = if j < i { j } else { j + 1 };
        assert(r[j] == s[j0]);
        assert(!same_key(s[j0], s[i]));
    }
}

} // verus!
