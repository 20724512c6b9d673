//! Keys kept in ascending key order, and the search over them.

use vstd::prelude::*;
use crate::key::{Key, texts, has_key, same_key, key_lt, folded, lemma_key_order_total};
use crate::seq_lemmas::lemma_seq_lt_transitive;

verus! {

/// Every text of `ks` is strictly below the texts after it in key order.
pub open spec fn ascending(ks: Seq<Seq<char>>) -> bool {
    forall|i: int, j: int| 0 <= i < j < ks.len() ==> key_lt(#[trigger] ks[i], #[trigger] ks[j])
}

/// Key order is transitive.
pub proof fn lemma_key_lt_transitive(a: Seq<char>, b: Seq<char>, c: Seq<char>)
    requires
        key_lt(a, b),
        key_lt(b, c),
    ensures
        key_lt(a, c),
{
    lemma_seq_lt_transitive(folded(a), folded(b), folded(c));
}

/// The texts of `s` before position `p` are below `k`, and those from `p` on
/// are above it.
pub open spec fn splits_at(s: Seq<Seq<char>>, k: Seq<char>, p: int) -> bool {
    &&& 0 <= p <= s.len()
    &&& forall|j: int| 0 <= j < p ==> key_lt(#[trigger] s[j], k)
    &&& forall|j: int| p <= j < s.len() ==> key_lt(k, #[trigger] s[j])
}

/// The position at which `k` goes among the ascending texts `s`.
pub open spec fn insert_pos(s: Seq<Seq<char>>, k: Seq<char>) -> int {
    choose|p: int| #[trigger] splits_at(s, k, p)
}

/// The ascending texts `s` after adding `k` in its place, unless a text that
/// folds like it is present.
pub open spec fn sorted_insert(s: Seq<Seq<char>>, k: Seq<char>) -> Seq<Seq<char>> {
    if has_key(s, k) {
        s
    } else {
        s.insert(insert_pos(s, k), k)
    }
}

/// The ascending texts `s` after adding each of `items` in turn.
pub open spec fn sorted_insert_all(s: Seq<Seq<char>>, items: Seq<Seq<char>>) -> Seq<Seq<char>>
    decreases items.len(),
{
    if items.len() == 0 {
        s
    } else {
        sorted_insert(sorted_insert_all(s, items.drop_last()), items.last())
    }
}


/// Finds `k` among keys in ascending key order by halving the range: `Ok` with
/// the position of the key that folds like it, or `Err` with the position
/// where it would be inserted.
pub fn search(keys: &Vec<Key>, k: &Key) -> (r: Result<usize, usize>)
    requires
        ascending(texts(keys@)),
    ensures
        match r {
            Ok(i) => i < keys@.len() && same_key(texts(keys@)[i as int], k@),
            Err(p) => splits_at(texts(keys@), k@, p as int) && !has_key(texts(keys@), k@),
        },
{
    let ghost t = texts(keys@);
    let mut lo: usize = 0;
    let mut hi: usize = keys.len();
    while lo < hi
        invariant
            t == texts(keys@),
            ascending(t),
            lo <= hi <= t.len(),
            forall|j: int| 0 <= j < lo ==> key_lt(#[trigger] t[j], k@),
            forall|j: int| hi <= j < t.len() ==> key_lt(k@, #[trigger] t[j]),
        decreases hi - lo,
    {
        let mid = lo + (hi - lo) / 2;
        assert(t[mid as int] == keys@[mid as int]@);
        match keys[mid].compare(k) {
            std::cmp::Ordering::Equal => {
                return Ok(mid);
            },
            std::cmp::Ordering::Less => {
                assert forall|j: int| 0 <= j < mid + 1 implies key_lt(#[trigger] t[j], k@) by {
                    if j < lo {
                    } else if j < mid {
                        lemma_key_lt_transitive(t[j], t[mid as int], k@);
                    }
                }
                lo = mid + 1;
            },
            std::cmp::Ordering::Greater => {
                assert forall|j: int| mid <= j < t.len() implies key_lt(k@, #[trigger] t[j]) by {
                    if j >= hi {
                    } else if j > mid {
                        lemma_key_lt_transitive(k@, t[mid as int], t[j]);
                    }
                }
                hi = mid;
            },
        }
    }
    assert forall|j: int| 0 <= j < t.len() implies !same_key(#[trigger] t[j], k@) by {
        lemma_key_order_total(t[j], k@);
    }
    assert(splits_at(t, k@, lo as int));
    Err(lo)
}

/// Whether the keys ascend strictly in key order; each neighbouring pair is
/// compared once.
pub fn is_ascending(keys: &Vec<Key>) -> (r: bool)
    ensures
        r == ascending(texts(keys@)),
{
    let ghost t = texts(keys@);
    if keys.len() == 0 {
        assert(ascending(t));
        return true;
    }
    assert(ascending(t.take(1)));
    let mut i: usize = 1;
    while i < keys.len()
        invariant
            t == texts(keys@),
            1 <= i <= t.len(),
            ascending(t.take(i as int)),
        decreases t.len() - i,
    {
        assert(t[i as int - 1] == keys@[i as int - 1]@);
        assert(t[i as int] == keys@[i as int]@);
        match keys[i - 1].compare(&keys[i]) {
            std::cmp::Ordering::Less => {},
            _ => {
                assert(!ascending(t)) by {
                    lemma_key_order_total(t[i as int - 1], t[i as int]);
                }
                return false;
            },
        }
        let ghost before = t.take(i as int);
        let ghost after = t.take(i + 1);
        assert forall|a: int, b: int| 0 <= a < b < after.len() implies key_lt(
            #[trigger] after[a],
            #[trigger] after[b],
        ) by {
            if b < i {
                assert(after[a] == before[a] && after[b] == before[b]);
            } else if a < i - 1 {
                assert(after[a] == before[a] && before[i - 1] == t[i - 1]);
                lemma_key_lt_transitive(after[a], t[i - 1], t[b]);
            }
        }
        i = i + 1;
    }
    assert(t.take(t.len() as int) =~= t);
    true
}

} // verus!
