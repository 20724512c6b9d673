//! The insertion-ordered hash set of the `indexmap` crate, holding unicase keys,
//! as the adapters use it.

use vstd::prelude::*;
use indexmap::IndexSet;
use unicase::UniCase;
use crate::key::{has_key, same_key};

verus! {

#[verifier::external_type_specification]
#[verifier::external_body]
#[verifier::reject_recursive_types(S)]
pub struct ExUniCase<S>(UniCase<S>);

#[verifier::external_type_specification]
#[verifier::external_body]
#[verifier::reject_recursive_types(T)]
#[verifier::reject_recursive_types(S)]
pub struct ExIndexSet<T, S>(IndexSet<T, S>);

/// The texts of the keys an `IndexSet` holds, in the set's order.
pub uninterp spec fn indexed_texts(s: IndexSet<UniCase<String>>) -> Seq<Seq<char>>;

/// Relies on `IndexSet::new`: the set starts empty.
#[verifier::external_body]
pub(crate) fn index_new() -> (r: IndexSet<UniCase<String>>)
    ensures
        indexed_texts(r) == Seq::<Seq<char>>::empty(),
{
    IndexSet::new()
}

/// Relies on `IndexSet::len`: the number of keys held.
#[verifier::external_body]
pub(crate) fn index_len(s: &IndexSet<UniCase<String>>) -> (r: usize)
    ensures
        r == indexed_texts(*s).len(),
{
    s.len()
}

/// Relies on `IndexSet::clear`: every key is removed.
#[verifier::external_body]
pub(crate) fn index_clear(s: &mut IndexSet<UniCase<String>>)
    ensures
        indexed_texts(*final(s)) == Seq::<Seq<char>>::empty(),
{
    s.clear()
}

/// Relies on `IndexSet::get_index_of`: the position of the key equal to `k`
/// under unicase's equality, if there is one; the set holds no two equal keys.
#[verifier::external_body]
pub(crate) fn index_position(s: &IndexSet<UniCase<String>>, k: &str) -> (r: Option<usize>)
    ensures
        match r {
            Some(i) => i < indexed_texts(*s).len() && same_key(indexed_texts(*s)[i as int], k@)
                && forall|j: int|
                0 <= j < indexed_texts(*s).len() && j != i ==> !same_key(
                    #[trigger] indexed_texts(*s)[j],
                    k@,
                ),
            None => !has_key(indexed_texts(*s), k@),
        },
{
    s.get_index_of(&UniCase::new(k.to_string()))
}

/// Relies on `IndexSet::insert_full`: a key equal to `k` already held stays as
/// it is, and its position is returned with `false`; otherwise `k` is added
/// last and its position is returned with `true`.
#[verifier::external_body]
pub(crate) fn index_insert(s: &mut IndexSet<UniCase<String>>, k: String) -> (r: (usize, bool))
    ensures
        r.1 == !has_key(indexed_texts(*old(s)), k@),
        r.1 ==> r.0 == indexed_texts(*old(s)).len() && indexed_texts(*final(s)) == indexed_texts(
            *old(s),
        ).push(k@),
        !r.1 ==> r.0 < indexed_texts(*old(s)).len() && same_key(
            indexed_texts(*old(s))[r.0 as int],
            k@,
        ) && indexed_texts(*final(s)) == indexed_texts(*old(s)),
{
    s.insert_full(UniCase::new(k))
}

/// Relies on `IndexSet::shift_remove_full`: the key equal to `k` is removed
/// and returned with its position, and the keys after it move up by one,
/// keeping their order.
#[verifier::external_body]
pub(crate) fn index_remove(s: &mut IndexSet<UniCase<String>>, k: &str) -> (r: Option<(usize, String)>)
    ensures
        match r {
            Some((i, t)) => i < indexed_texts(*old(s)).len() && same_key(
                indexed_texts(*old(s))[i as int],
                k@,
            ) && t@ == indexed_texts(*old(s))[i as int] && indexed_texts(*final(s))
                == indexed_texts(*old(s)).remove(i as int),
            None => !has_key(indexed_texts(*old(s)), k@) && indexed_texts(*final(s))
                == indexed_texts(*old(s)),
        },
{
    s.shift_remove_full(&UniCase::new(k.to_string())).map(|(i, t)| (i, t.into_inner()))
}

/// Relies on indexing an `IndexSet` by position: the key held there.
#[verifier::external_body]
pub(crate) fn index_text(s: &IndexSet<UniCase<String>>, i: usize) -> (r: &str)
    requires
        i < indexed_texts(*s).len(),
    ensures
        r@ == indexed_texts(*s)[i as int],
{
    s[i].as_str()
}

} // verus!
