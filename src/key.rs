//! Keys that compare and order without regard to case, by unicase's folding,
//! and the ways a key can be given: owned or borrowed text, or a key itself.

use vstd::prelude::*;
use crate::seq_lemmas::{seq_lt, lemma_seq_lt_trichotomy};

verus! {

/// The sequence of characters that unicase compares a text by: each character
/// of the text replaced by its full Unicode case folding, locale-independent
/// (so a German sharp s folds like "ss").
pub uninterp spec fn folded(s: Seq<char>) -> Seq<char>;

/// Two texts name the same key when their foldings agree.
pub open spec fn same_key(a: Seq<char>, b: Seq<char>) -> bool {
    folded(a) == folded(b)
}

/// Key order: the lexicographic order of the foldings.
pub open spec fn key_lt(a: Seq<char>, b: Seq<char>) -> bool {
    seq_lt(folded(a), folded(b))
}

/// Relies on `PartialEq for unicase::UniCase`: equal exactly when the folded
/// characters of both texts are equal.
#[verifier::external_body]
fn unicase_eq(a: &str, b: &str) -> (r: bool)
    ensures
        r == (folded(a@) == folded(b@)),
{
    unicase::UniCase::new(a) == unicase::UniCase::new(b)
}

/// Relies on `Ord for unicase::UniCase`: the folded characters of both texts
/// compared lexicographically.
#[verifier::external_body]
fn unicase_cmp(a: &str, b: &str) -> (r: std::cmp::Ordering)
    ensures
        (r == std::cmp::Ordering::Less) == seq_lt(folded(a@), folded(b@)),
        (r == std::cmp::Ordering::Equal) == (folded(a@) == folded(b@)),
        (r == std::cmp::Ordering::Greater) == seq_lt(folded(b@), folded(a@)),
{
    unicase::UniCase::new(a).cmp(&unicase::UniCase::new(b))
}

/// Any two keys are the same, or one is strictly below the other.
pub proof fn lemma_key_order_total(a: Seq<char>, b: Seq<char>)
    ensures
        same_key(a, b) || key_lt(a, b) || key_lt(b, a),
        !(key_lt(a, b) && key_lt(b, a)),
        same_key(a, b) ==> !key_lt(a, b) && !key_lt(b, a),
{
    lemma_seq_lt_trichotomy(folded(a), folded(b));
}

/// A key: the text it was made from, compared and ordered without regard to case.
#[derive(Debug, Clone)]
pub struct Key {
    text: String,
}

impl View for Key {
    type V = Seq<char>;

    closed spec fn view(&self) -> Seq<char> {
        self.text@
    }
}

impl Key {
    /// Makes a key that keeps `text` as it is.
    pub fn new(text: String) -> (r: Key)
        ensures
            r@ == text@,
    {
        Key { text }
    }

    /// The text the key was made from.
    pub fn as_str(&self) -> (r: &str)
        ensures
            r@ == self@,
    {
        self.text.as_str()
    }

    /// The text the key was made from, taken out of it.
    pub fn into_string(self) -> (r: String)
        ensures
            r@ == self@,
    {
        self.text
    }

    /// A copy of the key with the same text.
    pub fn copy_key(&self) -> (r: Key)
        ensures
            r@ == self@,
    {
        Key { text: self.text.clone() }
    }

    /// Whether both keys fold to the same text.
    pub fn matches(&self, other: &Key) -> (r: bool)
        ensures
            r == same_key(self@, other@),
    {
        unicase_eq(self.text.as_str(), other.text.as_str())
    }

    /// Compares two keys by their folded text.
    pub fn compare(&self, other: &Key) -> (r: std::cmp::Ordering)
        ensures
            (r == std::cmp::Ordering::Less) == key_lt(self@, other@),
            (r == std::cmp::Ordering::Equal) == same_key(self@, other@),
            (r == std::cmp::Ordering::Greater) == key_lt(other@, self@),
    {
        unicase_cmp(self.text.as_str(), other.text.as_str())
    }
}

impl PartialEq for Key {
    fn eq(&self, other: &Key) -> (r: bool) {
        self.matches(other)
    }
}

impl vstd::std_specs::cmp::PartialEqSpecImpl for Key {
    open spec fn obeys_eq_spec() -> bool {
        true
    }

    open spec fn eq_spec(&self, other: &Key) -> bool {
        same_key(self@, other@)
    }
}

impl Eq for Key {
}

/// What a key can be made from: an owned or borrowed text, or a key itself.
pub trait ToKey: Sized {
    /// The text of the key that `to_key` makes.
    spec fn key_text(&self) -> Seq<char>;

    /// Makes the key, copying the text only where it is borrowed.
    fn to_key(self) -> (r: Key)
        ensures
            r@ == self.key_text(),
    ;
}

impl ToKey for String {
    open spec fn key_text(&self) -> Seq<char> {
        self@
    }

    fn to_key(self) -> (r: Key) {
        Key::new(self)
    }
}

impl<'a> ToKey for &'a str {
    open spec fn key_text(&self) -> Seq<char> {
        (*self)@
    }

    fn to_key(self) -> (r: Key) {
        Key::new(self.to_owned())
    }
}

impl ToKey for Key {
    open spec fn key_text(&self) -> Seq<char> {
        self@
    }

    fn to_key(self) -> (r: Key) {
        self
    }
}

impl<'a> ToKey for &'a Key {
    open spec fn key_text(&self) -> Seq<char> {
        (*self)@
    }

    fn to_key(self) -> (r: Key) {
        self.copy_key()
    }
}

/// The texts of a sequence of keys.
pub open spec fn texts(ks: Seq<Key>) -> Seq<Seq<char>> {
    ks.map_values(|k: Key| k@)
}

/// Whether some text of `ks` names the same key as `k`.
pub open spec fn has_key(ks: Seq<Seq<char>>, k: Seq<char>) -> bool {
    exists|i: int| 0 <= i < ks.len() && #[trigger] same_key(ks[i], k)
}

/// No two texts of `ks` name the same key.
pub open spec fn distinct_keys(ks: Seq<Seq<char>>) -> bool {
    forall|i: int, j: int|
        0 <= i < ks.len() && 0 <= j < ks.len() && i != j ==> !same_key(#[trigger] ks[i], #[trigger] ks[j])
}

/// Adding a text that names no key present keeps the keys distinct.
pub proof fn lemma_distinct_push(ks: Seq<Seq<char>>, k: Seq<char>)
    requires
        distinct_keys(ks),
        !has_key(ks, k),
    ensures
        distinct_keys(ks.push(k)),
{
    let ks2 = ks.push(k);
    assert forall|i: int, j: int|
        0 <= i < ks2.len() && 0 <= j < ks2.len() && i != j implies !same_key(
        #[trigger] ks2[i],
        #[trigger] ks2[j],
    ) by {
        if i == ks.len() {
            assert(!same_key(ks[j], k));
        } else if j == ks.len() {
            assert(!same_key(ks[i], k));
        } else {
            assert(ks2[i] == ks[i] && ks2[j] == ks[j]);
        }
    }
}

/// Removing a text keeps the keys distinct.
pub proof fn lemma_distinct_remove(ks: Seq<Seq<char>>, i: int)
    requires
        distinct_keys(ks),
        0 <= i < ks.len(),
    ensures
        distinct_keys(ks.remove(i)),
{
    let r = ks.remove(i);
    assert forall|a: int, b: int|
        0 <= a < r.len() && 0 <= b < r.len() && a != b implies !same_key(
        #[trigger] r[a],
        #[trigger] r[b],
    ) by {
        let a0 = if a < i { a } else { a + 1 };
        let b0 = if b < i { b } else { b + 1 };
        assert(r[a] == ks[a0] && r[b] == ks[b0]);
    }
}

/// Whether `f` returned `b` when called on a key with text `t`.
pub open spec fn answered<F: Fn(&Key) -> bool>(f: F, t: Seq<char>, b: bool) -> bool {
    exists|key: Key| key@ == t && #[trigger] f.ensures((&key,), b)
}

} // verus!
