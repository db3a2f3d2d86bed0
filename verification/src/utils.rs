//! Small string tools: changing a string in place and matching a prefix
//! without regard to case.

use crate::text::{fold_chars, folded_chars, trim, trimmed};
use vstd::prelude::*;

verus! {

/// A value that can be replaced by a part of itself, picked from a borrowed view of it.
pub trait InPlace {
    type Borrowed: ToOwned<Owned = Self> + ?Sized;

    /// `b` holds exactly what `self` holds.
    spec fn lends(&self, b: &Self::Borrowed) -> bool;

    /// Replaces `self` by what `mutator` returns for the present content.
    fn in_place<F: FnOnce(&Self::Borrowed) -> &Self::Borrowed>(&mut self, mutator: F)
        requires
            forall|b: &Self::Borrowed| old(self).lends(b) ==> mutator.requires((b,)),
        ensures
            exists|b: &Self::Borrowed, r: &Self::Borrowed|
                old(self).lends(b) && mutator.ensures((b,), r) && final(self).lends(r),
    ;
}

impl InPlace for String {
    type Borrowed = str;

    open spec fn lends(&self, b: &str) -> bool {
        b@ == self@
    }

    fn in_place<F: FnOnce(&str) -> &str>(&mut self, mutator: F) {
        let lent = self.as_str();
        assert(self.lends(lent));
        let kept: String = mutator(lent).to_owned();
        *self = kept;
    }
}

/// A text that can drop its surrounding white space in place.
pub trait StringTrimInPlace {
    /// The characters held.
    spec fn text(&self) -> Seq<char>;

    /// Removes the white space at both ends.
    fn trim_in_place(&mut self)
        ensures
            final(self).text() == trimmed(old(self).text()),
    ;
}

impl StringTrimInPlace for String {
    open spec fn text(&self) -> Seq<char> {
        self@
    }

    fn trim_in_place(&mut self) {
        self.in_place(|t: &str| -> (r: &str) ensures r@ == trimmed(t@) { trim(t) });
    }
}

/// Tells whether `prefix` is the beginning of `whole`.
pub fn is_prefix(prefix: &Vec<char>, whole: &Vec<char>) -> (r: bool)
    ensures
        r == prefix@.is_prefix_of(whole@),
{
    if prefix.len() > whole.len() {
        return false;
    }
    let mut i: usize = 0;
    while i < prefix.len()
        invariant
            i <= prefix@.len() <= whole@.len(),
            forall|k: int| 0 <= k < i ==> prefix@[k] == whole@[k],
        decreases prefix@.len() - i,
    {
        if prefix[i] != whole[i] {
            assert(whole@.subrange(0, prefix@.len() as int)[i as int] != prefix@[i as int]);
            return false;
        }
        i += 1;
    }
    assert(prefix@ == whole@.subrange(0, prefix@.len() as int));
    true
}

/// What `starts_with_case_insensitive` decides: the lowercase form of `b`,
/// taken character by character, is the beginning of that of `a`.
pub open spec fn starts_with_folded(a: Seq<char>, b: Seq<char>) -> bool {
    folded_chars(b).is_prefix_of(folded_chars(a))
}

/// Tells whether `a` starts with `b` when case is left out of account: the
/// two are brought into lowercase character by character, and the lowercase
/// form of `b` has to be the beginning of the lowercase form of `a`.
pub fn starts_with_case_insensitive(a: &str, b: &str) -> (r: bool)
    ensures
        r == starts_with_folded(a@, b@),
{
    let lower_a = fold_chars(a);
    let lower_b = fold_chars(b);
    is_prefix(&lower_b, &lower_a)
}

} // verus!
