//! What every sorted key-value stream offers: its current entry and a step forward.
use vstd::prelude::*;

use crate::key::key_lt;

verus! {

#[verifier::external_type_specification]
#[verifier::external_body]
pub struct ExError(anyhow::Error);

/// The key of the first entry of `s`, empty when `s` is empty.
pub open spec fn head_key(s: Seq<(Seq<u8>, Seq<u8>)>) -> Seq<u8> {
    if s.len() > 0 {
        s[0].0
    } else {
        Seq::empty()
    }
}

/// The value of the first entry of `s`, empty when `s` is empty.
pub open spec fn head_value(s: Seq<(Seq<u8>, Seq<u8>)>) -> Seq<u8> {
    if s.len() > 0 {
        s[0].1
    } else {
        Seq::empty()
    }
}

/// `s` without its first entry; an empty `s` stays empty.
pub open spec fn advance(s: Seq<(Seq<u8>, Seq<u8>)>) -> Seq<(Seq<u8>, Seq<u8>)> {
    if s.len() > 0 {
        s.drop_first()
    } else {
        s
    }
}

/// The keys of `s` are strictly ascending.
pub open spec fn strictly_sorted(s: Seq<(Seq<u8>, Seq<u8>)>) -> bool {
    forall|i: int, j: int| 0 <= i < j < s.len() ==> key_lt(#[trigger] s[i].0, #[trigger] s[j].0)
}

/// A forward cursor over a stream of key-value entries. `stream` is what is
/// left to read, the current entry first; the cursor is valid while it is
/// not empty.
pub trait StorageIterator {
    /// The cursor's internal state is consistent. A type that says nothing
    /// of itself is never consistent, and no contract applies to it.
    open spec fn well_formed(&self) -> bool {
        false
    }

    /// The entries from the current one on.
    open spec fn stream(&self) -> Seq<(Seq<u8>, Seq<u8>)> {
        Seq::empty()
    }

    /// `next` never fails on this cursor, nor on what it becomes. A type that
    /// says nothing of itself promises nothing.
    open spec fn never_fails(&self) -> bool {
        false
    }

    /// The current key, empty when invalid.
    fn key(&self) -> (r: &[u8])
        requires
            self.well_formed(),
        ensures
            r@ == head_key(self.stream()),
    ;

    /// The current value, empty when invalid.
    fn value(&self) -> (r: &[u8])
        requires
            self.well_formed(),
        ensures
            r@ == head_value(self.stream()),
    ;

    /// Whether there is a current entry.
    fn is_valid(&self) -> (r: bool)
        requires
            self.well_formed(),
        ensures
            r == (self.stream().len() > 0),
    ;

    /// Moves past the current entry. On failure the cursor stays consistent
    /// but its position is unspecified.
    fn next(&mut self) -> (r: Result<(), anyhow::Error>)
        requires
            old(self).well_formed(),
        ensures
            final(self).well_formed(),
            r.is_ok() ==> final(self).stream() == advance(old(self).stream()),
            old(self).never_fails() ==> r.is_ok() && final(self).never_fails(),
    ;
}

} // verus!
