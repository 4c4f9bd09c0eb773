//! The storage-iterator capability: the contract every sorted source
//! presents, and the merge iterator that combines such sources.

pub mod merge_iterator;

use vstd::prelude::*;

use crate::key::KeyModel;
use crate::key::KeyVec;
use crate::key::key_lt;
use crate::key::lemma_key_trichotomy;

verus! {

/// An error surfaced while advancing a source that reads from storage.
/// This core never produces one itself; it only passes them through.
#[derive(Clone, Copy, Debug, PartialEq, Eq, Structural)]
pub struct IterError {
    /// Code assigned by the failing source.
    pub code: u64,
}

/// The capability every sorted source must present: a current key and value,
/// validity, advancing, and a count of still-contributing leaf sources.
///
/// A source models its state by a current key (`sp_key`), a current value
/// (`sp_value`), validity, and an active-source count. Sources are sorted and
/// free of duplicates within themselves: advancing a valid source strictly
/// increases its key. Advancing an invalid source is forbidden.
pub trait StorageIterator: Sized {
    /// The implementation's invariant.
    spec fn sp_inv(&self) -> bool;

    /// The source points at an entry.
    spec fn sp_valid(&self) -> bool;

    /// The current entry's key, meaningful only while valid.
    spec fn sp_key(&self) -> KeyModel;

    /// The current entry's value, meaningful only while valid.
    spec fn sp_value(&self) -> Seq<u8>;

    /// Count of leaf sources still contributing; zero once invalid.
    spec fn sp_active(&self) -> nat;

    /// The key of the current entry.
    fn key(&self) -> (k: &KeyVec)
        requires
            self.sp_inv(),
            self.sp_valid(),
        ensures
            k@ == self.sp_key(),
    ;

    /// The value of the current entry.
    fn value(&self) -> (v: &[u8])
        requires
            self.sp_inv(),
            self.sp_valid(),
        ensures
            v@ == self.sp_value(),
    ;

    /// True iff the source points at an entry.
    fn is_valid(&self) -> (r: bool)
        requires
            self.sp_inv(),
        ensures
            r == self.sp_valid(),
    ;

    /// Advances one position. On success the source either becomes invalid
    /// or moves to a strictly greater key; its active count never grows.
    /// On failure the source's position is no longer trustworthy.
    fn next(&mut self) -> (r: Result<(), IterError>)
        requires
            old(self).sp_inv(),
            old(self).sp_valid(),
        ensures
            r is Ok ==> final(self).sp_inv() && (final(self).sp_valid() ==> key_lt(
                old(self).sp_key(),
                final(self).sp_key(),
            )) && final(self).sp_active() <= old(self).sp_active(),
    ;

    /// Count of leaf sources still contributing.
    fn num_active_iterators(&self) -> (r: usize)
        requires
            self.sp_inv(),
        ensures
            r as nat == self.sp_active(),
            !self.sp_valid() ==> r == 0,
    ;
}

/// A stream whose keys strictly ascend holds every distinct key-with-version
/// at most once: since each advance of a source, and of the merge over any
/// sources, moves to a strictly greater key, no entry is ever emitted twice.
pub proof fn lemma_ascending_stream_is_duplicate_free(ks: Seq<KeyModel>)
    requires
        forall|i: int, j: int| 0 <= i < j < ks.len() ==> key_lt(ks[i], ks[j]),
    ensures
        forall|i: int, j: int| 0 <= i < j < ks.len() ==> ks[i] != ks[j],
{
    assert forall|i: int, j: int| 0 <= i < j < ks.len() implies ks[i] != ks[j] by {
        lemma_key_trichotomy(ks[i], ks[j]);
    }
}

} // verus!
