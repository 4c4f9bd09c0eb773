//! Iterates on a block: lazy decoding, forward scan, and binary-search seek.

use std::sync::Arc;

use vstd::prelude::*;

use crate::block::Block;
use crate::block::EntryModel;
use crate::block::block_entries;
use crate::block::block_wf;
use crate::block::entries_sorted;
use crate::block::entry_model;
use crate::block::entry_version;
use crate::block::entry_wf;
use crate::block::first_key_bytes;
use crate::block::push_byte_range;
use crate::block::read_u16;
use crate::block::read_u64;
use crate::key::KeyVec;
use crate::key::key_le;
use crate::key::key_lt;
use crate::key::KeyOrdering;
use crate::key::lemma_key_lt_trans;
use crate::key::lemma_key_trichotomy;

verus! {

impl Block {
    /// Decodes the block's first key from entry 0, which is stored in full.
    pub(crate) fn get_first_key(&self) -> (r: KeyVec)
        requires
            self.wf(),
        ensures
            r@.bytes == first_key_bytes(self.data@),
            r@.version == entry_version(self.data@, 0),
            r@ == self.entries()[0].key,
    {
        proof {
            assert(entry_wf(self.data@, self.offsets@[0] as int, first_key_bytes(self.data@)));
            assert(first_key_bytes(self.data@).take(0) =~= Seq::<u8>::empty());
            assert(Seq::<u8>::empty() + first_key_bytes(self.data@) =~= first_key_bytes(
                self.data@,
            ));
        }
        // the exec length pins the buffer's size, so the index sums fit usize
        let n = self.data.len();
        let key_len = read_u16(&self.data, 2) as usize;
        let mut bytes: Vec<u8> = Vec::new();
        push_byte_range(&mut bytes, &self.data, 4, 4 + key_len);
        let version = read_u64(&self.data, 4 + key_len);
        proof {
            assert(bytes@ =~= first_key_bytes(self.data@));
        }
        KeyVec::from_vec_with_version(bytes, version)
    }
}

/// Iterates on a block.
pub struct BlockIterator {
    /// Shared read-only handle to the block.
    block: Arc<Block>,
    /// The decoded current key; empty means the iterator is invalid.
    key: KeyVec,
    /// Byte range of the current value within the block's data.
    value_range: (usize, usize),
    /// Index of the current entry.
    idx: usize,
    /// Cached copy of the block's first key, for prefix reconstruction.
    first_key: KeyVec,
}

impl BlockIterator {
    /// The block's serialized entry data.
    pub closed spec fn spec_data(&self) -> Seq<u8> {
        (*self.block).data@
    }

    /// The block's entry offsets.
    pub closed spec fn spec_offsets(&self) -> Seq<u16> {
        (*self.block).offsets@
    }

    /// The block this iterator reads.
    pub closed spec fn spec_block(&self) -> Block {
        *self.block
    }

    /// The block's decoded entries.
    pub open spec fn entries(&self) -> Seq<EntryModel> {
        self.spec_block().entries()
    }

    /// The iterator points at an entry.
    pub closed spec fn spec_valid(&self) -> bool {
        self.key@.bytes.len() > 0
    }

    /// Index of the current entry, meaningful only while valid.
    pub closed spec fn spec_idx(&self) -> int {
        self.idx as int
    }

    pub closed spec fn inv(&self) -> bool {
        &&& block_wf(self.spec_data(), self.spec_offsets())
        &&& self.first_key@.bytes == first_key_bytes(self.spec_data())
        &&& self.first_key@.version == entry_version(self.spec_data(), 0)
        &&& self.spec_valid() ==> {
            &&& self.spec_idx() < self.entries().len()
            &&& self.key@ == self.entries()[self.spec_idx()].key
            &&& self.value_range.0 <= self.value_range.1 <= self.spec_data().len()
            &&& self.spec_data().subrange(self.value_range.0 as int, self.value_range.1 as int)
                == self.entries()[self.spec_idx()].value
        }
    }

    fn new(block: Arc<Block>) -> (r: BlockIterator)
        requires
            (*block).wf(),
        ensures
            r.inv(),
            !r.spec_valid(),
            r.spec_block() == *block,
    {
        let first_key = block.get_first_key();
        BlockIterator { first_key, block, key: KeyVec::new(), value_range: (0, 0), idx: 0 }
    }

    /// Creates a block iterator positioned on the block's first entry.
    pub fn create_and_seek_to_first(block: Arc<Block>) -> (r: BlockIterator)
        requires
            (*block).wf(),
        ensures
            r.inv(),
            r.spec_block() == *block,
            r.spec_valid(),
            r.spec_idx() == 0,
    {
        let mut iter = BlockIterator::new(block);
        iter.seek_to_first();
        iter
    }

    /// Creates a block iterator positioned on the first entry whose key is
    /// greater than or equal to `key`, or invalid if there is none.
    pub fn create_and_seek_to_key(block: Arc<Block>, key: &KeyVec) -> (r: BlockIterator)
        requires
            (*block).wf(),
            entries_sorted((*block).entries()),
        ensures
            r.inv(),
            r.spec_block() == *block,
            r.spec_valid() ==> r.spec_idx() < (*block).entries().len(),
            (exists|i: int|
                0 <= i < (*block).entries().len() && key_le(key@, (*block).entries()[i].key))
                ==> r.spec_valid() && key_le(key@, (*block).entries()[r.spec_idx()].key) && (
            forall|j: int| 0 <= j < r.spec_idx() ==> key_lt((*block).entries()[j].key, key@)),
            (forall|i: int|
                0 <= i < (*block).entries().len() ==> key_lt((*block).entries()[i].key, key@))
                ==> !r.spec_valid(),
    {
        let mut iter = BlockIterator::new(block);
        iter.seek_to_key(key);
        iter
    }

    /// The key of the current entry.
    pub fn key(&self) -> (k: &KeyVec)
        requires
            self.inv(),
            self.spec_valid(),
        ensures
            k@ == self.entries()[self.spec_idx()].key,
    {
        &self.key
    }

    /// The value of the current entry, as a view into the block's buffer.
    pub fn value(&self) -> (v: &[u8])
        requires
            self.inv(),
            self.spec_valid(),
        ensures
            v@ == self.entries()[self.spec_idx()].value,
    {
        vstd::slice::slice_subrange(self.block.data.as_slice(), self.value_range.0, self.value_range.1)
    }

    /// True iff the iterator points at an entry.
    pub fn is_valid(&self) -> (r: bool)
        ensures
            r == self.spec_valid(),
    {
        self.key.bytes.len() > 0
    }

    /// Decodes exactly one entry at the raw byte offset `offset`, updating
    /// the current key and value range. The entry index is not updated; the
    /// caller tracks it.
    fn seek_to_offset(&mut self, offset: usize)
        requires
            old(self).inv(),
            entry_wf(
                old(self).spec_data(),
                offset as int,
                first_key_bytes(old(self).spec_data()),
            ),
        ensures
            final(self).block == old(self).block,
            final(self).first_key == old(self).first_key,
            final(self).idx == old(self).idx,
            final(self).key@ == entry_model(
                old(self).spec_data(),
                offset as int,
                first_key_bytes(old(self).spec_data()),
            ).key,
            final(self).spec_valid(),
            final(self).value_range.0 <= final(self).value_range.1 <= old(
                self,
            ).spec_data().len(),
            old(self).spec_data().subrange(
                final(self).value_range.0 as int,
                final(self).value_range.1 as int,
            ) == entry_model(
                old(self).spec_data(),
                offset as int,
                first_key_bytes(old(self).spec_data()),
            ).value,
    {
        // the exec length pins the buffer's size, so the index sums fit usize
        let n = self.block.data.len();
        let overlap = read_u16(&self.block.data, offset) as usize;
        let suffix_len = read_u16(&self.block.data, offset + 2) as usize;
        let mut key_bytes: Vec<u8> = Vec::new();
        push_byte_range(&mut key_bytes, &self.first_key.bytes, 0, overlap);
        push_byte_range(&mut key_bytes, &self.block.data, offset + 4, offset + 4 + suffix_len);
        let version = read_u64(&self.block.data, offset + 4 + suffix_len);
        let value_len = read_u16(&self.block.data, offset + 12 + suffix_len) as usize;
        let value_begin = offset + 14 + suffix_len;
        let value_end = value_begin + value_len;
        proof {
            let d = self.spec_data();
            let fb = first_key_bytes(d);
            assert(self.first_key@.bytes.subrange(0, overlap as int) =~= fb.take(overlap as int));
            assert(key_bytes@ =~= fb.take(overlap as int) + d.subrange(
                offset + 4,
                offset + 4 + suffix_len,
            ));
        }
        self.key = KeyVec::from_vec_with_version(key_bytes, version);
        self.value_range = (value_begin, value_end);
        proof {
            let d = self.spec_data();
            let fb = first_key_bytes(d);
            assert(self.key@.bytes.len() > 0);
        }
    }

    /// Seeks to the `idx`-th entry; out-of-range `idx` invalidates the
    /// iterator.
    fn seek_to(&mut self, idx: usize)
        requires
            old(self).inv(),
        ensures
            final(self).inv(),
            final(self).spec_block() == old(self).spec_block(),
            idx < old(self).entries().len() ==> final(self).spec_valid() && final(self).spec_idx()
                == idx,
            idx >= old(self).entries().len() ==> !final(self).spec_valid(),
    {
        if idx >= self.block.offsets.len() {
            self.key = KeyVec::new();
            self.value_range = (0, 0);
            return ;
        }
        proof {
            assert(entry_wf(
                self.spec_data(),
                self.spec_offsets()[idx as int] as int,
                first_key_bytes(self.spec_data()),
            ));
        }
        let offset = self.block.offsets[idx] as usize;
        self.seek_to_offset(offset);
        self.idx = idx;
    }

    /// Seeks to the first entry in the block.
    pub fn seek_to_first(&mut self)
        requires
            old(self).inv(),
        ensures
            final(self).inv(),
            final(self).spec_block() == old(self).spec_block(),
            final(self).spec_valid(),
            final(self).spec_idx() == 0,
    {
        self.seek_to(0);
    }

    /// Moves to the next entry; moving past the last entry invalidates the
    /// iterator.
    #[verifier::rlimit(100)]
    pub fn next(&mut self)
        requires
            old(self).inv(),
            old(self).spec_valid(),
        ensures
            final(self).inv(),
            final(self).spec_block() == old(self).spec_block(),
            old(self).spec_idx() + 1 < old(self).entries().len() ==> final(self).spec_valid()
                && final(self).spec_idx() == old(self).spec_idx() + 1,
            old(self).spec_idx() + 1 >= old(self).entries().len() ==> !final(self).spec_valid(),
    {
        // the exec length pins the entry count, so the increment fits usize
        let n = self.block.offsets.len();
        let next_idx = self.idx + 1;
        self.seek_to(next_idx);
    }

    /// Seeks to the first entry whose key is greater than or equal to `key`
    /// in the key-with-version order, or past the end if there is none. The
    /// block's entries must be sorted. An exact match is found directly.
    #[verifier::rlimit(100)]
    #[verifier::spinoff_prover]
    pub fn seek_to_key(&mut self, key: &KeyVec)
        requires
            old(self).inv(),
            entries_sorted(old(self).entries()),
        ensures
            final(self).inv(),
            final(self).spec_block() == old(self).spec_block(),
            final(self).spec_valid() ==> final(self).spec_idx() < old(self).entries().len(),
            (exists|i: int|
                0 <= i < old(self).entries().len() && key_le(key@, old(self).entries()[i].key))
                ==> final(self).spec_valid() && key_le(
                key@,
                old(self).entries()[final(self).spec_idx()].key,
            ) && (forall|j: int|
                0 <= j < final(self).spec_idx() ==> key_lt(old(self).entries()[j].key, key@)),
            (forall|i: int|
                0 <= i < old(self).entries().len() ==> key_lt(old(self).entries()[i].key, key@))
                ==> !final(self).spec_valid(),
    {
        let ghost es = self.entries();
        let mut low: usize = 0;
        let mut high: usize = self.block.offsets.len();
        while low < high
            invariant
                self.inv(),
                self.spec_block() == old(self).spec_block(),
                entries_sorted(es),
                es == self.entries(),
                es == old(self).entries(),
                low <= high <= es.len(),
                forall|j: int| 0 <= j < low ==> key_lt(es[j].key, key@),
                forall|j: int| high <= j < es.len() ==> key_le(key@, es[j].key),
            decreases high - low,
        {
            let mid = low + (high - low) / 2;
            self.seek_to(mid);
            match self.key.compare(key) {
                KeyOrdering::Less => {
                    proof {
                        assert forall|j: int| 0 <= j < mid + 1 implies key_lt(
                            es[j].key,
                            key@,
                        ) by {
                            if j < mid {
                                lemma_key_lt_trans(es[j].key, es[mid as int].key, key@);
                            }
                        }
                    }
                    low = mid + 1;
                },
                KeyOrdering::Greater => {
                    proof {
                        assert forall|j: int| mid <= j < es.len() implies key_le(
                            key@,
                            es[j].key,
                        ) by {
                            if j > mid {
                                lemma_key_lt_trans(key@, es[mid as int].key, es[j].key);
                            }
                        }
                    }
                    high = mid;
                },
                KeyOrdering::Equal => {
                    proof {
                        lemma_key_trichotomy(es[mid as int].key, key@);
                    }
                    return ;
                },
            }
        }
        self.seek_to(low);
        proof {
            if low < es.len() {
                assert(key_le(key@, es[low as int].key));
                lemma_key_trichotomy(es[low as int].key, key@);
            } else {
                assert forall|i: int| 0 <= i < es.len() implies !key_le(key@, es[i].key) by {
                    lemma_key_trichotomy(es[i].key, key@);
                }
            }
        }
    }
}

impl crate::iterators::StorageIterator for BlockIterator {
    open spec fn sp_inv(&self) -> bool {
        self.inv() && entries_sorted(self.entries())
    }

    open spec fn sp_valid(&self) -> bool {
        self.spec_valid()
    }

    open spec fn sp_key(&self) -> crate::key::KeyModel {
        self.entries()[self.spec_idx()].key
    }

    open spec fn sp_value(&self) -> Seq<u8> {
        self.entries()[self.spec_idx()].value
    }

    open spec fn sp_active(&self) -> nat {
        if self.spec_valid() {
            1nat
        } else {
            0nat
        }
    }

    fn key(&self) -> (k: &KeyVec) {
        self.key()
    }

    fn value(&self) -> (v: &[u8]) {
        self.value()
    }

    fn is_valid(&self) -> (r: bool) {
        self.is_valid()
    }

    fn next(&mut self) -> (r: Result<(), crate::iterators::IterError>) {
        self.next();
        Ok(())
    }

    fn num_active_iterators(&self) -> (r: usize) {
        if self.is_valid() {
            1
        } else {
            0
        }
    }
}

} // verus!
